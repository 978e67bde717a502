use pan_solver::cache::{CacheError, OptimalCache};
use pan_solver::codec::{State, StateError};
use pan_solver::state::{CardsHand, Turn, VerboseState};

fn mk(player: [u8; 6], opponent: [u8; 6], stack: [u8; 6], turn: Turn) -> VerboseState {
    VerboseState {
        player_hand: CardsHand { cards: player },
        opponent_hand: CardsHand { cards: opponent },
        table_stack: CardsHand { cards: stack },
        turn,
    }
}

#[test]
fn encode_decode_round_trip_initial() {
    let s = VerboseState::initial();
    let k = State::encode(&s).expect("initial encodes");
    let back = k.decode();
    assert_eq!(back, s);
    let k2 = State::encode(&back).expect("decoded state encodes");
    assert_eq!(k2, k);
}

#[test]
fn encode_decode_round_trip_various() {
    let states = [
        mk(
            [0, 0, 0, 0, 0, 0],
            [4, 4, 4, 4, 4, 3],
            [0, 0, 0, 0, 0, 0],
            Turn::Player,
        ),
        mk(
            [4, 4, 4, 4, 4, 3],
            [0, 0, 0, 0, 0, 0],
            [0, 0, 0, 0, 0, 0],
            Turn::Opponent,
        ),
        mk(
            [1, 2, 0, 3, 2, 1],
            [1, 1, 2, 0, 1, 1],
            [2, 1, 2, 1, 1, 1],
            Turn::Opponent,
        ),
    ];
    for s in states {
        let k = State::encode(&s).expect("encodes");
        assert_eq!(k.decode(), s);
        assert_eq!(State::encode(&k.decode()).unwrap(), k);
    }
}

#[test]
fn random_round_trips() {
    for _ in 0..100 {
        let s = VerboseState::random();
        let k = State::encode(&s).expect("random state encodes");
        assert_eq!(k.decode(), s);
    }
}

#[test]
fn encode_rejects_invalid_position() {
    // One ace too many: the strongest rank sums to five.
    let s = mk(
        [3, 2, 2, 2, 2, 2],
        [2, 2, 2, 2, 2, 1],
        [0, 0, 0, 0, 0, 0],
        Turn::Player,
    );
    assert_eq!(State::encode(&s), Err(StateError::InvalidPosition));
}

#[test]
fn distinct_states_get_distinct_keys() {
    let a = State::encode(&VerboseState::initial()).unwrap();
    let mut other = VerboseState::initial();
    other.turn = Turn::Opponent;
    let b = State::encode(&other).unwrap();
    assert_ne!(a.key(), b.key());
    let mut third = VerboseState::initial();
    third.player_hand.cards[0] = 1;
    third.table_stack.cards[0] = 1;
    let c = State::encode(&third).unwrap();
    assert_ne!(a.key(), c.key());
}

#[test]
fn cache_starts_empty() {
    let c = OptimalCache::new();
    assert_eq!(c.len(), 0);
    let k = State::encode(&VerboseState::initial()).unwrap();
    assert_eq!(c.get_state_winningness(k), None);
}

#[test]
fn cache_records_outcomes() {
    let mut c = OptimalCache::new();
    let k = State::encode(&VerboseState::initial()).unwrap();
    c.insert(Some(Turn::Player), k.key());
    assert_eq!(c.get_state_winningness(k), Some(Some(Turn::Player)));
    assert_eq!(c.len(), 1);
}

#[test]
fn cache_bytes_round_trip() {
    let mut c = OptimalCache::new();
    c.insert(Some(Turn::Player), 7);
    c.insert(Some(Turn::Player), 3);
    c.insert(Some(Turn::Opponent), 9);
    c.insert(None, 11);
    let bytes = c.to_bytes().expect("serializes");
    let back = OptimalCache::from_bytes(&bytes).expect("parses");
    assert_eq!(back.classify_key(7), Some(Some(Turn::Player)));
    assert_eq!(back.classify_key(3), Some(Some(Turn::Player)));
    assert_eq!(back.classify_key(9), Some(Some(Turn::Opponent)));
    assert_eq!(back.classify_key(11), Some(None));
    assert_eq!(back.classify_key(5), None);
    assert_eq!(back.len(), 4);
    // A second serialization of the parsed cache is byte-identical.
    assert_eq!(back.to_bytes().unwrap(), bytes);
}

#[test]
fn empty_cache_serializes_to_three_zero_counts() {
    let c = OptimalCache::new();
    let bytes = c.to_bytes().unwrap();
    assert_eq!(bytes, vec![0u8; 12]);
    let back = OptimalCache::from_bytes(&bytes).expect("parses");
    assert_eq!(back.len(), 0);
}

#[test]
fn keys_serialize_sorted_and_little_endian() {
    let mut c = OptimalCache::new();
    c.insert(Some(Turn::Player), 0x01020304);
    c.insert(Some(Turn::Player), 0x0102);
    let bytes = c.to_bytes().unwrap();
    let expected = vec![
        2, 0, 0, 0, // two player-win keys
        0x02, 0x01, 0, 0, // the smaller key first
        0x04, 0x03, 0x02, 0x01, // then the larger
        0, 0, 0, 0, // no opponent wins
        0, 0, 0, 0, // no draws
    ];
    assert_eq!(bytes, expected);
}

#[test]
fn malformed_cache_bytes_rejected() {
    assert_eq!(
        OptimalCache::from_bytes(&vec![0u8; 3]).err(),
        Some(CacheError::Malformed)
    );
    // Count says one key but none follows.
    assert_eq!(
        OptimalCache::from_bytes(&vec![1, 0, 0, 0, 0, 0, 0, 0, 0, 0, 0, 0]).err(),
        Some(CacheError::Malformed)
    );
    // Trailing byte after a valid empty cache.
    assert_eq!(
        OptimalCache::from_bytes(&vec![0u8; 13]).err(),
        Some(CacheError::Malformed)
    );
    // Truncated in the middle of the bucket counts.
    assert_eq!(
        OptimalCache::from_bytes(&vec![0u8; 8]).err(),
        Some(CacheError::Malformed)
    );
}

#[test]
fn duplicate_key_keeps_first_bucket() {
    // The same key listed as a player win and as a draw: the stronger,
    // first-listed outcome wins, matching lookup priority.
    let bytes = vec![
        1, 0, 0, 0, 42, 0, 0, 0, // player wins: {42}
        0, 0, 0, 0, // no opponent wins
        1, 0, 0, 0, 42, 0, 0, 0, // draws: {42} again
    ];
    let c = OptimalCache::from_bytes(&bytes).expect("parses");
    assert_eq!(c.classify_key(42), Some(Some(Turn::Player)));
    assert_eq!(c.len(), 1);
}
