use pan_solver::cache::OptimalCache;
use pan_solver::codec::State;
use pan_solver::state::{CardsHand, MoveDescription, Turn, VerboseState};
use pan_solver::strategy::{Optimal, Random, Strategy};

fn mk(player: [u8; 6], opponent: [u8; 6], stack: [u8; 6], turn: Turn) -> VerboseState {
    VerboseState {
        player_hand: CardsHand { cards: player },
        opponent_hand: CardsHand { cards: opponent },
        table_stack: CardsHand { cards: stack },
        turn,
    }
}

/// The smallest solvable endgame: the player holds a single ace and the
/// stack is empty, so the one legal move ends the game at once.
fn last_card_start() -> VerboseState {
    mk(
        [1, 0, 0, 0, 0, 0],
        [3, 4, 4, 4, 4, 3],
        [0, 0, 0, 0, 0, 0],
        Turn::Player,
    )
}

#[test]
fn solver_classifies_every_reachable_position() {
    let start = last_card_start();
    let mut cache = OptimalCache::new();
    Optimal::new_with_mut_cache(&start, &mut cache);

    let mut frontier = vec![start];
    while let Some(s) = frontier.pop() {
        let k = State::encode(&s).unwrap();
        assert!(
            cache.get_state_winningness(k).is_some(),
            "unclassified reachable position"
        );
        for t in s.following_states() {
            frontier.push(t);
        }
    }
    // The start and the single terminal position it reaches.
    assert_eq!(cache.len(), 2);
}

#[test]
fn solver_start_is_winning_for_player() {
    // The player can empty their hand in one move.
    let start = last_card_start();
    let mut cache = OptimalCache::new();
    let opt = Optimal::new_with_mut_cache(&start, &mut cache);
    assert_eq!(opt.get_winning_turn(&start), Some(Turn::Player));
}

#[test]
fn terminal_reached_by_move_wins_for_emptied_side() {
    let start = last_card_start();
    let mut cache = OptimalCache::new();
    Optimal::new_with_mut_cache(&start, &mut cache);

    // Playing the player's last ace empties the player's hand.
    let win_state = mk(
        [0, 0, 0, 0, 0, 0],
        [3, 4, 4, 4, 4, 3],
        [1, 0, 0, 0, 0, 0],
        Turn::Opponent,
    );
    let k = State::encode(&win_state).unwrap();
    assert_eq!(cache.get_state_winningness(k), Some(Some(Turn::Player)));

    // The mirrored endgame is won by the opponent.
    let mirrored = mk(
        [3, 4, 4, 4, 4, 3],
        [1, 0, 0, 0, 0, 0],
        [0, 0, 0, 0, 0, 0],
        Turn::Opponent,
    );
    let mut cache2 = OptimalCache::new();
    let opt2 = Optimal::new_with_mut_cache(&mirrored, &mut cache2);
    assert_eq!(opt2.get_winning_turn(&mirrored), Some(Turn::Opponent));
}

#[test]
fn resolving_adds_no_keys_and_keeps_bytes_identical() {
    let start = last_card_start();
    let mut cache = OptimalCache::new();
    Optimal::new_with_mut_cache(&start, &mut cache);
    let len1 = cache.len();
    let bytes1 = cache.to_bytes().unwrap();

    Optimal::new_with_mut_cache(&start, &mut cache);
    assert_eq!(cache.len(), len1);
    assert_eq!(cache.to_bytes().unwrap(), bytes1);
}

#[test]
fn solver_reuses_existing_classifications() {
    let start = last_card_start();
    let mut cache = OptimalCache::new();
    Optimal::new_with_mut_cache(&start, &mut cache);
    let before = cache.len();

    // Solving again from a position inside the covered region adds nothing.
    let inner = start.following_states()[0];
    Optimal::new_with_mut_cache(&inner, &mut cache);
    assert_eq!(cache.len(), before);
}

#[test]
fn solver_preserves_loaded_classifications() {
    // A key already classified keeps its outcome even when a run reaches it.
    let start = last_card_start();
    let terminal_key = State::encode(&start.following_states()[0]).unwrap().key();
    let mut cache = OptimalCache::new();
    cache.insert(None, terminal_key);
    Optimal::new_with_mut_cache(&start, &mut cache);
    assert_eq!(cache.classify_key(terminal_key), Some(None));
}

/// Classifies every position one move after `s` with the given outcomes and
/// returns the filled cache.
fn cache_for_successors(s: &VerboseState, outcomes: &[Option<Turn>]) -> OptimalCache {
    let moves = s.possible_moves();
    assert_eq!(moves.len(), outcomes.len());
    let mut cache = OptimalCache::new();
    for (m, o) in moves.iter().zip(outcomes.iter()) {
        let k = State::encode(&m.state).unwrap().key();
        if cache.classify_key(k).is_none() {
            cache.insert(*o, k);
        }
    }
    cache
}

#[test]
fn optimal_policy_prefers_a_winning_move() {
    // The standard start has six single-card moves; mark the fourth as the
    // mover's win, the rest as losses.
    let s = VerboseState::initial();
    let outcomes = [
        Some(Turn::Opponent),
        Some(Turn::Opponent),
        Some(Turn::Opponent),
        Some(Turn::Player),
        Some(Turn::Opponent),
        Some(Turn::Opponent),
    ];
    let cache = cache_for_successors(&s, &outcomes);
    let opt = Optimal { cache: &cache };
    let m = opt.get_next_move(&s).expect("not terminal");
    assert_eq!(m.desc, MoveDescription::PutSingle(3));
}

#[test]
fn optimal_policy_prefers_draw_over_loss() {
    let s = VerboseState::initial();
    let outcomes = [
        Some(Turn::Opponent),
        Some(Turn::Opponent),
        None,
        Some(Turn::Opponent),
        Some(Turn::Opponent),
        Some(Turn::Opponent),
    ];
    let cache = cache_for_successors(&s, &outcomes);
    let opt = Optimal { cache: &cache };
    let m = opt.get_next_move(&s).expect("not terminal");
    assert_eq!(m.desc, MoveDescription::PutSingle(2));
}

#[test]
fn optimal_policy_accepts_a_forced_loss() {
    let s = VerboseState::initial();
    let outcomes = [Some(Turn::Opponent); 6];
    let cache = cache_for_successors(&s, &outcomes);
    let opt = Optimal { cache: &cache };
    let m = opt.get_next_move(&s).expect("not terminal");
    assert!(matches!(m.desc, MoveDescription::PutSingle(_)));
}

#[test]
fn optimal_policy_none_on_terminal() {
    let terminal = mk(
        [0, 0, 0, 0, 0, 0],
        [3, 4, 4, 4, 4, 3],
        [1, 0, 0, 0, 0, 0],
        Turn::Opponent,
    );
    let mut cache = OptimalCache::new();
    let opt = Optimal::new_with_mut_cache(&terminal, &mut cache);
    assert!(opt.get_next_move(&terminal).is_none());
}

#[test]
fn random_policy_returns_some_legal_move() {
    let r = Random;
    let start = VerboseState::initial();
    for _ in 0..20 {
        let m = r.get_next_move(&start).expect("initial is not terminal");
        assert!(matches!(m.desc, MoveDescription::PutSingle(_)));
    }
    let terminal = mk(
        [0, 0, 0, 0, 0, 0],
        [4, 4, 4, 4, 4, 3],
        [0, 0, 0, 0, 0, 0],
        Turn::Player,
    );
    assert!(r.get_next_move(&terminal).is_none());
}
