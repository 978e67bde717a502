use pan_solver::state::{CardsHand, MoveDescription, Turn, VerboseState};

fn mk(player: [u8; 6], opponent: [u8; 6], stack: [u8; 6], turn: Turn) -> VerboseState {
    VerboseState {
        player_hand: CardsHand { cards: player },
        opponent_hand: CardsHand { cards: opponent },
        table_stack: CardsHand { cards: stack },
        turn,
    }
}

fn sums_ok(s: &VerboseState) -> bool {
    (0..6).all(|i| {
        let cap = if i < 5 { 4 } else { 3 };
        s.player_hand.cards[i] + s.opponent_hand.cards[i] + s.table_stack.cards[i] == cap
    })
}

#[test]
fn turn_alternates() {
    assert_eq!(Turn::Player.next(), Turn::Opponent);
    assert_eq!(Turn::Opponent.next(), Turn::Player);
}

#[test]
fn rank_capacities() {
    for i in 0..5 {
        assert_eq!(CardsHand::card_idx_to_cnt(i), 4);
    }
    assert_eq!(CardsHand::card_idx_to_cnt(5), 3);
}

#[test]
fn initial_deal_is_standard() {
    let s = VerboseState::initial();
    assert_eq!(s.player_hand.cards, [2, 2, 2, 2, 2, 2]);
    assert_eq!(s.opponent_hand.cards, [2, 2, 2, 2, 2, 1]);
    assert_eq!(s.table_stack.cards, [0, 0, 0, 0, 0, 0]);
    assert_eq!(s.turn, Turn::Player);
    assert!(sums_ok(&s));
    assert!(!s.is_game_finished());
}

#[test]
fn scenario_initial_deal_moves() {
    // Standard start: exactly one single-card play per held rank, no sweeps
    // (no rank is complete in hand), no take (the stack is empty).
    let s = VerboseState::initial();
    let moves = s.possible_moves();
    assert_eq!(moves.len(), 6);
    for i in 0..6 {
        assert!(moves
            .iter()
            .any(|m| m.desc == MoveDescription::PutSingle(i)));
    }
    assert!(!moves
        .iter()
        .any(|m| matches!(m.desc, MoveDescription::PutAll(_))));
    assert!(!moves.iter().any(|m| m.desc == MoveDescription::Take));
}

#[test]
fn scenario_take_collects_top_cards() {
    // Two cards of the top rank and one of a weaker rank on the stack; the
    // mover holds none of the top rank. The take must collect exactly those
    // three, top-down, and appear exactly once.
    let s = mk(
        [2, 0, 2, 1, 2, 2],
        [2, 2, 2, 2, 2, 1],
        [0, 2, 0, 1, 0, 0],
        Turn::Player,
    );
    assert!(sums_ok(&s));
    let moves = s.possible_moves();
    let takes: Vec<_> = moves
        .iter()
        .filter(|m| m.desc == MoveDescription::Take)
        .collect();
    assert_eq!(takes.len(), 1);
    let t = &takes[0].state;
    assert_eq!(t.player_hand.cards, [2, 2, 2, 2, 2, 2]);
    assert_eq!(t.table_stack.cards, [0, 0, 0, 0, 0, 0]);
    assert_eq!(t.opponent_hand.cards, s.opponent_hand.cards);
    assert_eq!(t.turn, Turn::Opponent);
    // The only put allowed is a single card of the strongest rank: the top
    // of the stack blocks everything weaker.
    assert_eq!(moves.len(), 2);
    assert!(moves
        .iter()
        .any(|m| m.desc == MoveDescription::PutSingle(0)));
}

#[test]
fn take_leaves_remainder_on_stack() {
    // Four cards of one rank on the stack: the take stops after three.
    let s = mk(
        [2, 0, 2, 2, 2, 2],
        [2, 0, 2, 2, 2, 1],
        [0, 4, 0, 0, 0, 0],
        Turn::Player,
    );
    assert!(sums_ok(&s));
    let moves = s.possible_moves();
    let take = moves
        .iter()
        .find(|m| m.desc == MoveDescription::Take)
        .expect("take available");
    assert_eq!(take.state.player_hand.cards, [2, 3, 2, 2, 2, 2]);
    assert_eq!(take.state.table_stack.cards, [0, 1, 0, 0, 0, 0]);
}

#[test]
fn sweep_move_offered_for_complete_rank() {
    let s = mk(
        [4, 2, 2, 2, 2, 2],
        [0, 2, 2, 2, 2, 1],
        [0, 0, 0, 0, 0, 0],
        Turn::Player,
    );
    assert!(sums_ok(&s));
    let moves = s.possible_moves();
    let sweep = moves
        .iter()
        .find(|m| m.desc == MoveDescription::PutAll(0))
        .expect("sweep available");
    assert_eq!(sweep.state.player_hand.cards[0], 0);
    assert_eq!(sweep.state.table_stack.cards[0], 4);
    assert_eq!(sweep.state.turn, Turn::Opponent);
}

#[test]
fn terminal_position_has_no_moves() {
    let s = mk(
        [0, 0, 0, 0, 0, 0],
        [4, 4, 4, 4, 4, 3],
        [0, 0, 0, 0, 0, 0],
        Turn::Player,
    );
    assert!(s.is_game_finished());
    assert!(s.possible_moves().is_empty());
    assert!(s.following_states().is_empty());
}

#[test]
fn moves_preserve_hand_invariant() {
    let mut frontier = vec![VerboseState::initial()];
    for _ in 0..3 {
        let mut next = Vec::new();
        for s in &frontier {
            for t in s.following_states() {
                assert!(sums_ok(&t));
                next.push(t);
            }
        }
        frontier = next;
    }
}

#[test]
fn predecessors_preserve_hand_invariant() {
    let s = mk(
        [2, 0, 2, 1, 2, 2],
        [2, 2, 2, 2, 2, 1],
        [0, 2, 0, 1, 0, 0],
        Turn::Player,
    );
    for p in s.preceding_states() {
        assert!(sums_ok(&p));
        assert!(!p.is_game_finished());
    }
}

#[test]
fn random_positions_keep_hand_invariant() {
    for _ in 0..50 {
        let s = VerboseState::random();
        assert!(sums_ok(&s));
        assert_eq!(s.turn, Turn::Player);
    }
}

#[test]
fn move_inverse_duality_from_initial() {
    // Every move's result lists the source among its predecessors.
    let s = VerboseState::initial();
    for m in s.possible_moves() {
        let preds = m.state.preceding_states();
        assert!(preds.iter().any(|p| *p == s), "missing predecessor");
    }
}

#[test]
fn move_inverse_duality_two_plies() {
    let s0 = VerboseState::initial();
    for m0 in s0.possible_moves() {
        for m1 in m0.state.possible_moves() {
            let preds = m1.state.preceding_states();
            assert!(preds.iter().any(|p| *p == m0.state));
        }
    }
}

#[test]
fn predecessors_are_real_predecessors() {
    let s = mk(
        [2, 0, 2, 1, 2, 2],
        [2, 2, 2, 2, 2, 1],
        [0, 2, 0, 1, 0, 0],
        Turn::Player,
    );
    for p in s.preceding_states() {
        assert!(p.following_states().iter().any(|t| *t == s));
    }
}
