use vstd::prelude::*;

verus! {

broadcast use vstd::array::group_array_axioms;

/// Number of distinct card ranks, strongest first.
pub const CARD_TYPES: usize = 6;

/// How many cards of the rank with this index exist in play: four for each of
/// the five strongest ranks, three for the weakest.
pub open spec fn rank_capacity(i: int) -> nat {
    if i < 5 {
        4
    } else {
        3
    }
}

/// The side whose turn it is to act.
#[derive(Clone, Copy, Debug, PartialEq, Eq, Hash, Structural)]
pub enum Turn {
    Player,
    Opponent,
}

impl Turn {
    pub open spec fn spec_next(self) -> Turn {
        match self {
            Turn::Player => Turn::Opponent,
            Turn::Opponent => Turn::Player,
        }
    }

    /// The side that moves after this one.
    #[verifier::when_used_as_spec(spec_next)]
    pub fn next(self) -> (r: Self)
        ensures
            r == self.spec_next(),
    {
        match self {
            Turn::Player => Turn::Opponent,
            Turn::Opponent => Turn::Player,
        }
    }
}

/// Per-rank card counts held by a player or lying on the table stack.
/// Sorted as: [Aces, Kings, Queens, Jacks, Tens, Nines].
#[derive(Clone, Copy, Debug, PartialEq, Eq)]
pub struct CardsHand {
    pub cards: [u8; 6],
}

impl View for CardsHand {
    type V = Seq<u8>;

    open spec fn view(&self) -> Seq<u8> {
        self.cards@
    }
}

impl CardsHand {
    pub open spec fn spec_empty(self) -> bool {
        forall|i: int| 0 <= i < 6 ==> self@[i] == 0
    }

    /// A hand holding no cards at all.
    pub fn empty() -> (r: Self)
        ensures
            r.spec_empty(),
            forall|i: int| 0 <= i < 6 ==> r@[i] == 0,
    {
        CardsHand { cards: [0u8; 6] }
    }

    /// Whether no cards at all are held.
    pub fn is_empty(&self) -> (r: bool)
        ensures
            r == self.spec_empty(),
    {
        for i in 0..6
            invariant
                forall|j: int| 0 <= j < i ==> self@[j] == 0,
        {
            if self.cards[i] != 0 {
                assert(self@[i as int] != 0);
                return false;
            }
        }
        true
    }

    /// How many cards of the given rank are in play overall.
    pub fn card_idx_to_cnt(idx: usize) -> (r: usize)
        requires
            idx < 6,
        ensures
            r == rank_capacity(idx as int),
    {
        if idx < 5 {
            4
        } else {
            3
        }
    }
}

/// A full game position: both hands, the table stack, and whose turn it is.
#[derive(Clone, Copy, Debug, PartialEq, Eq)]
pub struct VerboseState {
    pub player_hand: CardsHand,
    pub opponent_hand: CardsHand,
    pub table_stack: CardsHand,
    pub turn: Turn,
}

/// A legal action: the position it leads to plus a tag describing the action.
#[derive(Clone, Copy, Debug)]
pub struct Move {
    pub state: VerboseState,
    pub desc: MoveDescription,
}

/// What a move does: put one card of a rank, put all remaining cards of a
/// rank, or take up to three cards from the top of the stack.
#[derive(Clone, Copy, Debug, PartialEq, Eq, Structural)]
pub enum MoveDescription {
    PutSingle(usize),
    PutAll(usize),
    Take,
}

impl VerboseState {
    /// The hand invariant: for every rank, the two hands and the stack
    /// together hold exactly that rank's capacity.
    pub open spec fn inv(self) -> bool {
        forall|i: int|
            0 <= i < 6 ==> self.player_hand@[i] + self.opponent_hand@[i] + self.table_stack@[i]
                == rank_capacity(i)
    }

    /// The hand of the side whose turn it is.
    pub open spec fn mover_hand(self) -> Seq<u8> {
        if self.turn is Player {
            self.player_hand@
        } else {
            self.opponent_hand@
        }
    }

    /// A position is terminal when either side has run out of cards.
    pub open spec fn is_terminal(self) -> bool {
        self.player_hand.spec_empty() || self.opponent_hand.spec_empty()
    }
}

/// No rank strictly stronger than `i` is represented on the stack, so the
/// mover may still extend the stack with rank `i`.
pub open spec fn rank_open(s: VerboseState, i: int) -> bool {
    forall|j: int| 0 <= j < i ==> s.table_stack@[j] == 0
}

pub open spec fn int_min(a: int, b: int) -> int {
    if a < b {
        a
    } else {
        b
    }
}

/// How the two hands and the stack change when the mover puts `n` cards of
/// rank `i` onto the stack: `t` is `s` with the cards moved and the turn
/// passed to the other side.
pub open spec fn hands_after_put(s: VerboseState, t: VerboseState, i: int, n: int) -> bool {
    &&& t.turn == s.turn.next()
    &&& t.table_stack@[i] as int == s.table_stack@[i] + n
    &&& forall|j: int| 0 <= j < 6 && j != i ==> t.table_stack@[j] == s.table_stack@[j]
    &&& (s.turn is Player ==> {
        &&& t.player_hand@[i] as int == s.player_hand@[i] - n
        &&& (forall|j: int| 0 <= j < 6 && j != i ==> t.player_hand@[j] == s.player_hand@[j])
        &&& t.opponent_hand@ == s.opponent_hand@
    })
    &&& (s.turn is Opponent ==> {
        &&& t.opponent_hand@[i] as int == s.opponent_hand@[i] - n
        &&& (forall|j: int| 0 <= j < 6 && j != i ==> t.opponent_hand@[j] == s.opponent_hand@[j])
        &&& t.player_hand@ == s.player_hand@
    })
}

/// The mover may play a single card of rank `i`.
pub open spec fn put_single_enabled(s: VerboseState, i: int) -> bool {
    &&& !s.is_terminal()
    &&& 0 <= i < 6
    &&& s.mover_hand()[i] > 0
    &&& rank_open(s, i)
}

pub open spec fn put_single_rel(s: VerboseState, t: VerboseState, i: int) -> bool {
    &&& put_single_enabled(s, i)
    &&& hands_after_put(s, t, i, 1)
}

/// The mover holds every card of rank `i` and may sweep them all onto the
/// stack at once.
pub open spec fn put_all_enabled(s: VerboseState, i: int) -> bool {
    &&& !s.is_terminal()
    &&& 0 <= i < 6
    &&& s.mover_hand()[i] == rank_capacity(i)
    &&& rank_open(s, i)
}

pub open spec fn put_all_rel(s: VerboseState, t: VerboseState, i: int) -> bool {
    &&& put_all_enabled(s, i)
    &&& hands_after_put(s, t, i, rank_capacity(i) as int)
}

/// How many of the three takeable cards are still unaccounted for after the
/// ranks strictly stronger than `i` have been scanned, strongest first.
pub open spec fn take_rem(st: Seq<u8>, i: int) -> int
    decreases i,
{
    if i <= 0 {
        3
    } else {
        take_rem(st, i - 1) - int_min(take_rem(st, i - 1), st[i - 1] as int)
    }
}

/// How many cards of rank `i` a take move removes from the stack.
pub open spec fn taken_at(st: Seq<u8>, i: int) -> int {
    int_min(take_rem(st, i), st[i] as int)
}

/// How many cards a take move removes from the stack in total.
pub open spec fn take_total(st: Seq<u8>) -> int {
    3 - take_rem(st, 6)
}

/// The mover may take from the stack: at least one card is there to take.
pub open spec fn take_enabled(s: VerboseState) -> bool {
    &&& !s.is_terminal()
    &&& take_total(s.table_stack@) > 0
}

/// How the position changes when the mover takes up to three cards from the
/// top of the stack, scanning strongest to weakest.
pub open spec fn take_rel(s: VerboseState, t: VerboseState) -> bool {
    &&& take_enabled(s)
    &&& t.turn == s.turn.next()
    &&& forall|i: int|
        0 <= i < 6 ==> t.table_stack@[i] as int == s.table_stack@[i] - taken_at(s.table_stack@, i)
    &&& (s.turn is Player ==> {
        &&& forall|i: int|
            0 <= i < 6 ==> t.player_hand@[i] as int == s.player_hand@[i] + taken_at(
                s.table_stack@,
                i,
            )
        &&& t.opponent_hand@ == s.opponent_hand@
    })
    &&& (s.turn is Opponent ==> {
        &&& forall|i: int|
            0 <= i < 6 ==> t.opponent_hand@[i] as int == s.opponent_hand@[i] + taken_at(
                s.table_stack@,
                i,
            )
        &&& t.player_hand@ == s.player_hand@
    })
}

/// Some single legal move leads from `s` to `t`.
pub open spec fn step_rel(s: VerboseState, t: VerboseState) -> bool {
    ||| exists|i: int| put_single_rel(s, t, i)
    ||| exists|i: int| put_all_rel(s, t, i)
    ||| take_rel(s, t)
}

/// The move `m` is a correctly formed legal move out of `s`.
pub open spec fn move_matches(s: VerboseState, m: Move) -> bool {
    match m.desc {
        MoveDescription::PutSingle(i) => put_single_rel(s, m.state, i as int),
        MoveDescription::PutAll(i) => put_all_rel(s, m.state, i as int),
        MoveDescription::Take => take_rel(s, m.state),
    }
}

pub proof fn lemma_take_rem_bounds(st: Seq<u8>, i: int)
    requires
        0 <= i,
        st.len() == 6,
        i <= 6,
    ensures
        0 <= take_rem(st, i) <= 3,
        take_rem(st, i) == 3 <==> (forall|j: int| 0 <= j < i ==> st[j] == 0),
    decreases i,
{
    if i > 0 {
        lemma_take_rem_bounds(st, i - 1);
    }
}

/// A legal move never disturbs the hand invariant (nor does an inverse one,
/// which walks the same relation backwards).
pub proof fn lemma_step_preserves_inv(s: VerboseState, t: VerboseState)
    requires
        s.inv(),
        step_rel(s, t),
    ensures
        t.inv(),
{
    if take_rel(s, t) {
        assert forall|i: int| 0 <= i < 6 implies t.player_hand@[i] + t.opponent_hand@[i]
            + t.table_stack@[i] == rank_capacity(i) by {
            assert(s.player_hand@[i] + s.opponent_hand@[i] + s.table_stack@[i] == rank_capacity(i));
        }
    } else if exists|i: int| put_single_rel(s, t, i) {
        let i = choose|i: int| put_single_rel(s, t, i);
        assert forall|j: int| 0 <= j < 6 implies t.player_hand@[j] + t.opponent_hand@[j]
            + t.table_stack@[j] == rank_capacity(j) by {
            assert(s.player_hand@[j] + s.opponent_hand@[j] + s.table_stack@[j] == rank_capacity(j));
        }
    } else {
        let i = choose|i: int| put_all_rel(s, t, i);
        assert forall|j: int| 0 <= j < 6 implies t.player_hand@[j] + t.opponent_hand@[j]
            + t.table_stack@[j] == rank_capacity(j) by {
            assert(s.player_hand@[j] + s.opponent_hand@[j] + s.table_stack@[j] == rank_capacity(j));
        }
    }
}

/// A single-card put at a given rank leads to exactly one position.
pub proof fn lemma_put_single_functional(s: VerboseState, i: int, t1: VerboseState, t2: VerboseState)
    requires
        put_single_rel(s, t1, i),
        put_single_rel(s, t2, i),
    ensures
        t1 == t2,
{
    assert forall|j: int| 0 <= j < 6 implies t1.table_stack.cards@[j] == t2.table_stack.cards@[j]
        by {
        assert(t1.table_stack@[j] == t2.table_stack@[j]);
    }
    assert forall|j: int| 0 <= j < 6 implies t1.player_hand.cards@[j] == t2.player_hand.cards@[j]
        by {
        if s.turn is Player {
            assert(t1.player_hand@[j] == t2.player_hand@[j]);
        } else {
            assert(t1.player_hand@ == s.player_hand@);
            assert(t2.player_hand@ == s.player_hand@);
        }
    }
    assert forall|j: int|
        0 <= j < 6 implies t1.opponent_hand.cards@[j] == t2.opponent_hand.cards@[j] by {
        if s.turn is Opponent {
            assert(t1.opponent_hand@[j] == t2.opponent_hand@[j]);
        } else {
            assert(t1.opponent_hand@ == s.opponent_hand@);
            assert(t2.opponent_hand@ == s.opponent_hand@);
        }
    }
    assert(t1.table_stack.cards =~= t2.table_stack.cards);
    assert(t1.player_hand.cards =~= t2.player_hand.cards);
    assert(t1.opponent_hand.cards =~= t2.opponent_hand.cards);
}

/// A full-rank sweep at a given rank leads to exactly one position.
pub proof fn lemma_put_all_functional(s: VerboseState, i: int, t1: VerboseState, t2: VerboseState)
    requires
        put_all_rel(s, t1, i),
        put_all_rel(s, t2, i),
    ensures
        t1 == t2,
{
    assert forall|j: int| 0 <= j < 6 implies t1.table_stack.cards@[j] == t2.table_stack.cards@[j]
        by {
        assert(t1.table_stack@[j] == t2.table_stack@[j]);
    }
    assert forall|j: int| 0 <= j < 6 implies t1.player_hand.cards@[j] == t2.player_hand.cards@[j]
        by {
        if s.turn is Player {
            assert(t1.player_hand@[j] == t2.player_hand@[j]);
        } else {
            assert(t1.player_hand@ == s.player_hand@);
            assert(t2.player_hand@ == s.player_hand@);
        }
    }
    assert forall|j: int|
        0 <= j < 6 implies t1.opponent_hand.cards@[j] == t2.opponent_hand.cards@[j] by {
        if s.turn is Opponent {
            assert(t1.opponent_hand@[j] == t2.opponent_hand@[j]);
        } else {
            assert(t1.opponent_hand@ == s.opponent_hand@);
            assert(t2.opponent_hand@ == s.opponent_hand@);
        }
    }
    assert(t1.table_stack.cards =~= t2.table_stack.cards);
    assert(t1.player_hand.cards =~= t2.player_hand.cards);
    assert(t1.opponent_hand.cards =~= t2.opponent_hand.cards);
}

/// The take move leads to exactly one position.
pub proof fn lemma_take_functional(s: VerboseState, t1: VerboseState, t2: VerboseState)
    requires
        take_rel(s, t1),
        take_rel(s, t2),
    ensures
        t1 == t2,
{
    assert forall|j: int| 0 <= j < 6 implies t1.table_stack.cards@[j] == t2.table_stack.cards@[j]
        by {
        assert(t1.table_stack@[j] == t2.table_stack@[j]);
    }
    assert forall|j: int| 0 <= j < 6 implies t1.player_hand.cards@[j] == t2.player_hand.cards@[j]
        by {
        if s.turn is Player {
            assert(t1.player_hand@[j] == t2.player_hand@[j]);
        } else {
            assert(t1.player_hand@ == s.player_hand@);
            assert(t2.player_hand@ == s.player_hand@);
        }
    }
    assert forall|j: int|
        0 <= j < 6 implies t1.opponent_hand.cards@[j] == t2.opponent_hand.cards@[j] by {
        if s.turn is Opponent {
            assert(t1.opponent_hand@[j] == t2.opponent_hand@[j]);
        } else {
            assert(t1.opponent_hand@ == s.opponent_hand@);
            assert(t2.opponent_hand@ == s.opponent_hand@);
        }
    }
    assert(t1.table_stack.cards =~= t2.table_stack.cards);
    assert(t1.player_hand.cards =~= t2.player_hand.cards);
    assert(t1.opponent_hand.cards =~= t2.opponent_hand.cards);
}

/// Walking a legal move backwards cannot disturb the hand invariant either:
/// a predecessor of an invariant-satisfying position satisfies it as well.
pub proof fn lemma_step_reflects_inv(s: VerboseState, t: VerboseState)
    requires
        t.inv(),
        step_rel(s, t),
    ensures
        s.inv(),
{
    if take_rel(s, t) {
        assert forall|i: int| 0 <= i < 6 implies s.player_hand@[i] + s.opponent_hand@[i]
            + s.table_stack@[i] == rank_capacity(i) by {
            assert(t.player_hand@[i] + t.opponent_hand@[i] + t.table_stack@[i] == rank_capacity(i));
        }
    } else if exists|i: int| put_single_rel(s, t, i) {
        let i = choose|i: int| put_single_rel(s, t, i);
        assert forall|j: int| 0 <= j < 6 implies s.player_hand@[j] + s.opponent_hand@[j]
            + s.table_stack@[j] == rank_capacity(j) by {
            assert(t.player_hand@[j] + t.opponent_hand@[j] + t.table_stack@[j] == rank_capacity(j));
        }
    } else {
        let i = choose|i: int| put_all_rel(s, t, i);
        assert forall|j: int| 0 <= j < 6 implies s.player_hand@[j] + s.opponent_hand@[j]
            + s.table_stack@[j] == rank_capacity(j) by {
            assert(t.player_hand@[j] + t.opponent_hand@[j] + t.table_stack@[j] == rank_capacity(j));
        }
    }
}

impl VerboseState {
    /// Whether the game is over: one of the two sides has no cards left.
    pub fn is_game_finished(&self) -> (r: bool)
        ensures
            r == self.is_terminal(),
    {
        self.player_hand.is_empty() || self.opponent_hand.is_empty()
    }

    fn get_current_hand(&self) -> (r: CardsHand)
        ensures
            r@ == self.mover_hand(),
    {
        match self.turn {
            Turn::Player => self.player_hand,
            Turn::Opponent => self.opponent_hand,
        }
    }

    fn set_current_hand(&mut self, h: CardsHand)
        ensures
            final(self).turn == old(self).turn,
            final(self).table_stack == old(self).table_stack,
            old(self).turn is Player ==> final(self).player_hand == h && final(self).opponent_hand
                == old(self).opponent_hand,
            old(self).turn is Opponent ==> final(self).opponent_hand == h
                && final(self).player_hand == old(self).player_hand,
    {
        match self.turn {
            Turn::Player => {
                self.player_hand = h;
            },
            Turn::Opponent => {
                self.opponent_hand = h;
            },
        }
    }

    /// All legal moves out of this position: for each rank still allowed on
    /// the stack, playing one card and sweeping a full rank, plus taking up
    /// to three cards from the top of the stack. A terminal position has no
    /// moves; a non-terminal one always has at least one.
    pub fn possible_moves(&self) -> (r: Vec<Move>)
        requires
            self.inv(),
        ensures
            forall|k: int| 0 <= k < r@.len() ==> move_matches(*self, #[trigger] r@[k]),
            forall|k: int| 0 <= k < r@.len() ==> (#[trigger] r@[k]).state.inv(),
            forall|i: int|
                #[trigger] put_single_enabled(*self, i) ==> exists|k: int|
                    0 <= k < r@.len() && (#[trigger] r@[k]).desc == MoveDescription::PutSingle(
                        i as usize,
                    ),
            forall|i: int|
                #[trigger] put_all_enabled(*self, i) ==> exists|k: int|
                    0 <= k < r@.len() && (#[trigger] r@[k]).desc == MoveDescription::PutAll(
                        i as usize,
                    ),
            take_enabled(*self) ==> exists|k: int|
                0 <= k < r@.len() && (#[trigger] r@[k]).desc == MoveDescription::Take,
            forall|k1: int, k2: int|
                0 <= k1 < r@.len() && 0 <= k2 < r@.len() && k1 != k2 ==> (#[trigger] r@[k1]).desc
                    != (#[trigger] r@[k2]).desc,
            self.is_terminal() ==> r@.len() == 0,
            !self.is_terminal() ==> r@.len() > 0,
    {
        let mut res: Vec<Move> = Vec::new();
        if self.is_game_finished() {
            return res;
        }
        let cur = self.get_current_hand();
        let mut i: usize = 0;
        let mut still_open = true;
        while i < 6
            invariant
                self.inv(),
                !self.is_terminal(),
                cur@ == self.mover_hand(),
                i <= 6,
                still_open <==> rank_open(*self, i as int),
                forall|k: int| 0 <= k < res@.len() ==> move_matches(*self, #[trigger] res@[k]),
                forall|k: int|
                    0 <= k < res@.len() ==> match (#[trigger] res@[k]).desc {
                        MoveDescription::PutSingle(ii) => ii < i,
                        MoveDescription::PutAll(ii) => ii < i,
                        MoveDescription::Take => false,
                    },
                forall|ii: int|
                    0 <= ii < i && #[trigger] put_single_enabled(*self, ii) ==> exists|k: int|
                        0 <= k < res@.len() && (#[trigger] res@[k]).desc
                            == MoveDescription::PutSingle(ii as usize),
                forall|ii: int|
                    0 <= ii < i && #[trigger] put_all_enabled(*self, ii) ==> exists|k: int|
                        0 <= k < res@.len() && (#[trigger] res@[k]).desc
                            == MoveDescription::PutAll(ii as usize),
                forall|k1: int, k2: int|
                    0 <= k1 < res@.len() && 0 <= k2 < res@.len() && k1 != k2 ==> (
                    #[trigger] res@[k1]).desc != (#[trigger] res@[k2]).desc,
            decreases 6 - i,
        {
            let ghost res_entry = res@;
            proof {
                assert(self.player_hand@[i as int] + self.opponent_hand@[i as int]
                    + self.table_stack@[i as int] == rank_capacity(i as int));
            }
            if still_open {
                if cur.cards[i] > 0 {
                    let mut s2 = *self;
                    let mut h = cur;
                    h.cards[i] = h.cards[i] - 1;
                    s2.set_current_hand(h);
                    s2.table_stack.cards[i] = s2.table_stack.cards[i] + 1;
                    s2.turn = s2.turn.next();
                    proof {
                        assert(put_single_rel(*self, s2, i as int));
                    }
                    res.push(Move { state: s2, desc: MoveDescription::PutSingle(i) });
                }
                let ghost len_after_single = res@.len();
                let all_cnt: u8 = if i < 5 {
                    4
                } else {
                    3
                };
                if cur.cards[i] == all_cnt {
                    let mut s2 = *self;
                    let mut h = cur;
                    h.cards[i] = 0;
                    s2.set_current_hand(h);
                    s2.table_stack.cards[i] = s2.table_stack.cards[i] + all_cnt;
                    s2.turn = s2.turn.next();
                    proof {
                        assert(put_all_rel(*self, s2, i as int));
                    }
                    res.push(Move { state: s2, desc: MoveDescription::PutAll(i) });
                }
                proof {
                    if put_single_enabled(*self, i as int) {
                        let k = len_after_single - 1;
                        assert(0 <= k < res@.len() && res@[k].desc == MoveDescription::PutSingle(
                            i as usize,
                        ));
                    }
                    if put_all_enabled(*self, i as int) {
                        let k = res@.len() - 1;
                        assert(0 <= k < res@.len() && res@[k].desc == MoveDescription::PutAll(
                            i as usize,
                        ));
                    }
                }
                if self.table_stack.cards[i] != 0 {
                    still_open = false;
                    proof {
                        assert(self.table_stack@[i as int] != 0);
                        assert(!rank_open(*self, i + 1));
                    }
                }
            } else {
                proof {
                    assert(!put_single_enabled(*self, i as int));
                    assert(!put_all_enabled(*self, i as int));
                    let w = choose|j: int| 0 <= j < i && self.table_stack@[j] != 0;
                    assert(0 <= w < i + 1 && self.table_stack@[w] != 0);
                    assert(!rank_open(*self, i + 1));
                }
            }
            proof {
                assert forall|ii: int|
                    0 <= ii < i + 1 && #[trigger] put_single_enabled(*self, ii) implies exists|k: int|
                    0 <= k < res@.len() && (#[trigger] res@[k]).desc == MoveDescription::PutSingle(
                    ii as usize,
                ) by {
                    if ii < i {
                        let k0 = choose|k: int|
                            0 <= k < res_entry.len() && (#[trigger] res_entry[k]).desc
                                == MoveDescription::PutSingle(ii as usize);
                        assert(res@[k0].desc == MoveDescription::PutSingle(ii as usize));
                    }
                }
                assert forall|ii: int|
                    0 <= ii < i + 1 && #[trigger] put_all_enabled(*self, ii) implies exists|k: int|
                    0 <= k < res@.len() && (#[trigger] res@[k]).desc == MoveDescription::PutAll(
                    ii as usize,
                ) by {
                    if ii < i {
                        let k0 = choose|k: int|
                            0 <= k < res_entry.len() && (#[trigger] res_entry[k]).desc
                                == MoveDescription::PutAll(ii as usize);
                        assert(res@[k0].desc == MoveDescription::PutAll(ii as usize));
                    }
                }
            }
            i = i + 1;
        }

        // The take move: collect up to three cards from the top of the stack.
        let mut s2 = *self;
        let mut h = cur;
        let mut to_remove: u8 = 3;
        let mut j: usize = 0;
        while j < 6
            invariant
                self.inv(),
                !self.is_terminal(),
                cur@ == self.mover_hand(),
                j <= 6,
                to_remove as int == take_rem(self.table_stack@, j as int),
                forall|t: int|
                    0 <= t < j ==> (#[trigger] h@[t]) as int == self.mover_hand()[t] + taken_at(
                        self.table_stack@,
                        t,
                    ),
                forall|t: int| j <= t < 6 ==> (#[trigger] h@[t]) == self.mover_hand()[t],
                forall|t: int|
                    0 <= t < j ==> (#[trigger] s2.table_stack@[t]) as int == self.table_stack@[t]
                        - taken_at(self.table_stack@, t),
                forall|t: int| j <= t < 6 ==> (#[trigger] s2.table_stack@[t]) == self.table_stack@[t],
                s2.player_hand == self.player_hand,
                s2.opponent_hand == self.opponent_hand,
                s2.turn == self.turn,
            decreases 6 - j,
        {
            proof {
                lemma_take_rem_bounds(self.table_stack@, j as int);
                assert(self.player_hand@[j as int] + self.opponent_hand@[j as int]
                    + self.table_stack@[j as int] == rank_capacity(j as int));
            }
            let rm = if to_remove < s2.table_stack.cards[j] {
                to_remove
            } else {
                s2.table_stack.cards[j]
            };
            proof {
                assert(s2.table_stack@[j as int] == self.table_stack@[j as int]);
                assert(rm as int == int_min(take_rem(self.table_stack@, j as int),
                    self.table_stack@[j as int] as int));
                assert(rm as int == taken_at(self.table_stack@, j as int));
            }
            proof {
                assert(h@[j as int] == self.mover_hand()[j as int]);
                assert(self.mover_hand()[j as int] <= 4);
            }
            to_remove = to_remove - rm;
            s2.table_stack.cards[j] = s2.table_stack.cards[j] - rm;
            h.cards[j] = h.cards[j] + rm;
            proof {
                assert(h@[j as int] as int == self.mover_hand()[j as int] + taken_at(
                    self.table_stack@,
                    j as int,
                ));
                assert(s2.table_stack@[j as int] as int == self.table_stack@[j as int] - taken_at(
                    self.table_stack@,
                    j as int,
                ));
            }
            j = j + 1;
        }
        s2.set_current_hand(h);
        s2.turn = s2.turn.next();
        let ghost res_before_take = res@;
        if to_remove < 3 {
            proof {
                assert(take_total(self.table_stack@) > 0);
                assert(take_rel(*self, s2));
            }
            res.push(Move { state: s2, desc: MoveDescription::Take });
        }
        proof {
            if take_enabled(*self) {
                assert(to_remove < 3);
                assert(res@[res_before_take.len() as int].desc == MoveDescription::Take);
            }
            assert forall|ii: int| #[trigger] put_single_enabled(*self, ii) implies exists|k: int|
                0 <= k < res@.len() && (#[trigger] res@[k]).desc == MoveDescription::PutSingle(
                ii as usize,
            ) by {
                let k0 = choose|k: int|
                    0 <= k < res_before_take.len() && (#[trigger] res_before_take[k]).desc
                        == MoveDescription::PutSingle(ii as usize);
                assert(res@[k0].desc == MoveDescription::PutSingle(ii as usize));
            }
            assert forall|ii: int| #[trigger] put_all_enabled(*self, ii) implies exists|k: int|
                0 <= k < res@.len() && (#[trigger] res@[k]).desc == MoveDescription::PutAll(
                ii as usize,
            ) by {
                let k0 = choose|k: int|
                    0 <= k < res_before_take.len() && (#[trigger] res_before_take[k]).desc
                        == MoveDescription::PutAll(ii as usize);
                assert(res@[k0].desc == MoveDescription::PutAll(ii as usize));
            }
        }

        proof {
            assert forall|k: int| 0 <= k < res@.len() implies (#[trigger] res@[k]).state.inv() by {
                match res@[k].desc {
                    MoveDescription::PutSingle(ii) => {
                        assert(put_single_rel(*self, res@[k].state, ii as int));
                    },
                    MoveDescription::PutAll(ii) => {
                        assert(put_all_rel(*self, res@[k].state, ii as int));
                    },
                    MoveDescription::Take => {
                        assert(take_rel(*self, res@[k].state));
                    },
                }
                lemma_step_preserves_inv(*self, res@[k].state);
            }
            if res@.len() == 0 {
                // No take move was possible, so the stack is entirely empty
                // and every rank is open; a non-terminal mover then holds some
                // card, which yields a single-card put, contradicting
                // emptiness of the move list.
                lemma_take_rem_bounds(self.table_stack@, 6);
                assert(take_rem(self.table_stack@, 6) == 3);
                let mh = self.mover_hand();
                assert(!self.player_hand.spec_empty() && !self.opponent_hand.spec_empty());
                assert(exists|t: int| 0 <= t < 6 && mh[t] != 0) by {
                    if self.turn is Player {
                        let w = choose|w: int| 0 <= w < 6 && self.player_hand@[w] != 0;
                        assert(0 <= w < 6 && mh[w] != 0);
                    } else {
                        let w = choose|w: int| 0 <= w < 6 && self.opponent_hand@[w] != 0;
                        assert(0 <= w < 6 && mh[w] != 0);
                    }
                }
                let t = choose|t: int| 0 <= t < 6 && mh[t] != 0;
                assert(put_single_enabled(*self, t));
                assert(false);
            }
        }
        res
    }

    /// The positions one legal move away from this one.
    pub fn following_states(&self) -> (r: Vec<VerboseState>)
        requires
            self.inv(),
        ensures
            forall|k: int|
                0 <= k < r@.len() ==> step_rel(*self, #[trigger] r@[k]) && r@[k].inv(),
            forall|i: int|
                #[trigger] put_single_enabled(*self, i) ==> exists|k: int|
                    0 <= k < r@.len() && put_single_rel(*self, #[trigger] r@[k], i),
            forall|i: int|
                #[trigger] put_all_enabled(*self, i) ==> exists|k: int|
                    0 <= k < r@.len() && put_all_rel(*self, #[trigger] r@[k], i),
            take_enabled(*self) ==> exists|k: int|
                0 <= k < r@.len() && take_rel(*self, #[trigger] r@[k]),
            self.is_terminal() ==> r@.len() == 0,
            !self.is_terminal() ==> r@.len() > 0,
    {
        let moves = self.possible_moves();
        let mut r: Vec<VerboseState> = Vec::new();
        let mut idx: usize = 0;
        while idx < moves.len()
            invariant
                idx <= moves@.len(),
                r@.len() == idx,
                forall|k: int| 0 <= k < idx ==> #[trigger] r@[k] == moves@[k].state,
                forall|k: int| 0 <= k < moves@.len() ==> move_matches(*self, #[trigger] moves@[k]),
                self.inv(),
            decreases moves@.len() - idx,
        {
            r.push(moves[idx].state);
            idx = idx + 1;
        }
        proof {
            assert forall|k: int| 0 <= k < r@.len() implies step_rel(*self, #[trigger] r@[k])
                && r@[k].inv() by {
                assert(move_matches(*self, moves@[k]));
                match moves@[k].desc {
                    MoveDescription::PutSingle(ii) => {
                        assert(put_single_rel(*self, r@[k], ii as int));
                    },
                    MoveDescription::PutAll(ii) => {
                        assert(put_all_rel(*self, r@[k], ii as int));
                    },
                    MoveDescription::Take => {
                        assert(take_rel(*self, r@[k]));
                    },
                }
                lemma_step_preserves_inv(*self, r@[k]);
            }
            assert forall|i: int| #[trigger] put_single_enabled(*self, i) implies exists|k: int|
                0 <= k < r@.len() && put_single_rel(*self, #[trigger] r@[k], i) by {
                let k = choose|k: int|
                    0 <= k < moves@.len() && (#[trigger] moves@[k]).desc
                        == MoveDescription::PutSingle(i as usize);
                assert(move_matches(*self, moves@[k]));
                assert(0 <= k < r@.len() && put_single_rel(*self, r@[k], i));
            }
            assert forall|i: int| #[trigger] put_all_enabled(*self, i) implies exists|k: int|
                0 <= k < r@.len() && put_all_rel(*self, #[trigger] r@[k], i) by {
                let k = choose|k: int|
                    0 <= k < moves@.len() && (#[trigger] moves@[k]).desc == MoveDescription::PutAll(
                        i as usize,
                    );
                assert(move_matches(*self, moves@[k]));
                assert(0 <= k < r@.len() && put_all_rel(*self, r@[k], i));
            }
            if take_enabled(*self) {
                let k = choose|k: int|
                    0 <= k < moves@.len() && (#[trigger] moves@[k]).desc == MoveDescription::Take;
                assert(move_matches(*self, moves@[k]));
                assert(0 <= k < r@.len() && take_rel(*self, r@[k]));
            }
        }
        r
    }

    /// The standard starting position: both sides hold two cards of each of
    /// the five strongest ranks; the player also holds two of the weakest
    /// rank, the opponent one; the stack is empty; the player moves first.
    pub fn initial() -> (r: Self)
        ensures
            r.inv(),
            !r.is_terminal(),
            r.turn == Turn::Player,
            r.player_hand@ =~= seq![2u8, 2u8, 2u8, 2u8, 2u8, 2u8],
            r.opponent_hand@ =~= seq![2u8, 2u8, 2u8, 2u8, 2u8, 1u8],
            r.table_stack@ =~= seq![0u8, 0u8, 0u8, 0u8, 0u8, 0u8],
    {
        let r = VerboseState {
            player_hand: CardsHand { cards: [2, 2, 2, 2, 2, 2] },
            opponent_hand: CardsHand { cards: [2, 2, 2, 2, 2, 1] },
            table_stack: CardsHand { cards: [0, 0, 0, 0, 0, 0] },
            turn: Turn::Player,
        };
        assert(r.player_hand@[0] == 2);
        assert(!r.player_hand.spec_empty());
        assert(!r.opponent_hand.spec_empty()) by {
            assert(r.opponent_hand@[0] == 2);
        }
        r
    }
}

} // verus!
