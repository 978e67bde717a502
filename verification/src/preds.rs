use crate::state::{
    lemma_step_reflects_inv, lemma_take_rem_bounds, put_all_rel, put_single_rel, rank_capacity,
    step_rel, take_enabled, take_rel, take_rem, take_total, taken_at, CardsHand, Turn,
    VerboseState,
};
use vstd::prelude::*;

verus! {

broadcast use vstd::array::group_array_axioms;

/// The per-rank counts that a triple of rank slots describes; the slot value
/// six marks an unused slot, so the triple can stand for one, two or three
/// cards.
pub open spec fn triple_counts(x: int, y: int, z: int) -> Seq<int> {
    Seq::new(
        6,
        |r: int|
            (if x == r {
                1int
            } else {
                0int
            }) + (if y == r {
                1int
            } else {
                0int
            }) + (if z == r {
                1int
            } else {
                0int
            }),
    )
}

/// The per-rank counts that a take move removes from this stack.
pub open spec fn taken_counts(st: Seq<u8>) -> Seq<int> {
    Seq::new(6, |r: int| taken_at(st, r))
}

/// The sum of the first `i` per-rank counts.
pub open spec fn counts_sum(tc: Seq<int>, i: int) -> int
    decreases i,
{
    if i <= 0 {
        0
    } else {
        counts_sum(tc, i - 1) + tc[i - 1]
    }
}

proof fn lemma_sum_nonneg(tc: Seq<int>, i: int)
    requires
        forall|r: int| 0 <= r < i ==> 0 <= tc[r],
        i <= tc.len(),
    ensures
        0 <= counts_sum(tc, i),
    decreases i,
{
    if i > 0 {
        lemma_sum_nonneg(tc, i - 1);
    }
}

proof fn lemma_sum_zero_all_zero(tc: Seq<int>, i: int)
    requires
        forall|r: int| 0 <= r < i ==> 0 <= tc[r],
        i <= tc.len(),
        counts_sum(tc, i) == 0,
    ensures
        forall|r: int| 0 <= r < i ==> tc[r] == 0,
    decreases i,
{
    if i > 0 {
        lemma_sum_nonneg(tc, i - 1);
        lemma_sum_zero_all_zero(tc, i - 1);
    }
}

proof fn lemma_sum_all_zero(tc: Seq<int>, i: int)
    requires
        forall|r: int| 0 <= r < i ==> tc[r] == 0,
    ensures
        counts_sum(tc, i) == 0,
    decreases i,
{
    if i > 0 {
        lemma_sum_all_zero(tc, i - 1);
    }
}

proof fn lemma_sum_update(tc: Seq<int>, r: int, v: int, i: int)
    requires
        0 <= r < tc.len(),
        i <= tc.len(),
    ensures
        r < i ==> counts_sum(tc.update(r, v), i) == counts_sum(tc, i) - tc[r] + v,
        r >= i ==> counts_sum(tc.update(r, v), i) == counts_sum(tc, i),
    decreases i,
{
    if i > 0 {
        lemma_sum_update(tc, r, v, i - 1);
    }
}

/// The per-rank amounts a take removes add up to the take's total.
pub proof fn lemma_taken_telescope(st: Seq<u8>, i: int)
    requires
        st.len() == 6,
        0 <= i <= 6,
    ensures
        counts_sum(taken_counts(st), i) == 3 - take_rem(st, i),
    decreases i,
{
    if i > 0 {
        lemma_taken_telescope(st, i - 1);
    }
}

/// The first rank at or after `i` with a positive count, or six when there
/// is none.
pub open spec fn first_pos(tc: Seq<int>, i: int) -> int
    decreases 6 - i,
{
    if i < 0 || i >= 6 {
        6
    } else if tc[i] > 0 {
        i
    } else {
        first_pos(tc, i + 1)
    }
}

proof fn lemma_first_pos(tc: Seq<int>, i: int)
    requires
        0 <= i <= 6,
        tc.len() == 6,
    ensures
        i <= first_pos(tc, i) <= 6,
        first_pos(tc, i) < 6 ==> tc[first_pos(tc, i)] > 0,
        forall|r: int| i <= r < first_pos(tc, i) ==> tc[r] <= 0,
    decreases 6 - i,
{
    if i < 6 && !(tc[i] > 0) {
        lemma_first_pos(tc, i + 1);
    }
}

/// Any removable multiset of one to three cards is described by exactly the
/// sorted triple of rank slots built from its counts.
proof fn lemma_canon_triple(tc: Seq<int>)
    requires
        tc.len() == 6,
        forall|r: int| 0 <= r < 6 ==> 0 <= tc[r],
        1 <= counts_sum(tc, 6) <= 3,
    ensures
        exists|x: int, y: int, z: int|
            0 <= x < 6 && x <= y <= z <= 6 && #[trigger] triple_counts(x, y, z) == tc,
{
    let total = counts_sum(tc, 6);
    let x0 = first_pos(tc, 0);
    lemma_first_pos(tc, 0);
    if x0 == 6 {
        lemma_sum_all_zero(tc, 6);
        assert(false);
    }
    let tc1 = tc.update(x0, tc[x0] - 1);
    lemma_sum_update(tc, x0, tc[x0] - 1, 6);
    assert(counts_sum(tc1, 6) == total - 1);
    if total == 1 {
        lemma_sum_zero_all_zero(tc1, 6);
        assert(triple_counts(x0, 6, 6) =~= tc) by {
            assert forall|r: int| 0 <= r < 6 implies triple_counts(x0, 6, 6)[r] == tc[r] by {
                assert(tc1[r] == 0);
            }
        }
        assert(0 <= x0 < 6 && x0 <= 6 && triple_counts(x0, 6, 6) == tc);
    } else {
        let y0 = first_pos(tc1, 0);
        lemma_first_pos(tc1, 0);
        if y0 == 6 {
            lemma_sum_all_zero(tc1, 6);
            assert(false);
        }
        assert(x0 <= y0) by {
            if y0 < x0 {
                assert(tc[y0] <= 0);
                assert(tc1[y0] == tc[y0]);
            }
        }
        let tc2 = tc1.update(y0, tc1[y0] - 1);
        lemma_sum_update(tc1, y0, tc1[y0] - 1, 6);
        assert(counts_sum(tc2, 6) == total - 2);
        if total == 2 {
            lemma_sum_zero_all_zero(tc2, 6);
            assert(triple_counts(x0, y0, 6) =~= tc) by {
                assert forall|r: int| 0 <= r < 6 implies triple_counts(x0, y0, 6)[r] == tc[r] by {
                    assert(tc2[r] == 0);
                }
            }
            assert(0 <= x0 < 6 && x0 <= y0 <= 6 && triple_counts(x0, y0, 6) == tc);
        } else {
            let z0 = first_pos(tc2, 0);
            lemma_first_pos(tc2, 0);
            if z0 == 6 {
                lemma_sum_all_zero(tc2, 6);
                assert(false);
            }
            assert(y0 <= z0) by {
                if z0 < y0 {
                    assert(tc1[z0] <= 0);
                    assert(tc2[z0] == tc1[z0]);
                }
            }
            let tc3 = tc2.update(z0, tc2[z0] - 1);
            lemma_sum_update(tc2, z0, tc2[z0] - 1, 6);
            assert(counts_sum(tc3, 6) == 0);
            lemma_sum_zero_all_zero(tc3, 6);
            assert(triple_counts(x0, y0, z0) =~= tc) by {
                assert forall|r: int| 0 <= r < 6 implies triple_counts(x0, y0, z0)[r] == tc[r] by {
                    assert(tc3[r] == 0);
                }
            }
            assert(0 <= x0 < 6 && x0 <= y0 <= z0 <= 6 && triple_counts(x0, y0, z0) == tc);
        }
    }
}

/// Triples of rank slots ordered as the enumeration visits them.
pub open spec fn triple_lt(x: int, y: int, z: int, a: int, b: int, c: int) -> bool {
    ||| x < a
    ||| (x == a && y < b)
    ||| (x == a && y == b && z < c)
}

/// Every take-inverse of `s` whose removed counts are described by the slots
/// `(x, y, z)` is already in the result.
pub open spec fn take_covered(s: VerboseState, res: Seq<VerboseState>, x: int, y: int, z: int) -> bool {
    forall|p: VerboseState|
        take_rel(p, s) && taken_counts(p.table_stack@) == triple_counts(x, y, z)
            ==> #[trigger] res.contains(p)
}

/// All triples of rank slots before `(a, b, c)` in enumeration order are
/// covered.
pub open spec fn all_covered_lt(
    s: VerboseState,
    res: Seq<VerboseState>,
    a: int,
    b: int,
    c: int,
) -> bool {
    forall|x: int, y: int, z: int|
        0 <= x < 6 && x <= y <= z <= 6 && triple_lt(x, y, z, a, b, c) ==> #[trigger] take_covered(
            s,
            res,
            x,
            y,
            z,
        )
}

proof fn lemma_contains_after_push(s: Seq<VerboseState>, v: VerboseState, p: VerboseState)
    requires
        s.contains(p),
    ensures
        s.push(v).contains(p),
{
    let i = choose|i: int| 0 <= i < s.len() && s[i] == p;
    assert(s.push(v)[i] == p);
}

impl VerboseState {
    fn find_top(&self) -> (r: Option<usize>)
        ensures
            match r {
                Some(i) => i < 6 && self.table_stack@[i as int] != 0 && (forall|j: int|
                    0 <= j < i ==> self.table_stack@[j] == 0),
                None => forall|j: int| 0 <= j < 6 ==> self.table_stack@[j] == 0,
            },
    {
        for i in 0..6
            invariant
                forall|j: int| 0 <= j < i ==> self.table_stack@[j] == 0,
        {
            if self.table_stack.cards[i] != 0 {
                return Some(i);
            }
        }
        None
    }

    fn states_equal(&self, other: &VerboseState) -> (r: bool)
        ensures
            r == (*self == *other),
    {
        let turn_eq = self.turn == other.turn;
        if !turn_eq {
            return false;
        }
        for i in 0..6
            invariant
                self.turn == other.turn,
                forall|j: int| 0 <= j < i ==> self.player_hand.cards@[j] == other.player_hand.cards@[j],
                forall|j: int|
                    0 <= j < i ==> self.opponent_hand.cards@[j] == other.opponent_hand.cards@[j],
                forall|j: int| 0 <= j < i ==> self.table_stack.cards@[j] == other.table_stack.cards@[j],
        {
            if self.player_hand.cards[i] != other.player_hand.cards[i] {
                assert(self.player_hand@[i as int] != other.player_hand@[i as int]);
                return false;
            }
            if self.opponent_hand.cards[i] != other.opponent_hand.cards[i] {
                assert(self.opponent_hand@[i as int] != other.opponent_hand@[i as int]);
                return false;
            }
            if self.table_stack.cards[i] != other.table_stack.cards[i] {
                assert(self.table_stack@[i as int] != other.table_stack@[i as int]);
                return false;
            }
            proof {
                assert(self.player_hand.cards@[i as int] == other.player_hand.cards@[i as int]);
                assert(self.opponent_hand.cards@[i as int] == other.opponent_hand.cards@[i as int]);
                assert(self.table_stack.cards@[i as int] == other.table_stack.cards@[i as int]);
            }
        }
        proof {
            assert(self.player_hand.cards =~= other.player_hand.cards);
            assert(self.opponent_hand.cards =~= other.opponent_hand.cards);
            assert(self.table_stack.cards =~= other.table_stack.cards);
        }
        true
    }

    fn set_hand_of_mover(&mut self, h: CardsHand)
        ensures
            final(self).turn == old(self).turn,
            final(self).table_stack == old(self).table_stack,
            old(self).turn is Player ==> final(self).player_hand == h && final(self).opponent_hand
                == old(self).opponent_hand,
            old(self).turn is Opponent ==> final(self).opponent_hand == h
                && final(self).player_hand == old(self).player_hand,
    {
        match self.turn {
            Turn::Player => {
                self.player_hand = h;
            },
            Turn::Opponent => {
                self.opponent_hand = h;
            },
        }
    }

    fn hand_of_mover(&self) -> (r: CardsHand)
        ensures
            r@ == self.mover_hand(),
    {
        match self.turn {
            Turn::Player => self.player_hand,
            Turn::Opponent => self.opponent_hand,
        }
    }

    /// The result of the take move out of this position, together with how
    /// many cards it collects (zero when the stack is empty).
    fn apply_take(&self) -> (r: (VerboseState, u8))
        requires
            self.inv(),
        ensures
            r.1 as int == take_total(self.table_stack@),
            r.0.turn == self.turn.next(),
            forall|i: int|
                0 <= i < 6 ==> (#[trigger] r.0.table_stack@[i]) as int == self.table_stack@[i]
                    - taken_at(self.table_stack@, i),
            self.turn is Player ==> (forall|i: int|
                0 <= i < 6 ==> (#[trigger] r.0.player_hand@[i]) as int == self.player_hand@[i]
                    + taken_at(self.table_stack@, i)) && r.0.opponent_hand
                == self.opponent_hand,
            self.turn is Opponent ==> (forall|i: int|
                0 <= i < 6 ==> (#[trigger] r.0.opponent_hand@[i]) as int == self.opponent_hand@[i]
                    + taken_at(self.table_stack@, i)) && r.0.player_hand == self.player_hand,
    {
        let mut s2 = *self;
        let mut h = self.hand_of_mover();
        let mut to_remove: u8 = 3;
        let mut j: usize = 0;
        while j < 6
            invariant
                self.inv(),
                j <= 6,
                h@.len() == 6,
                to_remove as int == take_rem(self.table_stack@, j as int),
                forall|t: int|
                    0 <= t < j ==> (#[trigger] h@[t]) as int == self.mover_hand()[t] + taken_at(
                        self.table_stack@,
                        t,
                    ),
                forall|t: int| j <= t < 6 ==> (#[trigger] h@[t]) == self.mover_hand()[t],
                forall|t: int|
                    0 <= t < j ==> (#[trigger] s2.table_stack@[t]) as int == self.table_stack@[t]
                        - taken_at(self.table_stack@, t),
                forall|t: int| j <= t < 6 ==> (#[trigger] s2.table_stack@[t]) == self.table_stack@[t],
                s2.player_hand == self.player_hand,
                s2.opponent_hand == self.opponent_hand,
                s2.turn == self.turn,
            decreases 6 - j,
        {
            proof {
                lemma_take_rem_bounds(self.table_stack@, j as int);
                assert(self.player_hand@[j as int] + self.opponent_hand@[j as int]
                    + self.table_stack@[j as int] == rank_capacity(j as int));
            }
            let rm = if to_remove < s2.table_stack.cards[j] {
                to_remove
            } else {
                s2.table_stack.cards[j]
            };
            proof {
                assert(s2.table_stack@[j as int] == self.table_stack@[j as int]);
                assert(rm as int == taken_at(self.table_stack@, j as int));
                assert(h@[j as int] == self.mover_hand()[j as int]);
                assert(self.mover_hand()[j as int] <= 4);
            }
            to_remove = to_remove - rm;
            s2.table_stack.cards[j] = s2.table_stack.cards[j] - rm;
            h.cards[j] = h.cards[j] + rm;
            proof {
                assert(h@[j as int] as int == self.mover_hand()[j as int] + taken_at(
                    self.table_stack@,
                    j as int,
                ));
                assert(s2.table_stack@[j as int] as int == self.table_stack@[j as int] - taken_at(
                    self.table_stack@,
                    j as int,
                ));
            }
            j = j + 1;
        }
        s2.set_hand_of_mover(h);
        s2.turn = s2.turn.next();
        proof {
            lemma_take_rem_bounds(self.table_stack@, 6);
        }
        (s2, 3 - to_remove)
    }

    /// The positions from which a single move by the other side leads to this
    /// one: the inverse of a single-card put, of a full-rank sweep, and of
    /// every possible take, terminal predecessors excluded. The result is
    /// exact in both directions: every returned position reaches this one in
    /// one move, and every position that does so is returned — together with
    /// the move generator's contract this is the duality of moves and
    /// inverse moves.
    pub fn preceding_states(&self) -> (r: Vec<VerboseState>)
        requires
            self.inv(),
        ensures
            forall|k: int|
                0 <= k < r@.len() ==> step_rel(#[trigger] r@[k], *self) && r@[k].inv(),
            forall|p: VerboseState| #[trigger] step_rel(p, *self) ==> r@.contains(p),
    {
        let mut res: Vec<VerboseState> = Vec::new();

        // Undoing every way one, two or three cards could have been taken
        // from the stack: move them back from the taker's hand and keep the
        // candidate exactly when replaying the take reproduces this position.
        let mut a: usize = 0;
        while a < 7
            invariant
                self.inv(),
                a <= 7,
                forall|k: int|
                    0 <= k < res@.len() ==> step_rel(#[trigger] res@[k], *self) && res@[k].inv(),
                all_covered_lt(*self, res@, a as int, 0, 0),
            decreases 7 - a,
        {
            let mut b: usize = a;
            while b < 7
                invariant
                    self.inv(),
                    a < 7,
                    a <= b <= 7,
                    forall|k: int|
                        0 <= k < res@.len() ==> step_rel(#[trigger] res@[k], *self) && res@[k].inv(),
                    all_covered_lt(*self, res@, a as int, b as int, 0),
                decreases 7 - b,
            {
                let mut c: usize = b;
                while c < 7
                    invariant
                        self.inv(),
                        a < 7,
                        b < 7,
                        b <= c <= 7,
                        forall|k: int|
                            0 <= k < res@.len() ==> step_rel(#[trigger] res@[k], *self)
                                && res@[k].inv(),
                        all_covered_lt(*self, res@, a as int, b as int, c as int),
                    decreases 7 - c,
                {
                    let ghost res_in = res@;
                    if a < 6 {
                        self.try_take_predecessor(a, b, c, &mut res);
                    }
                    proof {
                        assert forall|x: int, y: int, z: int|
                            0 <= x < 6 && x <= y <= z <= 6 && triple_lt(
                                x,
                                y,
                                z,
                                a as int,
                                b as int,
                                c as int + 1,
                            ) implies #[trigger] take_covered(*self, res@, x, y, z) by {
                            if triple_lt(x, y, z, a as int, b as int, c as int) {
                                assert(take_covered(*self, res_in, x, y, z));
                                assert forall|pp: VerboseState|
                                    take_rel(pp, *self) && taken_counts(pp.table_stack@)
                                        == triple_counts(x, y, z) implies #[trigger] res@.contains(
                                    pp,
                                ) by {
                                    assert(res_in.contains(pp));
                                }
                            } else {
                                assert((x, y, z) == (a as int, b as int, c as int));
                                assert(take_covered(*self, res@, x, y, z));
                            }
                        }
                    }
                    c = c + 1;
                }
                proof {
                    assert forall|x: int, y: int, z: int|
                        0 <= x < 6 && x <= y <= z <= 6 && triple_lt(
                            x,
                            y,
                            z,
                            a as int,
                            b as int + 1,
                            0,
                        ) implies #[trigger] take_covered(*self, res@, x, y, z) by {
                        assert(triple_lt(x, y, z, a as int, b as int, 7));
                    }
                }
                b = b + 1;
            }
            proof {
                assert forall|x: int, y: int, z: int|
                    0 <= x < 6 && x <= y <= z <= 6 && triple_lt(
                        x,
                        y,
                        z,
                        a as int + 1,
                        0,
                        0,
                    ) implies #[trigger] take_covered(*self, res@, x, y, z) by {
                    assert(triple_lt(x, y, z, a as int, 7, 0));
                }
            }
            a = a + 1;
        }

        // Every take-inverse is now present: its removed counts are
        // described by some sorted triple of rank slots, all of which have
        // been tried.
        proof {
            assert forall|pp: VerboseState| take_rel(pp, *self) implies #[trigger] res@.contains(
                pp,
            ) by {
                let tcs = taken_counts(pp.table_stack@);
                assert forall|t: int| 0 <= t < 6 implies 0 <= #[trigger] tcs[t] by {
                    lemma_take_rem_bounds(pp.table_stack@, t);
                }
                lemma_taken_telescope(pp.table_stack@, 6);
                lemma_take_rem_bounds(pp.table_stack@, 6);
                assert(counts_sum(tcs, 6) == take_total(pp.table_stack@));
                assert(1 <= counts_sum(tcs, 6) <= 3);
                lemma_canon_triple(tcs);
                let (x, y, z) = choose|x: int, y: int, z: int|
                    0 <= x < 6 && x <= y <= z <= 6 && #[trigger] triple_counts(x, y, z) == tcs;
                assert(triple_lt(x, y, z, 7, 0, 0));
                assert(take_covered(*self, res@, x, y, z));
            }
        }
        let ghost take_done = res@;

        // Undoing a put: move the top card (or the whole top rank) from the
        // stack back into the hand of the side that would have played it.
        let top = self.find_top();
        let ghost mut cand_single = *self;
        let ghost mut cand_all = *self;
        if let Some(i) = top {
            proof {
                assert(self.player_hand@[i as int] + self.opponent_hand@[i as int]
                    + self.table_stack@[i as int] == rank_capacity(i as int));
            }
            {
                let mut p = *self;
                p.turn = p.turn.next();
                let mut h = p.hand_of_mover();
                h.cards[i] = h.cards[i] + 1;
                p.set_hand_of_mover(h);
                p.table_stack.cards[i] = p.table_stack.cards[i] - 1;
                proof {
                    cand_single = p;
                }
                if !p.is_game_finished() {
                    proof {
                        assert(put_single_rel(p, *self, i as int));
                        lemma_step_reflects_inv(p, *self);
                    }
                    let ghost res_pre = res@;
                    res.push(p);
                    proof {
                        assert(res@[res@.len() - 1] == p);
                        assert forall|pp: VerboseState|
                            res_pre.contains(pp) implies #[trigger] res@.contains(pp) by {
                            lemma_contains_after_push(res_pre, p, pp);
                        }
                    }
                }
            }
            let all_cnt: u8 = if i < 5 {
                4
            } else {
                3
            };
            if self.table_stack.cards[i] == all_cnt {
                let mut p = *self;
                p.turn = p.turn.next();
                let mut h = p.hand_of_mover();
                h.cards[i] = h.cards[i] + all_cnt;
                p.set_hand_of_mover(h);
                p.table_stack.cards[i] = 0;
                proof {
                    cand_all = p;
                }
                if !p.is_game_finished() {
                    proof {
                        assert(p.mover_hand()[i as int] == rank_capacity(i as int));
                        assert(put_all_rel(p, *self, i as int));
                        lemma_step_reflects_inv(p, *self);
                    }
                    let ghost res_pre = res@;
                    res.push(p);
                    proof {
                        assert(res@[res@.len() - 1] == p);
                        assert forall|pp: VerboseState|
                            res_pre.contains(pp) implies #[trigger] res@.contains(pp) by {
                            lemma_contains_after_push(res_pre, p, pp);
                        }
                    }
                }
            }
        }

        // Every predecessor is present: any position with a move into this
        // one relates to it by exactly one of the three move shapes, and
        // each shape's inverse has been generated above.
        proof {
            assert forall|pp: VerboseState| #[trigger] step_rel(pp, *self) implies res@.contains(
                pp,
            ) by {
                if take_rel(pp, *self) {
                    assert(take_done.contains(pp));
                } else if exists|i: int| put_single_rel(pp, *self, i) {
                    let i = choose|i: int| put_single_rel(pp, *self, i);
                    // The played rank is this position's top of stack.
                    assert(self.table_stack@[i] as int == pp.table_stack@[i] + 1);
                    assert forall|j: int| 0 <= j < i implies self.table_stack@[j] == 0 by {
                        assert(pp.table_stack@[j] == 0);
                    }
                    assert(top is Some);
                    let ti = top.unwrap() as int;
                    assert(ti == i) by {
                        if ti < i {
                            assert(self.table_stack@[ti] == 0);
                        }
                        if i < ti {
                            assert(self.table_stack@[i] != 0);
                        }
                    }
                    assert(pp == cand_single) by {
                        assert forall|t: int|
                            0 <= t < 6 implies pp.table_stack.cards@[t]
                            == cand_single.table_stack.cards@[t] by {}
                        assert forall|t: int|
                            0 <= t < 6 implies pp.player_hand.cards@[t]
                            == cand_single.player_hand.cards@[t] by {
                            if pp.turn is Opponent {
                                assert(pp.player_hand@ == self.player_hand@);
                                assert(cand_single.player_hand@ == self.player_hand@);
                            }
                        }
                        assert forall|t: int|
                            0 <= t < 6 implies pp.opponent_hand.cards@[t]
                            == cand_single.opponent_hand.cards@[t] by {
                            if pp.turn is Player {
                                assert(pp.opponent_hand@ == self.opponent_hand@);
                                assert(cand_single.opponent_hand@ == self.opponent_hand@);
                            }
                        }
                        assert(pp.table_stack.cards =~= cand_single.table_stack.cards);
                        assert(pp.player_hand.cards =~= cand_single.player_hand.cards);
                        assert(pp.opponent_hand.cards =~= cand_single.opponent_hand.cards);
                        assert(pp.turn == self.turn.next() && cand_single.turn
                            == self.turn.next());
                    }
                    assert(!cand_single.is_terminal());
                    assert(res@.contains(cand_single));
                } else {
                    let i = choose|i: int| put_all_rel(pp, *self, i);
                    let cap = rank_capacity(i) as int;
                    assert(self.table_stack@[i] as int == pp.table_stack@[i] + cap);
                    assert(self.player_hand@[i] + self.opponent_hand@[i] + self.table_stack@[i]
                        == rank_capacity(i));
                    assert(self.table_stack@[i] as int == cap && pp.table_stack@[i] == 0);
                    assert forall|j: int| 0 <= j < i implies self.table_stack@[j] == 0 by {
                        assert(pp.table_stack@[j] == 0);
                    }
                    assert(top is Some);
                    let ti = top.unwrap() as int;
                    assert(ti == i) by {
                        if ti < i {
                            assert(self.table_stack@[ti] == 0);
                        }
                        if i < ti {
                            assert(self.table_stack@[i] != 0);
                        }
                    }
                    assert(pp == cand_all) by {
                        assert forall|t: int|
                            0 <= t < 6 implies pp.table_stack.cards@[t]
                            == cand_all.table_stack.cards@[t] by {}
                        assert forall|t: int|
                            0 <= t < 6 implies pp.player_hand.cards@[t]
                            == cand_all.player_hand.cards@[t] by {
                            if pp.turn is Opponent {
                                assert(pp.player_hand@ == self.player_hand@);
                                assert(cand_all.player_hand@ == self.player_hand@);
                            }
                        }
                        assert forall|t: int|
                            0 <= t < 6 implies pp.opponent_hand.cards@[t]
                            == cand_all.opponent_hand.cards@[t] by {
                            if pp.turn is Player {
                                assert(pp.opponent_hand@ == self.opponent_hand@);
                                assert(cand_all.opponent_hand@ == self.opponent_hand@);
                            }
                        }
                        assert(pp.table_stack.cards =~= cand_all.table_stack.cards);
                        assert(pp.player_hand.cards =~= cand_all.player_hand.cards);
                        assert(pp.opponent_hand.cards =~= cand_all.opponent_hand.cards);
                        assert(pp.turn == self.turn.next() && cand_all.turn == self.turn.next());
                    }
                    assert(!cand_all.is_terminal());
                    assert(res@.contains(cand_all));
                }
            }
        }

        res
    }

    /// Tries the take-inverse described by the rank slots `a <= b <= c` (six
    /// marks an unused slot): moves those cards from the taker's hand back to
    /// the stack and keeps the candidate when replaying the take leads back
    /// here. Afterwards every take-inverse with exactly those removed counts
    /// is in the result.
    fn try_take_predecessor(&self, a: usize, b: usize, c: usize, res: &mut Vec<VerboseState>)
        requires
            self.inv(),
            a < 6,
            b < 7,
            c < 7,
            forall|k: int|
                0 <= k < old(res)@.len() ==> step_rel(#[trigger] old(res)@[k], *self)
                    && old(res)@[k].inv(),
        ensures
            forall|k: int|
                0 <= k < final(res)@.len() ==> step_rel(#[trigger] final(res)@[k], *self)
                    && final(res)@[k].inv(),
            forall|pp: VerboseState|
                old(res)@.contains(pp) ==> #[trigger] final(res)@.contains(pp),
            take_covered(*self, final(res)@, a as int, b as int, c as int),
    {
        let ghost gx = a as int;
        let ghost gy = b as int;
        let ghost gz = c as int;
        let ghost gt = triple_counts(gx, gy, gz);
        let mut tc: [u8; 6] = [0, 0, 0, 0, 0, 0];
        tc[a] = tc[a] + 1;
        if b < 6 {
            tc[b] = tc[b] + 1;
        }
        if c < 6 {
            tc[c] = tc[c] + 1;
        }
        proof {
            assert forall|t: int| 0 <= t < 6 implies (#[trigger] tc@[t]) as int == gt[t] by {}
        }

        let mut p = *self;
        p.turn = p.turn.next();
        let taker = p.hand_of_mover();
        proof {
            // The taker's hand in this position holds what any matching
            // take-inverse moved plus what it kept, so the counts fit.
            assert forall|pp: VerboseState|
                take_rel(pp, *self) && taken_counts(pp.table_stack@) == gt implies forall|t: int|
                0 <= t < 6 ==> #[trigger] taker@[t] >= tc@[t] by {
                assert forall|t: int| 0 <= t < 6 implies #[trigger] taker@[t] >= tc@[t] by {
                    assert(taken_counts(pp.table_stack@)[t] == gt[t]);
                    assert(taken_at(pp.table_stack@, t) == gt[t]);
                }
            }
        }

        // The cards moved back must actually be in the taker's hand.
        let mut r: usize = 0;
        let mut avail = true;
        while r < 6
            invariant
                r <= 6,
                avail <==> (forall|t: int| 0 <= t < r ==> taker@[t] >= tc@[t]),
            decreases 6 - r,
        {
            if taker.cards[r] < tc[r] {
                proof {
                    assert(!(taker@[r as int] >= tc@[r as int]));
                }
                avail = false;
            }
            r = r + 1;
        }
        if !avail {
            proof {
                assert forall|pp: VerboseState|
                    take_rel(pp, *self) && taken_counts(pp.table_stack@) == triple_counts(
                        gx,
                        gy,
                        gz,
                    ) implies #[trigger] res@.contains(pp) by {
                    let t = choose|t: int| 0 <= t < 6 && !(taker@[t] >= tc@[t]);
                    assert(taker@[t] >= tc@[t]);
                }
            }
            return ;
        }

        let mut h = taker;
        let mut st = p.table_stack;
        let mut r2: usize = 0;
        while r2 < 6
            invariant
                self.inv(),
                p.turn == self.turn.next(),
                taker@ == p.mover_hand(),
                r2 <= 6,
                forall|t: int| 0 <= t < 6 ==> taker@[t] >= tc@[t],
                forall|t: int|
                    0 <= t < r2 ==> (#[trigger] h@[t]) as int == taker@[t] - tc@[t],
                forall|t: int|
                    0 <= t < r2 ==> (#[trigger] st@[t]) as int == self.table_stack@[t] + tc@[t],
                forall|t: int| r2 <= t < 6 ==> (#[trigger] h@[t]) == taker@[t],
                forall|t: int| r2 <= t < 6 ==> (#[trigger] st@[t]) == self.table_stack@[t],
                forall|t: int| 0 <= t < 6 ==> tc@[t] <= 3,
            decreases 6 - r2,
        {
            proof {
                assert(self.player_hand@[r2 as int] + self.opponent_hand@[r2 as int]
                    + self.table_stack@[r2 as int] == rank_capacity(r2 as int));
                assert(h@[r2 as int] == taker@[r2 as int]);
                assert(st@[r2 as int] == self.table_stack@[r2 as int]);
                assert(taker@[r2 as int] >= tc@[r2 as int]);
                assert(tc@[r2 as int] <= 3);
            }
            h.cards[r2] = h.cards[r2] - tc[r2];
            st.cards[r2] = st.cards[r2] + tc[r2];
            proof {
                assert(h@[r2 as int] as int == taker@[r2 as int] - tc@[r2 as int]);
                assert(st@[r2 as int] as int == self.table_stack@[r2 as int] + tc@[r2 as int]);
            }
            r2 = r2 + 1;
        }
        let mut cand = p;
        cand.set_hand_of_mover(h);
        cand.table_stack = st;

        proof {
            assert forall|t: int| 0 <= t < 6 implies cand.player_hand@[t] + cand.opponent_hand@[t]
                + cand.table_stack@[t] == rank_capacity(t) by {
                assert(self.player_hand@[t] + self.opponent_hand@[t] + self.table_stack@[t]
                    == rank_capacity(t));
            }
            assert(cand.inv());
        }

        proof {
            // A take-inverse with these exact counts can only be this
            // candidate: all its fields are forced pointwise.
            assert forall|pp: VerboseState|
                take_rel(pp, *self) && taken_counts(pp.table_stack@) == triple_counts(
                    gx,
                    gy,
                    gz,
                ) implies pp == cand by {
                assert(pp.turn == self.turn.next() && cand.turn == self.turn.next());
                assert forall|t: int|
                    0 <= t < 6 implies pp.table_stack.cards@[t] == cand.table_stack.cards@[t] by {
                    assert(taken_counts(pp.table_stack@)[t] == gt[t]);
                    assert(taken_at(pp.table_stack@, t) == tc@[t]);
                    assert(pp.table_stack@[t] as int == self.table_stack@[t] + tc@[t]);
                    assert(cand.table_stack@[t] == st@[t]);
                    assert(st@[t] as int == self.table_stack@[t] + tc@[t]);
                }
                assert forall|t: int|
                    0 <= t < 6 implies pp.player_hand.cards@[t] == cand.player_hand.cards@[t] by {
                    assert(taken_counts(pp.table_stack@)[t] == gt[t]);
                    assert(taken_at(pp.table_stack@, t) == tc@[t]);
                    if pp.turn is Player {
                        assert(self.player_hand@[t] as int == pp.player_hand@[t] + tc@[t]);
                        assert(taker@ == self.player_hand@);
                        assert(cand.player_hand@[t] == h@[t]);
                        assert(h@[t] as int == taker@[t] - tc@[t]);
                    } else {
                        assert(pp.player_hand@ == self.player_hand@);
                        assert(cand.player_hand@ == self.player_hand@);
                    }
                }
                assert forall|t: int|
                    0 <= t < 6 implies pp.opponent_hand.cards@[t]
                    == cand.opponent_hand.cards@[t] by {
                    assert(taken_counts(pp.table_stack@)[t] == gt[t]);
                    assert(taken_at(pp.table_stack@, t) == tc@[t]);
                    if pp.turn is Opponent {
                        assert(self.opponent_hand@[t] as int == pp.opponent_hand@[t] + tc@[t]);
                        assert(taker@ == self.opponent_hand@);
                        assert(cand.opponent_hand@[t] == h@[t]);
                        assert(h@[t] as int == taker@[t] - tc@[t]);
                    } else {
                        assert(pp.opponent_hand@ == self.opponent_hand@);
                        assert(cand.opponent_hand@ == self.opponent_hand@);
                    }
                }
                assert(pp.table_stack.cards =~= cand.table_stack.cards);
                assert(pp.player_hand.cards =~= cand.player_hand.cards);
                assert(pp.opponent_hand.cards =~= cand.opponent_hand.cards);
            }
        }
        let ghost res_before = res@;
        let (q, total) = cand.apply_take();
        if total > 0 && !cand.is_game_finished() && q.states_equal(self) {
            proof {
                assert(take_enabled(cand));
                assert(take_rel(cand, *self));
            }
            res.push(cand);
            proof {
                assert(res@[res@.len() - 1] == cand);
                assert forall|pp: VerboseState|
                    res_before.contains(pp) implies #[trigger] res@.contains(pp) by {
                    lemma_contains_after_push(res_before, cand, pp);
                }
                assert(res@.contains(cand));
            }
        } else {
            proof {
                // The checks can only fail when no take-inverse with these
                // counts exists at all: the candidate equals any such
                // inverse, and a real inverse passes every check.
                assert forall|pp: VerboseState|
                    take_rel(pp, *self) && taken_counts(pp.table_stack@) == triple_counts(
                        gx,
                        gy,
                        gz,
                    ) implies #[trigger] res@.contains(pp) by {
                    assert(pp == cand);
                    assert(take_rel(cand, *self));
                    assert(take_enabled(cand));
                    assert(total as int == take_total(cand.table_stack@));
                    assert(total > 0);
                    assert(!cand.is_terminal());
                    assert forall|t: int|
                        0 <= t < 6 implies q.table_stack.cards@[t] == self.table_stack.cards@[t]
                        && q.player_hand.cards@[t] == self.player_hand.cards@[t]
                        && q.opponent_hand.cards@[t] == self.opponent_hand.cards@[t] by {
                        assert(q.table_stack@[t] as int == cand.table_stack@[t] - taken_at(
                            cand.table_stack@,
                            t,
                        ));
                        assert(self.table_stack@[t] as int == cand.table_stack@[t] - taken_at(
                            cand.table_stack@,
                            t,
                        ));
                        if cand.turn is Player {
                            assert(q.player_hand@[t] as int == cand.player_hand@[t] + taken_at(
                                cand.table_stack@,
                                t,
                            ));
                            assert(self.player_hand@[t] as int == cand.player_hand@[t] + taken_at(
                                cand.table_stack@,
                                t,
                            ));
                            assert(q.opponent_hand@ == cand.opponent_hand@);
                            assert(self.opponent_hand@ == cand.opponent_hand@);
                        } else {
                            assert(q.opponent_hand@[t] as int == cand.opponent_hand@[t] + taken_at(
                                cand.table_stack@,
                                t,
                            ));
                            assert(self.opponent_hand@[t] as int == cand.opponent_hand@[t]
                                + taken_at(cand.table_stack@, t));
                            assert(q.player_hand@ == cand.player_hand@);
                            assert(self.player_hand@ == cand.player_hand@);
                        }
                    }
                    assert(q.table_stack.cards =~= self.table_stack.cards);
                    assert(q.player_hand.cards =~= self.player_hand.cards);
                    assert(q.opponent_hand.cards =~= self.opponent_hand.cards);
                    assert(q.turn == self.turn);
                    assert(q == *self);
                    assert(false);
                }
            }
        }
    }
}

} // verus!
