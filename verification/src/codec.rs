use crate::state::{rank_capacity, Turn, VerboseState};
use vstd::prelude::*;

verus! {

broadcast use vstd::array::group_array_axioms;

/// Encoding a position failed because some rank's counts do not add up to
/// that rank's capacity: the position breaks the hand invariant.
#[derive(Clone, Copy, Debug, PartialEq, Eq, Structural)]
pub enum StateError {
    InvalidPosition,
}

/// Where the triples with `p` player cards begin in the fixed enumeration of
/// all `(player, opponent, stack)` triples summing to `cap`: the enumeration
/// orders triples by player count, then by opponent count, the stack count
/// being determined by the other two.
pub open spec fn row_start(cap: int, p: int) -> int
    decreases p,
{
    if p <= 0 {
        0
    } else {
        row_start(cap, p - 1) + cap + 2 - p
    }
}

/// The index of the triple `(p, o, cap - p - o)` in that enumeration.
pub open spec fn code_of(cap: int, p: int, o: int) -> int {
    row_start(cap, p) + o
}

/// How many triples of non-negative counts sum to `cap`.
pub open spec fn code_count(cap: int) -> int {
    row_start(cap, cap + 1)
}

/// The per-rank code that encoding this position stores for rank `i`.
pub open spec fn spec_rank_code(vs: VerboseState, i: int) -> int {
    code_of(rank_capacity(i) as int, vs.player_hand@[i] as int, vs.opponent_hand@[i] as int)
}

pub proof fn lemma_row_start_mono(cap: int, p1: int, p2: int)
    requires
        0 <= p1 <= p2,
        p2 <= cap + 1,
    ensures
        row_start(cap, p1) <= row_start(cap, p2),
        p1 < p2 ==> row_start(cap, p1) + (cap + 1 - p1) <= row_start(cap, p2),
    decreases p2 - p1,
{
    if p1 < p2 {
        lemma_row_start_mono(cap, p1 + 1, p2);
    }
}

/// Every triple allowed by the hand invariant has a code below the number of
/// triples, so six codes fit in four bits each.
pub proof fn lemma_code_bounds(cap: int, p: int, o: int)
    requires
        0 <= p,
        0 <= o,
        p + o <= cap,
    ensures
        0 <= code_of(cap, p, o) < code_count(cap),
        row_start(cap, p) >= 0,
    decreases p,
{
    lemma_row_start_mono(cap, 0, p);
    lemma_row_start_mono(cap, p + 1, cap + 1);
    if p > 0 {
        lemma_code_bounds(cap, p - 1, 0);
    }
}

/// Distinct triples get distinct codes.
pub proof fn lemma_code_injective(cap: int, p1: int, o1: int, p2: int, o2: int)
    requires
        0 <= p1,
        0 <= o1,
        p1 + o1 <= cap,
        0 <= p2,
        0 <= o2,
        p2 + o2 <= cap,
        code_of(cap, p1, o1) == code_of(cap, p2, o2),
    ensures
        p1 == p2,
        o1 == o2,
{
    if p1 < p2 {
        lemma_row_start_mono(cap, p1 + 1, p2);
    } else if p2 < p1 {
        lemma_row_start_mono(cap, p2 + 1, p1);
    }
}

pub proof fn lemma_code_count_values()
    ensures
        code_count(4) == 15,
        code_count(3) == 10,
{
    assert(row_start(4, 0) == 0);
    assert(row_start(4, 1) == 5);
    assert(row_start(4, 2) == 9);
    assert(row_start(4, 3) == 12);
    assert(row_start(4, 4) == 14);
    assert(row_start(4, 5) == 15);
    assert(row_start(3, 0) == 0);
    assert(row_start(3, 1) == 4);
    assert(row_start(3, 2) == 7);
    assert(row_start(3, 3) == 9);
    assert(row_start(3, 4) == 10);
}

/// The compact key of a position: one four-bit code for each of the six
/// ranks, two codes to a byte, plus the mover. Every position satisfying the
/// hand invariant has exactly one key, and decoding inverts encoding.
#[derive(Clone, Copy, Debug, PartialEq, Eq, Hash)]
pub struct State {
    pub cards: [u8; 3],
    pub turn: Turn,
}

impl State {
    /// The four-bit rank code stored for rank `i`.
    pub open spec fn nib(self, i: int) -> int {
        if i % 2 == 0 {
            (self.cards@[i / 2] as int) % 16
        } else {
            (self.cards@[i / 2] as int) / 16
        }
    }

    /// Every stored code indexes an actual triple of its rank.
    pub open spec fn wf(self) -> bool {
        forall|i: int| 0 <= i < 6 ==> self.nib(i) < code_count(rank_capacity(i) as int)
    }

    /// The key packed into a single integer, for hashing and persistence.
    pub open spec fn spec_key(self) -> int {
        self.cards@[0] + self.cards@[1] * 256 + self.cards@[2] * 65536 + (
        if self.turn is Player {
            0int
        } else {
            16777216int
        })
    }

    pub open spec fn spec_turn(self) -> Turn {
        self.turn
    }

    /// The packed key as the 32-bit value stored in sets and files.
    pub open spec fn key32(self) -> u32 {
        self.spec_key() as u32
    }

    /// The packed integer form of this key.
    pub fn key(&self) -> (r: u32)
        ensures
            r as int == self.spec_key(),
            r == self.key32(),
            r < 0x2000000,
    {
        self.cards[0] as u32 + (self.cards[1] as u32) * 256 + (self.cards[2] as u32) * 65536 + (
        match self.turn {
            Turn::Player => 0u32,
            Turn::Opponent => 16777216u32,
        })
    }
}

/// The packed integer key that encoding this position produces, written
/// without mentioning a particular `State` value.
pub open spec fn vkey(vs: VerboseState) -> int {
    (spec_rank_code(vs, 0) + 16 * spec_rank_code(vs, 1)) + (spec_rank_code(vs, 2) + 16
        * spec_rank_code(vs, 3)) * 256 + (spec_rank_code(vs, 4) + 16 * spec_rank_code(vs, 5))
        * 65536 + (if vs.turn is Player {
        0int
    } else {
        16777216int
    })
}

pub open spec fn vkey32(vs: VerboseState) -> u32 {
    vkey(vs) as u32
}

/// The position `vs` and the key `s` store the same six rank codes and the
/// same mover: `s` is the encoding of `vs`.
pub open spec fn codes_match(vs: VerboseState, s: State) -> bool {
    &&& vs.turn == s.spec_turn()
    &&& forall|i: int| 0 <= i < 6 ==> spec_rank_code(vs, i) == s.nib(i)
}

/// A position determines its key: two keys encoding the same position are
/// equal. Together with `lemma_codes_match_unique_verbose` this is the
/// round-trip property of the compact encoding.
pub proof fn lemma_codes_match_unique_state(vs: VerboseState, s1: State, s2: State)
    requires
        codes_match(vs, s1),
        codes_match(vs, s2),
    ensures
        s1 == s2,
{
    assert forall|k: int| 0 <= k < 3 implies s1.cards@[k] == s2.cards@[k] by {
        assert(s1.nib(2 * k) == s2.nib(2 * k));
        assert(s1.nib(2 * k + 1) == s2.nib(2 * k + 1));
        assert((s1.cards@[k] as int) == (s1.cards@[k] as int) % 16 + 16 * ((s1.cards@[k] as int)
            / 16));
        assert((s2.cards@[k] as int) == (s2.cards@[k] as int) % 16 + 16 * ((s2.cards@[k] as int)
            / 16));
    }
    assert(s1.cards =~= s2.cards);
}

/// A key determines the position it encodes: two hand-invariant-consistent
/// positions with the same key are equal.
pub proof fn lemma_codes_match_unique_verbose(s: State, vs1: VerboseState, vs2: VerboseState)
    requires
        codes_match(vs1, s),
        codes_match(vs2, s),
        vs1.inv(),
        vs2.inv(),
    ensures
        vs1 == vs2,
{
    assert forall|i: int|
        0 <= i < 6 implies vs1.player_hand.cards@[i] == vs2.player_hand.cards@[i]
        && vs1.opponent_hand.cards@[i] == vs2.opponent_hand.cards@[i]
        && vs1.table_stack.cards@[i] == vs2.table_stack.cards@[i] by {
        let cap = rank_capacity(i) as int;
        assert(vs1.player_hand@[i] + vs1.opponent_hand@[i] + vs1.table_stack@[i] == cap);
        assert(vs2.player_hand@[i] + vs2.opponent_hand@[i] + vs2.table_stack@[i] == cap);
        assert(spec_rank_code(vs1, i) == s.nib(i));
        assert(spec_rank_code(vs2, i) == s.nib(i));
        lemma_code_injective(
            cap,
            vs1.player_hand@[i] as int,
            vs1.opponent_hand@[i] as int,
            vs2.player_hand@[i] as int,
            vs2.opponent_hand@[i] as int,
        );
    }
    assert(vs1.player_hand.cards =~= vs2.player_hand.cards);
    assert(vs1.opponent_hand.cards =~= vs2.opponent_hand.cards);
    assert(vs1.table_stack.cards =~= vs2.table_stack.cards);
}

/// Distinct keys pack to distinct integers, so the packed form can stand for
/// the key in a set or a file.
pub proof fn lemma_key_injective(s1: State, s2: State)
    requires
        s1.spec_key() == s2.spec_key(),
    ensures
        s1 == s2,
{
    let k = s1.spec_key();
    assert(s1.cards@[0] == k % 256 && s2.cards@[0] == k % 256) by (nonlinear_arith)
        requires
            s1.spec_key() == k,
            s2.spec_key() == k,
            0 <= s1.cards@[0] < 256,
            0 <= s1.cards@[1] < 256,
            0 <= s1.cards@[2] < 256,
            0 <= s2.cards@[0] < 256,
            0 <= s2.cards@[1] < 256,
            0 <= s2.cards@[2] < 256,
    {
    }
    assert(s1.cards@[1] == (k / 256) % 256 && s2.cards@[1] == (k / 256) % 256)
        by (nonlinear_arith)
        requires
            s1.spec_key() == k,
            s2.spec_key() == k,
            0 <= s1.cards@[0] < 256,
            0 <= s1.cards@[1] < 256,
            0 <= s1.cards@[2] < 256,
            0 <= s2.cards@[0] < 256,
            0 <= s2.cards@[1] < 256,
            0 <= s2.cards@[2] < 256,
    {
    }
    assert(s1.cards@[2] == (k / 65536) % 256 && s2.cards@[2] == (k / 65536) % 256)
        by (nonlinear_arith)
        requires
            s1.spec_key() == k,
            s2.spec_key() == k,
            0 <= s1.cards@[0] < 256,
            0 <= s1.cards@[1] < 256,
            0 <= s1.cards@[2] < 256,
            0 <= s2.cards@[0] < 256,
            0 <= s2.cards@[1] < 256,
            0 <= s2.cards@[2] < 256,
    {
    }
    assert((s1.turn is Player) == (s2.turn is Player)) by (nonlinear_arith)
        requires
            s1.spec_key() == k,
            s2.spec_key() == k,
            0 <= s1.cards@[0] < 256,
            0 <= s1.cards@[1] < 256,
            0 <= s1.cards@[2] < 256,
            0 <= s2.cards@[0] < 256,
            0 <= s2.cards@[1] < 256,
            0 <= s2.cards@[2] < 256,
    {
    }
    assert(s1.cards =~= s2.cards);
}

/// A key that encodes a position packs to that position's integer key.
pub proof fn lemma_codes_match_key(vs: VerboseState, s: State)
    requires
        codes_match(vs, s),
    ensures
        s.key32() == vkey32(vs),
        s.spec_key() == vkey(vs),
        0 <= vkey(vs) < 0x2000000,
{
    assert(s.nib(0) == (s.cards@[0] as int) % 16 && s.nib(1) == (s.cards@[0] as int) / 16);
    assert(s.nib(2) == (s.cards@[1] as int) % 16 && s.nib(3) == (s.cards@[1] as int) / 16);
    assert(s.nib(4) == (s.cards@[2] as int) % 16 && s.nib(5) == (s.cards@[2] as int) / 16);
    assert(s.cards@[0] as int == s.nib(0) + 16 * s.nib(1));
    assert(s.cards@[1] as int == s.nib(2) + 16 * s.nib(3));
    assert(s.cards@[2] as int == s.nib(4) + 16 * s.nib(5));
    assert(spec_rank_code(vs, 0) == s.nib(0) && spec_rank_code(vs, 1) == s.nib(1)
        && spec_rank_code(vs, 2) == s.nib(2) && spec_rank_code(vs, 3) == s.nib(3)
        && spec_rank_code(vs, 4) == s.nib(4) && spec_rank_code(vs, 5) == s.nib(5));
    assert(s.spec_key() == vkey(vs));
}

/// Two hand-invariant-consistent positions with the same integer key are the
/// same position.
#[verifier::rlimit(100)]
#[verifier::spinoff_prover]
pub proof fn lemma_vkey_injective(vs1: VerboseState, vs2: VerboseState)
    requires
        vs1.inv(),
        vs2.inv(),
        vkey32(vs1) == vkey32(vs2),
    ensures
        vs1 == vs2,
{
    assert forall|i: int|
        0 <= i < 6 implies 0 <= #[trigger] spec_rank_code(vs1, i) < 16 && 0 <= #[trigger]
        spec_rank_code(vs2, i) < 16 by {
        lemma_code_bounds(
            rank_capacity(i) as int,
            vs1.player_hand@[i] as int,
            vs1.opponent_hand@[i] as int,
        );
        lemma_code_bounds(
            rank_capacity(i) as int,
            vs2.player_hand@[i] as int,
            vs2.opponent_hand@[i] as int,
        );
        lemma_code_count_values();
    }
    assert(0 <= vkey(vs1) < 0x2000000 && 0 <= vkey(vs2) < 0x2000000);
    assert(vkey(vs1) == vkey(vs2));
    let a0 = spec_rank_code(vs1, 0) + 16 * spec_rank_code(vs1, 1);
    let a1 = spec_rank_code(vs1, 2) + 16 * spec_rank_code(vs1, 3);
    let a2 = spec_rank_code(vs1, 4) + 16 * spec_rank_code(vs1, 5);
    let b0 = spec_rank_code(vs2, 0) + 16 * spec_rank_code(vs2, 1);
    let b1 = spec_rank_code(vs2, 2) + 16 * spec_rank_code(vs2, 3);
    let b2 = spec_rank_code(vs2, 4) + 16 * spec_rank_code(vs2, 5);
    assert(a0 == b0 && a1 == b1 && a2 == b2 && (vs1.turn is Player) == (vs2.turn is Player))
        by (nonlinear_arith)
        requires
            0 <= a0 < 256,
            0 <= a1 < 256,
            0 <= a2 < 256,
            0 <= b0 < 256,
            0 <= b1 < 256,
            0 <= b2 < 256,
            a0 + a1 * 256 + a2 * 65536 + (if vs1.turn is Player {
                0int
            } else {
                16777216int
            }) == b0 + b1 * 256 + b2 * 65536 + (if vs2.turn is Player {
                0int
            } else {
                16777216int
            }),
    {
    }
    assert forall|i: int| 0 <= i < 6 implies spec_rank_code(vs1, i) == spec_rank_code(vs2, i) by {
        assert(a0 == b0 && a1 == b1 && a2 == b2);
    }
    assert forall|i: int|
        0 <= i < 6 implies vs1.player_hand.cards@[i] == vs2.player_hand.cards@[i]
        && vs1.opponent_hand.cards@[i] == vs2.opponent_hand.cards@[i]
        && vs1.table_stack.cards@[i] == vs2.table_stack.cards@[i] by {
        let cap = rank_capacity(i) as int;
        assert(vs1.player_hand@[i] + vs1.opponent_hand@[i] + vs1.table_stack@[i] == cap);
        assert(vs2.player_hand@[i] + vs2.opponent_hand@[i] + vs2.table_stack@[i] == cap);
        assert(spec_rank_code(vs1, i) == spec_rank_code(vs2, i));
        lemma_code_injective(
            cap,
            vs1.player_hand@[i] as int,
            vs1.opponent_hand@[i] as int,
            vs2.player_hand@[i] as int,
            vs2.opponent_hand@[i] as int,
        );
    }
    assert(vs1.player_hand.cards =~= vs2.player_hand.cards);
    assert(vs1.opponent_hand.cards =~= vs2.opponent_hand.cards);
    assert(vs1.table_stack.cards =~= vs2.table_stack.cards);
    assert((vs1.turn is Player) == (vs2.turn is Player));
    assert(vs1.turn == vs2.turn);
}

impl State {
    /// Encodes a position as its compact key; a position in which some
    /// rank's counts do not sum to the rank's capacity is rejected.
    pub fn encode(vs: &VerboseState) -> (r: Result<State, StateError>)
        ensures
            r is Ok <==> vs.inv(),
            r is Ok ==> codes_match(*vs, r.unwrap()) && r.unwrap().wf(),
    {
        let mut codes: [u8; 6] = [0, 0, 0, 0, 0, 0];
        let mut i: usize = 0;
        while i < 6
            invariant
                i <= 6,
                forall|j: int|
                    0 <= j < i ==> vs.player_hand@[j] + vs.opponent_hand@[j] + vs.table_stack@[j]
                        == rank_capacity(j),
                forall|j: int| 0 <= j < i ==> (#[trigger] codes@[j]) as int == spec_rank_code(*vs, j),
                forall|j: int| 0 <= j < i ==> (#[trigger] codes@[j]) < 16,
            decreases 6 - i,
        {
            let p = vs.player_hand.cards[i];
            let o = vs.opponent_hand.cards[i];
            let st = vs.table_stack.cards[i];
            let cap: u8 = if i < 5 {
                4
            } else {
                3
            };
            if p as usize + o as usize + st as usize != cap as usize {
                proof {
                    assert(vs.player_hand@[i as int] + vs.opponent_hand@[i as int]
                        + vs.table_stack@[i as int] != rank_capacity(i as int));
                }
                return Err(StateError::InvalidPosition);
            }
            proof {
                lemma_code_bounds(cap as int, p as int, o as int);
                lemma_code_count_values();
            }
            let mut offset: u8 = 0;
            let mut x: u8 = 0;
            while x < p
                invariant
                    x <= p,
                    p + o <= cap,
                    cap == 3 || cap == 4,
                    offset as int == row_start(cap as int, x as int),
                    offset <= 15,
                decreases p - x,
            {
                proof {
                    lemma_code_bounds(cap as int, x as int + 1, 0);
                    lemma_row_start_mono(cap as int, x as int + 1, cap as int + 1);
                    lemma_code_count_values();
                }
                offset = offset + (cap + 1 - x);
                x = x + 1;
            }
            let code = offset + o;
            proof {
                assert(code as int == spec_rank_code(*vs, i as int));
            }
            codes[i] = code;
            i = i + 1;
        }
        let b0 = codes[0] + codes[1] * 16;
        let b1 = codes[2] + codes[3] * 16;
        let b2 = codes[4] + codes[5] * 16;
        let s = State { cards: [b0, b1, b2], turn: vs.turn };
        proof {
            assert(s.cards@[0] == b0 && s.cards@[1] == b1 && s.cards@[2] == b2);
            assert forall|j: int| 0 <= j < 6 implies spec_rank_code(*vs, j) == s.nib(j) by {
                assert(codes@[0] < 16 && codes@[1] < 16 && codes@[2] < 16 && codes@[3] < 16
                    && codes@[4] < 16 && codes@[5] < 16);
                assert((codes@[0] + codes@[1] * 16) as int % 16 == codes@[0] as int);
                assert((codes@[0] + codes@[1] * 16) as int / 16 == codes@[1] as int);
                assert((codes@[2] + codes@[3] * 16) as int % 16 == codes@[2] as int);
                assert((codes@[2] + codes@[3] * 16) as int / 16 == codes@[3] as int);
                assert((codes@[4] + codes@[5] * 16) as int % 16 == codes@[4] as int);
                assert((codes@[4] + codes@[5] * 16) as int / 16 == codes@[5] as int);
            }
            assert forall|j: int| 0 <= j < 6 implies s.nib(j) < code_count(
                rank_capacity(j) as int,
            ) by {
                lemma_code_bounds(
                    rank_capacity(j) as int,
                    vs.player_hand@[j] as int,
                    vs.opponent_hand@[j] as int,
                );
            }
        }
        Ok(s)
    }

    /// Decodes a compact key back into the position it encodes; any key
    /// produced by a valid encode decodes to a hand-invariant-consistent
    /// position with the same codes.
    pub fn decode(&self) -> (r: VerboseState)
        requires
            self.wf(),
        ensures
            r.inv(),
            codes_match(r, *self),
    {
        let mut ph: [u8; 6] = [0, 0, 0, 0, 0, 0];
        let mut oh: [u8; 6] = [0, 0, 0, 0, 0, 0];
        let mut st: [u8; 6] = [0, 0, 0, 0, 0, 0];
        let mut i: usize = 0;
        while i < 6
            invariant
                self.wf(),
                i <= 6,
                forall|j: int|
                    0 <= j < i ==> (#[trigger] ph@[j]) + oh@[j] + st@[j] == rank_capacity(j),
                forall|j: int|
                    0 <= j < i ==> code_of(rank_capacity(j) as int, ph@[j] as int, oh@[j] as int)
                        == self.nib(j),
            decreases 6 - i,
        {
            let byte = self.cards[i / 2];
            let code: u8 = if i % 2 == 0 {
                byte % 16
            } else {
                byte / 16
            };
            proof {
                assert(code as int == self.nib(i as int));
                assert(self.nib(i as int) < code_count(rank_capacity(i as int) as int));
                lemma_code_count_values();
            }
            let cap: u8 = if i < 5 {
                4
            } else {
                3
            };
            let mut x: u8 = 0;
            let mut rem = code;
            while rem >= cap + 1 - x
                invariant
                    cap == 3 || cap == 4,
                    x <= cap,
                    code as int == row_start(cap as int, x as int) + rem,
                    (code as int) < code_count(cap as int),
                decreases cap - x,
            {
                proof {
                    if x as int + 1 > cap as int {
                        lemma_row_start_mono(cap as int, cap as int + 1, cap as int + 1);
                        assert(code as int >= row_start(cap as int, cap as int) + 1);
                        assert(code_count(cap as int) == row_start(cap as int, cap as int) + 1);
                        assert(false);
                    }
                }
                rem = rem - (cap + 1 - x);
                x = x + 1;
            }
            proof {
                assert(rem <= cap - x);
            }
            ph[i] = x;
            oh[i] = rem;
            st[i] = cap - x - rem;
            i = i + 1;
        }
        let r = VerboseState {
            player_hand: crate::state::CardsHand { cards: ph },
            opponent_hand: crate::state::CardsHand { cards: oh },
            table_stack: crate::state::CardsHand { cards: st },
            turn: self.turn,
        };
        r
    }
}

} // verus!
