use crate::codec::{code_count, lemma_code_count_values, State};
use crate::state::{rank_capacity, Turn, VerboseState};
use rand::Rng;
use vstd::prelude::*;

verus! {

/// Relies on rand::thread_rng: a handle to the thread-local random number
/// generator. Nothing is assumed about it.
#[verifier::external_body]
fn fresh_rng() -> rand::rngs::ThreadRng {
    rand::thread_rng()
}

#[verifier::external_type_specification]
#[verifier::external_body]
pub struct ExThreadRng(rand::rngs::ThreadRng);

/// Relies on rand's Rng::gen_range over `0..n`: a value below `n`, drawn
/// uniformly; the call rejects an empty range, so `n` must be positive.
/// Beyond the bound nothing is assumed of the result.
#[verifier::external_body]
fn random_below(rng: &mut rand::rngs::ThreadRng, n: usize) -> (r: usize)
    requires
        n > 0,
    ensures
        r < n,
{
    rng.gen_range(0..n)
}

/// A uniformly random choice among the first `n` entries of a non-empty
/// vector's index range.
pub fn choose_index(n: usize) -> (r: usize)
    requires
        n > 0,
    ensures
        r < n,
{
    let mut rng = fresh_rng();
    random_below(&mut rng, n)
}

impl VerboseState {
    /// A position drawn at random: for every rank, each split of the rank's
    /// cards between the two hands and the stack is possible. The result
    /// always satisfies the hand invariant, but it may be unreachable from
    /// the standard starting position.
    pub fn random() -> (r: Self)
        ensures
            r.inv(),
            r.turn == Turn::Player,
    {
        let mut rng = fresh_rng();
        let c0 = random_below(&mut rng, 15) as u8;
        let c1 = random_below(&mut rng, 15) as u8;
        let c2 = random_below(&mut rng, 15) as u8;
        let c3 = random_below(&mut rng, 15) as u8;
        let c4 = random_below(&mut rng, 15) as u8;
        let c5 = random_below(&mut rng, 10) as u8;
        let s = State {
            cards: [c0 + 16 * c1, c2 + 16 * c3, c4 + 16 * c5],
            turn: Turn::Player,
        };
        proof {
            lemma_code_count_values();
            assert(s.cards@[0] == c0 + 16 * c1);
            assert(s.cards@[1] == c2 + 16 * c3);
            assert(s.cards@[2] == c4 + 16 * c5);
            assert((c0 + 16 * c1) as int % 16 == c0 as int);
            assert((c0 + 16 * c1) as int / 16 == c1 as int);
            assert((c2 + 16 * c3) as int % 16 == c2 as int);
            assert((c2 + 16 * c3) as int / 16 == c3 as int);
            assert((c4 + 16 * c5) as int % 16 == c4 as int);
            assert((c4 + 16 * c5) as int / 16 == c5 as int);
            assert forall|i: int| 0 <= i < 6 implies s.nib(i) < code_count(
                rank_capacity(i) as int,
            ) by {
                assert(s.nib(0) == c0 && s.nib(1) == c1 && s.nib(2) == c2 && s.nib(3) == c3
                    && s.nib(4) == c4 && s.nib(5) == c5);
            }
            assert(s.wf());
        }
        s.decode()
    }
}

/// A small probe that draws a random position, exercising the random
/// constructor end to end.
pub fn bar() {
    let _start_state = VerboseState::random();
}

} // verus!
