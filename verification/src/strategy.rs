use crate::cache::{lemma_u32_set_len, OptimalCache};
use crate::codec::{
    codes_match, lemma_codes_match_key, lemma_codes_match_unique_verbose, lemma_vkey_injective,
    vkey32, State,
};
use crate::state::{
    lemma_put_all_functional, lemma_put_single_functional, lemma_step_preserves_inv,
    lemma_take_functional, move_matches, put_all_rel, put_single_rel, step_rel, take_rel, Move,
    MoveDescription, Turn, VerboseState,
};
use std::collections::BTreeSet;
use vstd::pervasive::unreached;
use vstd::prelude::*;

verus! {

broadcast use vstd::std_specs::btree::group_btree_axioms, vstd::laws_cmp::group_laws_cmp;

/// Some chain of `n` moves leads from the start to `s`, expanding only
/// through positions whose keys the key set `c` does not hold (the start
/// itself is expanded regardless, as the solver does).
pub open spec fn reach_n(start: VerboseState, c: Set<u32>, s: VerboseState, n: nat) -> bool
    decreases n,
{
    if n == 0 {
        s == start
    } else {
        exists|p: VerboseState|
            reach_n(start, c, p, (n - 1) as nat) && (p == start || !c.contains(vkey32(p))) && (
            #[trigger] step_rel(p, s))
    }
}

/// The positions the solver discovers: reachable from the start through
/// positions that the already-filled part of the cache does not classify.
/// With an empty key set this is plain reachability by forward moves.
pub open spec fn discovered(start: VerboseState, c: Set<u32>, s: VerboseState) -> bool {
    exists|n: nat| reach_n(start, c, s, n)
}

/// A key set closed under expansion: it holds the start's key (unless the
/// cache already did), and following any move out of a position it holds
/// (or out of the start) stays inside it or inside the cache's keys.
pub open spec fn keys_closed(start: VerboseState, c: Set<u32>, ks: Set<u32>) -> bool {
    &&& ks.contains(vkey32(start)) || c.contains(vkey32(start))
    &&& forall|p: VerboseState, t: VerboseState|
        (p == start || ks.contains(vkey32(p))) && p.inv() && #[trigger] step_rel(p, t)
            ==> ks.contains(vkey32(t)) || c.contains(vkey32(t))
}

/// Every discovered position satisfies the hand invariant and has its key in
/// any expansion-closed key set (or in the cache's own keys).
pub proof fn lemma_discovered_in_closed(
    start: VerboseState,
    c: Set<u32>,
    ks: Set<u32>,
    s: VerboseState,
    n: nat,
)
    requires
        start.inv(),
        keys_closed(start, c, ks),
        reach_n(start, c, s, n),
    ensures
        s.inv(),
        ks.contains(vkey32(s)) || c.contains(vkey32(s)),
    decreases n,
{
    if n != 0 {
        let p = choose|p: VerboseState|
            reach_n(start, c, p, (n - 1) as nat) && (p == start || !c.contains(vkey32(p))) && (
            #[trigger] step_rel(p, s));
        lemma_discovered_in_closed(start, c, ks, p, (n - 1) as nat);
        lemma_step_preserves_inv(p, s);
    }
}

/// With a key set that already covers everything discoverable through it,
/// a fresh discovery chain collapses: it can only step directly out of the
/// start, and even that stays inside the covered keys.
pub proof fn lemma_covered_reach_stays(
    stv: VerboseState,
    c0: Set<u32>,
    c1: Set<u32>,
    s: VerboseState,
    n: nat,
)
    requires
        c0.subset_of(c1),
        c1.contains(vkey32(stv)),
        forall|t: VerboseState| #[trigger] discovered(stv, c0, t) ==> c1.contains(vkey32(t)),
        reach_n(stv, c1, s, n),
    ensures
        c1.contains(vkey32(s)),
        discovered(stv, c0, s),
    decreases n,
{
    if n == 0 {
        assert(reach_n(stv, c0, s, 0));
        assert(discovered(stv, c0, s));
    } else {
        let p = choose|p: VerboseState|
            reach_n(stv, c1, p, (n - 1) as nat) && (p == stv || !c1.contains(vkey32(p))) && (
            #[trigger] step_rel(p, s));
        lemma_covered_reach_stays(stv, c0, c1, p, (n - 1) as nat);
        assert(p == stv);
        assert(reach_n(stv, c0, stv, 0));
        assert(reach_n(stv, c0, s, 1));
        assert(discovered(stv, c0, s));
    }
}

/// Running the solver again over an already-solved cache is idempotent: the
/// second run discovers nothing new, adds no keys, and therefore leaves the
/// cache — and its persisted bytes — exactly as they were.
pub proof fn lemma_resolve_is_idempotent(
    stv: VerboseState,
    c0k: Set<u32>,
    c1: OptimalCache,
    c2: OptimalCache,
)
    requires
        c0k.subset_of(c1.keys()),
        c1.keys().contains(vkey32(stv)),
        forall|s: VerboseState|
            #[trigger] discovered(stv, c0k, s) ==> c1.keys().contains(vkey32(s)),
        c1.keys().subset_of(c2.keys()),
        forall|k: u32|
            #[trigger] c2.keys().contains(k) && !c1.keys().contains(k) ==> exists|s: VerboseState|
                #[trigger] discovered(stv, c1.keys(), s) && vkey32(s) == k,
    ensures
        c2.keys() == c1.keys(),
{
    assert forall|k: u32| #[trigger] c2.keys().contains(k) implies c1.keys().contains(k) by {
        if !c1.keys().contains(k) {
            let s = choose|s: VerboseState|
                #[trigger] discovered(stv, c1.keys(), s) && vkey32(s) == k;
            let n = choose|n: nat| reach_n(stv, c1.keys(), s, n);
            lemma_covered_reach_stays(stv, c0k, c1.keys(), s, n);
        }
    }
    assert(c2.keys() =~= c1.keys());
}

/// How a solver run is allowed to change the cache: outcomes are only ever
/// added, never moved, all new keys are drawn from `newk`, and a run that
/// adds no keys changes nothing at all.
pub open spec fn cache_evolved(c0: OptimalCache, c: OptimalCache, newk: Set<u32>) -> bool {
    &&& c.inv()
    &&& forall|k: u32|
        c0.classified_as(k) is Some ==> #[trigger] c.classified_as(k) == c0.classified_as(k)
    &&& c0.keys().subset_of(c.keys())
    &&& c.keys().subset_of(c0.keys() + newk)
    &&& (c.keys() == c0.keys() ==> c == c0)
}

/// Every newly discovered terminal position is recorded as a win for the
/// side that ran out of cards (the player's hand is checked first, as the
/// seeding does).
pub open spec fn terminal_recorded(stv: VerboseState, c: OptimalCache, newk: Set<u32>) -> bool {
    &&& forall|vs2: VerboseState|
        #[trigger] newk.contains(vkey32(vs2)) && vs2.inv() && vs2 != stv
            && vs2.player_hand.spec_empty() ==> c.classified_as(vkey32(vs2)) == Some(
            Some(Turn::Player),
        )
    &&& forall|vs2: VerboseState|
        #[trigger] newk.contains(vkey32(vs2)) && vs2.inv() && vs2 != stv
            && !vs2.player_hand.spec_empty() && vs2.opponent_hand.spec_empty()
            ==> c.classified_as(vkey32(vs2)) == Some(Some(Turn::Opponent))
}

/// The ghost positions standing behind a worklist of compact keys.
pub open spec fn queue_matches(gq: Seq<VerboseState>, q: Seq<State>) -> bool {
    &&& gq.len() == q.len()
    &&& forall|i: int| 0 <= i < gq.len() ==> (#[trigger] gq[i]).inv()
    &&& forall|i: int| 0 <= i < gq.len() ==> codes_match(#[trigger] gq[i], q[i])
    &&& forall|i: int| 0 <= i < q.len() ==> (#[trigger] q[i]).wf()
}

/// What phase one records of its worklist: every queued position was
/// discovered and is expandable, its key is accounted for, and every new key
/// has a queued position behind it.
pub open spec fn gq_discovered(
    stv: VerboseState,
    ck0: Set<u32>,
    newk: Set<u32>,
    gq: Seq<VerboseState>,
) -> bool {
    &&& forall|i: int| 0 <= i < gq.len() ==> discovered(stv, ck0, #[trigger] gq[i])
    &&& forall|i: int|
        0 <= i < gq.len() ==> (#[trigger] gq[i]) == stv || !ck0.contains(vkey32(gq[i]))
    &&& forall|i: int|
        0 <= i < gq.len() ==> newk.contains(vkey32(#[trigger] gq[i])) || ck0.contains(
            vkey32(gq[i]),
        )
    &&& forall|k: u32|
        #[trigger] newk.contains(k) ==> exists|i: int|
            0 <= i < gq.len() && vkey32(#[trigger] gq[i]) == k
}

/// The optimal policy: backed by a cache that the retrograde solver has
/// filled for every position reachable from the start it was built with.
pub struct Optimal<'a> {
    pub cache: &'a OptimalCache,
}

#[verifier::rlimit(100)]
fn solve_phase1(start_state: &VerboseState, cache: &mut OptimalCache) -> (r: (
    Vec<State>,
    BTreeSet<u32>,
    Vec<State>,
    Ghost<Seq<VerboseState>>,
))
    requires
        start_state.inv(),
        old(cache).inv(),
    ensures
        cache_evolved(*old(cache), *final(cache), r.1@),
        terminal_recorded(*start_state, *final(cache), r.1@),
        r.1@.finite(),
        forall|k: u32| r.1@.contains(k) ==> !old(cache).keys().contains(k),
        keys_closed(*start_state, old(cache).keys(), r.1@),
        queue_matches(r.3@, r.0@),
        gq_discovered(*start_state, old(cache).keys(), r.1@, r.3@),
        forall|i: int| 0 <= i < r.2@.len() ==> (#[trigger] r.2@[i]).wf(),
{
    let ghost stv = *start_state;
    let ghost c0 = *cache;
    let ghost ck0 = c0.keys();

    let start_st = match State::encode(start_state) {
        Ok(s) => s,
        Err(_) => unreached(),
    };
    proof {
        lemma_codes_match_key(stv, start_st);
    }

    let mut new_set: BTreeSet<u32> = BTreeSet::new();
    let mut queue: Vec<State> = Vec::new();
    let mut winning_queue: Vec<State> = Vec::new();
    let ghost mut gq = Seq::<VerboseState>::empty();

    queue.push(start_st);
    proof {
        gq = gq.push(stv);
    }
    if cache.get_state_winningness(start_st).is_none() {
        new_set.insert(start_st.key());
    }
    proof {
        lemma_u32_set_len(new_set@);
        assert(reach_n(stv, ck0, stv, 0));
        assert(discovered(stv, ck0, stv));
        // The only key recorded so far is the start's own.
        assert forall|vs2: VerboseState|
            #[trigger] new_set@.contains(vkey32(vs2)) && vs2.inv() && vs2 != stv implies false by {
            lemma_vkey_injective(vs2, stv);
        }
        assert(terminal_recorded(stv, *cache, new_set@));
    }

    let mut qi: usize = 0;
    while qi < queue.len()
        invariant
            stv.inv(),
            ck0 == c0.keys(),
            cache_evolved(c0, *cache, new_set@),
            terminal_recorded(stv, *cache, new_set@),
            new_set@.len() <= 0x1_0000_0000,
            new_set@.finite(),
            forall|k: u32| new_set@.contains(k) ==> !ck0.contains(k),
            new_set@.contains(vkey32(stv)) || ck0.contains(vkey32(stv)),
            queue@.len() >= 1,
            gq[0] == stv,
            queue_matches(gq, queue@),
            gq_discovered(stv, ck0, new_set@, gq),
            qi <= queue@.len(),
            forall|i: int, t: VerboseState|
                0 <= i < qi && #[trigger] step_rel(gq[i], t) ==> new_set@.contains(vkey32(t))
                    || ck0.contains(vkey32(t)),
            forall|i: int| 0 <= i < winning_queue@.len() ==> (#[trigger] winning_queue@[i]).wf(),
        decreases 0x1_0000_0001int - new_set@.len(), queue@.len() - qi,
    {
        let ghost new0 = new_set@;
        let ghost qlen0 = queue@.len();
        let s_st = queue[qi];
        let vs = s_st.decode();
        proof {
            lemma_codes_match_unique_verbose(s_st, vs, gq[qi as int]);
        }
        let moves = vs.following_states();
        let ghost ms = moves@;

        // Every move target is either already accounted for or still ahead
        // in the move list.
        proof {
            assert forall|t: VerboseState| #[trigger]
                step_rel(vs, t) implies new_set@.contains(vkey32(t)) || ck0.contains(vkey32(t))
                || exists|jj: int| 0 <= jj < ms.len() && ms[jj] == t by {
                if exists|i: int| put_single_rel(vs, t, i) {
                    let i = choose|i: int| put_single_rel(vs, t, i);
                    let k = choose|k: int|
                        0 <= k < ms.len() && put_single_rel(vs, #[trigger] ms[k], i);
                    lemma_put_single_functional(vs, i, t, ms[k]);
                    assert(ms[k] == t);
                } else if exists|i: int| put_all_rel(vs, t, i) {
                    let i = choose|i: int| put_all_rel(vs, t, i);
                    let k = choose|k: int| 0 <= k < ms.len() && put_all_rel(vs, #[trigger] ms[k], i);
                    lemma_put_all_functional(vs, i, t, ms[k]);
                    assert(ms[k] == t);
                } else {
                    let k = choose|k: int| 0 <= k < ms.len() && take_rel(vs, #[trigger] ms[k]);
                    lemma_take_functional(vs, t, ms[k]);
                    assert(ms[k] == t);
                }
            }
        }

        let mut mj: usize = 0;
        while mj < moves.len()
            invariant
                stv.inv(),
                ck0 == c0.keys(),
                cache_evolved(c0, *cache, new_set@),
                terminal_recorded(stv, *cache, new_set@),
                new_set@.len() <= 0x1_0000_0000,
                new_set@.finite(),
                forall|k: u32| new_set@.contains(k) ==> !ck0.contains(k),
                new_set@.contains(vkey32(stv)) || ck0.contains(vkey32(stv)),
                queue@.len() >= 1,
                gq[0] == stv,
                queue_matches(gq, queue@),
                gq_discovered(stv, ck0, new_set@, gq),
                0 <= qi < queue@.len(),
                gq[qi as int] == vs,
                vs.inv(),
                discovered(stv, ck0, vs),
                vs == stv || !ck0.contains(vkey32(vs)),
                forall|i: int, t: VerboseState|
                    0 <= i < qi && #[trigger] step_rel(gq[i], t) ==> new_set@.contains(vkey32(t))
                        || ck0.contains(vkey32(t)),
                forall|i: int|
                    0 <= i < winning_queue@.len() ==> (#[trigger] winning_queue@[i]).wf(),
                mj <= ms.len(),
                ms == moves@,
                new0.subset_of(new_set@),
                new0.len() <= new_set@.len(),
                queue@.len() - qlen0 == new_set@.len() - new0.len(),
                qlen0 >= 1,
                forall|jj: int|
                    0 <= jj < ms.len() ==> step_rel(vs, #[trigger] ms[jj]) && ms[jj].inv(),
                forall|t: VerboseState| #[trigger]
                    step_rel(vs, t) ==> new_set@.contains(vkey32(t)) || ck0.contains(vkey32(t))
                        || exists|jj: int| mj <= jj < ms.len() && ms[jj] == t,
            decreases ms.len() - mj,
        {
            let t_vs = moves[mj];
            let t_st = match State::encode(&t_vs) {
                Ok(x) => x,
                Err(_) => unreached(),
            };
            let k = t_st.key();
            proof {
                lemma_codes_match_key(t_vs, t_st);
            }
            let in_new = new_set.contains(&k);
            let in_cache = cache.classify_key(k).is_some();
            if !in_new && !in_cache {
                proof {
                    let n = choose|n: nat| reach_n(stv, ck0, vs, n);
                    assert(reach_n(stv, ck0, t_vs, n + 1));
                    assert(discovered(stv, ck0, t_vs));
                    assert(!ck0.contains(k));
                }
                new_set.insert(k);
                queue.push(t_st);
                proof {
                    let gq_old = gq;
                    gq = gq.push(t_vs);
                    lemma_u32_set_len(new_set@);
                    assert forall|k2: u32| #[trigger] new_set@.contains(k2) implies exists|i: int|
                        0 <= i < gq.len() && vkey32(#[trigger] gq[i]) == k2 by {
                        if k2 == k {
                            assert(vkey32(gq[gq.len() - 1]) == k2);
                        } else {
                            let i = choose|i: int|
                                0 <= i < gq_old.len() && vkey32(#[trigger] gq_old[i]) == k2;
                            assert(vkey32(gq[i]) == k2);
                        }
                    }
                }
                let player_out = t_vs.player_hand.is_empty();
                let opponent_out = t_vs.opponent_hand.is_empty();
                if player_out {
                    cache.insert(Some(Turn::Player), k);
                    winning_queue.push(t_st);
                } else if opponent_out {
                    cache.insert(Some(Turn::Opponent), k);
                    winning_queue.push(t_st);
                }
                proof {
                    assert(cache.keys().subset_of(ck0 + new_set@));
                    assert forall|vs2: VerboseState|
                        #[trigger] new_set@.contains(vkey32(vs2)) && vs2.inv() && vs2 != stv
                            && vs2.player_hand.spec_empty() implies cache.classified_as(
                        vkey32(vs2),
                    ) == Some(Some(Turn::Player)) by {
                        if vkey32(vs2) == k {
                            lemma_vkey_injective(vs2, t_vs);
                        }
                    }
                    assert forall|vs2: VerboseState|
                        #[trigger] new_set@.contains(vkey32(vs2)) && vs2.inv() && vs2 != stv
                            && !vs2.player_hand.spec_empty() && vs2.opponent_hand.spec_empty()
                            implies cache.classified_as(vkey32(vs2)) == Some(
                        Some(Turn::Opponent),
                    ) by {
                        if vkey32(vs2) == k {
                            lemma_vkey_injective(vs2, t_vs);
                        }
                    }
                }
            } else {
                proof {
                    assert(new_set@.contains(vkey32(t_vs)) || cache.keys().contains(vkey32(t_vs)));
                }
            }
            proof {
                assert forall|t: VerboseState| #[trigger]
                    step_rel(vs, t) implies new_set@.contains(vkey32(t)) || ck0.contains(
                    vkey32(t),
                ) || exists|jj: int| mj + 1 <= jj < ms.len() && ms[jj] == t by {
                    if !new_set@.contains(vkey32(t)) && !ck0.contains(vkey32(t)) {
                        let jj = choose|jj: int| mj <= jj < ms.len() && ms[jj] == t;
                        if jj == mj {
                            assert(t == t_vs);
                        }
                    }
                }
            }
            mj = mj + 1;
        }
        qi = qi + 1;
    }

    proof {
        // Every queued position was expanded, so the new keys are closed
        // under expansion.
        assert forall|p: VerboseState, t: VerboseState|
            (p == stv || new_set@.contains(vkey32(p))) && p.inv() && #[trigger] step_rel(
                p,
                t,
            ) implies new_set@.contains(vkey32(t)) || ck0.contains(vkey32(t)) by {
            if p == stv {
                assert(step_rel(gq[0], t));
            } else {
                let i = choose|i: int| 0 <= i < gq.len() && vkey32(#[trigger] gq[i]) == vkey32(p);
                lemma_vkey_injective(gq[i], p);
                assert(step_rel(gq[i], t));
            }
        }
        assert(keys_closed(stv, ck0, new_set@));
    }

    (queue, new_set, winning_queue, Ghost(gq))
}

#[verifier::rlimit(100)]
fn solve_phase2(
    cache: &mut OptimalCache,
    new_set: &BTreeSet<u32>,
    winning_queue: &Vec<State>,
    Ghost(stv): Ghost<VerboseState>,
    Ghost(c0): Ghost<OptimalCache>,
)
    requires
        stv.inv(),
        cache_evolved(c0, *old(cache), new_set@),
        terminal_recorded(stv, *old(cache), new_set@),
        new_set@.finite(),
        forall|k: u32| new_set@.contains(k) ==> !c0.keys().contains(k),
        forall|i: int| 0 <= i < winning_queue@.len() ==> (#[trigger] winning_queue@[i]).wf(),
    ensures
        cache_evolved(c0, *final(cache), new_set@),
        terminal_recorded(stv, *final(cache), new_set@),
{
    let ghost ck0 = c0.keys();
    let mut queue2: Vec<State> = Vec::new();
    let ghost mut gq2 = Seq::<VerboseState>::empty();

    // Seed with the predecessors of the terminal positions just classified.
    let mut wi: usize = 0;
    while wi < winning_queue.len()
        invariant
            wi <= winning_queue@.len(),
            forall|i: int| 0 <= i < winning_queue@.len() ==> (#[trigger] winning_queue@[i]).wf(),
            queue_matches(gq2, queue2@),
            forall|i: int| 0 <= i < gq2.len() ==> !(#[trigger] gq2[i]).is_terminal(),
            forall|i: int| 0 <= i < gq2.len() ==> new_set@.contains(vkey32(#[trigger] gq2[i])),
        decreases winning_queue@.len() - wi,
    {
        let wvs = winning_queue[wi].decode();
        let preds = wvs.preceding_states();
        let mut pj: usize = 0;
        while pj < preds.len()
            invariant
                pj <= preds@.len(),
                forall|i: int|
                    0 <= i < preds@.len() ==> step_rel(#[trigger] preds@[i], wvs)
                        && preds@[i].inv(),
                queue_matches(gq2, queue2@),
                forall|i: int| 0 <= i < gq2.len() ==> !(#[trigger] gq2[i]).is_terminal(),
                forall|i: int| 0 <= i < gq2.len() ==> new_set@.contains(vkey32(#[trigger] gq2[i])),
            decreases preds@.len() - pj,
        {
            let p = preds[pj];
            let p_st = match State::encode(&p) {
                Ok(x) => x,
                Err(_) => unreached(),
            };
            proof {
                lemma_codes_match_key(p, p_st);
                assert(!p.is_terminal());
            }
            let pk = p_st.key();
            if new_set.contains(&pk) {
                queue2.push(p_st);
                proof {
                    gq2 = gq2.push(p);
                }
            }
            pj = pj + 1;
        }
        wi = wi + 1;
    }

    // Classify a position once one of its moves wins for its mover, or all
    // of its moves win for the other side; on each classification re-examine
    // the position's predecessors.
    let mut qi2: usize = 0;
    while qi2 < queue2.len()
        invariant
            stv.inv(),
            ck0 == c0.keys(),
            cache_evolved(c0, *cache, new_set@),
            terminal_recorded(stv, *cache, new_set@),
            new_set@.finite(),
            forall|k: u32| new_set@.contains(k) ==> !ck0.contains(k),
            qi2 <= queue2@.len(),
            queue_matches(gq2, queue2@),
            forall|i: int| 0 <= i < gq2.len() ==> !(#[trigger] gq2[i]).is_terminal(),
            forall|i: int| 0 <= i < gq2.len() ==> new_set@.contains(vkey32(#[trigger] gq2[i])),
        decreases 0x1_0000_0001int - cache.keys().len(), queue2@.len() - qi2,
    {
        proof {
            lemma_u32_set_len(cache.keys());
        }
        let s_st = queue2[qi2];
        let k = s_st.key();
        proof {
            lemma_codes_match_key(gq2[qi2 as int], s_st);
        }
        if cache.classify_key(k).is_none() {
            let vs = s_st.decode();
            proof {
                lemma_codes_match_unique_verbose(s_st, vs, gq2[qi2 as int]);
            }
            let pm = vs.possible_moves();
            let mut cnt_me: usize = 0;
            let mut cnt_other: usize = 0;
            let mut ci: usize = 0;
            while ci < pm.len()
                invariant
                    ci <= pm@.len(),
                    cnt_me <= ci,
                    cnt_other <= ci,
                    vs.inv(),
                    cache.inv(),
                    forall|jj: int| 0 <= jj < pm@.len() ==> move_matches(vs, #[trigger] pm@[jj]),
                decreases pm@.len() - ci,
            {
                proof {
                    match pm@[ci as int].desc {
                        MoveDescription::PutSingle(ii) => {
                            assert(put_single_rel(vs, pm@[ci as int].state, ii as int));
                        },
                        MoveDescription::PutAll(ii) => {
                            assert(put_all_rel(vs, pm@[ci as int].state, ii as int));
                        },
                        MoveDescription::Take => {
                            assert(take_rel(vs, pm@[ci as int].state));
                        },
                    }
                    lemma_step_preserves_inv(vs, pm@[ci as int].state);
                }
                let next_st = match State::encode(&pm[ci].state) {
                    Ok(x) => x,
                    Err(_) => unreached(),
                };
                match cache.get_state_winningness(next_st) {
                    Some(Some(t)) => {
                        let same = match (t, vs.turn) {
                            (Turn::Player, Turn::Player) => true,
                            (Turn::Opponent, Turn::Opponent) => true,
                            _ => false,
                        };
                        if same {
                            cnt_me = cnt_me + 1;
                        } else {
                            cnt_other = cnt_other + 1;
                        }
                    },
                    _ => {},
                }
                ci = ci + 1;
            }
            let chosen: Option<Turn> = if cnt_me > 0 {
                Some(vs.turn)
            } else if cnt_other == pm.len() {
                Some(vs.turn.next())
            } else {
                None
            };
            if let Some(winner) = chosen {
                proof {
                    assert(new_set@.contains(k));
                    assert(!ck0.contains(k));
                }
                let ghost pre = *cache;
                cache.insert(Some(winner), k);
                proof {
                    assert(cache.keys().subset_of(ck0 + new_set@));
                    // The classified key belongs to this non-terminal
                    // position alone, so the terminal record is untouched.
                    assert forall|vs2: VerboseState|
                        #[trigger] new_set@.contains(vkey32(vs2)) && vs2.inv() && vs2 != stv
                            && vs2.player_hand.spec_empty() implies cache.classified_as(
                        vkey32(vs2),
                    ) == Some(Some(Turn::Player)) by {
                        if vkey32(vs2) == k {
                            lemma_vkey_injective(vs2, vs);
                        } else {
                            assert(pre.classified_as(vkey32(vs2)) == Some(Some(Turn::Player)));
                        }
                    }
                    assert forall|vs2: VerboseState|
                        #[trigger] new_set@.contains(vkey32(vs2)) && vs2.inv() && vs2 != stv
                            && !vs2.player_hand.spec_empty() && vs2.opponent_hand.spec_empty()
                            implies cache.classified_as(vkey32(vs2)) == Some(
                        Some(Turn::Opponent),
                    ) by {
                        if vkey32(vs2) == k {
                            lemma_vkey_injective(vs2, vs);
                        } else {
                            assert(pre.classified_as(vkey32(vs2)) == Some(Some(Turn::Opponent)));
                        }
                    }
                }
                let preds = vs.preceding_states();
                let mut pj: usize = 0;
                while pj < preds.len()
                    invariant
                        pj <= preds@.len(),
                        qi2 < queue2@.len(),
                        forall|i: int|
                            0 <= i < preds@.len() ==> step_rel(#[trigger] preds@[i], vs)
                                && preds@[i].inv(),
                        queue_matches(gq2, queue2@),
                        forall|i: int| 0 <= i < gq2.len() ==> !(#[trigger] gq2[i]).is_terminal(),
                        forall|i: int|
                            0 <= i < gq2.len() ==> new_set@.contains(vkey32(#[trigger] gq2[i])),
                    decreases preds@.len() - pj,
                {
                    let p = preds[pj];
                    let p_st = match State::encode(&p) {
                        Ok(x) => x,
                        Err(_) => unreached(),
                    };
                    proof {
                        lemma_codes_match_key(p, p_st);
                        assert(!p.is_terminal());
                    }
                    let pk = p_st.key();
                    if new_set.contains(&pk) {
                        queue2.push(p_st);
                        proof {
                            gq2 = gq2.push(p);
                        }
                    }
                    pj = pj + 1;
                }
            }
        }
        qi2 = qi2 + 1;
    }
}

fn fill_draws(
    cache: &mut OptimalCache,
    new_set: &BTreeSet<u32>,
    queue: &Vec<State>,
    Ghost(gq): Ghost<Seq<VerboseState>>,
    Ghost(stv): Ghost<VerboseState>,
    Ghost(c0): Ghost<OptimalCache>,
)
    requires
        stv.inv(),
        cache_evolved(c0, *old(cache), new_set@),
        terminal_recorded(stv, *old(cache), new_set@),
        new_set@.finite(),
        forall|k: u32| new_set@.contains(k) ==> !c0.keys().contains(k),
        queue_matches(gq, queue@),
        forall|i: int|
            0 <= i < gq.len() ==> new_set@.contains(vkey32(#[trigger] gq[i])) || c0.keys().contains(
                vkey32(gq[i]),
            ),
    ensures
        cache_evolved(c0, *final(cache), new_set@),
        terminal_recorded(stv, *final(cache), new_set@),
        forall|i: int|
            0 <= i < gq.len() ==> final(cache).classified_as(vkey32(#[trigger] gq[i])) is Some,
{
    let ghost ck0 = c0.keys();
    let mut fi: usize = 0;
    while fi < queue.len()
        invariant
            stv.inv(),
            ck0 == c0.keys(),
            cache_evolved(c0, *cache, new_set@),
            terminal_recorded(stv, *cache, new_set@),
            new_set@.finite(),
            forall|k: u32| new_set@.contains(k) ==> !ck0.contains(k),
            fi <= queue@.len(),
            queue_matches(gq, queue@),
            forall|i: int|
                0 <= i < gq.len() ==> new_set@.contains(vkey32(#[trigger] gq[i])) || ck0.contains(
                    vkey32(gq[i]),
                ),
            forall|i: int| 0 <= i < fi ==> cache.classified_as(vkey32(#[trigger] gq[i])) is Some,
        decreases queue@.len() - fi,
    {
        let s_st = queue[fi];
        let k = s_st.key();
        proof {
            lemma_codes_match_key(gq[fi as int], s_st);
        }
        if cache.classify_key(k).is_none() {
            proof {
                // An unclassified queued key cannot come from the old cache,
                // whose keys all stay classified, so it is newly discovered.
                assert(!ck0.contains(k)) by {
                    if ck0.contains(k) {
                        assert(cache.keys().contains(k));
                    }
                }
                assert(new_set@.contains(k));
            }
            let ghost pre = *cache;
            cache.insert(None, k);
            proof {
                assert(cache.keys().subset_of(ck0 + new_set@));
                assert forall|vs2: VerboseState|
                    #[trigger] new_set@.contains(vkey32(vs2)) && vs2.inv() && vs2 != stv
                        && vs2.player_hand.spec_empty() implies cache.classified_as(vkey32(vs2))
                    == Some(Some(Turn::Player)) by {
                    assert(pre.classified_as(vkey32(vs2)) == Some(Some(Turn::Player)));
                }
                assert forall|vs2: VerboseState|
                    #[trigger] new_set@.contains(vkey32(vs2)) && vs2.inv() && vs2 != stv
                        && !vs2.player_hand.spec_empty() && vs2.opponent_hand.spec_empty() implies
                    cache.classified_as(vkey32(vs2)) == Some(Some(Turn::Opponent)) by {
                    assert(pre.classified_as(vkey32(vs2)) == Some(Some(Turn::Opponent)));
                }
            }
        }
        fi = fi + 1;
    }
}

impl<'a> Optimal<'a> {
    /// The cache this policy consults.
    pub open spec fn view(self) -> OptimalCache {
        *self.cache
    }

    /// Solves the game by retrograde analysis from `start_state` and records
    /// an outcome in the cache for every newly discovered position: reachable
    /// positions already classified are trusted and not expanded again, keys
    /// already present keep their outcome, every position discovered through
    /// unclassified ones ends up classified, and a position first reached by
    /// a move that empties a side's hand is recorded as a win for that side.
    /// A run that adds no keys leaves the cache untouched.
    pub fn new_with_mut_cache(start_state: &VerboseState, cache: &'a mut OptimalCache) -> (r: Self)
        requires
            start_state.inv(),
            old(cache).inv(),
        ensures
            r.view() == *final(cache),
            final(cache).inv(),
            forall|k: u32|
                old(cache).classified_as(k) is Some ==> #[trigger] final(cache).classified_as(k)
                    == old(cache).classified_as(k),
            forall|s: VerboseState|
                #[trigger] discovered(*start_state, old(cache).keys(), s)
                    ==> final(cache).classified_as(vkey32(s)) is Some,
            forall|k: u32|
                #[trigger] final(cache).keys().contains(k) && !old(cache).keys().contains(k)
                    ==> exists|s: VerboseState|
                    #[trigger] discovered(*start_state, old(cache).keys(), s) && vkey32(s) == k,
            final(cache).keys() == old(cache).keys() ==> *final(cache) == *old(cache),
            forall|s: VerboseState|
                #[trigger] discovered(*start_state, old(cache).keys(), s) && s != *start_state
                    && !old(cache).keys().contains(vkey32(s)) && s.player_hand.spec_empty()
                    ==> final(cache).classified_as(vkey32(s)) == Some(Some(Turn::Player)),
            forall|s: VerboseState|
                #[trigger] discovered(*start_state, old(cache).keys(), s) && s != *start_state
                    && !old(cache).keys().contains(vkey32(s)) && !s.player_hand.spec_empty()
                    && s.opponent_hand.spec_empty() ==> final(cache).classified_as(vkey32(s))
                    == Some(Some(Turn::Opponent)),
    {
        let ghost stv = *start_state;
        let ghost c0 = *cache;
        let ghost ck0 = c0.keys();

        let (queue, new_set, winning_queue, gq_g) = solve_phase1(start_state, cache);
        let ghost gq = gq_g@;
        solve_phase2(cache, &new_set, &winning_queue, Ghost(stv), Ghost(c0));
        fill_draws(cache, &new_set, &queue, Ghost(gq), Ghost(stv), Ghost(c0));

        proof {
            assert forall|s: VerboseState| #[trigger]
                discovered(stv, ck0, s) implies cache.classified_as(vkey32(s)) is Some by {
                let n = choose|n: nat| reach_n(stv, ck0, s, n);
                lemma_discovered_in_closed(stv, ck0, new_set@, s, n);
                if new_set@.contains(vkey32(s)) {
                    let i = choose|i: int|
                        0 <= i < gq.len() && vkey32(#[trigger] gq[i]) == vkey32(s);
                    assert(cache.classified_as(vkey32(gq[i])) is Some);
                } else {
                    assert(c0.classified_as(vkey32(s)) is Some);
                }
            }
            assert forall|k: u32|
                #[trigger] cache.keys().contains(k) && !ck0.contains(k) implies exists|
                s: VerboseState,
            | #[trigger] discovered(stv, ck0, s) && vkey32(s) == k by {
                assert(new_set@.contains(k));
                let i = choose|i: int| 0 <= i < gq.len() && vkey32(#[trigger] gq[i]) == k;
                assert(discovered(stv, ck0, gq[i]) && vkey32(gq[i]) == k);
            }
            assert forall|s: VerboseState|
                #[trigger] discovered(stv, ck0, s) && s != stv && !ck0.contains(vkey32(s))
                    && s.player_hand.spec_empty() implies cache.classified_as(vkey32(s)) == Some(
                Some(Turn::Player),
            ) by {
                let n = choose|n: nat| reach_n(stv, ck0, s, n);
                lemma_discovered_in_closed(stv, ck0, new_set@, s, n);
            }
            assert forall|s: VerboseState|
                #[trigger] discovered(stv, ck0, s) && s != stv && !ck0.contains(vkey32(s)) && !s
                    .player_hand.spec_empty() && s.opponent_hand.spec_empty() implies cache
                .classified_as(vkey32(s)) == Some(Some(Turn::Opponent)) by {
                let n = choose|n: nat| reach_n(stv, ck0, s, n);
                lemma_discovered_in_closed(stv, ck0, new_set@, s, n);
            }
        }

        Optimal { cache: &*cache }
    }

    /// The cached outcome of a position: `None` is a draw, `Some(side)` a
    /// forced win for that side. The solver must already have classified the
    /// position.
    pub fn get_winning_turn(&self, vs: &VerboseState) -> (r: Option<Turn>)
        requires
            vs.inv(),
            self.view().classified_as(vkey32(*vs)) is Some,
        ensures
            self.view().classified_as(vkey32(*vs)) == Some(r),
    {
        let s = match State::encode(vs) {
            Ok(x) => x,
            Err(_) => unreached(),
        };
        proof {
            lemma_codes_match_key(*vs, s);
        }
        match self.cache.get_state_winningness(s) {
            Some(t) => t,
            None => unreached(),
        }
    }
}

/// A move-selection policy: picks the mover's next move, `None` exactly on
/// a finished game.
pub trait Strategy {
    /// What the policy needs to know of a position before it can choose.
    spec fn ready(&self, state: &VerboseState) -> bool;

    fn get_next_move(&self, state: &VerboseState) -> (r: Option<Move>)
        requires
            state.inv(),
            self.ready(state),
        ensures
            r is Some <==> !state.is_terminal(),
            r is Some ==> move_matches(*state, r.unwrap()),
    ;
}

/// The random policy: a uniformly random legal move.
pub struct Random;

impl Strategy for Random {
    open spec fn ready(&self, state: &VerboseState) -> bool {
        true
    }

    fn get_next_move(&self, state: &VerboseState) -> (r: Option<Move>) {
        let moves = state.possible_moves();
        if moves.len() == 0 {
            None
        } else {
            let i = crate::chance::choose_index(moves.len());
            Some(moves[i])
        }
    }
}

impl<'a> Optimal<'a> {
    /// Whether every position one move away has a recorded outcome, as the
    /// solver guarantees after running from a start that reaches this one.
    pub open spec fn covers(&self, state: VerboseState) -> bool {
        forall|t: VerboseState|
            #[trigger] step_rel(state, t) ==> self.view().classified_as(vkey32(t)) is Some
    }

    /// The optimal choice: among the legal moves, prefer one leading to a
    /// position won by the mover, then one leading to a draw, and only then
    /// one handing the win to the other side; ties are broken at random.
    #[verifier::rlimit(100)]
    pub fn best_move(&self, state: &VerboseState) -> (r: Option<Move>)
        requires
            state.inv(),
            self.covers(*state),
        ensures
            r is Some <==> !state.is_terminal(),
            r is Some ==> move_matches(*state, r.unwrap()),
            (r is Some && exists|t: VerboseState|
                #[trigger] step_rel(*state, t) && self.view().classified_as(vkey32(t)) == Some(
                    Some(state.turn),
                )) ==> self.view().classified_as(vkey32(r.unwrap().state)) == Some(
                Some(state.turn),
            ),
            (r is Some && !(exists|t: VerboseState|
                #[trigger] step_rel(*state, t) && self.view().classified_as(vkey32(t)) == Some(
                    Some(state.turn),
                )) && (exists|t: VerboseState|
                #[trigger] step_rel(*state, t) && self.view().classified_as(vkey32(t)) == Some(
                    None::<Turn>,
                ))) ==> self.view().classified_as(vkey32(r.unwrap().state)) == Some(None::<Turn>),
    {
        let moves = state.possible_moves();
        let ghost ms = moves@;
        if moves.len() == 0 {
            return None;
        }
        proof {
            // Every position one move away is the target of one of the
            // listed moves.
            assert forall|t: VerboseState| #[trigger] step_rel(*state, t) implies exists|jj: int|
                0 <= jj < ms.len() && (#[trigger] ms[jj]).state == t by {
                if exists|i: int| put_single_rel(*state, t, i) {
                    let i = choose|i: int| put_single_rel(*state, t, i);
                    let k = choose|k: int|
                        0 <= k < ms.len() && (#[trigger] ms[k]).desc == MoveDescription::PutSingle(
                            i as usize,
                        );
                    assert(put_single_rel(*state, ms[k].state, i));
                    lemma_put_single_functional(*state, i, t, ms[k].state);
                } else if exists|i: int| put_all_rel(*state, t, i) {
                    let i = choose|i: int| put_all_rel(*state, t, i);
                    let k = choose|k: int|
                        0 <= k < ms.len() && (#[trigger] ms[k]).desc == MoveDescription::PutAll(
                            i as usize,
                        );
                    assert(put_all_rel(*state, ms[k].state, i));
                    lemma_put_all_functional(*state, i, t, ms[k].state);
                } else {
                    let k = choose|k: int|
                        0 <= k < ms.len() && (#[trigger] ms[k]).desc == MoveDescription::Take;
                    assert(take_rel(*state, ms[k].state));
                    lemma_take_functional(*state, t, ms[k].state);
                }
            }
        }
        let mut win: Vec<Move> = Vec::new();
        let mut draw: Vec<Move> = Vec::new();
        let mut lose: Vec<Move> = Vec::new();
        let mut i: usize = 0;
        while i < moves.len()
            invariant
                state.inv(),
                self.covers(*state),
                ms == moves@,
                i <= ms.len(),
                forall|jj: int| 0 <= jj < ms.len() ==> move_matches(*state, #[trigger] ms[jj]),
                win@.len() + draw@.len() + lose@.len() == i,
                forall|k: int|
                    0 <= k < win@.len() ==> move_matches(*state, #[trigger] win@[k]) && step_rel(
                        *state,
                        win@[k].state,
                    ) && self.view().classified_as(vkey32(win@[k].state)) == Some(
                        Some(state.turn),
                    ),
                forall|k: int|
                    0 <= k < draw@.len() ==> move_matches(*state, #[trigger] draw@[k]) && step_rel(
                        *state,
                        draw@[k].state,
                    ) && self.view().classified_as(vkey32(draw@[k].state)) == Some(
                        None::<Turn>,
                    ),
                forall|k: int| 0 <= k < lose@.len() ==> move_matches(*state, #[trigger] lose@[k]),
                forall|t: VerboseState|
                    #[trigger] step_rel(*state, t) && self.view().classified_as(vkey32(t)) == Some(
                        Some(state.turn),
                    ) ==> (exists|k: int| 0 <= k < win@.len() && (#[trigger] win@[k]).state == t)
                        || (exists|jj: int| i <= jj < ms.len() && (#[trigger] ms[jj]).state == t),
                forall|t: VerboseState|
                    #[trigger] step_rel(*state, t) && self.view().classified_as(vkey32(t)) == Some(
                        None::<Turn>,
                    ) ==> (exists|k: int| 0 <= k < draw@.len() && (#[trigger] draw@[k]).state == t)
                        || (exists|jj: int| i <= jj < ms.len() && (#[trigger] ms[jj]).state == t),
            decreases ms.len() - i,
        {
            let m = moves[i];
            let ghost t_vs = m.state;
            proof {
                match m.desc {
                    MoveDescription::PutSingle(ii) => {
                        assert(put_single_rel(*state, t_vs, ii as int));
                    },
                    MoveDescription::PutAll(ii) => {
                        assert(put_all_rel(*state, t_vs, ii as int));
                    },
                    MoveDescription::Take => {
                        assert(take_rel(*state, t_vs));
                    },
                }
                assert(step_rel(*state, t_vs));
                lemma_step_preserves_inv(*state, t_vs);
            }
            let next_st = match State::encode(&m.state) {
                Ok(x) => x,
                Err(_) => unreached(),
            };
            proof {
                lemma_codes_match_key(t_vs, next_st);
            }
            let ghost win_old = win@;
            let ghost draw_old = draw@;
            match self.cache.get_state_winningness(next_st) {
                Some(Some(t)) => {
                    if t == state.turn {
                        win.push(m);
                    } else {
                        lose.push(m);
                    }
                },
                Some(None) => {
                    draw.push(m);
                },
                None => {
                    proof {
                        assert(self.view().classified_as(vkey32(t_vs)) is Some);
                        assert(false);
                    }
                },
            }
            proof {
                assert forall|t: VerboseState|
                    #[trigger] step_rel(*state, t) && self.view().classified_as(vkey32(t)) == Some(
                        Some(state.turn),
                    ) implies (exists|k: int|
                    0 <= k < win@.len() && (#[trigger] win@[k]).state == t) || (exists|jj: int|
                    i + 1 <= jj < ms.len() && (#[trigger] ms[jj]).state == t) by {
                    if exists|k: int| 0 <= k < win_old.len() && (#[trigger] win_old[k]).state == t {
                        let k = choose|k: int|
                            0 <= k < win_old.len() && (#[trigger] win_old[k]).state == t;
                        assert(win@[k].state == t);
                    } else {
                        let jj = choose|jj: int| i <= jj < ms.len() && (#[trigger] ms[jj]).state == t;
                        if jj == i {
                            assert(vkey32(t) == vkey32(t_vs));
                            assert(win@[win@.len() - 1].state == t);
                        }
                    }
                }
                assert forall|t: VerboseState|
                    #[trigger] step_rel(*state, t) && self.view().classified_as(vkey32(t)) == Some(
                        None::<Turn>,
                    ) implies (exists|k: int|
                    0 <= k < draw@.len() && (#[trigger] draw@[k]).state == t) || (exists|jj: int|
                    i + 1 <= jj < ms.len() && (#[trigger] ms[jj]).state == t) by {
                    if exists|k: int| 0 <= k < draw_old.len() && (#[trigger] draw_old[k]).state
                        == t {
                        let k = choose|k: int|
                            0 <= k < draw_old.len() && (#[trigger] draw_old[k]).state == t;
                        assert(draw@[k].state == t);
                    } else {
                        let jj = choose|jj: int| i <= jj < ms.len() && (#[trigger] ms[jj]).state == t;
                        if jj == i {
                            assert(draw@[draw@.len() - 1].state == t);
                        }
                    }
                }
            }
            i = i + 1;
        }
        let r = if win.len() > 0 {
            let k = crate::chance::choose_index(win.len());
            proof {
                assert(step_rel(*state, win@[k as int].state));
            }
            Some(win[k])
        } else if draw.len() > 0 {
            let k = crate::chance::choose_index(draw.len());
            proof {
                assert(step_rel(*state, draw@[k as int].state));
            }
            Some(draw[k])
        } else {
            proof {
                assert(lose@.len() == ms.len());
            }
            let k = crate::chance::choose_index(lose.len());
            Some(lose[k])
        };
        r
    }
}

impl<'a> Strategy for Optimal<'a> {
    open spec fn ready(&self, state: &VerboseState) -> bool {
        self.covers(*state)
    }

    fn get_next_move(&self, state: &VerboseState) -> (r: Option<Move>) {
        self.best_move(state)
    }
}

} // verus!
