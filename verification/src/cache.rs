use crate::codec::State;
use crate::state::Turn;
use std::collections::BTreeSet;
use vstd::prelude::*;
use vstd::std_specs::cmp::OrdSpec;
use vstd::std_specs::iter::IteratorSpec;

verus! {

broadcast use vstd::std_specs::btree::group_btree_axioms, vstd::laws_cmp::group_laws_cmp;

/// A persisted classification of positions: for each outcome — the player
/// wins, the opponent wins, or the game is a draw — the set of compact keys
/// of the positions given that outcome. A draw is written `None`, a win
/// `Some(side)`, as the strategy's callers expect.
pub struct OptimalCache {
    win_player: BTreeSet<u32>,
    win_opponent: BTreeSet<u32>,
    draw: BTreeSet<u32>,
}

/// Disjoint finite sets add their sizes under union.
pub proof fn lemma_len_disjoint_union(s1: Set<u32>, s2: Set<u32>)
    requires
        s1.finite(),
        s2.finite(),
        s1.disjoint(s2),
    ensures
        (s1 + s2).len() == s1.len() + s2.len(),
        (s1 + s2).finite(),
    decreases s1.len(),
{
    if s1.is_empty() {
        assert(s1 + s2 =~= s2);
    } else {
        let a = s1.choose();
        assert((s1 + s2).remove(a) =~= s1.remove(a) + s2);
        lemma_len_disjoint_union(s1.remove(a), s2);
        assert((s1 + s2).contains(a));
    }
}

/// No set of 32-bit keys can hold more than two to the thirty-second values.
pub proof fn lemma_u32_set_len(s: Set<u32>)
    ensures
        s.finite(),
        s.len() <= 0x1_0000_0000,
{
    <u32 as vstd::set_lib::FiniteRange>::range_properties(0u32, u32::MAX);
    assert(Set::<u32>::full() =~= Set::<u32>::range(0u32, u32::MAX).insert(u32::MAX));
    assert(!Set::<u32>::range(0u32, u32::MAX).contains(u32::MAX));
    vstd::set_lib::lemma_len_subset(
        s,
        Set::<u32>::range(0u32, u32::MAX).insert(u32::MAX),
    );
}

impl OptimalCache {
    /// The keys stored under the given outcome.
    pub closed spec fn bucket(self, o: Option<Turn>) -> Set<u32> {
        match o {
            Some(Turn::Player) => self.win_player@,
            Some(Turn::Opponent) => self.win_opponent@,
            None => self.draw@,
        }
    }

    /// Every key the cache classifies, whatever the outcome.
    pub open spec fn keys(self) -> Set<u32> {
        self.bucket(Some(Turn::Player)) + self.bucket(Some(Turn::Opponent)) + self.bucket(None)
    }

    /// A key appears under at most one outcome.
    pub open spec fn inv(self) -> bool {
        &&& self.bucket(Some(Turn::Player)).disjoint(self.bucket(Some(Turn::Opponent)))
        &&& self.bucket(Some(Turn::Player)).disjoint(self.bucket(None))
        &&& self.bucket(Some(Turn::Opponent)).disjoint(self.bucket(None))
    }

    /// The outcome recorded for a key, if any.
    pub open spec fn classified_as(self, k: u32) -> Option<Option<Turn>> {
        if self.bucket(Some(Turn::Player)).contains(k) {
            Some(Some(Turn::Player))
        } else if self.bucket(Some(Turn::Opponent)).contains(k) {
            Some(Some(Turn::Opponent))
        } else if self.bucket(None).contains(k) {
            Some(None)
        } else {
            None
        }
    }

    /// An empty cache: no position is classified yet.
    pub fn new() -> (r: Self)
        ensures
            r.inv(),
            forall|o: Option<Turn>| #[trigger] r.bucket(o) == Set::<u32>::empty(),
            forall|k: u32| #[trigger] r.classified_as(k) is None,
            r.keys() == Set::<u32>::empty(),
    {
        let r = OptimalCache {
            win_player: BTreeSet::new(),
            win_opponent: BTreeSet::new(),
            draw: BTreeSet::new(),
        };
        proof {
            assert forall|o: Option<Turn>| #[trigger] r.bucket(o) == Set::<u32>::empty() by {
                match o {
                    Some(Turn::Player) => assert(r.bucket(o) == Set::<u32>::empty()),
                    Some(Turn::Opponent) => assert(r.bucket(o) == Set::<u32>::empty()),
                    None => assert(r.bucket(o) == Set::<u32>::empty()),
                }
            }
            assert(r.keys() =~= Set::<u32>::empty());
        }
        r
    }

    /// The outcome recorded for a packed key, if any.
    pub fn classify_key(&self, k: u32) -> (r: Option<Option<Turn>>)
        ensures
            r == self.classified_as(k),
    {
        if self.win_player.contains(&k) {
            Some(Some(Turn::Player))
        } else if self.win_opponent.contains(&k) {
            Some(Some(Turn::Opponent))
        } else if self.draw.contains(&k) {
            Some(None)
        } else {
            None
        }
    }

    /// The outcome recorded for a position's key: `None` when the cache does
    /// not know the position, `Some(None)` for a draw, `Some(Some(side))`
    /// for a forced win of that side.
    pub fn get_state_winningness(&self, state: State) -> (r: Option<Option<Turn>>)
        ensures
            r == self.classified_as(state.key32()),
    {
        self.classify_key(state.key())
    }

    /// Records an outcome for a key not classified yet; nothing already
    /// recorded changes.
    pub fn insert(&mut self, o: Option<Turn>, k: u32)
        requires
            old(self).inv(),
            old(self).classified_as(k) is None,
        ensures
            final(self).inv(),
            final(self).bucket(o) == old(self).bucket(o).insert(k),
            forall|o2: Option<Turn>| o2 != o ==> #[trigger] final(self).bucket(o2) == old(
                self,
            ).bucket(o2),
            final(self).keys() == old(self).keys().insert(k),
            final(self).classified_as(k) == Some(o),
            forall|k2: u32| k2 != k ==> #[trigger] final(self).classified_as(k2) == old(
                self,
            ).classified_as(k2),
    {
        match o {
            Some(Turn::Player) => {
                self.win_player.insert(k);
            },
            Some(Turn::Opponent) => {
                self.win_opponent.insert(k);
            },
            None => {
                self.draw.insert(k);
            },
        }
        proof {
            assert(final(self).keys() =~= old(self).keys().insert(k));
            assert forall|o2: Option<Turn>| o2 != o implies #[trigger] final(self).bucket(o2)
                == old(self).bucket(o2) by {
                match o2 {
                    Some(Turn::Player) => {},
                    Some(Turn::Opponent) => {},
                    None => {},
                }
            }
        }
    }

    /// How many positions are classified overall.
    pub fn len(&self) -> (r: usize)
        requires
            self.inv(),
            self.keys().len() <= usize::MAX,
        ensures
            r == self.keys().len(),
    {
        proof {
            lemma_u32_set_len(self.bucket(Some(Turn::Player)));
            lemma_u32_set_len(self.bucket(Some(Turn::Opponent)));
            lemma_u32_set_len(self.bucket(None));
            lemma_len_disjoint_union(
                self.bucket(Some(Turn::Player)),
                self.bucket(Some(Turn::Opponent)),
            );
            assert((self.bucket(Some(Turn::Player)) + self.bucket(Some(Turn::Opponent))).disjoint(
                self.bucket(None),
            ));
            lemma_len_disjoint_union(
                self.bucket(Some(Turn::Player)) + self.bucket(Some(Turn::Opponent)),
                self.bucket(None),
            );
        }
        self.win_player.len() + self.win_opponent.len() + self.draw.len()
    }
}

/// Loading a persisted cache failed: the bytes do not follow the format, or
/// a bucket is too large to write its count as 32 bits.
#[derive(Clone, Copy, Debug, PartialEq, Eq, Structural)]
pub enum CacheError {
    Malformed,
    TooLarge,
}

pub open spec fn strictly_increasing(q: Seq<u32>) -> bool {
    forall|i: int, j: int| 0 <= i < j < q.len() ==> q[i] < q[j]
}

/// The one increasing enumeration of a set of keys: the order in which they
/// are persisted.
pub open spec fn sorted_keys_of(s: Set<u32>) -> Seq<u32> {
    choose|q: Seq<u32>| strictly_increasing(q) && q.to_set() == s
}

/// A key iterator that runs in increasing order yields strictly increasing
/// values.
proof fn lemma_increasing_key_refs(q: Seq<&u32>)
    requires
        vstd::std_specs::btree::increasing_seq(q),
        vstd::laws_cmp::obeys_cmp::<&u32>(),
    ensures
        forall|i: int, j: int| 0 <= i < j < q.len() ==> *(#[trigger] q[i]) < *(#[trigger] q[j]),
{
    vstd::std_specs::btree::axiom_increasing_seq_meaning::<&u32>(q);
    assert forall|i: int, j: int| 0 <= i < j < q.len() implies *(#[trigger] q[i]) < *(
    #[trigger] q[j]) by {
        assert(vstd::std_specs::cmp::OrdSpec::cmp_spec(&q[i], &q[j]) is Less);
    }
}

/// A set of keys has at most one increasing enumeration.
pub proof fn lemma_sorted_unique(q1: Seq<u32>, q2: Seq<u32>)
    requires
        strictly_increasing(q1),
        strictly_increasing(q2),
        q1.to_set() == q2.to_set(),
    ensures
        q1 == q2,
    decreases q1.len(),
{
    if q1.len() == 0 {
        if q2.len() > 0 {
            assert(q2.to_set().contains(q2[0]));
            assert(q1.contains(q2[0]));
            assert(false);
        }
        assert(q1 =~= q2);
    } else {
        if q2.len() == 0 {
            assert(q1.to_set().contains(q1[0]));
            assert(q2.contains(q1[0]));
            assert(false);
        }
        // Both heads are the least element of the common set.
        assert(q2.to_set().contains(q1[0]));
        let j1 = choose|j: int| 0 <= j < q2.len() && q2[j] == q1[0];
        assert(q2[0] <= q2[j1]);
        assert(q1.to_set().contains(q2[0]));
        let j2 = choose|j: int| 0 <= j < q1.len() && q1[j] == q2[0];
        assert(q1[0] <= q1[j2]);
        assert(q1[0] == q2[0]);
        let t1 = q1.subrange(1, q1.len() as int);
        let t2 = q2.subrange(1, q2.len() as int);
        assert(strictly_increasing(t1));
        assert(strictly_increasing(t2));
        assert(t1.to_set() =~= q1.to_set().remove(q1[0])) by {
            assert forall|x: u32| #[trigger] t1.to_set().contains(x) implies q1.to_set().remove(
                q1[0],
            ).contains(x) by {
                let i = choose|i: int| 0 <= i < t1.len() && t1[i] == x;
                assert(q1[i + 1] == x);
                assert(q1[0] < q1[i + 1]);
            }
            assert forall|x: u32| #[trigger]
                q1.to_set().remove(q1[0]).contains(x) implies t1.to_set().contains(x) by {
                let i = choose|i: int| 0 <= i < q1.len() && q1[i] == x;
                assert(i != 0);
                assert(t1[i - 1] == x);
            }
        }
        assert(t2.to_set() =~= q2.to_set().remove(q2[0])) by {
            assert forall|x: u32| #[trigger] t2.to_set().contains(x) implies q2.to_set().remove(
                q2[0],
            ).contains(x) by {
                let i = choose|i: int| 0 <= i < t2.len() && t2[i] == x;
                assert(q2[i + 1] == x);
                assert(q2[0] < q2[i + 1]);
            }
            assert forall|x: u32| #[trigger]
                q2.to_set().remove(q2[0]).contains(x) implies t2.to_set().contains(x) by {
                let i = choose|i: int| 0 <= i < q2.len() && q2[i] == x;
                assert(i != 0);
                assert(t2[i - 1] == x);
            }
        }
        lemma_sorted_unique(t1, t2);
        assert(q1.len() == q2.len());
        assert forall|i: int| 0 <= i < q1.len() implies q1[i] == q2[i] by {
            if i > 0 {
                assert(q1[i] == t1[i - 1]);
                assert(q2[i] == t2[i - 1]);
            }
        }
        assert(q1 =~= q2);
    }
}

/// The four little-endian bytes of a 32-bit value.
pub open spec fn le32_bytes(v: u32) -> Seq<u8> {
    seq![
        (v as int % 256) as u8,
        ((v as int / 256) % 256) as u8,
        ((v as int / 65536) % 256) as u8,
        ((v as int / 16777216) % 256) as u8,
    ]
}

/// The little-endian bytes of the first `n` keys of `q`, concatenated.
pub open spec fn keys_bytes(q: Seq<u32>, n: int) -> Seq<u8>
    decreases n,
{
    if n <= 0 {
        Seq::empty()
    } else {
        keys_bytes(q, n - 1) + le32_bytes(q[n - 1])
    }
}

/// One persisted bucket: a 32-bit count, then that many keys in increasing
/// order.
pub open spec fn bucket_bytes(s: Set<u32>) -> Seq<u8> {
    le32_bytes(s.len() as u32) + keys_bytes(sorted_keys_of(s), s.len() as int)
}

/// The persisted form of a whole cache: the player's wins, the opponent's
/// wins, then the draws.
pub open spec fn spec_cache_bytes(c: OptimalCache) -> Seq<u8> {
    bucket_bytes(c.bucket(Some(Turn::Player))) + bucket_bytes(c.bucket(Some(Turn::Opponent)))
        + bucket_bytes(c.bucket(None))
}

/// The 32-bit value stored little-endian at byte offset `p`.
pub open spec fn le32_at(b: Seq<u8>, p: int) -> int {
    b[p] + 256 * b[p + 1] + 65536 * b[p + 2] + 16777216 * b[p + 3]
}

/// Whether a byte string is a well-formed persisted cache: three buckets,
/// each a count followed by that many keys, with nothing left over.
pub open spec fn cache_format_ok(b: Seq<u8>) -> bool {
    let n1 = le32_at(b, 0);
    let off2 = 4 + 4 * n1;
    let n2 = le32_at(b, off2);
    let off3 = off2 + 4 + 4 * n2;
    let n3 = le32_at(b, off3);
    &&& b.len() >= 4
    &&& b.len() >= off2 + 4
    &&& b.len() >= off3 + 4
    &&& b.len() == off3 + 4 + 4 * n3
}

/// The keys listed in the bucket whose first key sits at byte offset `off`.
pub open spec fn bucket_keys(b: Seq<u8>, off: int, n: int) -> Set<u32> {
    Seq::new(n as nat, |j: int| le32_at(b, off + 4 * j) as u32).to_set()
}

fn push_le32(out: &mut Vec<u8>, v: u32)
    ensures
        final(out)@ == old(out)@ + le32_bytes(v),
{
    out.push((v % 256) as u8);
    out.push(((v / 256) % 256) as u8);
    out.push(((v / 65536) % 256) as u8);
    out.push(((v / 16777216) % 256) as u8);
    proof {
        assert(final(out)@ =~= old(out)@ + le32_bytes(v));
    }
}

fn read_le32(bytes: &Vec<u8>, off: usize) -> (r: u32)
    requires
        off + 4 <= bytes@.len(),
    ensures
        r as int == le32_at(bytes@, off as int),
{
    let l = bytes.len();
    let b0 = bytes[off] as u32;
    let b1 = bytes[off + 1] as u32;
    let b2 = bytes[off + 2] as u32;
    let b3 = bytes[off + 3] as u32;
    proof {
        assert(b0 <= 255 && b1 <= 255 && b2 <= 255 && b3 <= 255);
    }
    b0 + 256 * b1 + 65536 * b2 + 16777216 * b3
}

fn bucket_to_bytes(s: &BTreeSet<u32>, out: &mut Vec<u8>)
    requires
        s@.len() <= u32::MAX,
    ensures
        final(out)@ == old(out)@ + bucket_bytes(s@),
{
    let ghost base = out@;
    let n = s.len();
    push_le32(out, n as u32);
    let ghost rem = vstd::std_specs::btree::spec_btree_keys_iter(s).remaining();
    let ghost w = rem.unref();
    proof {
        // The iteration order is the one increasing enumeration of the set.
        vstd::std_specs::btree::axiom_spec_btree_keys_iter(s);
        assert(w.to_set() == s@ && w.no_duplicates() && w.len() == s@.len());
        assert(vstd::std_specs::btree::increasing_seq(rem));
        assert(vstd::laws_cmp::obeys_cmp::<&u32>());
        lemma_increasing_key_refs(rem);
        assert(strictly_increasing(w)) by {
            assert forall|i: int, j: int| 0 <= i < j < w.len() implies w[i] < w[j] by {
                assert(rem.len() == w.len());
                assert(*rem[i] < *rem[j]);
                assert(w[i] == *rem[i]);
                assert(w[j] == *rem[j]);
            }
        }
        lemma_sorted_unique(w, sorted_keys_of(s@));
    }
    let mut cnt: usize = 0;
    for kr in it: s.iter()
        invariant
            s@.len() <= u32::MAX,
            n == s@.len(),
            it.seq() == vstd::std_specs::btree::spec_btree_keys_iter(s).remaining(),
            it.seq().unref() == w,
            cnt == it.index(),
            cnt <= w.len(),
            out@ == base + le32_bytes(n as u32) + keys_bytes(w, cnt as int),
    {
        proof {
            assert(*kr == w[it.index()]);
        }
        push_le32(out, *kr);
        cnt = cnt + 1;
        proof {
            assert(out@ =~= base + le32_bytes(n as u32) + keys_bytes(w, cnt as int));
        }
    }
    proof {
        assert(cnt == w.len());
        assert(w.len() == s@.len());
        assert(out@ =~= base + bucket_bytes(s@));
    }
}

impl OptimalCache {
    /// Serializes the cache in its persisted form: for each outcome, in the
    /// fixed order, a little-endian 32-bit count followed by that many
    /// little-endian 32-bit keys in increasing order. Fails only when some
    /// bucket's count does not fit in 32 bits.
    pub fn to_bytes(&self) -> (r: Result<Vec<u8>, CacheError>)
        ensures
            r is Ok <==> (self.bucket(Some(Turn::Player)).len() <= u32::MAX && self.bucket(
                Some(Turn::Opponent),
            ).len() <= u32::MAX && self.bucket(None).len() <= u32::MAX),
            r is Ok ==> r.unwrap()@ == spec_cache_bytes(*self),
    {
        proof {
            lemma_u32_set_len(self.win_player@);
            lemma_u32_set_len(self.win_opponent@);
            lemma_u32_set_len(self.draw@);
        }
        if self.win_player.len() > u32::MAX as usize || self.win_opponent.len() > u32::MAX as usize
            || self.draw.len() > u32::MAX as usize {
            return Err(CacheError::TooLarge);
        }
        let mut out: Vec<u8> = Vec::new();
        bucket_to_bytes(&self.win_player, &mut out);
        bucket_to_bytes(&self.win_opponent, &mut out);
        bucket_to_bytes(&self.draw, &mut out);
        proof {
            assert(out@ =~= spec_cache_bytes(*self));
        }
        Ok(out)
    }
}

/// Extending a prefix of listed keys by one adds exactly that key.
proof fn lemma_prefix_keys_extend(b: Seq<u8>, off: int, n: int)
    requires
        n >= 0,
    ensures
        Seq::new((n + 1) as nat, |j: int| le32_at(b, off + 4 * j) as u32).to_set()
            =~= Seq::new(n as nat, |j: int| le32_at(b, off + 4 * j) as u32).to_set().insert(
            le32_at(b, off + 4 * n) as u32,
        ),
{
    let big = Seq::new((n + 1) as nat, |j: int| le32_at(b, off + 4 * j) as u32);
    let small = Seq::new(n as nat, |j: int| le32_at(b, off + 4 * j) as u32);
    let x = le32_at(b, off + 4 * n) as u32;
    assert forall|k: u32| #[trigger] big.to_set().contains(k) implies small.to_set().insert(
        x,
    ).contains(k) by {
        let j = choose|j: int| 0 <= j < big.len() && big[j] == k;
        if j < n {
            assert(small[j] == k);
        }
    }
    assert forall|k: u32| #[trigger]
        small.to_set().insert(x).contains(k) implies big.to_set().contains(k) by {
        if k == x {
            assert(big[n] == k);
        } else {
            let j = choose|j: int| 0 <= j < small.len() && small[j] == k;
            assert(big[j] == k);
        }
    }
}

impl OptimalCache {
    /// Parses a persisted cache: three buckets in the fixed order, each a
    /// little-endian 32-bit count followed by that many keys. Any shortfall
    /// or trailing bytes is rejected whole; a key listed under two outcomes
    /// keeps the first, strongest-priority one, matching how lookups read
    /// the buckets.
    pub fn from_bytes(bytes: &Vec<u8>) -> (r: Result<OptimalCache, CacheError>)
        ensures
            r is Ok <==> cache_format_ok(bytes@),
            r is Ok ==> ({
                let b = bytes@;
                let n1 = le32_at(b, 0);
                let off2 = 4 + 4 * n1;
                let n2 = le32_at(b, off2);
                let off3 = off2 + 4 + 4 * n2;
                let n3 = le32_at(b, off3);
                let s1 = bucket_keys(b, 4, n1);
                let s2 = bucket_keys(b, off2 + 4, n2);
                let s3 = bucket_keys(b, off3 + 4, n3);
                &&& r.unwrap().bucket(Some(Turn::Player)) == s1
                &&& r.unwrap().bucket(Some(Turn::Opponent)) == s2.difference(s1)
                &&& r.unwrap().bucket(None) == s3.difference(s1 + s2)
                &&& r.unwrap().inv()
            }),
    {
        let ghost b = bytes@;
        let len = bytes.len();
        if len < 4 {
            return Err(CacheError::Malformed);
        }
        let n1 = read_le32(bytes, 0) as usize;
        let ghost gn1 = le32_at(b, 0);
        if n1 > (len - 4) / 4 {
            proof {
                assert(b.len() < 4 + 4 * gn1 + 4);
            }
            return Err(CacheError::Malformed);
        }
        let mut wp: BTreeSet<u32> = BTreeSet::new();
        let mut off: usize = 4;
        let mut i: usize = 0;
        while i < n1
            invariant
                b == bytes@,
                len == b.len(),
                n1 as int == gn1,
                gn1 == le32_at(b, 0),
                i <= n1,
                off as int == 4 + 4 * i,
                4 + 4 * n1 <= len,
                wp@ =~= Seq::new(i as nat, |j: int| le32_at(b, 4 + 4 * j) as u32).to_set(),
            decreases n1 - i,
        {
            let k = read_le32(bytes, off);
            wp.insert(k);
            proof {
                lemma_prefix_keys_extend(b, 4, i as int);
            }
            off = off + 4;
            i = i + 1;
        }
        proof {
            assert(wp@ =~= bucket_keys(b, 4, gn1));
        }

        if len - off < 4 {
            proof {
                assert(b.len() < 4 + 4 * gn1 + 4);
            }
            return Err(CacheError::Malformed);
        }
        let n2 = read_le32(bytes, off) as usize;
        let ghost goff2 = 4 + 4 * gn1;
        let ghost gn2 = le32_at(b, goff2);
        off = off + 4;
        if n2 > (len - off) / 4 {
            proof {
                assert(b.len() < goff2 + 4 + 4 * gn2 + 4);
            }
            return Err(CacheError::Malformed);
        }
        let mut wo: BTreeSet<u32> = BTreeSet::new();
        let mut i2: usize = 0;
        while i2 < n2
            invariant
                b == bytes@,
                len == b.len(),
                n2 as int == gn2,
                i2 <= n2,
                off as int == goff2 + 4 + 4 * i2,
                goff2 + 4 + 4 * n2 <= len,
                goff2 == 4 + 4 * gn1,
                wp@ == bucket_keys(b, 4, gn1),
                wo@ =~= Seq::new(i2 as nat, |j: int| le32_at(b, goff2 + 4 + 4 * j) as u32)
                    .to_set().difference(wp@),
            decreases n2 - i2,
        {
            let k = read_le32(bytes, off);
            let ghost pre = wo@;
            if !wp.contains(&k) {
                wo.insert(k);
            }
            proof {
                lemma_prefix_keys_extend(b, goff2 + 4, i2 as int);
                assert(wo@ =~= Seq::new(
                    (i2 + 1) as nat,
                    |j: int| le32_at(b, goff2 + 4 + 4 * j) as u32,
                ).to_set().difference(wp@));
            }
            off = off + 4;
            i2 = i2 + 1;
        }

        if len - off < 4 {
            proof {
                assert(b.len() < goff2 + 4 + 4 * gn2 + 4);
            }
            return Err(CacheError::Malformed);
        }
        let n3 = read_le32(bytes, off) as usize;
        let ghost goff3 = goff2 + 4 + 4 * gn2;
        let ghost gn3 = le32_at(b, goff3);
        off = off + 4;
        if n3 > (len - off) / 4 {
            proof {
                assert(b.len() < goff3 + 4 + 4 * gn3);
            }
            return Err(CacheError::Malformed);
        }
        let mut draw: BTreeSet<u32> = BTreeSet::new();
        let mut i3: usize = 0;
        while i3 < n3
            invariant
                b == bytes@,
                len == b.len(),
                n3 as int == gn3,
                i3 <= n3,
                off as int == goff3 + 4 + 4 * i3,
                goff3 + 4 + 4 * n3 <= len,
                goff3 == goff2 + 4 + 4 * gn2,
                goff2 == 4 + 4 * gn1,
                wp@ == bucket_keys(b, 4, gn1),
                wo@ == bucket_keys(b, goff2 + 4, gn2).difference(wp@),
                draw@ =~= Seq::new(i3 as nat, |j: int| le32_at(b, goff3 + 4 + 4 * j) as u32)
                    .to_set().difference(wp@ + wo@),
            decreases n3 - i3,
        {
            let k = read_le32(bytes, off);
            if !wp.contains(&k) && !wo.contains(&k) {
                draw.insert(k);
            }
            proof {
                lemma_prefix_keys_extend(b, goff3 + 4, i3 as int);
                assert(draw@ =~= Seq::new(
                    (i3 + 1) as nat,
                    |j: int| le32_at(b, goff3 + 4 + 4 * j) as u32,
                ).to_set().difference(wp@ + wo@));
            }
            off = off + 4;
            i3 = i3 + 1;
        }

        if off != len {
            proof {
                assert(b.len() != goff3 + 4 + 4 * gn3);
            }
            return Err(CacheError::Malformed);
        }

        let c = OptimalCache { win_player: wp, win_opponent: wo, draw };
        proof {
            assert(cache_format_ok(b));
            let s1 = bucket_keys(b, 4, gn1);
            let s2 = bucket_keys(b, goff2 + 4, gn2);
            let s3 = bucket_keys(b, goff3 + 4, gn3);
            assert(c.bucket(Some(Turn::Player)) == s1);
            assert(c.bucket(Some(Turn::Opponent)) =~= s2.difference(s1));
            assert(c.bucket(None) =~= s3.difference(s1 + s2));
            assert(c.inv());
        }
        Ok(c)
    }
}

} // verus!
