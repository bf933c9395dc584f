//! Edge-usage statistics gathered during search, used to adapt the graph to
//! the query workload.
use std::collections::HashMap;
use std::collections::VecDeque;
use vstd::prelude::*;
use vstd::std_specs::hash::spec_hash_map_iter;
use vstd::std_specs::iter::IteratorSpec;

verus! {

broadcast use vstd::std_specs::hash::group_hash_axioms;

/// Number of recent entry points remembered.
pub const RECENT_ENTRY_POINTS: usize = 1000;

/// Number of hot entry points a refinement pass reports.
pub const HOT_ENTRY_POINTS: usize = 10;

/// Number of occurrences of `x` in `s`.
pub open spec fn count_in(s: Seq<usize>, x: usize) -> nat
    decreases s.len(),
{
    if s.len() == 0 {
        0
    } else {
        count_in(s.drop_last(), x) + if s.last() == x {
            1nat
        } else {
            0nat
        }
    }
}

/// The first components of `s`.
pub open spec fn firsts(s: Seq<(usize, usize)>) -> Seq<usize> {
    s.map_values(|p: (usize, usize)| p.0)
}

proof fn lemma_count_in_bound(s: Seq<usize>, x: usize)
    ensures
        count_in(s, x) <= s.len(),
        count_in(s, x) > 0 <==> s.contains(x),
    decreases s.len(),
{
    if s.len() > 0 {
        lemma_count_in_bound(s.drop_last(), x);
        if s.drop_last().contains(x) {
            let j = choose|j: int| 0 <= j < s.len() - 1 && s.drop_last()[j] == x;
            assert(s[j] == x);
        }
        if s.contains(x) && s.last() != x {
            let j = choose|j: int| 0 <= j < s.len() && s[j] == x;
            assert(s.drop_last()[j] == x);
        }
    }
}

/// `(a, b)` and `(c, d)` name the same undirected pair.
pub open spec fn same_pair(a: usize, b: usize, c: usize, d: usize) -> bool {
    let (lo1, hi1) = if a <= b {
        (a, b)
    } else {
        (b, a)
    };
    let (lo2, hi2) = if c <= d {
        (c, d)
    } else {
        (d, c)
    };
    lo1 == lo2 && hi1 == hi2
}

/// Key under which the undirected pair `{a, b}` is counted: the smaller id
/// in the high 64 bits, the larger in the low 64 bits.
pub open spec fn pair_key(a: usize, b: usize) -> u128 {
    let lo: int = if a <= b {
        a as int
    } else {
        b as int
    };
    let hi: int = if a <= b {
        b as int
    } else {
        a as int
    };
    (lo * 0x1_0000_0000_0000_0000 + hi) as u128
}

/// The count stored under `k`, zero when absent.
pub open spec fn count_at(m: Map<u128, u64>, k: u128) -> nat {
    if m.contains_key(k) {
        m[k] as nat
    } else {
        0
    }
}

proof fn lemma_pair_key_same(a: usize, b: usize, c: usize, d: usize)
    ensures
        pair_key(a, b) == pair_key(c, d) <==> same_pair(a, b, c, d),
{
    let c64: int = 0x1_0000_0000_0000_0000;
    assert(usize::MAX < c64);
}

/// The smaller node of the pair stored under `k`.
pub open spec fn key_lo(k: u128) -> usize {
    (k >> 64u128) as usize
}

/// The larger node of the pair stored under `k`.
pub open spec fn key_hi(k: u128) -> usize {
    (k & 0xFFFF_FFFF_FFFF_FFFFu128) as usize
}

proof fn lemma_pair_key_decodes(a: usize, b: usize)
    ensures
        key_lo(pair_key(a, b)) == if a <= b {
            a
        } else {
            b
        },
        key_hi(pair_key(a, b)) == if a <= b {
            b
        } else {
            a
        },
{
    let lo: u128 = if a <= b {
        a as u128
    } else {
        b as u128
    };
    let hi: u128 = if a <= b {
        b as u128
    } else {
        a as u128
    };
    assert(lo < 0x1_0000_0000_0000_0000u128 && hi < 0x1_0000_0000_0000_0000u128);
    let k: u128 = (lo * 0x1_0000_0000_0000_0000u128 + hi) as u128;
    assert((k >> 64u128) == lo && (k & 0xFFFF_FFFF_FFFF_FFFFu128) == hi) by (bit_vector)
        requires
            lo < 0x1_0000_0000_0000_0000u128,
            hi < 0x1_0000_0000_0000_0000u128,
            k == lo * 0x1_0000_0000_0000_0000u128 + hi,
    ;
    assert(pair_key(a, b) == k);
}

/// Every key of `m` names a pair, and every stored count is positive.
pub open spec fn keys_valid(m: Map<u128, u64>) -> bool {
    forall|k: u128| #[trigger]
        m.contains_key(k) ==> k == pair_key(key_lo(k), key_hi(k)) && key_lo(k) <= key_hi(k) && m[k] > 0
}

proof fn lemma_pair_key_valid(a: usize, b: usize)
    ensures
        pair_key(a, b) == pair_key(key_lo(pair_key(a, b)), key_hi(pair_key(a, b))),
        key_lo(pair_key(a, b)) <= key_hi(pair_key(a, b)),
{
    lemma_pair_key_decodes(a, b);
}

/// Number of positions `j` in `i + 1 .. k` for which `{s[i], s[j]}` is the
/// pair `{a, b}`.
pub open spec fn row_hits(s: Seq<usize>, i: int, k: int, a: usize, b: usize) -> nat
    decreases k - i,
{
    if k <= i + 1 {
        0
    } else {
        row_hits(s, i, k - 1, a, b) + if same_pair(s[i], s[k - 1], a, b) {
            1nat
        } else {
            0nat
        }
    }
}

/// Number of index pairs `i < j` with `i < m` for which `{s[i], s[j]}` is
/// the pair `{a, b}`: how often one co-visit record counts that pair.
pub open spec fn covisit_hits(s: Seq<usize>, m: int, a: usize, b: usize) -> nat
    decreases m,
{
    if m <= 0 {
        0
    } else {
        covisit_hits(s, m - 1, a, b) + row_hits(s, m - 1, s.len() as int, a, b)
    }
}

proof fn lemma_row_hits_mono(s: Seq<usize>, i: int, k1: int, k2: int, a: usize, b: usize)
    requires
        k1 <= k2,
    ensures
        row_hits(s, i, k1, a, b) <= row_hits(s, i, k2, a, b),
    decreases k2 - k1,
{
    if k1 < k2 {
        lemma_row_hits_mono(s, i, k1, k2 - 1, a, b);
    }
}

proof fn lemma_covisit_hits_mono(s: Seq<usize>, m1: int, m2: int, a: usize, b: usize)
    requires
        0 <= m1 <= m2,
    ensures
        covisit_hits(s, m1, a, b) <= covisit_hits(s, m2, a, b),
    decreases m2 - m1,
{
    if m1 < m2 {
        lemma_covisit_hits_mono(s, m1, m2 - 1, a, b);
    }
}

/// `x` occurs in `s` at some position in `lo..hi`.
spec fn occurs_between(s: Seq<usize>, lo: int, hi: int, x: usize) -> bool {
    exists|j: int| lo <= j < hi && #[trigger] s[j] == x
}

/// Position `i` holds one end of `{a, b}` and the other end comes later.
spec fn opens_pair(s: Seq<usize>, i: int, a: usize, b: usize) -> bool {
    ||| s[i] == a && occurs_between(s, i + 1, s.len() as int, b)
    ||| s[i] == b && occurs_between(s, i + 1, s.len() as int, a)
}

proof fn lemma_row_hits_distinct(s: Seq<usize>, i: int, k: int, a: usize, b: usize)
    requires
        s.no_duplicates(),
        0 <= i < s.len(),
        i < k <= s.len(),
    ensures
        row_hits(s, i, k, a, b) == if a != b && ((s[i] == a && occurs_between(s, i + 1, k, b)) || (
        s[i] == b && occurs_between(s, i + 1, k, a))) {
            1nat
        } else {
            0nat
        },
    decreases k - i,
{
    if k > i + 1 {
        lemma_row_hits_distinct(s, i, k - 1, a, b);
        let last = s[k - 1];
        assert(s[i] != last);
        assert(occurs_between(s, i + 1, k, b) <==> occurs_between(s, i + 1, k - 1, b) || last == b);
        assert(occurs_between(s, i + 1, k, a) <==> occurs_between(s, i + 1, k - 1, a) || last == a);
        if last == b && occurs_between(s, i + 1, k - 1, b) {
            let j = choose|j: int| i + 1 <= j < k - 1 && #[trigger] s[j] == b;
            assert(s[j] == s[k - 1]);
        }
        if last == a && occurs_between(s, i + 1, k - 1, a) {
            let j = choose|j: int| i + 1 <= j < k - 1 && #[trigger] s[j] == a;
            assert(s[j] == s[k - 1]);
        }
    } else {
        assert(!occurs_between(s, i + 1, k, a));
        assert(!occurs_between(s, i + 1, k, b));
    }
}

proof fn lemma_opens_pair_unique(s: Seq<usize>, i: int, i2: int, a: usize, b: usize)
    requires
        s.no_duplicates(),
        0 <= i < s.len(),
        0 <= i2 < s.len(),
        opens_pair(s, i, a, b),
        opens_pair(s, i2, a, b),
    ensures
        i == i2,
{
    if i != i2 {
        if s[i] == a && occurs_between(s, i + 1, s.len() as int, b) {
            let j = choose|j: int| i + 1 <= j < s.len() && #[trigger] s[j] == b;
            if s[i2] == a {
                assert(s[i] == s[i2]);
            } else {
                assert(s[i2] == s[j]);
                let p = choose|p: int| i2 + 1 <= p < s.len() && #[trigger] s[p] == a;
                assert(s[p] == s[i]);
            }
        } else {
            let j = choose|j: int| i + 1 <= j < s.len() && #[trigger] s[j] == a;
            if s[i2] == b {
                assert(s[i] == s[i2]);
            } else {
                assert(s[i2] == s[j]);
                let p = choose|p: int| i2 + 1 <= p < s.len() && #[trigger] s[p] == b;
                assert(s[p] == s[i]);
            }
        }
    }
}

proof fn lemma_covisit_hits_distinct(s: Seq<usize>, m: int, a: usize, b: usize)
    requires
        s.no_duplicates(),
        0 <= m <= s.len(),
    ensures
        covisit_hits(s, m, a, b) == if a != b && exists|i: int| 0 <= i < m && #[trigger] opens_pair(s, i, a, b) {
            1nat
        } else {
            0nat
        },
    decreases m,
{
    if m > 0 {
        lemma_covisit_hits_distinct(s, m - 1, a, b);
        lemma_row_hits_distinct(s, m - 1, s.len() as int, a, b);
        if a != b && opens_pair(s, m - 1, a, b) {
            if exists|i: int| 0 <= i < m - 1 && #[trigger] opens_pair(s, i, a, b) {
                let i = choose|i: int| 0 <= i < m - 1 && #[trigger] opens_pair(s, i, a, b);
                lemma_opens_pair_unique(s, i, m - 1, a, b);
            }
        }
    }
}

/// Co-visits of nodes that occur once each count every pair of distinct
/// nodes once: [`EdgeStats::record_covisit`] on such a list adds one to
/// `{a, b}` exactly when `a != b` and both are in the list.
pub proof fn lemma_covisit_counts_each_pair_once(s: Seq<usize>, a: usize, b: usize)
    requires
        s.no_duplicates(),
    ensures
        covisit_hits(s, s.len() as int, a, b) == if a != b && s.contains(a) && s.contains(b) {
            1nat
        } else {
            0nat
        },
{
    lemma_covisit_hits_distinct(s, s.len() as int, a, b);
    let n = s.len() as int;
    if a != b && s.contains(a) && s.contains(b) {
        let pa = choose|p: int| 0 <= p < n && s[p] == a;
        let pb = choose|p: int| 0 <= p < n && s[p] == b;
        if pa < pb {
            assert(occurs_between(s, pa + 1, n, b));
            assert(opens_pair(s, pa, a, b));
        } else {
            assert(pa != pb);
            assert(occurs_between(s, pb + 1, n, a));
            assert(opens_pair(s, pb, a, b));
        }
    }
    if exists|i: int| 0 <= i < n && #[trigger] opens_pair(s, i, a, b) {
        let i = choose|i: int| 0 <= i < n && #[trigger] opens_pair(s, i, a, b);
        if s[i] == a && occurs_between(s, i + 1, n, b) {
            let j = choose|j: int| i + 1 <= j < n && #[trigger] s[j] == b;
            assert(s.contains(a));
            assert(s.contains(b));
        } else {
            let j = choose|j: int| i + 1 <= j < n && #[trigger] s[j] == a;
            assert(s.contains(a));
            assert(s.contains(b));
        }
    }
}

/// Usage counters for graph edges and co-visited node pairs.
#[derive(Debug)]
pub struct EdgeStats {
    edge_traversals: HashMap<u128, u64>,
    edge_improvements: HashMap<u128, u64>,
    cooccurrence: HashMap<u128, u64>,
    total_searches: u64,
    recent_entry_points: VecDeque<usize>,
}

impl EdgeStats {
    /// Times the undirected edge `{a, b}` was traversed.
    pub closed spec fn traversals(&self, a: usize, b: usize) -> nat {
        count_at(self.edge_traversals@, pair_key(a, b))
    }

    /// Times traversing `{a, b}` improved the candidate set.
    pub closed spec fn improvements(&self, a: usize, b: usize) -> nat {
        count_at(self.edge_improvements@, pair_key(a, b))
    }

    /// Times `a` and `b` were visited in the same search.
    pub closed spec fn cooccurrences(&self, a: usize, b: usize) -> nat {
        count_at(self.cooccurrence@, pair_key(a, b))
    }

    /// Every stored key names a pair with a positive count.
    pub closed spec fn wf(&self) -> bool {
        &&& keys_valid(self.edge_traversals@)
        &&& keys_valid(self.edge_improvements@)
        &&& keys_valid(self.cooccurrence@)
        &&& self.recent_entry_points@.len() <= RECENT_ENTRY_POINTS
    }

    /// Completed searches recorded since the last clear.
    pub closed spec fn searches(&self) -> nat {
        self.total_searches as nat
    }

    /// The most recent search entry points, oldest first.
    pub closed spec fn recent(&self) -> Seq<usize> {
        self.recent_entry_points@
    }

    /// Create empty statistics.
    pub fn new() -> (res: Self)
        ensures
            forall|a: usize, b: usize| #[trigger] res.traversals(a, b) == 0,
            forall|a: usize, b: usize| #[trigger] res.improvements(a, b) == 0,
            forall|a: usize, b: usize| #[trigger] res.cooccurrences(a, b) == 0,
            res.searches() == 0,
            res.recent() == Seq::<usize>::empty(),
            res.wf(),
    {
        EdgeStats {
            edge_traversals: HashMap::new(),
            edge_improvements: HashMap::new(),
            cooccurrence: HashMap::new(),
            total_searches: 0,
            recent_entry_points: VecDeque::new(),
        }
    }

    fn key(a: usize, b: usize) -> (res: u128)
        ensures
            res == pair_key(a, b),
    {
        let (lo, hi) = if a <= b {
            (a, b)
        } else {
            (b, a)
        };
        (lo as u128) * 0x1_0000_0000_0000_0000u128 + (hi as u128)
    }

    fn count(m: &HashMap<u128, u64>, k: u128) -> (res: u64)
        ensures
            res == count_at(m@, k),
    {
        match m.get(&k) {
            Some(v) => *v,
            None => 0,
        }
    }

    fn bump(m: &mut HashMap<u128, u64>, k: u128)
        requires
            count_at(old(m)@, k) < u64::MAX,
            keys_valid(old(m)@),
            k == pair_key(key_lo(k), key_hi(k)),
            key_lo(k) <= key_hi(k),
        ensures
            keys_valid(final(m)@),
            forall|k2: u128| #[trigger]
                count_at(final(m)@, k2) == count_at(old(m)@, k2) + if k2 == k {
                    1nat
                } else {
                    0nat
                },
    {
        let c = Self::count(m, k);
        m.insert(k, c + 1);
    }

    /// Record a traversal of the edge between `from` and `to`; `improved`
    /// tells whether it led to a better candidate.
    pub fn record_traversal(&mut self, from: usize, to: usize, improved: bool)
        requires
            old(self).wf(),
            old(self).traversals(from, to) < u64::MAX,
            improved ==> old(self).improvements(from, to) < u64::MAX,
        ensures
            traversal_recorded(*old(self), *final(self), from, to, improved),
            final(self).wf(),
    {
        let key = Self::key(from, to);
        proof {
            lemma_pair_key_valid(from, to);
        }
        Self::bump(&mut self.edge_traversals, key);
        if improved {
            Self::bump(&mut self.edge_improvements, key);
        }
        proof {
            assert forall|a: usize, b: usize| pair_key(a, b) == key <==> same_pair(a, b, from, to) by {
                lemma_pair_key_same(a, b, from, to);
            }
        }
    }

    /// Record that all `nodes` were visited in the same search: every pair
    /// of positions `i < j` counts the pair `{nodes[i], nodes[j]}` once.
    pub fn record_covisit(&mut self, nodes: &[usize])
        requires
            old(self).wf(),
            forall|a: usize, b: usize|
                #[trigger] old(self).cooccurrences(a, b) + covisit_hits(
                    nodes@,
                    nodes@.len() as int,
                    a,
                    b,
                ) <= u64::MAX,
        ensures
            forall|a: usize, b: usize| #[trigger]
                final(self).cooccurrences(a, b) == old(self).cooccurrences(a, b) + covisit_hits(
                    nodes@,
                    nodes@.len() as int,
                    a,
                    b,
                ),
            forall|a: usize, b: usize| #[trigger]
                final(self).traversals(a, b) == old(self).traversals(a, b),
            forall|a: usize, b: usize| #[trigger]
                final(self).improvements(a, b) == old(self).improvements(a, b),
            final(self).searches() == old(self).searches(),
            final(self).recent() == old(self).recent(),
            final(self).wf(),
    {
        let ghost s = nodes@;
        let ghost start = *self;
        let n = nodes.len();
        let mut i: usize = 0;
        while i < n
            invariant
                s == nodes@,
                n == s.len(),
                i <= n,
                self.wf(),
                forall|a: usize, b: usize|
                    #[trigger] start.cooccurrences(a, b) + covisit_hits(s, n as int, a, b)
                        <= u64::MAX,
                forall|a: usize, b: usize| #[trigger]
                    self.cooccurrences(a, b) == start.cooccurrences(a, b) + covisit_hits(
                        s,
                        i as int,
                        a,
                        b,
                    ),
                forall|a: usize, b: usize| #[trigger]
                    self.traversals(a, b) == start.traversals(a, b),
                forall|a: usize, b: usize| #[trigger]
                    self.improvements(a, b) == start.improvements(a, b),
                self.searches() == start.searches(),
                self.recent() == start.recent(),
            decreases n - i,
        {
            let mut j: usize = i + 1;
            while j < n
                invariant
                    s == nodes@,
                    n == s.len(),
                    i < n,
                    self.wf(),
                    i + 1 <= j <= n,
                    forall|a: usize, b: usize|
                        #[trigger] start.cooccurrences(a, b) + covisit_hits(s, n as int, a, b)
                            <= u64::MAX,
                    forall|a: usize, b: usize| #[trigger]
                        self.cooccurrences(a, b) == start.cooccurrences(a, b) + covisit_hits(
                            s,
                            i as int,
                            a,
                            b,
                        ) + row_hits(s, i as int, j as int, a, b),
                    forall|a: usize, b: usize| #[trigger]
                        self.traversals(a, b) == start.traversals(a, b),
                    forall|a: usize, b: usize| #[trigger]
                        self.improvements(a, b) == start.improvements(a, b),
                    self.searches() == start.searches(),
                    self.recent() == start.recent(),
                decreases n - j,
            {
                let x = nodes[i];
                let y = nodes[j];
                let key = Self::key(x, y);
                proof {
                    lemma_pair_key_valid(x, y);
                    assert forall|a: usize, b: usize|
                        pair_key(a, b) == key <==> same_pair(s[i as int], s[j as int], a, b) by {
                        lemma_pair_key_same(a, b, x, y);
                    }
                    // The slot about to be bumped still has room.
                    lemma_row_hits_mono(s, i as int, j as int + 1, n as int, x, y);
                    lemma_covisit_hits_mono(s, i as int + 1, n as int, x, y);
                    assert(same_pair(s[i as int], s[j as int], x, y));
                    assert(covisit_hits(s, i as int + 1, x, y) == covisit_hits(s, i as int, x, y)
                        + row_hits(s, i as int, n as int, x, y));
                    assert(start.cooccurrences(x, y) + covisit_hits(s, n as int, x, y)
                        <= u64::MAX);
                    assert(count_at(self.cooccurrence@, key) == self.cooccurrences(x, y));
                }
                let ghost prev = *self;
                Self::bump(&mut self.cooccurrence, key);
                proof {
                    assert(self.edge_traversals@ == prev.edge_traversals@);
                    assert(self.edge_improvements@ == prev.edge_improvements@);
                    assert forall|a: usize, b: usize| #[trigger] self.traversals(a, b) == start.traversals(a, b) by {
                        assert(self.traversals(a, b) == prev.traversals(a, b));
                    }
                    assert forall|a: usize, b: usize| #[trigger] self.improvements(a, b) == start.improvements(a, b) by {
                        assert(self.improvements(a, b) == prev.improvements(a, b));
                    }
                    assert forall|a: usize, b: usize|
                        #[trigger] self.cooccurrences(a, b) == start.cooccurrences(a, b)
                            + covisit_hits(s, i as int, a, b) + row_hits(
                            s,
                            i as int,
                            j as int + 1,
                            a,
                            b,
                        ) by {
                        lemma_pair_key_same(a, b, x, y);
                        assert(row_hits(s, i as int, j as int + 1, a, b) == row_hits(
                            s,
                            i as int,
                            j as int,
                            a,
                            b,
                        ) + if same_pair(s[i as int], s[j as int], a, b) {
                            1nat
                        } else {
                            0nat
                        });
                        assert(prev.cooccurrences(a, b) == count_at(prev.cooccurrence@, pair_key(a, b)));
                        assert(count_at(self.cooccurrence@, pair_key(a, b)) == count_at(
                            prev.cooccurrence@,
                            pair_key(a, b),
                        ) + if pair_key(a, b) == key {
                            1nat
                        } else {
                            0nat
                        });
                    }
                }
                j = j + 1;
            }
            proof {
                assert forall|a: usize, b: usize| #[trigger]
                    self.cooccurrences(a, b) == start.cooccurrences(a, b) + covisit_hits(
                        s,
                        i as int + 1,
                        a,
                        b,
                    ) by {
                    assert(covisit_hits(s, i as int + 1, a, b) == covisit_hits(s, i as int, a, b)
                        + row_hits(s, i as int, n as int, a, b));
                }
            }
            i = i + 1;
        }
    }

    /// Record a completed search that started at `entry_point`; only the
    /// last [`RECENT_ENTRY_POINTS`] entry points are kept.
    pub fn record_search(&mut self, entry_point: usize)
        requires
            old(self).searches() < u64::MAX,
        ensures
            final(self).searches() == old(self).searches() + 1,
            final(self).recent() == if old(self).recent().len() + 1 > RECENT_ENTRY_POINTS {
                old(self).recent().push(entry_point).drop_first()
            } else {
                old(self).recent().push(entry_point)
            },
            forall|a: usize, b: usize| #[trigger]
                final(self).traversals(a, b) == old(self).traversals(a, b),
            forall|a: usize, b: usize| #[trigger]
                final(self).improvements(a, b) == old(self).improvements(a, b),
            forall|a: usize, b: usize| #[trigger]
                final(self).cooccurrences(a, b) == old(self).cooccurrences(a, b),
            old(self).wf() ==> final(self).wf(),
    {
        self.total_searches = self.total_searches + 1;
        self.recent_entry_points.push_back(entry_point);
        if self.recent_entry_points.len() > RECENT_ENTRY_POINTS {
            self.recent_entry_points.pop_front();
        }
    }

    /// Clear the counters (after a refinement pass). The recent entry points
    /// are kept.
    pub fn clear(&mut self)
        ensures
            forall|a: usize, b: usize| #[trigger] final(self).traversals(a, b) == 0,
            forall|a: usize, b: usize| #[trigger] final(self).improvements(a, b) == 0,
            forall|a: usize, b: usize| #[trigger] final(self).cooccurrences(a, b) == 0,
            final(self).searches() == 0,
            final(self).recent() == old(self).recent(),
            old(self).wf() ==> final(self).wf(),
    {
        self.edge_traversals.clear();
        self.edge_improvements.clear();
        self.cooccurrence.clear();
        self.total_searches = 0;
    }

    /// The recent entry points of well-formed statistics never exceed
    /// [`RECENT_ENTRY_POINTS`].
    pub proof fn lemma_recent_window_bounded(&self)
        requires
            self.wf(),
        ensures
            self.recent().len() <= RECENT_ENTRY_POINTS,
    {
    }

    /// Edges and co-visits are undirected: every count of `{a, b}` is the
    /// count of `{b, a}`.
    pub proof fn lemma_counts_symmetric(&self, a: usize, b: usize)
        ensures
            self.traversals(a, b) == self.traversals(b, a),
            self.improvements(a, b) == self.improvements(b, a),
            self.cooccurrences(a, b) == self.cooccurrences(b, a),
    {
        lemma_pair_key_same(a, b, b, a);
    }

    /// The most frequent recent entry points, most frequent first: up to
    /// [`HOT_ENTRY_POINTS`] distinct nodes, each at least as frequent as any
    /// node left out. Nodes with equal counts come in no fixed order.
    pub fn hot_entry_points(&self) -> (res: Vec<usize>)
        ensures
            ({
                let recent = self.recent();
                &&& res@.len() == if recent.to_set().len() < HOT_ENTRY_POINTS {
                    recent.to_set().len()
                } else {
                    HOT_ENTRY_POINTS as nat
                }
                &&& res@.no_duplicates()
                &&& forall|i: int| 0 <= i < res@.len() ==> recent.contains(#[trigger] res@[i])
                &&& forall|i: int, j: int|
                    0 <= i < j < res@.len() ==> count_in(recent, #[trigger] res@[i]) >= count_in(
                        recent,
                        #[trigger] res@[j],
                    )
                &&& forall|x: usize|
                    #[trigger] recent.contains(x) && !res@.contains(x) ==> res@.len() > 0 && count_in(
                        recent,
                        x,
                    ) <= count_in(recent, res@[res@.len() - 1])
            }),
    {
        let ghost recent = self.recent();
        let n = self.recent_entry_points.len();
        let mut counts: HashMap<usize, usize> = HashMap::new();
        let mut i: usize = 0;
        while i < n
            invariant
                recent == self.recent_entry_points@,
                n == recent.len(),
                i <= n,
                counts@.dom() == recent.take(i as int).to_set(),
                forall|x: usize| #[trigger] counts@.contains_key(x) ==> counts@[x] == count_in(recent.take(i as int), x),
            decreases n - i,
        {
            let ep = self.recent_entry_points[i];
            let ghost pre = recent.take(i as int);
            let ghost post = recent.take(i as int + 1);
            proof {
                assert(post.drop_last() =~= pre);
                assert(post.last() == ep);
                lemma_count_in_bound(pre, ep);
            }
            let c = match counts.get(&ep) {
                Some(c) => *c,
                None => 0,
            };
            proof {
                assert(c == count_in(pre, ep)) by {
                    if !counts@.contains_key(ep) {
                        assert(!pre.to_set().contains(ep));
                    }
                }
            }
            counts.insert(ep, c + 1);
            proof {
                assert forall|x: usize| #[trigger] post.to_set().contains(x) <==> (pre.to_set().contains(x) || x == ep) by {
                    if post.contains(x) {
                        let j = choose|j: int| 0 <= j < post.len() && post[j] == x;
                        if j < pre.len() {
                            assert(pre[j] == x);
                        }
                    }
                    if pre.contains(x) {
                        let j = choose|j: int| 0 <= j < pre.len() && pre[j] == x;
                        assert(post[j] == x);
                    }
                    if x == ep {
                        assert(post[i as int] == x);
                    }
                }
                assert(counts@.dom() =~= post.to_set());
                assert forall|x: usize| #[trigger] counts@.contains_key(x) implies counts@[x] == count_in(post, x) by {
                    if x != ep {
                        assert(pre.to_set().contains(x));
                    }
                }
            }
            i = i + 1;
        }
        proof {
            assert(recent.take(n as int) =~= recent);
        }

        let ghost pairs = spec_hash_map_iter(&counts).remaining();
        let mut ranked: Vec<(usize, usize)> = Vec::new();
        for (node, count) in it: counts.iter()
            invariant
                it.seq() == pairs,
                pairs == spec_hash_map_iter(&counts).remaining(),
                pairs.no_duplicates(),
                counts@.dom() == recent.to_set(),
                forall|x: usize| #[trigger] counts@.contains_key(x) ==> counts@[x] == count_in(recent, x),
                ranked@.len() == it.index(),
                forall|t: int| 0 <= t < it.index() ==> #[trigger] ranked@[t] == (*pairs[t].0, *pairs[t].1),
        {
            ranked.push((*node, *count));
        }
        let ghost nodes0 = firsts(ranked@);
        proof {
            assert forall|a: int, b: int| 0 <= a < b < nodes0.len() implies nodes0[a] != nodes0[b] by {
                if nodes0[a] == nodes0[b] {
                    assert(counts@.contains_key(*pairs[a].0));
                    assert(counts@[*pairs[a].0] == *pairs[a].1);
                    assert(counts@[*pairs[b].0] == *pairs[b].1);
                    assert(pairs[a] == pairs[b]);
                }
            }
            assert forall|x: usize| #[trigger] nodes0.contains(x) <==> recent.contains(x) by {
                if counts@.contains_key(x) {
                    assert(pairs.contains((&x, &counts@[x])));
                    let j = choose|j: int| 0 <= j < pairs.len() && pairs[j] == (&x, &counts@[x]);
                    assert(nodes0[j] == x);
                }
                if nodes0.contains(x) {
                    let j = choose|j: int| 0 <= j < nodes0.len() && nodes0[j] == x;
                    assert(counts@.contains_key(*pairs[j].0));
                }
                assert(recent.to_set().contains(x) == recent.contains(x));
            }
            assert forall|t: int| 0 <= t < ranked@.len() implies (#[trigger] ranked@[t]).1 == count_in(recent, ranked@[t].0) by {
                assert(counts@.contains_key(*pairs[t].0));
            }
        }

        let len = ranked.len();
        let k = if len < HOT_ENTRY_POINTS {
            len
        } else {
            HOT_ENTRY_POINTS
        };
        let mut r: usize = 0;
        while r < k
            invariant
                ranked@.len() == len,
                k <= len,
                r <= k,
                firsts(ranked@).no_duplicates(),
                forall|x: usize| #[trigger] firsts(ranked@).contains(x) <==> recent.contains(x),
                forall|t: int| 0 <= t < len ==> (#[trigger] ranked@[t]).1 == count_in(recent, ranked@[t].0),
                forall|a: int, b: int| 0 <= a < r && a < b < len ==> (#[trigger] ranked@[a]).1 >= (#[trigger] ranked@[b]).1,
            decreases k - r,
        {
            let mut best = r;
            let mut j = r + 1;
            while j < len
                invariant
                    ranked@.len() == len,
                    r < k <= len,
                    r <= best < j <= len,
                    forall|t: int| r <= t < j ==> ranked@[best as int].1 >= (#[trigger] ranked@[t]).1,
                decreases len - j,
            {
                if ranked[j].1 > ranked[best].1 {
                    best = j;
                }
                j = j + 1;
            }
            let ghost before = ranked@;
            let at_r = ranked[r];
            let at_best = ranked[best];
            ranked.set(r, at_best);
            ranked.set(best, at_r);
            proof {
                let nb = firsts(before);
                let na = firsts(ranked@);
                assert(ranked@ =~= before.update(r as int, at_best).update(best as int, at_r));
                assert forall|t: int| 0 <= t < len implies #[trigger] ranked@[t] == before[if t == r {
                    best as int
                } else if t == best {
                    r as int
                } else {
                    t
                }] by {}
                assert forall|a: int, b: int| 0 <= a < b < na.len() implies na[a] != na[b] by {
                    let a0 = if a == r { best as int } else if a == best { r as int } else { a };
                    let b0 = if b == r { best as int } else if b == best { r as int } else { b };
                    assert(na[a] == nb[a0]);
                    assert(na[b] == nb[b0]);
                    assert(a0 != b0);
                }
                assert forall|x: usize| #[trigger] na.contains(x) <==> recent.contains(x) by {
                    if na.contains(x) {
                        let t = choose|t: int| 0 <= t < na.len() && na[t] == x;
                        let t0 = if t == r { best as int } else if t == best { r as int } else { t };
                        assert(nb[t0] == x);
                    }
                    if nb.contains(x) {
                        let t0 = choose|t0: int| 0 <= t0 < nb.len() && nb[t0] == x;
                        let t = if t0 == r { best as int } else if t0 == best { r as int } else { t0 };
                        assert(na[t] == x);
                    }
                }
            }
            r = r + 1;
        }

        let mut res: Vec<usize> = Vec::new();
        let mut t: usize = 0;
        while t < k
            invariant
                ranked@.len() == len,
                k <= len,
                t <= k,
                res@ == firsts(ranked@.take(t as int)),
            decreases k - t,
        {
            res.push(ranked[t].0);
            proof {
                assert(firsts(ranked@.take(t as int + 1)) =~= firsts(ranked@.take(t as int)).push(ranked@[t as int].0));
            }
            t = t + 1;
        }
        proof {
            let nodes = firsts(ranked@);
            assert(nodes.to_set() =~= recent.to_set());
            nodes.unique_seq_to_set();
            assert forall|x: usize| #[trigger] recent.contains(x) && !res@.contains(x) implies res@.len() > 0
                && count_in(recent, x) <= count_in(recent, res@[res@.len() - 1]) by {
                assert(nodes.contains(x));
                let j = choose|j: int| 0 <= j < nodes.len() && nodes[j] == x;
                if j < k {
                    assert(res@[j] == x);
                }
                assert(k > 0);
                assert(ranked@[k - 1].1 >= ranked@[j].1);
            }
            assert forall|i: int| 0 <= i < res@.len() implies recent.contains(#[trigger] res@[i]) by {
                assert(nodes[i] == res@[i]);
                assert(nodes.contains(res@[i]));
            }
            assert forall|a: int, b: int| 0 <= a < b < res@.len() implies res@[a] != res@[b] by {
                assert(nodes[a] == res@[a] && nodes[b] == res@[b]);
            }
        }
        res
    }

    /// The stored pairs of `m` with their counts, each pair once.
    fn entries_of(m: &HashMap<u128, u64>) -> (res: Vec<(usize, usize, u64)>)
        requires
            keys_valid(m@),
        ensures
            forall|t: int|
                0 <= t < res@.len() ==> (#[trigger] res@[t]).0 <= res@[t].1 && m@.contains_key(
                    pair_key(res@[t].0, res@[t].1),
                ) && m@[pair_key(res@[t].0, res@[t].1)] == res@[t].2,
            forall|a: usize, b: usize|
                a <= b && #[trigger] m@.contains_key(pair_key(a, b)) ==> exists|t: int|
                    0 <= t < res@.len() && #[trigger] res@[t] == (a, b, m@[pair_key(a, b)]),
            forall|t1: int, t2: int|
                0 <= t1 < t2 < res@.len() ==> ((#[trigger] res@[t1]).0, res@[t1].1) != (
                (#[trigger] res@[t2]).0,
                res@[t2].1,
            ),
    {
        let ghost pairs = spec_hash_map_iter(m).remaining();
        let mut res: Vec<(usize, usize, u64)> = Vec::new();
        for (k, v) in it: m.iter()
            invariant
                keys_valid(m@),
                it.seq() == pairs,
                pairs == spec_hash_map_iter(m).remaining(),
                pairs.no_duplicates(),
                res@.len() == it.index(),
                forall|t: int|
                    0 <= t < it.index() ==> #[trigger] res@[t] == (
                        key_lo(*pairs[t].0),
                        key_hi(*pairs[t].0),
                        *pairs[t].1,
                    ),
        {
            let lo = (*k >> 64u128) as usize;
            let hi = (*k & 0xFFFF_FFFF_FFFF_FFFFu128) as usize;
            res.push((lo, hi, *v));
        }
        proof {
            assert forall|t: int| 0 <= t < res@.len() implies (#[trigger] res@[t]).0 <= res@[t].1 && m@.contains_key(
                pair_key(res@[t].0, res@[t].1),
            ) && m@[pair_key(res@[t].0, res@[t].1)] == res@[t].2 by {
                let k = *pairs[t].0;
                assert(m@.contains_key(k));
                assert(m@[k] == *pairs[t].1);
            }
            assert forall|a: usize, b: usize|
                a <= b && #[trigger] m@.contains_key(pair_key(a, b)) implies exists|t: int|
                0 <= t < res@.len() && #[trigger] res@[t] == (a, b, m@[pair_key(a, b)]) by {
                let k = pair_key(a, b);
                lemma_pair_key_decodes(a, b);
                assert(pairs.contains((&k, &m@[k])));
                let t = choose|t: int| 0 <= t < pairs.len() && pairs[t] == (&k, &m@[k]);
                assert(res@[t] == (a, b, m@[k]));
            }
            assert forall|t1: int, t2: int|
                0 <= t1 < t2 < res@.len() implies ((#[trigger] res@[t1]).0, res@[t1].1) != (
                (#[trigger] res@[t2]).0,
                res@[t2].1,
            ) by {
                let k1 = *pairs[t1].0;
                let k2 = *pairs[t2].0;
                assert(m@.contains_key(k1) && m@.contains_key(k2));
                if key_lo(k1) == key_lo(k2) && key_hi(k1) == key_hi(k2) {
                    assert(k1 == k2);
                    assert(m@[k1] == *pairs[t1].1);
                    assert(m@[k2] == *pairs[t2].1);
                    assert(pairs[t1] == pairs[t2]);
                }
            }
        }
        res
    }

    /// Every pair of nodes visited together, smaller node first, with the
    /// number of searches that visited both; each pair once, in no fixed
    /// order.
    pub fn cooccurrence_entries(&self) -> (res: Vec<(usize, usize, u64)>)
        requires
            self.wf(),
        ensures
            forall|t: int|
                0 <= t < res@.len() ==> (#[trigger] res@[t]).0 <= res@[t].1 && res@[t].2 > 0
                    && res@[t].2 == self.cooccurrences(res@[t].0, res@[t].1),
            forall|a: usize, b: usize|
                a <= b && #[trigger] self.cooccurrences(a, b) > 0 ==> exists|t: int|
                    0 <= t < res@.len() && #[trigger] res@[t] == (a, b, self.cooccurrences(a, b) as u64),
            forall|t1: int, t2: int|
                0 <= t1 < t2 < res@.len() ==> ((#[trigger] res@[t1]).0, res@[t1].1) != (
                (#[trigger] res@[t2]).0,
                res@[t2].1,
            ),
    {
        let res = Self::entries_of(&self.cooccurrence);
        proof {
            assert forall|a: usize, b: usize|
                a <= b && #[trigger] self.cooccurrences(a, b) > 0 implies exists|t: int|
                0 <= t < res@.len() && #[trigger] res@[t] == (a, b, self.cooccurrences(a, b) as u64) by {
                assert(self.cooccurrence@.contains_key(pair_key(a, b)));
            }
        }
        res
    }

    /// Every traversed edge, smaller node first, with its traversal count;
    /// each edge once, in no fixed order.
    pub fn traversal_entries(&self) -> (res: Vec<(usize, usize, u64)>)
        requires
            self.wf(),
        ensures
            forall|t: int|
                0 <= t < res@.len() ==> (#[trigger] res@[t]).0 <= res@[t].1 && res@[t].2 > 0
                    && res@[t].2 == self.traversals(res@[t].0, res@[t].1),
            forall|a: usize, b: usize|
                a <= b && #[trigger] self.traversals(a, b) > 0 ==> exists|t: int|
                    0 <= t < res@.len() && #[trigger] res@[t] == (a, b, self.traversals(a, b) as u64),
            forall|t1: int, t2: int|
                0 <= t1 < t2 < res@.len() ==> ((#[trigger] res@[t1]).0, res@[t1].1) != (
                (#[trigger] res@[t2]).0,
                res@[t2].1,
            ),
    {
        let res = Self::entries_of(&self.edge_traversals);
        proof {
            assert forall|a: usize, b: usize|
                a <= b && #[trigger] self.traversals(a, b) > 0 implies exists|t: int|
                0 <= t < res@.len() && #[trigger] res@[t] == (a, b, self.traversals(a, b) as u64) by {
                assert(self.edge_traversals@.contains_key(pair_key(a, b)));
            }
        }
        res
    }

    /// Total searches recorded since the last clear.
    pub fn total_searches(&self) -> (res: u64)
        ensures
            res == self.searches(),
    {
        self.total_searches
    }

    /// Traversal count of the edge between `from` and `to`.
    pub fn traversal_count(&self, from: usize, to: usize) -> (res: u64)
        ensures
            res == self.traversals(from, to),
    {
        Self::count(&self.edge_traversals, Self::key(from, to))
    }

    /// How many traversals of the edge between `from` and `to` improved the
    /// candidate set.
    pub fn improvement_count(&self, from: usize, to: usize) -> (res: u64)
        ensures
            res == self.improvements(from, to),
    {
        Self::count(&self.edge_improvements, Self::key(from, to))
    }

    /// How many searches visited both `a` and `b`.
    pub fn cooccurrence_count(&self, a: usize, b: usize) -> (res: u64)
        ensures
            res == self.cooccurrences(a, b),
    {
        Self::count(&self.cooccurrence, Self::key(a, b))
    }

    /// The recent search entry points, oldest first.
    pub fn recent_entry_points(&self) -> (res: &VecDeque<usize>)
        ensures
            res@ == self.recent(),
    {
        &self.recent_entry_points
    }
}


/// `after` is `before` with one traversal of the edge between `from` and
/// `to` recorded: the pair's traversal count grows by one, its improvement
/// count by one when `improved`, and nothing else changes.
pub open spec fn traversal_recorded(
    before: EdgeStats,
    after: EdgeStats,
    from: usize,
    to: usize,
    improved: bool,
) -> bool {
    &&& forall|a: usize, b: usize| #[trigger]
        after.traversals(a, b) == before.traversals(a, b) + if same_pair(a, b, from, to) {
            1nat
        } else {
            0nat
        }
    &&& forall|a: usize, b: usize| #[trigger]
        after.improvements(a, b) == before.improvements(a, b) + if improved && same_pair(
            a,
            b,
            from,
            to,
        ) {
            1nat
        } else {
            0nat
        }
    &&& forall|a: usize, b: usize| #[trigger] after.cooccurrences(a, b) == before.cooccurrences(a, b)
    &&& after.searches() == before.searches()
    &&& after.recent() == before.recent()
}

/// Traversals are undirected: recording `from -> to` and recording
/// `to -> from` from the same statistics give the same counts for every
/// pair, in either order of the pair, and the same searches and recent
/// entry points.
pub proof fn lemma_traversal_undirected(
    before: EdgeStats,
    one: EdgeStats,
    other: EdgeStats,
    from: usize,
    to: usize,
    improved: bool,
)
    requires
        traversal_recorded(before, one, from, to, improved),
        traversal_recorded(before, other, to, from, improved),
    ensures
        forall|a: usize, b: usize|
            #![trigger one.traversals(a, b)]
            #![trigger other.traversals(a, b)]
            one.traversals(a, b) == other.traversals(a, b) && one.traversals(a, b)
                == other.traversals(b, a),
        forall|a: usize, b: usize|
            #![trigger one.improvements(a, b)]
            #![trigger other.improvements(a, b)]
            one.improvements(a, b) == other.improvements(a, b) && one.improvements(a, b)
                == other.improvements(b, a),
        forall|a: usize, b: usize| #[trigger]
            one.cooccurrences(a, b) == other.cooccurrences(a, b),
        one.searches() == other.searches(),
        one.recent() == other.recent(),
{
    assert forall|a: usize, b: usize| one.traversals(a, b) == other.traversals(a, b)
        && one.traversals(a, b) == other.traversals(b, a) by {
        assert(same_pair(a, b, from, to) == same_pair(a, b, to, from));
        assert(same_pair(a, b, from, to) == same_pair(b, a, to, from));
        assert(one.traversals(a, b) == before.traversals(a, b) + if same_pair(a, b, from, to) {
            1nat
        } else {
            0nat
        });
        assert(other.traversals(a, b) == before.traversals(a, b) + if same_pair(a, b, to, from) {
            1nat
        } else {
            0nat
        });
        assert(other.traversals(b, a) == before.traversals(b, a) + if same_pair(b, a, to, from) {
            1nat
        } else {
            0nat
        });
        before.lemma_counts_symmetric(a, b);
    }
    assert forall|a: usize, b: usize| one.improvements(a, b) == other.improvements(a, b)
        && one.improvements(a, b) == other.improvements(b, a) by {
        assert(same_pair(a, b, from, to) == same_pair(a, b, to, from));
        assert(same_pair(a, b, from, to) == same_pair(b, a, to, from));
        assert(one.improvements(a, b) == before.improvements(a, b) + if improved && same_pair(
            a,
            b,
            from,
            to,
        ) {
            1nat
        } else {
            0nat
        });
        assert(other.improvements(a, b) == before.improvements(a, b) + if improved && same_pair(
            a,
            b,
            to,
            from,
        ) {
            1nat
        } else {
            0nat
        });
        assert(other.improvements(b, a) == before.improvements(b, a) + if improved && same_pair(
            b,
            a,
            to,
            from,
        ) {
            1nat
        } else {
            0nat
        });
        before.lemma_counts_symmetric(a, b);
    }
    assert forall|a: usize, b: usize| #[trigger] one.cooccurrences(a, b) == other.cooccurrences(a, b) by {
        assert(one.cooccurrences(a, b) == before.cooccurrences(a, b));
        assert(other.cooccurrences(a, b) == before.cooccurrences(a, b));
    }
}

/// Recording `from -> to` is recording `to -> from`: statistics that one
/// of the two calls produces are what the other would produce.
pub proof fn lemma_traversal_recorded_symmetric(
    before: EdgeStats,
    after: EdgeStats,
    from: usize,
    to: usize,
    improved: bool,
)
    requires
        traversal_recorded(before, after, from, to, improved),
    ensures
        traversal_recorded(before, after, to, from, improved),
{
    assert forall|a: usize, b: usize| same_pair(a, b, from, to) == same_pair(a, b, to, from) by {}
}

/// A call on edge statistics, as far as it bears on their counters.
pub enum StatsCall {
    /// `record_traversal(from, to, improved)`.
    Traversal { from: usize, to: usize, improved: bool },
    /// `record_covisit(nodes)`.
    Covisit { nodes: Seq<usize> },
    /// `record_search(entry)`.
    Search { entry: usize },
    /// A call that only reads the statistics.
    Read,
}

/// `after` is what `call` leaves of `before`, as the contract of the call
/// states it.
pub open spec fn call_made(before: EdgeStats, call: StatsCall, after: EdgeStats) -> bool {
    match call {
        StatsCall::Traversal { from, to, improved } => traversal_recorded(
            before,
            after,
            from,
            to,
            improved,
        ),
        StatsCall::Covisit { nodes } => {
            &&& forall|a: usize, b: usize| #[trigger]
                after.cooccurrences(a, b) == before.cooccurrences(a, b) + covisit_hits(
                    nodes,
                    nodes.len() as int,
                    a,
                    b,
                )
            &&& forall|a: usize, b: usize| #[trigger]
                after.traversals(a, b) == before.traversals(a, b)
            &&& forall|a: usize, b: usize| #[trigger]
                after.improvements(a, b) == before.improvements(a, b)
            &&& after.searches() == before.searches()
            &&& after.recent() == before.recent()
        },
        StatsCall::Search { entry } => {
            &&& after.searches() == before.searches() + 1
            &&& forall|a: usize, b: usize| #[trigger]
                after.traversals(a, b) == before.traversals(a, b)
            &&& forall|a: usize, b: usize| #[trigger]
                after.improvements(a, b) == before.improvements(a, b)
            &&& forall|a: usize, b: usize| #[trigger]
                after.cooccurrences(a, b) == before.cooccurrences(a, b)
        },
        StatsCall::Read => after == before,
    }
}

/// Number of searches recorded among `calls`.
pub open spec fn searches_among(calls: Seq<StatsCall>) -> nat
    decreases calls.len(),
{
    if calls.len() == 0 {
        0
    } else {
        searches_among(calls.drop_last()) + if calls.last() is Search {
            1nat
        } else {
            0nat
        }
    }
}

/// Searches are counted over any run of calls: statistics that start with
/// no searches (as [`EdgeStats::new`] leaves them) and then go through any
/// calls of `record_traversal`, `record_covisit`, `record_search` and the
/// readers, with no `clear` among them, report as many searches as there
/// were `record_search` calls. `states[i]` is the value before `calls[i]`.
pub proof fn lemma_searches_counted(states: Seq<EdgeStats>, calls: Seq<StatsCall>)
    requires
        states.len() == calls.len() + 1,
        states[0].searches() == 0,
        forall|i: int| 0 <= i < calls.len() ==> call_made(states[i], #[trigger] calls[i], states[i + 1]),
    ensures
        states.last().searches() == searches_among(calls),
    decreases calls.len(),
{
    if calls.len() > 0 {
        let k = calls.len() - 1;
        let ps = states.drop_last();
        let pc = calls.drop_last();
        assert forall|i: int| 0 <= i < pc.len() implies call_made(ps[i], #[trigger] pc[i], ps[i + 1]) by {
            assert(calls[i] == pc[i]);
        }
        lemma_searches_counted(ps, pc);
        assert(calls[k] == calls.last());
        assert(call_made(states[k], calls[k], states[k + 1]));
    }
}
} // verus!
