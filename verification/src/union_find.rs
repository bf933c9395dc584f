//! Union-find over node ids with path halving and union by rank, used to
//! find the connected components of a graph before bridging them.
use vstd::prelude::*;

verus! {

/// `2` raised to `k`.
pub open spec fn two_pow(k: nat) -> nat
    decreases k,
{
    if k == 0 {
        1
    } else {
        2 * two_pow((k - 1) as nat)
    }
}

proof fn lemma_two_pow_grows(j: nat, k: nat)
    requires
        j <= k,
    ensures
        two_pow(j) <= two_pow(k),
    decreases k - j,
{
    if j < k {
        lemma_two_pow_grows(j, (k - 1) as nat);
    }
}

/// Number of ids below `k` whose representative is `r`.
pub open spec fn class_count(rep: Seq<u32>, r: u32, k: int) -> nat
    decreases k,
{
    if k <= 0 {
        0
    } else {
        class_count(rep, r, k - 1) + if rep[k - 1] == r {
            1nat
        } else {
            0nat
        }
    }
}

proof fn lemma_class_count_bound(rep: Seq<u32>, r: u32, k: int)
    requires
        k >= 0,
    ensures
        class_count(rep, r, k) <= k,
    decreases k,
{
    if k > 0 {
        lemma_class_count_bound(rep, r, k - 1);
    }
}

/// Parents lead to roots of strictly higher rank, every id's
/// representative is the root above it, and a root of rank `k` holds at
/// least `2^k` ids.
pub open spec fn forest_ok(parent: Seq<u32>, rank: Seq<u8>, rep: Seq<u32>) -> bool {
    let n = parent.len();
    &&& n <= u32::MAX + 1
    &&& rank.len() == n
    &&& rep.len() == n
    &&& forall|x: int| 0 <= x < n ==> (#[trigger] parent[x] as int) < n
    &&& forall|x: int| 0 <= x < n && #[trigger] parent[x] != x ==> rank[parent[x] as int] > rank[x]
    &&& forall|x: int| 0 <= x < n ==> (#[trigger] rep[x] as int) < n && parent[rep[x] as int] == rep[x]
    &&& forall|x: int| 0 <= x < n ==> rep[#[trigger] parent[x] as int] == rep[x]
    &&& forall|r: int|
        0 <= r < n && #[trigger] parent[r] == r ==> rep[r] == r && class_count(rep, r as u32, n as int)
            >= two_pow(rank[r] as nat)
}

/// The representatives once the sets of roots `c` and `p` are merged
/// under `p`.
pub open spec fn merged_reps(rep: Seq<u32>, c: u32, p: u32) -> Seq<u32> {
    Seq::new(rep.len(), |x: int| if rep[x] == c || rep[x] == p { p } else { rep[x] })
}

proof fn lemma_merged_counts(rep: Seq<u32>, c: u32, p: u32, q: u32, k: int)
    requires
        c != p,
        0 <= k <= rep.len(),
    ensures
        class_count(merged_reps(rep, c, p), q, k) == if q == p {
            class_count(rep, c, k) + class_count(rep, p, k)
        } else if q == c {
            0
        } else {
            class_count(rep, q, k)
        },
    decreases k,
{
    if k > 0 {
        lemma_merged_counts(rep, c, p, q, k - 1);
    }
}

proof fn lemma_rank_bound(rep: Seq<u32>, r: u32, rank: u8)
    requires
        rep.len() <= u32::MAX + 1,
        class_count(rep, r, rep.len() as int) >= two_pow(rank as nat),
    ensures
        rank <= 32,
{
    lemma_class_count_bound(rep, r, rep.len() as int);
    if rank > 32 {
        lemma_two_pow_grows(33, rank as nat);
        assert(two_pow(33) == 0x2_0000_0000) by {
            reveal_with_fuel(two_pow, 34);
        }
    }
}

/// Linking root `c` under root `p` keeps the forest consistent, provided
/// the rank of `p` ends above that of `c`.
proof fn lemma_link(parent: Seq<u32>, rank: Seq<u8>, rep: Seq<u32>, c: u32, p: u32, new_rank: Seq<u8>)
    requires
        forest_ok(parent, rank, rep),
        (c as int) < parent.len(),
        (p as int) < parent.len(),
        c != p,
        parent[c as int] == c,
        parent[p as int] == p,
        new_rank.len() == rank.len(),
        forall|x: int| 0 <= x < rank.len() && x != p ==> new_rank[x] == rank[x],
        new_rank[p as int] >= rank[p as int],
        new_rank[p as int] > rank[c as int],
        new_rank[p as int] == rank[p as int] || (new_rank[p as int] == rank[p as int] + 1 && rank[p as int] == rank[c as int]),
    ensures
        forest_ok(parent.update(c as int, p), new_rank, merged_reps(rep, c, p)),
{
    let n = parent.len();
    let np = parent.update(c as int, p);
    let nr = merged_reps(rep, c, p);
    assert forall|x: int| 0 <= x < n && #[trigger] np[x] != x implies new_rank[np[x] as int] > new_rank[x] by {
        if x != c as int {
            assert(np[x] == parent[x]);
            assert(rank[parent[x] as int] > rank[x]);
            assert(x != p as int);
        }
    }
    assert forall|x: int| 0 <= x < n implies (#[trigger] nr[x] as int) < n && np[nr[x] as int] == nr[x] by {
        assert(parent[rep[x] as int] == rep[x]);
    }
    assert forall|x: int| 0 <= x < n implies nr[#[trigger] np[x] as int] == nr[x] by {
        if x == c as int {
            assert(rep[c as int] == c);
            assert(rep[p as int] == p);
        } else {
            assert(rep[parent[x] as int] == rep[x]);
        }
    }
    assert forall|r: int|
        0 <= r < n && #[trigger] np[r] == r implies nr[r] == r && class_count(nr, r as u32, n as int)
        >= two_pow(new_rank[r] as nat) by {
        assert(r != c as int);
        assert(parent[r] == r);
        assert(rep[r] == r);
        lemma_merged_counts(rep, c, p, r as u32, n as int);
        if r == p as int {
            if new_rank[r] != rank[r] {
                assert(class_count(rep, c, n as int) >= two_pow(rank[c as int] as nat));
                assert(two_pow(new_rank[r] as nat) == 2 * two_pow(rank[r] as nat));
            }
        }
    }
}

/// Disjoint sets over the ids `0..n`.
pub struct UnionFind {
    parent: Vec<u32>,
    rank: Vec<u8>,
    rep: Ghost<Seq<u32>>,
}

impl UnionFind {
    /// The representative of each id: ids share a set exactly when they
    /// share a representative.
    pub closed spec fn reps(&self) -> Seq<u32> {
        self.rep@
    }

    /// Internal consistency: parents lead to roots of strictly higher rank,
    /// every id's representative is the root above it, and a root of rank
    /// `k` holds at least `2^k` ids.
    pub closed spec fn wf(&self) -> bool {
        forest_ok(self.parent@, self.rank@, self.rep@)
    }

    /// The rank of each id (meaningful at the roots): an upper bound on the
    /// height of the tree below it.
    pub closed spec fn ranks(&self) -> Seq<u8> {
        self.rank@
    }

    /// Number of ids.
    pub closed spec fn size(&self) -> nat {
        self.parent@.len()
    }

    /// Every id in a set of its own.
    pub fn new(n: usize) -> (res: Self)
        requires
            n <= u32::MAX + 1,
        ensures
            res.wf(),
            res.size() == n,
            forall|x: int| 0 <= x < n ==> #[trigger] res.reps()[x] == x,
    {
        let mut parent: Vec<u32> = Vec::with_capacity(n);
        let mut i: usize = 0;
        while i < n
            invariant
                i <= n,
                n <= u32::MAX + 1,
                parent@.len() == i,
                forall|x: int| 0 <= x < i ==> #[trigger] parent@[x] == x,
            decreases n - i,
        {
            parent.push(i as u32);
            i = i + 1;
        }
        let rank: Vec<u8> = vec![0u8; n];
        let ghost rep = parent@;
        let res = UnionFind { parent, rank, rep: Ghost(rep) };
        proof {
            assert forall|r: int|
                0 <= r < n && #[trigger] res.parent@[r] == r implies res.rep@[r] == r && class_count(
                res.rep@,
                r as u32,
                n as int,
            ) >= two_pow(res.rank@[r] as nat) by {
                lemma_class_count_one(rep, r, n as int);
            }
        }
        res
    }

    /// The representative of `x`. Walking up halves the path: each visited
    /// id is re-linked to its grandparent, which changes no set.
    pub fn find(&mut self, x: u32) -> (res: u32)
        requires
            old(self).wf(),
            (x as int) < old(self).size(),
        ensures
            final(self).wf(),
            final(self).size() == old(self).size(),
            final(self).reps() == old(self).reps(),
            final(self).ranks() == old(self).ranks(),
            res == old(self).reps()[x as int],
    {
        let ghost n = self.parent@.len();
        let mut r = x;
        while self.parent[r as usize] != r
            invariant
                self.wf(),
                self.parent@.len() == n,
                self.rep@ == old(self).rep@,
                self.rank@ == old(self).rank@,
                (r as int) < n,
                self.rep@[r as int] == self.rep@[x as int],
            decreases 256 - self.rank@[r as int],
        {
            let p = self.parent[r as usize];
            let gp = self.parent[p as usize];
            let ghost before = self.parent@;
            self.parent.set(r as usize, gp);
            proof {
                assert forall|y: int|
                    0 <= y < n && #[trigger] self.parent@[y] != y implies self.rank@[self.parent@[y] as int]
                    > self.rank@[y] by {
                    assert(forest_ok(before, self.rank@, self.rep@));
                    if y != r {
                        assert(self.parent@[y] == before[y]);
                    } else if gp != p {
                        assert(before[p as int] != p);
                    }
                }
                assert forall|y: int| 0 <= y < n implies self.rep@[#[trigger] self.parent@[y] as int]
                    == self.rep@[y] by {
                    if y != r {
                        assert(self.parent@[y] == before[y]);
                    }
                }
                assert forall|y: int| 0 <= y < n implies (#[trigger] self.rep@[y] as int) < n
                    && self.parent@[self.rep@[y] as int] == self.rep@[y] by {
                    assert(before[self.rep@[y] as int] == self.rep@[y]);
                    if self.rep@[y] as int == r as int {
                        assert(before[r as int] == r);
                    }
                }
                assert forall|q: int| 0 <= q < n && #[trigger] self.parent@[q] == q implies self.rep@[q]
                    == q && class_count(self.rep@, q as u32, n as int) >= two_pow(
                    self.rank@[q] as nat,
                ) by {
                    if q == r {
                        assert(before[p as int] != p ==> self.rank@[gp as int] > self.rank@[p as int]);
                    }
                    assert(before[q] == q);
                }
            }
            r = gp;
        }
        r
    }

    /// Merge the sets of `a` and `b` under the representative of higher
    /// rank: under `b`'s when `a`'s ranks lower, otherwise under `a`'s,
    /// whose rank grows by one when the two ranks are equal.
    pub fn union(&mut self, a: u32, b: u32)
        requires
            old(self).wf(),
            (a as int) < old(self).size(),
            (b as int) < old(self).size(),
        ensures
            final(self).wf(),
            final(self).size() == old(self).size(),
            ({
                let ra = old(self).reps()[a as int];
                let rb = old(self).reps()[b as int];
                let rank = old(self).ranks();
                if ra != rb && rank[ra as int] < rank[rb as int] {
                    &&& final(self).reps() == merged_reps(old(self).reps(), ra, rb)
                    &&& final(self).ranks() == rank
                } else if ra != rb && rank[ra as int] == rank[rb as int] {
                    &&& final(self).reps() == merged_reps(old(self).reps(), rb, ra)
                    &&& final(self).ranks() == rank.update(ra as int, (rank[ra as int] + 1) as u8)
                } else {
                    &&& final(self).reps() == merged_reps(old(self).reps(), rb, ra)
                    &&& final(self).ranks() == rank
                }
            }),
    {
        let ra = self.find(a);
        let rb = self.find(b);
        if ra == rb {
            assert(merged_reps(self.rep@, ra, rb) =~= self.rep@);
            return;
        }
        let rank_a = self.rank[ra as usize];
        let rank_b = self.rank[rb as usize];
        let ghost parent0 = self.parent@;
        let ghost rank0 = self.rank@;
        let ghost rep0 = self.rep@;
        proof {
            assert(parent0[rep0[a as int] as int] == rep0[a as int]);
            assert(parent0[rep0[b as int] as int] == rep0[b as int]);
        }
        if rank_a < rank_b {
            self.parent.set(ra as usize, rb);
            self.rep = Ghost(merged_reps(rep0, ra, rb));
            proof {
                lemma_link(parent0, rank0, rep0, ra, rb, rank0);
            }
        } else if rank_a > rank_b {
            self.parent.set(rb as usize, ra);
            self.rep = Ghost(merged_reps(rep0, rb, ra));
            proof {
                lemma_link(parent0, rank0, rep0, rb, ra, rank0);
            }
        } else {
            proof {
                lemma_rank_bound(rep0, ra, rank_a);
            }
            self.parent.set(rb as usize, ra);
            self.rank.set(ra as usize, rank_a + 1);
            self.rep = Ghost(merged_reps(rep0, rb, ra));
            proof {
                lemma_link(parent0, rank0, rep0, rb, ra, self.rank@);
            }
        }
    }
}

proof fn lemma_class_count_one(ids: Seq<u32>, r: int, k: int)
    requires
        0 <= r < ids.len(),
        0 <= k <= ids.len(),
        ids.len() <= u32::MAX + 1,
        forall|x: int| 0 <= x < ids.len() ==> #[trigger] ids[x] == x,
    ensures
        class_count(ids, r as u32, k) == if r < k {
            1nat
        } else {
            0nat
        },
    decreases k,
{
    if k > 0 {
        lemma_class_count_one(ids, r, k - 1);
        assert(ids[k - 1] == k - 1);
    }
}

/// `u` and `v` are joined by an edge in either direction.
pub open spec fn touches(adj: Seq<Vec<u32>>, u: u32, v: u32) -> bool {
    ((u as int) < adj.len() && adj[u as int]@.contains(v)) || ((v as int) < adj.len()
        && adj[v as int]@.contains(u))
}

/// `p` is a walk over edges taken in either direction.
pub open spec fn is_walk(adj: Seq<Vec<u32>>, p: Seq<u32>) -> bool {
    &&& p.len() > 0
    &&& forall|i: int| 0 <= i < p.len() - 1 ==> #[trigger] touches(adj, p[i], p[i + 1])
}

/// `x` and `y` lie in the same connected component of the undirected graph.
pub open spec fn linked(adj: Seq<Vec<u32>>, x: u32, y: u32) -> bool {
    exists|p: Seq<u32>| #[trigger] is_walk(adj, p) && p[0] == x && p.last() == y
}

proof fn lemma_linked_refl(adj: Seq<Vec<u32>>, x: u32)
    ensures
        linked(adj, x, x),
{
    let p = seq![x];
    assert(is_walk(adj, p));
}

proof fn lemma_linked_sym(adj: Seq<Vec<u32>>, x: u32, y: u32)
    requires
        linked(adj, x, y),
    ensures
        linked(adj, y, x),
{
    let p = choose|p: Seq<u32>| #[trigger] is_walk(adj, p) && p[0] == x && p.last() == y;
    let q = p.reverse();
    assert forall|i: int| 0 <= i < q.len() - 1 implies #[trigger] touches(adj, q[i], q[i + 1]) by {
        let j = p.len() - 2 - i;
        assert(touches(adj, p[j], p[j + 1]));
        assert(q[i] == p[j + 1]);
        assert(q[i + 1] == p[j]);
    }
    assert(is_walk(adj, q));
}

proof fn lemma_linked_trans(adj: Seq<Vec<u32>>, x: u32, y: u32, z: u32)
    requires
        linked(adj, x, y),
        linked(adj, y, z),
    ensures
        linked(adj, x, z),
{
    let p = choose|p: Seq<u32>| #[trigger] is_walk(adj, p) && p[0] == x && p.last() == y;
    let q = choose|q: Seq<u32>| #[trigger] is_walk(adj, q) && q[0] == y && q.last() == z;
    let w = p + q.drop_first();
    assert forall|i: int| 0 <= i < w.len() - 1 implies #[trigger] touches(adj, w[i], w[i + 1]) by {
        if i < p.len() - 1 {
            assert(touches(adj, p[i], p[i + 1]));
        } else if i == p.len() - 1 {
            assert(w[i] == y);
            assert(w[i + 1] == q[1]);
            assert(touches(adj, q[0], q[1]));
        } else {
            let j = i - p.len() + 1;
            assert(w[i] == q[j]);
            assert(w[i + 1] == q[j + 1]);
            assert(touches(adj, q[j], q[j + 1]));
        }
    }
    if q.len() == 1 {
        assert(w =~= p);
    }
    assert(is_walk(adj, w));
}

proof fn lemma_linked_edge(adj: Seq<Vec<u32>>, x: u32, y: u32)
    requires
        touches(adj, x, y),
    ensures
        linked(adj, x, y),
{
    let p = seq![x, y];
    assert(is_walk(adj, p));
}

impl UnionFind {
    /// Whether `a` and `b` are in the same set.
    pub fn same_set(&mut self, a: u32, b: u32) -> (res: bool)
        requires
            old(self).wf(),
            (a as int) < old(self).size(),
            (b as int) < old(self).size(),
        ensures
            final(self).wf(),
            final(self).size() == old(self).size(),
            final(self).reps() == old(self).reps(),
            res == (old(self).reps()[a as int] == old(self).reps()[b as int]),
    {
        let ra = self.find(a);
        let rb = self.find(b);
        ra == rb
    }
}

/// The connected components of the undirected graph `neighbors` (node `i`
/// is joined to each id it lists), as disjoint sets: the two ends of every
/// edge share a set, and ids share a set only when a walk joins them.
pub fn components(neighbors: &[Vec<u32>]) -> (res: UnionFind)
    requires
        neighbors@.len() <= u32::MAX + 1,
        forall|i: int, j: int|
            0 <= i < neighbors@.len() && 0 <= j < neighbors@[i]@.len() ==> (
            #[trigger] neighbors@[i]@[j] as int) < neighbors@.len(),
    ensures
        res.wf(),
        res.size() == neighbors@.len(),
        forall|i: int, j: int|
            0 <= i < neighbors@.len() && 0 <= j < neighbors@[i]@.len() ==> res.reps()[i]
                == res.reps()[#[trigger] neighbors@[i]@[j] as int],
        forall|x: u32, y: u32|
            (x as int) < neighbors@.len() && (y as int) < neighbors@.len() && #[trigger] res.reps()[x as int]
                == #[trigger] res.reps()[y as int] ==> linked(neighbors@, x, y),
{
    let n = neighbors.len();
    let ghost adj = neighbors@;
    let mut uf = UnionFind::new(n);
    proof {
        assert forall|x: u32, y: u32|
            (x as int) < n && (y as int) < n && #[trigger] uf.reps()[x as int] == #[trigger] uf.reps()[y as int]
            implies linked(adj, x, y) by {
            assert(x == y);
            lemma_linked_refl(adj, x);
        }
    }
    let mut i: usize = 0;
    while i < n
        invariant
            adj == neighbors@,
            n == adj.len(),
            n <= u32::MAX + 1,
            forall|a: int, b: int|
                0 <= a < adj.len() && 0 <= b < adj[a]@.len() ==> (#[trigger] adj[a]@[b] as int) < adj.len(),
            i <= n,
            uf.wf(),
            uf.size() == n,
            forall|a: int, b: int|
                0 <= a < i && 0 <= b < adj[a]@.len() ==> uf.reps()[a] == uf.reps()[#[trigger] adj[a]@[b] as int],
            forall|x: u32, y: u32|
                (x as int) < n && (y as int) < n && #[trigger] uf.reps()[x as int] == #[trigger] uf.reps()[y as int]
                    ==> linked(adj, x, y),
        decreases n - i,
    {
        let list = &neighbors[i];
        let mut j: usize = 0;
        while j < list.len()
            invariant
                adj == neighbors@,
                n == adj.len(),
                n <= u32::MAX + 1,
                forall|a: int, b: int|
                    0 <= a < adj.len() && 0 <= b < adj[a]@.len() ==> (#[trigger] adj[a]@[b] as int) < adj.len(),
                i < n,
                list@ == adj[i as int]@,
                j <= list@.len(),
                uf.wf(),
                uf.size() == n,
                forall|a: int, b: int|
                    0 <= a < i && 0 <= b < adj[a]@.len() ==> uf.reps()[a] == uf.reps()[#[trigger] adj[a]@[b] as int],
                forall|b: int| 0 <= b < j ==> uf.reps()[i as int] == uf.reps()[#[trigger] adj[i as int]@[b] as int],
                forall|x: u32, y: u32|
                    (x as int) < n && (y as int) < n && #[trigger] uf.reps()[x as int] == #[trigger] uf.reps()[y as int]
                        ==> linked(adj, x, y),
            decreases list@.len() - j,
        {
            let nb = list[j];
            proof {
                assert(adj[i as int]@[j as int] == nb);
            }
            let ghost before = uf.reps();
            uf.union(i as u32, nb);
            proof {
                let ri = before[i as int];
                let rn = before[nb as int];
                let after = uf.reps();
                // Sets that were equal stay equal.
                assert forall|x: int, y: int| 0 <= x < n && 0 <= y < n && before[x] == before[y] implies after[x] == after[y] by {
                    if after == merged_reps(before, ri, rn) {
                    } else {
                        assert(after == merged_reps(before, rn, ri));
                    }
                }
                assert(after[i as int] == after[nb as int]);
                assert forall|a: int, b: int|
                    0 <= a < i && 0 <= b < adj[a]@.len() implies after[a] == after[#[trigger] adj[a]@[b] as int] by {
                    assert(before[a] == before[adj[a]@[b] as int]);
                }
                assert forall|b: int| 0 <= b < j + 1 implies after[i as int] == after[#[trigger] adj[i as int]@[b] as int] by {
                    if b < j {
                        assert(before[i as int] == before[adj[i as int]@[b] as int]);
                    }
                }
                assert forall|x: u32, y: u32|
                    (x as int) < n && (y as int) < n && #[trigger] after[x as int] == #[trigger] after[y as int]
                    implies linked(adj, x, y) by {
                    let ix = i as u32;
                    assert(touches(adj, ix, nb));
                    lemma_linked_edge(adj, ix, nb);
                    if before[x as int] == before[y as int] {
                    } else {
                        // One lies in the set of `i`, the other in the set of `nb`.
                        let xi = before[x as int] == ri;
                        assert(before[x as int] == ri || before[x as int] == rn);
                        assert(before[y as int] == ri || before[y as int] == rn);
                        if xi {
                            assert(before[y as int] == rn);
                            assert(before[x as int] == before[ix as int]);
                            assert(before[nb as int] == before[y as int]);
                            lemma_linked_trans(adj, x, ix, nb);
                            lemma_linked_trans(adj, x, nb, y);
                        } else {
                            assert(before[x as int] == rn);
                            assert(before[y as int] == ri);
                            assert(before[x as int] == before[nb as int]);
                            assert(before[ix as int] == before[y as int]);
                            lemma_linked_sym(adj, ix, nb);
                            lemma_linked_trans(adj, x, nb, ix);
                            lemma_linked_trans(adj, x, ix, y);
                        }
                    }
                }
            }
            j = j + 1;
        }
        i = i + 1;
    }
    uf
}

/// Sets that keep both ends of every edge together contain whole
/// components: nodes joined by a walk share a set. With [`components`],
/// which also puts only joined nodes together, the sets are exactly the
/// connected components.
pub proof fn lemma_linked_same_set(adj: Seq<Vec<u32>>, reps: Seq<u32>, x: u32, y: u32)
    requires
        reps.len() == adj.len(),
        forall|i: int, j: int|
            0 <= i < adj.len() && 0 <= j < adj[i]@.len() ==> (#[trigger] adj[i]@[j] as int) < adj.len(),
        forall|i: int, j: int|
            0 <= i < adj.len() && 0 <= j < adj[i]@.len() ==> reps[i] == reps[#[trigger] adj[i]@[j] as int],
        (x as int) < adj.len(),
        linked(adj, x, y),
    ensures
        (y as int) < adj.len(),
        reps[x as int] == reps[y as int],
{
    let p = choose|p: Seq<u32>| #[trigger] is_walk(adj, p) && p[0] == x && p.last() == y;
    lemma_walk_same_set(adj, reps, p, p.len() as int);
}

proof fn lemma_walk_same_set(adj: Seq<Vec<u32>>, reps: Seq<u32>, p: Seq<u32>, k: int)
    requires
        reps.len() == adj.len(),
        forall|i: int, j: int|
            0 <= i < adj.len() && 0 <= j < adj[i]@.len() ==> (#[trigger] adj[i]@[j] as int) < adj.len(),
        forall|i: int, j: int|
            0 <= i < adj.len() && 0 <= j < adj[i]@.len() ==> reps[i] == reps[#[trigger] adj[i]@[j] as int],
        is_walk(adj, p),
        (p[0] as int) < adj.len(),
        1 <= k <= p.len(),
    ensures
        (p[k - 1] as int) < adj.len(),
        reps[p[0] as int] == reps[p[k - 1] as int],
    decreases k,
{
    if k > 1 {
        lemma_walk_same_set(adj, reps, p, k - 1);
        let u = p[k - 2];
        let v = p[k - 1];
        assert(touches(adj, p[k - 2], p[(k - 2) + 1]));
        if (u as int) < adj.len() && adj[u as int]@.contains(v) {
            let j = choose|j: int| 0 <= j < adj[u as int]@.len() && adj[u as int]@[j] == v;
            assert(reps[u as int] == reps[adj[u as int]@[j] as int]);
        } else {
            let j = choose|j: int| 0 <= j < adj[v as int]@.len() && adj[v as int]@[j] == u;
            assert(reps[v as int] == reps[adj[v as int]@[j] as int]);
        }
    }
}

} // verus!
