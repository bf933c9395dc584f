//! Breadth-first reachability and hop counts over a proximity graph, the
//! integer part of graph quality analysis.
use vstd::prelude::*;

verus! {

/// The neighbor list of `u`; a node without a list has no neighbors.
pub open spec fn nbrs(adj: Seq<Vec<u32>>, u: u32) -> Seq<u32> {
    if (u as int) < adj.len() {
        adj[u as int]@
    } else {
        Seq::empty()
    }
}

/// One step from the set `s`: the ids below `n` that a member of `s` lists.
pub open spec fn step_from(adj: Seq<Vec<u32>>, n: nat, s: Set<u32>) -> Set<u32> {
    Set::new(
        |v: u32| (v as int) < n && exists|u: u32| #[trigger] s.contains(u) && nbrs(adj, u).contains(v),
    )
}

/// The nodes reachable from `entry` in at most `k` steps, moving only to ids
/// below `n`.
pub open spec fn within(adj: Seq<Vec<u32>>, n: nat, entry: u32, k: nat) -> Set<u32>
    decreases k,
{
    if k == 0 {
        set![entry]
    } else {
        let prev = within(adj, n, entry, (k - 1) as nat);
        prev.union(step_from(adj, n, prev))
    }
}

/// The nodes reachable from `entry` in any number of steps.
pub open spec fn reached(adj: Seq<Vec<u32>>, n: nat, entry: u32) -> Set<u32> {
    Set::new(|v: u32| exists|k: nat| #[trigger] within(adj, n, entry, k).contains(v))
}

/// `k` is the length of a shortest walk from `entry` to `v`.
pub open spec fn is_hop_count(adj: Seq<Vec<u32>>, n: nat, entry: u32, v: u32, k: nat) -> bool {
    &&& within(adj, n, entry, k).contains(v)
    &&& forall|j: nat| j < k ==> !(#[trigger] within(adj, n, entry, j)).contains(v)
}

/// Number of steps on a shortest walk from `entry` to `v`.
pub open spec fn hops(adj: Seq<Vec<u32>>, n: nat, entry: u32, v: u32) -> nat {
    choose|k: nat| is_hop_count(adj, n, entry, v, k)
}

/// Sum of the shortest hop counts of the reachable ids below `m`.
pub open spec fn hop_total(adj: Seq<Vec<u32>>, n: nat, entry: u32, m: int) -> nat
    decreases m,
{
    if m <= 0 {
        0
    } else {
        hop_total(adj, n, entry, m - 1) + if reached(adj, n, entry).contains((m - 1) as u32) {
            hops(adj, n, entry, (m - 1) as u32)
        } else {
            0
        }
    }
}

/// Number of neighbor entries of the nodes below `m`.
pub open spec fn edge_total(adj: Seq<Vec<u32>>, m: int) -> nat
    decreases m,
{
    if m <= 0 {
        0
    } else {
        edge_total(adj, m - 1) + nbrs(adj, (m - 1) as u32).len()
    }
}

/// Integer measures of a graph seen from its entry point.
#[derive(Debug, Clone, Copy, PartialEq, Eq, Structural)]
pub struct GraphCounts {
    /// Number of nodes in the graph.
    pub num_nodes: usize,
    /// Number of directed edges (neighbor entries) of the nodes.
    pub num_edges: usize,
    /// Nodes reachable from the entry point, the entry point included.
    pub reachable_count: usize,
    /// Nodes not reachable from the entry point.
    pub unreachable_count: usize,
    /// Sum over reachable nodes of the length of a shortest path from the
    /// entry point, in hops.
    pub total_path_length: u64,
}

proof fn lemma_within_grows(adj: Seq<Vec<u32>>, n: nat, entry: u32, j: nat, k: nat)
    requires
        j <= k,
    ensures
        within(adj, n, entry, j).subset_of(within(adj, n, entry, k)),
    decreases k - j,
{
    if j < k {
        lemma_within_grows(adj, n, entry, j, (k - 1) as nat);
    }
}

proof fn lemma_within_bounded(adj: Seq<Vec<u32>>, n: nat, entry: u32, k: nat)
    requires
        (entry as int) < n,
    ensures
        forall|v: u32| #[trigger] within(adj, n, entry, k).contains(v) ==> (v as int) < n,
    decreases k,
{
    if k > 0 {
        lemma_within_bounded(adj, n, entry, (k - 1) as nat);
        let prev = within(adj, n, entry, (k - 1) as nat);
        assert forall|v: u32| #[trigger] within(adj, n, entry, k).contains(v) implies (v as int) < n by {
            if !prev.contains(v) {
                assert(step_from(adj, n, prev).contains(v));
            }
        }
    } else {
        assert forall|v: u32| #[trigger] within(adj, n, entry, k).contains(v) implies (v as int) < n by {
            assert(set![entry].contains(v) ==> v == entry);
        }
    }
}

proof fn lemma_within_stable(adj: Seq<Vec<u32>>, n: nat, entry: u32, l: nat, k: nat)
    requires
        l <= k,
        within(adj, n, entry, l + 1) == within(adj, n, entry, l),
    ensures
        within(adj, n, entry, k) == within(adj, n, entry, l),
    decreases k - l,
{
    if l < k {
        lemma_within_stable(adj, n, entry, l, (k - 1) as nat);
        assert(within(adj, n, entry, k) == within(adj, n, entry, (k - 1) as nat).union(
            step_from(adj, n, within(adj, n, entry, (k - 1) as nat)),
        ));
    }
}

proof fn lemma_hops_is(adj: Seq<Vec<u32>>, n: nat, entry: u32, v: u32, k: nat)
    requires
        is_hop_count(adj, n, entry, v, k),
    ensures
        hops(adj, n, entry, v) == k,
{
    let h = hops(adj, n, entry, v);
    assert(is_hop_count(adj, n, entry, v, h));
    if h < k {
        assert(!within(adj, n, entry, h).contains(v));
    }
    if k < h {
        assert(!within(adj, n, entry, k).contains(v));
    }
}

/// Number of `true` entries among the first `m`.
spec fn count_true(s: Seq<bool>, m: int) -> nat
    decreases m,
{
    if m <= 0 {
        0
    } else {
        count_true(s, m - 1) + if s[m - 1] {
            1nat
        } else {
            0nat
        }
    }
}

proof fn lemma_count_true_set(s: Seq<bool>, m: int, v: int)
    requires
        0 <= v < s.len(),
        0 <= m <= s.len(),
        !s[v],
    ensures
        count_true(s.update(v, true), m) == count_true(s, m) + if v < m {
            1nat
        } else {
            0nat
        },
    decreases m,
{
    if m > 0 {
        lemma_count_true_set(s, m - 1, v);
    }
}

proof fn lemma_count_true_bound(s: Seq<bool>, m: int)
    requires
        0 <= m <= s.len(),
    ensures
        count_true(s, m) <= m,
    decreases m,
{
    if m > 0 {
        lemma_count_true_bound(s, m - 1);
    }
}

/// Count of the ids below `m` in `set`.
proof fn lemma_count_true_is_len(s: Seq<bool>, set: Set<u32>, m: int)
    requires
        0 <= m <= s.len(),
        s.len() <= u32::MAX + 1,
        forall|v: u32| (v as int) < s.len() ==> (s[v as int] <==> #[trigger] set.contains(v)),
    ensures
        Set::new(|v: u32| (v as int) < m && set.contains(v)).finite(),
        Set::new(|v: u32| (v as int) < m && set.contains(v)).len() == count_true(s, m),
    decreases m,
{
    let cur = Set::new(|v: u32| (v as int) < m && set.contains(v));
    if m == 0 {
        assert(cur =~= Set::empty());
    } else {
        lemma_count_true_is_len(s, set, m - 1);
        let prev = Set::new(|v: u32| (v as int) < m - 1 && set.contains(v));
        let w = (m - 1) as u32;
        if s[m - 1] {
            assert(cur =~= prev.insert(w));
        } else {
            assert(cur =~= prev);
        }
    }
}

/// Sum of `hops` over the ids below `m` marked in `s`.
spec fn marked_hops(adj: Seq<Vec<u32>>, n: nat, entry: u32, s: Seq<bool>, m: int) -> nat
    decreases m,
{
    if m <= 0 {
        0
    } else {
        marked_hops(adj, n, entry, s, m - 1) + if s[m - 1] {
            hops(adj, n, entry, (m - 1) as u32)
        } else {
            0
        }
    }
}

proof fn lemma_marked_hops_set(adj: Seq<Vec<u32>>, n: nat, entry: u32, s: Seq<bool>, m: int, v: int)
    requires
        0 <= v < s.len(),
        0 <= m <= s.len(),
        !s[v],
    ensures
        marked_hops(adj, n, entry, s.update(v, true), m) == marked_hops(adj, n, entry, s, m) + if v
            < m {
            hops(adj, n, entry, v as u32)
        } else {
            0
        },
    decreases m,
{
    if m > 0 {
        lemma_marked_hops_set(adj, n, entry, s, m - 1, v);
    }
}

proof fn lemma_marked_hops_total(adj: Seq<Vec<u32>>, n: nat, entry: u32, s: Seq<bool>, m: int)
    requires
        0 <= m <= s.len(),
        s.len() <= u32::MAX + 1,
        forall|v: u32| (v as int) < s.len() ==> (s[v as int] <==> #[trigger] reached(adj, n, entry).contains(v)),
    ensures
        marked_hops(adj, n, entry, s, m) == hop_total(adj, n, entry, m),
    decreases m,
{
    if m > 0 {
        lemma_marked_hops_total(adj, n, entry, s, m - 1);
        assert(s[m - 1] <==> reached(adj, n, entry).contains((m - 1) as u32));
    }
}

/// `v` is below `n` and is listed by one of `f[0..i]`, or by `f[i]` among its
/// first `j` neighbors.
spec fn found_from(adj: Seq<Vec<u32>>, n: nat, f: Seq<u32>, i: int, j: int, v: u32) -> bool {
    (v as int) < n && ((exists|a: int| 0 <= a < i && #[trigger] nbrs(adj, f[a]).contains(v)) || (0
        <= i < f.len() && nbrs(adj, f[i]).subrange(0, j).contains(v)))
}

/// The nodes first reached after exactly `k` steps.
spec fn ring(adj: Seq<Vec<u32>>, n: nat, entry: u32, k: nat, v: u32) -> bool {
    within(adj, n, entry, k).contains(v) && (k == 0 || !within(adj, n, entry, (k - 1) as nat).contains(v))
}

/// The next ring is what the current ring lists, outside what is already
/// reached.
proof fn lemma_next_ring(adj: Seq<Vec<u32>>, n: nat, entry: u32, k: nat, f: Seq<u32>, v: u32)
    requires
        forall|u: u32| #[trigger] f.contains(u) <==> ring(adj, n, entry, k, u),
    ensures
        within(adj, n, entry, k + 1).contains(v) <==> (within(adj, n, entry, k).contains(v)
            || found_from(adj, n, f, f.len() as int, 0, v)),
{
    let wk = within(adj, n, entry, k);
    assert(within(adj, n, entry, k + 1) == wk.union(step_from(adj, n, wk)));
    if step_from(adj, n, wk).contains(v) && !wk.contains(v) {
        let u = choose|u: u32| #[trigger] wk.contains(u) && nbrs(adj, u).contains(v);
        if k > 0 {
            let wp = within(adj, n, entry, (k - 1) as nat);
            if wp.contains(u) {
                assert(step_from(adj, n, wp).contains(v));
                assert(wk == wp.union(step_from(adj, n, wp)));
            }
        }
        assert(ring(adj, n, entry, k, u));
        assert(f.contains(u));
        let a = choose|a: int| 0 <= a < f.len() && f[a] == u;
        assert(nbrs(adj, f[a]).contains(v));
    }
    if found_from(adj, n, f, f.len() as int, 0, v) {
        let a = choose|a: int| 0 <= a < f.len() && #[trigger] nbrs(adj, f[a]).contains(v);
        assert(f.contains(f[a]));
        assert(wk.contains(f[a]));
        assert(step_from(adj, n, wk).contains(v));
    }
}

/// Count the nodes and edges of a graph and, by a breadth-first walk from
/// `entry_point`, the reachable nodes and the sum of their shortest hop
/// distances. Ids at or above `num_nodes` are ignored; a node without a list
/// in `adjacency` has no neighbors. With no nodes every count is zero.
pub fn count_graph(entry_point: u32, num_nodes: usize, adjacency: &[Vec<u32>]) -> (res: GraphCounts)
    requires
        num_nodes > 0 ==> (entry_point as int) < num_nodes,
        num_nodes <= u32::MAX,
        edge_total(adjacency@, num_nodes as int) <= usize::MAX,
    ensures
        res.num_nodes == num_nodes,
        res.num_edges == edge_total(adjacency@, num_nodes as int),
        num_nodes == 0 ==> res.reachable_count == 0 && res.unreachable_count == 0
            && res.total_path_length == 0,
        num_nodes > 0 ==> {
            let r = reached(adjacency@, num_nodes as nat, entry_point);
            &&& r.finite()
            &&& res.reachable_count == r.len()
            &&& res.unreachable_count == num_nodes - r.len()
            &&& res.total_path_length == hop_total(adjacency@, num_nodes as nat, entry_point, num_nodes as int)
        },
{
    let num_edges = count_edges(adjacency, num_nodes);
    if num_nodes == 0 {
        return GraphCounts {
            num_nodes: 0,
            num_edges,
            reachable_count: 0,
            unreachable_count: 0,
            total_path_length: 0,
        };
    }
    let (reachable_count, total_path_length) = walk_levels(entry_point, num_nodes, adjacency);
    proof {
        lemma_reached_bounded(adjacency@, num_nodes as nat, entry_point);
    }
    GraphCounts {
        num_nodes,
        num_edges,
        reachable_count,
        unreachable_count: num_nodes - reachable_count,
        total_path_length,
    }
}

proof fn lemma_reached_bounded(adj: Seq<Vec<u32>>, n: nat, entry: u32)
    requires
        (entry as int) < n,
        n <= u32::MAX,
        reached(adj, n, entry).finite(),
    ensures
        reached(adj, n, entry).len() <= n,
{
    let r = reached(adj, n, entry);
    let all = Set::new(|v: u32| (v as int) < n);
    assert forall|v: u32| #[trigger] r.contains(v) implies all.contains(v) by {
        let k = choose|k: nat| #[trigger] within(adj, n, entry, k).contains(v);
        lemma_within_bounded(adj, n, entry, k);
    }
    let s = Seq::new(n, |i: int| true);
    lemma_count_true_is_len(s, all, n as int);
    assert(Set::new(|v: u32| (v as int) < n && all.contains(v)) =~= all);
    lemma_count_true_bound(s, n as int);
    vstd::set_lib::lemma_len_subset(r, all);
}

fn count_edges(adjacency: &[Vec<u32>], num_nodes: usize) -> (res: usize)
    requires
        num_nodes <= u32::MAX,
        edge_total(adjacency@, num_nodes as int) <= usize::MAX,
    ensures
        res == edge_total(adjacency@, num_nodes as int),
{
    let mut total: usize = 0;
    let mut u: usize = 0;
    while u < num_nodes
        invariant
            u <= num_nodes,
            num_nodes <= u32::MAX,
            edge_total(adjacency@, num_nodes as int) <= usize::MAX,
            total == edge_total(adjacency@, u as int),
        decreases num_nodes - u,
    {
        proof {
            lemma_edge_total_mono(adjacency@, u as int + 1, num_nodes as int);
            assert((u as u32) as int == u as int);
            assert(edge_total(adjacency@, u as int + 1) == edge_total(adjacency@, u as int) + nbrs(
                adjacency@,
                u as u32,
            ).len());
        }
        if u < adjacency.len() {
            total = total + adjacency[u].len();
        }
        u = u + 1;
    }
    total
}

proof fn lemma_edge_total_mono(adj: Seq<Vec<u32>>, a: int, b: int)
    requires
        a <= b,
    ensures
        edge_total(adj, a) <= edge_total(adj, b),
    decreases b - a,
{
    if a < b {
        lemma_edge_total_mono(adj, a, b - 1);
    }
}

proof fn lemma_all_false(adj: Seq<Vec<u32>>, n: nat, entry: u32, s: Seq<bool>, m: int)
    requires
        0 <= m <= s.len(),
        forall|i: int| 0 <= i < s.len() ==> !s[i],
    ensures
        count_true(s, m) == 0,
        marked_hops(adj, n, entry, s, m) == 0,
    decreases m,
{
    if m > 0 {
        lemma_all_false(adj, n, entry, s, m - 1);
    }
}

/// Breadth-first walk from `entry`, one ring at a time: the number of
/// reachable nodes and the sum of their shortest hop distances.
fn walk_levels(entry: u32, n: usize, adjacency: &[Vec<u32>]) -> (res: (usize, u64))
    requires
        0 < n <= u32::MAX,
        (entry as int) < n,
    ensures
        reached(adjacency@, n as nat, entry).finite(),
        res.0 == reached(adjacency@, n as nat, entry).len(),
        res.1 == hop_total(adjacency@, n as nat, entry, n as int),
{
    let ghost adj = adjacency@;
    let ghost nn = n as nat;
    let mut visited: Vec<bool> = vec![false; n];
    proof {
        lemma_all_false(adj, nn, entry, visited@, n as int);
        lemma_count_true_set(visited@, n as int, entry as int);
        lemma_marked_hops_set(adj, nn, entry, visited@, n as int, entry as int);
        assert(is_hop_count(adj, nn, entry, entry, 0));
        lemma_hops_is(adj, nn, entry, entry, 0);
    }
    visited.set(entry as usize, true);
    let mut frontier: Vec<u32> = Vec::new();
    frontier.push(entry);
    let mut level: u64 = 0;
    let mut reachable: usize = 1;
    let mut total: u64 = 0;
    proof {
        assert forall|v: u32| (v as int) < n implies (visited@[v as int] <==> #[trigger] within(
            adj,
            nn,
            entry,
            0,
        ).contains(v)) by {
            assert(within(adj, nn, entry, 0) == set![entry]);
        }
        assert forall|u: u32| #[trigger] frontier@.contains(u) <==> ring(adj, nn, entry, 0, u) by {
            assert(within(adj, nn, entry, 0) == set![entry]);
            if u == entry {
                assert(frontier@[0] == u);
            }
        }
    }
    while frontier.len() > 0
        invariant
            adj == adjacency@,
            nn == n as nat,
            0 < n <= u32::MAX,
            (entry as int) < n,
            visited@.len() == n,
            forall|v: u32|
                (v as int) < n ==> (visited@[v as int] <==> #[trigger] within(
                    adj,
                    nn,
                    entry,
                    level as nat,
                ).contains(v)),
            frontier@.no_duplicates(),
            forall|u: u32| #[trigger] frontier@.contains(u) <==> ring(adj, nn, entry, level as nat, u),
            reachable == count_true(visited@, n as int),
            total == marked_hops(adj, nn, entry, visited@, n as int),
            level <= reachable,
            frontier@.len() > 0 ==> level < reachable,
            total <= reachable * level,
            reachable <= n,
        decreases 2 * (n - reachable) + if frontier@.len() > 0 {
            1int
        } else {
            0int
        },
    {
        let ghost lvl = level as nat;
        let ghost f = frontier@;
        let ghost start_reachable = reachable;
        let mut next: Vec<u32> = Vec::new();
        let mut i: usize = 0;
        proof {
            assert(total <= reachable * (level + 1)) by (nonlinear_arith)
                requires
                    total <= reachable * level,
            ;
            assert forall|v: u32| (v as int) < n implies (visited@[v as int] <==> (within(adj, nn, entry, lvl).contains(v)
                || found_from(adj, nn, f, 0, 0, v))) by {
                assert(within(adj, nn, entry, lvl).contains(v) == visited@[v as int]);
            }
        }
        while i < frontier.len()
            invariant
                adj == adjacency@,
                nn == n as nat,
                0 < n <= u32::MAX,
                lvl == level as nat,
                f == frontier@,
                i <= f.len(),
                visited@.len() == n,
                forall|u: u32| #[trigger] f.contains(u) <==> ring(adj, nn, entry, lvl, u),
                forall|v: u32|
                    (v as int) < n ==> (visited@[v as int] <==> (within(adj, nn, entry, lvl).contains(v)
                        || found_from(adj, nn, f, i as int, 0, v))),
                next@.no_duplicates(),
                forall|v: u32|
                    #[trigger] next@.contains(v) <==> ((v as int) < n && visited@[v as int]
                        && !within(adj, nn, entry, lvl).contains(v)),
                reachable == count_true(visited@, n as int),
                reachable == start_reachable + next@.len(),
                total == marked_hops(adj, nn, entry, visited@, n as int),
                total <= reachable * (level + 1),
                level < start_reachable,
                reachable <= n,
            decreases f.len() - i,
        {
            let u = frontier[i];
            let ghost vis_i = visited@;
            if (u as usize) < adjacency.len() {
                let list = &adjacency[u as usize];
                let mut j: usize = 0;
                while j < list.len()
                    invariant
                        adj == adjacency@,
                        nn == n as nat,
                        0 < n <= u32::MAX,
                        lvl == level as nat,
                        f == frontier@,
                        i < f.len(),
                        u == f[i as int],
                        list@ == nbrs(adj, u),
                        j <= list@.len(),
                        visited@.len() == n,
                        forall|u: u32| #[trigger] f.contains(u) <==> ring(adj, nn, entry, lvl, u),
                        forall|v: u32|
                            (v as int) < n ==> (visited@[v as int] <==> (within(
                                adj,
                                nn,
                                entry,
                                lvl,
                            ).contains(v) || found_from(adj, nn, f, i as int, j as int, v))),
                        next@.no_duplicates(),
                        forall|v: u32|
                            #[trigger] next@.contains(v) <==> ((v as int) < n && visited@[v as int]
                                && !within(adj, nn, entry, lvl).contains(v)),
                        reachable == count_true(visited@, n as int),
                        reachable == start_reachable + next@.len(),
                        total == marked_hops(adj, nn, entry, visited@, n as int),
                        total <= reachable * (level + 1),
                        level < start_reachable,
                        reachable <= n,
                    decreases list@.len() - j,
                {
                    let v = list[j];
                    proof {
                        assert(nbrs(adj, u).subrange(0, j as int + 1) =~= nbrs(adj, u).subrange(
                            0,
                            j as int,
                        ).push(v));
                    }
                    if (v as usize) < n && !visited[v as usize] {
                        let ghost before = visited@;
                        proof {
                            // v is first reached at the next ring.
                            assert(nbrs(adj, f[i as int]).contains(v)) by {
                                assert(nbrs(adj, u)[j as int] == v);
                            }
                            assert(found_from(adj, nn, f, f.len() as int, 0, v));
                            lemma_next_ring(adj, nn, entry, lvl, f, v);
                            assert forall|k: nat| k < lvl + 1 implies !(#[trigger] within(
                                adj,
                                nn,
                                entry,
                                k,
                            )).contains(v) by {
                                lemma_within_grows(adj, nn, entry, k, lvl);
                            }
                            assert(is_hop_count(adj, nn, entry, v, lvl + 1));
                            lemma_hops_is(adj, nn, entry, v, lvl + 1);
                            lemma_count_true_set(before, n as int, v as int);
                            lemma_marked_hops_set(adj, nn, entry, before, n as int, v as int);
                            lemma_count_true_bound(before.update(v as int, true), n as int);
                            assert(!next@.contains(v));
                            assert(total + level + 1 <= (reachable + 1) * (level + 1))
                                by (nonlinear_arith)
                                requires
                                    total <= reachable * (level + 1),
                            ;
                            assert((reachable + 1) * (level + 1) <= (n as int) * (n as int))
                                by (nonlinear_arith)
                                requires
                                    reachable + 1 <= n,
                                    level + 1 <= n,
                            ;
                            assert((n as int) * (n as int) <= u64::MAX) by (nonlinear_arith)
                                requires
                                    n <= u32::MAX,
                            ;
                        }
                        visited.set(v as usize, true);
                        let ghost prev_next = next@;
                        next.push(v);
                        reachable = reachable + 1;
                        total = total + level + 1;
                        proof {
                            assert forall|w: u32| #[trigger] next@.contains(w) <==> ((w as int) < n
                                && visited@[w as int] && !within(adj, nn, entry, lvl).contains(w)) by {
                                if w != v {
                                    if next@.contains(w) {
                                        let k = choose|k: int| 0 <= k < next@.len() && next@[k] == w;
                                        assert(prev_next[k] == w);
                                    }
                                    if prev_next.contains(w) {
                                        let k = choose|k: int| 0 <= k < prev_next.len() && prev_next[k] == w;
                                        assert(next@[k] == w);
                                    }
                                } else {
                                    assert(next@[prev_next.len() as int] == w);
                                }
                            }
                            assert(next@.no_duplicates()) by {
                                assert forall|a: int, b: int|
                                    0 <= a < b < next@.len() implies next@[a] != next@[b] by {
                                    if b == prev_next.len() && next@[a] == v {
                                        assert(prev_next.contains(v));
                                    }
                                }
                            }
                        }
                    }
                    proof {
                        let pre = nbrs(adj, u).subrange(0, j as int);
                        assert forall|w: u32| #[trigger] nbrs(adj, u).subrange(0, j as int + 1).contains(w)
                            <==> (pre.contains(w) || w == v) by {
                            let post = nbrs(adj, u).subrange(0, j as int + 1);
                            if pre.contains(w) {
                                let k = choose|k: int| 0 <= k < pre.len() && pre[k] == w;
                                assert(post[k] == w);
                            }
                            if w == v {
                                assert(post[j as int] == w);
                            }
                            if post.contains(w) && w != v {
                                let k = choose|k: int| 0 <= k < post.len() && post[k] == w;
                                assert(pre[k] == w);
                            }
                        }
                    }
                    j = j + 1;
                }
                proof {
                    assert(nbrs(adj, u).subrange(0, list@.len() as int) =~= nbrs(adj, u));
                    assert forall|v: u32| (v as int) < n implies (visited@[v as int] <==> (within(
                        adj,
                        nn,
                        entry,
                        lvl,
                    ).contains(v) || found_from(adj, nn, f, i as int + 1, 0, v))) by {
                        if found_from(adj, nn, f, i as int, list@.len() as int, v) && !(exists|a: int|
                            0 <= a < i && #[trigger] nbrs(adj, f[a]).contains(v)) {
                            assert(nbrs(adj, f[i as int]).contains(v));
                        }
                        if found_from(adj, nn, f, i as int + 1, 0, v) {
                            let a = choose|a: int| 0 <= a < i + 1 && #[trigger] nbrs(adj, f[a]).contains(v);
                            if a == i {
                                assert(nbrs(adj, f[i as int]).subrange(0, list@.len() as int).contains(v));
                            }
                        }
                    }
                }
            } else {
                proof {
                    assert forall|v: u32| (v as int) < n implies (visited@[v as int] <==> (within(
                        adj,
                        nn,
                        entry,
                        lvl,
                    ).contains(v) || found_from(adj, nn, f, i as int + 1, 0, v))) by {
                        if found_from(adj, nn, f, i as int + 1, 0, v) {
                            let a = choose|a: int| 0 <= a < i + 1 && #[trigger] nbrs(adj, f[a]).contains(v);
                            if a == i {
                                assert(nbrs(adj, f[i as int]) =~= Seq::<u32>::empty());
                            }
                        }
                        if found_from(adj, nn, f, i as int, 0, v) {
                            assert(nbrs(adj, f[i as int]).subrange(0, 0) =~= Seq::<u32>::empty());
                        }
                    }
                }
            }
            i = i + 1;
        }
        proof {
            assert forall|v: u32| (v as int) < n implies (visited@[v as int] <==> #[trigger] within(
                adj,
                nn,
                entry,
                lvl + 1,
            ).contains(v)) by {
                lemma_next_ring(adj, nn, entry, lvl, f, v);
            }
            lemma_within_bounded(adj, nn, entry, lvl + 1);
            assert forall|v: u32| #[trigger] next@.contains(v) <==> ring(adj, nn, entry, lvl + 1, v) by {
                if within(adj, nn, entry, lvl + 1).contains(v) {
                    assert((v as int) < n);
                }
            }
        }
        frontier = next;
        level = level + 1;
    }
    proof {
        let lvl = level as nat;
        if lvl == 0 {
            assert(within(adj, nn, entry, 0) == set![entry]);
            assert(ring(adj, nn, entry, 0, entry));
            assert(frontier@.contains(entry));
        }
        assert(lvl >= 1);
        let prev = (lvl - 1) as nat;
        lemma_within_grows(adj, nn, entry, prev, lvl);
        assert forall|v: u32| #[trigger] within(adj, nn, entry, lvl).contains(v) implies within(
            adj,
            nn,
            entry,
            prev,
        ).contains(v) by {
            assert(!frontier@.contains(v));
        }
        assert(within(adj, nn, entry, prev + 1) =~= within(adj, nn, entry, prev));
        let r = reached(adj, nn, entry);
        assert forall|v: u32| #[trigger] r.contains(v) <==> within(adj, nn, entry, lvl).contains(v) by {
            if r.contains(v) {
                let k = choose|k: nat| #[trigger] within(adj, nn, entry, k).contains(v);
                if k <= lvl {
                    lemma_within_grows(adj, nn, entry, k, lvl);
                } else {
                    lemma_within_stable(adj, nn, entry, prev, k);
                }
            }
            if within(adj, nn, entry, lvl).contains(v) {
                assert(within(adj, nn, entry, lvl).contains(v));
            }
        }
        lemma_within_bounded(adj, nn, entry, lvl);
        lemma_count_true_is_len(visited@, r, n as int);
        assert(Set::new(|v: u32| (v as int) < n && r.contains(v)) =~= r);
        lemma_marked_hops_total(adj, nn, entry, visited@, n as int);
    }
    (reachable, total)
}

/// Number of targets checked when validating search paths: the requested
/// sample, capped at the node count.
pub open spec fn msp_sample_len(num_nodes: nat, sample_size: nat) -> nat {
    if sample_size < num_nodes {
        sample_size
    } else {
        num_nodes
    }
}

/// Spacing between sampled targets: `num_nodes / sample`, at least one.
pub open spec fn msp_step(num_nodes: nat, sample_size: nat) -> nat {
    let s = msp_sample_len(num_nodes, sample_size);
    if s == 0 || num_nodes / s == 0 {
        1
    } else {
        num_nodes / s
    }
}

/// The evenly spaced target ids used to validate monotonic search paths:
/// target `k` is `k * step`, capped at the last node.
pub fn msp_sample_targets(num_nodes: usize, sample_size: usize) -> (res: Vec<u32>)
    requires
        num_nodes <= u32::MAX,
    ensures
        res@.len() == msp_sample_len(num_nodes as nat, sample_size as nat),
        forall|k: int|
            0 <= k < res@.len() ==> {
                let t = k * msp_step(num_nodes as nat, sample_size as nat);
                #[trigger] res@[k] as int == if t < num_nodes - 1 {
                    t
                } else {
                    num_nodes - 1
                }
            },
{
    let sample = if sample_size < num_nodes {
        sample_size
    } else {
        num_nodes
    };
    let step = if sample == 0 || num_nodes / sample == 0 {
        1
    } else {
        num_nodes / sample
    };
    let mut targets: Vec<u32> = Vec::new();
    let mut k: usize = 0;
    while k < sample
        invariant
            sample == msp_sample_len(num_nodes as nat, sample_size as nat),
            step == msp_step(num_nodes as nat, sample_size as nat),
            sample <= num_nodes,
            num_nodes <= u32::MAX,
            k <= sample,
            targets@.len() == k,
            forall|i: int|
                0 <= i < k ==> {
                    let t = i * step;
                    #[trigger] targets@[i] as int == if t < num_nodes - 1 {
                        t
                    } else {
                        num_nodes - 1
                    }
                },
        decreases sample - k,
    {
        proof {
            assert(k * step <= num_nodes) by (nonlinear_arith)
                requires
                    k < sample,
                    sample <= num_nodes,
                    step == 1 || (step == num_nodes / sample && sample > 0),
            ;
        }
        let t = k * step;
        let last = num_nodes - 1;
        let target = if t < last {
            t as u32
        } else {
            last as u32
        };
        targets.push(target);
        k = k + 1;
    }
    targets
}

} // verus!
