//! Reachability over a proximity graph whose nodes may be deleted.
use crate::construction::list_views;
use std::collections::HashSet;
use vstd::prelude::*;

verus! {

broadcast use vstd::std_specs::hash::group_hash_axioms;

/// `x` is not deleted. Ids past the end of the flags carry no flag and
/// count as not deleted.
pub open spec fn is_live(deleted: Seq<bool>, x: u32) -> bool {
    (x as int) >= deleted.len() || !deleted[x as int]
}

/// The neighbor list of `a` contains `b`.
pub open spec fn has_edge(adj: Seq<Vec<u32>>, a: u32, b: u32) -> bool {
    (a as int) < adj.len() && adj[a as int]@.contains(b)
}

/// Every neighbor id names a node of the graph.
pub open spec fn ids_in_range(adj: Seq<Vec<u32>>) -> bool {
    forall|i: int, j: int|
        0 <= i < adj.len() && 0 <= j < adj[i]@.len() ==> (#[trigger] adj[i]@[j] as int) < adj.len()
}

/// A non-empty walk along edges that only visits live nodes.
pub open spec fn is_live_path(adj: Seq<Vec<u32>>, deleted: Seq<bool>, p: Seq<u32>) -> bool {
    &&& p.len() > 0
    &&& forall|i: int| 0 <= i < p.len() ==> is_live(deleted, #[trigger] p[i])
    &&& forall|i: int| 0 <= i < p.len() - 1 ==> #[trigger] has_edge(adj, p[i], p[i + 1])
}

/// The live nodes reachable from `entry` through live nodes only (empty when
/// `entry` itself is deleted).
pub open spec fn reachable_from(adj: Seq<Vec<u32>>, deleted: Seq<bool>, entry: u32) -> Set<u32> {
    Set::new(
        |x: u32|
            exists|p: Seq<u32>| #[trigger]
                is_live_path(adj, deleted, p) && p[0] == entry && p.last() == x,
    )
}

/// Number of non-deleted ids among `0..k`.
pub open spec fn live_count(deleted: Seq<bool>, k: int) -> nat
    decreases k,
{
    if k <= 0 {
        0
    } else {
        live_count(deleted, k - 1) + if is_live(deleted, (k - 1) as u32) {
            1nat
        } else {
            0nat
        }
    }
}

pub(crate) proof fn lemma_path_extend(adj: Seq<Vec<u32>>, deleted: Seq<bool>, p: Seq<u32>, w: u32)
    requires
        is_live_path(adj, deleted, p),
        has_edge(adj, p.last(), w),
        is_live(deleted, w),
    ensures
        is_live_path(adj, deleted, p.push(w)),
        p.push(w)[0] == p[0],
        p.push(w).last() == w,
{
    let q = p.push(w);
    assert forall|i: int| 0 <= i < q.len() implies is_live(deleted, #[trigger] q[i]) by {
        if i < p.len() {
            assert(q[i] == p[i]);
        }
    }
    assert forall|i: int| 0 <= i < q.len() - 1 implies #[trigger] has_edge(adj, q[i], q[i + 1]) by {
        if i < p.len() - 1 {
            assert(q[i] == p[i] && q[i + 1] == p[i + 1]);
        } else {
            assert(q[i] == p.last());
        }
    }
}

/// Every node of a live path from `entry` lies in a set that holds `entry`
/// and is closed under edges to live nodes.
pub(crate) proof fn lemma_closed_set_holds_path(
    adj: Seq<Vec<u32>>,
    deleted: Seq<bool>,
    vis: Set<u32>,
    p: Seq<u32>,
)
    requires
        is_live_path(adj, deleted, p),
        vis.contains(p[0]),
        forall|v: u32, w: u32|
            vis.contains(v) && #[trigger] has_edge(adj, v, w) && is_live(deleted, w)
                ==> vis.contains(w),
    ensures
        vis.contains(p.last()),
    decreases p.len(),
{
    if p.len() > 1 {
        let q = p.drop_last();
        assert forall|i: int| 0 <= i < q.len() implies is_live(deleted, #[trigger] q[i]) by {
            assert(q[i] == p[i]);
        }
        assert forall|i: int| 0 <= i < q.len() - 1 implies #[trigger] has_edge(
            adj,
            q[i],
            q[i + 1],
        ) by {
            assert(q[i] == p[i] && q[i + 1] == p[i + 1]);
            assert(has_edge(adj, p[i], p[i + 1]));
        }
        lemma_closed_set_holds_path(adj, deleted, vis, q);
        let k = p.len() - 2;
        assert(has_edge(adj, p[k], p[k + 1]));
        assert(q.last() == p[k]);
    }
}

/// Which nodes the walk from `entry_point` over live nodes reaches:
/// `res.0[x]` exactly when `x` is reachable, and `res.1` how many are.
pub fn reachable_flags(entry_point: u32, adjacency: &[Vec<u32>], deleted: &[bool]) -> (res: (
    Vec<bool>,
    usize,
))
    requires
        deleted@.len() == adjacency@.len(),
        (entry_point as int) < adjacency@.len(),
        ids_in_range(adjacency@),
    ensures
        res.0@.len() == adjacency@.len(),
        forall|x: u32|
            (x as int) < adjacency@.len() ==> (#[trigger] res.0@[x as int] <==> reachable_from(
                adjacency@,
                deleted@,
                entry_point,
            ).contains(x)),
        forall|x: u32| #[trigger]
            reachable_from(adjacency@, deleted@, entry_point).contains(x) ==> (x as int)
                < adjacency@.len(),
        res.1 == reachable_from(adjacency@, deleted@, entry_point).len(),
{
    let n = adjacency.len();
    let ghost adj = adjacency@;
    let ghost del = deleted@;
    let ghost reach = reachable_from(adj, del, entry_point);
    let mut visited: Vec<bool> = vec![false; n];
    let mut count: usize = 0;
    let ghost mut vis: Set<u32> = Set::empty();
    let mut stack: Vec<u32> = Vec::new();
    stack.push(entry_point);
    assert(stack@[0] == entry_point);

    while stack.len() > 0
        invariant
            n == adj.len(),
            n == del.len(),
            adj == adjacency@,
            del == deleted@,
            reach == reachable_from(adj, del, entry_point),
            ids_in_range(adj),
            (entry_point as int) < n,
            visited@.len() == n,
            forall|x: u32| #![trigger vis.contains(x)] #![trigger visited@[x as int]] vis.contains(x) <==> ((x as int) < n && visited@[x as int]),
            vis.finite(),
            vis.len() == count,
            count <= n,
            forall|x: u32| vis.contains(x) ==> #[trigger] reach.contains(x),
            forall|i: int|
                0 <= i < stack@.len() ==> #[trigger] stack@[i] == entry_point || reach.contains(
                    stack@[i],
                ),
            forall|i: int| 0 <= i < stack@.len() ==> (#[trigger] stack@[i] as int) < n,
            is_live(del, entry_point) ==> vis.contains(entry_point) || stack@.contains(
                entry_point,
            ),
            forall|v: u32, w: u32|
                vis.contains(v) && #[trigger] has_edge(adj, v, w) && is_live(del, w)
                    ==> vis.contains(w) || stack@.contains(w),
        decreases n - count, stack@.len(),
    {
        let ghost prev_stack = stack@;
        let node = stack.pop().unwrap();
        assert(node == prev_stack.last());
        assert forall|w: u32| prev_stack.contains(w) && w != node implies stack@.contains(w) by {
            let k = choose|k: int| 0 <= k < prev_stack.len() && prev_stack[k] == w;
            assert(k < prev_stack.len() - 1);
            assert(stack@[k] == w);
        }
        if deleted[node as usize] || visited[node as usize] {
            continue;
        }
        // `node` is live and newly reached.
        proof {
            if node != entry_point {
                assert(reach.contains(node));
            } else {
                let p = seq![entry_point];
                assert(is_live_path(adj, del, p));
                assert(reach.contains(node));
            }
        }
        let ghost old_vis = vis;
        let ghost vis_before = visited@;
        proof {
            vis = vis.insert(node);
        }
        assert(vis.len() <= n) by {
            let r = Set::new(|x: u32| (x as int) < n);
            assert forall|x: u32| vis.contains(x) implies r.contains(x) by {
                assert(old_vis.contains(x) <==> ((x as int) < n && vis_before[x as int]));
            }
            lemma_range_set_len(n as nat);
            vstd::set_lib::lemma_len_subset(vis, r);
        }
        visited.set(node as usize, true);
        assert forall|x: u32| #![trigger vis.contains(x)] #![trigger visited@[x as int]] vis.contains(x) <==> ((x as int) < n && visited@[x as int]) by {
            assert(old_vis.contains(x) <==> ((x as int) < n && vis_before[x as int]));
            if (x as int) < n && x != node {
                assert(visited@[x as int] == vis_before[x as int]);
            }
        }
        count = count + 1;

        let nbrs = &adjacency[node as usize];
        let len = nbrs.len();
        let mut j: usize = 0;
        while j < len
            invariant
                n == adj.len(),
                n == del.len(),
                adj == adjacency@,
                del == deleted@,
                reach == reachable_from(adj, del, entry_point),
                ids_in_range(adj),
                (node as int) < n,
                vis.contains(node),
                reach.contains(node),
                nbrs@ == adj[node as int]@,
                len == nbrs@.len(),
                j <= len,
                visited@.len() == n,
                forall|x: u32| #![trigger vis.contains(x)] #![trigger visited@[x as int]] vis.contains(x) <==> ((x as int) < n && visited@[x as int]),
                forall|i: int|
                    0 <= i < stack@.len() ==> #[trigger] stack@[i] == entry_point
                        || reach.contains(stack@[i]),
                forall|i: int| 0 <= i < stack@.len() ==> (#[trigger] stack@[i] as int) < n,
                forall|k: int|
                    0 <= k < j ==> is_live(del, #[trigger] nbrs@[k]) ==> vis.contains(nbrs@[k])
                        || stack@.contains(nbrs@[k]),
                forall|w: u32| kept_after_pop(prev_stack, node, w) ==> stack@.contains(w),
            decreases len - j,
        {
            let nb = nbrs[j];
            assert((nb as int) < n) by {
                assert(adj[node as int]@[j as int] == nb);
            }
            if !visited[nb as usize] && !deleted[nb as usize] {
                proof {
                    let p = choose|p: Seq<u32>|
                        #[trigger] is_live_path(adj, del, p) && p[0] == entry_point && p.last()
                            == node;
                    assert(has_edge(adj, node, nb)) by {
                        assert(adj[node as int]@[j as int] == nb);
                    }
                    lemma_path_extend(adj, del, p, nb);
                    assert(reach.contains(nb));
                }
                let ghost before = stack@;
                stack.push(nb);
                assert forall|w: u32| before.contains(w) implies stack@.contains(w) by {
                    let k = choose|k: int| 0 <= k < before.len() && before[k] == w;
                    assert(stack@[k] == w);
                }
                assert(stack@[stack@.len() - 1] == nb);
            }
            j = j + 1;
        }
        proof {
            assert forall|w: u32|
                vis.contains(node) && #[trigger] has_edge(adj, node, w) && is_live(del, w)
                    implies vis.contains(w) || stack@.contains(w) by {
                let k = choose|k: int| 0 <= k < nbrs@.len() && nbrs@[k] == w;
            }
        }
    }

    proof {
        assert forall|x: u32| reach.contains(x) implies vis.contains(x) by {
            let p = choose|p: Seq<u32>|
                #[trigger] is_live_path(adj, del, p) && p[0] == entry_point && p.last() == x;
            assert(is_live(del, p[0]));
            lemma_closed_set_holds_path(adj, del, vis, p);
        }
        assert(vis =~= reach);
    }

    (visited, count)
}

/// Reachability check after deletions: a depth-first walk from `entry_point`
/// over `adjacency` that never enters a deleted node. An id with no list in
/// `adjacency` is a node without neighbors, and an id past the end of
/// `deleted` is not deleted.
///
/// Returns `(reachable, orphans)`: the number of live nodes reached, and how
/// many of the live ids below `total_nodes` that leaves unreached (saturating
/// at zero).
pub fn validate_connectivity(
    entry_point: u32,
    total_nodes: usize,
    adjacency: &[Vec<u32>],
    deleted: &[bool],
) -> (res: (usize, usize))
    requires
        total_nodes <= u32::MAX,
    ensures
        res.0 == reachable_from(adjacency@, deleted@, entry_point).len(),
        res.1 == orphan_count(adjacency@, deleted@, entry_point, total_nodes as int),
{
    let ghost adj = adjacency@;
    let ghost del = deleted@;
    let ghost reach = reachable_from(adj, del, entry_point);
    let ghost all_ids: nat = u32::MAX as nat + 1;
    let mut visited: HashSet<u32> = HashSet::new();
    let mut stack: Vec<u32> = Vec::new();
    stack.push(entry_point);
    assert(stack@[0] == entry_point);
    proof {
        lemma_bounded_set_len(visited@, all_ids);
    }

    while stack.len() > 0
        invariant
            adj == adjacency@,
            del == deleted@,
            all_ids == u32::MAX as nat + 1,
            reach == reachable_from(adj, del, entry_point),
            visited@.finite(),
            visited@.len() <= all_ids,
            forall|x: u32| visited@.contains(x) ==> #[trigger] reach.contains(x),
            forall|i: int|
                0 <= i < stack@.len() ==> #[trigger] stack@[i] == entry_point || reach.contains(
                    stack@[i],
                ),
            is_live(del, entry_point) ==> visited@.contains(entry_point) || stack@.contains(
                entry_point,
            ),
            forall|v: u32, w: u32|
                visited@.contains(v) && #[trigger] has_edge(adj, v, w) && is_live(del, w)
                    ==> visited@.contains(w) || stack@.contains(w),
        decreases all_ids - visited@.len(), stack@.len(),
    {
        let ghost prev_stack = stack@;
        let node = stack.pop().unwrap();
        assert(node == prev_stack.last());
        assert forall|w: u32| prev_stack.contains(w) && w != node implies stack@.contains(w) by {
            let k = choose|k: int| 0 <= k < prev_stack.len() && prev_stack[k] == w;
            assert(k < prev_stack.len() - 1);
            assert(stack@[k] == w);
        }
        let node_deleted = (node as usize) < deleted.len() && deleted[node as usize];
        if node_deleted || visited.contains(&node) {
            continue;
        }
        // `node` is live and newly reached.
        proof {
            if node != entry_point {
                assert(reach.contains(node));
            } else {
                let p = seq![entry_point];
                assert(is_live_path(adj, del, p));
                assert(reach.contains(node));
            }
        }
        let ghost old_vis = visited@;
        visited.insert(node);
        proof {
            lemma_bounded_set_len(visited@, all_ids);
        }
        if (node as usize) < adjacency.len() {
            let nbrs = &adjacency[node as usize];
            let len = nbrs.len();
            let mut j: usize = 0;
            while j < len
                invariant
                    adj == adjacency@,
                    del == deleted@,
                    reach == reachable_from(adj, del, entry_point),
                    (node as int) < adj.len(),
                    visited@.contains(node),
                    reach.contains(node),
                    nbrs@ == adj[node as int]@,
                    len == nbrs@.len(),
                    j <= len,
                    forall|i: int|
                        0 <= i < stack@.len() ==> #[trigger] stack@[i] == entry_point
                            || reach.contains(stack@[i]),
                    forall|k: int|
                        0 <= k < j ==> is_live(del, #[trigger] nbrs@[k]) ==> visited@.contains(
                            nbrs@[k],
                        ) || stack@.contains(nbrs@[k]),
                    forall|w: u32| kept_after_pop(prev_stack, node, w) ==> stack@.contains(w),
                decreases len - j,
            {
                let nb = nbrs[j];
                let nb_deleted = (nb as usize) < deleted.len() && deleted[nb as usize];
                if !visited.contains(&nb) && !nb_deleted {
                    proof {
                        let p = choose|p: Seq<u32>|
                            #[trigger] is_live_path(adj, del, p) && p[0] == entry_point && p.last()
                                == node;
                        assert(has_edge(adj, node, nb)) by {
                            assert(adj[node as int]@[j as int] == nb);
                        }
                        lemma_path_extend(adj, del, p, nb);
                        assert(reach.contains(nb));
                    }
                    let ghost before = stack@;
                    stack.push(nb);
                    assert forall|w: u32| before.contains(w) implies stack@.contains(w) by {
                        let k = choose|k: int| 0 <= k < before.len() && before[k] == w;
                        assert(stack@[k] == w);
                    }
                    assert(stack@[stack@.len() - 1] == nb);
                }
                j = j + 1;
            }
            proof {
                assert forall|w: u32|
                    visited@.contains(node) && #[trigger] has_edge(adj, node, w) && is_live(del, w)
                        implies visited@.contains(w) || stack@.contains(w) by {
                    let k = choose|k: int| 0 <= k < nbrs@.len() && nbrs@[k] == w;
                }
            }
        }
        proof {
            assert forall|v: u32, w: u32|
                visited@.contains(v) && #[trigger] has_edge(adj, v, w) && is_live(del, w)
                    implies visited@.contains(w) || stack@.contains(w) by {
                if v != node {
                    assert(old_vis.contains(v));
                    if !old_vis.contains(w) && w != node {
                        assert(prev_stack.contains(w));
                        assert(kept_after_pop(prev_stack, node, w));
                    }
                }
            }
        }
    }

    proof {
        assert forall|x: u32| reach.contains(x) implies visited@.contains(x) by {
            let p = choose|p: Seq<u32>|
                #[trigger] is_live_path(adj, del, p) && p[0] == entry_point && p.last() == x;
            assert(is_live(del, p[0]));
            lemma_closed_set_holds_path(adj, del, visited@, p);
        }
        assert(visited@ =~= reach);
    }
    let count = visited.len();

    // Count the live ids below `total_nodes`.
    let mut live: usize = 0;
    let mut i: usize = 0;
    while i < total_nodes
        invariant
            del == deleted@,
            total_nodes <= u32::MAX,
            i <= total_nodes,
            live == live_count(del, i as int),
            live <= i,
        decreases total_nodes - i,
    {
        let dead = i < deleted.len() && deleted[i];
        if !dead {
            live = live + 1;
        }
        i = i + 1;
    }
    let orphans = if live >= count {
        live - count
    } else {
        0
    };
    (count, orphans)
}

/// Live ids below `total` that the walk from `entry` does not reach, counted
/// as the saturating difference between the two sizes.
pub open spec fn orphan_count(adj: Seq<Vec<u32>>, deleted: Seq<bool>, entry: u32, total: int) -> nat {
    let live = live_count(deleted, total);
    let reached = reachable_from(adj, deleted, entry).len();
    if live >= reached {
        (live - reached) as nat
    } else {
        0nat
    }
}

/// The live ids below `k`.
pub open spec fn live_ids(deleted: Seq<bool>, k: int) -> Set<u32> {
    Set::new(|x: u32| (x as int) < k && is_live(deleted, x))
}

proof fn lemma_live_ids_len(deleted: Seq<bool>, k: int)
    requires
        0 <= k <= deleted.len(),
        k <= u32::MAX + 1,
    ensures
        live_ids(deleted, k).finite(),
        live_ids(deleted, k).len() == live_count(deleted, k),
    decreases k,
{
    if k == 0 {
        assert(live_ids(deleted, k) =~= Set::empty());
    } else {
        lemma_live_ids_len(deleted, k - 1);
        let last = (k - 1) as u32;
        if !deleted[k - 1] {
            assert(live_ids(deleted, k) =~= live_ids(deleted, k - 1).insert(last));
        } else {
            assert(live_ids(deleted, k) =~= live_ids(deleted, k - 1));
        }
    }
}

/// When every neighbor id and the entry point name nodes of the graph and
/// `total_nodes` covers the whole graph, every live node is either
/// reached from the entry point or counted as an orphan: the two results of
/// [`validate_connectivity`] add up to the number of live nodes.
pub proof fn lemma_reached_and_orphans_cover_live(
    adj: Seq<Vec<u32>>,
    deleted: Seq<bool>,
    entry: u32,
)
    requires
        deleted.len() == adj.len(),
        adj.len() <= u32::MAX + 1,
        ids_in_range(adj),
        (entry as int) < adj.len(),
    ensures
        reachable_from(adj, deleted, entry).len() + orphan_count(
            adj,
            deleted,
            entry,
            adj.len() as int,
        ) == live_count(deleted, adj.len() as int),
{
    let n = adj.len() as int;
    let reach = reachable_from(adj, deleted, entry);
    let live = live_ids(deleted, n);
    lemma_live_ids_len(deleted, n);
    assert forall|x: u32| reach.contains(x) implies live.contains(x) by {
        let p = choose|p: Seq<u32>|
            #[trigger] is_live_path(adj, deleted, p) && p[0] == entry && p.last() == x;
        assert(is_live(deleted, p[p.len() - 1]));
        lemma_reach_in_range(adj, deleted, entry, x);
    }
    vstd::set_lib::lemma_len_subset(reach, live);
}

spec fn kept_after_pop(prev_stack: Seq<u32>, node: u32, w: u32) -> bool {
    prev_stack.contains(w) && w != node
}

pub(crate) proof fn lemma_range_set_len(n: nat)
    ensures
        Set::new(|x: u32| (x as int) < n).finite(),
        Set::new(|x: u32| (x as int) < n).len() <= n,
    decreases n,
{
    let s = Set::new(|x: u32| (x as int) < n);
    if n == 0 {
        assert(s =~= Set::empty());
    } else {
        lemma_range_set_len((n - 1) as nat);
        let t = Set::new(|x: u32| (x as int) < n - 1);
        if n - 1 <= u32::MAX {
            assert(s =~= t.insert((n - 1) as u32));
        } else {
            assert(s =~= t);
        }
    }
}

/// A set of ids all below `n` is finite and has at most `n` elements.
pub(crate) proof fn lemma_bounded_set_len(s: Set<u32>, n: nat)
    requires
        forall|x: u32| s.contains(x) ==> (x as int) < n,
    ensures
        s.finite(),
        s.len() <= n,
{
    let r = Set::new(|x: u32| (x as int) < n);
    lemma_range_set_len(n);
    assert(s.subset_of(r));
    vstd::set_lib::lemma_len_subset(s, r);
}

/// With every neighbor id naming a node of the graph, every node reachable
/// from an entry point inside the graph lies inside it.
pub(crate) proof fn lemma_reach_in_range(adj: Seq<Vec<u32>>, deleted: Seq<bool>, entry: u32, x: u32)
    requires
        ids_in_range(adj),
        (entry as int) < adj.len(),
        reachable_from(adj, deleted, entry).contains(x),
    ensures
        (x as int) < adj.len(),
{
    let p = choose|p: Seq<u32>|
        #[trigger] is_live_path(adj, deleted, p) && p[0] == entry && p.last() == x;
    if p.len() > 1 {
        let k = p.len() - 2;
        assert(has_edge(adj, p[k], p[k + 1]));
        let a = p[k];
        let q = choose|q: int| 0 <= q < adj[a as int]@.len() && adj[a as int]@[q] == x;
        assert(adj[a as int]@[q] == x);
    }
}

/// The nodes reachable from `entry` form a finite set.
pub(crate) proof fn lemma_reach_finite(adj: Seq<Vec<u32>>, deleted: Seq<bool>, entry: u32)
    requires
        deleted.len() == adj.len(),
        ids_in_range(adj),
        (entry as int) < adj.len(),
    ensures
        reachable_from(adj, deleted, entry).finite(),
        reachable_from(adj, deleted, entry).len() <= adj.len(),
{
    let reach = reachable_from(adj, deleted, entry);
    assert forall|x: u32| reach.contains(x) implies (x as int) < adj.len() by {
        lemma_reach_in_range(adj, deleted, entry, x);
    }
    lemma_bounded_set_len(reach, adj.len());
}


/// Link node `i` and node `best` both ways: `best` is appended to the list of
/// `i`, then `i` to the list of `best`.
pub fn bridge(neighbors: &mut Vec<Vec<u32>>, i: u32, best: u32)
    requires
        (i as int) < old(neighbors)@.len(),
        (best as int) < old(neighbors)@.len(),
    ensures
        final(neighbors)@.len() == old(neighbors)@.len(),
        forall|a: int|
            0 <= a < old(neighbors)@.len() ==> (#[trigger] final(neighbors)@[a])@ == if a == i
                && a == best {
                old(neighbors)@[a]@.push(best).push(i)
            } else if a == i {
                old(neighbors)@[a]@.push(best)
            } else if a == best {
                old(neighbors)@[a]@.push(i)
            } else {
                old(neighbors)@[a]@
            },
{
    let ghost start = neighbors@;
    let mut list: Vec<u32> = Vec::new();
    neighbors.set_and_swap(i as usize, &mut list);
    list.push(best);
    neighbors.set_and_swap(i as usize, &mut list);
    let ghost mid = neighbors@;
    let mut list: Vec<u32> = Vec::new();
    neighbors.set_and_swap(best as usize, &mut list);
    list.push(i);
    neighbors.set_and_swap(best as usize, &mut list);
    proof {
        assert forall|a: int| 0 <= a < start.len() implies (#[trigger] neighbors@[a])@ == if a == i
            && a == best {
            start[a]@.push(best).push(i)
        } else if a == i {
            start[a]@.push(best)
        } else if a == best {
            start[a]@.push(i)
        } else {
            start[a]@
        } by {
            if a != best {
                assert(neighbors@[a] == mid[a]);
            }
            if a != i {
                assert(mid[a] == start[a]);
            }
        }
    }
}

/// Bridging reaches: when the lists only gain entries and the new lists
/// hold an edge from a node `best` that the entry point reached to a node
/// `i` that is not deleted, every node reached before is still reached,
/// and `i` now is.
pub proof fn lemma_bridge_reaches(
    adj: Seq<Vec<u32>>,
    bridged: Seq<Vec<u32>>,
    deleted: Seq<bool>,
    entry: u32,
    i: u32,
    best: u32,
)
    requires
        bridged.len() == adj.len(),
        forall|a: u32, x: u32| #[trigger] has_edge(adj, a, x) ==> has_edge(bridged, a, x),
        has_edge(bridged, best, i),
        reachable_from(adj, deleted, entry).contains(best),
        is_live(deleted, i),
    ensures
        reachable_from(adj, deleted, entry).subset_of(reachable_from(bridged, deleted, entry)),
        reachable_from(bridged, deleted, entry).contains(i),
{
    assert forall|x: u32| reachable_from(adj, deleted, entry).contains(x) implies reachable_from(
        bridged,
        deleted,
        entry,
    ).contains(x) by {
        let p = choose|p: Seq<u32>|
            #[trigger] is_live_path(adj, deleted, p) && p[0] == entry && p.last() == x;
        assert forall|k: int| 0 <= k < p.len() - 1 implies #[trigger] has_edge(bridged, p[k], p[k + 1]) by {
            assert(has_edge(adj, p[k], p[k + 1]));
        }
        assert(is_live_path(bridged, deleted, p));
    }
    let p = choose|p: Seq<u32>|
        #[trigger] is_live_path(adj, deleted, p) && p[0] == entry && p.last() == best;
    assert forall|k: int| 0 <= k < p.len() - 1 implies #[trigger] has_edge(bridged, p[k], p[k + 1]) by {
        assert(has_edge(adj, p[k], p[k + 1]));
    }
    assert(is_live_path(bridged, deleted, p));
    lemma_path_extend(bridged, deleted, p, i);
}

/// `n` flags, none of them set.
pub open spec fn no_deletions(n: nat) -> Seq<bool> {
    Seq::new(n, |k: int| false)
}

/// Every node of the graph can be reached from `entry` when nothing is
/// deleted.
pub open spec fn all_reachable(adj: Seq<Vec<u32>>, entry: u32) -> bool {
    forall|x: u32|
        (x as int) < adj.len() ==> #[trigger] reachable_from(adj, no_deletions(adj.len()), entry).contains(x)
}

/// Each list of `after` starts with the list of `before` at the same place.
pub open spec fn lists_extended(before: Seq<Vec<u32>>, after: Seq<Vec<u32>>) -> bool {
    &&& after.len() == before.len()
    &&& forall|a: int| 0 <= a < before.len() ==> before[a]@.is_prefix_of(#[trigger] after[a]@)
}

/// For each node below `adj.len()`, whether `entry` reaches it when nothing
/// is deleted.
pub open spec fn reach_flags(adj: Seq<Vec<u32>>, entry: u32) -> Seq<bool> {
    Seq::new(
        adj.len(),
        |x: int| reachable_from(adj, no_deletions(adj.len()), entry).contains(x as u32),
    )
}

/// The node a bridge from an unreached node goes to, given the proposal
/// `c`: `c` itself when it is a node that `entry` reaches, `entry`
/// otherwise.
pub open spec fn bridge_target(adj: Seq<Vec<u32>>, entry: u32, c: u32) -> u32 {
    if (c as int) < adj.len() && reachable_from(adj, no_deletions(adj.len()), entry).contains(c) {
        c
    } else {
        entry
    }
}

/// The lists after bridging `i` and `best`: `best` appended to the list of
/// `i`, then `i` to the list of `best`.
pub open spec fn bridged(lists: Seq<Seq<u32>>, i: u32, best: u32) -> Seq<Seq<u32>> {
    let l1 = lists.update(i as int, lists[i as int].push(best));
    l1.update(best as int, l1[best as int].push(i))
}

/// One step of [`connect_all`], for node `i`: a node the entry point
/// already reaches is left alone; otherwise `pick` is asked for a
/// proposal `c` with the current reach flags and lists, and `i` is bridged
/// to `bridge_target(before, entry, c)`.
pub open spec fn connect_step<F: Fn(u32, &[bool], &[Vec<u32>]) -> u32>(
    pick: F,
    entry: u32,
    i: u32,
    before: Seq<Vec<u32>>,
    after: Seq<Vec<u32>>,
) -> bool {
    if reachable_from(before, no_deletions(before.len()), entry).contains(i) {
        after == before
    } else {
        exists|r: &[bool], a: &[Vec<u32>], c: u32|
            #![trigger call_ensures(pick, (i, r, a), c)]
            r@ == reach_flags(before, entry) && a@ == before && call_ensures(pick, (i, r, a), c)
                && list_views(after) == bridged(
                list_views(before),
                i,
                bridge_target(before, entry, c),
            )
    }
}

/// `states` is a run of [`connect_all`] over the nodes `0..states.len() - 1`
/// in id order: `states[k + 1]` is what the step for node `k` leaves of
/// `states[k]`.
pub open spec fn connect_run<F: Fn(u32, &[bool], &[Vec<u32>]) -> u32>(
    pick: F,
    entry: u32,
    states: Seq<Seq<Vec<u32>>>,
) -> bool {
    &&& states.len() > 0
    &&& forall|k: int|
        0 <= k < states.len() - 1 ==> #[trigger] connect_step(
            pick,
            entry,
            k as u32,
            states[k],
            states[k + 1],
        )
}

/// Make every node reachable from `entry_point`: each node the entry point
/// does not reach, in id order, is bridged both ways to a node it does
/// reach, and reachability is taken again after each bridge. `pick(i,
/// reached, lists)` proposes the reached node for node `i` (the caller
/// chooses it by distance); a proposal that is not a reached node is
/// replaced by the entry point. Nodes reached when their turn comes are
/// left alone, so a graph the entry point already spans is unchanged. A
/// graph of at most one node is left as it is.
pub fn connect_all<F: Fn(u32, &[bool], &[Vec<u32>]) -> u32>(
    neighbors: &mut Vec<Vec<u32>>,
    entry_point: u32,
    pick: F,
)
    requires
        old(neighbors)@.len() <= u32::MAX + 1,
        old(neighbors)@.len() > 1 ==> (entry_point as int) < old(neighbors)@.len() && ids_in_range(
            old(neighbors)@,
        ),
        forall|i: u32, r: &[bool], a: &[Vec<u32>]| #[trigger] pick.requires((i, r, a)),
    ensures
        old(neighbors)@.len() <= 1 ==> final(neighbors)@ == old(neighbors)@,
        old(neighbors)@.len() > 1 ==> {
            &&& exists|states: Seq<Seq<Vec<u32>>>|
                #[trigger] connect_run(pick, entry_point, states)
                    && states.len() == old(neighbors)@.len() + 1
                    && states[0] == old(neighbors)@
                    && states.last() == final(neighbors)@
            &&& lists_extended(old(neighbors)@, final(neighbors)@)
            &&& ids_in_range(final(neighbors)@)
            &&& all_reachable(final(neighbors)@, entry_point)
            &&& all_reachable(old(neighbors)@, entry_point) ==> final(neighbors)@ == old(neighbors)@
        },
{
    let n = neighbors.len();
    if n <= 1 {
        return;
    }
    let ghost start = neighbors@;
    let mut none_deleted: Vec<bool> = Vec::new();
    while none_deleted.len() < n
        invariant
            none_deleted@.len() <= n,
            forall|k: int| 0 <= k < none_deleted@.len() ==> !#[trigger] none_deleted@[k],
        decreases n - none_deleted@.len(),
    {
        none_deleted.push(false);
    }
    let ghost del = none_deleted@;
    assert(del =~= no_deletions(n as nat));
    let (mut reached, _) = reachable_flags(entry_point, neighbors, &none_deleted);
    let ghost mut states: Seq<Seq<Vec<u32>>> = seq![neighbors@];
    let mut i: usize = 0;
    while i < n
        invariant
            1 < n <= u32::MAX + 1,
            neighbors@.len() == n,
            (entry_point as int) < n,
            ids_in_range(neighbors@),
            none_deleted@ == del,
            del == no_deletions(n as nat),
            reached@.len() == n,
            forall|x: u32|
                (x as int) < n ==> (#[trigger] reached@[x as int] <==> reachable_from(
                    neighbors@,
                    del,
                    entry_point,
                ).contains(x)),
            forall|j: u32| (j as int) < i ==> #[trigger] reachable_from(neighbors@, del, entry_point).contains(j),
            lists_extended(start, neighbors@),
            forall|i: u32, r: &[bool], a: &[Vec<u32>]| #[trigger] pick.requires((i, r, a)),
            i <= n,
            states.len() == i + 1,
            states[0] == start,
            states.last() == neighbors@,
            connect_run(pick, entry_point, states),
            all_reachable(start, entry_point) ==> neighbors@ == start,
            start.len() == n,
        decreases n - i,
    {
        let ghost before = neighbors@;
        proof {
            if all_reachable(start, entry_point) {
                assert(reachable_from(start, no_deletions(start.len()), entry_point).contains(i as u32));
                assert(reached@[(i as u32) as int]);
            }
        }
        if !reached[i] {
            let r = reached.as_slice();
            let a = neighbors.as_slice();
            let cand = pick(i as u32, r, a);
            let best = if (cand as usize) < n && reached[cand as usize] {
                cand
            } else {
                entry_point
            };
            proof {
                if best == entry_point {
                    let p = seq![entry_point];
                    assert(is_live_path(neighbors@, del, p));
                    assert(reachable_from(neighbors@, del, entry_point).contains(entry_point));
                }
                assert(reached@[best as int]);
                assert(!reached@[(i as u32) as int]);
                assert(reachable_from(neighbors@, del, entry_point).contains(best));
                assert(best == bridge_target(before, entry_point, cand));
                assert(r@ =~= reach_flags(before, entry_point)) by {
                    assert forall|x: int| 0 <= x < n implies r@[x] == reach_flags(
                        before,
                        entry_point,
                    )[x] by {
                        assert(reached@[(x as u32) as int] == reachable_from(before, del, entry_point).contains(x as u32));
                    }
                }
            }
            assert(best != i as u32);
            bridge(neighbors, i as u32, best);
            proof {
                let after = neighbors@;
                assert forall|a: u32, x: u32| #[trigger] has_edge(before, a, x) implies has_edge(after, a, x) by {
                    assert(before[a as int]@.is_prefix_of(after[a as int]@));
                    let k = choose|k: int| 0 <= k < before[a as int]@.len() && before[a as int]@[k] == x;
                    assert(after[a as int]@[k] == x);
                }
                assert(after[best as int]@ == before[best as int]@.push(i as u32));
                assert(after[best as int]@.last() == i as u32);
                assert(has_edge(after, best, i as u32));
                lemma_bridge_reaches(before, after, del, entry_point, i as u32, best);
                assert forall|a: int, j: int|
                    0 <= a < after.len() && 0 <= j < after[a]@.len() implies (#[trigger] after[a]@[j] as int) < after.len() by {
                    if j < before[a]@.len() {
                        assert(before[a]@.is_prefix_of(after[a]@));
                        assert(after[a]@[j] == before[a]@[j]);
                    }
                }
                assert forall|a: int| 0 <= a < start.len() implies start[a]@.is_prefix_of(#[trigger] after[a]@) by {
                    assert(start[a]@.is_prefix_of(before[a]@));
                    assert(before[a]@.is_prefix_of(after[a]@));
                }
                assert(list_views(after) =~= bridged(list_views(before), i as u32, best));
                assert(connect_step(pick, entry_point, i as u32, before, after));
            }
            reached = reachable_flags(entry_point, neighbors, &none_deleted).0;
        } else {
            proof {
                assert(reached@[(i as u32) as int]);
                assert(connect_step(pick, entry_point, i as u32, before, before));
            }
        }
        proof {
            let old_states = states;
            states = states.push(neighbors@);
            assert forall|k: int| 0 <= k < states.len() - 1 implies #[trigger] connect_step(
                pick,
                entry_point,
                k as u32,
                states[k],
                states[k + 1],
            ) by {
                if k < old_states.len() - 1 {
                    assert(states[k] == old_states[k] && states[k + 1] == old_states[k + 1]);
                } else {
                    assert(k == i);
                    assert(states[k] == before);
                }
            }
        }
        i = i + 1;
    }
    assert(connect_run(pick, entry_point, states));
}
} // verus!
