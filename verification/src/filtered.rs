//! Bookkeeping for filter-aware (ACORN-style) search: filter predicates,
//! visit tracking, capacity hints, branch counters and the selectivity
//! probe.
use crate::connectivity::{
    has_edge, ids_in_range, is_live, is_live_path, lemma_bounded_set_len, lemma_closed_set_holds_path,
    lemma_path_extend, lemma_reach_finite, reachable_from,
};
use crate::reorder::nbrs_of;
use crate::repair::without;
use std::collections::HashSet;
use std::collections::VecDeque;
use vstd::prelude::*;

verus! {

broadcast use vstd::std_specs::hash::group_hash_axioms;

/// Upper bound on the capacity reserved for a search's visited set.
pub const MAX_VISITED_CAPACITY_HINT: usize = 1_000_000;

/// Filter predicate for filtered search.
pub trait FilterPredicate {
    /// Inputs on which [`FilterPredicate::matches`] may be called.
    spec fn accepts(&self, node_id: u32) -> bool;

    /// The filter's answer for a node.
    spec fn passes(&self, node_id: u32) -> bool;

    /// Check if a node passes the filter.
    fn matches(&self, node_id: u32) -> (res: bool)
        requires
            self.accepts(node_id),
        ensures
            res == self.passes(node_id),
    ;
}

/// Filter given by a closure. The closure must answer each id the same way
/// every time it is asked: a filter is a predicate on node ids.
pub struct FnFilter<F: Fn(u32) -> bool>(pub F);

impl<F: Fn(u32) -> bool> FilterPredicate for FnFilter<F> {
    open spec fn accepts(&self, node_id: u32) -> bool {
        &&& call_requires(self.0, (node_id,))
        &&& forall|a: bool, b: bool|
            #![trigger call_ensures(self.0, (node_id,), a), call_ensures(self.0, (node_id,), b)]
            call_ensures(self.0, (node_id,), a) && call_ensures(self.0, (node_id,), b) ==> a == b
    }

    open spec fn passes(&self, node_id: u32) -> bool {
        choose|b: bool| call_ensures(self.0, (node_id,), b)
    }

    fn matches(&self, node_id: u32) -> (res: bool) {
        let res = (self.0)(node_id);
        proof {
            let chosen = choose|b: bool| call_ensures(self.0, (node_id,), b);
            assert(call_ensures(self.0, (node_id,), chosen));
        }
        res
    }
}

/// Always-pass filter (no filtering).
pub struct NoFilter;

impl FilterPredicate for NoFilter {
    open spec fn accepts(&self, node_id: u32) -> bool {
        true
    }

    open spec fn passes(&self, node_id: u32) -> bool {
        true
    }

    fn matches(&self, node_id: u32) -> (res: bool) {
        true
    }
}

/// Visit tracking for one filtered search: the nodes seen so far, how many
/// were seen, and how many of those passed the filter.
pub struct SearchState {
    visited: HashSet<u32>,
    filtered_count: usize,
    visited_count: usize,
}

impl SearchState {
    /// Nodes seen so far.
    pub closed spec fn seen(&self) -> Set<u32> {
        self.visited@
    }

    /// Number of distinct nodes seen.
    pub closed spec fn seen_count(&self) -> nat {
        self.visited_count as nat
    }

    /// Number of distinct nodes seen that passed the filter.
    pub closed spec fn passed_count(&self) -> nat {
        self.filtered_count as nat
    }

    /// The counters agree with the set of seen nodes.
    pub closed spec fn wf(&self) -> bool {
        &&& self.visited@.finite()
        &&& self.visited_count == self.visited@.len()
        &&& self.filtered_count <= self.visited_count
    }

    /// Empty state; `capacity_hint` only sizes the allocation.
    pub fn new(capacity_hint: usize) -> (res: Self)
        ensures
            res.wf(),
            res.seen() == Set::<u32>::empty(),
            res.seen_count() == 0,
            res.passed_count() == 0,
    {
        SearchState { visited: HashSet::with_capacity(capacity_hint), filtered_count: 0, visited_count: 0 }
    }

    /// Record a visit of `node_id`. Returns `true` (and counts it, and counts
    /// it as passing when `passes_filter`) only the first time it is seen.
    pub fn visit(&mut self, node_id: u32, passes_filter: bool) -> (res: bool)
        requires
            old(self).wf(),
            old(self).seen_count() < usize::MAX,
        ensures
            final(self).wf(),
            res == !old(self).seen().contains(node_id),
            final(self).seen() == old(self).seen().insert(node_id),
            final(self).seen_count() == old(self).seen_count() + if res {
                1nat
            } else {
                0nat
            },
            final(self).passed_count() == old(self).passed_count() + if res && passes_filter {
                1nat
            } else {
                0nat
            },
    {
        if self.visited.insert(node_id) {
            self.visited_count = self.visited_count + 1;
            if passes_filter {
                self.filtered_count = self.filtered_count + 1;
            }
            true
        } else {
            false
        }
    }

    /// Number of distinct nodes seen.
    pub fn visited_count(&self) -> (res: usize)
        ensures
            res == self.seen_count(),
    {
        self.visited_count
    }

    /// Number of distinct nodes seen that passed the filter.
    pub fn filtered_count(&self) -> (res: usize)
        ensures
            res == self.passed_count(),
    {
        self.filtered_count
    }
}

/// `x * y`, saturating at `usize::MAX`.
pub open spec fn sat_mul(x: int, y: int) -> int {
    if x * y > usize::MAX {
        usize::MAX as int
    } else {
        x * y
    }
}

/// `x + y`, saturating at `usize::MAX`.
pub open spec fn sat_add(x: int, y: int) -> int {
    if x + y > usize::MAX {
        usize::MAX as int
    } else {
        x + y
    }
}

/// Capacity to reserve for a filtered search's visited set:
/// `3 * ef_search + max_two_hop_neighbors + k + 1`, saturating, capped at
/// [`MAX_VISITED_CAPACITY_HINT`].
pub fn visited_capacity_hint(ef_search: usize, max_two_hop_neighbors: usize, k: usize) -> (res:
    usize)
    ensures
        res == ({
            let h = sat_add(sat_add(sat_add(sat_mul(ef_search as int, 3), max_two_hop_neighbors as int), k as int), 1);
            if h < MAX_VISITED_CAPACITY_HINT {
                h
            } else {
                MAX_VISITED_CAPACITY_HINT as int
            }
        }),
{
    let tripled = match ef_search.checked_mul(3) {
        Some(v) => v,
        None => usize::MAX,
    };
    let h = tripled.saturating_add(max_two_hop_neighbors).saturating_add(k).saturating_add(1);
    if h < MAX_VISITED_CAPACITY_HINT {
        h
    } else {
        MAX_VISITED_CAPACITY_HINT
    }
}

/// Counters of a filtered search, telling which branches fired.
#[derive(Clone, Copy, Debug, Default, PartialEq, Eq, Structural)]
#[non_exhaustive]
pub struct AcornStats {
    /// Times the two-hop expansion branch was entered.
    pub two_hop_invocations: u64,
    /// Distinct two-hop nodes examined across all invocations.
    pub two_hop_nodes_examined: u64,
}

impl AcornStats {
    /// Both counters at zero.
    pub fn new() -> (res: Self)
        ensures
            res.two_hop_invocations == 0,
            res.two_hop_nodes_examined == 0,
    {
        AcornStats { two_hop_invocations: 0, two_hop_nodes_examined: 0 }
    }
}

/// Selectivity regime for filtered search.
#[derive(Clone, Copy, Debug, PartialEq, Eq, Structural)]
pub enum SelectivityRegime {
    /// More than 10% of vectors match: standard two-hop search suffices.
    High,
    /// 1-10% match: aggressive over-retrieval plus two-hop.
    Medium,
    /// Under 1% match: scan the pre-filtered candidates.
    Low,
}

/// The graph with no node deleted.
pub open spec fn none_deleted(n: nat) -> Seq<bool> {
    Seq::new(n, |i: int| false)
}

/// The probe as it runs: `queue` holds the nodes still to pop and `probed`
/// the distinct nodes examined so far, in order. Popping a node already
/// examined drops it; popping a new one examines it and queues, in list
/// order, each of its neighbors not examined yet. The probe stops once
/// `probe_size` nodes are examined, when the queue runs dry, or once every
/// node is examined. The result is the sequence of examined nodes.
pub open spec fn probe_run(adj: Seq<Vec<u32>>, probe_size: nat, queue: Seq<u32>, probed: Seq<u32>) -> Seq<u32>
    decreases adj.len() - probed.len(), queue.len(),
{
    if probed.len() >= probe_size || probed.len() >= adj.len() || queue.len() == 0 {
        probed
    } else {
        let x = queue[0];
        if probed.contains(x) {
            probe_run(adj, probe_size, queue.drop_first(), probed)
        } else {
            let p = probed.push(x);
            probe_run(adj, probe_size, queue.drop_first() + without(nbrs_of(adj, x), p.to_set()), p)
        }
    }
}

/// The nodes a selectivity probe from `entry_point` examines, in order.
pub open spec fn probed_nodes(adj: Seq<Vec<u32>>, entry_point: u32, probe_size: nat) -> Seq<u32> {
    probe_run(adj, probe_size, seq![entry_point], Seq::empty())
}

/// How many of `ids` pass `filter`.
pub open spec fn count_passing<F: FilterPredicate>(filter: &F, ids: Seq<u32>) -> nat
    decreases ids.len(),
{
    if ids.len() == 0 {
        0
    } else {
        count_passing(filter, ids.drop_last()) + if filter.passes(ids.last()) {
            1nat
        } else {
            0nat
        }
    }
}

/// Breadth-first probe from `entry_point` over `adjacency` that examines up
/// to `probe_size` distinct nodes and tests each against `filter`.
///
/// Returns `(matches, total)`: the nodes examined are
/// [`probed_nodes`], `total` is their number, which is `probe_size` or the
/// number of nodes reachable from the entry point, whichever is smaller,
/// and `matches` counts those that pass the filter.
pub fn selectivity_probe<F: FilterPredicate>(
    filter: &F,
    adjacency: &[Vec<u32>],
    entry_point: u32,
    probe_size: u32,
) -> (res: (u32, u32))
    requires
        (entry_point as int) < adjacency@.len(),
        ids_in_range(adjacency@),
        forall|id: u32| (id as int) < adjacency@.len() ==> #[trigger] filter.accepts(id),
    ensures
        res.0 <= res.1,
        res.0 == count_passing(filter, probed_nodes(adjacency@, entry_point, probe_size as nat)),
        res.1 == probed_nodes(adjacency@, entry_point, probe_size as nat).len(),
        res.1 == ({
            let r = reachable_from(adjacency@, none_deleted(adjacency@.len()), entry_point).len();
            if r < probe_size {
                r
            } else {
                probe_size as nat
            }
        }),
{
    let n = adjacency.len();
    let ghost adj = adjacency@;
    let ghost del = none_deleted(n as nat);
    let ghost reach = reachable_from(adj, del, entry_point);
    let mut visited: Vec<bool> = vec![false; n];
    let ghost mut vis: Set<u32> = Set::empty();
    let mut queue: VecDeque<u32> = VecDeque::new();
    queue.push_back(entry_point);
    assert(queue@[0] == entry_point);
    let mut matches: u32 = 0;
    let mut total: u32 = 0;
    let ghost run = probed_nodes(adj, entry_point, probe_size as nat);
    let ghost mut probed: Seq<u32> = Seq::empty();

    while total < probe_size
        invariant_except_break
            run == probed_nodes(adj, entry_point, probe_size as nat),
            probe_run(adj, probe_size as nat, queue@, probed) == run,
            n == adj.len(),
            n == del.len(),
            adj == adjacency@,
            del == none_deleted(n as nat),
            reach == reachable_from(adj, del, entry_point),
            ids_in_range(adj),
            (entry_point as int) < n,
            forall|id: u32| (id as int) < n ==> #[trigger] filter.accepts(id),
            visited@.len() == n,
            forall|x: u32|
                #![trigger vis.contains(x)]
                #![trigger visited@[x as int]]
                vis.contains(x) <==> ((x as int) < n && visited@[x as int]),
            vis.finite(),
            vis.len() == total,
            matches <= total,
            total <= probe_size,
            probed.len() == total,
            probed.no_duplicates(),
            forall|x: u32| #[trigger] probed.contains(x) <==> vis.contains(x),
            matches == count_passing(filter, probed),
            forall|x: u32| vis.contains(x) ==> #[trigger] reach.contains(x),
            forall|i: int|
                0 <= i < queue@.len() ==> #[trigger] queue@[i] == entry_point || reach.contains(
                    queue@[i],
                ),
            forall|i: int| 0 <= i < queue@.len() ==> (#[trigger] queue@[i] as int) < n,
            vis.contains(entry_point) || queue@.contains(entry_point),
            forall|v: u32, w: u32|
                vis.contains(v) && #[trigger] has_edge(adj, v, w) ==> vis.contains(w)
                    || queue@.contains(w),
        ensures
            matches <= total,
            total <= probe_size,
            probed == run,
            probed.len() == total,
            matches == count_passing(filter, probed),
            vis.finite(),
            vis.len() == total,
            forall|x: u32| vis.contains(x) ==> #[trigger] reach.contains(x),
            total == probe_size || vis == reach,
        decreases n - total, queue@.len(),
    {
        let ghost prev_queue = queue@;
        let popped = queue.pop_front();
        let node = match popped {
            Some(x) => x,
            None => {
                proof {
                    assert forall|x: u32| reach.contains(x) implies vis.contains(x) by {
                        let p = choose|p: Seq<u32>|
                            #[trigger] is_live_path(adj, del, p) && p[0] == entry_point && p.last()
                                == x;
                        assert forall|v: u32, w: u32|
                            vis.contains(v) && #[trigger] has_edge(adj, v, w) && is_live(del, w)
                                implies vis.contains(w) by {
                            assert(!queue@.contains(w));
                        }
                        assert(!queue@.contains(entry_point));
                        lemma_closed_set_holds_path(adj, del, vis, p);
                    }
                    assert(vis =~= reach);
                    assert(prev_queue.len() == 0);
                }
                break;
            },
        };
        assert(node == prev_queue[0]);
        assert forall|w: u32| prev_queue.contains(w) && w != node implies queue@.contains(w) by {
            let k = choose|k: int| 0 <= k < prev_queue.len() && prev_queue[k] == w;
            assert(k > 0);
            assert(queue@[k - 1] == w);
        }
        assert(queue@ =~= prev_queue.drop_first());
        if visited[node as usize] {
            proof {
                assert(vis.contains(node));
                assert(probed.contains(node));
            }
            continue;
        }
        proof {
            assert(!probed.contains(node));
            assert(vis.insert(node).len() <= n) by {
                lemma_bounded_set_len(vis.insert(node), n as nat);
            }
            assert(probed.len() < n);
            assert(probe_run(adj, probe_size as nat, prev_queue, probed) == probe_run(
                adj,
                probe_size as nat,
                prev_queue.drop_first() + without(nbrs_of(adj, node), probed.push(node).to_set()),
                probed.push(node),
            ));
            if node != entry_point {
                assert(reach.contains(node));
            } else {
                let p = seq![entry_point];
                assert(is_live_path(adj, del, p));
                assert(reach.contains(node));
            }
        }
        let ghost old_vis = vis;
        let ghost vis_before = visited@;
        let ghost old_probed = probed;
        proof {
            vis = vis.insert(node);
            probed = probed.push(node);
            assert(probed.drop_last() =~= old_probed);
            assert forall|x: u32| #[trigger] probed.contains(x) <==> vis.contains(x) by {
                if probed.contains(x) && x != node {
                    let k = choose|k: int| 0 <= k < probed.len() && probed[k] == x;
                    assert(old_probed[k] == x);
                }
                if old_probed.contains(x) {
                    let k = choose|k: int| 0 <= k < old_probed.len() && old_probed[k] == x;
                    assert(probed[k] == x);
                }
                assert(probed[old_probed.len() as int] == node);
            }
            assert(probed.no_duplicates()) by {
                assert forall|a: int, b: int| 0 <= a < b < probed.len() implies probed[a] != probed[b] by {
                    if b == old_probed.len() {
                        assert(old_probed[a] == probed[a]);
                    }
                }
            }
        }
        let ghost qbase = queue@;
        let ghost pset = probed.to_set();
        proof {
            assert(forall|x: u32| #[trigger] pset.contains(x) <==> probed.contains(x));
            assert(adj[node as int]@.take(0) =~= Seq::<u32>::empty());
            assert(qbase + without(adj[node as int]@.take(0), pset) =~= qbase);
        }
        visited.set(node as usize, true);
        assert forall|x: u32|
            #![trigger vis.contains(x)]
            #![trigger visited@[x as int]]
            vis.contains(x) <==> ((x as int) < n && visited@[x as int]) by {
            assert(old_vis.contains(x) <==> ((x as int) < n && vis_before[x as int]));
            if (x as int) < n && x != node {
                assert(visited@[x as int] == vis_before[x as int]);
            }
        }
        total = total + 1;
        if filter.matches(node) {
            matches = matches + 1;
        }
        let nbrs = &adjacency[node as usize];
        let len = nbrs.len();
        let mut j: usize = 0;
        while j < len
            invariant
                n == adj.len(),
                adj == adjacency@,
                reach == reachable_from(adj, del, entry_point),
                del == none_deleted(n as nat),
                ids_in_range(adj),
                (node as int) < n,
                reach.contains(node),
                nbrs@ == adj[node as int]@,
                len == nbrs@.len(),
                j <= len,
                visited@.len() == n,
                forall|x: u32|
                    #![trigger vis.contains(x)]
                    #![trigger visited@[x as int]]
                    vis.contains(x) <==> ((x as int) < n && visited@[x as int]),
                forall|i: int|
                    0 <= i < queue@.len() ==> #[trigger] queue@[i] == entry_point
                        || reach.contains(queue@[i]),
                forall|i: int| 0 <= i < queue@.len() ==> (#[trigger] queue@[i] as int) < n,
                forall|k: int|
                    0 <= k < j ==> vis.contains(#[trigger] nbrs@[k]) || queue@.contains(nbrs@[k]),
                forall|w: u32| #[trigger] prev_queue.contains(w) && w != node ==> queue@.contains(w),
                forall|x: u32| #[trigger] pset.contains(x) <==> vis.contains(x),
                queue@ == qbase + without(nbrs@.take(j as int), pset),
            decreases len - j,
        {
            let nb = nbrs[j];
            proof {
                assert(nbrs@.take(j as int + 1).drop_last() =~= nbrs@.take(j as int));
                assert(nbrs@.take(j as int + 1).last() == nb);
            }
            assert((nb as int) < n) by {
                assert(adj[node as int]@[j as int] == nb);
            }
            if !visited[nb as usize] {
                proof {
                    let p = choose|p: Seq<u32>|
                        #[trigger] is_live_path(adj, del, p) && p[0] == entry_point && p.last()
                            == node;
                    assert(has_edge(adj, node, nb)) by {
                        assert(adj[node as int]@[j as int] == nb);
                    }
                    lemma_path_extend(adj, del, p, nb);
                    assert(reach.contains(nb));
                }
                let ghost before = queue@;
                queue.push_back(nb);
                assert forall|w: u32| before.contains(w) implies queue@.contains(w) by {
                    let k = choose|k: int| 0 <= k < before.len() && before[k] == w;
                    assert(queue@[k] == w);
                }
                assert(queue@[queue@.len() - 1] == nb);
                assert(queue@ =~= qbase + without(nbrs@.take(j as int), pset).push(nb));
            }
            j = j + 1;
        }
        proof {
            assert(nbrs@.take(len as int) =~= nbrs@);
            assert(nbrs_of(adj, node) == nbrs@);
        }
        proof {
            assert forall|w: u32| vis.contains(node) && #[trigger] has_edge(adj, node, w) implies vis.contains(w)
                || queue@.contains(w) by {
                let k = choose|k: int| 0 <= k < nbrs@.len() && nbrs@[k] == w;
            }
            assert(vis.len() <= n) by {
                lemma_bounded_set_len(vis, n as nat);
            }
        }
    }
    proof {
        lemma_reach_finite(adj, del, entry_point);
        vstd::set_lib::lemma_len_subset(vis, reach);
        if total < probe_size {
            assert(vis == reach);
        }
    }
    (matches, total)
}

} // verus!
