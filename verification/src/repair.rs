//! Graph side of deletion repair: finding the nodes that point at deleted
//! nodes, collecting two-hop replacement candidates, and applying new
//! neighbor lists.
use std::collections::HashSet;
use vstd::prelude::*;

verus! {

broadcast use vstd::std_specs::hash::group_hash_axioms;

/// Statistics from a repair operation.
#[derive(Clone, Debug, Default, PartialEq, Eq, Structural)]
pub struct RepairStats {
    /// Nodes processed.
    pub nodes_processed: usize,
    /// Edges removed (to deleted nodes).
    pub edges_removed: usize,
    /// Edges added (replacements).
    pub edges_added: usize,
    /// Bidirectional edges added.
    pub bidirectional_edges: usize,
}

impl RepairStats {
    /// Count one repaired node that dropped `removed` links and gained
    /// `added` links and `back` back links.
    pub fn record_node(&mut self, removed: usize, added: usize, back: usize)
        requires
            old(self).nodes_processed < usize::MAX,
            old(self).edges_removed + removed <= usize::MAX,
            old(self).edges_added + added <= usize::MAX,
            old(self).bidirectional_edges + back <= usize::MAX,
        ensures
            final(self).nodes_processed == old(self).nodes_processed + 1,
            final(self).edges_removed == old(self).edges_removed + removed,
            final(self).edges_added == old(self).edges_added + added,
            final(self).bidirectional_edges == old(self).bidirectional_edges + back,
    {
        self.nodes_processed = self.nodes_processed + 1;
        self.edges_removed = self.edges_removed + removed;
        self.edges_added = self.edges_added + added;
        self.bidirectional_edges = self.bidirectional_edges + back;
    }
}

/// `s` with every element of `gone` removed, order kept.
pub open spec fn without(s: Seq<u32>, gone: Set<u32>) -> Seq<u32>
    decreases s.len(),
{
    if s.len() == 0 {
        Seq::empty()
    } else {
        let r = without(s.drop_last(), gone);
        if gone.contains(s.last()) {
            r
        } else {
            r.push(s.last())
        }
    }
}

/// Removing ids never makes a list longer.
pub proof fn lemma_without_len(s: Seq<u32>, gone: Set<u32>)
    ensures
        without(s, gone).len() <= s.len(),
    decreases s.len(),
{
    if s.len() > 0 {
        lemma_without_len(s.drop_last(), gone);
    }
}

/// A list stripped of the ids in `gone` holds none of them, and keeps
/// every other id it held.
pub proof fn lemma_without_avoids(s: Seq<u32>, gone: Set<u32>, x: u32)
    ensures
        without(s, gone).contains(x) <==> (s.contains(x) && !gone.contains(x)),
    decreases s.len(),
{
    if s.len() > 0 {
        lemma_without_avoids(s.drop_last(), gone, x);
        let r = without(s.drop_last(), gone);
        if s.drop_last().contains(x) {
            let k = choose|k: int| 0 <= k < s.drop_last().len() && s.drop_last()[k] == x;
            assert(s[k] == x);
        }
        if s.contains(x) && x != s.last() {
            let k = choose|k: int| 0 <= k < s.len() && s[k] == x;
            assert(s.drop_last()[k] == x);
        }
        if !gone.contains(s.last()) {
            if r.contains(x) {
                let k = choose|k: int| 0 <= k < r.len() && r[k] == x;
                assert(r.push(s.last())[k] == x);
            }
            if r.push(s.last()).contains(x) && x != s.last() {
                let k = choose|k: int| 0 <= k < r.len() + 1 && r.push(s.last())[k] == x;
                assert(r[k] == x);
            }
            assert(r.push(s.last())[r.len() as int] == s.last());
        }
        assert(s[s.len() - 1] == s.last());
    }
}

/// `s` mentions some element of `gone`.
pub open spec fn mentions(s: Seq<u32>, gone: Set<u32>) -> bool {
    exists|i: int| 0 <= i < s.len() && gone.contains(#[trigger] s[i])
}

/// The repair work for a layer after the nodes in `gone` are deleted, over
/// nodes `0..k`: each surviving node whose list mentions a deleted node,
/// with its list stripped of deleted nodes, in node order.
pub open spec fn repair_tasks(layer: Seq<Vec<u32>>, gone: Set<u32>, k: int) -> Seq<(u32, Seq<u32>)>
    decreases k,
{
    if k <= 0 {
        Seq::empty()
    } else {
        let prev = repair_tasks(layer, gone, k - 1);
        let node = (k - 1) as u32;
        if !gone.contains(node) && mentions(layer[k - 1]@, gone) {
            prev.push((node, without(layer[k - 1]@, gone)))
        } else {
            prev
        }
    }
}

/// Which nodes need repair: over nodes `0..k`, exactly the nodes not
/// deleted whose list mentions a deleted node, each once and in increasing
/// order, each paired with its list minus the deleted nodes.
pub proof fn lemma_repair_tasks_exact(layer: Seq<Vec<u32>>, gone: Set<u32>, k: int, j: int, y: u32)
    requires
        0 <= k <= layer.len(),
        k <= u32::MAX + 1,
    ensures
        forall|t: int|
            0 <= t < repair_tasks(layer, gone, k).len() ==> {
                let n = #[trigger] repair_tasks(layer, gone, k)[t].0;
                &&& (n as int) < k
                &&& !gone.contains(n)
                &&& mentions(layer[n as int]@, gone)
            },
        forall|t: int, u: int|
            0 <= t < u < repair_tasks(layer, gone, k).len() ==> #[trigger] repair_tasks(layer, gone, k)[t].0
                < #[trigger] repair_tasks(layer, gone, k)[u].0,
        0 <= j < k && !gone.contains(j as u32) && mentions(layer[j]@, gone) ==> exists|t: int|
            0 <= t < repair_tasks(layer, gone, k).len() && #[trigger] repair_tasks(layer, gone, k)[t].0
                == j as u32,
        forall|t: int|
            0 <= t < repair_tasks(layer, gone, k).len() ==> (#[trigger] repair_tasks(layer, gone, k)[t].1.contains(y)
                <==> layer[repair_tasks(layer, gone, k)[t].0 as int]@.contains(y) && !gone.contains(y)),
    decreases k,
{
    if k > 0 {
        lemma_repair_tasks_exact(layer, gone, k - 1, j, y);
        let prev = repair_tasks(layer, gone, k - 1);
        let cur = repair_tasks(layer, gone, k);
        let node = (k - 1) as u32;
        assert forall|t: int| 0 <= t < cur.len() implies (#[trigger] cur[t].1.contains(y)
            <==> layer[cur[t].0 as int]@.contains(y) && !gone.contains(y)) by {
            if t < prev.len() {
                assert(cur[t] == prev[t]);
            } else {
                lemma_without_avoids(layer[k - 1]@, gone, y);
            }
        }
        assert forall|t: int| 0 <= t < cur.len() implies {
            let n = #[trigger] cur[t].0;
            &&& (n as int) < k
            &&& !gone.contains(n)
            &&& mentions(layer[n as int]@, gone)
        } by {
            if t < prev.len() {
                assert(cur[t] == prev[t]);
            }
        }
        assert forall|t: int, u: int| 0 <= t < u < cur.len() implies #[trigger] cur[t].0 < #[trigger] cur[u].0 by {
            if u < prev.len() {
                assert(cur[t] == prev[t] && cur[u] == prev[u]);
            } else {
                assert(cur[t] == prev[t]);
                assert((prev[t].0 as int) < k - 1);
            }
        }
        if 0 <= j < k && !gone.contains(j as u32) && mentions(layer[j]@, gone) {
            if j < k - 1 {
                let t = choose|t: int| 0 <= t < prev.len() && #[trigger] prev[t].0 == j as u32;
                assert(cur[t] == prev[t]);
            } else {
                assert(cur[prev.len() as int].0 == j as u32);
            }
        }
    }
}

/// `list` without the ids in `gone`, order kept, and whether it held any
/// of them.
pub fn strip(list: &Vec<u32>, gone: &HashSet<u32>) -> (res: (Vec<u32>, bool))
    ensures
        res.0@ == without(list@, gone@),
        res.1 == mentions(list@, gone@),
{
    let mut out: Vec<u32> = Vec::new();
    let mut hit = false;
    let mut i: usize = 0;
    while i < list.len()
        invariant
            i <= list@.len(),
            out@ == without(list@.subrange(0, i as int), gone@),
            hit == mentions(list@.subrange(0, i as int), gone@),
        decreases list@.len() - i,
    {
        let x = list[i];
        let ghost pre = list@.subrange(0, i as int);
        let ghost next = list@.subrange(0, i as int + 1);
        proof {
            assert(next.drop_last() =~= pre);
            assert(next.last() == x);
        }
        if gone.contains(&x) {
            hit = true;
            assert(next[i as int] == x);
        } else {
            out.push(x);
        }
        proof {
            if mentions(next, gone@) && !gone@.contains(x) {
                let k = choose|k: int| 0 <= k < next.len() && gone@.contains(#[trigger] next[k]);
                assert(k < i);
                assert(pre[k] == next[k]);
            }
            if mentions(pre, gone@) {
                let k = choose|k: int| 0 <= k < pre.len() && gone@.contains(#[trigger] pre[k]);
                assert(next[k] == pre[k]);
            }
        }
        i = i + 1;
    }
    assert(list@.subrange(0, list@.len() as int) =~= list@);
    (out, hit)
}

/// Scan a layer for the nodes that point at deleted nodes: each surviving
/// node whose list mentions a node of `deleted`, paired with its list
/// stripped of deleted nodes, in node order.
pub fn in_neighbor_repairs(layer: &[Vec<u32>], deleted: &HashSet<u32>) -> (res: Vec<(u32, Vec<u32>)>)
    requires
        layer@.len() <= u32::MAX,
    ensures
        res@.len() == repair_tasks(layer@, deleted@, layer@.len() as int).len(),
        forall|t: int|
            0 <= t < res@.len() ==> (#[trigger] res@[t]).0 == repair_tasks(
                layer@,
                deleted@,
                layer@.len() as int,
            )[t].0 && res@[t].1@ == repair_tasks(layer@, deleted@, layer@.len() as int)[t].1,
{
    let mut res: Vec<(u32, Vec<u32>)> = Vec::new();
    let mut node: usize = 0;
    while node < layer.len()
        invariant
            node <= layer@.len(),
            layer@.len() <= u32::MAX,
            res@.len() == repair_tasks(layer@, deleted@, node as int).len(),
            forall|t: int|
                0 <= t < res@.len() ==> (#[trigger] res@[t]).0 == repair_tasks(
                    layer@,
                    deleted@,
                    node as int,
                )[t].0 && res@[t].1@ == repair_tasks(layer@, deleted@, node as int)[t].1,
        decreases layer@.len() - node,
    {
        let id = node as u32;
        if !deleted.contains(&id) {
            let (remaining, hit) = strip(&layer[node], deleted);
            if hit {
                res.push((id, remaining));
            }
        }
        node = node + 1;
    }
    res
}

/// The same scan for a single deleted node.
pub fn in_neighbor_repairs_single(layer: &[Vec<u32>], deleted: u32) -> (res: Vec<(u32, Vec<u32>)>)
    requires
        layer@.len() <= u32::MAX,
    ensures
        res@.len() == repair_tasks(layer@, set![deleted], layer@.len() as int).len(),
        forall|t: int|
            0 <= t < res@.len() ==> (#[trigger] res@[t]).0 == repair_tasks(
                layer@,
                set![deleted],
                layer@.len() as int,
            )[t].0 && res@[t].1@ == repair_tasks(layer@, set![deleted], layer@.len() as int)[t].1,
{
    let mut set: HashSet<u32> = HashSet::new();
    set.insert(deleted);
    assert(set@ =~= set![deleted]);
    in_neighbor_repairs(layer, &set)
}

/// The neighbor lists of `nodes`, concatenated in order (a node without a
/// list contributes nothing).
pub open spec fn hop_seq(layer: Seq<Vec<u32>>, nodes: Seq<u32>) -> Seq<u32>
    decreases nodes.len(),
{
    if nodes.len() == 0 {
        Seq::empty()
    } else {
        let rest = hop_seq(layer, nodes.drop_last());
        if (nodes.last() as int) < layer.len() {
            rest + layer[nodes.last() as int]@
        } else {
            rest
        }
    }
}

/// The first occurrences in `s` of ids outside `skip`, in order.
pub open spec fn fresh_in_order(s: Seq<u32>, skip: Set<u32>) -> Seq<u32>
    decreases s.len(),
{
    if s.len() == 0 {
        Seq::empty()
    } else {
        let r = fresh_in_order(s.drop_last(), skip);
        if skip.contains(s.last()) || r.contains(s.last()) {
            r
        } else {
            r.push(s.last())
        }
    }
}

/// What the candidate filter keeps: every id of `s` outside `skip`, each
/// once, and nothing else, in the order of first occurrence in `s`.
pub proof fn lemma_fresh_in_order_exact(s: Seq<u32>, skip: Set<u32>)
    ensures
        forall|x: u32| #[trigger]
            fresh_in_order(s, skip).contains(x) <==> s.contains(x) && !skip.contains(x),
        fresh_in_order(s, skip).no_duplicates(),
        forall|p: int, q: int, j: int|
            #![trigger fresh_in_order(s, skip)[p], fresh_in_order(s, skip)[q], s[j]]
            0 <= p < q < fresh_in_order(s, skip).len() && 0 <= j < s.len() && s[j]
                == fresh_in_order(s, skip)[q] ==> s.take(j).contains(fresh_in_order(s, skip)[p]),
    decreases s.len(),
{
    if s.len() > 0 {
        let s0 = s.drop_last();
        let x = s.last();
        lemma_fresh_in_order_exact(s0, skip);
        let r0 = fresh_in_order(s0, skip);
        let r = fresh_in_order(s, skip);
        assert(s[s.len() - 1] == x);
        assert forall|y: u32| #[trigger] s.contains(y) <==> s0.contains(y) || y == x by {
            if s.contains(y) {
                let k = choose|k: int| 0 <= k < s.len() && s[k] == y;
                if k < s0.len() {
                    assert(s0[k] == y);
                }
            }
            if s0.contains(y) {
                let k = choose|k: int| 0 <= k < s0.len() && s0[k] == y;
                assert(s[k] == y);
            }
        }
        let added = !(skip.contains(x) || r0.contains(x));
        assert forall|y: u32| #[trigger] r.contains(y) <==> r0.contains(y) || (added && y == x) by {
            if added {
                if r.contains(y) {
                    let k = choose|k: int| 0 <= k < r.len() && r[k] == y;
                    if k < r0.len() {
                        assert(r0[k] == y);
                    }
                }
                if r0.contains(y) {
                    let k = choose|k: int| 0 <= k < r0.len() && r0[k] == y;
                    assert(r[k] == y);
                }
                assert(r[r0.len() as int] == x);
            }
        }
        assert forall|a: int, b: int| 0 <= a < b < r.len() implies r[a] != r[b] by {
            if b < r0.len() {
                assert(r[a] == r0[a] && r[b] == r0[b]);
            } else {
                assert(r[a] == r0[a]);
                assert(r0.contains(r0[a]));
            }
        }
        assert forall|p: int, q: int, j: int|
            #![trigger r[p], r[q], s[j]]
            0 <= p < q < r.len() && 0 <= j < s.len() && s[j] == r[q] implies s.take(j).contains(r[p]) by {
            assert(r[p] == r0[p]);
            assert(r0.contains(r0[p]));
            assert(s0.contains(r0[p]));
            if q < r0.len() {
                assert(r[q] == r0[q]);
                if j < s0.len() {
                    assert(s0[j] == r0[q]);
                    assert(s0.take(j).contains(r0[p]));
                    let i = choose|i: int| 0 <= i < s0.take(j).len() && s0.take(j)[i] == r0[p];
                    assert(s.take(j)[i] == r[p]);
                } else {
                    assert(r0.contains(r0[q]));
                    assert(s0.contains(r0[q]));
                    let j2 = choose|j2: int| 0 <= j2 < s0.len() && s0[j2] == r0[q];
                    assert(s0.take(j2).contains(r0[p]));
                    let i = choose|i: int| 0 <= i < s0.take(j2).len() && s0.take(j2)[i] == r0[p];
                    assert(s.take(j)[i] == r[p]);
                }
            } else {
                assert(q == r0.len() && added && r[q] == x);
                let i = choose|i: int| 0 <= i < s0.len() && s0[i] == r0[p];
                if j < s0.len() {
                    assert(s0[j] == x);
                    assert(s0.contains(x));
                    assert(!skip.contains(x));
                    assert(r0.contains(x));
                    assert(false);
                }
                assert(s.take(j)[i] == r[p]);
            }
        }
    }
}

/// Replacement candidates for `from_node`: the two-hop neighbors reached
/// through `existing` (its surviving neighbors), each once, in discovery
/// order, leaving out `from_node`, `existing` itself and `excluded`.
pub fn two_hop_candidates(
    layer: &[Vec<u32>],
    from_node: u32,
    existing: &[u32],
    excluded: &HashSet<u32>,
) -> (res: Vec<u32>)
    ensures
        res@ == fresh_in_order(
            hop_seq(layer@, existing@),
            existing@.to_set().insert(from_node).union(excluded@),
        ),
{
    let ghost skip = existing@.to_set().insert(from_node).union(excluded@);
    let mut visited: HashSet<u32> = HashSet::new();
    visited.insert(from_node);
    let mut e: usize = 0;
    while e < existing.len()
        invariant
            e <= existing@.len(),
            visited@ == existing@.subrange(0, e as int).to_set().insert(from_node),
        decreases existing@.len() - e,
    {
        proof {
            assert(existing@.subrange(0, e as int + 1) =~= existing@.subrange(0, e as int).push(
                existing@[e as int],
            ));
            existing@.subrange(0, e as int).lemma_push_to_set_commute(existing@[e as int]);
        }
        visited.insert(existing[e]);
        e = e + 1;
    }
    assert(existing@.subrange(0, existing@.len() as int) =~= existing@);
    let mut out: Vec<u32> = Vec::new();
    let mut n: usize = 0;
    while n < existing.len()
        invariant
            n <= existing@.len(),
            skip == existing@.to_set().insert(from_node).union(excluded@),
            out@ == fresh_in_order(hop_seq(layer@, existing@.subrange(0, n as int)), skip),
            forall|x: u32|
                #![trigger visited@.contains(x)]
                #![trigger skip.contains(x)]
                #![trigger out@.contains(x)]
                (visited@.contains(x) || excluded@.contains(x)) <==> (skip.contains(x)
                    || out@.contains(x)),
        decreases existing@.len() - n,
    {
        let ghost pre_nodes = existing@.subrange(0, n as int);
        let ghost pre = hop_seq(layer@, pre_nodes);
        proof {
            let next_nodes = existing@.subrange(0, n as int + 1);
            assert(next_nodes.drop_last() =~= pre_nodes);
            assert(next_nodes.last() == existing@[n as int]);
        }
        let node = existing[n];
        if (node as usize) < layer.len() {
            let list = &layer[node as usize];
            let mut j: usize = 0;
            while j < list.len()
                invariant
                    j <= list@.len(),
                    out@ == fresh_in_order(pre + list@.subrange(0, j as int), skip),
                    forall|x: u32|
                        #![trigger visited@.contains(x)]
                        #![trigger skip.contains(x)]
                        #![trigger out@.contains(x)]
                        (visited@.contains(x) || excluded@.contains(x)) <==> (skip.contains(x)
                            || out@.contains(x)),
                decreases list@.len() - j,
            {
                let x = list[j];
                proof {
                    let s1 = pre + list@.subrange(0, j as int + 1);
                    assert(s1.drop_last() =~= pre + list@.subrange(0, j as int));
                    assert(s1.last() == x);
                }
                if !excluded.contains(&x) && visited.insert(x) {
                    let ghost prev = out@;
                    out.push(x);
                    assert forall|y: u32| #[trigger] prev.contains(y) implies out@.contains(y) by {
                        let k = choose|k: int| 0 <= k < prev.len() && prev[k] == y;
                        assert(out@[k] == y);
                    }
                    assert forall|y: u32| #[trigger] out@.contains(y) implies prev.contains(y) || y == x by {
                        let k = choose|k: int| 0 <= k < out@.len() && out@[k] == y;
                        if k < prev.len() {
                            assert(prev[k] == y);
                        }
                    }
                    assert(out@[prev.len() as int] == x);
                }
                j = j + 1;
            }
            assert(list@.subrange(0, list@.len() as int) =~= list@);
        } else {
            assert(pre + Seq::<u32>::empty() =~= pre);
        }
        n = n + 1;
    }
    assert(existing@.subrange(0, existing@.len() as int) =~= existing@);
    out
}

/// `base` followed by the first `capacity` entries of `extra` (all of them
/// when fewer).
pub fn extend_up_to(base: &[u32], extra: &[u32], capacity: usize) -> (res: Vec<u32>)
    ensures
        res@ == base@ + extra@.take(
            if extra@.len() < capacity {
                extra@.len() as int
            } else {
                capacity as int
            },
        ),
{
    let mut res: Vec<u32> = Vec::with_capacity(base.len());
    let mut i: usize = 0;
    while i < base.len()
        invariant
            i <= base@.len(),
            res@ == base@.take(i as int),
        decreases base@.len() - i,
    {
        res.push(base[i]);
        assert(base@.take(i as int + 1) =~= base@.take(i as int).push(base@[i as int]));
        i = i + 1;
    }
    assert(base@.take(base@.len() as int) =~= base@);
    let mut added: usize = 0;
    while added < extra.len() && added < capacity
        invariant
            added <= extra@.len(),
            added <= capacity,
            res@ == base@ + extra@.take(added as int),
        decreases extra@.len() - added,
    {
        res.push(extra[added]);
        assert(extra@.take(added as int + 1) =~= extra@.take(added as int).push(extra@[added as int]));
        added = added + 1;
    }
    res
}

/// Add each of `candidates` not yet present to `list` while it holds fewer
/// than `max_len` entries.
pub open spec fn append_missing(list: Seq<u32>, candidates: Seq<u32>, max_len: nat) -> Seq<u32>
    decreases candidates.len(),
{
    if candidates.len() == 0 {
        list
    } else {
        let r = append_missing(list, candidates.drop_last(), max_len);
        let c = candidates.last();
        if !r.contains(c) && r.len() < max_len {
            r.push(c)
        } else {
            r
        }
    }
}

/// Appending missing candidates: the list keeps its entries in place,
/// gains only candidates it did not hold (each once), never grows past
/// `max_len` unless it already held more, and holds every candidate
/// afterwards unless it is full.
pub proof fn lemma_append_missing_exact(list: Seq<u32>, candidates: Seq<u32>, max_len: nat)
    ensures
        list.is_prefix_of(append_missing(list, candidates, max_len)),
        append_missing(list, candidates, max_len).len() <= if list.len() < max_len {
            max_len
        } else {
            list.len()
        },
        forall|k: int|
            #![trigger append_missing(list, candidates, max_len)[k]]
            list.len() <= k < append_missing(list, candidates, max_len).len() ==> candidates.contains(
                append_missing(list, candidates, max_len)[k],
            ) && !append_missing(list, candidates, max_len).take(k).contains(
                append_missing(list, candidates, max_len)[k],
            ),
        forall|c: u32|
            #[trigger] candidates.contains(c) ==> append_missing(list, candidates, max_len).contains(c)
                || append_missing(list, candidates, max_len).len() >= max_len,
    decreases candidates.len(),
{
    if candidates.len() > 0 {
        let c0 = candidates.drop_last();
        let x = candidates.last();
        lemma_append_missing_exact(list, c0, max_len);
        let r0 = append_missing(list, c0, max_len);
        let r = append_missing(list, candidates, max_len);
        assert(candidates[candidates.len() - 1] == x);
        assert forall|k: int|
            #![trigger r[k]]
            list.len() <= k < r.len() implies candidates.contains(r[k]) && !r.take(k).contains(r[k]) by {
            if k < r0.len() {
                assert(r[k] == r0[k]);
                assert(r.take(k) =~= r0.take(k));
                let i = choose|i: int| 0 <= i < c0.len() && c0[i] == r0[k];
                assert(candidates[i] == r[k]);
            } else {
                assert(r.take(k) =~= r0);
            }
        }
        assert forall|c: u32| #[trigger] candidates.contains(c) implies r.contains(c) || r.len() >= max_len by {
            let i = choose|i: int| 0 <= i < candidates.len() && candidates[i] == c;
            if i < c0.len() {
                assert(c0[i] == c);
                assert(c0.contains(c));
                if r0.contains(c) {
                    let q = choose|q: int| 0 <= q < r0.len() && r0[q] == c;
                    assert(r[q] == c);
                }
            } else if !r0.contains(x) && r0.len() < max_len {
                assert(r[r0.len() as int] == x);
            } else if r0.contains(x) {
                let q = choose|q: int| 0 <= q < r0.len() && r0[q] == x;
                assert(r[q] == x);
            }
        }
    }
}

/// Append each candidate that `list` lacks, as long as the list stays
/// within `max_len` entries.
pub fn append_missing_up_to(list: &mut Vec<u32>, candidates: &[u32], max_len: usize)
    ensures
        final(list)@ == append_missing(old(list)@, candidates@, max_len as nat),
{
    let ghost start = list@;
    let mut i: usize = 0;
    while i < candidates.len()
        invariant
            i <= candidates@.len(),
            list@ == append_missing(start, candidates@.subrange(0, i as int), max_len as nat),
        decreases candidates@.len() - i,
    {
        let c = candidates[i];
        proof {
            let next = candidates@.subrange(0, i as int + 1);
            assert(next.drop_last() =~= candidates@.subrange(0, i as int));
            assert(next.last() == c);
        }
        if !contains_id(list, c) && list.len() < max_len {
            list.push(c);
        }
        i = i + 1;
    }
    assert(candidates@.subrange(0, candidates@.len() as int) =~= candidates@);
}

/// Whether `list` holds `x`.
pub fn contains_id(list: &Vec<u32>, x: u32) -> (res: bool)
    ensures
        res == list@.contains(x),
{
    let mut i: usize = 0;
    while i < list.len()
        invariant
            i <= list@.len(),
            forall|k: int| 0 <= k < i ==> list@[k] != x,
        decreases list@.len() - i,
    {
        if list[i] == x {
            return true;
        }
        i = i + 1;
    }
    false
}

/// The list at position `j` once the first `k` replacements were written: the
/// last of them aimed at `j`, or the old list.
pub open spec fn replaced(old: Seq<Vec<u32>>, reps: Seq<(u32, Vec<u32>)>, k: int, j: int) -> Seq<u32>
    decreases k,
{
    if k <= 0 {
        old[j]@
    } else if reps[k - 1].0 as int == j {
        reps[k - 1].1@
    } else {
        replaced(old, reps, k - 1, j)
    }
}

/// Write the new neighbor lists of a repair into a layer, then empty the
/// lists of the deleted nodes (those ids the layer holds).
pub fn apply_repairs(layer: &mut Vec<Vec<u32>>, replacements: Vec<(u32, Vec<u32>)>, deleted: &[u32])
    requires
        old(layer)@.len() <= u32::MAX + 1,
        forall|t: int|
            0 <= t < replacements@.len() ==> ((#[trigger] replacements@[t]).0 as int) < old(
                layer,
            )@.len(),
    ensures
        final(layer)@.len() == old(layer)@.len(),
        forall|j: int|
            0 <= j < old(layer)@.len() ==> (#[trigger] final(layer)@[j])@ == if deleted@.contains(
                j as u32,
            ) {
                Seq::<u32>::empty()
            } else {
                replaced(old(layer)@, replacements@, replacements@.len() as int, j)
            },
{
    let ghost start = layer@;
    let ghost reps = replacements@;
    let mut t: usize = 0;
    while t < replacements.len()
        invariant
            reps == replacements@,
            t <= reps.len(),
            layer@.len() == start.len(),
            forall|u: int| 0 <= u < reps.len() ==> ((#[trigger] reps[u]).0 as int) < start.len(),
            forall|j: int|
                0 <= j < start.len() ==> (#[trigger] layer@[j])@ == replaced(start, reps, t as int, j),
        decreases reps.len() - t,
    {
        let node = replacements[t].0;
        let list = replacements[t].1.clone();
        let ghost prev = layer@;
        layer.set(node as usize, list);
        assert forall|j: int| 0 <= j < start.len() implies (#[trigger] layer@[j])@ == replaced(
            start,
            reps,
            t as int + 1,
            j,
        ) by {
            if j != node as int {
                assert(layer@[j] == prev[j]);
            }
        }
        t = t + 1;
    }
    let mut d: usize = 0;
    while d < deleted.len()
        invariant
            reps == replacements@,
            d <= deleted@.len(),
            layer@.len() == start.len(),
            forall|j: int|
                0 <= j < start.len() ==> (#[trigger] layer@[j])@ == if deleted@.subrange(
                    0,
                    d as int,
                ).contains(j as u32) {
                    Seq::<u32>::empty()
                } else {
                    replaced(start, reps, reps.len() as int, j)
                },
            start.len() <= u32::MAX + 1,
        decreases deleted@.len() - d,
    {
        let id = deleted[d];
        let ghost prev = layer@;
        let ghost pre = deleted@.subrange(0, d as int);
        if (id as usize) < layer.len() {
            layer.set(id as usize, Vec::new());
        }
        assert forall|j: int| 0 <= j < start.len() implies (#[trigger] layer@[j])@ == if deleted@.subrange(
            0,
            d as int + 1,
        ).contains(j as u32) {
            Seq::<u32>::empty()
        } else {
            replaced(start, reps, reps.len() as int, j)
        } by {
            let next = deleted@.subrange(0, d as int + 1);
            assert(next =~= pre.push(id));
            assert((j as u32) as int == j);
            if j == id as int {
                assert(next[pre.len() as int] == j as u32);
                assert(layer@[j]@ == Seq::<u32>::empty());
            }
            if next.contains(j as u32) && !pre.contains(j as u32) {
                let k = choose|k: int| 0 <= k < next.len() && next[k] == j as u32;
                if k < pre.len() {
                    assert(pre[k] == j as u32);
                }
                assert(id == j as u32);
            }
            if pre.contains(j as u32) {
                let k = choose|k: int| 0 <= k < pre.len() && pre[k] == j as u32;
                assert(next[k] == j as u32);
            }
            if j != id as int {
                assert(layer@[j] == prev[j]);
            }
        }
        d = d + 1;
    }
    assert(deleted@.subrange(0, deleted@.len() as int) =~= deleted@);
}

/// The surviving neighbors of the deleted nodes `ids`: every id that one of
/// them lists (a node without a list lists nothing) and that is not in
/// `deleted`. These are the nodes a batch deletion has to repair.
pub fn neighbors_to_repair(layer: &[Vec<u32>], ids: &[u32], deleted: &HashSet<u32>) -> (res: HashSet<u32>)
    ensures
        forall|x: u32| #[trigger] res@.contains(x) <==> (!deleted@.contains(x) && exists|k: int, j: int|
            0 <= k < ids@.len() && (ids@[k] as int) < layer@.len() && 0 <= j < layer@[ids@[k] as int]@.len()
                && #[trigger] layer@[ids@[k] as int]@[j] == x),
{
    let mut res: HashSet<u32> = HashSet::new();
    let mut k: usize = 0;
    while k < ids.len()
        invariant
            k <= ids@.len(),
            forall|x: u32| #[trigger] res@.contains(x) <==> (!deleted@.contains(x) && exists|k2: int, j: int|
                0 <= k2 < k && (ids@[k2] as int) < layer@.len() && 0 <= j < layer@[ids@[k2] as int]@.len()
                    && #[trigger] layer@[ids@[k2] as int]@[j] == x),
        decreases ids@.len() - k,
    {
        let id = ids[k];
        if (id as usize) < layer.len() {
            let list = &layer[id as usize];
            let mut j: usize = 0;
            while j < list.len()
                invariant
                    k < ids@.len(),
                    id == ids@[k as int],
                    (id as int) < layer@.len(),
                    list@ == layer@[id as int]@,
                    j <= list@.len(),
                    forall|x: u32| #[trigger] res@.contains(x) <==> (!deleted@.contains(x) && ((exists|k2: int, j2: int|
                        0 <= k2 < k && (ids@[k2] as int) < layer@.len() && 0 <= j2 < layer@[ids@[k2] as int]@.len()
                            && #[trigger] layer@[ids@[k2] as int]@[j2] == x) || (exists|j2: int| 0 <= j2 < j && #[trigger] list@[j2] == x))),
                decreases list@.len() - j,
            {
                let nb = list[j];
                if !deleted.contains(&nb) {
                    res.insert(nb);
                }
                proof {
                    assert(list@[j as int] == nb);
                }
                j = j + 1;
            }
            proof {
                assert forall|x: u32| #[trigger] res@.contains(x) <==> (!deleted@.contains(x) && exists|k2: int, j2: int|
                    0 <= k2 < k + 1 && (ids@[k2] as int) < layer@.len() && 0 <= j2 < layer@[ids@[k2] as int]@.len()
                        && #[trigger] layer@[ids@[k2] as int]@[j2] == x) by {
                    if res@.contains(x) && (exists|j2: int| 0 <= j2 < list@.len() && #[trigger] list@[j2] == x) {
                        let j2 = choose|j2: int| 0 <= j2 < list@.len() && #[trigger] list@[j2] == x;
                        assert(layer@[ids@[k as int] as int]@[j2] == x);
                    }
                    if exists|k2: int, j2: int|
                        0 <= k2 < k + 1 && (ids@[k2] as int) < layer@.len() && 0 <= j2 < layer@[ids@[k2] as int]@.len()
                            && #[trigger] layer@[ids@[k2] as int]@[j2] == x {
                        let (k2, j2) = choose|k2: int, j2: int|
                            0 <= k2 < k + 1 && (ids@[k2] as int) < layer@.len() && 0 <= j2 < layer@[ids@[k2] as int]@.len()
                                && #[trigger] layer@[ids@[k2] as int]@[j2] == x;
                        if k2 == k {
                            assert(list@[j2] == x);
                        }
                    }
                }
            }
        } else {
            proof {
                assert forall|x: u32| #[trigger] res@.contains(x) <==> (!deleted@.contains(x) && exists|k2: int, j2: int|
                    0 <= k2 < k + 1 && (ids@[k2] as int) < layer@.len() && 0 <= j2 < layer@[ids@[k2] as int]@.len()
                        && #[trigger] layer@[ids@[k2] as int]@[j2] == x) by {
                    if exists|k2: int, j2: int|
                        0 <= k2 < k + 1 && (ids@[k2] as int) < layer@.len() && 0 <= j2 < layer@[ids@[k2] as int]@.len()
                            && #[trigger] layer@[ids@[k2] as int]@[j2] == x {
                        let (k2, j2) = choose|k2: int, j2: int|
                            0 <= k2 < k + 1 && (ids@[k2] as int) < layer@.len() && 0 <= j2 < layer@[ids@[k2] as int]@.len()
                                && #[trigger] layer@[ids@[k2] as int]@[j2] == x;
                        assert(k2 != k);
                    }
                }
            }
        }
        k = k + 1;
    }
    res
}


proof fn lemma_tasks_cover(layer: Seq<Vec<u32>>, gone: Set<u32>, k: int, j: int)
    requires
        0 <= j < k <= layer.len(),
        layer.len() <= u32::MAX + 1,
        !gone.contains(j as u32),
        mentions(layer[j]@, gone),
    ensures
        exists|t: int|
            0 <= t < repair_tasks(layer, gone, k).len() && (#[trigger] repair_tasks(layer, gone, k)[t]).0
                == j as u32,
    decreases k,
{
    let prev = repair_tasks(layer, gone, k - 1);
    if j < k - 1 {
        lemma_tasks_cover(layer, gone, k - 1, j);
        let t = choose|t: int| 0 <= t < prev.len() && (#[trigger] prev[t]).0 == j as u32;
        assert(repair_tasks(layer, gone, k)[t] == prev[t]);
    } else {
        assert(repair_tasks(layer, gone, k)[prev.len() as int].0 == j as u32);
    }
}

proof fn lemma_replaced_source(old: Seq<Vec<u32>>, reps: Seq<(u32, Vec<u32>)>, k: int, j: int)
    requires
        0 <= k <= reps.len(),
    ensures
        (replaced(old, reps, k, j) == old[j]@ && forall|t: int| 0 <= t < k ==> (#[trigger] reps[t]).0 as int != j)
            || exists|t: int| 0 <= t < k && (#[trigger] reps[t]).0 as int == j && replaced(old, reps, k, j) == reps[t].1@,
    decreases k,
{
    if k > 0 {
        lemma_replaced_source(old, reps, k - 1, j);
        if reps[k - 1].0 as int != j {
            if exists|t: int| 0 <= t < k - 1 && (#[trigger] reps[t]).0 as int == j && replaced(old, reps, k - 1, j) == reps[t].1@ {
                let t = choose|t: int| 0 <= t < k - 1 && (#[trigger] reps[t]).0 as int == j && replaced(old, reps, k - 1, j) == reps[t].1@;
                assert(0 <= t < k);
            }
        }
    }
}

/// A deletion repair leaves no list pointing at a deleted node: when each
/// node that the scan of [`in_neighbor_repairs`] reports gets a new list
/// holding no deleted id (its stripped list followed by two-hop candidates
/// found with the deleted ids excluded is such a list), then after
/// [`apply_repairs`] writes those lists and empties the deleted nodes' own
/// lists, no list of the layer holds a deleted id.
pub proof fn lemma_repair_leaves_no_deleted(
    layer: Seq<Vec<u32>>,
    deleted: Seq<u32>,
    reps: Seq<(u32, Vec<u32>)>,
    j: int,
    x: u32,
)
    requires
        layer.len() <= u32::MAX + 1,
        reps.len() == repair_tasks(layer, deleted.to_set(), layer.len() as int).len(),
        forall|t: int|
            0 <= t < reps.len() ==> (#[trigger] reps[t]).0 == repair_tasks(
                layer,
                deleted.to_set(),
                layer.len() as int,
            )[t].0,
        forall|t: int, y: u32|
            0 <= t < reps.len() && #[trigger] reps[t].1@.contains(y) ==> !deleted.contains(y),
        0 <= j < layer.len(),
        deleted.contains(x),
    ensures
        !(if deleted.contains(j as u32) {
            Seq::<u32>::empty()
        } else {
            replaced(layer, reps, reps.len() as int, j)
        }).contains(x),
{
    let gone = deleted.to_set();
    if !deleted.contains(j as u32) {
        lemma_replaced_source(layer, reps, reps.len() as int, j);
        if exists|t: int| 0 <= t < reps.len() && (#[trigger] reps[t]).0 as int == j && replaced(layer, reps, reps.len() as int, j) == reps[t].1@ {
            let t = choose|t: int| 0 <= t < reps.len() && (#[trigger] reps[t]).0 as int == j && replaced(layer, reps, reps.len() as int, j) == reps[t].1@;
            if reps[t].1@.contains(x) {
                assert(!deleted.contains(x));
            }
        } else {
            if layer[j]@.contains(x) {
                let q = choose|q: int| 0 <= q < layer[j]@.len() && layer[j]@[q] == x;
                assert(gone.contains(layer[j]@[q]));
                assert(mentions(layer[j]@, gone));
                assert(!gone.contains(j as u32));
                lemma_tasks_cover(layer, gone, layer.len() as int, j);
                let t = choose|t: int|
                    0 <= t < repair_tasks(layer, gone, layer.len() as int).len() && (#[trigger] repair_tasks(
                        layer,
                        gone,
                        layer.len() as int,
                    )[t]).0 == j as u32;
                assert(reps[t].0 == j as u32);
            }
        }
    }
}

proof fn lemma_fresh_avoids(s: Seq<u32>, skip: Set<u32>, x: u32)
    requires
        skip.contains(x),
    ensures
        !fresh_in_order(s, skip).contains(x),
    decreases s.len(),
{
    if s.len() > 0 {
        lemma_fresh_avoids(s.drop_last(), skip, x);
        let r = fresh_in_order(s.drop_last(), skip);
        if !skip.contains(s.last()) && !r.contains(s.last()) {
            if r.push(s.last()).contains(x) {
                let k = choose|k: int| 0 <= k < r.len() + 1 && r.push(s.last())[k] == x;
                if k < r.len() {
                    assert(r[k] == x);
                }
            }
        }
    }
}

/// The list a deletion repair gives a node holds no deleted id: its list
/// stripped of the deleted ids, followed by any number of the two-hop
/// candidates found with the deleted ids excluded.
pub proof fn lemma_repaired_list_avoids_deleted(
    layer: Seq<Vec<u32>>,
    list: Seq<u32>,
    from_node: u32,
    gone: Set<u32>,
    m: int,
    x: u32,
)
    requires
        gone.contains(x),
        0 <= m <= fresh_in_order(
            hop_seq(layer, without(list, gone)),
            without(list, gone).to_set().insert(from_node).union(gone),
        ).len(),
    ensures
        !(without(list, gone) + fresh_in_order(
            hop_seq(layer, without(list, gone)),
            without(list, gone).to_set().insert(from_node).union(gone),
        ).take(m)).contains(x),
{
    let kept = without(list, gone);
    let cands = fresh_in_order(hop_seq(layer, kept), kept.to_set().insert(from_node).union(gone));
    lemma_without_avoids(list, gone, x);
    lemma_fresh_avoids(hop_seq(layer, kept), kept.to_set().insert(from_node).union(gone), x);
    if (kept + cands.take(m)).contains(x) {
        let k = choose|k: int| 0 <= k < (kept + cands.take(m)).len() && (kept + cands.take(m))[k] == x;
        if k < kept.len() {
            assert(kept[k] == x);
        } else {
            assert(cands.take(m)[k - kept.len()] == x);
            assert(cands[k - kept.len()] == x);
            assert(cands.contains(x));
        }
    }
}

/// `remaining` followed by as many of `ranked` as fit below `m_max` links.
pub open spec fn filled(remaining: Seq<u32>, ranked: Seq<u32>, m_max: int) -> Seq<u32> {
    let cap = m_max - remaining.len();
    if cap <= 0 {
        remaining
    } else {
        remaining + ranked.take(
            if ranked.len() < cap {
                ranked.len() as int
            } else {
                cap
            },
        )
    }
}

/// `out` is the repaired form of `task`: the same node, its surviving
/// links kept as they are when they already number `m_max`, else followed
/// by the first of the candidates that `rank` gives for the node and its
/// surviving links, as many as fit.
pub open spec fn fill_step<F: Fn(u32, &[u32]) -> Vec<u32>>(
    rank: F,
    m_max: int,
    task: (u32, Vec<u32>),
    out: (u32, Vec<u32>),
) -> bool {
    &&& out.0 == task.0
    &&& if task.1@.len() >= m_max {
        out.1@ == task.1@
    } else {
        exists|a: &[u32], ranked: Vec<u32>|
            #![trigger call_ensures(rank, (task.0, a), ranked)]
            a@ == task.1@ && call_ensures(rank, (task.0, a), ranked) && out.1@ == filled(
                task.1@,
                ranked@,
                m_max,
            )
    }
}

/// Links added by the first `k` repaired lists.
pub open spec fn links_added(tasks: Seq<(u32, Vec<u32>)>, out: Seq<(u32, Vec<u32>)>, k: int) -> int
    decreases k,
{
    if k <= 0 {
        0
    } else {
        links_added(tasks, out, k - 1) + out[k - 1].1@.len() - tasks[k - 1].1@.len()
    }
}

/// Fill the places each repaired node lost: for every `(node, surviving)`
/// task in order, a node with fewer than `m_max` surviving links gets the
/// first candidates of `rank(node, surviving)` (the caller's two-hop
/// candidates, closest first) until it holds `m_max`. Returns the new lists
/// and how many links were added in all.
pub fn fill_repairs<F: Fn(u32, &[u32]) -> Vec<u32>>(
    tasks: &Vec<(u32, Vec<u32>)>,
    m_max: usize,
    rank: F,
) -> (res: (Vec<(u32, Vec<u32>)>, usize))
    requires
        tasks@.len() * m_max <= usize::MAX,
        forall|n: u32, a: &[u32]| #[trigger] rank.requires((n, a)),
    ensures
        res.0@.len() == tasks@.len(),
        forall|t: int| 0 <= t < tasks@.len() ==> #[trigger] fill_step(rank, m_max as int, tasks@[t], res.0@[t]),
        res.1 == links_added(tasks@, res.0@, tasks@.len() as int),
{
    let mut out: Vec<(u32, Vec<u32>)> = Vec::new();
    let mut total: usize = 0;
    let mut t: usize = 0;
    while t < tasks.len()
        invariant
            t <= tasks@.len(),
            out@.len() == t,
            tasks@.len() * m_max <= usize::MAX,
            forall|k: int| 0 <= k < t ==> #[trigger] fill_step(rank, m_max as int, tasks@[k], out@[k]),
            total == links_added(tasks@, out@, t as int),
            0 <= total <= t * m_max,
            forall|n: u32, a: &[u32]| #[trigger] rank.requires((n, a)),
        decreases tasks@.len() - t,
    {
        let node = tasks[t].0;
        let remaining = &tasks[t].1;
        let list = if remaining.len() >= m_max {
            let none: Vec<u32> = Vec::new();
            extend_up_to(remaining.as_slice(), none.as_slice(), 0)
        } else {
            let cap = m_max - remaining.len();
            let a = remaining.as_slice();
            let ranked = rank(node, a);
            let list = extend_up_to(a, ranked.as_slice(), cap);
            proof {
                assert(list@ == filled(remaining@, ranked@, m_max as int));
            }
            list
        };
        proof {
            assert(list@.len() - remaining@.len() <= m_max);
            assert(t * m_max + m_max == (t + 1) * m_max) by (nonlinear_arith);
            assert((t + 1) * m_max <= tasks@.len() * m_max) by (nonlinear_arith)
                requires
                    t + 1 <= tasks@.len(),
            ;
        }
        let added = list.len() - remaining.len();
        total = total + added;
        let ghost out0 = out@;
        out.push((node, list));
        proof {
            assert(fill_step(rank, m_max as int, tasks@[t as int], out@[t as int]));
            assert forall|k: int| 0 <= k < t + 1 implies #[trigger] fill_step(
                rank,
                m_max as int,
                tasks@[k],
                out@[k],
            ) by {
                if k < t {
                    assert(out@[k] == out0[k]);
                }
            }
            assert(links_added(tasks@, out0, t as int) == links_added(tasks@, out@, t as int)) by {
                lemma_links_added_prefix(tasks@, out0, out@, t as int);
            }
        }
        t = t + 1;
    }
    (out, total)
}

proof fn lemma_links_added_prefix(
    tasks: Seq<(u32, Vec<u32>)>,
    a: Seq<(u32, Vec<u32>)>,
    b: Seq<(u32, Vec<u32>)>,
    k: int,
)
    requires
        k <= a.len(),
        k <= b.len(),
        forall|j: int| 0 <= j < k ==> a[j] == b[j],
    ensures
        links_added(tasks, a, k) == links_added(tasks, b, k),
    decreases k,
{
    if k > 0 {
        lemma_links_added_prefix(tasks, a, b, k - 1);
    }
}
} // verus!
