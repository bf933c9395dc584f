//! Link bookkeeping of an index that is updated in place: slots are reused
//! after deletion, every node keeps its out-links and (a bounded list of)
//! in-links, and deleting a node detaches it from the nodes that point at
//! it. Which neighbors a node gets is decided by distances, which stay with
//! the caller; this module keeps the slots and links consistent with those
//! decisions.
use crate::error::RetrieveError;
use crate::repair::{contains_id, extend_up_to, lemma_without_avoids, lemma_without_len, strip, without};
use crate::snapshot::{live_slots, slot_live, InPlaceNode};
use std::collections::HashSet;
use vstd::prelude::*;

verus! {

broadcast use vstd::std_specs::hash::group_hash_axioms;

/// A slot as plain values: vector length, out-links, in-links and the
/// deleted flag (`None` for an empty slot).
pub open spec fn slot_view(s: Option<InPlaceNode>) -> Option<(usize, Seq<u32>, Seq<u32>, bool)> {
    match s {
        Some(n) => Some((n.dimension, n.out_neighbors@, n.in_neighbors@, n.deleted)),
        None => None,
    }
}

/// All slots as plain values.
pub open spec fn slot_views(nodes: Seq<Option<InPlaceNode>>) -> Seq<
    Option<(usize, Seq<u32>, Seq<u32>, bool)>,
> {
    nodes.map_values(|s: Option<InPlaceNode>| slot_view(s))
}

/// Slot `x` holds a node that is not deleted.
pub open spec fn live_view(v: Seq<Option<(usize, Seq<u32>, Seq<u32>, bool)>>, x: int) -> bool {
    &&& 0 <= x < v.len()
    &&& v[x] matches Some(t)
    &&& !t.3
}

/// Sum of the out-degrees of the live nodes among the first `k` slots.
pub open spec fn out_degree_total(nodes: Seq<Option<InPlaceNode>>, k: int) -> nat
    decreases k,
{
    if k <= 0 {
        0
    } else {
        out_degree_total(nodes, k - 1) + if slot_live(nodes, k - 1) {
            nodes[k - 1]->0.out_neighbors@.len()
        } else {
            0nat
        }
    }
}

/// Sum of the in-degrees of the live nodes among the first `k` slots.
pub open spec fn in_degree_total(nodes: Seq<Option<InPlaceNode>>, k: int) -> nat
    decreases k,
{
    if k <= 0 {
        0
    } else {
        in_degree_total(nodes, k - 1) + if slot_live(nodes, k - 1) {
            nodes[k - 1]->0.in_neighbors@.len()
        } else {
            0nat
        }
    }
}

/// Count the live nodes and add up their out- and in-degrees:
/// `(live nodes, total out-degree, total in-degree)`.
pub fn degree_totals(nodes: &[Option<InPlaceNode>]) -> (res: (usize, usize, usize))
    requires
        out_degree_total(nodes@, nodes@.len() as int) <= usize::MAX,
        in_degree_total(nodes@, nodes@.len() as int) <= usize::MAX,
    ensures
        res.0 == live_slots(nodes@, nodes@.len() as int),
        res.1 == out_degree_total(nodes@, nodes@.len() as int),
        res.2 == in_degree_total(nodes@, nodes@.len() as int),
{
    let mut active: usize = 0;
    let mut out_total: usize = 0;
    let mut in_total: usize = 0;
    let mut i: usize = 0;
    while i < nodes.len()
        invariant
            i <= nodes@.len(),
            out_degree_total(nodes@, nodes@.len() as int) <= usize::MAX,
            in_degree_total(nodes@, nodes@.len() as int) <= usize::MAX,
            active == live_slots(nodes@, i as int),
            out_total == out_degree_total(nodes@, i as int),
            in_total == in_degree_total(nodes@, i as int),
        decreases nodes@.len() - i,
    {
        proof {
            lemma_totals_grow(nodes@, i as int + 1, nodes@.len() as int);
            lemma_live_slots_bounded(nodes@, i as int + 1);
        }
        match &nodes[i] {
            Some(node) => {
                if !node.deleted {
                    active = active + 1;
                    out_total = out_total + node.out_neighbors.len();
                    in_total = in_total + node.in_neighbors.len();
                }
            },
            None => {},
        }
        i = i + 1;
    }
    (active, out_total, in_total)
}

proof fn lemma_totals_grow(nodes: Seq<Option<InPlaceNode>>, j: int, k: int)
    requires
        j <= k,
    ensures
        out_degree_total(nodes, j) <= out_degree_total(nodes, k),
        in_degree_total(nodes, j) <= in_degree_total(nodes, k),
    decreases k - j,
{
    if j < k {
        lemma_totals_grow(nodes, j, k - 1);
    }
}

proof fn lemma_live_slots_bounded(nodes: Seq<Option<InPlaceNode>>, k: int)
    ensures
        live_slots(nodes, k) <= if k < 0 {
            0
        } else {
            k
        },
    decreases k,
{
    if k > 0 {
        lemma_live_slots_bounded(nodes, k - 1);
    }
}

/// The slot a new node takes: the most recently freed slot if there is
/// one, otherwise a new slot at the end.
pub open spec fn claimed_slot(len: nat, free: Seq<u32>) -> u32 {
    if free.len() > 0 {
        free.last()
    } else {
        len as u32
    }
}

/// A fresh slot for a vector of length `dim`: no links, not deleted.
pub open spec fn fresh_slot(dim: usize) -> Option<(usize, Seq<u32>, Seq<u32>, bool)> {
    Some((dim, Seq::empty(), Seq::empty(), false))
}

/// The slots once a node for a vector of length `dim` takes its slot.
pub open spec fn admitted(
    v: Seq<Option<(usize, Seq<u32>, Seq<u32>, bool)>>,
    free: Seq<u32>,
    dim: usize,
) -> Seq<Option<(usize, Seq<u32>, Seq<u32>, bool)>> {
    if free.len() > 0 {
        v.update(free.last() as int, fresh_slot(dim))
    } else {
        v.push(fresh_slot(dim))
    }
}

/// Admit a vector of length `vector_len` into an index of dimension `dim`.
/// A vector of the wrong length is refused with `DimensionMismatch` and
/// nothing changes. Otherwise the node takes the most recently freed slot
/// (or a new one at the end), starts without links, the live count grows by
/// one, and, if the index had no entry point, the node becomes it. Returns
/// the node's id and whether it became the entry point (then it has no
/// neighbors to link).
pub fn admit_node(
    nodes: &mut Vec<Option<InPlaceNode>>,
    free_slots: &mut Vec<u32>,
    entry_point: &mut u32,
    active_count: &mut u32,
    dim: usize,
    vector_len: usize,
) -> (res: Result<(u32, bool), RetrieveError>)
    requires
        vector_len == dim ==> *old(active_count) < u32::MAX,
        vector_len == dim && old(free_slots)@.len() > 0 ==> (old(free_slots)@.last() as int) < old(
            nodes,
        )@.len(),
        vector_len == dim && old(free_slots)@.len() == 0 ==> old(nodes)@.len() <= u32::MAX,
    ensures
        match res {
            Err(e) => {
                &&& vector_len != dim
                &&& e matches RetrieveError::DimensionMismatch { query_dim, doc_dim }
                &&& query_dim == vector_len
                &&& doc_dim == dim
                &&& final(nodes)@ == old(nodes)@
                &&& final(free_slots)@ == old(free_slots)@
                &&& *final(entry_point) == *old(entry_point)
                &&& *final(active_count) == *old(active_count)
            },
            Ok((id, first)) => {
                &&& vector_len == dim
                &&& id == claimed_slot(old(nodes)@.len(), old(free_slots)@)
                &&& final(free_slots)@ == if old(free_slots)@.len() > 0 {
                    old(free_slots)@.drop_last()
                } else {
                    old(free_slots)@
                }
                &&& slot_views(final(nodes)@) == admitted(slot_views(old(nodes)@), old(free_slots)@, dim)
                &&& *final(active_count) == *old(active_count) + 1
                &&& first == (*old(entry_point) == u32::MAX)
                &&& *final(entry_point) == if first {
                    id
                } else {
                    *old(entry_point)
                }
            },
        },
{
    if vector_len != dim {
        return Err(RetrieveError::DimensionMismatch { query_dim: vector_len, doc_dim: dim });
    }
    let fresh = InPlaceNode {
        dimension: dim,
        out_neighbors: Vec::new(),
        in_neighbors: Vec::new(),
        deleted: false,
    };
    let ghost before = nodes@;
    let id = match free_slots.pop() {
        Some(slot) => {
            nodes.set(slot as usize, Some(fresh));
            proof {
                assert(slot_views(nodes@) =~= slot_views(before).update(slot as int, fresh_slot(dim)));
            }
            slot
        },
        None => {
            let id = nodes.len() as u32;
            nodes.push(Some(fresh));
            proof {
                assert(slot_views(nodes@) =~= slot_views(before).push(fresh_slot(dim)));
            }
            id
        },
    };
    *active_count = *active_count + 1;
    let first = *entry_point == u32::MAX;
    if first {
        *entry_point = id;
    }
    Ok((id, first))
}

/// Slot `x` with its out-links replaced by `out` (an empty slot stays empty).
pub open spec fn with_out(
    v: Seq<Option<(usize, Seq<u32>, Seq<u32>, bool)>>,
    x: int,
    out: Seq<u32>,
) -> Seq<Option<(usize, Seq<u32>, Seq<u32>, bool)>> {
    if 0 <= x < v.len() && v[x] is Some {
        let t = v[x]->0;
        v.update(x, Some((t.0, out, t.2, t.3)))
    } else {
        v
    }
}

/// Slot `x` with `y` appended to its out-links.
pub open spec fn push_out(
    v: Seq<Option<(usize, Seq<u32>, Seq<u32>, bool)>>,
    x: int,
    y: u32,
) -> Seq<Option<(usize, Seq<u32>, Seq<u32>, bool)>> {
    if 0 <= x < v.len() && v[x] is Some {
        let t = v[x]->0;
        v.update(x, Some((t.0, t.1.push(y), t.2, t.3)))
    } else {
        v
    }
}

/// Slot `x` with `y` appended to its in-links while it holds fewer than
/// `cap` of them.
pub open spec fn push_in_capped(
    v: Seq<Option<(usize, Seq<u32>, Seq<u32>, bool)>>,
    x: int,
    y: u32,
    cap: nat,
) -> Seq<Option<(usize, Seq<u32>, Seq<u32>, bool)>> {
    if 0 <= x < v.len() && v[x] is Some {
        let t = v[x]->0;
        if t.2.len() < cap {
            v.update(x, Some((t.0, t.1, t.2.push(y), t.3)))
        } else {
            v
        }
    } else {
        v
    }
}

/// Record new node `id` at its neighbor `n`: `n` lists `id` as an in-link
/// (room permitting) and, with a back edge, as an out-link, in which case
/// `id` lists `n` as an in-link (room permitting).
pub open spec fn link_step(
    v: Seq<Option<(usize, Seq<u32>, Seq<u32>, bool)>>,
    id: u32,
    n: u32,
    back: bool,
    cap: nat,
) -> Seq<Option<(usize, Seq<u32>, Seq<u32>, bool)>> {
    let v1 = push_in_capped(v, n as int, id, cap);
    if back {
        push_in_capped(push_out(v1, n as int, id), id as int, n, cap)
    } else {
        v1
    }
}

/// The slots after recording `id` at each of `ns` in order, with back
/// edges where `bs` says so.
pub open spec fn linked_new(
    v: Seq<Option<(usize, Seq<u32>, Seq<u32>, bool)>>,
    id: u32,
    ns: Seq<u32>,
    bs: Seq<bool>,
    cap: nat,
) -> Seq<Option<(usize, Seq<u32>, Seq<u32>, bool)>>
    decreases ns.len(),
{
    if ns.len() == 0 {
        v
    } else {
        link_step(linked_new(v, id, ns.drop_last(), bs.drop_last(), cap), id, ns.last(), bs.last(), cap)
    }
}

/// Slot by slot, `w` is `v` after new node `id` was recorded at some of
/// `ns`: every slot keeps its kind, length and flag; its out-links only
/// gain entries naming `id`; its in-links only gain entries (naming `id`,
/// or at `id` itself naming nodes of `ns`) and never grow past `cap`
/// unless they already held more.
pub open spec fn grown_by_new_links(
    v: Seq<Option<(usize, Seq<u32>, Seq<u32>, bool)>>,
    w: Seq<Option<(usize, Seq<u32>, Seq<u32>, bool)>>,
    id: u32,
    ns: Seq<u32>,
    cap: nat,
) -> bool {
    &&& w.len() == v.len()
    &&& forall|x: int| 0 <= x < v.len() ==> (#[trigger] v[x] is Some <==> w[x] is Some)
    &&& forall|x: int|
        0 <= x < v.len() && #[trigger] v[x] is Some ==> {
            let a = v[x]->0;
            let b = w[x]->0;
            &&& b.0 == a.0
            &&& b.3 == a.3
            &&& a.1.is_prefix_of(b.1)
            &&& forall|k: int| a.1.len() <= k < b.1.len() ==> #[trigger] b.1[k] == id
            &&& a.2.is_prefix_of(b.2)
            &&& b.2.len() <= if a.2.len() < cap { cap } else { a.2.len() }
            &&& forall|k: int|
                a.2.len() <= k < b.2.len() ==> if x == id {
                    ns.contains(#[trigger] b.2[k])
                } else {
                    b.2[k] == id
                }
        }
}

proof fn lemma_grown_step(
    v: Seq<Option<(usize, Seq<u32>, Seq<u32>, bool)>>,
    w: Seq<Option<(usize, Seq<u32>, Seq<u32>, bool)>>,
    id: u32,
    ns: Seq<u32>,
    n: u32,
    back: bool,
    cap: nat,
)
    requires
        grown_by_new_links(v, w, id, ns, cap),
        ns.contains(n),
    ensures
        grown_by_new_links(v, link_step(w, id, n, back, cap), id, ns, cap),
{
    let w1 = push_in_capped(w, n as int, id, cap);
    let w2 = push_out(w1, n as int, id);
    let w3 = push_in_capped(w2, id as int, n, cap);
    let r = link_step(w, id, n, back, cap);
    assert forall|x: int| 0 <= x < v.len() && #[trigger] v[x] is Some implies {
        let a = v[x]->0;
        let b = r[x]->0;
        &&& b.0 == a.0
        &&& b.3 == a.3
        &&& a.1.is_prefix_of(b.1)
        &&& forall|k: int| a.1.len() <= k < b.1.len() ==> #[trigger] b.1[k] == id
        &&& a.2.is_prefix_of(b.2)
        &&& b.2.len() <= if a.2.len() < cap { cap } else { a.2.len() }
        &&& forall|k: int|
            a.2.len() <= k < b.2.len() ==> if x == id {
                ns.contains(#[trigger] b.2[k])
            } else {
                b.2[k] == id
            }
    } by {
        let a = v[x]->0;
        let m = w[x]->0;
        let b = r[x]->0;
        assert(w[x] is Some);
        assert forall|k: int| a.1.len() <= k < b.1.len() implies #[trigger] b.1[k] == id by {
            if k < m.1.len() {
                assert(m.1[k] == id);
            }
        }
        assert forall|k: int| a.2.len() <= k < b.2.len() implies if x == id {
            ns.contains(#[trigger] b.2[k])
        } else {
            b.2[k] == id
        } by {
            if k < m.2.len() {
                assert(m.2[k] == b.2[k]);
            }
        }
    }
}

/// Linking a new node respects the in-link limit: no slot's in-links grow
/// past `cap` unless they already held more (the new node's in-links
/// included), links only grow, out-links gain only `id`, and the new
/// node's in-links gain only nodes among its neighbors.
pub proof fn lemma_linking_respects_in_link_cap(
    v: Seq<Option<(usize, Seq<u32>, Seq<u32>, bool)>>,
    id: u32,
    ns: Seq<u32>,
    bs: Seq<bool>,
    cap: nat,
)
    requires
        ns.len() == bs.len(),
    ensures
        grown_by_new_links(v, linked_new(v, id, ns, bs, cap), id, ns, cap),
    decreases ns.len(),
{
    if ns.len() == 0 {
        assert forall|x: int| 0 <= x < v.len() && #[trigger] v[x] is Some implies {
            let a = v[x]->0;
            a.1.is_prefix_of(a.1) && a.2.is_prefix_of(a.2)
        } by {}
    } else {
        let n0 = ns.drop_last();
        lemma_linking_respects_in_link_cap(v, id, n0, bs.drop_last(), cap);
        let w = linked_new(v, id, n0, bs.drop_last(), cap);
        assert forall|x: int|
            0 <= x < v.len() && #[trigger] v[x] is Some implies forall|k: int|
                (v[x]->0).2.len() <= k < (w[x]->0).2.len() ==> if x == id {
                    ns.contains(#[trigger] (w[x]->0).2[k])
                } else {
                    (w[x]->0).2[k] == id
                } by {
            assert forall|k: int| (v[x]->0).2.len() <= k < (w[x]->0).2.len() implies if x == id {
                ns.contains(#[trigger] (w[x]->0).2[k])
            } else {
                (w[x]->0).2[k] == id
            } by {
                if x == id {
                    let y = (w[x]->0).2[k];
                    assert(n0.contains(y));
                    let j = choose|j: int| 0 <= j < n0.len() && n0[j] == y;
                    assert(ns[j] == y);
                }
            }
        }
        assert(grown_by_new_links(v, w, id, ns, cap));
        assert(ns[ns.len() - 1] == ns.last());
        lemma_grown_step(v, w, id, ns, ns.last(), bs.last(), cap);
    }
}

/// Linking a new node records it everywhere it should: each chosen
/// neighbor lists it as an in-link unless its in-links are full, and a
/// neighbor that links back lists it as an out-link, with the new node
/// listing that neighbor as an in-link unless its own in-links are full.
pub proof fn lemma_linking_records_new_node(
    v: Seq<Option<(usize, Seq<u32>, Seq<u32>, bool)>>,
    id: u32,
    ns: Seq<u32>,
    bs: Seq<bool>,
    cap: nat,
    k: int,
)
    requires
        ns.len() == bs.len(),
        0 <= k < ns.len(),
        0 <= ns[k] < v.len(),
        v[ns[k] as int] is Some,
        0 <= id < v.len(),
        v[id as int] is Some,
    ensures
        ({
            let w = linked_new(v, id, ns, bs, cap);
            let n = ns[k] as int;
            &&& (w[n]->0).2.contains(id) || (w[n]->0).2.len() >= cap
            &&& bs[k] ==> (w[n]->0).1.contains(id)
            &&& bs[k] ==> (w[id as int]->0).2.contains(ns[k]) || (w[id as int]->0).2.len() >= cap
        }),
    decreases ns.len(),
{
    let n0 = ns.drop_last();
    let b0 = bs.drop_last();
    let w0 = linked_new(v, id, n0, b0, cap);
    let w = linked_new(v, id, ns, bs, cap);
    lemma_linking_respects_in_link_cap(v, id, n0, b0, cap);
    // One more step only appends, so what held before still holds.
    assert(grown_by_new_links(w0, w0, id, ns, cap)) by {
        assert forall|x: int| 0 <= x < w0.len() && #[trigger] w0[x] is Some implies {
            let a = w0[x]->0;
            a.1.is_prefix_of(a.1) && a.2.is_prefix_of(a.2)
        } by {}
    }
    assert(ns[ns.len() - 1] == ns.last());
    lemma_grown_step(w0, w0, id, ns, ns.last(), bs.last(), cap);
    assert(w == link_step(w0, id, ns.last(), bs.last(), cap));
    let n = ns[k] as int;
    assert(w0[n] is Some && w0[id as int] is Some);
    if k < ns.len() - 1 {
        lemma_linking_records_new_node(v, id, n0, b0, cap, k);
        assert(n0[k] == ns[k] && b0[k] == bs[k]);
        let a = w0[n]->0;
        let b = w[n]->0;
        assert(a.2.is_prefix_of(b.2) && a.1.is_prefix_of(b.1));
        if a.2.contains(id) {
            let q = choose|q: int| 0 <= q < a.2.len() && a.2[q] == id;
            assert(b.2[q] == id);
        }
        if bs[k] {
            let q = choose|q: int| 0 <= q < a.1.len() && a.1[q] == id;
            assert(b.1[q] == id);
            let ai = w0[id as int]->0;
            let bi = w[id as int]->0;
            if ai.2.contains(ns[k]) {
                let q2 = choose|q2: int| 0 <= q2 < ai.2.len() && ai.2[q2] == ns[k];
                assert(bi.2[q2] == ns[k]);
            }
        }
    } else {
        let x = ns.last();
        let w1 = push_in_capped(w0, x as int, id, cap);
        let t1 = w1[n]->0;
        if (w0[n]->0).2.len() < cap {
            assert(t1.2[t1.2.len() - 1] == id);
        }
        assert(t1.2.contains(id) || t1.2.len() >= cap);
        if bs[k] {
            let w2 = push_out(w1, x as int, id);
            let t2 = w2[n]->0;
            assert(t2.1[t2.1.len() - 1] == id);
            let w3 = push_in_capped(w2, id as int, x, cap);
            assert(w == w3);
            let ti = w2[id as int]->0;
            if ti.2.len() < cap {
                assert((w3[id as int]->0).2[ti.2.len() as int] == x);
            }
            // The later in-link push at `id` (if `id == n`) only appends.
            let b = w3[n]->0;
            assert(t2.1.is_prefix_of(b.1));
            assert(b.1[t2.1.len() - 1] == id);
            assert(t2.2.is_prefix_of(b.2));
            if t2.2.contains(id) {
                let q = choose|q: int| 0 <= q < t2.2.len() && t2.2[q] == id;
                assert(b.2[q] == id);
            }
        }
    }
}

/// Whether a neighbor of a new node links back to it: only with back edges
/// enabled, only to a neighbor that exists and has room (fewer than
/// `max_degree` out-links), and then when the new node is closer to it
/// than its farthest current neighbor or it has fewer than half of
/// `max_degree` out-links. `neighbor_out_len` is `None` for an empty slot.
pub fn wants_back_edge(
    enabled: bool,
    neighbor_out_len: Option<usize>,
    max_degree: usize,
    closer_than_farthest: bool,
) -> (res: bool)
    ensures
        res == (enabled && neighbor_out_len is Some && neighbor_out_len->0 < max_degree && (
        closer_than_farthest || neighbor_out_len->0 < max_degree / 2)),
{
    if !enabled {
        return false;
    }
    match neighbor_out_len {
        Some(len) => len < max_degree && (closer_than_farthest || len < max_degree / 2),
        None => false,
    }
}

/// Link new node `id` to its chosen `neighbors`: its out-links become
/// `neighbors`; then, for each neighbor in order, the neighbor lists `id`
/// as an in-link while it has fewer than `max_in_neighbors` of them, and
/// where `back_edges` says so the neighbor also lists `id` as an out-link
/// and `id` lists the neighbor as an in-link (room permitting). Empty slots
/// are passed over.
pub fn link_new_node(
    nodes: &mut Vec<Option<InPlaceNode>>,
    id: u32,
    neighbors: &[u32],
    back_edges: &[bool],
    max_in_neighbors: usize,
)
    requires
        (id as int) < old(nodes)@.len(),
        neighbors@.len() == back_edges@.len(),
        forall|k: int| 0 <= k < neighbors@.len() ==> (#[trigger] neighbors@[k] as int) < old(nodes)@.len(),
    ensures
        slot_views(final(nodes)@) == linked_new(
            with_out(slot_views(old(nodes)@), id as int, neighbors@),
            id,
            neighbors@,
            back_edges@,
            max_in_neighbors as nat,
        ),
{
    let ghost cap = max_in_neighbors as nat;
    let ghost start = with_out(slot_views(nodes@), id as int, neighbors@);
    let mut slot: Option<InPlaceNode> = None;
    nodes.set_and_swap(id as usize, &mut slot);
    let mut slot = match slot {
        Some(node) => {
            let mut node = node;
            node.out_neighbors = vstd::slice::slice_to_vec(neighbors);
            Some(node)
        },
        None => None,
    };
    nodes.set_and_swap(id as usize, &mut slot);
    proof {
        assert(slot_views(nodes@) =~= start);
    }
    let mut k: usize = 0;
    while k < neighbors.len()
        invariant
            k <= neighbors@.len(),
            neighbors@.len() == back_edges@.len(),
            (id as int) < nodes@.len(),
            forall|j: int| 0 <= j < neighbors@.len() ==> (#[trigger] neighbors@[j] as int) < nodes@.len(),
            cap == max_in_neighbors as nat,
            slot_views(nodes@) == linked_new(
                start,
                id,
                neighbors@.take(k as int),
                back_edges@.take(k as int),
                cap,
            ),
        decreases neighbors@.len() - k,
    {
        let n = neighbors[k];
        let back = back_edges[k];
        proof {
            assert(neighbors@.take(k as int + 1).drop_last() =~= neighbors@.take(k as int));
            assert(back_edges@.take(k as int + 1).drop_last() =~= back_edges@.take(k as int));
            assert(neighbors@.take(k as int + 1).last() == n);
            assert(back_edges@.take(k as int + 1).last() == back);
        }
        let ghost v0 = slot_views(nodes@);
        let mut slot: Option<InPlaceNode> = None;
        nodes.set_and_swap(n as usize, &mut slot);
        let mut slot = match slot {
            Some(node) => {
                let mut node = node;
                if node.in_neighbors.len() < max_in_neighbors {
                    node.in_neighbors.push(id);
                }
                if back {
                    node.out_neighbors.push(id);
                }
                Some(node)
            },
            None => None,
        };
        nodes.set_and_swap(n as usize, &mut slot);
        let ghost v1 = push_in_capped(v0, n as int, id, cap);
        proof {
            if back {
                assert(slot_views(nodes@) =~= push_out(v1, n as int, id));
            } else {
                assert(slot_views(nodes@) =~= v1);
            }
        }
        if back {
            let ghost v2 = slot_views(nodes@);
            let mut slot: Option<InPlaceNode> = None;
            nodes.set_and_swap(id as usize, &mut slot);
            let mut slot = match slot {
                Some(node) => {
                    let mut node = node;
                    if node.in_neighbors.len() < max_in_neighbors {
                        node.in_neighbors.push(n);
                    }
                    Some(node)
                },
                None => None,
            };
            nodes.set_and_swap(id as usize, &mut slot);
            proof {
                assert(slot_views(nodes@) =~= push_in_capped(v2, id as int, n, cap));
            }
        }
        k = k + 1;
    }
    proof {
        assert(neighbors@.take(neighbors@.len() as int) =~= neighbors@);
        assert(back_edges@.take(back_edges@.len() as int) =~= back_edges@);
    }
}

/// Slot `x` marked deleted.
pub open spec fn marked(
    v: Seq<Option<(usize, Seq<u32>, Seq<u32>, bool)>>,
    x: int,
) -> Seq<Option<(usize, Seq<u32>, Seq<u32>, bool)>> {
    if 0 <= x < v.len() && v[x] is Some {
        let t = v[x]->0;
        v.update(x, Some((t.0, t.1, t.2, true)))
    } else {
        v
    }
}

/// Some entry of `ids` is slot `j`.
pub open spec fn names(ids: Seq<u32>, j: int) -> bool {
    exists|k: int| 0 <= k < ids.len() && ids[k] as int == j
}

/// The slots once node `id` is marked deleted and every live node named in
/// `ins` has dropped `id` from its out-links.
pub open spec fn detached_by(
    v: Seq<Option<(usize, Seq<u32>, Seq<u32>, bool)>>,
    id: u32,
    ins: Seq<u32>,
) -> Seq<Option<(usize, Seq<u32>, Seq<u32>, bool)>> {
    let m = marked(v, id as int);
    Seq::new(
        v.len(),
        |j: int|
            if names(ins, j) && live_view(m, j) {
                let t = m[j]->0;
                Some((t.0, without(t.1, set![id]), t.2, t.3))
            } else {
                m[j]
            },
    )
}

/// The in-links recorded at slot `id`.
pub open spec fn in_links(v: Seq<Option<(usize, Seq<u32>, Seq<u32>, bool)>>, id: int) -> Seq<u32> {
    let t = v[id]->0;
    t.2
}

/// All links recorded at slot `id`: out-links, then in-links.
pub open spec fn all_links(v: Seq<Option<(usize, Seq<u32>, Seq<u32>, bool)>>, id: int) -> Seq<u32> {
    let t = v[id]->0;
    t.1 + t.2
}

/// For each live node among `ins` (in order, after marking), the node and
/// its out-links without `id`: the lists that need a replacement link.
pub open spec fn detach_notes(
    m: Seq<Option<(usize, Seq<u32>, Seq<u32>, bool)>>,
    id: u32,
    ins: Seq<u32>,
) -> Seq<(u32, Seq<u32>)>
    decreases ins.len(),
{
    if ins.len() == 0 {
        Seq::empty()
    } else {
        let r = detach_notes(m, id, ins.drop_last());
        let x = ins.last();
        if live_view(m, x as int) {
            let t = m[x as int]->0;
            r.push((x, without(t.1, set![id])))
        } else {
            r
        }
    }
}

/// The first entry of `l` that is a live slot, or `u32::MAX` if none is.
pub open spec fn first_live(v: Seq<Option<(usize, Seq<u32>, Seq<u32>, bool)>>, l: Seq<u32>) -> u32
    decreases l.len(),
{
    if l.len() == 0 {
        u32::MAX
    } else if live_view(v, l[0] as int) {
        l[0]
    } else {
        first_live(v, l.drop_first())
    }
}

proof fn lemma_without_twice(s: Seq<u32>, g: Set<u32>)
    ensures
        without(without(s, g), g) == without(s, g),
    decreases s.len(),
{
    if s.len() > 0 {
        lemma_without_twice(s.drop_last(), g);
        let r = without(s.drop_last(), g);
        if !g.contains(s.last()) {
            assert(r.push(s.last()).drop_last() =~= r);
        }
    }
}

fn live_at(nodes: &Vec<Option<InPlaceNode>>, x: u32) -> (res: bool)
    ensures
        res == live_view(slot_views(nodes@), x as int),
{
    if (x as usize) < nodes.len() {
        match &nodes[x as usize] {
            Some(node) => !node.deleted,
            None => false,
        }
    } else {
        false
    }
}

fn first_live_link(nodes: &Vec<Option<InPlaceNode>>, a: &Vec<u32>, b: &Vec<u32>) -> (res: u32)
    ensures
        res == first_live(slot_views(nodes@), a@ + b@),
{
    let ghost v = slot_views(nodes@);
    assert(a@.skip(0) =~= a@);
    let mut i: usize = 0;
    while i < a.len()
        invariant
            i <= a@.len(),
            v == slot_views(nodes@),
            first_live(v, a@ + b@) == first_live(v, a@.skip(i as int) + b@),
        decreases a@.len() - i,
    {
        let x = a[i];
        proof {
            assert((a@.skip(i as int) + b@)[0] == x);
            assert((a@.skip(i as int) + b@).drop_first() =~= a@.skip(i as int + 1) + b@);
        }
        if live_at(nodes, x) {
            return x;
        }
        i = i + 1;
    }
    proof {
        assert(a@.skip(a@.len() as int) + b@ =~= b@.skip(0));
    }
    let mut j: usize = 0;
    while j < b.len()
        invariant
            j <= b@.len(),
            v == slot_views(nodes@),
            first_live(v, a@ + b@) == first_live(v, b@.skip(j as int)),
        decreases b@.len() - j,
    {
        let x = b[j];
        proof {
            assert(b@.skip(j as int)[0] == x);
            assert(b@.skip(j as int).drop_first() =~= b@.skip(j as int + 1));
        }
        if live_at(nodes, x) {
            return x;
        }
        j = j + 1;
    }
    proof {
        assert(b@.skip(b@.len() as int) =~= Seq::<u32>::empty());
    }
    u32::MAX
}

/// The entry point once node `id` is detached: unchanged unless it was
/// `id`, then the first live node among `id`'s out-links and in-links, or
/// `u32::MAX` if there is none.
pub open spec fn entry_after_detach(
    v: Seq<Option<(usize, Seq<u32>, Seq<u32>, bool)>>,
    id: u32,
    entry: u32,
) -> u32 {
    if entry == id {
        first_live(marked(v, id as int), all_links(v, id as int))
    } else {
        entry
    }
}

/// Where `first_live` lands: on the first entry of `l` that is live in
/// `v`, when some entry is.
proof fn lemma_first_live_is_first(v: Seq<Option<(usize, Seq<u32>, Seq<u32>, bool)>>, l: Seq<u32>, p: int)
    requires
        0 <= p < l.len(),
        live_view(v, l[p] as int),
    ensures
        exists|q: int|
            0 <= q <= p && l[q] == first_live(v, l) && live_view(v, l[q] as int) && forall|r: int|
                0 <= r < q ==> !live_view(v, #[trigger] l[r] as int),
    decreases l.len(),
{
    if !live_view(v, l[0] as int) {
        lemma_first_live_is_first(v, l.drop_first(), p - 1);
        let q = choose|q: int|
            0 <= q <= p - 1 && l.drop_first()[q] == first_live(v, l.drop_first()) && live_view(
                v,
                l.drop_first()[q] as int,
            ) && forall|r: int| 0 <= r < q ==> !live_view(v, #[trigger] l.drop_first()[r] as int);
        assert(l[q + 1] == first_live(v, l));
        assert forall|r: int| 0 <= r < q + 1 implies !live_view(v, #[trigger] l[r] as int) by {
            if r > 0 {
                assert(l[r] == l.drop_first()[r - 1]);
            }
        }
    } else {
        assert(l[0] == first_live(v, l));
    }
}

/// The repair notes of a deletion: exactly the live nodes (other than the
/// deleted one) among the given in-links, in their order, each with its
/// out-links other than the deleted node.
pub proof fn lemma_detach_notes_exact(
    v: Seq<Option<(usize, Seq<u32>, Seq<u32>, bool)>>,
    id: u32,
    ins: Seq<u32>,
    x: u32,
    y: u32,
)
    requires
        0 <= id < v.len(),
        v[id as int] is Some,
    ensures
        forall|t: int|
            0 <= t < detach_notes(marked(v, id as int), id, ins).len() ==> {
                let n = #[trigger] detach_notes(marked(v, id as int), id, ins)[t];
                &&& ins.contains(n.0)
                &&& live_view(v, n.0 as int)
                &&& n.0 != id
                &&& (n.1.contains(y) <==> (v[n.0 as int]->0).1.contains(y) && y != id)
            },
        ins.contains(x) && live_view(v, x as int) && x != id ==> exists|t: int|
            0 <= t < detach_notes(marked(v, id as int), id, ins).len() && #[trigger] detach_notes(
                marked(v, id as int),
                id,
                ins,
            )[t].0 == x,
    decreases ins.len(),
{
    let m = marked(v, id as int);
    assert forall|z: int| #[trigger] live_view(m, z) <==> live_view(v, z) && z != id by {}
    if ins.len() > 0 {
        let i0 = ins.drop_last();
        let last = ins.last();
        lemma_detach_notes_exact(v, id, i0, x, y);
        let prev = detach_notes(m, id, i0);
        let cur = detach_notes(m, id, ins);
        assert(ins[ins.len() - 1] == last);
        assert forall|t: int| 0 <= t < cur.len() implies {
            let n = #[trigger] cur[t];
            &&& ins.contains(n.0)
            &&& live_view(v, n.0 as int)
            &&& n.0 != id
            &&& (n.1.contains(y) <==> (v[n.0 as int]->0).1.contains(y) && y != id)
        } by {
            if t < prev.len() {
                assert(cur[t] == prev[t]);
                let k = choose|k: int| 0 <= k < i0.len() && i0[k] == prev[t].0;
                assert(ins[k] == prev[t].0);
            } else {
                assert(cur[t].0 == last);
                lemma_without_avoids((m[last as int]->0).1, set![id], y);
                assert(m[last as int] == v[last as int]);
            }
        }
        if ins.contains(x) && live_view(v, x as int) && x != id {
            let k = choose|k: int| 0 <= k < ins.len() && ins[k] == x;
            if k < i0.len() {
                assert(i0[k] == x);
                let t = choose|t: int| 0 <= t < prev.len() && #[trigger] prev[t].0 == x;
                assert(cur[t] == prev[t]);
            } else {
                assert(cur[prev.len() as int].0 == x);
            }
        }
    }
}

/// Deleting the entry point hands the entry to a live node whenever one of
/// its links is live: the first node, among its out-links followed by its
/// in-links, that is live and is not the deleted node itself. Deleting
/// another node leaves the entry point where it is.
pub proof fn lemma_detach_entry_moves_to_first_live_link(
    v: Seq<Option<(usize, Seq<u32>, Seq<u32>, bool)>>,
    id: u32,
    entry: u32,
    p: int,
)
    requires
        0 <= id < v.len(),
        v[id as int] is Some,
    ensures
        entry != id ==> entry_after_detach(v, id, entry) == entry,
        ({
            let t = v[id as int]->0;
            let links = t.1 + t.2;
            entry == id && 0 <= p < links.len() && live_view(v, links[p] as int) && links[p] != id
                ==> exists|q: int|
                0 <= q <= p && links[q] == entry_after_detach(v, id, entry) && live_view(
                    v,
                    links[q] as int,
                ) && links[q] != id && forall|r: int|
                    0 <= r < q ==> !live_view(v, #[trigger] links[r] as int) || links[r] == id
        }),
{
    let t = v[id as int]->0;
    let links = t.1 + t.2;
    let m = marked(v, id as int);
    assert forall|x: int| #[trigger] live_view(m, x) <==> live_view(v, x) && x != id by {}
    if entry == id && 0 <= p < links.len() && live_view(v, links[p] as int) && links[p] != id {
        assert(links =~= all_links(v, id as int));
        assert(live_view(m, links[p] as int));
        lemma_first_live_is_first(m, links, p);
        let q = choose|q: int|
            0 <= q <= p && links[q] == first_live(m, links) && live_view(m, links[q] as int) && forall|r: int|
                0 <= r < q ==> !live_view(m, #[trigger] links[r] as int);
        assert forall|r: int| 0 <= r < q implies !live_view(v, #[trigger] links[r] as int) || links[r] == id by {
            assert(!live_view(m, links[r] as int));
        }
    }
}

/// What detaching does to the slots: the deleted node stays in place,
/// marked deleted with its links; every other live node among its
/// in-links keeps exactly its out-links other than the deleted node; all
/// other slots are untouched.
pub proof fn lemma_detach_effect(v: Seq<Option<(usize, Seq<u32>, Seq<u32>, bool)>>, id: u32, j: int, y: u32)
    requires
        v.len() <= u32::MAX + 1,
        0 <= id < v.len(),
        v[id as int] is Some,
        0 <= j < v.len(),
    ensures
        ({
            let t = v[id as int]->0;
            let d = detached_by(v, id, t.2);
            &&& d.len() == v.len()
            &&& j == id ==> d[j] == Some((t.0, t.1, t.2, true))
            &&& j != id && t.2.contains(j as u32) && live_view(v, j) ==> {
                &&& d[j] is Some
                &&& (d[j]->0).0 == (v[j]->0).0
                &&& (d[j]->0).2 == (v[j]->0).2
                &&& !(d[j]->0).3
                &&& ((d[j]->0).1.contains(y) <==> (v[j]->0).1.contains(y) && y != id)
            }
            &&& j != id && !(t.2.contains(j as u32) && live_view(v, j)) ==> d[j] == v[j]
        }),
{
    let t = v[id as int]->0;
    let m = marked(v, id as int);
    if j != id && t.2.contains(j as u32) {
        let k = choose|k: int| 0 <= k < t.2.len() && t.2[k] == j as u32;
        assert(names(t.2, j));
    }
    if names(t.2, j) {
        let k = choose|k: int| 0 <= k < t.2.len() && t.2[k] as int == j;
        assert(t.2.contains(j as u32));
    }
    if j != id && live_view(v, j) {
        lemma_without_avoids((v[j]->0).1, set![id], y);
    }
}

/// Delete node `id`: refuse with `OutOfBounds(id)` an id that names no
/// live node (out of range, empty slot or already deleted), changing
/// nothing. Otherwise mark the node deleted, lower the live count by one,
/// and, if it was the entry point, move the entry point to the first live
/// node among its out-links and then its in-links (`u32::MAX` if none is
/// live). Every live node among its in-links drops it from its out-links;
/// those nodes are returned, each with its remaining out-links, in the
/// order of the in-links, for the caller to choose replacements.
pub fn detach_node(
    nodes: &mut Vec<Option<InPlaceNode>>,
    entry_point: &mut u32,
    active_count: &mut u32,
    id: u32,
) -> (res: Result<Vec<(u32, Vec<u32>)>, RetrieveError>)
    requires
        slot_live(old(nodes)@, id as int) ==> *old(active_count) > 0,
        slot_live(old(nodes)@, id as int) ==> forall|k: int|
            0 <= k < in_links(slot_views(old(nodes)@), id as int).len() ==> (#[trigger] in_links(
                slot_views(old(nodes)@),
                id as int,
            )[k] as int) < old(nodes)@.len(),
    ensures
        match res {
            Err(e) => {
                &&& !slot_live(old(nodes)@, id as int)
                &&& e matches RetrieveError::OutOfBounds(x)
                &&& x == id as usize
                &&& final(nodes)@ == old(nodes)@
                &&& *final(entry_point) == *old(entry_point)
                &&& *final(active_count) == *old(active_count)
            },
            Ok(notes) => {
                &&& slot_live(old(nodes)@, id as int)
                &&& slot_views(final(nodes)@) == detached_by(
                    slot_views(old(nodes)@),
                    id,
                    in_links(slot_views(old(nodes)@), id as int),
                )
                &&& *final(active_count) == *old(active_count) - 1
                &&& *final(entry_point) == entry_after_detach(
                    slot_views(old(nodes)@),
                    id,
                    *old(entry_point),
                )
                &&& notes@.len() == detach_notes(
                    marked(slot_views(old(nodes)@), id as int),
                    id,
                    in_links(slot_views(old(nodes)@), id as int),
                ).len()
                &&& forall|k: int|
                    0 <= k < notes@.len() ==> (#[trigger] notes@[k]).0 == detach_notes(
                        marked(slot_views(old(nodes)@), id as int),
                        id,
                        in_links(slot_views(old(nodes)@), id as int),
                    )[k].0 && notes@[k].1@ == detach_notes(
                        marked(slot_views(old(nodes)@), id as int),
                        id,
                        in_links(slot_views(old(nodes)@), id as int),
                    )[k].1
            },
        },
{
    let ghost v = slot_views(nodes@);
    if !live_at(nodes, id) {
        proof {
            if (id as int) < nodes@.len() {
                assert(v[id as int] == slot_view(nodes@[id as int]));
            }
        }
        return Err(RetrieveError::OutOfBounds(id as usize));
    }
    proof {
        assert(v[id as int] == slot_view(nodes@[id as int]));
    }
    let ghost m = marked(v, id as int);
    let ghost ins_v = in_links(v, id as int);
    let mut slot: Option<InPlaceNode> = None;
    nodes.set_and_swap(id as usize, &mut slot);
    let (outs, ins, mut slot) = match slot {
        Some(node) => {
            let mut node = node;
            let outs = vstd::slice::slice_to_vec(node.out_neighbors.as_slice());
            let ins = vstd::slice::slice_to_vec(node.in_neighbors.as_slice());
            node.deleted = true;
            (outs, ins, Some(node))
        },
        None => (Vec::new(), Vec::new(), None),
    };
    nodes.set_and_swap(id as usize, &mut slot);
    proof {
        assert(slot_views(nodes@) =~= m);
        assert(outs@ + ins@ == all_links(v, id as int));
        assert(ins@ == ins_v);
        assert(detached_by(v, id, ins@.take(0)) =~= m);
    }
    *active_count = *active_count - 1;
    if *entry_point == id {
        *entry_point = first_live_link(nodes, &outs, &ins);
    }
    let mut gone: HashSet<u32> = HashSet::new();
    gone.insert(id);
    assert(gone@ =~= set![id]);
    let mut notes: Vec<(u32, Vec<u32>)> = Vec::new();
    let mut k: usize = 0;
    while k < ins.len()
        invariant
            k <= ins@.len(),
            ins@ == ins_v,
            m == marked(v, id as int),
            gone@ == set![id],
            nodes@.len() == v.len(),
            forall|j: int| 0 <= j < ins@.len() ==> (#[trigger] ins@[j] as int) < v.len(),
            slot_views(nodes@) == detached_by(v, id, ins@.take(k as int)),
            notes@.len() == detach_notes(m, id, ins@.take(k as int)).len(),
            forall|t: int|
                0 <= t < notes@.len() ==> (#[trigger] notes@[t]).0 == detach_notes(
                    m,
                    id,
                    ins@.take(k as int),
                )[t].0 && notes@[t].1@ == detach_notes(m, id, ins@.take(k as int))[t].1,
        decreases ins@.len() - k,
    {
        let x = ins[k];
        let ghost cur = slot_views(nodes@);
        let ghost pre = ins@.take(k as int);
        let ghost next = ins@.take(k as int + 1);
        proof {
            assert(next.drop_last() =~= pre);
            assert(next.last() == x);
            assert(cur[x as int] == slot_view(nodes@[x as int]));
        }
        let ghost before = nodes@;
        let mut slot: Option<InPlaceNode> = None;
        nodes.set_and_swap(x as usize, &mut slot);
        let ghost taken = slot;
        let mut slot = match slot {
            Some(node) => {
                if !node.deleted {
                    let mut node = node;
                    let (kept, _) = strip(&node.out_neighbors, &gone);
                    let copy = vstd::slice::slice_to_vec(kept.as_slice());
                    node.out_neighbors = kept;
                    notes.push((x, copy));
                    Some(node)
                } else {
                    Some(node)
                }
            },
            None => None,
        };
        let ghost put = slot;
        nodes.set_and_swap(x as usize, &mut slot);
        proof {
            assert(taken == before[x as int]);
            assert(nodes@ == before.update(x as int, put));
            assert(slot_views(nodes@) =~= cur.update(x as int, slot_view(put)));
            let tgt = detached_by(v, id, next);
            assert forall|j: int| 0 <= j < v.len() && j != x as int implies names(next, j) == names(
                pre,
                j,
            ) by {
                if names(next, j) {
                    let q = choose|q: int| 0 <= q < next.len() && next[q] as int == j;
                    assert(q < pre.len());
                    assert(pre[q] == next[q]);
                }
                if names(pre, j) {
                    let q = choose|q: int| 0 <= q < pre.len() && pre[q] as int == j;
                    assert(next[q] == pre[q]);
                }
            }
            assert(names(next, x as int)) by {
                assert(next[k as int] == x);
            }
            assert(live_view(cur, x as int) == live_view(m, x as int));
            if live_view(m, x as int) {
                let t = m[x as int]->0;
                lemma_without_twice(t.1, set![id]);
                assert(slot_view(put) == tgt[x as int]);
            } else {
                assert(cur[x as int] == m[x as int]);
                assert(slot_view(put) == cur[x as int]);
            }
            assert(tgt =~= cur.update(x as int, tgt[x as int]));
            assert(slot_views(nodes@) =~= tgt);
        }
        k = k + 1;
    }
    proof {
        assert(ins@.take(ins@.len() as int) =~= ins@);
    }
    Ok(notes)
}

/// Slot `x` takes `r` as an out-link unless it already has it, then `r`
/// takes `x` as an in-link while it has fewer than `cap` of them.
pub open spec fn attach_step(
    v: Seq<Option<(usize, Seq<u32>, Seq<u32>, bool)>>,
    x: u32,
    r: u32,
    cap: nat,
) -> Seq<Option<(usize, Seq<u32>, Seq<u32>, bool)>> {
    let v1 = if 0 <= x < v.len() && v[x as int] is Some {
        let t = v[x as int]->0;
        if t.1.contains(r) {
            v
        } else {
            push_out(v, x as int, r)
        }
    } else {
        v
    };
    push_in_capped(v1, r as int, x, cap)
}

/// The slots after applying each chosen replacement in order.
pub open spec fn attached(
    v: Seq<Option<(usize, Seq<u32>, Seq<u32>, bool)>>,
    reps: Seq<(u32, Option<u32>)>,
    cap: nat,
) -> Seq<Option<(usize, Seq<u32>, Seq<u32>, bool)>>
    decreases reps.len(),
{
    if reps.len() == 0 {
        v
    } else {
        let w = attached(v, reps.drop_last(), cap);
        let p = reps.last();
        match p.1 {
            Some(r) => attach_step(w, p.0, r, cap),
            None => w,
        }
    }
}

/// Slot by slot, `w` is `v` after replacement links were attached: every
/// slot keeps its kind, length and flag; its out-links only gain entries
/// it did not list before, each once; its in-links only gain entries and
/// never grow past `cap` unless they already held more.
pub open spec fn within_attach_limits(
    v: Seq<Option<(usize, Seq<u32>, Seq<u32>, bool)>>,
    w: Seq<Option<(usize, Seq<u32>, Seq<u32>, bool)>>,
    cap: nat,
) -> bool {
    &&& w.len() == v.len()
    &&& forall|x: int| 0 <= x < v.len() ==> (#[trigger] v[x] is Some <==> w[x] is Some)
    &&& forall|x: int|
        0 <= x < v.len() && #[trigger] v[x] is Some ==> {
            let a = v[x]->0;
            let b = w[x]->0;
            &&& b.0 == a.0
            &&& b.3 == a.3
            &&& a.1.is_prefix_of(b.1)
            &&& forall|k: int| a.1.len() <= k < b.1.len() ==> !b.1.take(k).contains(#[trigger] b.1[k])
            &&& a.2.is_prefix_of(b.2)
            &&& b.2.len() <= if a.2.len() < cap { cap } else { a.2.len() }
        }
}

/// Attaching replacements respects the in-link limit and adds no
/// out-link twice: see [`within_attach_limits`].
pub proof fn lemma_attach_respects_limits(
    v: Seq<Option<(usize, Seq<u32>, Seq<u32>, bool)>>,
    reps: Seq<(u32, Option<u32>)>,
    cap: nat,
)
    ensures
        within_attach_limits(v, attached(v, reps, cap), cap),
    decreases reps.len(),
{
    if reps.len() == 0 {
        assert forall|x: int| 0 <= x < v.len() && #[trigger] v[x] is Some implies {
            let a = v[x]->0;
            a.1.is_prefix_of(a.1) && a.2.is_prefix_of(a.2)
        } by {}
    } else {
        lemma_attach_respects_limits(v, reps.drop_last(), cap);
        let w = attached(v, reps.drop_last(), cap);
        let p = reps.last();
        if let Some(r) = p.1 {
            let x0 = p.0;
            let w1 = if 0 <= x0 < w.len() && w[x0 as int] is Some {
                let t = w[x0 as int]->0;
                if t.1.contains(r) {
                    w
                } else {
                    push_out(w, x0 as int, r)
                }
            } else {
                w
            };
            let res = push_in_capped(w1, r as int, x0, cap);
            assert(res == attached(v, reps, cap));
            assert forall|x: int| 0 <= x < v.len() && #[trigger] v[x] is Some implies {
                let a = v[x]->0;
                let b = res[x]->0;
                &&& b.0 == a.0
                &&& b.3 == a.3
                &&& a.1.is_prefix_of(b.1)
                &&& forall|k: int| a.1.len() <= k < b.1.len() ==> !b.1.take(k).contains(#[trigger] b.1[k])
                &&& a.2.is_prefix_of(b.2)
                &&& b.2.len() <= if a.2.len() < cap { cap } else { a.2.len() }
            } by {
                let a = v[x]->0;
                let m = w[x]->0;
                let b = res[x]->0;
                assert(w[x] is Some);
                assert forall|k: int| a.1.len() <= k < b.1.len() implies !b.1.take(k).contains(#[trigger] b.1[k]) by {
                    if k < m.1.len() {
                        assert(b.1.take(k) =~= m.1.take(k));
                        assert(b.1[k] == m.1[k]);
                    } else {
                        assert(b.1.take(k) =~= m.1);
                    }
                }
            }
        }
    }
}

/// Every chosen replacement is attached: for a pair `(x, Some(r))` whose
/// slots hold nodes, `x` lists `r` as an out-link and `r` lists `x` as an
/// in-link unless its in-links are full.
pub proof fn lemma_attach_reaches_replacements(
    v: Seq<Option<(usize, Seq<u32>, Seq<u32>, bool)>>,
    reps: Seq<(u32, Option<u32>)>,
    cap: nat,
    k: int,
)
    requires
        0 <= k < reps.len(),
        reps[k].1 is Some,
        0 <= reps[k].0 < v.len(),
        v[reps[k].0 as int] is Some,
        0 <= reps[k].1->0 < v.len(),
        v[reps[k].1->0 as int] is Some,
    ensures
        ({
            let w = attached(v, reps, cap);
            let x = reps[k].0;
            let r = reps[k].1->0;
            &&& (w[x as int]->0).1.contains(r)
            &&& (w[r as int]->0).2.contains(x) || (w[r as int]->0).2.len() >= cap
        }),
    decreases reps.len(),
{
    let r0 = reps.drop_last();
    let w0 = attached(v, r0, cap);
    let w = attached(v, reps, cap);
    let p = reps.last();
    assert(reps[reps.len() - 1] == p);
    lemma_attach_respects_limits(v, r0, cap);
    let x = reps[k].0;
    let r = reps[k].1->0;
    assert(w0[x as int] is Some && w0[r as int] is Some);
    if k < reps.len() - 1 {
        lemma_attach_reaches_replacements(v, r0, cap, k);
        assert(r0[k] == reps[k]);
        let one = seq![p];
        assert(one.drop_last() =~= Seq::<(u32, Option<u32>)>::empty());
        assert(one.last() == p);
        assert(attached(w0, Seq::<(u32, Option<u32>)>::empty(), cap) == w0);
        assert(attached(w0, one, cap) == w);
        lemma_attach_respects_limits(w0, one, cap);
        let a = w0[x as int]->0;
        let b = w[x as int]->0;
        let q = choose|q: int| 0 <= q < a.1.len() && a.1[q] == r;
        assert(b.1[q] == r);
        let ar = w0[r as int]->0;
        let br = w[r as int]->0;
        if ar.2.contains(x) {
            let q2 = choose|q2: int| 0 <= q2 < ar.2.len() && ar.2[q2] == x;
            assert(br.2[q2] == x);
        }
    } else {
        let t = w0[x as int]->0;
        let w1 = if t.1.contains(r) {
            w0
        } else {
            push_out(w0, x as int, r)
        };
        assert(w == push_in_capped(w1, r as int, x, cap));
        let t1 = w1[x as int]->0;
        if !t.1.contains(r) {
            assert(t1.1[t.1.len() as int] == r);
        }
        assert(t1.1.contains(r));
        let q = choose|q: int| 0 <= q < t1.1.len() && t1.1[q] == r;
        assert((w[x as int]->0).1[q] == r);
        let tr = w1[r as int]->0;
        if tr.2.len() < cap {
            assert((w[r as int]->0).2[tr.2.len() as int] == x);
        }
    }
}

/// Apply the replacement links chosen after a deletion: for each pair
/// `(x, Some(r))` in order, `x` takes `r` as an out-link unless it already
/// has it, and `r` takes `x` as an in-link while it has fewer than
/// `max_in_neighbors` of them. Pairs without a replacement, and empty
/// slots, are passed over.
pub fn attach_replacements(
    nodes: &mut Vec<Option<InPlaceNode>>,
    replacements: &[(u32, Option<u32>)],
    max_in_neighbors: usize,
)
    requires
        forall|k: int|
            0 <= k < replacements@.len() && (#[trigger] replacements@[k]).1 is Some ==> (
            replacements@[k].0 as int) < old(nodes)@.len() && (replacements@[k].1->0 as int) < old(
                nodes,
            )@.len(),
    ensures
        slot_views(final(nodes)@) == attached(
            slot_views(old(nodes)@),
            replacements@,
            max_in_neighbors as nat,
        ),
{
    let ghost cap = max_in_neighbors as nat;
    let ghost start = slot_views(nodes@);
    let mut k: usize = 0;
    while k < replacements.len()
        invariant
            k <= replacements@.len(),
            cap == max_in_neighbors as nat,
            nodes@.len() == start.len(),
            forall|q: int|
                0 <= q < replacements@.len() && (#[trigger] replacements@[q]).1 is Some ==> (
                replacements@[q].0 as int) < nodes@.len() && (replacements@[q].1->0 as int)
                    < nodes@.len(),
            slot_views(nodes@) == attached(start, replacements@.take(k as int), cap),
        decreases replacements@.len() - k,
    {
        let (x, rep) = replacements[k];
        proof {
            let next = replacements@.take(k as int + 1);
            assert(next.drop_last() =~= replacements@.take(k as int));
            assert(next.last() == replacements@[k as int]);
        }
        match rep {
            Some(r) => {
                let ghost v0 = slot_views(nodes@);
                let mut slot: Option<InPlaceNode> = None;
                nodes.set_and_swap(x as usize, &mut slot);
                let mut slot = match slot {
                    Some(node) => {
                        let mut node = node;
                        if !contains_id(&node.out_neighbors, r) {
                            node.out_neighbors.push(r);
                        }
                        Some(node)
                    },
                    None => None,
                };
                nodes.set_and_swap(x as usize, &mut slot);
                let mut slot: Option<InPlaceNode> = None;
                nodes.set_and_swap(r as usize, &mut slot);
                let mut slot = match slot {
                    Some(node) => {
                        let mut node = node;
                        if node.in_neighbors.len() < max_in_neighbors {
                            node.in_neighbors.push(x);
                        }
                        Some(node)
                    },
                    None => None,
                };
                nodes.set_and_swap(r as usize, &mut slot);
                proof {
                    assert(slot_views(nodes@) =~= attach_step(v0, x, r, cap));
                }
            },
            None => {},
        }
        k = k + 1;
    }
    proof {
        assert(replacements@.take(replacements@.len() as int) =~= replacements@);
    }
}

/// The slots that hold no live node, as ids: empty slots and deleted nodes.
pub fn stale_slots(nodes: &[Option<InPlaceNode>]) -> (res: HashSet<u32>)
    requires
        nodes@.len() <= u32::MAX as int + 1,
    ensures
        forall|x: u32| #[trigger]
            res@.contains(x) <==> (x as int) < nodes@.len() && !slot_live(nodes@, x as int),
{
    let mut res: HashSet<u32> = HashSet::new();
    let mut i: usize = 0;
    while i < nodes.len()
        invariant
            i <= nodes@.len(),
            nodes@.len() <= u32::MAX as int + 1,
            forall|x: u32| #[trigger]
                res@.contains(x) <==> (x as int) < i && !slot_live(nodes@, x as int),
        decreases nodes@.len() - i,
    {
        let live = match &nodes[i] {
            Some(node) => !node.deleted,
            None => false,
        };
        if !live {
            res.insert(i as u32);
        }
        i = i + 1;
    }
    res
}

/// The out-links of node `node_id` that survive once the slots in `stale`
/// are dropped, with how many were dropped. `None` when the slot holds no
/// live node or none of its out-links is stale: the node needs no repair.
pub fn surviving_links(nodes: &[Option<InPlaceNode>], node_id: u32, stale: &HashSet<u32>) -> (res:
    Option<(Vec<u32>, usize)>)
    ensures
        match res {
            None => !slot_live(nodes@, node_id as int) || without(
                nodes@[node_id as int]->0.out_neighbors@,
                stale@,
            ).len() == nodes@[node_id as int]->0.out_neighbors@.len(),
            Some((kept, removed)) => {
                &&& slot_live(nodes@, node_id as int)
                &&& kept@ == without(nodes@[node_id as int]->0.out_neighbors@, stale@)
                &&& removed == nodes@[node_id as int]->0.out_neighbors@.len() - kept@.len()
                &&& removed > 0
            },
        },
{
    if node_id as usize >= nodes.len() {
        return None;
    }
    match &nodes[node_id as usize] {
        Some(node) => {
            if node.deleted {
                return None;
            }
            let (kept, _) = strip(&node.out_neighbors, stale);
            proof {
                lemma_without_len(node.out_neighbors@, stale@);
            }
            let removed = node.out_neighbors.len() - kept.len();
            if removed == 0 {
                None
            } else {
                Some((kept, removed))
            }
        },
        None => None,
    }
}

/// The out-links of every slot, with no links for a slot that holds no
/// live node: the adjacency that repair searches walk.
pub fn live_out_lists(nodes: &[Option<InPlaceNode>]) -> (res: Vec<Vec<u32>>)
    ensures
        res@.len() == nodes@.len(),
        forall|j: int|
            0 <= j < nodes@.len() ==> (#[trigger] res@[j])@ == if slot_live(nodes@, j) {
                nodes@[j]->0.out_neighbors@
            } else {
                Seq::<u32>::empty()
            },
{
    let mut res: Vec<Vec<u32>> = Vec::new();
    let mut i: usize = 0;
    while i < nodes.len()
        invariant
            i <= nodes@.len(),
            res@.len() == i,
            forall|j: int|
                0 <= j < i ==> (#[trigger] res@[j])@ == if slot_live(nodes@, j) {
                    nodes@[j]->0.out_neighbors@
                } else {
                    Seq::<u32>::empty()
                },
        decreases nodes@.len() - i,
    {
        let list = match &nodes[i] {
            Some(node) => {
                if !node.deleted {
                    vstd::slice::slice_to_vec(node.out_neighbors.as_slice())
                } else {
                    Vec::new()
                }
            },
            None => Vec::new(),
        };
        res.push(list);
        i = i + 1;
    }
    res
}

/// Slot `x` with `y` appended to its in-links unless it already lists `y`
/// or holds `cap` of them.
pub open spec fn push_in_new(
    v: Seq<Option<(usize, Seq<u32>, Seq<u32>, bool)>>,
    x: int,
    y: u32,
    cap: nat,
) -> Seq<Option<(usize, Seq<u32>, Seq<u32>, bool)>> {
    if 0 <= x < v.len() && v[x] is Some {
        let t = v[x]->0;
        if t.2.len() < cap && !t.2.contains(y) {
            v.update(x, Some((t.0, t.1, t.2.push(y), t.3)))
        } else {
            v
        }
    } else {
        v
    }
}

/// Candidate `c` of repaired node `node` gets a back link when it is live,
/// does not list `node` yet and has fewer than `max_out` out-links.
pub open spec fn gains_back_link(
    v: Seq<Option<(usize, Seq<u32>, Seq<u32>, bool)>>,
    node: u32,
    c: u32,
    max_out: nat,
) -> bool {
    live_view(v, c as int) && {
        let t = v[c as int]->0;
        !t.1.contains(node) && t.1.len() < max_out
    }
}

/// The slots after the back-link step for candidate `c`: the back link if
/// `c` gains one, then `c` records `node` and `node` records `c` as
/// in-links (each unless present or full).
pub open spec fn back_step(
    v: Seq<Option<(usize, Seq<u32>, Seq<u32>, bool)>>,
    node: u32,
    c: u32,
    max_out: nat,
    max_in: nat,
) -> Seq<Option<(usize, Seq<u32>, Seq<u32>, bool)>> {
    let v1 = if gains_back_link(v, node, c, max_out) {
        push_out(v, c as int, node)
    } else {
        v
    };
    push_in_new(push_in_new(v1, c as int, node, max_in), node as int, c, max_in)
}

/// The slots after the back-link steps for each of `cs` in order.
pub open spec fn back_linked(
    v: Seq<Option<(usize, Seq<u32>, Seq<u32>, bool)>>,
    node: u32,
    cs: Seq<u32>,
    max_out: nat,
    max_in: nat,
) -> Seq<Option<(usize, Seq<u32>, Seq<u32>, bool)>>
    decreases cs.len(),
{
    if cs.len() == 0 {
        v
    } else {
        back_step(back_linked(v, node, cs.drop_last(), max_out, max_in), node, cs.last(), max_out, max_in)
    }
}

/// Slot by slot, `w` is `v` after back links to `node` were added: every
/// slot keeps its kind, length and flag; its out-links are unchanged or
/// gain `node` once, and only when they held fewer than `max_out` links
/// and not `node`; its in-links only gain entries and never grow past
/// `max_in` unless they already held more.
pub open spec fn within_back_link_limits(
    v: Seq<Option<(usize, Seq<u32>, Seq<u32>, bool)>>,
    w: Seq<Option<(usize, Seq<u32>, Seq<u32>, bool)>>,
    node: u32,
    max_out: nat,
    max_in: nat,
) -> bool {
    &&& w.len() == v.len()
    &&& forall|x: int| 0 <= x < v.len() ==> (#[trigger] v[x] is Some <==> w[x] is Some)
    &&& forall|x: int|
        0 <= x < v.len() && #[trigger] v[x] is Some ==> {
            let a = v[x]->0;
            let b = w[x]->0;
            &&& b.0 == a.0
            &&& b.3 == a.3
            &&& (b.1 == a.1 || (a.1.len() < max_out && !a.1.contains(node) && b.1 == a.1.push(node)))
            &&& a.2.is_prefix_of(b.2)
            &&& b.2.len() <= if a.2.len() < max_in { max_in } else { a.2.len() }
        }
}

/// Back links respect the degree limits: after the back-link steps for any
/// candidates, no node holds more than `max_out` out-links unless it
/// already did (a node that already had `max_out` keeps exactly its
/// out-links), no node's in-links grow past `max_in` unless they already
/// held more, and each node gains `node` as an out-link at most once.
pub proof fn lemma_back_links_respect_limits(
    v: Seq<Option<(usize, Seq<u32>, Seq<u32>, bool)>>,
    node: u32,
    cs: Seq<u32>,
    max_out: nat,
    max_in: nat,
)
    ensures
        within_back_link_limits(v, back_linked(v, node, cs, max_out, max_in), node, max_out, max_in),
    decreases cs.len(),
{
    if cs.len() == 0 {
        assert forall|x: int| 0 <= x < v.len() && #[trigger] v[x] is Some implies (v[x]->0).2.is_prefix_of(
            (v[x]->0).2,
        ) by {}
    } else {
        lemma_back_links_respect_limits(v, node, cs.drop_last(), max_out, max_in);
        let w = back_linked(v, node, cs.drop_last(), max_out, max_in);
        let c = cs.last();
        let w1 = if gains_back_link(w, node, c, max_out) {
            push_out(w, c as int, node)
        } else {
            w
        };
        let w2 = push_in_new(w1, c as int, node, max_in);
        let r = push_in_new(w2, node as int, c, max_in);
        assert(r == back_linked(v, node, cs, max_out, max_in));
        assert forall|x: int| 0 <= x < v.len() && #[trigger] v[x] is Some implies {
            let a = v[x]->0;
            let b = r[x]->0;
            &&& b.0 == a.0
            &&& b.3 == a.3
            &&& (b.1 == a.1 || (a.1.len() < max_out && !a.1.contains(node) && b.1 == a.1.push(node)))
            &&& a.2.is_prefix_of(b.2)
            &&& b.2.len() <= if a.2.len() < max_in { max_in } else { a.2.len() }
        } by {
            let a = v[x]->0;
            let m = w[x]->0;
            assert(w[x] is Some);
            if x == c as int && gains_back_link(w, node, c, max_out) {
                assert(!m.1.contains(node));
                if m.1 != a.1 {
                    assert(m.1 == a.1.push(node));
                    assert(m.1[a.1.len() as int] == node);
                    assert(false);
                }
            }
        }
    }
}

/// Back links reach every candidate that can take one: after the steps for
/// `cs`, each live candidate lists `node` as an out-link unless it holds
/// `max_out` out-links, lists `node` as an in-link unless its in-links are
/// full, and `node` lists it as an in-link unless its own are full.
pub proof fn lemma_back_links_reach_candidates(
    v: Seq<Option<(usize, Seq<u32>, Seq<u32>, bool)>>,
    node: u32,
    cs: Seq<u32>,
    max_out: nat,
    max_in: nat,
    k: int,
)
    requires
        0 <= k < cs.len(),
        live_view(v, cs[k] as int),
        0 <= node < v.len(),
        v[node as int] is Some,
    ensures
        ({
            let w = back_linked(v, node, cs, max_out, max_in);
            let c = cs[k] as int;
            &&& (w[c]->0).1.contains(node) || (w[c]->0).1.len() >= max_out
            &&& (w[c]->0).2.contains(node) || (w[c]->0).2.len() >= max_in
            &&& (w[node as int]->0).2.contains(cs[k]) || (w[node as int]->0).2.len() >= max_in
        }),
    decreases cs.len(),
{
    let c0 = cs.drop_last();
    let w0 = back_linked(v, node, c0, max_out, max_in);
    let w = back_linked(v, node, cs, max_out, max_in);
    let x = cs.last();
    assert(cs[cs.len() - 1] == x);
    lemma_back_links_respect_limits(v, node, c0, max_out, max_in);
    lemma_back_links_respect_limits(w0, node, seq![x], max_out, max_in);
    assert(seq![x].drop_last() =~= Seq::<u32>::empty());
    assert(seq![x].last() == x);
    assert(back_linked(w0, node, Seq::<u32>::empty(), max_out, max_in) == w0);
    assert(back_linked(w0, node, seq![x], max_out, max_in) == back_step(w0, node, x, max_out, max_in));
    assert(w == back_step(w0, node, x, max_out, max_in));
    let c = cs[k] as int;
    assert(w0[c] is Some && w0[node as int] is Some);
    if k < cs.len() - 1 {
        lemma_back_links_reach_candidates(v, node, c0, max_out, max_in, k);
        assert(c0[k] == cs[k]);
        let a = w0[c]->0;
        let b = w[c]->0;
        if a.1.contains(node) {
            let q = choose|q: int| 0 <= q < a.1.len() && a.1[q] == node;
            if b.1 != a.1 {
                assert(false);
            }
        }
        if a.2.contains(node) {
            let q = choose|q: int| 0 <= q < a.2.len() && a.2[q] == node;
            assert(b.2[q] == node);
        }
        let an = w0[node as int]->0;
        let bn = w[node as int]->0;
        if an.2.contains(cs[k]) {
            let q = choose|q: int| 0 <= q < an.2.len() && an.2[q] == cs[k];
            assert(bn.2[q] == cs[k]);
        }
    } else {
        assert(live_view(w0, c));
        let w1 = if gains_back_link(w0, node, x, max_out) {
            push_out(w0, x as int, node)
        } else {
            w0
        };
        let w2 = push_in_new(w1, x as int, node, max_in);
        let w3 = push_in_new(w2, node as int, x, max_in);
        assert(w == w3);
        let t1 = w1[c]->0;
        if gains_back_link(w0, node, x, max_out) {
            assert(t1.1[t1.1.len() - 1] == node);
        }
        assert(t1.1.contains(node) || t1.1.len() >= max_out);
        let t2 = w2[c]->0;
        if t1.2.len() < max_in && !t1.2.contains(node) {
            assert(t2.2[t1.2.len() as int] == node);
        }
        assert(t2.2.contains(node) || t2.2.len() >= max_in);
        let t3 = w3[c]->0;
        assert(t2.2.is_prefix_of(t3.2));
        if t2.2.contains(node) {
            let q = choose|q: int| 0 <= q < t2.2.len() && t2.2[q] == node;
            assert(t3.2[q] == node);
        }
        assert(t3.1 == t2.1 || c == node);
        if c == node as int && t1.1.contains(node) {
            let q = choose|q: int| 0 <= q < t1.1.len() && t1.1[q] == node;
            assert(t3.1[q] == node);
        }
        let tn = w2[node as int]->0;
        if tn.2.len() < max_in && !tn.2.contains(x) {
            assert((w3[node as int]->0).2[tn.2.len() as int] == x);
        }
    }
}

/// Repairing a node never overfills another: after its links are rebuilt
/// with back links, every other node that already held `max_out` out-links
/// keeps exactly its out-links, and every other node holds at most
/// `max_out` out-links unless it already held more.
pub proof fn lemma_rebuild_keeps_full_nodes(
    v: Seq<Option<(usize, Seq<u32>, Seq<u32>, bool)>>,
    node: u32,
    out: Seq<u32>,
    cs: Seq<u32>,
    max_out: nat,
    max_in: nat,
    x: int,
)
    requires
        0 <= x < v.len(),
        x != node,
        v[x] is Some,
    ensures
        ({
            let b = back_linked(with_out(v, node as int, out), node, cs, max_out, max_in)[x]->0;
            let a = v[x]->0;
            &&& a.1.len() >= max_out ==> b.1 == a.1
            &&& b.1.len() <= if a.1.len() < max_out { max_out } else { a.1.len() }
        }),
{
    let u = with_out(v, node as int, out);
    lemma_back_links_respect_limits(u, node, cs, max_out, max_in);
    assert(u[x] == v[x]);
}

/// How many of the back-link steps for `cs` add a back link.
pub open spec fn back_links_added(
    v: Seq<Option<(usize, Seq<u32>, Seq<u32>, bool)>>,
    node: u32,
    cs: Seq<u32>,
    max_out: nat,
    max_in: nat,
) -> nat
    decreases cs.len(),
{
    if cs.len() == 0 {
        0
    } else {
        back_links_added(v, node, cs.drop_last(), max_out, max_in) + if gains_back_link(
            back_linked(v, node, cs.drop_last(), max_out, max_in),
            node,
            cs.last(),
            max_out,
        ) {
            1nat
        } else {
            0nat
        }
    }
}

/// How many ranked candidates a node with `kept` surviving out-links takes
/// when it may hold `max_out`.
pub open spec fn taken_count(kept: nat, ranked: nat, max_out: nat) -> nat {
    if kept >= max_out {
        0
    } else if ranked < max_out - kept {
        ranked
    } else {
        (max_out - kept) as nat
    }
}

/// A repaired node takes as many ranked candidates as fit: never more than
/// are ranked, never so many that it exceeds `max_out` (none when its
/// surviving links already reach it), and all of them unless that limit
/// stops it.
pub proof fn lemma_taken_count_fills(kept: nat, ranked: nat, max_out: nat)
    ensures
        taken_count(kept, ranked, max_out) <= ranked,
        kept + taken_count(kept, ranked, max_out) <= if kept < max_out { max_out } else { kept },
        taken_count(kept, ranked, max_out) == ranked || kept + taken_count(kept, ranked, max_out)
            >= max_out,
{
}

/// Give repaired node `node_id` its new out-links: the surviving links
/// `kept` followed by the best-ranked candidates `ranked` while it holds
/// fewer than `max_neighbors`. With `bidirectional`, then walk all of
/// `ranked` in order: a live candidate that does not list the node yet and
/// has fewer than `max_neighbors` out-links links back to it; the candidate
/// records the node as an in-link and the node records the candidate
/// (each unless already listed or holding `max_in_neighbors`). Returns the
/// number of links added to the node and the number of back links.
pub fn rebuild_links(
    nodes: &mut Vec<Option<InPlaceNode>>,
    node_id: u32,
    kept: &[u32],
    ranked: &[u32],
    max_neighbors: usize,
    max_in_neighbors: usize,
    bidirectional: bool,
) -> (res: (usize, usize))
    requires
        (node_id as int) < old(nodes)@.len(),
        bidirectional ==> forall|k: int|
            0 <= k < ranked@.len() ==> (#[trigger] ranked@[k] as int) < old(nodes)@.len(),
    ensures
        res.0 == taken_count(kept@.len(), ranked@.len(), max_neighbors as nat),
        bidirectional ==> slot_views(final(nodes)@) == back_linked(
            with_out(
                slot_views(old(nodes)@),
                node_id as int,
                kept@ + ranked@.take(res.0 as int),
            ),
            node_id,
            ranked@,
            max_neighbors as nat,
            max_in_neighbors as nat,
        ) && res.1 == back_links_added(
            with_out(
                slot_views(old(nodes)@),
                node_id as int,
                kept@ + ranked@.take(res.0 as int),
            ),
            node_id,
            ranked@,
            max_neighbors as nat,
            max_in_neighbors as nat,
        ),
        !bidirectional ==> slot_views(final(nodes)@) == with_out(
            slot_views(old(nodes)@),
            node_id as int,
            kept@ + ranked@.take(res.0 as int),
        ) && res.1 == 0,
{
    let room: usize = if kept.len() < max_neighbors {
        max_neighbors - kept.len()
    } else {
        0
    };
    let new_out = extend_up_to(kept, ranked, room);
    let added: usize = if ranked.len() < room {
        ranked.len()
    } else {
        room
    };
    let ghost start = with_out(slot_views(nodes@), node_id as int, new_out@);
    let mut slot: Option<InPlaceNode> = None;
    nodes.set_and_swap(node_id as usize, &mut slot);
    let mut slot = match slot {
        Some(node) => {
            let mut node = node;
            node.out_neighbors = new_out;
            Some(node)
        },
        None => None,
    };
    nodes.set_and_swap(node_id as usize, &mut slot);
    proof {
        assert(slot_views(nodes@) =~= start);
    }
    if !bidirectional {
        return (added, 0);
    }
    let ghost cap_out = max_neighbors as nat;
    let ghost cap_in = max_in_neighbors as nat;
    let mut back: usize = 0;
    let mut k: usize = 0;
    while k < ranked.len()
        invariant
            k <= ranked@.len(),
            back <= k,
            (node_id as int) < nodes@.len(),
            forall|q: int| 0 <= q < ranked@.len() ==> (#[trigger] ranked@[q] as int) < nodes@.len(),
            cap_out == max_neighbors as nat,
            cap_in == max_in_neighbors as nat,
            slot_views(nodes@) == back_linked(start, node_id, ranked@.take(k as int), cap_out, cap_in),
            back == back_links_added(start, node_id, ranked@.take(k as int), cap_out, cap_in),
        decreases ranked@.len() - k,
    {
        let c = ranked[k];
        proof {
            assert(ranked@.take(k as int + 1).drop_last() =~= ranked@.take(k as int));
            assert(ranked@.take(k as int + 1).last() == c);
        }
        let ghost v0 = slot_views(nodes@);
        proof {
            assert(v0[c as int] == slot_view(nodes@[c as int]));
        }
        let mut slot: Option<InPlaceNode> = None;
        nodes.set_and_swap(c as usize, &mut slot);
        let mut gained = false;
        let mut slot = match slot {
            Some(node) => {
                let mut node = node;
                if !node.deleted && !contains_id(&node.out_neighbors, node_id)
                    && node.out_neighbors.len() < max_neighbors {
                    node.out_neighbors.push(node_id);
                    gained = true;
                }
                if node.in_neighbors.len() < max_in_neighbors && !contains_id(
                    &node.in_neighbors,
                    node_id,
                ) {
                    node.in_neighbors.push(node_id);
                }
                Some(node)
            },
            None => None,
        };
        nodes.set_and_swap(c as usize, &mut slot);
        let ghost v1 = if gains_back_link(v0, node_id, c, cap_out) {
            push_out(v0, c as int, node_id)
        } else {
            v0
        };
        proof {
            assert(gained == gains_back_link(v0, node_id, c, cap_out));
            assert(slot_views(nodes@) =~= push_in_new(v1, c as int, node_id, cap_in));
        }
        if gained {
            back = back + 1;
        }
        let ghost v2 = slot_views(nodes@);
        let mut slot: Option<InPlaceNode> = None;
        nodes.set_and_swap(node_id as usize, &mut slot);
        let mut slot = match slot {
            Some(node) => {
                let mut node = node;
                if node.in_neighbors.len() < max_in_neighbors && !contains_id(
                    &node.in_neighbors,
                    c,
                ) {
                    node.in_neighbors.push(c);
                }
                Some(node)
            },
            None => None,
        };
        nodes.set_and_swap(node_id as usize, &mut slot);
        proof {
            assert(slot_views(nodes@) =~= push_in_new(v2, node_id as int, c, cap_in));
        }
        k = k + 1;
    }
    proof {
        assert(ranked@.take(ranked@.len() as int) =~= ranked@);
    }
    (added, back)
}

/// The out-links recorded at slot `id`.
pub open spec fn out_links(v: Seq<Option<(usize, Seq<u32>, Seq<u32>, bool)>>, id: int) -> Seq<u32> {
    let t = v[id]->0;
    t.1
}

/// The slots once every node named in `outs` has dropped `id` from its
/// in-links.
pub open spec fn forgotten_by(
    v: Seq<Option<(usize, Seq<u32>, Seq<u32>, bool)>>,
    id: u32,
    outs: Seq<u32>,
) -> Seq<Option<(usize, Seq<u32>, Seq<u32>, bool)>> {
    Seq::new(
        v.len(),
        |j: int|
            if names(outs, j) && v[j] is Some {
                let t = v[j]->0;
                Some((t.0, t.1, without(t.2, set![id]), t.3))
            } else {
                v[j]
            },
    )
}

/// The slots once deleted node `id` is released: every node among its
/// out-links forgets it as an in-link, and its slot is emptied.
pub open spec fn released(
    v: Seq<Option<(usize, Seq<u32>, Seq<u32>, bool)>>,
    id: u32,
) -> Seq<Option<(usize, Seq<u32>, Seq<u32>, bool)>> {
    forgotten_by(v, id, out_links(v, id as int)).update(id as int, None)
}

/// What releasing does to the slots: the released slot is emptied; every
/// other node among its out-links keeps its out-links and flag and drops
/// exactly the released node from its in-links; all other slots are
/// untouched.
pub proof fn lemma_release_effect(v: Seq<Option<(usize, Seq<u32>, Seq<u32>, bool)>>, id: u32, j: int, y: u32)
    requires
        v.len() <= u32::MAX + 1,
        0 <= id < v.len(),
        v[id as int] is Some,
        0 <= j < v.len(),
    ensures
        ({
            let t = v[id as int]->0;
            let r = released(v, id);
            &&& r.len() == v.len()
            &&& r[id as int] is None
            &&& j != id && t.1.contains(j as u32) && v[j] is Some ==> {
                &&& r[j] is Some
                &&& (r[j]->0).0 == (v[j]->0).0
                &&& (r[j]->0).1 == (v[j]->0).1
                &&& (r[j]->0).3 == (v[j]->0).3
                &&& ((r[j]->0).2.contains(y) <==> (v[j]->0).2.contains(y) && y != id)
            }
            &&& j != id && !(t.1.contains(j as u32) && v[j] is Some) ==> r[j] == v[j]
        }),
{
    let t = v[id as int]->0;
    if j != id && t.1.contains(j as u32) {
        let k = choose|k: int| 0 <= k < t.1.len() && t.1[k] == j as u32;
        assert(names(t.1, j));
    }
    if names(t.1, j) {
        let k = choose|k: int| 0 <= k < t.1.len() && t.1[k] as int == j;
        assert(t.1.contains(j as u32));
    }
    if j != id && v[j] is Some {
        lemma_without_avoids((v[j]->0).2, set![id], y);
    }
}

/// Release deleted node `id`, the last step of a deletion: every node among
/// its out-links drops it from its in-links, its slot is emptied, and the
/// slot goes onto the free list, to be taken by the next insertion.
pub fn release_node(nodes: &mut Vec<Option<InPlaceNode>>, free_slots: &mut Vec<u32>, id: u32)
    requires
        (id as int) < old(nodes)@.len(),
        old(nodes)@[id as int] matches Some(node) && node.deleted,
        forall|k: int|
            0 <= k < out_links(slot_views(old(nodes)@), id as int).len() ==> (#[trigger] out_links(
                slot_views(old(nodes)@),
                id as int,
            )[k] as int) < old(nodes)@.len(),
    ensures
        slot_views(final(nodes)@) == released(slot_views(old(nodes)@), id),
        final(free_slots)@ == old(free_slots)@.push(id),
{
    let ghost v = slot_views(nodes@);
    proof {
        assert(v[id as int] == slot_view(nodes@[id as int]));
    }
    let outs = match &nodes[id as usize] {
        Some(node) => vstd::slice::slice_to_vec(node.out_neighbors.as_slice()),
        None => Vec::new(),
    };
    let ghost outs_v = out_links(v, id as int);
    assert(outs@ == outs_v);
    let mut gone: HashSet<u32> = HashSet::new();
    gone.insert(id);
    assert(gone@ =~= set![id]);
    assert(forgotten_by(v, id, outs@.take(0)) =~= v);
    let mut k: usize = 0;
    while k < outs.len()
        invariant
            k <= outs@.len(),
            gone@ == set![id],
            nodes@.len() == v.len(),
            (id as int) < v.len(),
            forall|j: int| 0 <= j < outs@.len() ==> (#[trigger] outs@[j] as int) < v.len(),
            slot_views(nodes@) == forgotten_by(v, id, outs@.take(k as int)),
        decreases outs@.len() - k,
    {
        let x = outs[k];
        let ghost cur = slot_views(nodes@);
        let ghost pre = outs@.take(k as int);
        let ghost next = outs@.take(k as int + 1);
        let ghost before = nodes@;
        proof {
            assert(cur[x as int] == slot_view(nodes@[x as int]));
        }
        let mut slot: Option<InPlaceNode> = None;
        nodes.set_and_swap(x as usize, &mut slot);
        let mut slot = match slot {
            Some(node) => {
                let mut node = node;
                let (kept, _) = strip(&node.in_neighbors, &gone);
                node.in_neighbors = kept;
                Some(node)
            },
            None => None,
        };
        let ghost put = slot;
        nodes.set_and_swap(x as usize, &mut slot);
        proof {
            assert(nodes@ == before.update(x as int, put));
            assert(slot_views(nodes@) =~= cur.update(x as int, slot_view(put)));
            let tgt = forgotten_by(v, id, next);
            assert forall|j: int| 0 <= j < v.len() && j != x as int implies names(next, j) == names(
                pre,
                j,
            ) by {
                if names(next, j) {
                    let q = choose|q: int| 0 <= q < next.len() && next[q] as int == j;
                    assert(q < pre.len());
                    assert(pre[q] == next[q]);
                }
                if names(pre, j) {
                    let q = choose|q: int| 0 <= q < pre.len() && pre[q] as int == j;
                    assert(next[q] == pre[q]);
                }
            }
            assert(names(next, x as int)) by {
                assert(next[k as int] == x);
            }
            if v[x as int] is Some {
                let t = v[x as int]->0;
                lemma_without_twice(t.2, set![id]);
                assert(slot_view(put) == tgt[x as int]);
            } else {
                assert(slot_view(put) == cur[x as int]);
            }
            assert(tgt =~= cur.update(x as int, tgt[x as int]));
            assert(slot_views(nodes@) =~= tgt);
        }
        k = k + 1;
    }
    let ghost last = slot_views(nodes@);
    nodes.set(id as usize, None);
    free_slots.push(id);
    proof {
        assert(outs@.take(outs@.len() as int) =~= outs@);
        assert(slot_views(nodes@) =~= last.update(id as int, None));
    }
}

/// Number of live slots among the first `k`.
pub open spec fn live_count(v: Seq<Option<(usize, Seq<u32>, Seq<u32>, bool)>>, k: int) -> nat
    decreases k,
{
    if k <= 0 {
        0
    } else {
        live_count(v, k - 1) + if live_view(v, k - 1) {
            1nat
        } else {
            0nat
        }
    }
}

/// `a` and `b` have the same length and the same live slots.
pub open spec fn same_live(
    a: Seq<Option<(usize, Seq<u32>, Seq<u32>, bool)>>,
    b: Seq<Option<(usize, Seq<u32>, Seq<u32>, bool)>>,
) -> bool {
    &&& a.len() == b.len()
    &&& forall|j: int| 0 <= j < a.len() ==> live_view(a, j) == live_view(b, j)
}

proof fn lemma_count_one_change(
    a: Seq<Option<(usize, Seq<u32>, Seq<u32>, bool)>>,
    b: Seq<Option<(usize, Seq<u32>, Seq<u32>, bool)>>,
    s: int,
    k: int,
)
    requires
        a.len() == b.len(),
        0 <= k <= a.len(),
        forall|j: int| 0 <= j < a.len() && j != s ==> live_view(a, j) == live_view(b, j),
    ensures
        live_count(b, k) + (if 0 <= s < k && live_view(a, s) {
            1int
        } else {
            0int
        }) == live_count(a, k) + (if 0 <= s < k && live_view(b, s) {
            1int
        } else {
            0int
        }),
    decreases k,
{
    if k > 0 {
        lemma_count_one_change(a, b, s, k - 1);
    }
}

proof fn lemma_same_live_count(
    a: Seq<Option<(usize, Seq<u32>, Seq<u32>, bool)>>,
    b: Seq<Option<(usize, Seq<u32>, Seq<u32>, bool)>>,
)
    requires
        same_live(a, b),
    ensures
        live_count(a, a.len() as int) == live_count(b, b.len() as int),
{
    lemma_count_one_change(a, b, -1, a.len() as int);
}

/// The live slots of the index as counted over its plain values are the
/// live slots of the index.
pub proof fn lemma_live_count_of_views(nodes: Seq<Option<InPlaceNode>>, k: int)
    requires
        k <= nodes.len(),
    ensures
        live_count(slot_views(nodes), k) == live_slots(nodes, k),
    decreases k,
{
    if k > 0 {
        lemma_live_count_of_views(nodes, k - 1);
        assert(slot_views(nodes)[k - 1] == slot_view(nodes[k - 1]));
    }
}

/// An admission adds exactly one live slot, when the slot it takes (the
/// last free slot, if any) holds no live node: a live count that matched
/// the live slots before still matches after it grows by one.
pub proof fn lemma_admission_adds_one_live(
    v: Seq<Option<(usize, Seq<u32>, Seq<u32>, bool)>>,
    free: Seq<u32>,
    dim: usize,
)
    requires
        free.len() > 0 ==> (free.last() as int) < v.len() && !live_view(v, free.last() as int),
    ensures
        live_count(admitted(v, free, dim), admitted(v, free, dim).len() as int) == live_count(
            v,
            v.len() as int,
        ) + 1,
{
    let w = admitted(v, free, dim);
    if free.len() > 0 {
        lemma_count_one_change(v, w, free.last() as int, v.len() as int);
    } else {
        lemma_count_prefix(v, w, v.len() as int);
        assert(live_view(w, v.len() as int));
        assert(live_count(w, w.len() as int) == live_count(w, v.len() as int) + 1);
    }
}

proof fn lemma_count_prefix(
    a: Seq<Option<(usize, Seq<u32>, Seq<u32>, bool)>>,
    b: Seq<Option<(usize, Seq<u32>, Seq<u32>, bool)>>,
    k: int,
)
    requires
        k <= a.len(),
        k <= b.len(),
        forall|j: int| 0 <= j < k ==> a[j] == b[j],
    ensures
        live_count(a, k) == live_count(b, k),
    decreases k,
{
    if k > 0 {
        lemma_count_prefix(a, b, k - 1);
    }
}

/// Detaching a live node removes exactly one live slot: the other nodes'
/// link changes leave every other slot as live as it was.
pub proof fn lemma_detach_removes_one_live(v: Seq<Option<(usize, Seq<u32>, Seq<u32>, bool)>>, id: u32)
    requires
        live_view(v, id as int),
    ensures
        same_live(
            marked(v, id as int),
            detached_by(v, id, in_links(v, id as int)),
        ),
        live_count(detached_by(v, id, in_links(v, id as int)), v.len() as int) + 1 == live_count(
            v,
            v.len() as int,
        ),
{
    let w = detached_by(v, id, in_links(v, id as int));
    lemma_count_one_change(v, w, id as int, v.len() as int);
}

/// Releasing a deleted node changes no slot's liveness.
pub proof fn lemma_release_keeps_live(v: Seq<Option<(usize, Seq<u32>, Seq<u32>, bool)>>, id: u32)
    requires
        0 <= id < v.len(),
        v[id as int] matches Some(t) && t.3,
    ensures
        same_live(v, released(v, id)),
        live_count(released(v, id), v.len() as int) == live_count(v, v.len() as int),
{
    lemma_same_live_count(v, released(v, id));
}

proof fn lemma_step_keeps_live(
    v: Seq<Option<(usize, Seq<u32>, Seq<u32>, bool)>>,
    x: int,
    y: u32,
    cap: nat,
    out: Seq<u32>,
)
    ensures
        same_live(v, push_out(v, x, y)),
        same_live(v, push_in_capped(v, x, y, cap)),
        same_live(v, push_in_new(v, x, y, cap)),
        same_live(v, with_out(v, x, out)),
{
}

proof fn lemma_linked_new_keeps_live(
    v: Seq<Option<(usize, Seq<u32>, Seq<u32>, bool)>>,
    id: u32,
    ns: Seq<u32>,
    bs: Seq<bool>,
    cap: nat,
)
    ensures
        same_live(v, linked_new(v, id, ns, bs, cap)),
    decreases ns.len(),
{
    if ns.len() > 0 {
        let w = linked_new(v, id, ns.drop_last(), bs.drop_last(), cap);
        lemma_linked_new_keeps_live(v, id, ns.drop_last(), bs.drop_last(), cap);
        let n = ns.last();
        let w1 = push_in_capped(w, n as int, id, cap);
        lemma_step_keeps_live(w, n as int, id, cap, Seq::empty());
        let w2 = push_out(w1, n as int, id);
        lemma_step_keeps_live(w1, n as int, id, cap, Seq::empty());
        lemma_step_keeps_live(w2, id as int, n, cap, Seq::empty());
    }
}

/// Linking a new node to its neighbors changes no slot's liveness, so the
/// live count stays right.
pub proof fn lemma_linking_keeps_live(
    v: Seq<Option<(usize, Seq<u32>, Seq<u32>, bool)>>,
    id: u32,
    neighbors: Seq<u32>,
    back_edges: Seq<bool>,
    cap: nat,
)
    ensures
        same_live(v, linked_new(with_out(v, id as int, neighbors), id, neighbors, back_edges, cap)),
        live_count(
            linked_new(with_out(v, id as int, neighbors), id, neighbors, back_edges, cap),
            v.len() as int,
        ) == live_count(v, v.len() as int),
{
    let w = with_out(v, id as int, neighbors);
    lemma_step_keeps_live(v, id as int, 0, cap, neighbors);
    lemma_linked_new_keeps_live(w, id, neighbors, back_edges, cap);
    lemma_same_live_count(v, linked_new(w, id, neighbors, back_edges, cap));
}

proof fn lemma_attached_keeps_live(
    v: Seq<Option<(usize, Seq<u32>, Seq<u32>, bool)>>,
    reps: Seq<(u32, Option<u32>)>,
    cap: nat,
)
    ensures
        same_live(v, attached(v, reps, cap)),
    decreases reps.len(),
{
    if reps.len() > 0 {
        let w = attached(v, reps.drop_last(), cap);
        lemma_attached_keeps_live(v, reps.drop_last(), cap);
        let p = reps.last();
        if let Some(r) = p.1 {
            lemma_step_keeps_live(w, p.0 as int, r, cap, Seq::empty());
            let w1 = push_out(w, p.0 as int, r);
            lemma_step_keeps_live(w1, r as int, p.0, cap, Seq::empty());
            lemma_step_keeps_live(w, r as int, p.0, cap, Seq::empty());
        }
    }
}

/// Applying replacement links changes no slot's liveness, so the live
/// count stays right.
pub proof fn lemma_replacements_keep_live(
    v: Seq<Option<(usize, Seq<u32>, Seq<u32>, bool)>>,
    reps: Seq<(u32, Option<u32>)>,
    cap: nat,
)
    ensures
        same_live(v, attached(v, reps, cap)),
        live_count(attached(v, reps, cap), v.len() as int) == live_count(v, v.len() as int),
{
    lemma_attached_keeps_live(v, reps, cap);
    lemma_same_live_count(v, attached(v, reps, cap));
}

proof fn lemma_back_linked_keeps_live(
    v: Seq<Option<(usize, Seq<u32>, Seq<u32>, bool)>>,
    node: u32,
    cs: Seq<u32>,
    max_out: nat,
    max_in: nat,
)
    ensures
        same_live(v, back_linked(v, node, cs, max_out, max_in)),
    decreases cs.len(),
{
    if cs.len() > 0 {
        let w = back_linked(v, node, cs.drop_last(), max_out, max_in);
        lemma_back_linked_keeps_live(v, node, cs.drop_last(), max_out, max_in);
        let c = cs.last();
        let w1 = if gains_back_link(w, node, c, max_out) {
            push_out(w, c as int, node)
        } else {
            w
        };
        lemma_step_keeps_live(w, c as int, node, max_in, Seq::empty());
        let w2 = push_in_new(w1, c as int, node, max_in);
        lemma_step_keeps_live(w1, c as int, node, max_in, Seq::empty());
        lemma_step_keeps_live(w2, node as int, c, max_in, Seq::empty());
    }
}

/// Rebuilding a repaired node's links changes no slot's liveness, so the
/// live count stays right.
pub proof fn lemma_rebuild_keeps_live(
    v: Seq<Option<(usize, Seq<u32>, Seq<u32>, bool)>>,
    node: u32,
    out: Seq<u32>,
    ranked: Seq<u32>,
    max_out: nat,
    max_in: nat,
)
    ensures
        same_live(v, back_linked(with_out(v, node as int, out), node, ranked, max_out, max_in)),
        live_count(
            back_linked(with_out(v, node as int, out), node, ranked, max_out, max_in),
            v.len() as int,
        ) == live_count(v, v.len() as int),
{
    let w = with_out(v, node as int, out);
    lemma_step_keeps_live(v, node as int, 0, max_in, out);
    lemma_back_linked_keeps_live(w, node, ranked, max_out, max_in);
    lemma_same_live_count(v, back_linked(w, node, ranked, max_out, max_in));
}

proof fn lemma_first_live(v: Seq<Option<(usize, Seq<u32>, Seq<u32>, bool)>>, l: Seq<u32>)
    ensures
        first_live(v, l) == u32::MAX || (live_view(v, first_live(v, l) as int) && l.contains(
            first_live(v, l),
        )),
    decreases l.len(),
{
    if l.len() > 0 && !live_view(v, l[0] as int) {
        lemma_first_live(v, l.drop_first());
        if first_live(v, l) != u32::MAX {
            let x = first_live(v, l);
            let q = choose|q: int| 0 <= q < l.drop_first().len() && l.drop_first()[q] == x;
            assert(l[q + 1] == x);
        }
    } else if l.len() > 0 {
        assert(l[0] == first_live(v, l));
    }
}

/// A deleted node never stays the entry point: after it is detached the
/// entry point is a live node it was linked with, an entry point that was
/// another node all along, or `u32::MAX` when no linked node is live.
pub proof fn lemma_detach_moves_entry(
    v: Seq<Option<(usize, Seq<u32>, Seq<u32>, bool)>>,
    id: u32,
    entry: u32,
)
    requires
        live_view(v, id as int),
    ensures
        entry_after_detach(v, id, entry) == u32::MAX || entry_after_detach(v, id, entry) != id,
        entry == id && entry_after_detach(v, id, entry) != u32::MAX ==> live_view(
            marked(v, id as int),
            entry_after_detach(v, id, entry) as int,
        ) && all_links(v, id as int).contains(entry_after_detach(v, id, entry)),
{
    lemma_first_live(marked(v, id as int), all_links(v, id as int));
}

/// A released slot is the next one an admission takes.
pub proof fn lemma_released_slot_is_reused(len: nat, free: Seq<u32>, id: u32)
    ensures
        claimed_slot(len, free.push(id)) == id,
{
}

} // verus!
