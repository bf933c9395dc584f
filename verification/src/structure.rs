//! Structural bookkeeping of a layered HNSW graph: entry points, degree
//! bounds, tombstone persistence, structural validation and the graph side
//! of deletion repair.
use crate::error::{decimal, push_decimal, RetrieveError};
use crate::tombstones::TombstoneSet;
use std::collections::HashMap;
use std::collections::HashSet;
use vstd::prelude::*;

verus! {

broadcast use vstd::std_specs::hash::group_hash_axioms;

/// The node with the highest layer assignment, the first one on ties; node 0
/// when every assignment is 0 (or none is stored). `None` for an empty index.
pub fn compute_entry_point(layer_assignments: &[u8], num_vectors: usize) -> (res: Option<u32>)
    requires
        layer_assignments@.len() <= u32::MAX + 1,
    ensures
        num_vectors == 0 <==> res is None,
        res matches Some(ep) ==> {
            let s = layer_assignments@;
            &&& (s.len() == 0 ==> ep == 0)
            &&& (s.len() > 0 ==> (ep as int) < s.len())
            &&& forall|j: int| 0 <= j < s.len() ==> #[trigger] s[j] <= s[ep as int]
            &&& forall|j: int| 0 <= j < ep ==> #[trigger] s[j] < s[ep as int]
        },
{
    if num_vectors == 0 {
        return None;
    }
    let ghost s = layer_assignments@;
    let mut entry_point: u32 = 0;
    let mut entry_layer: u8 = 0;
    let mut idx: usize = 0;
    while idx < layer_assignments.len()
        invariant
            s == layer_assignments@,
            s.len() <= u32::MAX + 1,
            idx <= s.len(),
            idx == 0 ==> entry_point == 0 && entry_layer == 0,
            idx > 0 ==> (entry_point as int) < idx && entry_layer == s[entry_point as int],
            entry_layer == 0 ==> entry_point == 0,
            forall|j: int| 0 <= j < idx ==> #[trigger] s[j] <= entry_layer,
            forall|j: int| 0 <= j < entry_point ==> #[trigger] s[j] < entry_layer,
        decreases s.len() - idx,
    {
        let layer = layer_assignments[idx];
        if layer > entry_layer {
            entry_point = idx as u32;
            entry_layer = layer;
        }
        idx = idx + 1;
    }
    Some(entry_point)
}

/// Node `i` may serve as entry point: not excluded and not soft-deleted.
pub open spec fn eligible_entry(i: int, excluded: Set<u32>, deleted: Set<usize>) -> bool {
    !excluded.contains(i as u32) && !deleted.contains(i as usize)
}

/// `res` is the eligible node with the highest layer assignment, the last
/// one on ties, or `None` when no node is eligible.
pub open spec fn is_best_entry(
    s: Seq<u8>,
    excluded: Set<u32>,
    deleted: Set<usize>,
    res: Option<u32>,
) -> bool {
    match res {
        None => forall|j: int| 0 <= j < s.len() ==> !eligible_entry(j, excluded, deleted),
        Some(ep) => {
            &&& (ep as int) < s.len()
            &&& eligible_entry(ep as int, excluded, deleted)
            &&& forall|j: int|
                0 <= j < s.len() && eligible_entry(j, excluded, deleted) ==> #[trigger] s[j]
                    <= s[ep as int]
            &&& forall|j: int|
                ep < j < s.len() && eligible_entry(j, excluded, deleted) ==> #[trigger] s[j]
                    < s[ep as int]
        },
    }
}

fn best_entry(layer_assignments: &[u8], excluded: &HashSet<u32>, tombstones: &TombstoneSet) -> (res:
    Option<u32>)
    requires
        layer_assignments@.len() <= u32::MAX + 1,
    ensures
        is_best_entry(layer_assignments@, excluded@, tombstones@, res),
{
    let ghost s = layer_assignments@;
    let mut best: Option<u32> = None;
    let mut best_layer: u8 = 0;
    let mut i: usize = 0;
    while i < layer_assignments.len()
        invariant
            s == layer_assignments@,
            s.len() <= u32::MAX + 1,
            i <= s.len(),
            match best {
                None => forall|j: int| 0 <= j < i ==> !eligible_entry(j, excluded@, tombstones@),
                Some(ep) => {
                    &&& (ep as int) < i
                    &&& best_layer == s[ep as int]
                    &&& eligible_entry(ep as int, excluded@, tombstones@)
                    &&& forall|j: int|
                        0 <= j < i && eligible_entry(j, excluded@, tombstones@) ==> #[trigger] s[j]
                            <= best_layer
                    &&& forall|j: int|
                        ep < j < i && eligible_entry(j, excluded@, tombstones@) ==> #[trigger] s[j]
                            < best_layer
                },
            },
        decreases s.len() - i,
    {
        let id = i as u32;
        if !excluded.contains(&id) && !tombstones.is_deleted(i) {
            let layer = layer_assignments[i];
            match best {
                None => {
                    best = Some(id);
                    best_layer = layer;
                },
                Some(_) => {
                    if layer >= best_layer {
                        best = Some(id);
                        best_layer = layer;
                    }
                },
            }
        }
        i = i + 1;
    }
    best
}

/// A new entry point once `excluded` is deleted: the surviving node with the
/// highest layer assignment (the last one on ties).
pub fn find_entry_point_excluding(
    layer_assignments: &[u8],
    excluded: u32,
    tombstones: &TombstoneSet,
) -> (res: Option<u32>)
    requires
        layer_assignments@.len() <= u32::MAX + 1,
    ensures
        is_best_entry(layer_assignments@, set![excluded], tombstones@, res),
{
    let mut set: HashSet<u32> = HashSet::new();
    set.insert(excluded);
    assert(set@ =~= set![excluded]);
    best_entry(layer_assignments, &set, tombstones)
}

/// A new entry point once every node of `excluded` is deleted.
pub fn find_entry_point_excluding_set(
    layer_assignments: &[u8],
    excluded: &HashSet<u32>,
    tombstones: &TombstoneSet,
) -> (res: Option<u32>)
    requires
        layer_assignments@.len() <= u32::MAX + 1,
    ensures
        is_best_entry(layer_assignments@, excluded@, tombstones@, res),
{
    best_entry(layer_assignments, excluded, tombstones)
}

/// Lexicographic order on `(layer, node)` positions.
pub open spec fn before(l1: int, v1: int, l2: int, v2: int) -> bool {
    l1 < l2 || (l1 == l2 && v1 < v2)
}

/// The node with the most neighbors over all layers, as `(layer, node,
/// degree)`: the first such position in layer-then-node order, or
/// `(0, 0, 0)` when no node has a neighbor.
pub fn max_node_degree(layers: &[Vec<Vec<u32>>]) -> (res: (usize, u32, usize))
    requires
        forall|l: int| 0 <= l < layers@.len() ==> (#[trigger] layers@[l])@.len() <= u32::MAX + 1,
    ensures
        forall|l: int, v: int|
            0 <= l < layers@.len() && 0 <= v < layers@[l]@.len() ==> (
            #[trigger] layers@[l]@[v])@.len() <= res.2,
        res.2 == 0 ==> res.0 == 0 && res.1 == 0,
        res.2 > 0 ==> {
            &&& res.0 < layers@.len()
            &&& (res.1 as int) < layers@[res.0 as int]@.len()
            &&& layers@[res.0 as int]@[res.1 as int]@.len() == res.2
            &&& forall|l: int, v: int|
                0 <= l < layers@.len() && 0 <= v < layers@[l]@.len() && before(
                    l,
                    v,
                    res.0 as int,
                    res.1 as int,
                ) ==> (#[trigger] layers@[l]@[v])@.len() < res.2
        },
{
    let mut best: (usize, u32, usize) = (0, 0, 0);
    let mut li: usize = 0;
    while li < layers.len()
        invariant
            li <= layers@.len(),
            forall|l: int| 0 <= l < layers@.len() ==> (#[trigger] layers@[l])@.len() <= u32::MAX + 1,
            forall|l: int, v: int|
                0 <= l < li && 0 <= v < layers@[l]@.len() ==> (
                #[trigger] layers@[l]@[v])@.len() <= best.2,
            best.2 == 0 ==> best.0 == 0 && best.1 == 0,
            best.2 > 0 ==> {
                &&& best.0 < li
                &&& (best.1 as int) < layers@[best.0 as int]@.len()
                &&& layers@[best.0 as int]@[best.1 as int]@.len() == best.2
                &&& forall|l: int, v: int|
                    0 <= l < layers@.len() && 0 <= v < layers@[l]@.len() && before(
                        l,
                        v,
                        best.0 as int,
                        best.1 as int,
                    ) ==> (#[trigger] layers@[l]@[v])@.len() < best.2
            },
        decreases layers@.len() - li,
    {
        let layer = &layers[li];
        let mut v: usize = 0;
        while v < layer.len()
            invariant
                li < layers@.len(),
                layer == layers@[li as int],
                v <= layer@.len(),
                layer@.len() <= u32::MAX + 1,
                forall|l: int, w: int|
                    0 <= l < li && 0 <= w < layers@[l]@.len() ==> (
                    #[trigger] layers@[l]@[w])@.len() <= best.2,
                forall|w: int| 0 <= w < v ==> (#[trigger] layer@[w])@.len() <= best.2,
                best.2 == 0 ==> best.0 == 0 && best.1 == 0,
                best.2 > 0 ==> {
                    &&& best.0 <= li
                    &&& (best.0 == li ==> best.1 < v)
                    &&& (best.1 as int) < layers@[best.0 as int]@.len()
                    &&& layers@[best.0 as int]@[best.1 as int]@.len() == best.2
                    &&& forall|l: int, w: int|
                        0 <= l < layers@.len() && 0 <= w < layers@[l]@.len() && before(
                            l,
                            w,
                            best.0 as int,
                            best.1 as int,
                        ) ==> (#[trigger] layers@[l]@[w])@.len() < best.2
                },
            decreases layer@.len() - v,
        {
            let degree = layer[v].len();
            if degree > best.2 {
                best = (li, v as u32, degree);
            }
            v = v + 1;
        }
        li = li + 1;
    }
    best
}

/// Per-node deletion flags for `n` nodes: 1 when deleted, 0 otherwise.
pub open spec fn flags_of(n: nat, deleted: Set<usize>) -> Seq<u8> {
    Seq::new(n, |i: int| if deleted.contains(i as usize) { 1u8 } else { 0u8 })
}

/// Flags that can be restored: one per node, each 0 or 1.
pub open spec fn valid_flags(flags: Seq<u8>, n: nat) -> bool {
    flags.len() == n && forall|i: int| 0 <= i < flags.len() ==> #[trigger] flags[i] <= 1
}

/// The nodes whose flag is 1.
pub open spec fn deleted_of(flags: Seq<u8>) -> Set<usize> {
    Set::new(|id: usize| (id as int) < flags.len() && flags[id as int] == 1)
}

/// One flag per node: 1 when soft-deleted, 0 otherwise.
pub fn tombstone_flags(num_vectors: usize, tombstones: &TombstoneSet) -> (res: Vec<u8>)
    ensures
        res@ == flags_of(num_vectors as nat, tombstones@),
{
    let mut res: Vec<u8> = Vec::with_capacity(num_vectors);
    let mut i: usize = 0;
    while i < num_vectors
        invariant
            i <= num_vectors,
            res@.len() == i,
            forall|j: int|
                0 <= j < i ==> #[trigger] res@[j] == if tombstones@.contains(j as usize) {
                    1u8
                } else {
                    0u8
                },
        decreases num_vectors - i,
    {
        let flag: u8 = if tombstones.is_deleted(i) {
            1
        } else {
            0
        };
        res.push(flag);
        i = i + 1;
    }
    assert(res@ =~= flags_of(num_vectors as nat, tombstones@));
    res
}

/// Rebuild the deletion marks from per-node flags. Fails when the flag count
/// differs from `num_vectors` or a flag is neither 0 nor 1.
pub fn restore_tombstone_flags(flags: &[u8], num_vectors: usize) -> (res: Result<
    TombstoneSet,
    RetrieveError,
>)
    ensures
        res is Ok <==> valid_flags(flags@, num_vectors as nat),
        res matches Err(e) ==> e matches RetrieveError::FormatError(m) && if flags@.len()
            != num_vectors {
            m@ == "tombstone flag count ("@ + decimal(flags@.len()) + ") != num_vectors ("@
                + decimal(num_vectors as nat) + ")"@
        } else {
            exists|i: int|
                0 <= i < flags@.len() && #[trigger] flags@[i] > 1 && (forall|j: int|
                    0 <= j < i ==> #[trigger] flags@[j] <= 1) && m@ == "invalid tombstone flag "@
                    + decimal(flags@[i] as nat) + " at internal id "@ + decimal(i as nat)
        },
        res matches Ok(t) ==> t.wf() && t@ == deleted_of(flags@),
{
    if flags.len() != num_vectors {
        let mut m = String::from_str("tombstone flag count (");
        push_decimal(&mut m, flags.len() as u64);
        m.append(") != num_vectors (");
        push_decimal(&mut m, num_vectors as u64);
        m.append(")");
        return Err(RetrieveError::FormatError(m));
    }
    let mut deleted: Vec<usize> = Vec::new();
    let mut i: usize = 0;
    while i < flags.len()
        invariant
            i <= flags@.len(),
            flags@.len() == num_vectors,
            forall|j: int| 0 <= j < i ==> #[trigger] flags@[j] <= 1,
            forall|id: usize| #[trigger]
                deleted@.contains(id) <==> ((id as int) < i && flags@[id as int] == 1),
        decreases flags@.len() - i,
    {
        let flag = flags[i];
        if flag == 1 {
            let ghost prev = deleted@;
            deleted.push(i);
            assert forall|id: usize| #[trigger]
                deleted@.contains(id) <==> ((id as int) < i + 1 && flags@[id as int] == 1) by {
                if deleted@.contains(id) && id != i {
                    let k = choose|k: int| 0 <= k < deleted@.len() && deleted@[k] == id;
                    assert(prev[k] == id);
                }
                if prev.contains(id) {
                    let k = choose|k: int| 0 <= k < prev.len() && prev[k] == id;
                    assert(deleted@[k] == id);
                }
                if id == i {
                    assert(deleted@[prev.len() as int] == id);
                }
            }
        } else if flag != 0 {
            let mut m = String::from_str("invalid tombstone flag ");
            push_decimal(&mut m, flag as u64);
            m.append(" at internal id ");
            push_decimal(&mut m, i as u64);
            assert(flags@[i as int] == flag);
            assert(flags@[i as int] > 1);
            assert(m@ == "invalid tombstone flag "@ + decimal(flags@[i as int] as nat) + " at internal id "@ + decimal(i as nat));
            return Err(RetrieveError::FormatError(m));
        }
        i = i + 1;
    }
    let t = TombstoneSet::from_ids(deleted);
    assert forall|id: usize| #[trigger] t@.contains(id) <==> deleted_of(flags@).contains(id) by {
        assert(t@.contains(id) <==> deleted@.contains(id));
    }
    assert(t@ =~= deleted_of(flags@));
    Ok(t)
}

/// Persisting deletion marks as flags and restoring them gives back the
/// marks of the first `n` nodes, and the flags are always restorable.
pub proof fn lemma_tombstone_flags_roundtrip(n: nat, deleted: Set<usize>)
    ensures
        valid_flags(flags_of(n, deleted), n),
        deleted_of(flags_of(n, deleted)) == deleted.filter(|id: usize| (id as int) < n),
{
    assert(deleted_of(flags_of(n, deleted)) =~= deleted.filter(|id: usize| (id as int) < n));
}

/// Soft-delete the node stored for `doc_id`. Fails when `doc_id` is not in
/// the index.
pub fn delete_doc(
    doc_id_to_internal: &HashMap<u32, u32>,
    tombstones: &mut TombstoneSet,
    doc_id: u32,
) -> (res: Result<(), RetrieveError>)
    requires
        old(tombstones).wf(),
    ensures
        final(tombstones).wf(),
        res is Ok <==> doc_id_to_internal@.contains_key(doc_id),
        res matches Err(e) ==> e matches RetrieveError::InvalidParameter(m) && m@ == "doc_id "@
            + decimal(doc_id as nat) + " not found in index"@,
        res is Ok ==> final(tombstones)@ == old(tombstones)@.insert(
            doc_id_to_internal@[doc_id] as usize,
        ),
        res is Err ==> final(tombstones)@ == old(tombstones)@,
{
    match doc_id_to_internal.get(&doc_id) {
        Some(internal) => {
            tombstones.delete(*internal as usize);
            Ok(())
        },
        None => {
            let mut m = String::from_str("doc_id ");
            push_decimal(&mut m, doc_id as u64);
            m.append(" not found in index");
            Err(RetrieveError::InvalidParameter(m))
        },
    }
}

/// Resolve the documents of a batch deletion to their nodes, all or none:
/// the nodes of `doc_ids` in order when every one is in the index, and an
/// `InvalidParameter` error as soon as one is not.
pub fn resolve_doc_ids(doc_id_to_internal: &HashMap<u32, u32>, doc_ids: &[u32]) -> (res: Result<
    Vec<u32>,
    RetrieveError,
>)
    ensures
        res is Ok <==> forall|k: int|
            0 <= k < doc_ids@.len() ==> doc_id_to_internal@.contains_key(#[trigger] doc_ids@[k]),
        res matches Ok(ids) ==> ids@.len() == doc_ids@.len() && forall|k: int|
            0 <= k < doc_ids@.len() ==> #[trigger] ids@[k] == doc_id_to_internal@[doc_ids@[k]],
        res matches Err(e) ==> e matches RetrieveError::InvalidParameter(m) && exists|k: int|
            0 <= k < doc_ids@.len() && !doc_id_to_internal@.contains_key(#[trigger] doc_ids@[k])
                && (forall|j: int|
                0 <= j < k ==> doc_id_to_internal@.contains_key(#[trigger] doc_ids@[j])) && m@
                == "doc_id "@ + decimal(doc_ids@[k] as nat) + " not found in index"@,
{
    let mut ids: Vec<u32> = Vec::new();
    let mut k: usize = 0;
    while k < doc_ids.len()
        invariant
            k <= doc_ids@.len(),
            ids@.len() == k,
            forall|j: int| 0 <= j < k ==> doc_id_to_internal@.contains_key(#[trigger] doc_ids@[j]),
            forall|j: int| 0 <= j < k ==> #[trigger] ids@[j] == doc_id_to_internal@[doc_ids@[j]],
        decreases doc_ids@.len() - k,
    {
        match doc_id_to_internal.get(&doc_ids[k]) {
            Some(internal) => {
                ids.push(*internal);
            },
            None => {
                let mut m = String::from_str("doc_id ");
                push_decimal(&mut m, doc_ids[k] as u64);
                m.append(" not found in index");
                assert(doc_ids@[k as int] == doc_ids[k as int]);
                return Err(RetrieveError::InvalidParameter(m));
            },
        }
        k = k + 1;
    }
    Ok(ids)
}

/// The node stored for `doc_id` is marked deleted.
pub open spec fn doc_deleted(doc_id_to_internal: Map<u32, u32>, tombstones: Set<usize>, doc_id: u32) -> bool {
    doc_id_to_internal.contains_key(doc_id) && tombstones.contains(doc_id_to_internal[doc_id] as usize)
}

/// Whether the node stored for `doc_id` is soft-deleted (`false` for an
/// unknown `doc_id`).
pub fn is_deleted(doc_id_to_internal: &HashMap<u32, u32>, tombstones: &TombstoneSet, doc_id: u32) -> (res:
    bool)
    ensures
        res == doc_deleted(doc_id_to_internal@, tombstones@, doc_id),
{
    match doc_id_to_internal.get(&doc_id) {
        Some(internal) => tombstones.is_deleted(*internal as usize),
        None => false,
    }
}

/// What a deletion does to later reads: after [`delete_doc`] succeeds for
/// `doc_id`, [`is_deleted`] reports it deleted; a document stored at another
/// node reads as before; an unknown document never reads as deleted; and
/// deleting again changes nothing.
pub proof fn lemma_delete_then_read(map: Map<u32, u32>, before: Set<usize>, doc_id: u32, other: u32)
    requires
        map.contains_key(doc_id),
    ensures
        doc_deleted(map, before.insert(map[doc_id] as usize), doc_id),
        map.contains_key(other) && map[other] != map[doc_id] ==> doc_deleted(
            map,
            before.insert(map[doc_id] as usize),
            other,
        ) == doc_deleted(map, before, other),
        !map.contains_key(other) ==> !doc_deleted(map, before.insert(map[doc_id] as usize), other),
        before.insert(map[doc_id] as usize).insert(map[doc_id] as usize) == before.insert(
            map[doc_id] as usize,
        ),
{
    assert(before.insert(map[doc_id] as usize).insert(map[doc_id] as usize) =~= before.insert(
        map[doc_id] as usize,
    ));
    if map.contains_key(other) && map[other] != map[doc_id] {
        assert((map[other] as usize) != (map[doc_id] as usize));
    }
}

/// Map each external document id to its internal position; when an id
/// repeats, its last position wins.
pub fn build_reverse_map(doc_ids: &[u32]) -> (res: HashMap<u32, u32>)
    requires
        doc_ids@.len() <= u32::MAX + 1,
    ensures
        res@.dom() == doc_ids@.to_set(),
        forall|d: u32| #[trigger] res@.contains_key(d) ==> {
            &&& (res@[d] as int) < doc_ids@.len()
            &&& doc_ids@[res@[d] as int] == d
            &&& forall|j: int| res@[d] < j < doc_ids@.len() ==> doc_ids@[j] != d
        },
{
    let mut map: HashMap<u32, u32> = HashMap::new();
    let mut i: usize = 0;
    while i < doc_ids.len()
        invariant
            i <= doc_ids@.len(),
            doc_ids@.len() <= u32::MAX + 1,
            map@.dom() == doc_ids@.subrange(0, i as int).to_set(),
            forall|d: u32| #[trigger] map@.contains_key(d) ==> {
                &&& (map@[d] as int) < i
                &&& doc_ids@[map@[d] as int] == d
                &&& forall|j: int| map@[d] < j < i ==> doc_ids@[j] != d
            },
        decreases doc_ids@.len() - i,
    {
        let d = doc_ids[i];
        proof {
            assert(doc_ids@.subrange(0, i as int + 1) =~= doc_ids@.subrange(0, i as int).push(d));
            doc_ids@.subrange(0, i as int).lemma_push_to_set_commute(d);
        }
        map.insert(d, i as u32);
        i = i + 1;
    }
    assert(doc_ids@.subrange(0, doc_ids@.len() as int) =~= doc_ids@);
    map
}

/// Every neighbor id of every layer names one of the `num_vectors` nodes.
pub open spec fn neighbors_in_bounds(layers: Seq<Vec<Vec<u32>>>, num_vectors: nat) -> bool {
    forall|l: int, v: int, j: int|
        0 <= l < layers.len() && 0 <= v < layers[l]@.len() && 0 <= j < layers[l]@[v]@.len() ==> (
        #[trigger] layers[l]@[v]@[j] as int) < num_vectors
}

/// The structural invariants an index must satisfy before it can be
/// searched.
pub open spec fn structure_ok(
    dimension: usize,
    vectors_len: usize,
    num_vectors: usize,
    doc_ids: Seq<u32>,
    layer_assignments_len: usize,
    category_assignments_len: usize,
    layers: Seq<Vec<Vec<u32>>>,
    built: bool,
) -> bool {
    &&& dimension > 0
    &&& vectors_len == num_vectors * dimension
    &&& doc_ids.len() == num_vectors
    &&& layer_assignments_len == num_vectors
    &&& (category_assignments_len == 0 || category_assignments_len == num_vectors)
    &&& doc_ids.no_duplicates()
    &&& layers.len() <= 255
    &&& !(built && num_vectors > 0 && layers.len() == 0)
    &&& neighbors_in_bounds(layers, num_vectors as nat)
}

/// The first id of `s` that repeats an earlier one, scanning in order.
pub open spec fn first_repeat(s: Seq<u32>) -> Option<u32>
    decreases s.len(),
{
    if s.len() == 0 {
        None
    } else {
        match first_repeat(s.drop_last()) {
            Some(x) => Some(x),
            None => if s.drop_last().contains(s.last()) {
                Some(s.last())
            } else {
                None
            },
        }
    }
}

proof fn lemma_first_repeat_none(s: Seq<u32>)
    ensures
        first_repeat(s) is None <==> s.no_duplicates(),
    decreases s.len(),
{
    if s.len() > 0 {
        let p = s.drop_last();
        lemma_first_repeat_none(p);
        if p.no_duplicates() && !p.contains(s.last()) {
            assert forall|a: int, b: int| 0 <= a < b < s.len() implies s[a] != s[b] by {
                if b == s.len() - 1 {
                    assert(p[a] == s[a]);
                } else {
                    assert(p[a] == s[a] && p[b] == s[b]);
                }
            }
        }
        if s.no_duplicates() {
            assert forall|a: int, b: int| 0 <= a < b < p.len() implies p[a] != p[b] by {
                assert(p[a] == s[a] && p[b] == s[b]);
            }
            if p.contains(s.last()) {
                let k = choose|k: int| 0 <= k < p.len() && p[k] == s.last();
                assert(s[k] == s[s.len() - 1]);
            }
        }
    }
}

proof fn lemma_first_repeat_extends(s: Seq<u32>, k: int, x: u32)
    requires
        0 <= k <= s.len(),
        first_repeat(s.take(k)) == Some(x),
    ensures
        first_repeat(s) == Some(x),
    decreases s.len() - k,
{
    if k < s.len() {
        assert(s.take(k + 1).drop_last() =~= s.take(k));
        lemma_first_repeat_extends(s, k + 1, x);
    } else {
        assert(s.take(k) =~= s);
    }
}

/// The first id of `ids` that repeats an earlier one, if any.
fn first_duplicate(ids: &[u32]) -> (res: Option<u32>)
    ensures
        res == first_repeat(ids@),
{
    let mut seen: HashSet<u32> = HashSet::with_capacity(ids.len());
    let mut i: usize = 0;
    while i < ids.len()
        invariant
            i <= ids@.len(),
            seen@ == ids@.subrange(0, i as int).to_set(),
            ids@.subrange(0, i as int).no_duplicates(),
        decreases ids@.len() - i,
    {
        let x = ids[i];
        let ghost pre = ids@.subrange(0, i as int);
        proof {
            assert(ids@.subrange(0, i as int + 1) =~= pre.push(x));
            pre.lemma_push_to_set_commute(x);
        }
        if !seen.insert(x) {
            proof {
                assert(pre.contains(x));
                lemma_first_repeat_none(pre);
                let next = ids@.take(i as int + 1);
                assert(next.drop_last() =~= pre);
                assert(next.last() == x);
                lemma_first_repeat_extends(ids@, i as int + 1, x);
            }
            return Some(x);
        }
        proof {
            assert(!pre.contains(x));
            let q = pre.push(x);
            assert forall|a: int, b: int| 0 <= a < b < q.len() implies q[a] != q[b] by {
                if b == pre.len() && q[a] == x {
                    assert(pre[a] == x);
                }
            }
        }
        i = i + 1;
    }
    assert(ids@.subrange(0, ids@.len() as int) =~= ids@);
    proof {
        lemma_first_repeat_none(ids@);
    }
    None
}

/// Every neighbor id of the first `l` layers, and of the first `v` nodes of
/// layer `l`, names one of the `n` nodes.
pub open spec fn in_bounds_before(layers: Seq<Vec<Vec<u32>>>, n: nat, l: int, v: int) -> bool {
    &&& forall|a: int, w: int, j: int|
        0 <= a < l && 0 <= w < layers[a]@.len() && 0 <= j < layers[a]@[w]@.len() ==> (
        #[trigger] layers[a]@[w]@[j] as int) < n
    &&& forall|w: int, j: int|
        0 <= w < v && 0 <= j < layers[l]@[w]@.len() ==> (#[trigger] layers[l]@[w]@[j] as int) < n
}

/// `neighbor` is the first out-of-bounds neighbor id, scanning layers, then
/// nodes, then list entries in order: it sits in the list of node `node` of
/// layer `layer`.
pub open spec fn first_bad_neighbor(
    layers: Seq<Vec<Vec<u32>>>,
    n: nat,
    layer: int,
    node: int,
    neighbor: u32,
) -> bool {
    &&& 0 <= layer < layers.len()
    &&& 0 <= node < layers[layer]@.len()
    &&& in_bounds_before(layers, n, layer, node)
    &&& neighbor as int >= n
    &&& exists|j: int|
        0 <= j < layers[layer]@[node]@.len() && #[trigger] layers[layer]@[node]@[j] == neighbor
            && forall|k: int| 0 <= k < j ==> (#[trigger] layers[layer]@[node]@[k] as int) < n
}

/// Find the first out-of-bounds neighbor id: its layer, its node and the id.
fn first_out_of_bounds(layers: &[Vec<Vec<u32>>], num_vectors: usize) -> (res: Option<(usize, usize, u32)>)
    ensures
        res is None <==> neighbors_in_bounds(layers@, num_vectors as nat),
        res matches Some((l, v, nb)) ==> first_bad_neighbor(
            layers@,
            num_vectors as nat,
            l as int,
            v as int,
            nb,
        ),
{
    let mut l: usize = 0;
    while l < layers.len()
        invariant
            l <= layers@.len(),
            forall|a: int, v: int, j: int|
                0 <= a < l && 0 <= v < layers@[a]@.len() && 0 <= j < layers@[a]@[v]@.len() ==> (
                #[trigger] layers@[a]@[v]@[j] as int) < num_vectors,
        decreases layers@.len() - l,
    {
        let layer = &layers[l];
        let mut v: usize = 0;
        while v < layer.len()
            invariant
                l < layers@.len(),
                layer == layers@[l as int],
                v <= layer@.len(),
                forall|a: int, w: int, j: int|
                    0 <= a < l && 0 <= w < layers@[a]@.len() && 0 <= j < layers@[a]@[w]@.len()
                        ==> (#[trigger] layers@[a]@[w]@[j] as int) < num_vectors,
                forall|w: int, j: int|
                    0 <= w < v && 0 <= j < layers@[l as int]@[w]@.len() ==> (
                    #[trigger] layers@[l as int]@[w]@[j] as int) < num_vectors,
            decreases layer@.len() - v,
        {
            let list = &layer[v];
            let mut j: usize = 0;
            while j < list.len()
                invariant
                    l < layers@.len(),
                    layer == layers@[l as int],
                    v < layer@.len(),
                    list == layer@[v as int],
                    j <= list@.len(),
                    forall|k: int| 0 <= k < j ==> (#[trigger] layers@[l as int]@[v as int]@[k] as int)
                        < num_vectors,
                    forall|a: int, w: int, k: int|
                        0 <= a < l && 0 <= w < layers@[a]@.len() && 0 <= k < layers@[a]@[w]@.len()
                            ==> (#[trigger] layers@[a]@[w]@[k] as int) < num_vectors,
                    forall|w: int, k: int|
                        0 <= w < v && 0 <= k < layers@[l as int]@[w]@.len() ==> (
                        #[trigger] layers@[l as int]@[w]@[k] as int) < num_vectors,
                decreases list@.len() - j,
            {
                if list[j] as usize >= num_vectors {
                    assert(layers@[l as int]@[v as int]@[j as int] == list@[j as int]);
                    return Some((l, v, list[j]));
                }
                assert(layers@[l as int]@[v as int]@[j as int] == list@[j as int]);
                j = j + 1;
            }
            v = v + 1;
        }
        l = l + 1;
    }
    None
}

/// The message of the first structural check that fails.
pub open spec fn structure_error(
    dimension: usize,
    vectors_len: usize,
    num_vectors: usize,
    doc_ids: Seq<u32>,
    layer_assignments_len: usize,
    category_assignments_len: usize,
    layers: Seq<Vec<Vec<u32>>>,
    built: bool,
    m: Seq<char>,
) -> bool {
    if dimension == 0 {
        m == "dimension must be > 0"@
    } else if vectors_len != num_vectors * dimension {
        m == "vectors.len() ("@ + decimal(vectors_len as nat) + ") != num_vectors ("@ + decimal(
            num_vectors as nat,
        ) + ") * dimension ("@ + decimal(dimension as nat) + ")"@
    } else if doc_ids.len() != num_vectors {
        m == "doc_ids.len() ("@ + decimal(doc_ids.len()) + ") != num_vectors ("@ + decimal(
            num_vectors as nat,
        ) + ")"@
    } else if layer_assignments_len != num_vectors {
        m == "layer_assignments.len() ("@ + decimal(layer_assignments_len as nat)
            + ") != num_vectors ("@ + decimal(num_vectors as nat) + ")"@
    } else if category_assignments_len != 0 && category_assignments_len != num_vectors {
        m == "category_assignments.len() ("@ + decimal(category_assignments_len as nat)
            + ") != num_vectors ("@ + decimal(num_vectors as nat) + ")"@
    } else if first_repeat(doc_ids) is Some {
        m == "duplicate doc_id: "@ + decimal(first_repeat(doc_ids)->0 as nat)
    } else if layers.len() > 255 {
        m == "too many layers ("@ + decimal(layers.len()) + ") -- expected < 256"@
    } else if built && num_vectors > 0 && layers.len() == 0 {
        m == "index is marked as built but has no layers"@
    } else {
        exists|l: int, v: int, nb: u32|
            #[trigger] first_bad_neighbor(layers, num_vectors as nat, l, v, nb) && m == "layer "@
                + decimal(l as nat) + " node "@ + decimal(v as nat) + " has out-of-bounds neighbor "@
                + decimal(nb as nat) + " (num_vectors="@ + decimal(num_vectors as nat) + ")"@
    }
}

/// Check the structural invariants of an index, as after loading it from
/// storage. Fails with a format error whose message names the first violated
/// invariant, with the values that break it.
pub fn validate_structure(
    dimension: usize,
    vectors_len: usize,
    num_vectors: usize,
    doc_ids: &[u32],
    layer_assignments_len: usize,
    category_assignments_len: usize,
    layers: &[Vec<Vec<u32>>],
    built: bool,
) -> (res: Result<(), RetrieveError>)
    requires
        num_vectors * dimension <= usize::MAX,
    ensures
        res is Ok <==> structure_ok(
            dimension,
            vectors_len,
            num_vectors,
            doc_ids@,
            layer_assignments_len,
            category_assignments_len,
            layers@,
            built,
        ),
        res matches Err(e) ==> e matches RetrieveError::FormatError(m) && structure_error(
            dimension,
            vectors_len,
            num_vectors,
            doc_ids@,
            layer_assignments_len,
            category_assignments_len,
            layers@,
            built,
            m@,
        ),
{
    if dimension == 0 {
        return Err(RetrieveError::FormatError(String::from_str("dimension must be > 0")));
    }
    if vectors_len != num_vectors * dimension {
        let mut m = String::from_str("vectors.len() (");
        push_decimal(&mut m, vectors_len as u64);
        m.append(") != num_vectors (");
        push_decimal(&mut m, num_vectors as u64);
        m.append(") * dimension (");
        push_decimal(&mut m, dimension as u64);
        m.append(")");
        return Err(RetrieveError::FormatError(m));
    }
    if doc_ids.len() != num_vectors {
        let mut m = String::from_str("doc_ids.len() (");
        push_decimal(&mut m, doc_ids.len() as u64);
        m.append(") != num_vectors (");
        push_decimal(&mut m, num_vectors as u64);
        m.append(")");
        return Err(RetrieveError::FormatError(m));
    }
    if layer_assignments_len != num_vectors {
        let mut m = String::from_str("layer_assignments.len() (");
        push_decimal(&mut m, layer_assignments_len as u64);
        m.append(") != num_vectors (");
        push_decimal(&mut m, num_vectors as u64);
        m.append(")");
        return Err(RetrieveError::FormatError(m));
    }
    if category_assignments_len != 0 && category_assignments_len != num_vectors {
        let mut m = String::from_str("category_assignments.len() (");
        push_decimal(&mut m, category_assignments_len as u64);
        m.append(") != num_vectors (");
        push_decimal(&mut m, num_vectors as u64);
        m.append(")");
        return Err(RetrieveError::FormatError(m));
    }
    proof {
        lemma_first_repeat_none(doc_ids@);
    }
    if let Some(dup) = first_duplicate(doc_ids) {
        let mut m = String::from_str("duplicate doc_id: ");
        push_decimal(&mut m, dup as u64);
        return Err(RetrieveError::FormatError(m));
    }
    if layers.len() > 255 {
        let mut m = String::from_str("too many layers (");
        push_decimal(&mut m, layers.len() as u64);
        m.append(") -- expected < 256");
        return Err(RetrieveError::FormatError(m));
    }
    if built && num_vectors > 0 && layers.len() == 0 {
        return Err(
            RetrieveError::FormatError(
                String::from_str("index is marked as built but has no layers"),
            ),
        );
    }
    if let Some((l, v, nb)) = first_out_of_bounds(layers, num_vectors) {
        let mut m = String::from_str("layer ");
        push_decimal(&mut m, l as u64);
        m.append(" node ");
        push_decimal(&mut m, v as u64);
        m.append(" has out-of-bounds neighbor ");
        push_decimal(&mut m, nb as u64);
        m.append(" (num_vectors=");
        push_decimal(&mut m, num_vectors as u64);
        m.append(")");
        assert(first_bad_neighbor(layers@, num_vectors as nat, l as int, v as int, nb));
        return Err(RetrieveError::FormatError(m));
    }
    Ok(())
}

} // verus!
