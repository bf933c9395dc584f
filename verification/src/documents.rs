//! Admission of documents into an index under construction: the checks on a
//! new document and the bookkeeping of its external and internal ids.
use crate::error::{decimal, push_decimal, RetrieveError};
use std::collections::HashMap;
use vstd::prelude::*;

verus! {

broadcast use vstd::std_specs::hash::group_hash_axioms;

/// The external ids and the map from external id to internal position
/// describe each other: ids are unique and each maps to its position.
pub open spec fn ids_consistent(doc_ids: Seq<u32>, doc_id_to_internal: Map<u32, u32>) -> bool {
    &&& doc_ids.no_duplicates()
    &&& doc_id_to_internal.dom() == doc_ids.to_set()
    &&& forall|d: u32| #[trigger]
        doc_id_to_internal.contains_key(d) ==> (doc_id_to_internal[d] as int) < doc_ids.len()
            && doc_ids[doc_id_to_internal[d] as int] == d
}

/// Add a document to an index that is not built yet. The checks run in
/// order: the index must not be built, `doc_id` must be new, the vector
/// must have `dimension` entries, and `norm_ok` (whether the vector passed
/// the metric's normalization check) must hold; `norm_sq_text` is the squared
/// norm of the vector written to four decimals, which the normalization
/// message quotes. On success the document
/// gets the next internal id, which is returned, and its layer is recorded;
/// on failure nothing changes.
pub fn add_document(
    built: bool,
    doc_ids: &mut Vec<u32>,
    doc_id_to_internal: &mut HashMap<u32, u32>,
    layer_assignments: &mut Vec<u8>,
    doc_id: u32,
    vector_len: usize,
    dimension: usize,
    norm_ok: bool,
    norm_sq_text: &str,
    layer: u8,
) -> (res: Result<u32, RetrieveError>)
    requires
        old(doc_ids)@.len() < u32::MAX,
    ensures
        res is Ok <==> !built && !old(doc_id_to_internal)@.contains_key(doc_id) && vector_len
            == dimension && norm_ok,
        built ==> (res matches Err(RetrieveError::InvalidParameter(m)) && m@
            == "cannot add vectors after index is built"@),
        !built && old(doc_id_to_internal)@.contains_key(doc_id) ==> (res matches Err(
            RetrieveError::InvalidParameter(m),
        ) && m@ == "duplicate doc_id "@ + decimal(doc_id as nat)
            + " (doc_id must be unique within an index)"@),
        !built && !old(doc_id_to_internal)@.contains_key(doc_id) && vector_len != dimension ==> (
        res matches Err(RetrieveError::DimensionMismatch { query_dim, doc_dim }) && query_dim
            == vector_len && doc_dim == dimension),
        !built && !old(doc_id_to_internal)@.contains_key(doc_id) && vector_len == dimension
            && !norm_ok ==> (res matches Err(RetrieveError::InvalidParameter(m)) && m@
            == "HNSW cosine distance requires L2-normalized vectors (got norm^2 = "@ + norm_sq_text@
            + ", expected ~1.0). Use `distance::normalize()` or set `auto_normalize(true)` on the builder."@),
        res matches Ok(internal) ==> internal == old(doc_ids)@.len() && final(doc_ids)@ == old(
            doc_ids,
        )@.push(doc_id) && final(doc_id_to_internal)@ == old(doc_id_to_internal)@.insert(
            doc_id,
            internal,
        ) && final(layer_assignments)@ == old(layer_assignments)@.push(layer),
        res is Err ==> final(doc_ids)@ == old(doc_ids)@ && final(doc_id_to_internal)@ == old(
            doc_id_to_internal,
        )@ && final(layer_assignments)@ == old(layer_assignments)@,
{
    if built {
        return Err(
            RetrieveError::InvalidParameter(
                String::from_str("cannot add vectors after index is built"),
            ),
        );
    }
    if doc_id_to_internal.contains_key(&doc_id) {
        let mut m = String::from_str("duplicate doc_id ");
        push_decimal(&mut m, doc_id as u64);
        m.append(" (doc_id must be unique within an index)");
        return Err(RetrieveError::InvalidParameter(m));
    }
    if vector_len != dimension {
        return Err(RetrieveError::DimensionMismatch { query_dim: vector_len, doc_dim: dimension });
    }
    if !norm_ok {
        let mut m = String::from_str("HNSW cosine distance requires L2-normalized vectors (got norm^2 = ");
        m.append(norm_sq_text);
        m.append(
            ", expected ~1.0). Use `distance::normalize()` or set `auto_normalize(true)` on the builder.",
        );
        return Err(RetrieveError::InvalidParameter(m));
    }
    let internal = doc_ids.len() as u32;
    doc_ids.push(doc_id);
    doc_id_to_internal.insert(doc_id, internal);
    layer_assignments.push(layer);
    Ok(internal)
}

/// Adding a new document keeps the id bookkeeping consistent.
pub proof fn lemma_add_keeps_ids_consistent(doc_ids: Seq<u32>, map: Map<u32, u32>, doc_id: u32)
    requires
        ids_consistent(doc_ids, map),
        !map.contains_key(doc_id),
        doc_ids.len() < u32::MAX,
    ensures
        ids_consistent(doc_ids.push(doc_id), map.insert(doc_id, doc_ids.len() as u32)),
{
    let ids = doc_ids.push(doc_id);
    let m = map.insert(doc_id, doc_ids.len() as u32);
    assert(!doc_ids.contains(doc_id)) by {
        if doc_ids.contains(doc_id) {
            assert(doc_ids.to_set().contains(doc_id));
        }
    }
    assert(ids.no_duplicates()) by {
        assert forall|a: int, b: int| 0 <= a < b < ids.len() implies ids[a] != ids[b] by {
            if b == doc_ids.len() && ids[a] == doc_id {
                assert(doc_ids[a] == doc_id);
            }
        }
    }
    assert forall|d: u32| #[trigger] m.dom().contains(d) <==> ids.to_set().contains(d) by {
        if ids.contains(d) && d != doc_id {
            let k = choose|k: int| 0 <= k < ids.len() && ids[k] == d;
            assert(doc_ids[k] == d);
            assert(doc_ids.to_set().contains(d));
        }
        if map.contains_key(d) {
            assert(doc_ids.to_set().contains(d));
            let k = choose|k: int| 0 <= k < doc_ids.len() && doc_ids[k] == d;
            assert(ids[k] == d);
        }
        if d == doc_id {
            assert(ids[doc_ids.len() as int] == d);
        }
    }
    assert(m.dom() =~= ids.to_set());
    assert forall|d: u32| #[trigger] m.contains_key(d) implies (m[d] as int) < ids.len() && ids[m[d] as int] == d by {
        if d != doc_id {
            assert(ids[map[d] as int] == doc_ids[map[d] as int]);
        }
    }
}

} // verus!
