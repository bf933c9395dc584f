use std::collections::HashMap;
use vicinity::documents::add_document;
use vicinity::error::RetrieveError;

fn invalid_parameter(r: &Result<u32, RetrieveError>) -> Option<&str> {
    match r {
        Err(RetrieveError::InvalidParameter(m)) => Some(m.as_str()),
        _ => None,
    }
}

#[test]
fn add_document_assigns_consecutive_internal_ids() {
    let mut doc_ids = Vec::new();
    let mut map = HashMap::new();
    let mut layers = Vec::new();
    assert_eq!(add_document(false, &mut doc_ids, &mut map, &mut layers, 70, 3, 3, true, "1.0000", 0).ok(), Some(0));
    assert_eq!(add_document(false, &mut doc_ids, &mut map, &mut layers, 42, 3, 3, true, "1.0000", 2).ok(), Some(1));
    assert_eq!(doc_ids, vec![70, 42]);
    assert_eq!(layers, vec![0, 2]);
    assert_eq!(map.get(&70), Some(&0));
    assert_eq!(map.get(&42), Some(&1));
}

#[test]
fn add_document_rejects_in_order_and_changes_nothing() {
    let mut doc_ids = vec![5];
    let mut map: HashMap<u32, u32> = [(5, 0)].into_iter().collect();
    let mut layers = vec![1u8];
    let r = add_document(true, &mut doc_ids, &mut map, &mut layers, 6, 2, 3, false, "4.0000", 0);
    assert_eq!(invalid_parameter(&r), Some("cannot add vectors after index is built"));
    let r = add_document(false, &mut doc_ids, &mut map, &mut layers, 5, 2, 3, false, "4.0000", 0);
    assert_eq!(
        invalid_parameter(&r),
        Some("duplicate doc_id 5 (doc_id must be unique within an index)")
    );
    let r = add_document(false, &mut doc_ids, &mut map, &mut layers, 6, 2, 3, false, "4.0000", 0);
    assert!(matches!(r, Err(RetrieveError::DimensionMismatch { query_dim: 2, doc_dim: 3 })));
    let r = add_document(false, &mut doc_ids, &mut map, &mut layers, 6, 3, 3, false, "4.0000", 0);
    assert_eq!(
        invalid_parameter(&r),
        Some(
            "HNSW cosine distance requires L2-normalized vectors (got norm^2 = 4.0000, expected ~1.0). \
             Use `distance::normalize()` or set `auto_normalize(true)` on the builder."
        )
    );
    assert_eq!(doc_ids, vec![5]);
    assert_eq!(map.len(), 1);
    assert_eq!(layers, vec![1]);
}
