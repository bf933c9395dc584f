use vicinity::builder::{BuilderSettings, DistanceMetric, HNSWBuilder, SeedSelectionStrategy};
use vicinity::error::RetrieveError;

#[test]
fn builder_defaults() {
    let b = HNSWBuilder::new(128);
    assert_eq!(
        b.settings(),
        BuilderSettings {
            dimension: 128,
            m: 16,
            m_max: None,
            ef_construction: 200,
            ef_search: 50,
            auto_normalize: false,
            metric: DistanceMetric::Cosine,
        }
    );
    assert_eq!(b.resolved_m_max(), 32);
}

#[test]
fn builder_setters_chain() {
    let b = HNSWBuilder::new(64)
        .m(24)
        .ef_construction(400)
        .ef_search(80)
        .auto_normalize(true)
        .metric(DistanceMetric::L2);
    let s = b.settings();
    assert_eq!(s.m, 24);
    assert_eq!(s.ef_construction, 400);
    assert_eq!(s.ef_search, 80);
    assert!(s.auto_normalize);
    assert_eq!(s.metric, DistanceMetric::L2);
    assert_eq!(b.resolved_m_max(), 48);
    assert_eq!(b.clone().m_max(20).resolved_m_max(), 20);
}

#[test]
fn builder_validate_errors() {
    assert!(matches!(HNSWBuilder::new(0).validate(), Err(RetrieveError::InvalidParameter(_))));
    assert!(matches!(HNSWBuilder::new(8).m(0).validate(), Err(RetrieveError::InvalidParameter(_))));
    assert!(matches!(
        HNSWBuilder::new(8).m_max(0).validate(),
        Err(RetrieveError::InvalidParameter(_))
    ));
    assert_eq!(HNSWBuilder::new(8).validate().unwrap(), 32);
    assert_eq!(HNSWBuilder::new(8).m(4).m_max(6).validate().unwrap(), 6);
}

#[test]
fn seed_selection_default_is_stacked() {
    assert_eq!(SeedSelectionStrategy::default(), SeedSelectionStrategy::StackedNSW);
    assert_ne!(
        SeedSelectionStrategy::KSampledRandom { k: 3 },
        SeedSelectionStrategy::StackedNSW
    );
}
