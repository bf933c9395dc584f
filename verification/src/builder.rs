//! Index configuration: distance metric, seed selection and the HNSW builder.
use crate::error::RetrieveError;
use vstd::prelude::*;

verus! {

/// Distance metric used for all comparisons.
#[derive(Clone, Copy, Debug, PartialEq, Eq, Structural)]
pub enum DistanceMetric {
    L2,
    Cosine,
    Angular,
    InnerProduct,
}

/// How a search chooses its entry point(s).
#[derive(Clone, Debug, Default, PartialEq, Eq, Structural)]
pub enum SeedSelectionStrategy {
    /// Entry point in the highest layer, descending layer by layer.
    #[default]
    StackedNSW,
    /// `k` random nodes per query.
    KSampledRandom {
        /// Number of random seeds to sample.
        k: usize,
    },
}

/// The parameters a builder holds.
#[derive(Clone, Copy, Debug, PartialEq, Eq, Structural)]
pub struct BuilderSettings {
    pub dimension: usize,
    pub m: usize,
    pub m_max: Option<usize>,
    pub ef_construction: usize,
    pub ef_search: usize,
    pub auto_normalize: bool,
    pub metric: DistanceMetric,
}

/// Builder for an HNSW index: collects the construction parameters and
/// checks them before an index is created.
#[derive(Clone, Debug)]
pub struct HNSWBuilder {
    dimension: usize,
    m: usize,
    m_max: Option<usize>,
    ef_construction: usize,
    ef_search: usize,
    auto_normalize: bool,
    metric: DistanceMetric,
}

impl View for HNSWBuilder {
    type V = BuilderSettings;

    closed spec fn view(&self) -> BuilderSettings {
        BuilderSettings {
            dimension: self.dimension,
            m: self.m,
            m_max: self.m_max,
            ef_construction: self.ef_construction,
            ef_search: self.ef_search,
            auto_normalize: self.auto_normalize,
            metric: self.metric,
        }
    }
}

impl HNSWBuilder {
    /// Builder for vectors of `dimension` components with the default
    /// parameters: `m = 16`, base-layer limit `2 * m`, `ef_construction =
    /// 200`, `ef_search = 50`, no normalisation, cosine metric.
    pub fn new(dimension: usize) -> (res: Self)
        ensures
            res@ == (BuilderSettings {
                dimension,
                m: 16,
                m_max: None,
                ef_construction: 200,
                ef_search: 50,
                auto_normalize: false,
                metric: DistanceMetric::Cosine,
            }),
    {
        HNSWBuilder {
            dimension,
            m: 16,
            m_max: None,
            ef_construction: 200,
            ef_search: 50,
            auto_normalize: false,
            metric: DistanceMetric::Cosine,
        }
    }

    /// Set the maximum number of neighbors per node on layers >= 1.
    pub fn m(self, m: usize) -> (res: Self)
        ensures
            res@ == (BuilderSettings { m, ..self@ }),
    {
        HNSWBuilder { m, ..self }
    }

    /// Set the maximum number of neighbors per node on the base layer
    /// (default `2 * m`).
    pub fn m_max(self, m_max: usize) -> (res: Self)
        ensures
            res@ == (BuilderSettings { m_max: Some(m_max), ..self@ }),
    {
        HNSWBuilder { m_max: Some(m_max), ..self }
    }

    /// Set the construction effort.
    pub fn ef_construction(self, ef: usize) -> (res: Self)
        ensures
            res@ == (BuilderSettings { ef_construction: ef, ..self@ }),
    {
        HNSWBuilder { ef_construction: ef, ..self }
    }

    /// Set the default search effort.
    pub fn ef_search(self, ef: usize) -> (res: Self)
        ensures
            res@ == (BuilderSettings { ef_search: ef, ..self@ }),
    {
        HNSWBuilder { ef_search: ef, ..self }
    }

    /// Whether vectors are L2-normalised on add and search.
    pub fn auto_normalize(self, normalize: bool) -> (res: Self)
        ensures
            res@ == (BuilderSettings { auto_normalize: normalize, ..self@ }),
    {
        HNSWBuilder { auto_normalize: normalize, ..self }
    }

    /// Set the distance metric.
    pub fn metric(self, metric: DistanceMetric) -> (res: Self)
        ensures
            res@ == (BuilderSettings { metric, ..self@ }),
    {
        HNSWBuilder { metric, ..self }
    }

    /// The parameters collected so far.
    pub fn settings(&self) -> (res: BuilderSettings)
        ensures
            res == self@,
    {
        BuilderSettings {
            dimension: self.dimension,
            m: self.m,
            m_max: self.m_max,
            ef_construction: self.ef_construction,
            ef_search: self.ef_search,
            auto_normalize: self.auto_normalize,
            metric: self.metric,
        }
    }

    /// The base-layer limit the index is built with: the explicit value, or
    /// `2 * m` when none was set.
    pub open spec fn spec_resolved_m_max(&self) -> int {
        match self@.m_max {
            Some(x) => x as int,
            None => 2 * self@.m,
        }
    }

    /// Base-layer limit after applying the `2 * m` default.
    pub fn resolved_m_max(&self) -> (res: usize)
        requires
            self.spec_resolved_m_max() <= usize::MAX,
        ensures
            res == self.spec_resolved_m_max(),
    {
        match self.m_max {
            Some(x) => x,
            None => 2 * self.m,
        }
    }

    /// The parameter checks an index applies on creation: the dimension and
    /// both neighbor limits must be positive.
    pub fn validate(&self) -> (res: Result<usize, RetrieveError>)
        requires
            self.spec_resolved_m_max() <= usize::MAX,
        ensures
            res is Ok <==> (self@.dimension > 0 && self@.m > 0 && self.spec_resolved_m_max() > 0),
            res matches Ok(mm) ==> mm == self.spec_resolved_m_max(),
            res matches Err(e) ==> e matches RetrieveError::InvalidParameter(m) && m@ == if self@.dimension
                == 0 {
                "dimension must be > 0"@
            } else {
                "m and m_max must be greater than 0"@
            },
    {
        let m_max = self.resolved_m_max();
        if self.dimension == 0 {
            return Err(RetrieveError::InvalidParameter(String::from_str("dimension must be > 0")));
        }
        if self.m == 0 || m_max == 0 {
            return Err(
                RetrieveError::InvalidParameter(
                    String::from_str("m and m_max must be greater than 0"),
                ),
            );
        }
        Ok(m_max)
    }

}

/// Smallest neighbor list that compressed id storage compresses; shorter
/// lists stay uncompressed.
pub fn default_compression_threshold() -> (res: usize)
    ensures
        res == 32,
{
    32
}

} // verus!
