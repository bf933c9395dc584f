//! Counters reported by graph merging and probabilistic routing.
use vstd::prelude::*;

verus! {

/// Statistics from a merge of two graphs.
#[derive(Clone, Copy, Debug, Default, PartialEq, Eq, Structural)]
pub struct MergeStats {
    /// Nodes from graph A.
    pub nodes_from_a: usize,
    /// Nodes from graph B.
    pub nodes_from_b: usize,
    /// Total nodes in the merged graph.
    pub total_nodes: usize,
    /// Edges added during the merge.
    pub edges_added: usize,
    /// Edges pruned during refinement.
    pub edges_pruned: usize,
    /// Distance computations.
    pub distance_computations: u64,
}

/// Statistics for probabilistic routing.
#[derive(Clone, Copy, Debug, Default, PartialEq, Eq, Structural)]
pub struct ProbabilisticStats {
    /// Total edges considered.
    pub edges_considered: u64,
    /// Edges actually tested (distance computed).
    pub edges_tested: u64,
    /// Edges skipped due to low probability.
    pub edges_skipped: u64,
    /// Edges that would have improved the result.
    pub beneficial_skips: u64,
    /// Total searches.
    pub total_searches: u64,
}

} // verus!
