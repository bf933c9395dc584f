//! Verified core of an HNSW approximate-nearest-neighbour library: the graph
//! bookkeeping of construction, deletion repair and merging, connectivity
//! (reachability, components, hop counts), node reordering, tombstones,
//! checks on saved indexes, filtered-search bookkeeping, visited sets and
//! edge-usage statistics. Distances are floating point and stay with the
//! caller; everything here works on node ids and counts. Neighbor lists
//! are plain `Vec<u32>`.
pub mod builder;
pub mod connectivity;
pub mod construction;
pub mod documents;
pub mod edge_stats;
pub mod error;
pub mod filtered;
pub mod graph_analysis;
pub mod id_mapping;
pub mod inplace;
pub mod merge;
pub mod recency;
pub mod reorder;
pub mod repair;
pub mod selection;
pub mod snapshot;
pub mod stats;
pub mod structure;
pub mod tombstones;
pub mod union_find;
pub mod visited;
