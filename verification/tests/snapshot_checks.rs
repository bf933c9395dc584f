use std::collections::HashMap;
use vicinity::snapshot::{
    check_deg_parts, check_dual_branch_parts, check_inplace_snapshot,
    check_mapped_inplace_snapshot, validate_inplace_maps, validate_inplace_parts, InPlaceNode,
    SkipBridge, SnapshotFault,
};

const DEG: [u8; 8] = *b"VICDEG01";
const DBH: [u8; 8] = *b"VICDBH01";
const IPL: [u8; 8] = *b"VICIPL01";
const IPM: [u8; 8] = *b"VICIPM01";

#[test]
fn deg_snapshot_accepts_consistent_parts() {
    let edges = vec![vec![1u32, 2], vec![0], vec![]];
    assert_eq!(check_deg_parts(DEG, 1, 4, &[4, 4, 4], &edges, 3, Some(2)), Ok(()));
    assert_eq!(check_deg_parts(DEG, 1, 4, &[], &[], 0, None), Ok(()));
}

#[test]
fn deg_snapshot_reports_first_failed_check() {
    let edges = vec![vec![1u32], vec![0]];
    assert_eq!(
        check_deg_parts(*b"VICDEG02", 1, 4, &[4, 4], &edges, 2, None),
        Err(SnapshotFault::BadMagic)
    );
    assert_eq!(
        check_deg_parts(DEG, 2, 0, &[4, 4], &edges, 2, None),
        Err(SnapshotFault::UnsupportedVersion { version: 2 })
    );
    assert_eq!(
        check_deg_parts(DEG, 1, 0, &[4, 4], &edges, 2, None),
        Err(SnapshotFault::ZeroDimension)
    );
    assert_eq!(
        check_deg_parts(DEG, 1, 4, &[4, 4], &edges, 1, None),
        Err(SnapshotFault::LengthMismatch)
    );
    assert_eq!(
        check_deg_parts(DEG, 1, 4, &[4, 3], &edges, 2, None),
        Err(SnapshotFault::VectorDimension { node: 1, found: 3, expected: 4 })
    );
    let bad_edges = vec![vec![1u32], vec![0, 5]];
    assert_eq!(
        check_deg_parts(DEG, 1, 4, &[4, 4], &bad_edges, 2, None),
        Err(SnapshotFault::NeighborOutOfRange { node: 1, neighbor: 5 })
    );
    assert_eq!(
        check_deg_parts(DEG, 1, 4, &[4, 4], &edges, 2, Some(2)),
        Err(SnapshotFault::EntryOutOfRange { entry: 2, count: 2 })
    );
}

fn bridge(from: u32, to: u32) -> SkipBridge {
    SkipBridge { from, to, skip_length: 3 }
}

#[test]
fn dual_branch_snapshot_accepts_consistent_parts() {
    let neighbors = vec![vec![1u32], vec![0, 2], vec![1]];
    let bridges = vec![bridge(0, 2), bridge(2, 0)];
    let adjacency = vec![vec![0usize], vec![], vec![1]];
    assert_eq!(
        check_dual_branch_parts(DBH, 1, 2, 3, 6, &neighbors, &bridges, &adjacency, 3, Some(0)),
        Ok(())
    );
}

#[test]
fn dual_branch_snapshot_reports_each_fault() {
    let neighbors = vec![vec![1u32], vec![0]];
    let bridges = vec![bridge(0, 1)];
    let adjacency = vec![vec![0usize], vec![]];
    let check = |magic: [u8; 8],
                 version: u32,
                 dimension: usize,
                 scalars: usize,
                 neighbors: &[Vec<u32>],
                 bridges: &[SkipBridge],
                 adjacency: &[Vec<usize>],
                 lid: usize,
                 entry: Option<u32>| {
        check_dual_branch_parts(
            magic, version, dimension, 2, scalars, neighbors, bridges, adjacency, lid, entry,
        )
    };
    assert_eq!(
        check(IPL, 1, 2, 4, &neighbors, &bridges, &adjacency, 2, None),
        Err(SnapshotFault::BadMagic)
    );
    assert_eq!(
        check(DBH, 3, 2, 4, &neighbors, &bridges, &adjacency, 2, None),
        Err(SnapshotFault::UnsupportedVersion { version: 3 })
    );
    assert_eq!(
        check(DBH, 1, 0, 4, &neighbors, &bridges, &adjacency, 2, None),
        Err(SnapshotFault::ZeroDimension)
    );
    assert_eq!(
        check(DBH, 1, 2, 5, &neighbors, &bridges, &adjacency, 2, None),
        Err(SnapshotFault::ScalarCountMismatch { found: 5, expected: 4 })
    );
    assert_eq!(
        check(DBH, 1, 2, 4, &neighbors, &bridges, &adjacency, 1, None),
        Err(SnapshotFault::LengthMismatch)
    );
    let far = vec![vec![1u32], vec![0, 7]];
    assert_eq!(
        check(DBH, 1, 2, 4, &far, &bridges, &adjacency, 2, None),
        Err(SnapshotFault::NeighborOutOfRange { node: 1, neighbor: 7 })
    );
    let loose = vec![bridge(0, 1), bridge(0, 9)];
    assert_eq!(
        check(DBH, 1, 2, 4, &neighbors, &loose, &adjacency, 2, None),
        Err(SnapshotFault::BridgeEndpointOutOfRange { bridge: 1 })
    );
    let missing = vec![vec![0usize], vec![4]];
    assert_eq!(
        check(DBH, 1, 2, 4, &neighbors, &bridges, &missing, 2, None),
        Err(SnapshotFault::BridgeIndexOutOfRange { node: 1, bridge: 4 })
    );
    let foreign = vec![vec![0usize], vec![0]];
    assert_eq!(
        check(DBH, 1, 2, 4, &neighbors, &bridges, &foreign, 2, None),
        Err(SnapshotFault::BridgeFromMismatch { node: 1, bridge: 0, from: 0 })
    );
    assert_eq!(
        check(DBH, 1, 2, 4, &neighbors, &bridges, &adjacency, 2, Some(2)),
        Err(SnapshotFault::EntryOutOfRange { entry: 2, count: 2 })
    );
}

fn live(dimension: usize, out: Vec<u32>, inn: Vec<u32>) -> Option<InPlaceNode> {
    Some(InPlaceNode { dimension, out_neighbors: out, in_neighbors: inn, deleted: false })
}

fn dead(dimension: usize) -> Option<InPlaceNode> {
    Some(InPlaceNode {
        dimension,
        out_neighbors: vec![],
        in_neighbors: vec![],
        deleted: true,
    })
}

fn sample_nodes() -> Vec<Option<InPlaceNode>> {
    vec![live(3, vec![1], vec![1]), live(3, vec![0], vec![0]), None, dead(3)]
}

#[test]
fn inplace_parts_accept_consistent_snapshot() {
    let nodes = sample_nodes();
    assert_eq!(validate_inplace_parts(3, &nodes, &[2, 3], 0, 2), Ok(()));
    // Deleted slots need not be listed as free.
    assert_eq!(validate_inplace_parts(3, &nodes, &[2], 1, 2), Ok(()));
    // An index without live nodes has no entry point.
    assert_eq!(validate_inplace_parts(3, &[None], &[0], u32::MAX, 0), Ok(()));
}

#[test]
fn inplace_parts_report_each_fault() {
    let nodes = sample_nodes();
    assert_eq!(validate_inplace_parts(0, &nodes, &[2], 0, 2), Err(SnapshotFault::ZeroDimension));
    assert_eq!(
        validate_inplace_parts(3, &nodes, &[2, 9], 0, 2),
        Err(SnapshotFault::FreeSlotOutOfRange { slot: 9, count: 4 })
    );
    assert_eq!(
        validate_inplace_parts(3, &nodes, &[2, 2], 0, 2),
        Err(SnapshotFault::DuplicateFreeSlot { slot: 2 })
    );
    assert_eq!(
        validate_inplace_parts(3, &nodes, &[2, 1], 0, 2),
        Err(SnapshotFault::LiveNodeFreed { slot: 1 })
    );
    assert_eq!(
        validate_inplace_parts(3, &nodes, &[3], 0, 2),
        Err(SnapshotFault::EmptySlotNotFree { slot: 2 })
    );
    let wide = vec![live(3, vec![], vec![]), live(4, vec![], vec![])];
    assert_eq!(
        validate_inplace_parts(3, &wide, &[], 0, 2),
        Err(SnapshotFault::VectorDimension { node: 1, found: 4, expected: 3 })
    );
    let dangling = vec![live(3, vec![1], vec![]), dead(3)];
    assert_eq!(
        validate_inplace_parts(3, &dangling, &[], 0, 1),
        Err(SnapshotFault::InactiveNeighbor { node: 0, neighbor: 1 })
    );
    let backlink = vec![live(3, vec![], vec![2]), live(3, vec![], vec![])];
    assert_eq!(
        validate_inplace_parts(3, &backlink, &[], 0, 2),
        Err(SnapshotFault::InactiveNeighbor { node: 0, neighbor: 2 })
    );
    assert_eq!(
        validate_inplace_parts(3, &nodes, &[2], 0, 5),
        Err(SnapshotFault::ActiveCountMismatch { recorded: 5, live: 2 })
    );
    assert_eq!(
        validate_inplace_parts(3, &[dead(3)], &[], 0, 0),
        Err(SnapshotFault::EmptyWithEntry)
    );
    assert_eq!(
        validate_inplace_parts(3, &nodes, &[2], 3, 2),
        Err(SnapshotFault::EntryNotLive { entry: 3 })
    );
}

#[test]
fn inplace_maps_accept_mirrored_maps() {
    let nodes = sample_nodes();
    let id_map: HashMap<u32, u32> = [(100, 0), (200, 1)].into_iter().collect();
    let reverse: HashMap<u32, u32> = [(0, 100), (1, 200)].into_iter().collect();
    assert_eq!(validate_inplace_maps(&nodes, &id_map, &reverse), Ok(()));
}

#[test]
fn inplace_maps_report_each_fault() {
    let nodes = sample_nodes();
    let id_map: HashMap<u32, u32> = [(100, 0)].into_iter().collect();
    let two: HashMap<u32, u32> = [(0, 100), (1, 200)].into_iter().collect();
    assert_eq!(
        validate_inplace_maps(&nodes, &id_map, &two),
        Err(SnapshotFault::MapLengthMismatch)
    );
    let wrong: HashMap<u32, u32> = [(0, 101)].into_iter().collect();
    assert_eq!(
        validate_inplace_maps(&nodes, &id_map, &wrong),
        Err(SnapshotFault::MissingReverse { external: 100 })
    );
    let to_dead: HashMap<u32, u32> = [(100, 3)].into_iter().collect();
    let back_dead: HashMap<u32, u32> = [(3, 100)].into_iter().collect();
    assert_eq!(
        validate_inplace_maps(&nodes, &to_dead, &back_dead),
        Err(SnapshotFault::InactiveMapping { external: 100, internal: 3 })
    );
    // Both external ids map to slot 0; the reverse map sends slot 0 back to 100 only.
    let shared: HashMap<u32, u32> = [(100, 0), (200, 0)].into_iter().collect();
    let back: HashMap<u32, u32> = [(0, 100), (1, 200)].into_iter().collect();
    assert_eq!(
        validate_inplace_maps(&nodes, &shared, &back),
        Err(SnapshotFault::MissingReverse { external: 200 })
    );
    let forward: HashMap<u32, u32> = [(100, 0), (200, 1)].into_iter().collect();
    let crossed: HashMap<u32, u32> = [(0, 100), (1, 100)].into_iter().collect();
    assert_eq!(
        validate_inplace_maps(&nodes, &forward, &crossed),
        Err(SnapshotFault::MissingReverse { external: 200 })
    );
}

#[test]
fn inplace_snapshot_checks_header_first() {
    let nodes = sample_nodes();
    assert_eq!(check_inplace_snapshot(IPL, 1, 3, &nodes, &[2], 0, 2), Ok(()));
    assert_eq!(
        check_inplace_snapshot(DEG, 1, 0, &nodes, &[2], 0, 2),
        Err(SnapshotFault::BadMagic)
    );
    assert_eq!(
        check_inplace_snapshot(IPL, 4, 0, &nodes, &[2], 0, 2),
        Err(SnapshotFault::UnsupportedVersion { version: 4 })
    );
    assert_eq!(
        check_inplace_snapshot(IPL, 1, 0, &nodes, &[2], 0, 2),
        Err(SnapshotFault::ZeroDimension)
    );
}

#[test]
fn mapped_inplace_snapshot_checks_maps_before_inner_index() {
    let nodes = sample_nodes();
    let id_map: HashMap<u32, u32> = [(100, 0), (200, 1)].into_iter().collect();
    let reverse: HashMap<u32, u32> = [(0, 100), (1, 200)].into_iter().collect();
    let check = |magic: [u8; 8], inner: [u8; 8], inner_version: u32, id: &HashMap<u32, u32>| {
        check_mapped_inplace_snapshot(magic, 1, id, &reverse, inner, inner_version, 3, &nodes, &[2], 0, 2)
    };
    assert_eq!(check(IPM, IPL, 1, &id_map), Ok(()));
    assert_eq!(check(IPL, IPL, 1, &id_map), Err(SnapshotFault::BadMagic));
    assert_eq!(check(IPM, IPM, 1, &id_map), Err(SnapshotFault::BadMagic));
    assert_eq!(
        check(IPM, IPL, 2, &id_map),
        Err(SnapshotFault::UnsupportedVersion { version: 2 })
    );
    let short: HashMap<u32, u32> = [(100, 0)].into_iter().collect();
    assert_eq!(check(IPM, IPM, 2, &short), Err(SnapshotFault::MapLengthMismatch));
    assert_eq!(
        check_mapped_inplace_snapshot(IPM, 7, &id_map, &reverse, IPL, 1, 3, &nodes, &[2], 0, 2),
        Err(SnapshotFault::UnsupportedVersion { version: 7 })
    );
}
