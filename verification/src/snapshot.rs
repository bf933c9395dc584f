//! Consistency checks applied to saved indexes before they are rebuilt: the
//! header (magic bytes and version), the array lengths, and every stored
//! node id.
use std::collections::HashMap;
use std::collections::HashSet;
use vstd::prelude::*;
use vstd::std_specs::hash::spec_hash_map_iter;
use vstd::std_specs::iter::IteratorSpec;

verus! {

broadcast use vstd::std_specs::hash::group_hash_axioms;

/// Why a saved index was refused.
#[derive(Debug, Clone, Copy, PartialEq, Eq, Structural)]
pub enum SnapshotFault {
    /// The magic bytes do not name this kind of index.
    BadMagic,
    /// The format version is not one this library reads.
    UnsupportedVersion { version: u32 },
    /// The vector dimension is zero.
    ZeroDimension,
    /// The flat vector array does not hold `count * dimension` scalars.
    ScalarCountMismatch { found: usize, expected: usize },
    /// Arrays that hold one entry per vector differ in length.
    LengthMismatch,
    /// A stored vector has the wrong dimension.
    VectorDimension { node: usize, found: usize, expected: usize },
    /// A neighbor list names a node that does not exist.
    NeighborOutOfRange { node: usize, neighbor: u32 },
    /// A skip bridge starts or ends outside the index.
    BridgeEndpointOutOfRange { bridge: usize },
    /// A node lists a skip bridge that does not exist.
    BridgeIndexOutOfRange { node: usize, bridge: usize },
    /// A node lists a skip bridge that starts at another node.
    BridgeFromMismatch { node: usize, bridge: usize, from: u32 },
    /// The entry point names a node that does not exist.
    EntryOutOfRange { entry: u32, count: usize },
    /// A free slot lies outside the node array.
    FreeSlotOutOfRange { slot: u32, count: usize },
    /// A free slot is listed twice.
    DuplicateFreeSlot { slot: u32 },
    /// A live node is also listed as free.
    LiveNodeFreed { slot: u32 },
    /// An empty slot is missing from the free list.
    EmptySlotNotFree { slot: usize },
    /// A live node links to a slot that holds no live node.
    InactiveNeighbor { node: usize, neighbor: u32 },
    /// The recorded number of live nodes is wrong.
    ActiveCountMismatch { recorded: u32, live: u32 },
    /// An index without live nodes names an entry point.
    EmptyWithEntry,
    /// The entry point is not a live node.
    EntryNotLive { entry: u32 },
    /// The two id maps hold different numbers of entries.
    MapLengthMismatch,
    /// An external id has no matching reverse entry.
    MissingReverse { external: u32 },
    /// An external id maps to a slot without a live node.
    InactiveMapping { external: u32, internal: u32 },
    /// A reverse entry does not map back to its internal id.
    ReverseMismatch { internal: u32, external: u32 },
}

/// Every id in every list is below `n`.
pub open spec fn lists_below(lists: Seq<Vec<u32>>, n: nat) -> bool {
    forall|i: int, j: int|
        0 <= i < lists.len() && 0 <= j < lists[i]@.len() ==> (#[trigger] lists[i]@[j] as int) < n
}

/// `magic` spells the eight bytes `expected`.
fn magic_is(magic: &[u8; 8], expected: &[u8; 8]) -> (res: bool)
    ensures
        res == (magic@ == expected@),
{
    let mut i: usize = 0;
    while i < 8
        invariant
            i <= 8,
            magic@.len() == 8,
            expected@.len() == 8,
            forall|k: int| 0 <= k < i ==> magic@[k] == expected@[k],
        decreases 8 - i,
    {
        if magic[i] != expected[i] {
            return false;
        }
        i = i + 1;
    }
    assert(magic@ =~= expected@);
    true
}

/// Every id in the first `k` lists is below `n`.
pub open spec fn lists_below_upto(lists: Seq<Vec<u32>>, n: nat, k: int) -> bool {
    forall|i: int, j: int|
        0 <= i < k && 0 <= j < lists[i]@.len() ==> (#[trigger] lists[i]@[j] as int) < n
}

/// `neighbor` is the first id of list `node` that is not below `n`, and no
/// earlier list holds such an id.
pub open spec fn first_out_of_range(lists: Seq<Vec<u32>>, n: nat, node: int, neighbor: u32) -> bool {
    &&& 0 <= node < lists.len()
    &&& lists_below_upto(lists, n, node)
    &&& neighbor as int >= n
    &&& exists|j: int|
        0 <= j < lists[node]@.len() && #[trigger] lists[node]@[j] == neighbor && forall|b: int|
            0 <= b < j ==> (#[trigger] lists[node]@[b] as int) < n
}

/// Find the first neighbor id, in list order, that is not below `n`.
fn find_out_of_range(lists: &[Vec<u32>], n: usize) -> (res: Option<(usize, u32)>)
    ensures
        res is None <==> lists_below(lists@, n as nat),
        res matches Some((node, neighbor)) ==> first_out_of_range(
            lists@,
            n as nat,
            node as int,
            neighbor,
        ),
{
    let mut i: usize = 0;
    while i < lists.len()
        invariant
            i <= lists@.len(),
            forall|a: int, b: int|
                0 <= a < i && 0 <= b < lists@[a]@.len() ==> (#[trigger] lists@[a]@[b] as int) < n,
        decreases lists@.len() - i,
    {
        let list = &lists[i];
        let mut j: usize = 0;
        while j < list.len()
            invariant
                i < lists@.len(),
                list == lists@[i as int],
                j <= list@.len(),
                forall|a: int, b: int|
                    0 <= a < i && 0 <= b < lists@[a]@.len() ==> (#[trigger] lists@[a]@[b] as int)
                        < n,
                forall|b: int| 0 <= b < j ==> (#[trigger] list@[b] as int) < n,
            decreases list@.len() - j,
        {
            if list[j] as usize >= n {
                assert(lists@[i as int]@[j as int] == list[j as int]);
                return Some((i, list[j]));
            }
            j = j + 1;
        }
        i = i + 1;
    }
    None
}

/// The magic bytes of a saved DEG index.
pub open spec fn deg_magic() -> Seq<u8> {
    seq![0x56u8, 0x49, 0x43, 0x44, 0x45, 0x47, 0x30, 0x31]
}

/// The header of a saved DEG index is readable and its vectors are non-empty.
pub open spec fn deg_header_ok(magic: [u8; 8], version: u32, dim: usize) -> bool {
    magic@ == deg_magic() && version == 1 && dim != 0
}

/// One edge list and one density record per vector.
pub open spec fn deg_shape_ok(vector_dims: Seq<usize>, edges: Seq<Vec<u32>>, density_len: usize) -> bool {
    edges.len() == vector_dims.len() && density_len == vector_dims.len()
}

/// Every vector has dimension `dim`.
pub open spec fn dims_all(vector_dims: Seq<usize>, dim: usize) -> bool {
    forall|i: int| 0 <= i < vector_dims.len() ==> #[trigger] vector_dims[i] == dim
}

/// The entry point, when set, names a stored vector.
pub open spec fn entry_within(entry_point: Option<u32>, n: nat) -> bool {
    entry_point matches Some(e) ==> (e as int) < n
}

/// A saved DEG index is consistent.
pub open spec fn deg_parts_valid(
    magic: [u8; 8],
    version: u32,
    dim: usize,
    vector_dims: Seq<usize>,
    edges: Seq<Vec<u32>>,
    density_len: usize,
    entry_point: Option<u32>,
) -> bool {
    &&& deg_header_ok(magic, version, dim)
    &&& deg_shape_ok(vector_dims, edges, density_len)
    &&& dims_all(vector_dims, dim)
    &&& lists_below(edges, vector_dims.len())
    &&& entry_within(entry_point, vector_dims.len())
}

/// `fault` is the first check of a saved DEG index that fails, with data
/// that shows the failure.
pub open spec fn deg_fault(
    fault: SnapshotFault,
    magic: [u8; 8],
    version: u32,
    dim: usize,
    vector_dims: Seq<usize>,
    edges: Seq<Vec<u32>>,
    density_len: usize,
    entry_point: Option<u32>,
) -> bool {
    let n = vector_dims.len();
    match fault {
        SnapshotFault::BadMagic => magic@ != deg_magic(),
        SnapshotFault::UnsupportedVersion { version: v } => magic@ == deg_magic() && version != 1
            && v == version,
        SnapshotFault::ZeroDimension => magic@ == deg_magic() && version == 1 && dim == 0,
        SnapshotFault::LengthMismatch => deg_header_ok(magic, version, dim) && !deg_shape_ok(
            vector_dims,
            edges,
            density_len,
        ),
        SnapshotFault::VectorDimension { node, found, expected } => deg_header_ok(magic, version, dim)
            && deg_shape_ok(vector_dims, edges, density_len) && node < n && found
            == vector_dims[node as int] && expected == dim && found != dim && forall|k: int|
            0 <= k < node ==> #[trigger] vector_dims[k] == dim,
        SnapshotFault::NeighborOutOfRange { node, neighbor } => deg_header_ok(magic, version, dim)
            && deg_shape_ok(vector_dims, edges, density_len) && dims_all(vector_dims, dim)
            && first_out_of_range(edges, n, node as int, neighbor),
        SnapshotFault::EntryOutOfRange { entry, count } => deg_header_ok(magic, version, dim)
            && deg_shape_ok(vector_dims, edges, density_len) && dims_all(vector_dims, dim)
            && lists_below(edges, n) && entry_point == Some(entry) && entry as int >= n && count
            == n,
        _ => false,
    }
}

/// Check a saved DEG index before it is rebuilt. `vector_dims[i]` is the
/// length of stored vector `i` and `density_len` the number of density
/// records. The checks run in order: magic bytes, version, dimension, array
/// lengths, each vector's dimension, each edge, the entry point; the first
/// that fails is reported.
pub fn check_deg_parts(
    magic: [u8; 8],
    version: u32,
    dim: usize,
    vector_dims: &[usize],
    edges: &[Vec<u32>],
    density_len: usize,
    entry_point: Option<u32>,
) -> (res: Result<(), SnapshotFault>)
    ensures
        res is Ok <==> deg_parts_valid(
            magic,
            version,
            dim,
            vector_dims@,
            edges@,
            density_len,
            entry_point,
        ),
        res matches Err(f) ==> deg_fault(
            f,
            magic,
            version,
            dim,
            vector_dims@,
            edges@,
            density_len,
            entry_point,
        ),
{
    if !magic_is(&magic, &[0x56u8, 0x49, 0x43, 0x44, 0x45, 0x47, 0x30, 0x31]) {
        return Err(SnapshotFault::BadMagic);
    }
    if version != 1 {
        return Err(SnapshotFault::UnsupportedVersion { version });
    }
    if dim == 0 {
        return Err(SnapshotFault::ZeroDimension);
    }
    let n = vector_dims.len();
    if edges.len() != n || density_len != n {
        return Err(SnapshotFault::LengthMismatch);
    }
    let mut i: usize = 0;
    while i < n
        invariant
            n == vector_dims@.len(),
            deg_header_ok(magic, version, dim),
            deg_shape_ok(vector_dims@, edges@, density_len),
            i <= n,
            forall|k: int| 0 <= k < i ==> #[trigger] vector_dims@[k] == dim,
        decreases n - i,
    {
        let found = vector_dims[i];
        if found != dim {
            assert(found == vector_dims@[i as int]);
            return Err(SnapshotFault::VectorDimension { node: i, found, expected: dim });
        }
        i = i + 1;
    }
    match find_out_of_range(edges, n) {
        Some((node, neighbor)) => {
            return Err(SnapshotFault::NeighborOutOfRange { node, neighbor });
        },
        None => {},
    }
    if let Some(entry) = entry_point {
        if entry as usize >= n {
            return Err(SnapshotFault::EntryOutOfRange { entry, count: n });
        }
    }
    Ok(())
}

/// A shortcut edge of a dual-branch index that skips several hops.
#[derive(Debug, Clone, Copy, PartialEq, Eq, Structural)]
pub struct SkipBridge {
    /// Source node.
    pub from: u32,
    /// Target node.
    pub to: u32,
    /// Approximate number of hops this bridge shortcuts.
    pub skip_length: u32,
}

/// The magic bytes of a saved dual-branch index.
pub open spec fn dual_branch_magic() -> Seq<u8> {
    seq![0x56u8, 0x49, 0x43, 0x44, 0x42, 0x48, 0x30, 0x31]
}

/// Magic bytes, version and dimension of a saved dual-branch index are
/// acceptable, and the flat vector array holds `num_vectors * dimension`
/// scalars.
pub open spec fn dual_branch_header_ok(
    magic: [u8; 8],
    version: u32,
    dimension: usize,
    num_vectors: usize,
    vector_scalars: usize,
) -> bool {
    &&& magic@ == dual_branch_magic()
    &&& version == 1
    &&& dimension != 0
    &&& vector_scalars == num_vectors * dimension
}

/// Every bridge starts and ends at a stored vector.
pub open spec fn bridges_within(bridges: Seq<SkipBridge>, n: nat) -> bool {
    forall|b: int|
        0 <= b < bridges.len() ==> (#[trigger] bridges[b]).from < n && bridges[b].to < n
}

/// Every bridge a node lists exists and starts at that node.
pub open spec fn bridge_refs_ok(adjacency: Seq<Vec<usize>>, bridges: Seq<SkipBridge>) -> bool {
    forall|i: int, j: int|
        0 <= i < adjacency.len() && 0 <= j < adjacency[i]@.len() ==> {
            let b = #[trigger] adjacency[i]@[j];
            &&& b < bridges.len()
            &&& bridges[b as int].from == i
        }
}

/// Every bridge listed by the first `k` nodes exists and starts at the node
/// that lists it.
pub open spec fn bridge_refs_ok_upto(adjacency: Seq<Vec<usize>>, bridges: Seq<SkipBridge>, k: int) -> bool {
    forall|i: int, j: int|
        0 <= i < k && 0 <= j < adjacency[i]@.len() ==> {
            let b = #[trigger] adjacency[i]@[j];
            &&& b < bridges.len()
            &&& bridges[b as int].from == i
        }
}

/// `bridge` is the first bridge listed by `node` that does not exist or
/// does not start at `node`, and every earlier node lists only its own
/// bridges.
pub open spec fn first_bad_bridge_ref(
    adjacency: Seq<Vec<usize>>,
    bridges: Seq<SkipBridge>,
    node: int,
    bridge: usize,
) -> bool {
    &&& 0 <= node < adjacency.len()
    &&& bridge_refs_ok_upto(adjacency, bridges, node)
    &&& !(bridge < bridges.len() && bridges[bridge as int].from == node)
    &&& exists|j: int|
        0 <= j < adjacency[node]@.len() && #[trigger] adjacency[node]@[j] == bridge && forall|k: int|
            0 <= k < j ==> {
                let b = #[trigger] adjacency[node]@[k];
                &&& b < bridges.len()
                &&& bridges[b as int].from == node
            }
}

/// A saved dual-branch index is consistent.
pub open spec fn dual_branch_parts_valid(
    magic: [u8; 8],
    version: u32,
    dimension: usize,
    num_vectors: usize,
    vector_scalars: usize,
    neighbors: Seq<Vec<u32>>,
    bridges: Seq<SkipBridge>,
    adjacency: Seq<Vec<usize>>,
    lid_len: usize,
    entry_point: Option<u32>,
) -> bool {
    &&& dual_branch_header_ok(magic, version, dimension, num_vectors, vector_scalars)
    &&& neighbors.len() == num_vectors && adjacency.len() == num_vectors && lid_len == num_vectors
    &&& lists_below(neighbors, num_vectors as nat)
    &&& bridges_within(bridges, num_vectors as nat)
    &&& bridge_refs_ok(adjacency, bridges)
    &&& entry_within(entry_point, num_vectors as nat)
}

/// `fault` is the first check of a saved dual-branch index that fails, with
/// data that shows the failure.
pub open spec fn dual_branch_fault(
    fault: SnapshotFault,
    magic: [u8; 8],
    version: u32,
    dimension: usize,
    num_vectors: usize,
    vector_scalars: usize,
    neighbors: Seq<Vec<u32>>,
    bridges: Seq<SkipBridge>,
    adjacency: Seq<Vec<usize>>,
    lid_len: usize,
    entry_point: Option<u32>,
) -> bool {
    let n = num_vectors;
    let header = dual_branch_header_ok(magic, version, dimension, num_vectors, vector_scalars);
    let shape = neighbors.len() == n && adjacency.len() == n && lid_len == n;
    match fault {
        SnapshotFault::BadMagic => magic@ != dual_branch_magic(),
        SnapshotFault::UnsupportedVersion { version: v } => magic@ == dual_branch_magic() && version
            != 1 && v == version,
        SnapshotFault::ZeroDimension => magic@ == dual_branch_magic() && version == 1 && dimension
            == 0,
        SnapshotFault::ScalarCountMismatch { found, expected } => magic@ == dual_branch_magic()
            && version == 1 && dimension != 0 && found == vector_scalars && expected == n
            * dimension && found != expected,
        SnapshotFault::LengthMismatch => header && !shape,
        SnapshotFault::NeighborOutOfRange { node, neighbor } => header && shape
            && first_out_of_range(neighbors, n as nat, node as int, neighbor),
        SnapshotFault::BridgeEndpointOutOfRange { bridge } => header && shape && lists_below(
            neighbors,
            n as nat,
        ) && bridge < bridges.len() && (bridges[bridge as int].from >= n || bridges[bridge as int].to
            >= n) && forall|k: int|
            0 <= k < bridge ==> (#[trigger] bridges[k]).from < n && bridges[k].to < n,
        SnapshotFault::BridgeIndexOutOfRange { node, bridge } => header && shape && lists_below(
            neighbors,
            n as nat,
        ) && bridges_within(bridges, n as nat) && first_bad_bridge_ref(
            adjacency,
            bridges,
            node as int,
            bridge,
        ) && bridge >= bridges.len(),
        SnapshotFault::BridgeFromMismatch { node, bridge, from } => header && shape && lists_below(
            neighbors,
            n as nat,
        ) && bridges_within(bridges, n as nat) && first_bad_bridge_ref(
            adjacency,
            bridges,
            node as int,
            bridge,
        ) && bridge < bridges.len() && from == bridges[bridge as int].from,
        SnapshotFault::EntryOutOfRange { entry, count } => header && shape && lists_below(
            neighbors,
            n as nat,
        ) && bridges_within(bridges, n as nat) && bridge_refs_ok(adjacency, bridges)
            && entry_point == Some(entry) && entry as int >= n && count == n,
        _ => false,
    }
}

/// Check a saved dual-branch index before it is rebuilt. `vector_scalars`
/// is the length of the flat vector array and `lid_len` the number of
/// local-dimensionality estimates. The checks run in order: magic bytes,
/// version, dimension, scalar count, array lengths, each neighbor id, each
/// bridge's endpoints, each bridge a node lists, the entry point; the first
/// that fails is reported.
pub fn check_dual_branch_parts(
    magic: [u8; 8],
    version: u32,
    dimension: usize,
    num_vectors: usize,
    vector_scalars: usize,
    neighbors: &[Vec<u32>],
    skip_bridges: &[SkipBridge],
    skip_adjacency: &[Vec<usize>],
    lid_len: usize,
    entry_point: Option<u32>,
) -> (res: Result<(), SnapshotFault>)
    requires
        num_vectors * dimension <= usize::MAX,
    ensures
        res is Ok <==> dual_branch_parts_valid(
            magic,
            version,
            dimension,
            num_vectors,
            vector_scalars,
            neighbors@,
            skip_bridges@,
            skip_adjacency@,
            lid_len,
            entry_point,
        ),
        res matches Err(f) ==> dual_branch_fault(
            f,
            magic,
            version,
            dimension,
            num_vectors,
            vector_scalars,
            neighbors@,
            skip_bridges@,
            skip_adjacency@,
            lid_len,
            entry_point,
        ),
{
    if !magic_is(&magic, &[0x56u8, 0x49, 0x43, 0x44, 0x42, 0x48, 0x30, 0x31]) {
        return Err(SnapshotFault::BadMagic);
    }
    if version != 1 {
        return Err(SnapshotFault::UnsupportedVersion { version });
    }
    if dimension == 0 {
        return Err(SnapshotFault::ZeroDimension);
    }
    let expected = num_vectors * dimension;
    if vector_scalars != expected {
        return Err(SnapshotFault::ScalarCountMismatch { found: vector_scalars, expected });
    }
    let n = num_vectors;
    if neighbors.len() != n || skip_adjacency.len() != n || lid_len != n {
        return Err(SnapshotFault::LengthMismatch);
    }
    match find_out_of_range(neighbors, n) {
        Some((node, neighbor)) => {
            return Err(SnapshotFault::NeighborOutOfRange { node, neighbor });
        },
        None => {},
    }
    let mut b: usize = 0;
    while b < skip_bridges.len()
        invariant
            dual_branch_header_ok(magic, version, dimension, num_vectors, vector_scalars),
            neighbors@.len() == n && skip_adjacency@.len() == n && lid_len == n,
            n == num_vectors,
            lists_below(neighbors@, n as nat),
            b <= skip_bridges@.len(),
            forall|k: int| 0 <= k < b ==> (#[trigger] skip_bridges@[k]).from < n && skip_bridges@[k].to < n,
        decreases skip_bridges@.len() - b,
    {
        let bridge = skip_bridges[b];
        assert(bridge == skip_bridges@[b as int]);
        if bridge.from as usize >= n || bridge.to as usize >= n {
            return Err(SnapshotFault::BridgeEndpointOutOfRange { bridge: b });
        }
        b = b + 1;
    }
    let mut node: usize = 0;
    while node < n
        invariant
            dual_branch_header_ok(magic, version, dimension, num_vectors, vector_scalars),
            neighbors@.len() == n && skip_adjacency@.len() == n && lid_len == n,
            n == num_vectors,
            lists_below(neighbors@, n as nat),
            bridges_within(skip_bridges@, n as nat),
            node <= n,
            forall|i: int, j: int|
                0 <= i < node && 0 <= j < skip_adjacency@[i]@.len() ==> {
                    let b = #[trigger] skip_adjacency@[i]@[j];
                    &&& b < skip_bridges@.len()
                    &&& skip_bridges@[b as int].from == i
                },
        decreases n - node,
    {
        let list = &skip_adjacency[node];
        let mut j: usize = 0;
        while j < list.len()
            invariant
                dual_branch_header_ok(magic, version, dimension, num_vectors, vector_scalars),
                neighbors@.len() == n && skip_adjacency@.len() == n && lid_len == n,
                n == num_vectors,
                lists_below(neighbors@, n as nat),
                bridges_within(skip_bridges@, n as nat),
                node < n,
                list == skip_adjacency@[node as int],
                j <= list@.len(),
                forall|i: int, k: int|
                    0 <= i < node && 0 <= k < skip_adjacency@[i]@.len() ==> {
                        let b = #[trigger] skip_adjacency@[i]@[k];
                        &&& b < skip_bridges@.len()
                        &&& skip_bridges@[b as int].from == i
                    },
                forall|k: int|
                    0 <= k < j ==> {
                        let b = #[trigger] list@[k];
                        &&& b < skip_bridges@.len()
                        &&& skip_bridges@[b as int].from == node
                    },
            decreases list@.len() - j,
        {
            let bridge_idx = list[j];
            assert(skip_adjacency@[node as int]@[j as int] == bridge_idx);
            if bridge_idx >= skip_bridges.len() {
                return Err(SnapshotFault::BridgeIndexOutOfRange { node, bridge: bridge_idx });
            }
            let from = skip_bridges[bridge_idx].from;
            if from as usize != node {
                return Err(SnapshotFault::BridgeFromMismatch { node, bridge: bridge_idx, from });
            }
            j = j + 1;
        }
        node = node + 1;
    }
    if let Some(entry) = entry_point {
        if entry as usize >= n {
            return Err(SnapshotFault::EntryOutOfRange { entry, count: n });
        }
    }
    Ok(())
}

/// A slot of an in-place index: the length of the vector stored there,
/// its outgoing and incoming links, and whether it was deleted.
#[derive(Debug, Clone)]
pub struct InPlaceNode {
    /// Length of the stored vector.
    pub dimension: usize,
    /// Out-neighbors.
    pub out_neighbors: Vec<u32>,
    /// In-neighbors (nodes that point here).
    pub in_neighbors: Vec<u32>,
    /// Whether the node was deleted.
    pub deleted: bool,
}

/// Slot `x` holds a node that is not deleted.
pub open spec fn slot_live(nodes: Seq<Option<InPlaceNode>>, x: int) -> bool {
    &&& 0 <= x < nodes.len()
    &&& nodes[x] matches Some(node)
    &&& !node.deleted
}

/// Number of live nodes among the first `k` slots.
pub open spec fn live_slots(nodes: Seq<Option<InPlaceNode>>, k: int) -> nat
    decreases k,
{
    if k <= 0 {
        0
    } else {
        live_slots(nodes, k - 1) + if slot_live(nodes, k - 1) {
            1nat
        } else {
            0nat
        }
    }
}

/// The free list names distinct slots of the array, none of them live.
pub open spec fn free_list_ok(nodes: Seq<Option<InPlaceNode>>, free: Seq<u32>) -> bool {
    &&& free.no_duplicates()
    &&& forall|k: int|
        0 <= k < free.len() ==> (#[trigger] free[k] as int) < nodes.len() && !slot_live(
            nodes,
            free[k] as int,
        )
}

/// Every empty slot is free, every stored vector has dimension `dim`, and
/// every link of a live node leads to a live node.
pub open spec fn slots_ok(nodes: Seq<Option<InPlaceNode>>, free: Seq<u32>, dim: usize) -> bool {
    forall|id: int|
        0 <= id < nodes.len() ==> match #[trigger] nodes[id] {
            None => free.contains(id as u32),
            Some(node) => node.dimension == dim && (!node.deleted ==> (forall|j: int|
                0 <= j < node.out_neighbors@.len() ==> slot_live(
                    nodes,
                    #[trigger] node.out_neighbors@[j] as int,
                )) && (forall|j: int|
                0 <= j < node.in_neighbors@.len() ==> slot_live(
                    nodes,
                    #[trigger] node.in_neighbors@[j] as int,
                ))),
        }
}

/// The first `k` entries of the free list name distinct slots of the array,
/// none of them live.
pub open spec fn free_prefix_ok(nodes: Seq<Option<InPlaceNode>>, free: Seq<u32>, k: int) -> bool {
    &&& free.subrange(0, k).no_duplicates()
    &&& forall|i: int|
        0 <= i < k ==> (#[trigger] free[i] as int) < nodes.len() && !slot_live(
            nodes,
            free[i] as int,
        )
}

/// Slot `slot` is free list entry `k`, and the entries before it pass.
pub open spec fn free_entry_after_ok(
    nodes: Seq<Option<InPlaceNode>>,
    free: Seq<u32>,
    k: int,
    slot: u32,
) -> bool {
    0 <= k < free.len() && free[k] == slot && free_prefix_ok(nodes, free, k)
}

/// The first `k` slots pass: an empty slot is free, a vector has dimension
/// `dim`, a live node's links lead to live nodes.
pub open spec fn slots_ok_upto(
    nodes: Seq<Option<InPlaceNode>>,
    free: Seq<u32>,
    dim: usize,
    k: int,
) -> bool {
    forall|id: int|
        0 <= id < k ==> match #[trigger] nodes[id] {
            None => free.contains(id as u32),
            Some(node) => node.dimension == dim && (!node.deleted ==> (forall|j: int|
                0 <= j < node.out_neighbors@.len() ==> slot_live(
                    nodes,
                    #[trigger] node.out_neighbors@[j] as int,
                )) && (forall|j: int|
                0 <= j < node.in_neighbors@.len() ==> slot_live(
                    nodes,
                    #[trigger] node.in_neighbors@[j] as int,
                ))),
        }
}

/// `nb` is the first entry of `links` that is not a live slot.
pub open spec fn first_inactive(nodes: Seq<Option<InPlaceNode>>, links: Seq<u32>, nb: u32) -> bool {
    &&& !slot_live(nodes, nb as int)
    &&& exists|j: int|
        0 <= j < links.len() && #[trigger] links[j] == nb && forall|b: int|
            0 <= b < j ==> slot_live(nodes, #[trigger] links[b] as int)
}

/// The entry point is `u32::MAX` for an index without live nodes, and a
/// live node otherwise.
pub open spec fn entry_ok(nodes: Seq<Option<InPlaceNode>>, entry_point: u32) -> bool {
    if live_slots(nodes, nodes.len() as int) == 0 {
        entry_point == u32::MAX
    } else {
        slot_live(nodes, entry_point as int)
    }
}

/// A saved in-place index is consistent.
pub open spec fn inplace_parts_valid(
    dim: usize,
    nodes: Seq<Option<InPlaceNode>>,
    free: Seq<u32>,
    entry_point: u32,
    active_count: u32,
) -> bool {
    &&& dim != 0
    &&& free_list_ok(nodes, free)
    &&& slots_ok(nodes, free, dim)
    &&& live_slots(nodes, nodes.len() as int) == active_count
    &&& entry_ok(nodes, entry_point)
}

/// `fault` is the first check of a saved in-place index that fails, with
/// data that shows the failure.
pub open spec fn inplace_fault(
    fault: SnapshotFault,
    dim: usize,
    nodes: Seq<Option<InPlaceNode>>,
    free: Seq<u32>,
    entry_point: u32,
    active_count: u32,
) -> bool {
    let live = live_slots(nodes, nodes.len() as int);
    let slots_checked = dim != 0 && free_list_ok(nodes, free);
    let counted = slots_checked && slots_ok(nodes, free, dim);
    match fault {
        SnapshotFault::ZeroDimension => dim == 0,
        SnapshotFault::FreeSlotOutOfRange { slot, count } => dim != 0 && (exists|k: int|
            #[trigger] free_entry_after_ok(nodes, free, k, slot)) && slot as int >= nodes.len()
            && count == nodes.len(),
        SnapshotFault::DuplicateFreeSlot { slot } => dim != 0 && (exists|k: int|
            #[trigger] free_entry_after_ok(nodes, free, k, slot) && free.subrange(0, k).contains(
                slot,
            )) && (slot as int) < nodes.len(),
        SnapshotFault::LiveNodeFreed { slot } => dim != 0 && (exists|k: int|
            #[trigger] free_entry_after_ok(nodes, free, k, slot) && !free.subrange(0, k).contains(
                slot,
            )) && slot_live(nodes, slot as int),
        SnapshotFault::EmptySlotNotFree { slot } => slots_checked && slot < nodes.len()
            && slots_ok_upto(nodes, free, dim, slot as int) && nodes[slot as int] is None
            && !free.contains(slot as u32),
        SnapshotFault::VectorDimension { node, found, expected } => slots_checked && node
            < nodes.len() && slots_ok_upto(nodes, free, dim, node as int) && (nodes[node as int] matches Some(
            nd) && found == nd.dimension) && expected == dim && found != dim,
        SnapshotFault::InactiveNeighbor { node, neighbor } => slots_checked && slot_live(
            nodes,
            node as int,
        ) && slots_ok_upto(nodes, free, dim, node as int) && nodes[node as int]->0.dimension == dim
            && (first_inactive(nodes, nodes[node as int]->0.out_neighbors@, neighbor) || ((forall|
            j: int|
            0 <= j < nodes[node as int]->0.out_neighbors@.len() ==> slot_live(
                nodes,
                #[trigger] nodes[node as int]->0.out_neighbors@[j] as int,
            )) && first_inactive(nodes, nodes[node as int]->0.in_neighbors@, neighbor))),
        SnapshotFault::ActiveCountMismatch { recorded, live: found } => counted && recorded
            == active_count && found == live && found != recorded,
        SnapshotFault::EmptyWithEntry => counted && live == active_count && live == 0
            && entry_point != u32::MAX,
        SnapshotFault::EntryNotLive { entry } => counted && live == active_count && live > 0
            && entry == entry_point && !slot_live(nodes, entry as int),
        _ => false,
    }
}

fn is_live_slot(nodes: &[Option<InPlaceNode>], x: u32) -> (res: bool)
    ensures
        res == slot_live(nodes@, x as int),
{
    if (x as usize) < nodes.len() {
        match &nodes[x as usize] {
            Some(node) => !node.deleted,
            None => false,
        }
    } else {
        false
    }
}

/// Find the first link in `links` that does not lead to a live node.
fn find_inactive_link(nodes: &[Option<InPlaceNode>], links: &Vec<u32>) -> (res: Option<u32>)
    ensures
        res is None <==> forall|j: int|
            0 <= j < links@.len() ==> slot_live(nodes@, #[trigger] links@[j] as int),
        res matches Some(nb) ==> first_inactive(nodes@, links@, nb),
{
    let mut j: usize = 0;
    while j < links.len()
        invariant
            j <= links@.len(),
            forall|k: int| 0 <= k < j ==> slot_live(nodes@, #[trigger] links@[k] as int),
        decreases links@.len() - j,
    {
        let nb = links[j];
        if !is_live_slot(nodes, nb) {
            assert(links@[j as int] == nb);
            return Some(nb);
        }
        j = j + 1;
    }
    None
}

proof fn lemma_live_slots_bound(nodes: Seq<Option<InPlaceNode>>, k: int)
    requires
        0 <= k <= nodes.len(),
    ensures
        live_slots(nodes, k) <= k,
    decreases k,
{
    if k > 0 {
        lemma_live_slots_bound(nodes, k - 1);
    }
}

/// Check a saved in-place index before it is rebuilt. The checks run in
/// order: the dimension; each free slot (inside the array, not repeated, not
/// live); each slot (an empty slot must be free, a vector must have
/// dimension `dim`, a live node's links must lead to live nodes); the live
/// count; the entry point. The first that fails is reported.
pub fn validate_inplace_parts(
    dim: usize,
    nodes: &[Option<InPlaceNode>],
    free_slots: &[u32],
    entry_point: u32,
    active_count: u32,
) -> (res: Result<(), SnapshotFault>)
    requires
        nodes@.len() <= u32::MAX,
    ensures
        res is Ok <==> inplace_parts_valid(dim, nodes@, free_slots@, entry_point, active_count),
        res matches Err(f) ==> inplace_fault(f, dim, nodes@, free_slots@, entry_point, active_count),
{
    if dim == 0 {
        return Err(SnapshotFault::ZeroDimension);
    }
    let ghost free = free_slots@;
    let mut free_seen: HashSet<u32> = HashSet::new();
    let mut k: usize = 0;
    while k < free_slots.len()
        invariant
            free == free_slots@,
            dim != 0,
            k <= free.len(),
            free_seen@ == free.subrange(0, k as int).to_set(),
            free.subrange(0, k as int).no_duplicates(),
            forall|i: int|
                0 <= i < k ==> (#[trigger] free[i] as int) < nodes@.len() && !slot_live(
                    nodes@,
                    free[i] as int,
                ),
        decreases free.len() - k,
    {
        let slot = free_slots[k];
        let ghost prefix = free.subrange(0, k as int);
        assert(free.subrange(0, k as int + 1) =~= prefix.push(slot));
        if slot as usize >= nodes.len() {
            assert(free[k as int] == slot);
            assert(free_entry_after_ok(nodes@, free, k as int, slot));
            return Err(SnapshotFault::FreeSlotOutOfRange { slot, count: nodes.len() });
        }
        if !free_seen.insert(slot) {
            proof {
                assert(prefix.to_set().contains(slot));
                assert(prefix.contains(slot));
                let a = choose|a: int| 0 <= a < prefix.len() && prefix[a] == slot;
                assert(free[a] == slot && free[k as int] == slot);
                assert(free_entry_after_ok(nodes@, free, k as int, slot));
            }
            return Err(SnapshotFault::DuplicateFreeSlot { slot });
        }
        if is_live_slot(nodes, slot) {
            proof {
                assert(free[k as int] == slot);
                assert(!prefix.to_set().contains(slot));
                assert(!prefix.contains(slot));
                assert(free_entry_after_ok(nodes@, free, k as int, slot));
            }
            return Err(SnapshotFault::LiveNodeFreed { slot });
        }
        proof {
            assert(!prefix.contains(slot));
            assert forall|x: u32| #[trigger] prefix.push(slot).contains(x) <==> (prefix.contains(x)
                || x == slot) by {
                if prefix.contains(x) {
                    let a = choose|a: int| 0 <= a < prefix.len() && prefix[a] == x;
                    assert(prefix.push(slot)[a] == x);
                }
                if x == slot {
                    assert(prefix.push(slot)[prefix.len() as int] == x);
                }
                if prefix.push(slot).contains(x) && x != slot {
                    let a = choose|a: int| 0 <= a < prefix.len() + 1 && prefix.push(slot)[a] == x;
                    assert(prefix[a] == x);
                }
            }
            assert(prefix.push(slot).to_set() =~= prefix.to_set().insert(slot));
            assert(prefix.push(slot).no_duplicates()) by {
                assert forall|a: int, b: int|
                    0 <= a < b < prefix.len() + 1 implies prefix.push(slot)[a] != prefix.push(
                        slot,
                    )[b] by {
                    if b == prefix.len() {
                        assert(prefix[a] == prefix.push(slot)[a]);
                    }
                }
            }
        }
        k = k + 1;
    }
    assert(free.subrange(0, free.len() as int) =~= free);
    proof {
        assert forall|x: u32| #[trigger] free_seen@.contains(x) <==> free.contains(x) by {
            assert(free.to_set().contains(x) == free.contains(x));
        }
    }

    let n = nodes.len();
    let mut active: u32 = 0;
    let mut id: usize = 0;
    while id < n
        invariant
            n == nodes@.len(),
            n <= u32::MAX,
            dim != 0,
            free == free_slots@,
            free_list_ok(nodes@, free),
            forall|x: u32| #[trigger] free_seen@.contains(x) <==> free.contains(x),
            id <= n,
            active == live_slots(nodes@, id as int),
            forall|i: int|
                0 <= i < id ==> match #[trigger] nodes@[i] {
                    None => free.contains(i as u32),
                    Some(node) => node.dimension == dim && (!node.deleted ==> (forall|j: int|
                        0 <= j < node.out_neighbors@.len() ==> slot_live(
                            nodes@,
                            #[trigger] node.out_neighbors@[j] as int,
                        )) && (forall|j: int|
                        0 <= j < node.in_neighbors@.len() ==> slot_live(
                            nodes@,
                            #[trigger] node.in_neighbors@[j] as int,
                        ))),
                },
        decreases n - id,
    {
        proof {
            lemma_live_slots_bound(nodes@, id as int);
        }
        match &nodes[id] {
            None => {
                if !free_seen.contains(&(id as u32)) {
                    return Err(SnapshotFault::EmptySlotNotFree { slot: id });
                }
            },
            Some(node) => {
                if node.dimension != dim {
                    return Err(
                        SnapshotFault::VectorDimension {
                            node: id,
                            found: node.dimension,
                            expected: dim,
                        },
                    );
                }
                if !node.deleted {
                    match find_inactive_link(nodes, &node.out_neighbors) {
                        Some(neighbor) => {
                            return Err(SnapshotFault::InactiveNeighbor { node: id, neighbor });
                        },
                        None => {},
                    }
                    match find_inactive_link(nodes, &node.in_neighbors) {
                        Some(neighbor) => {
                            return Err(SnapshotFault::InactiveNeighbor { node: id, neighbor });
                        },
                        None => {},
                    }
                    active = active + 1;
                }
            },
        }
        id = id + 1;
    }
    if active != active_count {
        return Err(SnapshotFault::ActiveCountMismatch { recorded: active_count, live: active });
    }
    if active == 0 {
        if entry_point != u32::MAX {
            return Err(SnapshotFault::EmptyWithEntry);
        }
    } else {
        if !is_live_slot(nodes, entry_point) {
            return Err(SnapshotFault::EntryNotLive { entry: entry_point });
        }
    }
    Ok(())
}

/// External id `e` maps to slot `i`: the reverse map sends `i` back to `e`
/// and slot `i` holds a live node.
pub open spec fn forward_entry_ok(nodes: Seq<Option<InPlaceNode>>, reverse: Map<u32, u32>, e: u32, i: u32) -> bool {
    reverse.contains_key(i) && reverse[i] == e && slot_live(nodes, i as int)
}

/// Reverse entry `i -> e` is mirrored by the forward map.
pub open spec fn reverse_entry_ok(forward: Map<u32, u32>, i: u32, e: u32) -> bool {
    forward.contains_key(e) && forward[e] == i
}

/// The id maps of a saved mapped in-place index agree with each other and
/// with the live nodes.
pub open spec fn inplace_maps_valid(
    nodes: Seq<Option<InPlaceNode>>,
    forward: Map<u32, u32>,
    reverse: Map<u32, u32>,
) -> bool {
    &&& forward.len() == reverse.len()
    &&& forall|e: u32| #[trigger] forward.contains_key(e) ==> forward_entry_ok(nodes, reverse, e, forward[e])
    &&& forall|i: u32| #[trigger] reverse.contains_key(i) ==> reverse_entry_ok(forward, i, reverse[i])
}

/// Two id maps of equal size, the forward one consistent, already mirror
/// each other: the forward map sends distinct ids to distinct slots of the
/// reverse map, so it reaches all of them.
proof fn lemma_reverse_mirrored(
    nodes: Seq<Option<InPlaceNode>>,
    forward: Map<u32, u32>,
    reverse: Map<u32, u32>,
)
    requires
        forward.dom().finite(),
        reverse.dom().finite(),
        forward.len() == reverse.len(),
        forall|e: u32| #[trigger] forward.contains_key(e) ==> forward_entry_ok(nodes, reverse, e, forward[e]),
    ensures
        forall|i: u32| #[trigger] reverse.contains_key(i) ==> reverse_entry_ok(forward, i, reverse[i]),
{
    let f = |e: u32| forward[e];
    let img = forward.dom().map(f);
    assert(vstd::relations::injective_on(f, forward.dom())) by {
        assert forall|e1: u32, e2: u32|
            forward.dom().contains(e1) && forward.dom().contains(e2) && #[trigger] f(e1) == #[trigger] f(e2)
            implies e1 == e2 by {
            assert(forward_entry_ok(nodes, reverse, e1, forward[e1]));
            assert(forward_entry_ok(nodes, reverse, e2, forward[e2]));
        }
    }
    vstd::set_lib::lemma_map_size(forward.dom(), img, f);
    assert(img.subset_of(reverse.dom())) by {
        assert forall|i: u32| img.contains(i) implies reverse.dom().contains(i) by {
            let e = choose|e: u32| forward.dom().contains(e) && f(e) == i;
            assert(forward_entry_ok(nodes, reverse, e, forward[e]));
        }
    }
    vstd::set_lib::lemma_subset_equality(img, reverse.dom());
    assert forall|i: u32| #[trigger] reverse.contains_key(i) implies reverse_entry_ok(forward, i, reverse[i]) by {
        assert(img.contains(i));
        let e = choose|e: u32| forward.dom().contains(e) && f(e) == i;
        assert(forward_entry_ok(nodes, reverse, e, forward[e]));
    }
}

/// `fault` is a failed check of the id maps of a saved mapped in-place
/// index, with data that shows the failure; the forward map is checked
/// before the reverse map.
pub open spec fn inplace_map_fault(
    fault: SnapshotFault,
    nodes: Seq<Option<InPlaceNode>>,
    forward: Map<u32, u32>,
    reverse: Map<u32, u32>,
) -> bool {
    let forward_ok = forall|e: u32| #[trigger] forward.contains_key(e) ==> forward_entry_ok(
        nodes,
        reverse,
        e,
        forward[e],
    );
    match fault {
        SnapshotFault::MapLengthMismatch => forward.len() != reverse.len(),
        SnapshotFault::MissingReverse { external } => forward.len() == reverse.len()
            && forward.contains_key(external) && !(reverse.contains_key(forward[external])
            && reverse[forward[external]] == external),
        SnapshotFault::InactiveMapping { external, internal } => forward.len() == reverse.len()
            && forward.contains_key(external) && forward[external] == internal && !slot_live(
            nodes,
            internal as int,
        ),
        SnapshotFault::ReverseMismatch { internal, external } => forward.len() == reverse.len()
            && forward_ok && reverse.contains_key(internal) && reverse[internal] == external
            && !reverse_entry_ok(forward, internal, external),
        _ => false,
    }
}

/// Check the id maps of a saved mapped in-place index: equal sizes, every
/// external id mapped back by the reverse map to a live node, every reverse
/// entry mirrored by the forward map. Which offending entry is reported
/// depends on the order in which the maps are walked.
pub fn validate_inplace_maps(
    nodes: &[Option<InPlaceNode>],
    id_map: &HashMap<u32, u32>,
    reverse_map: &HashMap<u32, u32>,
) -> (res: Result<(), SnapshotFault>)
    ensures
        res is Ok <==> inplace_maps_valid(nodes@, id_map@, reverse_map@),
        res matches Err(f) ==> inplace_map_fault(f, nodes@, id_map@, reverse_map@),
        !(res matches Err(SnapshotFault::ReverseMismatch { .. })),
{
    if id_map.len() != reverse_map.len() {
        return Err(SnapshotFault::MapLengthMismatch);
    }
    let ghost forward_pairs = spec_hash_map_iter(id_map).remaining();
    for (external, internal) in it: id_map.iter()
        invariant
            id_map@.len() == reverse_map@.len(),
            it.seq() == forward_pairs,
            forward_pairs == spec_hash_map_iter(id_map).remaining(),
            forall|k: int|
                0 <= k < it.index() ==> forward_entry_ok(
                    nodes@,
                    reverse_map@,
                    *(#[trigger] it.seq()[k]).0,
                    *it.seq()[k].1,
                ),
    {
        proof {
            let k = it.index();
            assert(id_map@.contains_key(*forward_pairs[k].0));
        }
        match reverse_map.get(internal) {
            Some(mapped) => {
                if *mapped != *external {
                    return Err(SnapshotFault::MissingReverse { external: *external });
                }
            },
            None => {
                return Err(SnapshotFault::MissingReverse { external: *external });
            },
        }
        if !is_live_slot(nodes, *internal) {
            return Err(SnapshotFault::InactiveMapping { external: *external, internal: *internal });
        }
    }
    proof {
        assert forall|e: u32| #[trigger] id_map@.contains_key(e) implies forward_entry_ok(
            nodes@,
            reverse_map@,
            e,
            id_map@[e],
        ) by {
            assert(forward_pairs.contains((&e, &id_map@[e])));
            let k = choose|k: int| 0 <= k < forward_pairs.len() && forward_pairs[k] == (&e, &id_map@[e]);
            assert(forward_entry_ok(nodes@, reverse_map@, *forward_pairs[k].0, *forward_pairs[k].1));
        }
    }
    proof {
        lemma_reverse_mirrored(nodes@, id_map@, reverse_map@);
    }
    let ghost reverse_pairs = spec_hash_map_iter(reverse_map).remaining();
    for (internal, external) in it2: reverse_map.iter()
        invariant
            id_map@.len() == reverse_map@.len(),
            forall|e: u32| #[trigger] id_map@.contains_key(e) ==> forward_entry_ok(
                nodes@,
                reverse_map@,
                e,
                id_map@[e],
            ),
            it2.seq() == reverse_pairs,
            reverse_pairs == spec_hash_map_iter(reverse_map).remaining(),
            forall|i: u32| #[trigger] reverse_map@.contains_key(i) ==> reverse_entry_ok(id_map@, i, reverse_map@[i]),
            forall|k: int|
                0 <= k < it2.index() ==> reverse_entry_ok(
                    id_map@,
                    *(#[trigger] it2.seq()[k]).0,
                    *it2.seq()[k].1,
                ),
    {
        proof {
            let k = it2.index();
            assert(reverse_map@.contains_key(*reverse_pairs[k].0));
        }
        let mirrored = match id_map.get(external) {
            Some(back) => *back == *internal,
            None => false,
        };
        if !mirrored {
            return Err(SnapshotFault::ReverseMismatch { internal: *internal, external: *external });
        }
    }
    proof {
        assert forall|i: u32| #[trigger] reverse_map@.contains_key(i) implies reverse_entry_ok(
            id_map@,
            i,
            reverse_map@[i],
        ) by {
            assert(reverse_pairs.contains((&i, &reverse_map@[i])));
            let k = choose|k: int| 0 <= k < reverse_pairs.len() && reverse_pairs[k] == (&i, &reverse_map@[i]);
            assert(reverse_entry_ok(id_map@, *reverse_pairs[k].0, *reverse_pairs[k].1));
        }
    }
    Ok(())
}

/// The magic bytes of a saved in-place index.
pub open spec fn inplace_magic() -> Seq<u8> {
    seq![0x56u8, 0x49, 0x43, 0x49, 0x50, 0x4C, 0x30, 0x31]
}

/// The magic bytes of a saved mapped in-place index.
pub open spec fn mapped_inplace_magic() -> Seq<u8> {
    seq![0x56u8, 0x49, 0x43, 0x49, 0x50, 0x4D, 0x30, 0x31]
}

/// Check a saved in-place index: magic bytes, then version, then its parts
/// as [`validate_inplace_parts`] does.
pub fn check_inplace_snapshot(
    magic: [u8; 8],
    version: u32,
    dim: usize,
    nodes: &[Option<InPlaceNode>],
    free_slots: &[u32],
    entry_point: u32,
    active_count: u32,
) -> (res: Result<(), SnapshotFault>)
    requires
        nodes@.len() <= u32::MAX,
    ensures
        res is Ok <==> magic@ == inplace_magic() && version == 1 && inplace_parts_valid(
            dim,
            nodes@,
            free_slots@,
            entry_point,
            active_count,
        ),
        res == Err::<(), SnapshotFault>(SnapshotFault::BadMagic) <==> magic@ != inplace_magic(),
        magic@ == inplace_magic() && version != 1 ==> res == Err::<(), SnapshotFault>(
            SnapshotFault::UnsupportedVersion { version },
        ),
        res matches Err(f) ==> (magic@ == inplace_magic() && version == 1 ==> inplace_fault(
            f,
            dim,
            nodes@,
            free_slots@,
            entry_point,
            active_count,
        )),
{
    if !magic_is(&magic, &[0x56u8, 0x49, 0x43, 0x49, 0x50, 0x4C, 0x30, 0x31]) {
        return Err(SnapshotFault::BadMagic);
    }
    if version != 1 {
        return Err(SnapshotFault::UnsupportedVersion { version });
    }
    validate_inplace_parts(dim, nodes, free_slots, entry_point, active_count)
}

/// Check a saved mapped in-place index: its magic bytes and version, then
/// its id maps as [`validate_inplace_maps`] does, then the wrapped in-place
/// index as [`check_inplace_snapshot`] does.
pub fn check_mapped_inplace_snapshot(
    magic: [u8; 8],
    version: u32,
    id_map: &HashMap<u32, u32>,
    reverse_map: &HashMap<u32, u32>,
    inner_magic: [u8; 8],
    inner_version: u32,
    dim: usize,
    nodes: &[Option<InPlaceNode>],
    free_slots: &[u32],
    entry_point: u32,
    active_count: u32,
) -> (res: Result<(), SnapshotFault>)
    requires
        nodes@.len() <= u32::MAX,
    ensures
        res is Ok <==> magic@ == mapped_inplace_magic() && version == 1 && inplace_maps_valid(
            nodes@,
            id_map@,
            reverse_map@,
        ) && inner_magic@ == inplace_magic() && inner_version == 1 && inplace_parts_valid(
            dim,
            nodes@,
            free_slots@,
            entry_point,
            active_count,
        ),
        res == Err::<(), SnapshotFault>(SnapshotFault::BadMagic) <==> magic@ != mapped_inplace_magic()
            || (version == 1 && inplace_maps_valid(nodes@, id_map@, reverse_map@) && inner_magic@
            != inplace_magic()),
        magic@ == mapped_inplace_magic() && version != 1 ==> res == Err::<(), SnapshotFault>(
            SnapshotFault::UnsupportedVersion { version },
        ),
        res matches Err(f) ==> (magic@ == mapped_inplace_magic() && version == 1
            && !inplace_maps_valid(nodes@, id_map@, reverse_map@) ==> inplace_map_fault(
            f,
            nodes@,
            id_map@,
            reverse_map@,
        )),
        magic@ == mapped_inplace_magic() && version == 1 && inplace_maps_valid(
            nodes@,
            id_map@,
            reverse_map@,
        ) && inner_magic@ == inplace_magic() && inner_version != 1 ==> res == Err::<
            (),
            SnapshotFault,
        >(SnapshotFault::UnsupportedVersion { version: inner_version }),
        res matches Err(f) ==> (magic@ == mapped_inplace_magic() && version == 1
            && inplace_maps_valid(nodes@, id_map@, reverse_map@) && inner_magic@ == inplace_magic()
            && inner_version == 1 ==> inplace_fault(
            f,
            dim,
            nodes@,
            free_slots@,
            entry_point,
            active_count,
        )),
{
    if !magic_is(&magic, &[0x56u8, 0x49, 0x43, 0x49, 0x50, 0x4D, 0x30, 0x31]) {
        return Err(SnapshotFault::BadMagic);
    }
    if version != 1 {
        return Err(SnapshotFault::UnsupportedVersion { version });
    }
    match validate_inplace_maps(nodes, id_map, reverse_map) {
        Err(f) => {
            return Err(f);
        },
        Ok(()) => {},
    }
    check_inplace_snapshot(
        inner_magic,
        inner_version,
        dim,
        nodes,
        free_slots,
        entry_point,
        active_count,
    )
}

} // verus!
