use vstd::prelude::*;

verus! {

/// Position of a node in the node array.
#[derive(Clone, Copy, Debug, PartialEq, Eq, Structural, Hash, PartialOrd, Ord)]
pub struct NodeOrdinal(pub usize);

/// The object id that V8 assigned to a node.
#[derive(Clone, Copy, Debug, PartialEq, Eq, Structural, Hash, PartialOrd, Ord)]
pub struct NodeId(pub u32);

/// Position of an edge in the edge array.
#[derive(Clone, Copy, Debug, PartialEq, Eq, Structural, Hash, PartialOrd, Ord)]
pub struct EdgeIndex(pub usize);

/// Distance of a node from the GC roots, counted in edges.
#[derive(Clone, Copy, Debug, PartialEq, Eq, Structural, Hash, PartialOrd, Ord)]
pub struct Distance(pub u32);

/// Marks a node whose distance has not been assigned.
pub const DISTANCE_NONE: u32 = 0xffff_ffff;

/// First distance given to nodes that the GC roots do not reach.
pub const DISTANCE_UNREACHABLE_BASE: u32 = 0x8000_0000;

/// Snapshots may hold fewer nodes than this, so that distances inside the
/// unreachable part of the graph never reach `DISTANCE_NONE`.
pub const MAX_NODE_COUNT: usize = 0x7fff_0000;

impl Distance {
    /// The distance of a node that has none assigned.
    pub fn none() -> (r: Distance)
        ensures
            r.0 == DISTANCE_NONE,
    {
        Distance(DISTANCE_NONE)
    }

    /// The distance of a node at the top of the unreachable part of the graph.
    pub fn unreachable_base() -> (r: Distance)
        ensures
            r.0 == DISTANCE_UNREACHABLE_BASE,
    {
        Distance(DISTANCE_UNREACHABLE_BASE)
    }

    pub open spec fn spec_is_reachable(self) -> bool {
        self.0 < DISTANCE_UNREACHABLE_BASE
    }

    /// A node the GC roots reach.
    #[verifier::when_used_as_spec(spec_is_reachable)]
    pub fn is_reachable(self) -> (r: bool)
        ensures
            r == self.spec_is_reachable(),
    {
        self.0 < DISTANCE_UNREACHABLE_BASE
    }

    /// A node the GC roots do not reach (or one without a distance yet).
    pub fn is_unreachable(self) -> (r: bool)
        ensures
            r == !self.spec_is_reachable(),
    {
        self.0 >= DISTANCE_UNREACHABLE_BASE
    }
}

/// One node of the snapshot, with the fields the analyses read.
#[derive(Clone, Copy, Debug, PartialEq, Eq, Structural)]
pub struct NodeRecord {
    pub type_id: u32,
    pub name: u32,
    pub id: u32,
    pub self_size: u32,
    pub edge_count: u32,
    pub detachedness: u32,
    pub trace_node_id: u32,
    /// Index of the node's first outgoing edge.
    pub first_edge: u32,
}

/// One edge of the snapshot.
#[derive(Clone, Copy, Debug, PartialEq, Eq, Structural)]
pub struct EdgeRecord {
    pub type_id: u32,
    pub name_or_index: u32,
    pub to_node_ordinal: u32,
}

/// Options that change how the snapshot is analysed.
#[derive(Clone, Copy, Debug, PartialEq, Eq, Structural)]
pub struct SnapshotOptions {
    /// Treat weak edges as retaining when assigning distances to
    /// otherwise unreachable nodes.
    pub weak_is_reachable: bool,
}

impl SnapshotOptions {
    pub fn default_options() -> (r: SnapshotOptions)
        ensures
            !r.weak_is_reachable,
    {
        SnapshotOptions { weak_is_reachable: false }
    }
}

/// The `meta` part of the snapshot header.
#[derive(Clone, Debug)]
pub struct SnapshotMeta {
    pub node_fields: Vec<String>,
    pub node_type_enum: Vec<String>,
    pub edge_fields: Vec<String>,
    pub edge_type_enum: Vec<String>,
    pub location_fields: Vec<String>,
    pub sample_fields: Vec<String>,
    pub trace_function_info_fields: Vec<String>,
    pub trace_node_fields: Vec<String>,
}

/// The `snapshot` object at the start of a heap snapshot.
#[derive(Clone, Debug)]
pub struct SnapshotHeader {
    pub meta: SnapshotMeta,
    pub node_count: usize,
    pub edge_count: usize,
    pub trace_function_count: usize,
    pub root_index: Option<usize>,
    pub extra_native_bytes: Option<u64>,
}

/// A snapshot as flat integer arrays, the way the file stores it.
#[derive(Clone, Debug)]
pub struct RawHeapSnapshot {
    pub snapshot: SnapshotHeader,
    pub nodes: Vec<u32>,
    pub edges: Vec<u32>,
    pub strings: Vec<String>,
    pub locations: Vec<u32>,
    pub trace_function_infos: Vec<u32>,
    pub trace_tree_parents: Vec<u32>,
    pub trace_tree_func_idxs: Vec<u32>,
    pub samples: Vec<u32>,
}

/// Heap totals by category.
#[derive(Clone, Copy, Debug, PartialEq, Eq, Structural)]
pub struct Statistics {
    pub total: u64,
    pub native_total: u64,
    pub typed_arrays: u64,
    pub v8heap_total: u64,
    pub code: u64,
    pub js_arrays: u64,
    pub strings: u64,
    pub system: u64,
    pub extra_native_bytes: u64,
    pub unreachable_count: u32,
    pub unreachable_size: u64,
    pub context_count: u32,
    pub retained_by_context_size: u64,
    pub not_retained_by_context_size: u64,
}

/// Where a node stands with respect to the synthetic root.
#[derive(Clone, Copy, Debug, PartialEq, Eq, Structural)]
pub enum RootKind {
    NonRoot,
    SyntheticRoot,
    SystemRoot,
    UserRoot,
}

/// DOM attachment state of a node.
#[derive(Clone, Copy, Debug, PartialEq, Eq, Structural)]
pub enum Detachedness {
    Unknown,
    Attached,
    Detached,
}

/// What a native context belongs to.
#[derive(Clone, Copy, Debug, PartialEq, Eq, Structural)]
pub enum NativeContextKind {
    Main,
    Iframe,
    Utility,
}

impl NativeContextKind {
    pub open spec fn spec_sort_priority(self) -> u32 {
        match self {
            NativeContextKind::Main => 0,
            NativeContextKind::Iframe => 1,
            NativeContextKind::Utility => 2,
        }
    }

    /// Main contexts sort first, then iframes, then utility contexts.
    #[verifier::when_used_as_spec(spec_sort_priority)]
    pub fn sort_priority(self) -> (r: u32)
        ensures
            r == self.spec_sort_priority(),
    {
        match self {
            NativeContextKind::Main => 0,
            NativeContextKind::Iframe => 1,
            NativeContextKind::Utility => 2,
        }
    }

    /// The word used for the kind in labels.
    pub fn label(self) -> (r: &'static str)
        ensures
            r == match self {
                NativeContextKind::Main => "main",
                NativeContextKind::Iframe => "iframe",
                NativeContextKind::Utility => "utility",
            },
    {
        match self {
            NativeContextKind::Main => "main",
            NativeContextKind::Iframe => "iframe",
            NativeContextKind::Utility => "utility",
        }
    }
}

/// Index of a native context in the sorted list of native contexts.
#[derive(Clone, Copy, Debug, PartialEq, Eq, Structural, Hash)]
pub struct NativeContextId(pub u32);

/// The native context a node's bytes are attributed to.
#[derive(Clone, Copy, Debug, PartialEq, Eq, Structural)]
pub enum NativeContextBucket {
    Context(NativeContextId),
    Shared,
    Unattributed,
}

/// A native context found in the snapshot.
#[derive(Clone, Copy, Debug, PartialEq, Eq, Structural)]
pub struct NativeContextData {
    pub ordinal: NodeOrdinal,
    pub kind: NativeContextKind,
    pub is_extension: bool,
    pub size: u64,
}

/// The bytes attributed to each native context, with the shared and the
/// unattributed bytes.
#[derive(Clone, Debug, PartialEq, Eq)]
pub struct NativeContextAttributableSizes {
    pub native_contexts: Vec<NativeContextData>,
    pub shared: u64,
    pub unattributed: u64,
}

/// Whether a node stays reachable when context objects are cut out.
#[derive(Clone, Copy, Debug, PartialEq, Eq, Structural)]
pub enum ContextRetention {
    Retained,
    NotRetained,
    Unreachable,
}

/// Totals of the bytes that only contexts keep alive.
#[derive(Clone, Copy, Debug, PartialEq, Eq, Structural)]
pub struct RetainedByContext {
    pub context_count: u32,
    pub retained_by_context_size: u64,
    pub not_retained_by_context_size: u64,
}

/// Why a snapshot could not be read.
#[derive(Clone, Debug, PartialEq, Eq)]
pub enum SnapshotError {
    /// The bytes are not a heap snapshot; the message says where.
    Parse(String),
    /// The arrays do not describe a consistent graph.
    Malformed(String),
}

/// Result of a reachability query from a set of nodes.
#[derive(Clone, Debug, PartialEq, Eq)]
pub struct ReachableSizeInfo {
    pub size: u64,
    pub native_contexts: Vec<NodeOrdinal>,
}

} // verus!
