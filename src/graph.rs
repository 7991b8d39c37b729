//! The outside handle graph store, as the loader sees it: its nodes, its
//! edges and its paths, and the calls that add to them.
use vstd::prelude::*;
use handlegraph::handle::{Edge, Handle, NodeId};
use handlegraph::handlegraph::IntoHandles;
use handlegraph::mutablehandlegraph::AdditiveHandleGraph;
use handlegraph::packedgraph::PackedGraph;
use handlegraph::pathhandlegraph::{MutableGraphPaths, PathId};
use succinct::SpaceUsage;

verus! {

/// Node identifiers of the store are below this bound; 0 is no identifier.
pub const NODE_ID_LIMIT: u64 = 0x8000_0000_0000_0000;

#[verifier::external_type_specification]
#[verifier::external_body]
pub struct ExPackedGraph(PackedGraph);

/// A node identifier with an orientation: `(id, is_reverse)`.
pub type HandleModel = (u64, bool);

/// The bases that the store keeps for a sequence byte: `A`, `C`, `G` or `T`
/// for those letters in either case, `N` for any other byte.
pub open spec fn stored_base(b: u8) -> u8 {
    if b == 65 || b == 97 {
        65
    } else if b == 67 || b == 99 {
        67
    } else if b == 71 || b == 103 {
        71
    } else if b == 84 || b == 116 {
        84
    } else {
        78
    }
}

/// The sequence that the store keeps for `s`, one base per byte.
pub open spec fn stored_sequence(s: Seq<u8>) -> Seq<u8> {
    s.map_values(|b: u8| stored_base(b))
}

/// The bases of each node, by identifier.
pub uninterp spec fn graph_nodes(g: PackedGraph) -> Map<u64, Seq<u8>>;

/// The edges `(from, from_is_reverse, to, to_is_reverse)` that the store
/// reports; each edge is there in both of its directions.
pub uninterp spec fn graph_edges(g: PackedGraph) -> Set<(u64, bool, u64, bool)>;

/// The paths, indexed by path identifier: each path's name and steps.
pub uninterp spec fn graph_paths(g: PackedGraph) -> Seq<(Seq<u8>, Seq<HandleModel>)>;

/// The edge from `from` to `to`, read from the other end.
pub open spec fn flipped_edge(from: HandleModel, to: HandleModel) -> (u64, bool, u64, bool) {
    (to.0, !to.1, from.0, !from.1)
}

/// Whether a path of `paths` has the name `name`.
pub open spec fn has_path_named(paths: Seq<(Seq<u8>, Seq<HandleModel>)>, name: Seq<u8>) -> bool {
    exists|i: int| 0 <= i < paths.len() && (#[trigger] paths[i]).0 == name
}

/// Relies on `PackedGraph::default`: a store with no node, edge or path.
#[verifier::external_body]
pub(crate) fn empty_graph() -> (g: PackedGraph)
    ensures
        graph_nodes(g).dom().is_empty(),
        graph_edges(g).is_empty(),
        graph_paths(g).len() == 0,
{
    PackedGraph::default()
}

/// Relies on `IntoHandles::has_node` of `&PackedGraph`: whether a node has
/// the identifier `id`.
#[verifier::external_body]
pub(crate) fn has_node(g: &PackedGraph, id: u64) -> (r: bool)
    ensures
        r == graph_nodes(*g).contains_key(id),
{
    g.has_node(NodeId::from(id))
}

/// Relies on `AdditiveHandleGraph::create_handle` of `PackedGraph`: adds a
/// node, its sequence packed as four bases and `N`. It panics on identifier 0, on an empty sequence, on an identifier
/// in use and (building the handle it returns) on one of 2^63 or more.
#[verifier::external_body]
pub(crate) fn create_node(g: &mut PackedGraph, sequence: &[u8], id: u64)
    requires
        0 < id < NODE_ID_LIMIT,
        sequence@.len() > 0,
        !graph_nodes(*old(g)).contains_key(id),
    ensures
        graph_nodes(*final(g)) == graph_nodes(*old(g)).insert(id, stored_sequence(sequence@)),
        graph_edges(*final(g)) == graph_edges(*old(g)),
        graph_paths(*final(g)) == graph_paths(*old(g)),
{
    g.create_handle(sequence, NodeId::from(id));
}

/// Relies on `AdditiveHandleGraph::create_edge` of `PackedGraph`: adds the
/// edge unless the store has it already. It panics where an end is not a
/// node, or (through `Handle::pack`) has an identifier of 2^63 or more.
#[verifier::external_body]
pub(crate) fn create_edge(g: &mut PackedGraph, from: HandleModel, to: HandleModel)
    requires
        graph_nodes(*old(g)).contains_key(from.0),
        graph_nodes(*old(g)).contains_key(to.0),
        from.0 < NODE_ID_LIMIT,
        to.0 < NODE_ID_LIMIT,
    ensures
        graph_nodes(*final(g)) == graph_nodes(*old(g)),
        graph_edges(*final(g)) == graph_edges(*old(g)).insert((from.0, from.1, to.0, to.1)).insert(
            flipped_edge(from, to),
        ),
        graph_paths(*final(g)) == graph_paths(*old(g)),
{
    g.create_edge(Edge(Handle::pack(from.0, from.1), Handle::pack(to.0, to.1)));
}

/// Relies on `MutableGraphPaths::create_path` of `PackedGraph`: where no
/// path has the name, adds an empty path whose identifier is the number of
/// paths before it; else `None`.
#[verifier::external_body]
pub(crate) fn create_path(g: &mut PackedGraph, name: &[u8]) -> (r: Option<u64>)
    ensures
        graph_nodes(*final(g)) == graph_nodes(*old(g)),
        graph_edges(*final(g)) == graph_edges(*old(g)),
        has_path_named(graph_paths(*old(g)), name@) ==> r is None && graph_paths(*final(g))
            == graph_paths(*old(g)),
        !has_path_named(graph_paths(*old(g)), name@) ==> r == Some(graph_paths(*old(g)).len() as u64)
            && graph_paths(*final(g)) == graph_paths(*old(g)).push((name@, Seq::empty())),
{
    g.create_path(name, false).map(|p| p.0)
}

/// Relies on `MutableGraphPaths::path_append_step` of `PackedGraph`: adds a
/// step at the end of path `path`. It panics where the step's node is not
/// in the store, or has an identifier of 2^63 or more.
#[verifier::external_body]
pub(crate) fn append_step(g: &mut PackedGraph, path: u64, step: HandleModel)
    requires
        path < graph_paths(*old(g)).len(),
        graph_nodes(*old(g)).contains_key(step.0),
        step.0 < NODE_ID_LIMIT,
    ensures
        graph_nodes(*final(g)) == graph_nodes(*old(g)),
        graph_edges(*final(g)) == graph_edges(*old(g)),
        graph_paths(*final(g)) == graph_paths(*old(g)).update(
            path as int,
            (graph_paths(*old(g))[path as int].0, graph_paths(*old(g))[path as int].1.push(step)),
        ),
{
    g.path_append_step(PathId(path), Handle::pack(step.0, step.1));
}

/// Relies on `SpaceUsage::total_bytes` of `PackedGraph`: the store's size
/// in bytes, which depends on its allocations.
#[verifier::external_body]
pub(crate) fn total_bytes(g: &PackedGraph) -> usize {
    g.total_bytes()
}

} // verus!
