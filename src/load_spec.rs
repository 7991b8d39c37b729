//! What loading a GFA file builds: the graph, or the error the load stops
//! at, as a function of the file's bytes; and the laws that such graphs obey.
use vstd::prelude::*;
use crate::error::LoadError;
use crate::graph::{
    flipped_edge, graph_edges, graph_nodes, graph_paths, has_path_named, stored_sequence,
    HandleModel, NODE_ID_LIMIT,
};
use crate::mmap_gfa::{
    line_at, marked_lines, second_field, LineIndices, LINK_MARKER, PATH_MARKER, SEGMENT_MARKER,
};
use crate::interface::{repeat_msg, LoadGFAMsg};
use crate::record::{decimal_usize, parsed_steps, record_of, steps_well_formed, Record};
use handlegraph::packedgraph::PackedGraph;

verus! {

/// What a graph store holds: node sequences by identifier, edges, and paths
/// (name and steps) by path identifier.
pub struct GraphModel {
    pub nodes: Map<u64, Seq<u8>>,
    pub edges: Set<(u64, bool, u64, bool)>,
    pub paths: Seq<(Seq<u8>, Seq<HandleModel>)>,
}

pub open spec fn model_of(g: PackedGraph) -> GraphModel {
    GraphModel { nodes: graph_nodes(g), edges: graph_edges(g), paths: graph_paths(g) }
}

/// A raw identifier shifted by the remap offset, where it stays below the
/// store's identifier bound.
pub open spec fn remapped(id: usize, remap: u64) -> Option<u64> {
    if id + remap < NODE_ID_LIMIT {
        Some((id + remap) as u64)
    } else {
        None
    }
}

/// The identifier that the name field of the segment line at `o` writes.
pub open spec fn segment_id_at(d: Seq<u8>, o: usize) -> Result<usize, LoadError> {
    match second_field(line_at(d, o as int)) {
        None => Err(LoadError::MissingName { offset: o }),
        Some(f) => match decimal_usize(f) {
            None => Err(LoadError::InvalidSegmentName { offset: o }),
            Some(id) => Ok(id),
        },
    }
}

/// Whether one of the first `k` segments of `s` is named 0.
pub open spec fn zero_id_seen(d: Seq<u8>, s: Seq<usize>, k: int) -> Result<bool, LoadError>
    decreases k,
{
    if k <= 0 {
        Ok(false)
    } else {
        match zero_id_seen(d, s, k - 1) {
            Err(e) => Err(e),
            Ok(z) => match segment_id_at(d, s[k - 1]) {
                Err(e) => Err(e),
                Ok(id) => Ok(z || id == 0),
            },
        }
    }
}

/// The remap offset: 1 where the least segment identifier is 0, else 0
/// (also where there is no segment).
pub open spec fn remap_offset(d: Seq<u8>, s: Seq<usize>) -> Result<u64, LoadError> {
    match zero_id_seen(d, s, s.len() as int) {
        Err(e) => Err(e),
        Ok(z) => Ok(if z { 1 } else { 0 }),
    }
}

/// The nodes after adding the segment at `o`.
pub open spec fn add_segment(d: Seq<u8>, o: usize, remap: u64, nodes: Map<u64, Seq<u8>>) -> Result<
    Map<u64, Seq<u8>>,
    LoadError,
> {
    match record_of(line_at(d, o as int), o) {
        Err(e) => Err(e),
        Ok(Record::Segment { name, sequence }) => match remapped(name, remap) {
            None => Err(LoadError::IdOverflow { offset: o }),
            Some(id) => if id == 0 {
                Err(LoadError::InvalidSegmentName { offset: o })
            } else if sequence@.len() == 0 {
                Err(LoadError::EmptySequence { offset: o })
            } else if nodes.contains_key(id) {
                Err(LoadError::DuplicateNode { offset: o, id })
            } else {
                Ok(nodes.insert(id, stored_sequence(sequence@)))
            },
        },
        Ok(_) => Err(LoadError::UnexpectedRecord { offset: o }),
    }
}

/// The nodes after the first `k` segments of `s`.
pub open spec fn segments_after(d: Seq<u8>, s: Seq<usize>, remap: u64, k: int) -> Result<
    Map<u64, Seq<u8>>,
    LoadError,
>
    decreases k,
{
    if k <= 0 {
        Ok(Map::empty())
    } else {
        match segments_after(d, s, remap, k - 1) {
            Err(e) => Err(e),
            Ok(m) => add_segment(d, s[k - 1], remap, m),
        }
    }
}

/// The edges after adding the link at `o`.
pub open spec fn add_link(
    d: Seq<u8>,
    o: usize,
    remap: u64,
    nodes: Map<u64, Seq<u8>>,
    edges: Set<(u64, bool, u64, bool)>,
) -> Result<Set<(u64, bool, u64, bool)>, LoadError> {
    match record_of(line_at(d, o as int), o) {
        Err(e) => Err(e),
        Ok(Record::Link { from_segment, from_reverse, to_segment, to_reverse }) => match (
            remapped(from_segment, remap),
            remapped(to_segment, remap),
        ) {
            (Some(f), Some(t)) => if !nodes.contains_key(f) {
                Err(LoadError::MissingNode { offset: o, id: f })
            } else if !nodes.contains_key(t) {
                Err(LoadError::MissingNode { offset: o, id: t })
            } else {
                Ok(
                    edges.insert((f, from_reverse, t, to_reverse)).insert(
                        flipped_edge((f, from_reverse), (t, to_reverse)),
                    ),
                )
            },
            _ => Err(LoadError::IdOverflow { offset: o }),
        },
        Ok(_) => Err(LoadError::UnexpectedRecord { offset: o }),
    }
}

/// The edges after the first `k` links of `l`.
pub open spec fn links_after(
    d: Seq<u8>,
    l: Seq<usize>,
    remap: u64,
    nodes: Map<u64, Seq<u8>>,
    k: int,
) -> Result<Set<(u64, bool, u64, bool)>, LoadError>
    decreases k,
{
    if k <= 0 {
        Ok(Set::empty())
    } else {
        match links_after(d, l, remap, nodes, k - 1) {
            Err(e) => Err(e),
            Ok(es) => add_link(d, l[k - 1], remap, nodes, es),
        }
    }
}

/// The path names after the first `k` paths of `p`.
pub open spec fn path_names_after(d: Seq<u8>, p: Seq<usize>, k: int) -> Result<Seq<Seq<u8>>, LoadError>
    decreases k,
{
    if k <= 0 {
        Ok(Seq::empty())
    } else {
        match path_names_after(d, p, k - 1) {
            Err(e) => Err(e),
            Ok(names) => match second_field(line_at(d, p[k - 1] as int)) {
                None => Err(LoadError::MissingName { offset: p[k - 1] }),
                Some(n) => if names.contains(n) {
                    Err(LoadError::DuplicatePath { offset: p[k - 1] })
                } else {
                    Ok(names.push(n))
                },
            },
        }
    }
}

/// The first `j` parsed steps of the path at `o`, remapped.
pub open spec fn remap_steps(
    steps: Seq<(usize, bool)>,
    remap: u64,
    nodes: Map<u64, Seq<u8>>,
    o: usize,
    j: int,
) -> Result<Seq<HandleModel>, LoadError>
    decreases j,
{
    if j <= 0 {
        Ok(Seq::empty())
    } else {
        match remap_steps(steps, remap, nodes, o, j - 1) {
            Err(e) => Err(e),
            Ok(hs) => match remapped(steps[j - 1].0, remap) {
                None => Err(LoadError::IdOverflow { offset: o }),
                Some(id) => if !nodes.contains_key(id) {
                    Err(LoadError::MissingNode { offset: o, id })
                } else {
                    Ok(hs.push((id, steps[j - 1].1)))
                },
            },
        }
    }
}

/// The steps of the path at `o`.
pub open spec fn steps_of_path(d: Seq<u8>, o: usize, remap: u64, nodes: Map<u64, Seq<u8>>) -> Result<
    Seq<HandleModel>,
    LoadError,
> {
    match record_of(line_at(d, o as int), o) {
        Err(e) => Err(e),
        Ok(Record::Path { path_name, segment_names }) => if !steps_well_formed(segment_names@) {
            Err(LoadError::MalformedStep { offset: o })
        } else {
            let steps = parsed_steps(segment_names@);
            remap_steps(steps, remap, nodes, o, steps.len() as int)
        },
        Ok(_) => Err(LoadError::UnexpectedRecord { offset: o }),
    }
}

/// The steps of each of the first `k` paths of `p`.
pub open spec fn path_steps_after(
    d: Seq<u8>,
    p: Seq<usize>,
    remap: u64,
    nodes: Map<u64, Seq<u8>>,
    k: int,
) -> Result<Seq<Seq<HandleModel>>, LoadError>
    decreases k,
{
    if k <= 0 {
        Ok(Seq::empty())
    } else {
        match path_steps_after(d, p, remap, nodes, k - 1) {
            Err(e) => Err(e),
            Ok(all) => match steps_of_path(d, p[k - 1], remap, nodes) {
                Err(e) => Err(e),
                Ok(hs) => Ok(all.push(hs)),
            },
        }
    }
}

pub open spec fn segment_lines(d: Seq<u8>) -> Seq<usize> {
    marked_lines(d, SEGMENT_MARKER)
}

pub open spec fn link_lines(d: Seq<u8>) -> Seq<usize> {
    marked_lines(d, LINK_MARKER)
}

pub open spec fn path_lines(d: Seq<u8>) -> Seq<usize> {
    marked_lines(d, PATH_MARKER)
}

/// The graph that loading the GFA file `d` builds, or the error it stops at.
pub open spec fn load_spec(d: Seq<u8>) -> Result<GraphModel, LoadError> {
    let s = segment_lines(d);
    let l = link_lines(d);
    let p = path_lines(d);
    match remap_offset(d, s) {
        Err(e) => Err(e),
        Ok(remap) => match segments_after(d, s, remap, s.len() as int) {
            Err(e) => Err(e),
            Ok(nodes) => match links_after(d, l, remap, nodes, l.len() as int) {
                Err(e) => Err(e),
                Ok(edges) => match path_names_after(d, p, p.len() as int) {
                    Err(e) => Err(e),
                    Ok(names) => match path_steps_after(d, p, remap, nodes, p.len() as int) {
                        Err(e) => Err(e),
                        Ok(steps) => Ok(
                            GraphModel {
                                nodes,
                                edges,
                                paths: Seq::new(names.len(), |i: int| (names[i], steps[i])),
                            },
                        ),
                    },
                },
            },
        },
    }
}

pub(crate) proof fn lemma_zero_seen_sticks(d: Seq<u8>, s: Seq<usize>, k: int, n: int)
    requires
        0 <= k <= n,
        zero_id_seen(d, s, k) is Err,
    ensures
        zero_id_seen(d, s, n) == zero_id_seen(d, s, k),
    decreases n - k,
{
    if n > k {
        lemma_zero_seen_sticks(d, s, k, n - 1);
    }
}

pub(crate) proof fn lemma_segments_sticks(d: Seq<u8>, s: Seq<usize>, remap: u64, k: int, n: int)
    requires
        0 <= k <= n,
        segments_after(d, s, remap, k) is Err,
    ensures
        segments_after(d, s, remap, n) == segments_after(d, s, remap, k),
    decreases n - k,
{
    if n > k {
        lemma_segments_sticks(d, s, remap, k, n - 1);
    }
}

pub(crate) proof fn lemma_links_sticks(
    d: Seq<u8>,
    l: Seq<usize>,
    remap: u64,
    nodes: Map<u64, Seq<u8>>,
    k: int,
    n: int,
)
    requires
        0 <= k <= n,
        links_after(d, l, remap, nodes, k) is Err,
    ensures
        links_after(d, l, remap, nodes, n) == links_after(d, l, remap, nodes, k),
    decreases n - k,
{
    if n > k {
        lemma_links_sticks(d, l, remap, nodes, k, n - 1);
    }
}

pub(crate) proof fn lemma_names_sticks(d: Seq<u8>, p: Seq<usize>, k: int, n: int)
    requires
        0 <= k <= n,
        path_names_after(d, p, k) is Err,
    ensures
        path_names_after(d, p, n) == path_names_after(d, p, k),
    decreases n - k,
{
    if n > k {
        lemma_names_sticks(d, p, k, n - 1);
    }
}

pub(crate) proof fn lemma_names_len(d: Seq<u8>, p: Seq<usize>, k: int)
    requires
        0 <= k,
        path_names_after(d, p, k) is Ok,
    ensures
        path_names_after(d, p, k).unwrap().len() == k,
    decreases k,
{
    if k > 0 {
        lemma_names_len(d, p, k - 1);
    }
}

pub(crate) proof fn lemma_steps_sticks(
    d: Seq<u8>,
    p: Seq<usize>,
    remap: u64,
    nodes: Map<u64, Seq<u8>>,
    k: int,
    n: int,
)
    requires
        0 <= k <= n,
        path_steps_after(d, p, remap, nodes, k) is Err,
    ensures
        path_steps_after(d, p, remap, nodes, n) == path_steps_after(d, p, remap, nodes, k),
    decreases n - k,
{
    if n > k {
        lemma_steps_sticks(d, p, remap, nodes, k, n - 1);
    }
}

pub(crate) proof fn lemma_steps_len(d: Seq<u8>, p: Seq<usize>, remap: u64, nodes: Map<u64, Seq<u8>>, k: int)
    requires
        0 <= k,
        path_steps_after(d, p, remap, nodes, k) is Ok,
    ensures
        path_steps_after(d, p, remap, nodes, k).unwrap().len() == k,
    decreases k,
{
    if k > 0 {
        lemma_steps_len(d, p, remap, nodes, k - 1);
    }
}

pub(crate) proof fn lemma_remap_steps_sticks(
    steps: Seq<(usize, bool)>,
    remap: u64,
    nodes: Map<u64, Seq<u8>>,
    o: usize,
    k: int,
    n: int,
)
    requires
        0 <= k <= n,
        remap_steps(steps, remap, nodes, o, k) is Err,
    ensures
        remap_steps(steps, remap, nodes, o, n) == remap_steps(steps, remap, nodes, o, k),
    decreases n - k,
{
    if n > k {
        lemma_remap_steps_sticks(steps, remap, nodes, o, k, n - 1);
    }
}

/// Empty paths with the names of `names`, in order.
pub open spec fn placeholders(names: Seq<Seq<u8>>) -> Seq<(Seq<u8>, Seq<HandleModel>)> {
    names.map_values(|n: Seq<u8>| (n, Seq::<HandleModel>::empty()))
}

pub(crate) proof fn lemma_placeholder_named(names: Seq<Seq<u8>>, n: Seq<u8>)
    ensures
        has_path_named(placeholders(names), n) == names.contains(n),
{
    if names.contains(n) {
        let i = choose|i: int| 0 <= i < names.len() && names[i] == n;
        assert(placeholders(names)[i].0 == n);
    }
    if has_path_named(placeholders(names), n) {
        let i = choose|i: int|
            0 <= i < placeholders(names).len() && (#[trigger] placeholders(names)[i]).0 == n;
        assert(names[i] == n);
    }
}

pub(crate) proof fn lemma_segments_ok(d: Seq<u8>, s: Seq<usize>, remap: u64, k: int)
    requires
        0 <= k,
        segments_after(d, s, remap, k) is Ok,
    ensures
        segments_after(d, s, remap, k).unwrap().dom().finite(),
        segments_after(d, s, remap, k).unwrap().dom().len() == k,
        forall|id: u64|
            #[trigger] segments_after(d, s, remap, k).unwrap().contains_key(id) ==> 0 < id,
    decreases k,
{
    if k > 0 {
        lemma_segments_ok(d, s, remap, k - 1);
    }
}

pub(crate) proof fn lemma_remap_steps_len(
    steps: Seq<(usize, bool)>,
    remap: u64,
    nodes: Map<u64, Seq<u8>>,
    o: usize,
    j: int,
)
    requires
        0 <= j,
        remap_steps(steps, remap, nodes, o, j) is Ok,
    ensures
        remap_steps(steps, remap, nodes, o, j).unwrap().len() == j,
    decreases j,
{
    if j > 0 {
        lemma_remap_steps_len(steps, remap, nodes, o, j - 1);
    }
}

pub(crate) proof fn lemma_path_steps_ok(d: Seq<u8>, p: Seq<usize>, remap: u64, nodes: Map<u64, Seq<u8>>, k: int)
    requires
        0 <= k,
        path_steps_after(d, p, remap, nodes, k) is Ok,
    ensures
        path_steps_after(d, p, remap, nodes, k).unwrap().len() == k,
        forall|j: int|
            0 <= j < k ==> #[trigger] steps_of_path(d, p[j], remap, nodes) == Ok::<
                Seq<HandleModel>,
                LoadError,
            >(path_steps_after(d, p, remap, nodes, k).unwrap()[j]),
    decreases k,
{
    if k > 0 {
        lemma_path_steps_ok(d, p, remap, nodes, k - 1);
        let prev = path_steps_after(d, p, remap, nodes, k - 1).unwrap();
        let all = path_steps_after(d, p, remap, nodes, k).unwrap();
        assert forall|j: int| 0 <= j < k implies #[trigger] steps_of_path(d, p[j], remap, nodes)
            == Ok::<Seq<HandleModel>, LoadError>(all[j]) by {
            if j < k - 1 {
                assert(all[j] == prev[j]);
            }
        }
    }
}

/// The number of `(segment, orientation)` pairs that the parser reads from
/// the path line at `o`.
pub open spec fn path_step_count(d: Seq<u8>, o: usize) -> Option<nat> {
    match record_of(line_at(d, o as int), o) {
        Ok(Record::Path { path_name, segment_names }) => Some(parsed_steps(segment_names@).len()),
        _ => None,
    }
}

/// Every node of a loaded graph has an identifier of at least 1: a file
/// whose segments number from 0 is shifted by one.
pub proof fn loaded_node_ids_are_positive(d: Seq<u8>)
    requires
        load_spec(d) is Ok,
    ensures
        forall|id: u64| #[trigger] load_spec(d).unwrap().nodes.contains_key(id) ==> id >= 1,
{
    let s = segment_lines(d);
    let remap = remap_offset(d, s).unwrap();
    lemma_segments_ok(d, s, remap, s.len() as int);
}

/// A loaded graph has one node per segment line and one path per path
/// line, and each path has one step per `(segment, orientation)` pair that
/// the parser reads from its line.
pub proof fn loaded_counts_match_index(d: Seq<u8>)
    requires
        load_spec(d) is Ok,
    ensures
        load_spec(d).unwrap().nodes.dom().len() == segment_lines(d).len(),
        load_spec(d).unwrap().paths.len() == path_lines(d).len(),
        forall|k: int|
            0 <= k < path_lines(d).len() ==> path_step_count(d, path_lines(d)[k]) == Some(
                (#[trigger] load_spec(d).unwrap().paths[k]).1.len(),
            ),
{
    let s = segment_lines(d);
    let p = path_lines(d);
    let remap = remap_offset(d, s).unwrap();
    let nodes = segments_after(d, s, remap, s.len() as int).unwrap();
    lemma_segments_ok(d, s, remap, s.len() as int);
    lemma_names_len(d, p, p.len() as int);
    lemma_path_steps_ok(d, p, remap, nodes, p.len() as int);
    let all = path_steps_after(d, p, remap, nodes, p.len() as int).unwrap();
    assert forall|k: int| 0 <= k < p.len() implies path_step_count(d, p[k]) == Some(
        (#[trigger] load_spec(d).unwrap().paths[k]).1.len(),
    ) by {
        assert(steps_of_path(d, p[k], remap, nodes) == Ok::<Seq<HandleModel>, LoadError>(all[k]));
        assert(load_spec(d).unwrap().paths[k].1 == all[k]);
        if let Ok(Record::Path { path_name, segment_names }) = record_of(line_at(d, p[k] as int), p[k]) {
            let steps = parsed_steps(segment_names@);
            lemma_remap_steps_len(steps, remap, nodes, p[k], steps.len() as int);
            assert(remap_steps(steps, remap, nodes, p[k], steps.len() as int) == Ok::<
                Seq<HandleModel>,
                LoadError,
            >(all[k]));
        }
    }
}

/// The edge that the link line at `o` names, remapped.
pub open spec fn link_edge_at(d: Seq<u8>, o: usize, remap: u64) -> Option<(u64, bool, u64, bool)> {
    match record_of(line_at(d, o as int), o) {
        Ok(Record::Link { from_segment, from_reverse, to_segment, to_reverse }) => match (
            remapped(from_segment, remap),
            remapped(to_segment, remap),
        ) {
            (Some(f), Some(t)) => Some((f, from_reverse, t, to_reverse)),
            _ => None,
        },
        _ => None,
    }
}

/// An edge read from its other end.
pub open spec fn reversed_edge(e: (u64, bool, u64, bool)) -> (u64, bool, u64, bool) {
    (e.2, !e.3, e.0, !e.1)
}

pub(crate) proof fn lemma_links_ok(
    d: Seq<u8>,
    l: Seq<usize>,
    remap: u64,
    nodes: Map<u64, Seq<u8>>,
    k: int,
)
    requires
        0 <= k <= l.len(),
        links_after(d, l, remap, nodes, k) is Ok,
    ensures
        forall|j: int|
            0 <= j < k ==> (#[trigger] link_edge_at(d, l[j], remap)) is Some && links_after(
                d,
                l,
                remap,
                nodes,
                k,
            ).unwrap().contains(link_edge_at(d, l[j], remap).unwrap()) && links_after(
                d,
                l,
                remap,
                nodes,
                k,
            ).unwrap().contains(reversed_edge(link_edge_at(d, l[j], remap).unwrap())),
        forall|e: (u64, bool, u64, bool)|
            #[trigger] links_after(d, l, remap, nodes, k).unwrap().contains(e) ==> exists|j: int|
                0 <= j < k && (e == link_edge_at(d, l[j], remap).unwrap() || e == reversed_edge(
                    link_edge_at(d, l[j], remap).unwrap(),
                )),
    decreases k,
{
    if k > 0 {
        lemma_links_ok(d, l, remap, nodes, k - 1);
        let prev = links_after(d, l, remap, nodes, k - 1).unwrap();
        let cur = links_after(d, l, remap, nodes, k).unwrap();
        let e = link_edge_at(d, l[k - 1], remap).unwrap();
        assert(cur == prev.insert(e).insert(reversed_edge(e)));
        assert forall|x: (u64, bool, u64, bool)| #[trigger] cur.contains(x) implies exists|j: int|
            0 <= j < k && (x == link_edge_at(d, l[j], remap).unwrap() || x == reversed_edge(
                link_edge_at(d, l[j], remap).unwrap(),
            )) by {
            if prev.contains(x) {
                let j = choose|j: int|
                    0 <= j < k - 1 && (x == link_edge_at(d, l[j], remap).unwrap() || x
                        == reversed_edge(link_edge_at(d, l[j], remap).unwrap()));
                assert(0 <= j < k);
            } else {
                assert(x == link_edge_at(d, l[k - 1], remap).unwrap() || x == reversed_edge(
                    link_edge_at(d, l[k - 1], remap).unwrap(),
                ));
            }
        }
    }
}

/// The edges of a loaded graph are exactly the edges that its link lines
/// name, each present in both of its directions.
pub proof fn loaded_edges_are_the_links(d: Seq<u8>)
    requires
        load_spec(d) is Ok,
    ensures
        forall|k: int|
            0 <= k < link_lines(d).len() ==> (#[trigger] link_edge_at(
                d,
                link_lines(d)[k],
                remap_offset(d, segment_lines(d)).unwrap(),
            )) is Some,
        forall|k: int|
            0 <= k < link_lines(d).len() ==> load_spec(d).unwrap().edges.contains(
                #[trigger] link_edge_at(
                    d,
                    link_lines(d)[k],
                    remap_offset(d, segment_lines(d)).unwrap(),
                ).unwrap(),
            ),
        forall|k: int|
            0 <= k < link_lines(d).len() ==> load_spec(d).unwrap().edges.contains(
                reversed_edge(
                    #[trigger] link_edge_at(
                        d,
                        link_lines(d)[k],
                        remap_offset(d, segment_lines(d)).unwrap(),
                    ).unwrap(),
                ),
            ),
        forall|e: (u64, bool, u64, bool)|
            #[trigger] load_spec(d).unwrap().edges.contains(e) ==> exists|k: int|
                0 <= k < link_lines(d).len() && (e == link_edge_at(
                    d,
                    link_lines(d)[k],
                    remap_offset(d, segment_lines(d)).unwrap(),
                ).unwrap() || e == reversed_edge(
                    link_edge_at(
                        d,
                        link_lines(d)[k],
                        remap_offset(d, segment_lines(d)).unwrap(),
                    ).unwrap(),
                )),
{
    let s = segment_lines(d);
    let l = link_lines(d);
    let remap = remap_offset(d, s).unwrap();
    let nodes = segments_after(d, s, remap, s.len() as int).unwrap();
    lemma_links_ok(d, l, remap, nodes, l.len() as int);
}

/// Indexing the same bytes twice gives the same three lists.
pub proof fn build_index_is_repeatable(d: Seq<u8>, a: LineIndices, b: LineIndices)
    requires
        a.indexes(d),
        b.indexes(d),
    ensures
        a.segments@ == b.segments@,
        a.links@ == b.links@,
        a.paths@ == b.paths@,
{
}

/// How many of the first `k` segments were added before the pass stopped.
pub open spec fn segments_done(d: Seq<u8>, s: Seq<usize>, remap: u64, k: int) -> nat
    decreases k,
{
    if k <= 0 {
        0
    } else if segments_after(d, s, remap, k) is Ok {
        k as nat
    } else {
        segments_done(d, s, remap, k - 1)
    }
}

/// How many of the first `k` links were added before the pass stopped.
pub open spec fn links_done(
    d: Seq<u8>,
    l: Seq<usize>,
    remap: u64,
    nodes: Map<u64, Seq<u8>>,
    k: int,
) -> nat
    decreases k,
{
    if k <= 0 {
        0
    } else if links_after(d, l, remap, nodes, k) is Ok {
        k as nat
    } else {
        links_done(d, l, remap, nodes, k - 1)
    }
}

/// How many of the first `k` empty paths were created before the pass stopped.
pub open spec fn names_done(d: Seq<u8>, p: Seq<usize>, k: int) -> nat
    decreases k,
{
    if k <= 0 {
        0
    } else if path_names_after(d, p, k) is Ok {
        k as nat
    } else {
        names_done(d, p, k - 1)
    }
}

/// How many nodes, edges and paths a load of `d` adds before it ends or stops.
pub open spec fn load_progress(d: Seq<u8>) -> (nat, nat, nat) {
    let s = segment_lines(d);
    let l = link_lines(d);
    let p = path_lines(d);
    match remap_offset(d, s) {
        Err(_) => (0, 0, 0),
        Ok(remap) => match segments_after(d, s, remap, s.len() as int) {
            Err(_) => (segments_done(d, s, remap, s.len() as int), 0, 0),
            Ok(nodes) => match links_after(d, l, remap, nodes, l.len() as int) {
                Err(_) => (s.len(), links_done(d, l, remap, nodes, l.len() as int), 0),
                Ok(_) => match path_names_after(d, p, p.len() as int) {
                    Err(_) => (s.len(), l.len(), names_done(d, p, p.len() as int)),
                    Ok(_) => (s.len(), l.len(), p.len()),
                },
            },
        },
    }
}

/// The progress events of a load of `d`, size snapshots aside: a node
/// event per node, then an edge event per edge, then a path event per
/// path, as far as the load got, then `Done`.
pub open spec fn progress_events(d: Seq<u8>) -> Seq<LoadGFAMsg> {
    let (a, b, c) = load_progress(d);
    repeat_msg(LoadGFAMsg::Node, a) + repeat_msg(LoadGFAMsg::Edge, b) + repeat_msg(
        LoadGFAMsg::Path,
        c,
    ) + seq![LoadGFAMsg::Done]
}

pub(crate) proof fn lemma_segments_done_at(d: Seq<u8>, s: Seq<usize>, remap: u64, i: int, n: int)
    requires
        0 <= i < n,
        segments_after(d, s, remap, i) is Ok,
        segments_after(d, s, remap, i + 1) is Err,
    ensures
        segments_done(d, s, remap, n) == i,
    decreases n,
{
    if n > i + 1 {
        lemma_segments_sticks(d, s, remap, i + 1, n);
        lemma_segments_done_at(d, s, remap, i, n - 1);
    } else {
        assert(segments_done(d, s, remap, i) == i);
    }
}

pub(crate) proof fn lemma_links_done_at(
    d: Seq<u8>,
    l: Seq<usize>,
    remap: u64,
    nodes: Map<u64, Seq<u8>>,
    i: int,
    n: int,
)
    requires
        0 <= i < n,
        links_after(d, l, remap, nodes, i) is Ok,
        links_after(d, l, remap, nodes, i + 1) is Err,
    ensures
        links_done(d, l, remap, nodes, n) == i,
    decreases n,
{
    if n > i + 1 {
        lemma_links_sticks(d, l, remap, nodes, i + 1, n);
        lemma_links_done_at(d, l, remap, nodes, i, n - 1);
    } else {
        assert(links_done(d, l, remap, nodes, i) == i);
    }
}

pub(crate) proof fn lemma_names_done_at(d: Seq<u8>, p: Seq<usize>, i: int, n: int)
    requires
        0 <= i < n,
        path_names_after(d, p, i) is Ok,
        path_names_after(d, p, i + 1) is Err,
    ensures
        names_done(d, p, n) == i,
    decreases n,
{
    if n > i + 1 {
        lemma_names_sticks(d, p, i + 1, n);
        lemma_names_done_at(d, p, i, n - 1);
    } else {
        assert(names_done(d, p, i) == i);
    }
}

} // verus!
