use gfa_loader::error::LoadError;
use gfa_loader::interface::{LoadGFAMsg, LoadGFAView};
use gfa_loader::io::{identifier_remap, load_graph, packed_graph_from_mmap};
use gfa_loader::mmap_gfa::MmapGFA;
use handlegraph::handle::{Handle, NodeId};
use handlegraph::handlegraph::{HandleGraph, IntoHandles, IntoNeighbors, IntoSequences};
use handlegraph::packedgraph::PackedGraph;
use handlegraph::pathhandlegraph::{GraphPaths, GraphPathNames, GraphPathsSteps, PathId, PathStep};

const MINIMAL: &[u8] =
    b"H\tVN:Z:1.0\nS\t0\tA\nS\t1\tC\nS\t2\tG\nL\t0\t+\t1\t+\t0M\nP\twalk\t0+,1+,2-\t*\n";

fn steps_of(graph: &PackedGraph, id: u64) -> Vec<(u64, bool)> {
    graph
        .path_steps(PathId(id))
        .unwrap()
        .map(|s| (u64::from(s.handle().id()), s.handle().is_reverse()))
        .collect()
}

#[test]
fn minimal_graph_is_remapped_from_zero() {
    let mut gfa = MmapGFA::new(MINIMAL);
    assert_eq!(identifier_remap(&mut gfa), Ok(1));
    let graph = packed_graph_from_mmap(&mut gfa).unwrap();
    assert_eq!(graph.node_count(), 3);
    assert_eq!(graph.edge_count(), 1);
    assert_eq!(graph.path_count(), 1);
    for (id, seq) in [(1u64, b"A"), (2, b"C"), (3, b"G")] {
        assert!(graph.has_node(NodeId::from(id)));
        assert_eq!(graph.sequence_vec(Handle::pack(id, false)), seq.to_vec());
    }
    assert!(!graph.has_node(NodeId::from(0u64)));
    assert!(graph.has_edge(Handle::pack(1u64, false), Handle::pack(2u64, false)));
    assert!(graph.has_edge(Handle::pack(2u64, true), Handle::pack(1u64, true)));
    assert!(!graph.has_edge(Handle::pack(2u64, false), Handle::pack(3u64, false)));
    assert_eq!(graph.get_path_name_vec(PathId(0)), Some(b"walk".to_vec()));
    assert_eq!(steps_of(&graph, 0), vec![(1, false), (2, false), (3, true)]);
}

#[test]
fn malformed_link_fails_after_the_segments() {
    let data = b"S\t1\tA\nS\t2\tC\nS\t3\tG\nL\t1\t+\t99\t+\t0M\nP\twalk\t1+,2+\t*\n";
    let mut gfa = MmapGFA::new(data);
    let mut events = Vec::new();
    let res = load_graph(&mut gfa, &mut events);
    assert_eq!(res.err(), Some(LoadError::MissingNode { offset: 18, id: 99 }));
    let kinds: Vec<LoadGFAMsg> =
        events.iter().copied().filter(|m| !matches!(m, LoadGFAMsg::Bytes(_))).collect();
    assert_eq!(kinds, vec![LoadGFAMsg::Node, LoadGFAMsg::Node, LoadGFAMsg::Node, LoadGFAMsg::Done]);
}

#[test]
fn empty_file_loads_an_empty_graph() {
    let mut gfa = MmapGFA::new(b"");
    assert_eq!(identifier_remap(&mut gfa), Ok(0));
    let graph = packed_graph_from_mmap(&mut gfa).unwrap();
    assert_eq!(graph.node_count(), 0);
    assert_eq!(graph.edge_count(), 0);
    assert_eq!(graph.path_count(), 0);
}

#[test]
fn ids_from_one_are_not_shifted() {
    let mut gfa = MmapGFA::new(b"S\t5\tAC\nS\t7\tT\nL\t5\t-\t7\t+\t*\n");
    assert_eq!(identifier_remap(&mut gfa), Ok(0));
    let graph = packed_graph_from_mmap(&mut gfa).unwrap();
    assert!(graph.has_node(NodeId::from(5u64)));
    assert!(graph.has_node(NodeId::from(7u64)));
    assert!(graph.has_edge(Handle::pack(5u64, true), Handle::pack(7u64, false)));
}

#[test]
fn progress_events_count_what_was_added() {
    let mut gfa = MmapGFA::new(MINIMAL);
    let mut events = Vec::new();
    let graph = load_graph(&mut gfa, &mut events).unwrap();
    assert_eq!(graph.node_count(), 3);
    assert_eq!(events.last(), Some(&LoadGFAMsg::Done));
    assert_eq!(events.iter().filter(|m| **m == LoadGFAMsg::Done).count(), 1);
    let mut view = LoadGFAView::new("minimal.gfa");
    for m in events {
        if view.receive(m) {
            break;
        }
    }
    assert_eq!(view.nodes_added(), 3);
    assert_eq!(view.edges_added(), 1);
    assert_eq!(view.paths_added(), 1);
    assert!(view.bytes_used() > 0);
}

#[test]
fn duplicate_segment_fails() {
    let mut gfa = MmapGFA::new(b"S\t1\tA\nS\t1\tC\n");
    let res = packed_graph_from_mmap(&mut gfa);
    assert_eq!(res.err(), Some(LoadError::DuplicateNode { offset: 6, id: 1 }));
}

#[test]
fn duplicate_path_name_fails() {
    let mut gfa = MmapGFA::new(b"S\t1\tA\nP\tp\t1+\t*\nP\tp\t1-\t*\n");
    let res = packed_graph_from_mmap(&mut gfa);
    assert_eq!(res.err(), Some(LoadError::DuplicatePath { offset: 15 }));
}

#[test]
fn path_without_name_fails() {
    let mut gfa = MmapGFA::new(b"S\t1\tA\nP\n");
    let res = packed_graph_from_mmap(&mut gfa);
    assert_eq!(res.err(), Some(LoadError::MissingName { offset: 6 }));
}

#[test]
fn step_without_orientation_fails() {
    let mut gfa = MmapGFA::new(b"S\t1\tA\nP\tp\t1+,1\t*\n");
    let res = packed_graph_from_mmap(&mut gfa);
    assert_eq!(res.err(), Some(LoadError::MalformedStep { offset: 6 }));
}

#[test]
fn step_on_missing_node_fails() {
    let mut gfa = MmapGFA::new(b"S\t1\tA\nP\tp\t1+,4-\t*\n");
    let res = packed_graph_from_mmap(&mut gfa);
    assert_eq!(res.err(), Some(LoadError::MissingNode { offset: 6, id: 4 }));
}

#[test]
fn non_numeric_segment_name_fails() {
    let mut gfa = MmapGFA::new(b"S\t1\tA\nS\tx\tC\n");
    let res = packed_graph_from_mmap(&mut gfa);
    assert_eq!(res.err(), Some(LoadError::InvalidSegmentName { offset: 6 }));
}

#[test]
fn unparsable_link_fails() {
    let mut gfa = MmapGFA::new(b"S\t1\tA\nL\t1\t+\n");
    let res = packed_graph_from_mmap(&mut gfa);
    assert!(matches!(res.err(), Some(LoadError::Parse { offset: 6, .. })));
}

#[test]
fn identifier_beyond_the_store_bound_fails() {
    let mut gfa = MmapGFA::new(b"S\t9223372036854775808\tA\n");
    let res = packed_graph_from_mmap(&mut gfa);
    assert_eq!(res.err(), Some(LoadError::IdOverflow { offset: 0 }));
}

#[test]
fn every_loaded_id_is_at_least_one() {
    let mut gfa = MmapGFA::new(b"S\t3\tA\nS\t0\tC\nS\t9\tG\n");
    let graph = packed_graph_from_mmap(&mut gfa).unwrap();
    let mut ids: Vec<u64> = graph.handles().map(|h| u64::from(h.id())).collect();
    ids.sort();
    assert_eq!(ids, vec![1, 4, 10]);
}

#[test]
fn sequences_are_stored_as_bases() {
    let mut gfa = MmapGFA::new(b"S\t1\tacgT\nS\t2\t*\n");
    let graph = packed_graph_from_mmap(&mut gfa).unwrap();
    assert_eq!(graph.sequence_vec(Handle::pack(1u64, false)), b"ACGT".to_vec());
    assert_eq!(graph.sequence_vec(Handle::pack(2u64, false)), b"N".to_vec());
}

#[test]
fn step_with_unreadable_id_fails() {
    let mut gfa = MmapGFA::new(b"S\t1\tA\nP\tp\t1+,x+\t*\n");
    let res = packed_graph_from_mmap(&mut gfa);
    assert_eq!(res.err(), Some(LoadError::MalformedStep { offset: 6 }));
}

#[test]
fn path_with_huge_overlap_fails_without_panic() {
    let mut gfa = MmapGFA::new(b"S\t1\tA\nP\tp\t1+\t4294967296M\n");
    let res = packed_graph_from_mmap(&mut gfa);
    assert_eq!(res.err(), Some(LoadError::Unsupported { offset: 6 }));
}

#[test]
fn failed_segment_pass_reports_what_it_added() {
    let mut gfa = MmapGFA::new(b"S\t1\tA\nS\t1\tC\nL\t1\t+\t1\t+\t*\n");
    let mut events = Vec::new();
    let res = load_graph(&mut gfa, &mut events);
    assert_eq!(res.err(), Some(LoadError::DuplicateNode { offset: 6, id: 1 }));
    assert_eq!(events, vec![LoadGFAMsg::Node, LoadGFAMsg::Done]);
}
