use gfa_loader::error::LoadError;
use gfa_loader::interface::{LoadGFAMsg, LoadGFAView};
use gfa_loader::io::load_graph;
use gfa_loader::mmap_gfa::MmapGFA;
use gfa_loader::session::LoadSession;
use handlegraph::handle::{Handle, NodeId};
use handlegraph::handlegraph::{HandleGraph, IntoHandles, IntoNeighbors};
use handlegraph::pathhandlegraph::GraphPaths;

const MINIMAL: &[u8] =
    b"H\tVN:Z:1.0\nS\t0\tA\nS\t1\tC\nS\t2\tG\nL\t0\t+\t1\t+\t0M\nP\twalk\t0+,1+,2-\t*\n";

#[test]
fn session_steps_give_the_events_of_a_whole_load() {
    let mut gfa = MmapGFA::new(MINIMAL);
    let mut session = LoadSession::start(&mut gfa).unwrap();
    let mut stepped = Vec::new();
    while let Some(m) = session.step(&mut gfa).unwrap() {
        stepped.push(m);
    }
    let graph = session.into_graph().unwrap();
    assert_eq!(graph.node_count(), 3);
    assert_eq!(graph.edge_count(), 1);
    assert_eq!(graph.path_count(), 1);
    assert!(graph.has_node(NodeId::from(3u64)));
    assert!(graph.has_edge(Handle::pack(1u64, false), Handle::pack(2u64, false)));

    let mut batch = Vec::new();
    load_graph(&mut MmapGFA::new(MINIMAL), &mut batch).unwrap();
    let kinds = |ms: &[LoadGFAMsg]| -> Vec<LoadGFAMsg> {
        ms.iter().copied().filter(|m| !matches!(m, LoadGFAMsg::Bytes(_))).collect()
    };
    stepped.push(LoadGFAMsg::Done);
    assert_eq!(kinds(&stepped), kinds(&batch));

    let mut view = LoadGFAView::new("minimal.gfa");
    for m in stepped {
        if view.receive(m) {
            break;
        }
    }
    assert_eq!((view.nodes_added(), view.edges_added(), view.paths_added()), (3, 1, 1));
}

#[test]
fn session_stops_at_the_first_failing_record() {
    let mut gfa = MmapGFA::new(b"S\t1\tA\nL\t1\t+\t99\t+\t0M\n");
    let mut session = LoadSession::start(&mut gfa).unwrap();
    assert_eq!(session.step(&mut gfa), Ok(Some(LoadGFAMsg::Node)));
    assert!(matches!(session.step(&mut gfa), Ok(Some(LoadGFAMsg::Bytes(_)))));
    assert_eq!(session.step(&mut gfa), Err(LoadError::MissingNode { offset: 6, id: 99 }));
}

#[test]
fn session_start_fails_on_a_bad_segment_name() {
    let mut gfa = MmapGFA::new(b"S\tx\tA\n");
    assert_eq!(LoadSession::start(&mut gfa).err(), Some(LoadError::InvalidSegmentName { offset: 0 }));
}

#[test]
fn unfinished_session_has_no_graph() {
    let mut gfa = MmapGFA::new(b"S\t1\tA\n");
    let session = LoadSession::start(&mut gfa).unwrap();
    assert!(session.into_graph().is_none());
}

#[test]
fn empty_file_session_finishes_empty() {
    let mut gfa = MmapGFA::new(b"");
    let mut session = LoadSession::start(&mut gfa).unwrap();
    let mut n = 0;
    while session.step(&mut gfa).unwrap().is_some() {
        n += 1;
    }
    assert_eq!(n, 4);
    let graph = session.into_graph().unwrap();
    assert_eq!(graph.node_count(), 0);
    assert_eq!(graph.edge_count(), 0);
}
