use gfa_loader::interface::{LoadGFAMsg, LoadGFAView};

#[test]
fn new_view_starts_at_zero() {
    let view = LoadGFAView::new("graph.gfa");
    assert_eq!(view.file_name(), "graph.gfa");
    assert_eq!(view.seconds_elapsed(), 0);
    assert_eq!(view.nodes_added(), 0);
    assert_eq!(view.edges_added(), 0);
    assert_eq!(view.paths_added(), 0);
    assert_eq!(view.bytes_used(), 0);
}

#[test]
fn apply_message_counts_and_replaces_bytes() {
    let mut view = LoadGFAView::new("g");
    view.apply_message(LoadGFAMsg::Node);
    view.apply_message(LoadGFAMsg::Node);
    view.apply_message(LoadGFAMsg::Edge);
    view.apply_message(LoadGFAMsg::Path);
    view.apply_message(LoadGFAMsg::Bytes(100));
    view.apply_message(LoadGFAMsg::Bytes(40));
    view.apply_message(LoadGFAMsg::Done);
    assert_eq!(view.nodes_added(), 2);
    assert_eq!(view.edges_added(), 1);
    assert_eq!(view.paths_added(), 1);
    assert_eq!(view.bytes_used(), 40);
}

#[test]
fn receive_stops_on_done_only() {
    let mut view = LoadGFAView::new("g");
    assert!(!view.receive(LoadGFAMsg::Edge));
    assert!(view.receive(LoadGFAMsg::Done));
    assert_eq!(view.edges_added(), 1);
}

#[test]
fn burst_within_a_second_redraws_at_most_once() {
    let mut view = LoadGFAView::new("g");
    let mut redraws = 0;
    for t in [1000u64, 1001, 1200, 1500, 1999] {
        if view.poll_render(t) {
            redraws += 1;
        }
    }
    assert_eq!(redraws, 1);
    assert_eq!(view.seconds_elapsed(), 1);
}

#[test]
fn poll_render_waits_a_full_second() {
    let mut view = LoadGFAView::new("g");
    assert!(!view.poll_render(999));
    assert!(view.poll_render(1000));
    assert!(!view.poll_render(1999));
    assert!(view.poll_render(2000));
    assert!(!view.poll_render(500));
    assert_eq!(view.seconds_elapsed(), 2);
}
