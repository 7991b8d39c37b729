//! Building a handle graph from a GFA file's line index, in three passes:
//! segments, then links, then paths.
use vstd::prelude::*;
use crate::error::LoadError;
use crate::graph::{
    append_step, create_edge, create_node, create_path, empty_graph, graph_edges, graph_nodes,
    graph_paths, has_node, has_path_named, total_bytes, HandleModel, NODE_ID_LIMIT,
};
use crate::interface::{
    ends_with_done, finished_stream, not_bytes, repeat_msg, tally, without_bytes, LoadGFAMsg,
};
use crate::load_spec::{
    lemma_links_done_at, lemma_names_done_at, lemma_segments_done_at, links_done, load_progress,
    names_done, progress_events, segments_done, add_link, add_segment, lemma_links_sticks, lemma_names_len, lemma_names_sticks,
    lemma_placeholder_named, lemma_remap_steps_sticks, lemma_segments_sticks, lemma_steps_len,
    lemma_steps_sticks, lemma_zero_seen_sticks, link_lines, links_after, load_spec, model_of,
    path_lines, path_names_after, path_steps_after, placeholders, remap_offset, remap_steps,
    remapped, segment_lines, segments_after, steps_of_path, zero_id_seen,
};
use crate::mmap_gfa::{
    lemma_line_end_bounds, line_at, marked_lines, second_field, starts_marked_line, LineIndices,
    MmapGFA, LINK_MARKER, PATH_MARKER, SEGMENT_MARKER,
};
use crate::record::{check_steps_well_formed, parse_decimal, path_steps, record_of, Record};
use handlegraph::packedgraph::PackedGraph;

verus! {

/// An indexed offset starts a non-empty line of the file.
pub(crate) proof fn lemma_indexed_line(d: Seq<u8>, marker: u8, k: int)
    requires
        d.len() <= usize::MAX,
        0 <= k < marked_lines(d, marker).len(),
    ensures
        starts_marked_line(d, marker, marked_lines(d, marker)[k] as int),
        line_at(d, marked_lines(d, marker)[k] as int).len() > 0,
{
    let f = |i: int| i as usize;
    let all = Seq::new(d.len(), f);
    all.lemma_filter_pred(crate::mmap_gfa::marked_pred(d, marker), k);
    lemma_line_end_bounds(d, marked_lines(d, marker)[k] as int);
}

/// Reads and parses the indexed line at `o`.
fn record_at(mmap: &mut MmapGFA, o: usize) -> (r: Result<Record, LoadError>)
    requires
        old(mmap).wf(),
        o < old(mmap).bytes().len(),
        line_at(old(mmap).bytes(), o as int).len() > 0,
    ensures
        final(mmap).wf(),
        final(mmap).bytes() == old(mmap).bytes(),
        r == record_of(line_at(old(mmap).bytes(), o as int), o),
{
    match mmap.read_line_at(o) {
        Ok(_) => {},
        Err(e) => {
            return Err(e);
        },
    }
    mmap.parse_current_line()
}

/// Reads the name field of the indexed line at `o`.
fn name_at(mmap: &mut MmapGFA, o: usize) -> (r: Option<Vec<u8>>)
    requires
        old(mmap).wf(),
        o < old(mmap).bytes().len(),
    ensures
        final(mmap).wf(),
        final(mmap).bytes() == old(mmap).bytes(),
        r matches Some(n) ==> second_field(line_at(old(mmap).bytes(), o as int)) == Some(n@),
        r is None ==> second_field(line_at(old(mmap).bytes(), o as int)) is None,
{
    match mmap.read_line_at(o) {
        Ok(_) => {},
        Err(_) => {
            return None;
        },
    }
    match mmap.current_line_name() {
        Some(name) => Some(vstd::slice::slice_to_vec(name)),
        None => None,
    }
}

/// The events appended to `before` to make `after`.
pub open spec fn added(before: Seq<LoadGFAMsg>, after: Seq<LoadGFAMsg>) -> Seq<LoadGFAMsg> {
    after.subrange(before.len() as int, after.len() as int)
}

/// Whether `after` is `before` with events other than `Done` appended.
pub open spec fn emitted(before: Seq<LoadGFAMsg>, after: Seq<LoadGFAMsg>) -> bool {
    &&& before.len() <= after.len()
    &&& after.subrange(0, before.len() as int) == before
    &&& forall|j: int| before.len() <= j < after.len() ==> after[j] != LoadGFAMsg::Done
}

proof fn lemma_emit(before: Seq<LoadGFAMsg>, mid: Seq<LoadGFAMsg>, m: LoadGFAMsg)
    requires
        emitted(before, mid),
        m != LoadGFAMsg::Done,
    ensures
        emitted(before, mid.push(m)),
        added(before, mid.push(m)) == added(before, mid).push(m),
{
    assert(mid.push(m).subrange(0, before.len() as int) =~= mid.subrange(0, before.len() as int));
    assert(added(before, mid.push(m)) =~= added(before, mid).push(m));
}

proof fn lemma_without_bytes_push(s: Seq<LoadGFAMsg>, m: LoadGFAMsg)
    ensures
        without_bytes(s.push(m)) == if m is Bytes {
            without_bytes(s)
        } else {
            without_bytes(s).push(m)
        },
{
    s.lemma_filter_push(m, not_bytes());
}

proof fn lemma_without_bytes_empty()
    ensures
        without_bytes(Seq::empty()) == Seq::<LoadGFAMsg>::empty(),
{
    reveal(Seq::filter);
}

/// One more event `m` after `n` of them.
proof fn lemma_repeat_push(m: LoadGFAMsg, n: nat)
    ensures
        repeat_msg(m, n).push(m) == repeat_msg(m, n + 1),
{
    assert(repeat_msg(m, n).push(m) =~= repeat_msg(m, n + 1));
}

proof fn lemma_tally_push(s: Seq<LoadGFAMsg>, m: LoadGFAMsg)
    ensures
        tally(s.push(m)) == (
            tally(s).0 + tally(seq![m]).0,
            tally(s).1 + tally(seq![m]).1,
            tally(s).2 + tally(seq![m]).2,
        ),
{
    assert(s.push(m) =~= s + seq![m]);
    crate::interface::lemma_tally_add(s, seq![m]);
}

/// Shifts a raw identifier by the remap offset.
pub(crate) fn remap_id(id: usize, remap: u64) -> (r: Option<u64>)
    requires
        remap <= 1,
    ensures
        r == remapped(id, remap),
{
    let id64 = id as u64;
    if id64 < NODE_ID_LIMIT - remap {
        Some(id64 + remap)
    } else {
        None
    }
}

/// Identifier scan: reads the name of every segment and returns the remap offset.
pub(crate) fn scan_remap_offset(mmap: &mut MmapGFA, s: &Vec<usize>) -> (r: Result<u64, LoadError>)
    requires
        old(mmap).wf(),
        s@ == segment_lines(old(mmap).bytes()),
    ensures
        final(mmap).wf(),
        final(mmap).bytes() == old(mmap).bytes(),
        r == remap_offset(old(mmap).bytes(), s@),
{
    let ghost d = mmap.bytes();
    proof {
        mmap.lemma_bytes_fit();
    }
    let mut min_id: usize = usize::MAX;
    let mut i: usize = 0;
    while i < s.len()
        invariant
            mmap.wf(),
            mmap.bytes() == d,
            d == old(mmap).bytes(),
            d.len() <= usize::MAX,
            s@ == segment_lines(d),
            i <= s@.len(),
            zero_id_seen(d, s@, i as int) == Ok::<bool, LoadError>(min_id == 0),
        decreases s@.len() - i,
    {
        let o = s[i];
        proof {
            lemma_indexed_line(d, SEGMENT_MARKER, i as int);
        }
        let name = match name_at(mmap, o) {
            Some(n) => n,
            None => {
                proof {
                    lemma_zero_seen_sticks(d, s@, i + 1, s@.len() as int);
                }
                return Err(LoadError::MissingName { offset: o });
            },
        };
        match parse_decimal(name.as_slice()) {
            Some(id) => {
                if id < min_id {
                    min_id = id;
                }
            },
            None => {
                proof {
                    lemma_zero_seen_sticks(d, s@, i + 1, s@.len() as int);
                }
                return Err(LoadError::InvalidSegmentName { offset: o });
            },
        }
        i += 1;
    }
    if min_id == 0 {
        Ok(1)
    } else {
        Ok(0)
    }
}

/// Adds the node of the segment line at `o`.
pub(crate) fn add_one_segment(mmap: &mut MmapGFA, o: usize, remap: u64, g: &mut PackedGraph) -> (r: Result<
    (),
    LoadError,
>)
    requires
        old(mmap).wf(),
        o < old(mmap).bytes().len(),
        line_at(old(mmap).bytes(), o as int).len() > 0,
        remap <= 1,
    ensures
        final(mmap).wf(),
        final(mmap).bytes() == old(mmap).bytes(),
        graph_edges(*final(g)) == graph_edges(*old(g)),
        graph_paths(*final(g)) == graph_paths(*old(g)),
        match add_segment(old(mmap).bytes(), o, remap, graph_nodes(*old(g))) {
            Ok(m) => r is Ok && graph_nodes(*final(g)) == m,
            Err(e) => r == Err::<(), LoadError>(e),
        },
{
    match record_at(mmap, o) {
        Err(e) => Err(e),
        Ok(Record::Segment { name, sequence }) => {
            let id = match remap_id(name, remap) {
                Some(id) => id,
                None => {
                    return Err(LoadError::IdOverflow { offset: o });
                },
            };
            if id == 0 {
                return Err(LoadError::InvalidSegmentName { offset: o });
            }
            if sequence.len() == 0 {
                return Err(LoadError::EmptySequence { offset: o });
            }
            if has_node(g, id) {
                return Err(LoadError::DuplicateNode { offset: o, id });
            }
            create_node(g, sequence.as_slice(), id);
            Ok(())
        },
        Ok(_) => Err(LoadError::UnexpectedRecord { offset: o }),
    }
}

/// Segment pass: adds one node per segment line, in index order.
fn add_segments(
    mmap: &mut MmapGFA,
    s: &Vec<usize>,
    remap: u64,
    g: &mut PackedGraph,
    events: &mut Vec<LoadGFAMsg>,
) -> (r: Result<(), LoadError>)
    requires
        old(mmap).wf(),
        s@ == segment_lines(old(mmap).bytes()),
        remap <= 1,
        graph_nodes(*old(g)).dom().is_empty(),
    ensures
        final(mmap).wf(),
        final(mmap).bytes() == old(mmap).bytes(),
        graph_edges(*final(g)) == graph_edges(*old(g)),
        graph_paths(*final(g)) == graph_paths(*old(g)),
        match segments_after(old(mmap).bytes(), s@, remap, s@.len() as int) {
            Ok(m) => r is Ok && graph_nodes(*final(g)) == m,
            Err(e) => r == Err::<(), LoadError>(e),
        },
        emitted(old(events)@, final(events)@),
        r is Ok ==> tally(added(old(events)@, final(events)@)) == (s@.len(), 0nat, 0nat),
        without_bytes(added(old(events)@, final(events)@)) == repeat_msg(
            LoadGFAMsg::Node,
            segments_done(old(mmap).bytes(), s@, remap, s@.len() as int),
        ),
{
    let ghost d = mmap.bytes();
    let ghost g0 = *g;
    let ghost ev0 = events@;
    proof {
        mmap.lemma_bytes_fit();
        assert(graph_nodes(*g) =~= Map::empty());
        assert(added(ev0, events@) =~= Seq::empty());
        assert(events@.subrange(0, ev0.len() as int) =~= ev0);
        lemma_without_bytes_empty();
        assert(repeat_msg(LoadGFAMsg::Node, 0) =~= Seq::empty());
        assert(repeat_msg(LoadGFAMsg::Edge, 0) =~= Seq::empty());
        assert(repeat_msg(LoadGFAMsg::Path, 0) =~= Seq::empty());
    }
    let mut i: usize = 0;
    while i < s.len()
        invariant
            mmap.wf(),
            mmap.bytes() == d,
            d == old(mmap).bytes(),
            g0 == *old(g),
            ev0 == old(events)@,
            d.len() <= usize::MAX,
            s@ == segment_lines(d),
            i <= s@.len(),
            remap <= 1,
            segments_after(d, s@, remap, i as int) == Ok::<Map<u64, Seq<u8>>, LoadError>(graph_nodes(*g)),
            graph_edges(*g) == graph_edges(g0),
            graph_paths(*g) == graph_paths(g0),
            emitted(ev0, events@),
            tally(added(ev0, events@)) == (i as nat, 0nat, 0nat),
            without_bytes(added(ev0, events@)) == repeat_msg(LoadGFAMsg::Node, i as nat),
        decreases s@.len() - i,
    {
        let o = s[i];
        proof {
            lemma_indexed_line(d, SEGMENT_MARKER, i as int);
        }
        match add_one_segment(mmap, o, remap, g) {
            Ok(()) => {},
            Err(e) => {
                proof {
                    lemma_segments_sticks(d, s@, remap, i + 1, s@.len() as int);
                    lemma_segments_done_at(d, s@, remap, i as int, s@.len() as int);
                }
                return Err(e);
            },
        }
        proof {
            lemma_emit(ev0, events@, LoadGFAMsg::Node);
            lemma_without_bytes_push(added(ev0, events@), LoadGFAMsg::Node);
            lemma_repeat_push(LoadGFAMsg::Node, i as nat);
            lemma_tally_push(added(ev0, events@), LoadGFAMsg::Node);
            crate::interface::lemma_tally_one(LoadGFAMsg::Node);
        }
        events.push(LoadGFAMsg::Node);
        i += 1;
    }
    Ok(())
}

/// Adds the edge of the link line at `o`.
pub(crate) fn add_one_link(mmap: &mut MmapGFA, o: usize, remap: u64, g: &mut PackedGraph) -> (r: Result<
    (),
    LoadError,
>)
    requires
        old(mmap).wf(),
        o < old(mmap).bytes().len(),
        line_at(old(mmap).bytes(), o as int).len() > 0,
        remap <= 1,
    ensures
        final(mmap).wf(),
        final(mmap).bytes() == old(mmap).bytes(),
        graph_nodes(*final(g)) == graph_nodes(*old(g)),
        graph_paths(*final(g)) == graph_paths(*old(g)),
        match add_link(old(mmap).bytes(), o, remap, graph_nodes(*old(g)), graph_edges(*old(g))) {
            Ok(es) => r is Ok && graph_edges(*final(g)) == es,
            Err(e) => r == Err::<(), LoadError>(e),
        },
{
    match record_at(mmap, o) {
        Err(e) => Err(e),
        Ok(Record::Link { from_segment, from_reverse, to_segment, to_reverse }) => {
            match (remap_id(from_segment, remap), remap_id(to_segment, remap)) {
                (Some(f), Some(t)) => {
                    if !has_node(g, f) {
                        return Err(LoadError::MissingNode { offset: o, id: f });
                    }
                    if !has_node(g, t) {
                        return Err(LoadError::MissingNode { offset: o, id: t });
                    }
                    create_edge(g, (f, from_reverse), (t, to_reverse));
                    Ok(())
                },
                _ => Err(LoadError::IdOverflow { offset: o }),
            }
        },
        Ok(_) => Err(LoadError::UnexpectedRecord { offset: o }),
    }
}

/// Link pass: adds one edge per link line, in index order.
fn add_links(
    mmap: &mut MmapGFA,
    l: &Vec<usize>,
    remap: u64,
    g: &mut PackedGraph,
    events: &mut Vec<LoadGFAMsg>,
) -> (r: Result<(), LoadError>)
    requires
        old(mmap).wf(),
        l@ == link_lines(old(mmap).bytes()),
        remap <= 1,
        graph_edges(*old(g)).is_empty(),
    ensures
        final(mmap).wf(),
        final(mmap).bytes() == old(mmap).bytes(),
        graph_nodes(*final(g)) == graph_nodes(*old(g)),
        graph_paths(*final(g)) == graph_paths(*old(g)),
        match links_after(old(mmap).bytes(), l@, remap, graph_nodes(*old(g)), l@.len() as int) {
            Ok(es) => r is Ok && graph_edges(*final(g)) == es,
            Err(e) => r == Err::<(), LoadError>(e),
        },
        emitted(old(events)@, final(events)@),
        r is Ok ==> tally(added(old(events)@, final(events)@)) == (0nat, l@.len(), 0nat),
        without_bytes(added(old(events)@, final(events)@)) == repeat_msg(
            LoadGFAMsg::Edge,
            links_done(old(mmap).bytes(), l@, remap, graph_nodes(*old(g)), l@.len() as int),
        ),
{
    let ghost d = mmap.bytes();
    let ghost g0 = *g;
    let ghost ev0 = events@;
    proof {
        mmap.lemma_bytes_fit();
        assert(graph_edges(*g) =~= Set::empty());
        assert(added(ev0, events@) =~= Seq::empty());
        assert(events@.subrange(0, ev0.len() as int) =~= ev0);
        lemma_without_bytes_empty();
        assert(repeat_msg(LoadGFAMsg::Node, 0) =~= Seq::empty());
        assert(repeat_msg(LoadGFAMsg::Edge, 0) =~= Seq::empty());
        assert(repeat_msg(LoadGFAMsg::Path, 0) =~= Seq::empty());
    }
    let mut i: usize = 0;
    while i < l.len()
        invariant
            mmap.wf(),
            mmap.bytes() == d,
            d == old(mmap).bytes(),
            g0 == *old(g),
            ev0 == old(events)@,
            d.len() <= usize::MAX,
            l@ == link_lines(d),
            i <= l@.len(),
            remap <= 1,
            links_after(d, l@, remap, graph_nodes(g0), i as int) == Ok::<
                Set<(u64, bool, u64, bool)>,
                LoadError,
            >(graph_edges(*g)),
            graph_nodes(*g) == graph_nodes(g0),
            graph_paths(*g) == graph_paths(g0),
            emitted(ev0, events@),
            tally(added(ev0, events@)) == (0nat, i as nat, 0nat),
            without_bytes(added(ev0, events@)) == repeat_msg(LoadGFAMsg::Edge, i as nat),
        decreases l@.len() - i,
    {
        let o = l[i];
        proof {
            lemma_indexed_line(d, LINK_MARKER, i as int);
        }
        match add_one_link(mmap, o, remap, g) {
            Ok(()) => {},
            Err(e) => {
                proof {
                    lemma_links_sticks(d, l@, remap, graph_nodes(g0), i + 1, l@.len() as int);
                    lemma_links_done_at(d, l@, remap, graph_nodes(g0), i as int, l@.len() as int);
                }
                return Err(e);
            },
        }
        proof {
            lemma_emit(ev0, events@, LoadGFAMsg::Edge);
            lemma_without_bytes_push(added(ev0, events@), LoadGFAMsg::Edge);
            lemma_repeat_push(LoadGFAMsg::Edge, i as nat);
            lemma_tally_push(added(ev0, events@), LoadGFAMsg::Edge);
            crate::interface::lemma_tally_one(LoadGFAMsg::Edge);
        }
        events.push(LoadGFAMsg::Edge);
        i += 1;
    }
    Ok(())
}

/// Creates the empty path named by the path line at `o`.
pub(crate) fn add_one_path_name(mmap: &mut MmapGFA, o: usize, g: &mut PackedGraph) -> (r: Result<(), LoadError>)
    requires
        old(mmap).wf(),
        o < old(mmap).bytes().len(),
    ensures
        final(mmap).wf(),
        final(mmap).bytes() == old(mmap).bytes(),
        graph_nodes(*final(g)) == graph_nodes(*old(g)),
        graph_edges(*final(g)) == graph_edges(*old(g)),
        match second_field(line_at(old(mmap).bytes(), o as int)) {
            None => r == Err::<(), LoadError>(LoadError::MissingName { offset: o }),
            Some(n) => if has_path_named(graph_paths(*old(g)), n) {
                r == Err::<(), LoadError>(LoadError::DuplicatePath { offset: o })
            } else {
                r is Ok && graph_paths(*final(g)) == graph_paths(*old(g)).push(
                    (n, Seq::<HandleModel>::empty()),
                )
            },
        },
{
    let name = match name_at(mmap, o) {
        Some(n) => n,
        None => {
            return Err(LoadError::MissingName { offset: o });
        },
    };
    match create_path(g, name.as_slice()) {
        Some(_) => Ok(()),
        None => Err(LoadError::DuplicatePath { offset: o }),
    }
}

/// First stage of the path pass: one empty path per path line, named by
/// its name field, in index order.
fn add_path_names(mmap: &mut MmapGFA, p: &Vec<usize>, g: &mut PackedGraph, events: &mut Vec<LoadGFAMsg>) -> (r:
    Result<(), LoadError>)
    requires
        old(mmap).wf(),
        p@ == path_lines(old(mmap).bytes()),
        graph_paths(*old(g)).len() == 0,
    ensures
        final(mmap).wf(),
        final(mmap).bytes() == old(mmap).bytes(),
        graph_nodes(*final(g)) == graph_nodes(*old(g)),
        graph_edges(*final(g)) == graph_edges(*old(g)),
        match path_names_after(old(mmap).bytes(), p@, p@.len() as int) {
            Ok(names) => r is Ok && graph_paths(*final(g)) == placeholders(names),
            Err(e) => r == Err::<(), LoadError>(e),
        },
        emitted(old(events)@, final(events)@),
        r is Ok ==> tally(added(old(events)@, final(events)@)) == (0nat, 0nat, p@.len()),
        without_bytes(added(old(events)@, final(events)@)) == repeat_msg(
            LoadGFAMsg::Path,
            names_done(old(mmap).bytes(), p@, p@.len() as int),
        ),
{
    let ghost d = mmap.bytes();
    let ghost g0 = *g;
    let ghost ev0 = events@;
    let ghost mut names: Seq<Seq<u8>> = Seq::empty();
    proof {
        mmap.lemma_bytes_fit();
        assert(graph_paths(*g) =~= placeholders(names));
        assert(added(ev0, events@) =~= Seq::empty());
        assert(events@.subrange(0, ev0.len() as int) =~= ev0);
        lemma_without_bytes_empty();
        assert(repeat_msg(LoadGFAMsg::Node, 0) =~= Seq::empty());
        assert(repeat_msg(LoadGFAMsg::Edge, 0) =~= Seq::empty());
        assert(repeat_msg(LoadGFAMsg::Path, 0) =~= Seq::empty());
    }
    let mut i: usize = 0;
    while i < p.len()
        invariant
            mmap.wf(),
            mmap.bytes() == d,
            d == old(mmap).bytes(),
            g0 == *old(g),
            ev0 == old(events)@,
            d.len() <= usize::MAX,
            p@ == path_lines(d),
            i <= p@.len(),
            path_names_after(d, p@, i as int) == Ok::<Seq<Seq<u8>>, LoadError>(names),
            graph_paths(*g) == placeholders(names),
            graph_nodes(*g) == graph_nodes(g0),
            graph_edges(*g) == graph_edges(g0),
            emitted(ev0, events@),
            tally(added(ev0, events@)) == (0nat, 0nat, i as nat),
            without_bytes(added(ev0, events@)) == repeat_msg(LoadGFAMsg::Path, i as nat),
        decreases p@.len() - i,
    {
        let o = p[i];
        proof {
            lemma_indexed_line(d, PATH_MARKER, i as int);
            if let Some(n) = second_field(line_at(d, o as int)) {
                lemma_placeholder_named(names, n);
            }
        }
        match add_one_path_name(mmap, o, g) {
            Ok(()) => {},
            Err(e) => {
                proof {
                    lemma_names_sticks(d, p@, i + 1, p@.len() as int);
                    lemma_names_done_at(d, p@, i as int, p@.len() as int);
                }
                return Err(e);
            },
        }
        proof {
            let n = second_field(line_at(d, o as int)).unwrap();
            assert(placeholders(names.push(n)) =~= placeholders(names).push((n, Seq::<HandleModel>::empty())));
            names = names.push(n);
            lemma_emit(ev0, events@, LoadGFAMsg::Path);
            lemma_without_bytes_push(added(ev0, events@), LoadGFAMsg::Path);
            lemma_repeat_push(LoadGFAMsg::Path, i as nat);
            lemma_tally_push(added(ev0, events@), LoadGFAMsg::Path);
            crate::interface::lemma_tally_one(LoadGFAMsg::Path);
        }
        events.push(LoadGFAMsg::Path);
        i += 1;
    }
    Ok(())
}

/// Appends the steps of the path line at `o` to path `k`.
pub(crate) fn append_one_path(mmap: &mut MmapGFA, o: usize, remap: u64, g: &mut PackedGraph, k: u64) -> (r: Result<
    (),
    LoadError,
>)
    requires
        old(mmap).wf(),
        o < old(mmap).bytes().len(),
        line_at(old(mmap).bytes(), o as int).len() > 0,
        remap <= 1,
        k < graph_paths(*old(g)).len(),
        graph_paths(*old(g))[k as int].1.len() == 0,
    ensures
        final(mmap).wf(),
        final(mmap).bytes() == old(mmap).bytes(),
        graph_nodes(*final(g)) == graph_nodes(*old(g)),
        graph_edges(*final(g)) == graph_edges(*old(g)),
        match steps_of_path(old(mmap).bytes(), o, remap, graph_nodes(*old(g))) {
            Ok(hs) => r is Ok && graph_paths(*final(g)) == graph_paths(*old(g)).update(
                k as int,
                (graph_paths(*old(g))[k as int].0, hs),
            ),
            Err(e) => r == Err::<(), LoadError>(e),
        },
{
    match record_at(mmap, o) {
        Err(e) => Err(e),
        Ok(Record::Path { path_name: _, segment_names }) => {
            if !check_steps_well_formed(&segment_names) {
                return Err(LoadError::MalformedStep { offset: o });
            }
            let steps = path_steps(&segment_names);
            let ghost p0 = graph_paths(*g);
            let ghost nodes = graph_nodes(*g);
            let ghost g0 = *g;
            proof {
                assert(steps_of_path(old(mmap).bytes(), o, remap, nodes) == remap_steps(
                    steps@,
                    remap,
                    nodes,
                    o,
                    steps@.len() as int,
                ));
                assert(p0[k as int].1 =~= Seq::<HandleModel>::empty());
                assert(p0.update(k as int, (p0[k as int].0, Seq::<HandleModel>::empty())) =~= p0);
            }
            let mut j: usize = 0;
            while j < steps.len()
                invariant
                    mmap.wf(),
                    mmap.bytes() == old(mmap).bytes(),
                    steps_of_path(old(mmap).bytes(), o, remap, nodes) == remap_steps(
                        steps@,
                        remap,
                        nodes,
                        o,
                        steps@.len() as int,
                    ),
                    g0 == *old(g),
                    p0 == graph_paths(g0),
                    nodes == graph_nodes(g0),
                    remap <= 1,
                    k < p0.len(),
                    j <= steps@.len(),
                    graph_nodes(*g) == nodes,
                    graph_edges(*g) == graph_edges(g0),
                    remap_steps(steps@, remap, nodes, o, j as int) is Ok,
                    graph_paths(*g) == p0.update(
                        k as int,
                        (p0[k as int].0, remap_steps(steps@, remap, nodes, o, j as int).unwrap()),
                    ),
                decreases steps@.len() - j,
            {
                let (id, rev) = steps[j];
                let h = match remap_id(id, remap) {
                    Some(h) => h,
                    None => {
                        proof {
                            lemma_remap_steps_sticks(steps@, remap, nodes, o, j + 1, steps@.len() as int);
                        }
                        return Err(LoadError::IdOverflow { offset: o });
                    },
                };
                if !has_node(g, h) {
                    proof {
                        lemma_remap_steps_sticks(steps@, remap, nodes, o, j + 1, steps@.len() as int);
                    }
                    return Err(LoadError::MissingNode { offset: o, id: h });
                }
                append_step(g, k, (h, rev));
                proof {
                    assert(graph_paths(*g) =~= p0.update(
                        k as int,
                        (p0[k as int].0, remap_steps(steps@, remap, nodes, o, j + 1).unwrap()),
                    ));
                }
                j += 1;
            }
            Ok(())
        },
        Ok(_) => Err(LoadError::UnexpectedRecord { offset: o }),
    }
}

/// Second stage of the path pass: parses each path line and appends its
/// steps, remapped, to the path created for it.
fn append_all_paths(mmap: &mut MmapGFA, p: &Vec<usize>, remap: u64, g: &mut PackedGraph) -> (r: Result<
    (),
    LoadError,
>)
    requires
        old(mmap).wf(),
        p@ == path_lines(old(mmap).bytes()),
        remap <= 1,
        graph_paths(*old(g)).len() == p@.len(),
        forall|i: int| 0 <= i < p@.len() ==> (#[trigger] graph_paths(*old(g))[i]).1.len() == 0,
    ensures
        final(mmap).wf(),
        final(mmap).bytes() == old(mmap).bytes(),
        graph_nodes(*final(g)) == graph_nodes(*old(g)),
        graph_edges(*final(g)) == graph_edges(*old(g)),
        match path_steps_after(old(mmap).bytes(), p@, remap, graph_nodes(*old(g)), p@.len() as int) {
            Ok(all) => r is Ok && graph_paths(*final(g)) == Seq::new(
                p@.len(),
                |i: int| (graph_paths(*old(g))[i].0, all[i]),
            ),
            Err(e) => r == Err::<(), LoadError>(e),
        },
{
    let ghost d = mmap.bytes();
    let ghost g0 = *g;
    let ghost p0 = graph_paths(*g);
    let ghost nodes = graph_nodes(*g);
    proof {
        mmap.lemma_bytes_fit();
    }
    let mut i: usize = 0;
    while i < p.len()
        invariant
            mmap.wf(),
            mmap.bytes() == d,
            d == old(mmap).bytes(),
            g0 == *old(g),
            p0 == graph_paths(g0),
            nodes == graph_nodes(g0),
            d.len() <= usize::MAX,
            p@ == path_lines(d),
            i <= p@.len(),
            remap <= 1,
            p0.len() == p@.len(),
            forall|j: int| 0 <= j < p@.len() ==> (#[trigger] p0[j]).1.len() == 0,
            path_steps_after(d, p@, remap, nodes, i as int) is Ok,
            graph_nodes(*g) == nodes,
            graph_edges(*g) == graph_edges(g0),
            graph_paths(*g).len() == p0.len(),
            forall|j: int|
                0 <= j < i ==> #[trigger] graph_paths(*g)[j] == (
                    p0[j].0,
                    path_steps_after(d, p@, remap, nodes, i as int).unwrap()[j],
                ),
            forall|j: int| i <= j < p0.len() ==> #[trigger] graph_paths(*g)[j] == p0[j],
        decreases p@.len() - i,
    {
        let o = p[i];
        proof {
            lemma_indexed_line(d, PATH_MARKER, i as int);
            lemma_steps_len(d, p@, remap, nodes, i as int);
        }
        match append_one_path(mmap, o, remap, g, i as u64) {
            Ok(()) => {},
            Err(e) => {
                proof {
                    lemma_steps_sticks(d, p@, remap, nodes, i + 1, p@.len() as int);
                }
                return Err(e);
            },
        }
        i += 1;
    }
    proof {
        let all = path_steps_after(d, p@, remap, nodes, p@.len() as int).unwrap();
        assert(graph_paths(*g) =~= Seq::new(p@.len(), |i: int| (p0[i].0, all[i])));
    }
    Ok(())
}

proof fn lemma_added_chain(a: Seq<LoadGFAMsg>, b: Seq<LoadGFAMsg>, c: Seq<LoadGFAMsg>)
    requires
        emitted(a, b),
        emitted(b, c),
    ensures
        emitted(a, c),
        added(a, c) == added(a, b) + added(b, c),
        tally(added(a, c)).0 == tally(added(a, b)).0 + tally(added(b, c)).0,
        tally(added(a, c)).1 == tally(added(a, b)).1 + tally(added(b, c)).1,
        tally(added(a, c)).2 == tally(added(a, b)).2 + tally(added(b, c)).2,
        without_bytes(added(a, c)) == without_bytes(added(a, b)) + without_bytes(added(b, c)),
{
    assert(c.subrange(0, a.len() as int) =~= c.subrange(0, b.len() as int).subrange(0, a.len() as int));
    assert forall|j: int| a.len() <= j < c.len() implies c[j] != LoadGFAMsg::Done by {
        if j < b.len() {
            assert(c[j] == c.subrange(0, b.len() as int)[j]);
        }
    }
    assert(added(a, c) =~= added(a, b) + added(b, c));
    crate::interface::lemma_tally_add(added(a, b), added(b, c));
    Seq::filter_distributes_over_add(added(a, b), added(b, c), not_bytes());
}

/// Appends a snapshot of the graph's size to the events.
fn emit_bytes(g: &PackedGraph, events: &mut Vec<LoadGFAMsg>)
    ensures
        emitted(old(events)@, final(events)@),
        tally(added(old(events)@, final(events)@)) == (0nat, 0nat, 0nat),
        without_bytes(added(old(events)@, final(events)@)) == Seq::<LoadGFAMsg>::empty(),
{
    let ghost ev0 = events@;
    let b = total_bytes(g);
    proof {
        assert(added(ev0, events@) =~= Seq::empty());
        assert(events@.subrange(0, ev0.len() as int) =~= ev0);
        lemma_emit(ev0, events@, LoadGFAMsg::Bytes(b));
        lemma_tally_push(added(ev0, events@), LoadGFAMsg::Bytes(b));
        lemma_without_bytes_push(added(ev0, events@), LoadGFAMsg::Bytes(b));
        lemma_without_bytes_empty();
        crate::interface::lemma_tally_one(LoadGFAMsg::Bytes(b));
    }
    events.push(LoadGFAMsg::Bytes(b));
}

/// The three passes over an index of the whole file, into an empty graph.
fn run_passes(
    mmap: &mut MmapGFA,
    idx: &LineIndices,
    g: &mut PackedGraph,
    events: &mut Vec<LoadGFAMsg>,
) -> (r: Result<(), LoadError>)
    requires
        old(mmap).wf(),
        idx.indexes(old(mmap).bytes()),
        graph_nodes(*old(g)).dom().is_empty(),
        graph_edges(*old(g)).is_empty(),
        graph_paths(*old(g)).len() == 0,
    ensures
        final(mmap).wf(),
        final(mmap).bytes() == old(mmap).bytes(),
        match load_spec(old(mmap).bytes()) {
            Ok(m) => r is Ok && model_of(*final(g)) == m,
            Err(e) => r == Err::<(), LoadError>(e),
        },
        emitted(old(events)@, final(events)@),
        r is Ok ==> tally(added(old(events)@, final(events)@)) == (
            segment_lines(old(mmap).bytes()).len(),
            link_lines(old(mmap).bytes()).len(),
            path_lines(old(mmap).bytes()).len(),
        ),
        without_bytes(added(old(events)@, final(events)@)) == repeat_msg(
            LoadGFAMsg::Node,
            load_progress(old(mmap).bytes()).0,
        ) + repeat_msg(LoadGFAMsg::Edge, load_progress(old(mmap).bytes()).1) + repeat_msg(
            LoadGFAMsg::Path,
            load_progress(old(mmap).bytes()).2,
        ),
{
    let ghost d = mmap.bytes();
    let ghost ev0 = events@;
    let ghost s = idx.segments@;
    let ghost l = idx.links@;
    let ghost p = idx.paths@;
    let ghost empty = Seq::<LoadGFAMsg>::empty();
    proof {
        assert(events@.subrange(0, ev0.len() as int) =~= ev0);
        lemma_without_bytes_empty();
        assert(added(ev0, ev0) =~= empty);
        assert(repeat_msg(LoadGFAMsg::Node, 0) =~= empty);
        assert(repeat_msg(LoadGFAMsg::Edge, 0) =~= empty);
        assert(repeat_msg(LoadGFAMsg::Path, 0) =~= empty);
    }
    let remap = match scan_remap_offset(mmap, &idx.segments) {
        Ok(r) => r,
        Err(e) => {
            proof {
                assert(empty + empty + empty =~= empty);
            }
            return Err(e);
        },
    };
    let ghost ev1 = events@;
    match add_segments(mmap, &idx.segments, remap, g, events) {
        Ok(()) => {},
        Err(e) => {
            proof {
                let a = segments_done(d, s, remap, s.len() as int);
                assert(repeat_msg(LoadGFAMsg::Node, a) + empty + empty =~= repeat_msg(
                    LoadGFAMsg::Node,
                    a,
                ));
            }
            return Err(e);
        },
    }
    let ghost all_nodes = repeat_msg(LoadGFAMsg::Node, s.len());
    let ghost ev2 = events@;
    emit_bytes(g, events);
    let ghost ev3 = events@;
    let ghost nodes = graph_nodes(*g);
    match add_links(mmap, &idx.links, remap, g, events) {
        Ok(()) => {},
        Err(e) => {
            proof {
                lemma_added_chain(ev0, ev2, ev3);
                lemma_added_chain(ev0, ev3, events@);
                let b = links_done(d, l, remap, nodes, l.len() as int);
                assert(all_nodes + empty + repeat_msg(LoadGFAMsg::Edge, b) =~= all_nodes
                    + repeat_msg(LoadGFAMsg::Edge, b) + empty);
            }
            return Err(e);
        },
    }
    let ghost ev4 = events@;
    let ghost all_edges = repeat_msg(LoadGFAMsg::Edge, l.len());
    emit_bytes(g, events);
    let ghost ev5 = events@;
    match add_path_names(mmap, &idx.paths, g, events) {
        Ok(()) => {},
        Err(e) => {
            proof {
                lemma_added_chain(ev0, ev2, ev3);
                lemma_added_chain(ev0, ev3, ev4);
                lemma_added_chain(ev0, ev4, ev5);
                lemma_added_chain(ev0, ev5, events@);
                let c = names_done(d, p, p.len() as int);
                assert(all_nodes + empty + all_edges + empty + repeat_msg(LoadGFAMsg::Path, c)
                    =~= all_nodes + all_edges + repeat_msg(LoadGFAMsg::Path, c));
            }
            return Err(e);
        },
    }
    let ghost ev6 = events@;
    let ghost names = path_names_after(d, idx.paths@, idx.paths@.len() as int).unwrap();
    proof {
        lemma_names_len(d, idx.paths@, idx.paths@.len() as int);
    }
    let res = append_all_paths(mmap, &idx.paths, remap, g);
    proof {
        lemma_added_chain(ev0, ev2, ev3);
        lemma_added_chain(ev0, ev3, ev4);
        lemma_added_chain(ev0, ev4, ev5);
        lemma_added_chain(ev0, ev5, ev6);
        assert(all_nodes + empty + all_edges + empty + repeat_msg(LoadGFAMsg::Path, p.len())
            =~= all_nodes + all_edges + repeat_msg(LoadGFAMsg::Path, p.len()));
        if res is Ok {
            let all = path_steps_after(d, idx.paths@, remap, nodes, idx.paths@.len() as int).unwrap();
            assert(graph_paths(*g) =~= Seq::new(names.len(), |i: int| (names[i], all[i])));
        }
    }
    res
}

/// Loads the graph of a GFA file: indexes the file, scans the segment names
/// for the remap offset, then adds the nodes, the edges, and the paths with
/// their steps. Appends a progress event for each node, edge and path it
/// adds, a size snapshot after each pass, and finally one `Done` event,
/// whether the load succeeded or not. On failure the node, edge and path
/// events are those of the records added before the failing one, in pass
/// order, and no pass after the failing one emits any.
pub fn load_graph(mmap: &mut MmapGFA, events: &mut Vec<LoadGFAMsg>) -> (r: Result<PackedGraph, LoadError>)
    requires
        old(mmap).wf(),
    ensures
        final(mmap).wf(),
        final(mmap).bytes() == old(mmap).bytes(),
        match load_spec(old(mmap).bytes()) {
            Ok(m) => r matches Ok(g) && model_of(g) == m,
            Err(e) => r matches Err(x) && x == e,
        },
        final(events)@.len() > old(events)@.len(),
        final(events)@.subrange(0, old(events)@.len() as int) == old(events)@,
        ends_with_done(added(old(events)@, final(events)@)),
        r is Ok ==> finished_stream(
            added(old(events)@, final(events)@),
            segment_lines(old(mmap).bytes()).len(),
            link_lines(old(mmap).bytes()).len(),
            path_lines(old(mmap).bytes()).len(),
        ),
        without_bytes(added(old(events)@, final(events)@)) == progress_events(old(mmap).bytes()),
{
    let ghost ev0 = events@;
    let idx = mmap.build_index();
    let mut g = empty_graph();
    let res = run_passes(mmap, &idx, &mut g, events);
    let ghost ev1 = events@;
    proof {
        lemma_tally_push(added(ev0, ev1), LoadGFAMsg::Done);
        crate::interface::lemma_tally_one(LoadGFAMsg::Done);
    }
    events.push(LoadGFAMsg::Done);
    proof {
        assert(events@.subrange(0, ev0.len() as int) =~= ev1.subrange(0, ev0.len() as int));
        assert(added(ev0, events@) =~= added(ev0, ev1).push(LoadGFAMsg::Done));
        lemma_without_bytes_push(added(ev0, ev1), LoadGFAMsg::Done);
        let (a, b, c) = load_progress(mmap.bytes());
        assert(progress_events(mmap.bytes()) =~= (repeat_msg(LoadGFAMsg::Node, a) + repeat_msg(
            LoadGFAMsg::Edge,
            b,
        ) + repeat_msg(LoadGFAMsg::Path, c)).push(LoadGFAMsg::Done));
    }
    match res {
        Ok(()) => Ok(g),
        Err(e) => Err(e),
    }
}

/// Loads the graph of a GFA file as `load_graph` does, without progress events.
pub fn packed_graph_from_mmap(mmap: &mut MmapGFA) -> (r: Result<PackedGraph, LoadError>)
    requires
        old(mmap).wf(),
    ensures
        final(mmap).wf(),
        final(mmap).bytes() == old(mmap).bytes(),
        match load_spec(old(mmap).bytes()) {
            Ok(m) => r matches Ok(g) && model_of(g) == m,
            Err(e) => r matches Err(x) && x == e,
        },
{
    let mut events: Vec<LoadGFAMsg> = Vec::new();
    load_graph(mmap, &mut events)
}

/// The remap offset of the file: 1 where some segment is named 0, else 0.
pub fn identifier_remap(mmap: &mut MmapGFA) -> (r: Result<u64, LoadError>)
    requires
        old(mmap).wf(),
    ensures
        final(mmap).wf(),
        final(mmap).bytes() == old(mmap).bytes(),
        r == remap_offset(old(mmap).bytes(), segment_lines(old(mmap).bytes())),
{
    let idx = mmap.build_index();
    scan_remap_offset(mmap, &idx.segments)
}

} // verus!
