//! A load run one record at a time, so that a caller can hand on each
//! progress event as soon as the store has changed.
use vstd::prelude::*;
use crate::error::LoadError;
use crate::graph::{empty_graph, graph_edges, graph_nodes, graph_paths, total_bytes, HandleModel};
use crate::interface::LoadGFAMsg;
use crate::io::{
    add_one_link, add_one_path_name, add_one_segment, append_one_path, lemma_indexed_line,
    scan_remap_offset,
};
use crate::load_spec::{
    lemma_links_sticks, lemma_names_len, lemma_names_sticks, lemma_placeholder_named,
    lemma_segments_sticks, lemma_steps_len, lemma_steps_sticks, links_after, load_spec, model_of,
    path_names_after, path_steps_after, placeholders, remap_offset, segments_after, steps_of_path,
    GraphModel,
};
use crate::mmap_gfa::{
    line_at, second_field, LineIndices, MmapGFA, LINK_MARKER, PATH_MARKER, SEGMENT_MARKER,
};
use handlegraph::packedgraph::PackedGraph;

verus! {

/// The pass that a session is in.
#[derive(Debug, Clone, Copy, PartialEq, Eq, Structural)]
pub enum Stage {
    Segments,
    Links,
    PathNames,
    PathSteps,
    Finished,
}

/// A load in progress: the file's index, the remap offset, how far the
/// passes have got, and the graph built so far.
pub struct LoadSession {
    index: LineIndices,
    remap: u64,
    stage: Stage,
    next: usize,
    graph: PackedGraph,
    data: Ghost<Seq<u8>>,
}

impl LoadSession {
    /// The bytes of the file being loaded.
    pub closed spec fn data(&self) -> Seq<u8> {
        self.data@
    }

    pub closed spec fn is_finished(&self) -> bool {
        self.stage == Stage::Finished
    }

    pub closed spec fn wf(&self) -> bool {
        let d = self.data@;
        let s = self.index.segments@;
        let l = self.index.links@;
        let p = self.index.paths@;
        let g = self.graph;
        let r = self.remap;
        &&& self.index.indexes(d)
        &&& d.len() <= usize::MAX
        &&& remap_offset(d, s) == Ok::<u64, LoadError>(r)
        &&& r <= 1
        &&& match self.stage {
            Stage::Segments => {
                &&& self.next <= s.len()
                &&& segments_after(d, s, r, self.next as int) == Ok::<Map<u64, Seq<u8>>, LoadError>(
                    graph_nodes(g),
                )
                &&& graph_edges(g).is_empty()
                &&& graph_paths(g).len() == 0
            },
            Stage::Links => {
                &&& segments_after(d, s, r, s.len() as int) == Ok::<Map<u64, Seq<u8>>, LoadError>(
                    graph_nodes(g),
                )
                &&& self.next <= l.len()
                &&& links_after(d, l, r, graph_nodes(g), self.next as int) == Ok::<
                    Set<(u64, bool, u64, bool)>,
                    LoadError,
                >(graph_edges(g))
                &&& graph_paths(g).len() == 0
            },
            Stage::PathNames => {
                &&& segments_after(d, s, r, s.len() as int) == Ok::<Map<u64, Seq<u8>>, LoadError>(
                    graph_nodes(g),
                )
                &&& links_after(d, l, r, graph_nodes(g), l.len() as int) == Ok::<
                    Set<(u64, bool, u64, bool)>,
                    LoadError,
                >(graph_edges(g))
                &&& self.next <= p.len()
                &&& path_names_after(d, p, self.next as int) is Ok
                &&& graph_paths(g) == placeholders(path_names_after(d, p, self.next as int).unwrap())
            },
            Stage::PathSteps => {
                &&& segments_after(d, s, r, s.len() as int) == Ok::<Map<u64, Seq<u8>>, LoadError>(
                    graph_nodes(g),
                )
                &&& links_after(d, l, r, graph_nodes(g), l.len() as int) == Ok::<
                    Set<(u64, bool, u64, bool)>,
                    LoadError,
                >(graph_edges(g))
                &&& path_names_after(d, p, p.len() as int) is Ok
                &&& self.next <= p.len()
                &&& path_steps_after(d, p, r, graph_nodes(g), self.next as int) is Ok
                &&& graph_paths(g).len() == p.len()
                &&& forall|j: int|
                    0 <= j < p.len() ==> (#[trigger] graph_paths(g)[j]).0 == path_names_after(
                        d,
                        p,
                        p.len() as int,
                    ).unwrap()[j]
                &&& forall|j: int|
                    0 <= j < self.next ==> (#[trigger] graph_paths(g)[j]).1 == path_steps_after(
                        d,
                        p,
                        r,
                        graph_nodes(g),
                        self.next as int,
                    ).unwrap()[j]
                &&& forall|j: int|
                    self.next <= j < p.len() ==> (#[trigger] graph_paths(g)[j]).1.len() == 0
            },
            Stage::Finished => load_spec(d) == Ok::<GraphModel, LoadError>(model_of(g)),
        }
    }

    /// How many more steps the session takes before it is finished.
    pub closed spec fn remaining(&self) -> nat {
        let s = self.index.segments@.len() as int;
        let l = self.index.links@.len() as int;
        let p = self.index.paths@.len() as int;
        let n = self.next as int;
        (match self.stage {
            Stage::Segments => (s - n) + l + p + p + 4,
            Stage::Links => (l - n) + p + p + 3,
            Stage::PathNames => (p - n) + p + 2,
            Stage::PathSteps => (p - n) + 1,
            Stage::Finished => 0,
        }) as nat
    }

    /// Indexes the file and scans the segment names for the remap offset;
    /// the passes are then run by `step`.
    pub fn start(mmap: &mut MmapGFA) -> (r: Result<LoadSession, LoadError>)
        requires
            old(mmap).wf(),
        ensures
            final(mmap).wf(),
            final(mmap).bytes() == old(mmap).bytes(),
            match r {
                Ok(sess) => sess.wf() && sess.data() == old(mmap).bytes() && !sess.is_finished(),
                Err(e) => load_spec(old(mmap).bytes()) == Err::<GraphModel, LoadError>(e),
            },
    {
        let index = mmap.build_index();
        proof {
            mmap.lemma_bytes_fit();
        }
        let remap = match scan_remap_offset(mmap, &index.segments) {
            Ok(r) => r,
            Err(e) => {
                return Err(e);
            },
        };
        let graph = empty_graph();
        proof {
            assert(graph_nodes(graph) =~= Map::empty());
        }
        Ok(LoadSession { index, remap, stage: Stage::Segments, next: 0, graph, data: Ghost(mmap.bytes()) })
    }

    /// Takes one step of the load: adds the next node, edge or empty path and
    /// returns its event, or appends the next path's steps or ends a pass and
    /// returns a size snapshot. Returns `None` once the graph is complete, and the load's
    /// error where a record fails.
    pub fn step(&mut self, mmap: &mut MmapGFA) -> (r: Result<Option<LoadGFAMsg>, LoadError>)
        requires
            old(self).wf(),
            old(mmap).wf(),
            old(mmap).bytes() == old(self).data(),
        ensures
            final(mmap).wf(),
            final(mmap).bytes() == old(mmap).bytes(),
            final(self).data() == old(self).data(),
            match r {
                Ok(Some(m)) => final(self).wf() && final(self).remaining() < old(self).remaining() && m
                    != LoadGFAMsg::Done,
                Ok(None) => final(self).wf() && old(self).is_finished() && final(self).is_finished(),
                Err(e) => load_spec(old(self).data()) == Err::<GraphModel, LoadError>(e),
            },
    {
        let ghost d = self.data@;
        let ghost s = self.index.segments@;
        let ghost l = self.index.links@;
        let ghost p = self.index.paths@;
        let ghost r = self.remap;
        match self.stage {
            Stage::Segments => {
                if self.next < self.index.segments.len() {
                    let o = self.index.segments[self.next];
                    proof {
                        lemma_indexed_line(d, SEGMENT_MARKER, self.next as int);
                    }
                    match add_one_segment(mmap, o, self.remap, &mut self.graph) {
                        Ok(()) => {},
                        Err(e) => {
                            proof {
                                lemma_segments_sticks(d, s, r, self.next + 1, s.len() as int);
                            }
                            return Err(e);
                        },
                    }
                    self.next = self.next + 1;
                    Ok(Some(LoadGFAMsg::Node))
                } else {
                    self.stage = Stage::Links;
                    self.next = 0;
                    proof {
                        assert(graph_edges(self.graph) =~= Set::empty());
                    }
                    Ok(Some(LoadGFAMsg::Bytes(total_bytes(&self.graph))))
                }
            },
            Stage::Links => {
                if self.next < self.index.links.len() {
                    let o = self.index.links[self.next];
                    let ghost nodes = graph_nodes(self.graph);
                    proof {
                        lemma_indexed_line(d, LINK_MARKER, self.next as int);
                    }
                    match add_one_link(mmap, o, self.remap, &mut self.graph) {
                        Ok(()) => {},
                        Err(e) => {
                            proof {
                                lemma_links_sticks(d, l, r, nodes, self.next + 1, l.len() as int);
                            }
                            return Err(e);
                        },
                    }
                    self.next = self.next + 1;
                    Ok(Some(LoadGFAMsg::Edge))
                } else {
                    self.stage = Stage::PathNames;
                    self.next = 0;
                    proof {
                        assert(graph_paths(self.graph) =~= placeholders(Seq::empty()));
                    }
                    Ok(Some(LoadGFAMsg::Bytes(total_bytes(&self.graph))))
                }
            },
            Stage::PathNames => {
                if self.next < self.index.paths.len() {
                    let o = self.index.paths[self.next];
                    let ghost names = path_names_after(d, p, self.next as int).unwrap();
                    proof {
                        lemma_indexed_line(d, PATH_MARKER, self.next as int);
                        if let Some(n) = second_field(line_at(d, o as int)) {
                            lemma_placeholder_named(names, n);
                        }
                    }
                    match add_one_path_name(mmap, o, &mut self.graph) {
                        Ok(()) => {},
                        Err(e) => {
                            proof {
                                lemma_names_sticks(d, p, self.next + 1, p.len() as int);
                            }
                            return Err(e);
                        },
                    }
                    proof {
                        let n = second_field(line_at(d, o as int)).unwrap();
                        assert(placeholders(names.push(n)) =~= placeholders(names).push(
                            (n, Seq::<HandleModel>::empty()),
                        ));
                    }
                    self.next = self.next + 1;
                    Ok(Some(LoadGFAMsg::Path))
                } else {
                    self.stage = Stage::PathSteps;
                    self.next = 0;
                    proof {
                        lemma_names_len(d, p, p.len() as int);
                    }
                    Ok(Some(LoadGFAMsg::Bytes(total_bytes(&self.graph))))
                }
            },
            Stage::PathSteps => {
                if self.next < self.index.paths.len() {
                    let o = self.index.paths[self.next];
                    let ghost nodes = graph_nodes(self.graph);
                    let ghost before = graph_paths(self.graph);
                    let ghost all = path_steps_after(d, p, r, nodes, self.next as int).unwrap();
                    proof {
                        lemma_indexed_line(d, PATH_MARKER, self.next as int);
                    }
                    match append_one_path(mmap, o, self.remap, &mut self.graph, self.next as u64) {
                        Ok(()) => {},
                        Err(e) => {
                            proof {
                                lemma_steps_sticks(d, p, r, nodes, self.next + 1, p.len() as int);
                            }
                            return Err(e);
                        },
                    }
                    proof {
                        let k = self.next as int;
                        assert(p[k] == o);
                        lemma_steps_len(d, p, r, nodes, k);
                        assert(steps_of_path(d, o, r, nodes) is Ok);
                        let hs = steps_of_path(d, o, r, nodes).unwrap();
                        assert(path_steps_after(d, p, r, nodes, k) == Ok::<
                            Seq<Seq<HandleModel>>,
                            LoadError,
                        >(all));
                        assert(path_steps_after(d, p, r, nodes, k + 1) == Ok::<
                            Seq<Seq<HandleModel>>,
                            LoadError,
                        >(all.push(hs)));
                        let all2 = path_steps_after(d, p, r, nodes, k + 1).unwrap();
                        assert(graph_paths(self.graph)[k].1 == hs);
                        assert forall|j: int| 0 <= j < k + 1 implies (#[trigger] graph_paths(
                            self.graph,
                        )[j]).1 == all2[j] by {
                            if j < k {
                                assert(graph_paths(self.graph)[j] == before[j]);
                                assert(before[j].1 == all[j]);
                                assert(all2[j] == all[j]);
                            }
                        }
                        assert forall|j: int| k + 1 <= j < p.len() implies (#[trigger] graph_paths(
                            self.graph,
                        )[j]).1.len() == 0 by {
                            assert(graph_paths(self.graph)[j] == before[j]);
                        }
                        assert forall|j: int| 0 <= j < p.len() implies (#[trigger] graph_paths(
                            self.graph,
                        )[j]).0 == path_names_after(d, p, p.len() as int).unwrap()[j] by {
                            assert(graph_paths(self.graph)[j].0 == before[j].0);
                        }
                    }
                    self.next = self.next + 1;
                    Ok(Some(LoadGFAMsg::Bytes(total_bytes(&self.graph))))
                } else {
                    proof {
                        let nodes = graph_nodes(self.graph);
                        let names = path_names_after(d, p, p.len() as int).unwrap();
                        let all = path_steps_after(d, p, r, nodes, p.len() as int).unwrap();
                        lemma_names_len(d, p, p.len() as int);
                        lemma_steps_len(d, p, r, nodes, p.len() as int);
                        assert(graph_paths(self.graph) =~= Seq::new(
                            names.len(),
                            |i: int| (names[i], all[i]),
                        ));
                    }
                    self.stage = Stage::Finished;
                    Ok(Some(LoadGFAMsg::Bytes(total_bytes(&self.graph))))
                }
            },
            Stage::Finished => Ok(None),
        }
    }

    /// The graph of a finished session; `None` before it has finished.
    pub fn into_graph(self) -> (r: Option<PackedGraph>)
        requires
            self.wf(),
        ensures
            self.is_finished() ==> (r matches Some(g) && load_spec(self.data()) == Ok::<
                GraphModel,
                LoadError,
            >(model_of(g))),
            !self.is_finished() ==> r is None,
    {
        if self.stage == Stage::Finished {
            Some(self.graph)
        } else {
            None
        }
    }
}

} // verus!
