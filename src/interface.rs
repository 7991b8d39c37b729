//! Progress events sent by a loader, and the renderer state they update.
use vstd::prelude::*;

verus! {

/// Milliseconds that must pass between two redraws of the progress display.
pub const RENDER_INTERVAL_MS: u64 = 1000;

/// One progress event of a loader.
#[derive(Debug, Clone, Copy, PartialEq, Eq, Structural)]
pub enum LoadGFAMsg {
    Node,
    Edge,
    Path,
    /// Latest snapshot of the graph's size in bytes (absolute, not a delta).
    Bytes(usize),
    /// The last event of a load, sent once whether it succeeded or not.
    Done,
}

/// The counters shown by the progress display.
#[derive(Debug)]
pub struct LoadGFAView {
    file_name: String,
    seconds_elapsed: usize,
    nodes_added: usize,
    edges_added: usize,
    paths_added: usize,
    bytes_used: usize,
    last_render_ms: u64,
}

/// The counters of a progress display: seconds, nodes, edges, paths, bytes.
pub struct ViewModel {
    pub seconds: nat,
    pub nodes: nat,
    pub edges: nat,
    pub paths: nat,
    pub bytes: nat,
}

/// `n + 1`, held at `usize::MAX`.
pub open spec fn bump(n: nat) -> nat {
    if n < usize::MAX {
        n + 1
    } else {
        n
    }
}

/// The counters after one event.
pub open spec fn apply_spec(v: ViewModel, msg: LoadGFAMsg) -> ViewModel {
    match msg {
        LoadGFAMsg::Node => ViewModel { nodes: bump(v.nodes), ..v },
        LoadGFAMsg::Edge => ViewModel { edges: bump(v.edges), ..v },
        LoadGFAMsg::Path => ViewModel { paths: bump(v.paths), ..v },
        LoadGFAMsg::Bytes(b) => ViewModel { bytes: b as nat, ..v },
        LoadGFAMsg::Done => v,
    }
}

/// The counters after the events of `msgs`, in order.
pub open spec fn apply_all(v: ViewModel, msgs: Seq<LoadGFAMsg>) -> ViewModel
    decreases msgs.len(),
{
    if msgs.len() == 0 {
        v
    } else {
        apply_all(apply_spec(v, msgs[0]), msgs.drop_first())
    }
}

/// Number of node, edge and path events in `msgs`.
pub open spec fn tally(msgs: Seq<LoadGFAMsg>) -> (nat, nat, nat)
    decreases msgs.len(),
{
    if msgs.len() == 0 {
        (0, 0, 0)
    } else {
        let (n, e, p) = tally(msgs.drop_first());
        match msgs[0] {
            LoadGFAMsg::Node => (n + 1, e, p),
            LoadGFAMsg::Edge => (n, e + 1, p),
            LoadGFAMsg::Path => (n, e, p + 1),
            _ => (n, e, p),
        }
    }
}

/// Whether a poll at `now` redraws, and the time of the last redraw after it.
pub open spec fn poll_spec(last: u64, now: u64) -> (bool, u64) {
    if now >= last && now - last >= RENDER_INTERVAL_MS {
        (true, now)
    } else {
        (false, last)
    }
}

/// Number of redraws made by polls at the times of `ts`, in order.
pub open spec fn redraws(last: u64, ts: Seq<u64>) -> nat
    decreases ts.len(),
{
    if ts.len() == 0 {
        0
    } else {
        let (r, next) = poll_spec(last, ts[0]);
        (if r { 1nat } else { 0nat }) + redraws(next, ts.drop_first())
    }
}

/// The tally of two streams, one after the other, is the sum of their tallies.
pub proof fn lemma_tally_add(a: Seq<LoadGFAMsg>, b: Seq<LoadGFAMsg>)
    ensures
        tally(a + b).0 == tally(a).0 + tally(b).0,
        tally(a + b).1 == tally(a).1 + tally(b).1,
        tally(a + b).2 == tally(a).2 + tally(b).2,
    decreases a.len(),
{
    if a.len() > 0 {
        assert((a + b).drop_first() =~= a.drop_first() + b);
        lemma_tally_add(a.drop_first(), b);
    } else {
        assert(a + b =~= b);
    }
}

/// The tally of a stream of one event.
pub proof fn lemma_tally_one(m: LoadGFAMsg)
    ensures
        tally(seq![m]) == match m {
            LoadGFAMsg::Node => (1nat, 0nat, 0nat),
            LoadGFAMsg::Edge => (0nat, 1nat, 0nat),
            LoadGFAMsg::Path => (0nat, 0nat, 1nat),
            _ => (0nat, 0nat, 0nat),
        },
{
    assert(seq![m].drop_first() =~= Seq::<LoadGFAMsg>::empty());
    assert(tally(Seq::<LoadGFAMsg>::empty()) == (0nat, 0nat, 0nat));
    assert(seq![m][0] == m);
}

/// `n` copies of the event `m`.
pub open spec fn repeat_msg(m: LoadGFAMsg, n: nat) -> Seq<LoadGFAMsg> {
    Seq::new(n, |i: int| m)
}

/// The events of `msgs` other than size snapshots, in order.
pub open spec fn without_bytes(msgs: Seq<LoadGFAMsg>) -> Seq<LoadGFAMsg> {
    msgs.filter(not_bytes())
}

pub open spec fn not_bytes() -> spec_fn(LoadGFAMsg) -> bool {
    |m: LoadGFAMsg| !(m is Bytes)
}

/// Whether `msgs` ends with a `Done` event, its only one.
pub open spec fn ends_with_done(msgs: Seq<LoadGFAMsg>) -> bool {
    &&& msgs.len() > 0
    &&& msgs.last() == LoadGFAMsg::Done
    &&& forall|i: int| 0 <= i < msgs.len() - 1 ==> msgs[i] != LoadGFAMsg::Done
}

/// Whether `msgs` is the event stream of a load that added `n` nodes, `e`
/// edges and `p` paths: it ends with its one `Done` event.
pub open spec fn finished_stream(msgs: Seq<LoadGFAMsg>, n: nat, e: nat, p: nat) -> bool {
    &&& tally(msgs) == (n, e, p)
    &&& ends_with_done(msgs)
}

/// The payload of the last bytes event of `msgs`, or `b` where there is none.
pub open spec fn last_bytes(msgs: Seq<LoadGFAMsg>, b: nat) -> nat
    decreases msgs.len(),
{
    if msgs.len() == 0 {
        b
    } else {
        last_bytes(
            msgs.drop_first(),
            match msgs[0] {
                LoadGFAMsg::Bytes(x) => x as nat,
                _ => b,
            },
        )
    }
}

/// Applying events in order adds to each counter the number of its events
/// (where no counter reaches `usize::MAX`), keeps the bytes of the last bytes
/// event, and leaves the seconds alone.
pub proof fn apply_all_counts_events(v: ViewModel, msgs: Seq<LoadGFAMsg>)
    requires
        v.nodes + tally(msgs).0 <= usize::MAX,
        v.edges + tally(msgs).1 <= usize::MAX,
        v.paths + tally(msgs).2 <= usize::MAX,
    ensures
        apply_all(v, msgs).nodes == v.nodes + tally(msgs).0,
        apply_all(v, msgs).edges == v.edges + tally(msgs).1,
        apply_all(v, msgs).paths == v.paths + tally(msgs).2,
        apply_all(v, msgs).bytes == last_bytes(msgs, v.bytes),
        apply_all(v, msgs).seconds == v.seconds,
    decreases msgs.len(),
{
    if msgs.len() > 0 {
        apply_all_counts_events(apply_spec(v, msgs[0]), msgs.drop_first());
    }
}

/// A display that starts at zero and takes, in order, the events of a
/// finished load shows, once `Done` has arrived, exactly as many nodes,
/// edges and paths as the load added.
pub proof fn progress_counts_match_load(msgs: Seq<LoadGFAMsg>, n: nat, e: nat, p: nat)
    requires
        finished_stream(msgs, n, e, p),
        n <= usize::MAX,
        e <= usize::MAX,
        p <= usize::MAX,
    ensures
        apply_all(ViewModel { seconds: 0, nodes: 0, edges: 0, paths: 0, bytes: 0 }, msgs).nodes == n,
        apply_all(ViewModel { seconds: 0, nodes: 0, edges: 0, paths: 0, bytes: 0 }, msgs).edges == e,
        apply_all(ViewModel { seconds: 0, nodes: 0, edges: 0, paths: 0, bytes: 0 }, msgs).paths == p,
{
    apply_all_counts_events(ViewModel { seconds: 0, nodes: 0, edges: 0, paths: 0, bytes: 0 }, msgs);
}

proof fn lemma_quiet_polls(last: u64, ts: Seq<u64>)
    requires
        forall|i: int| 0 <= i < ts.len() ==> ts[i] < last + RENDER_INTERVAL_MS,
    ensures
        redraws(last, ts) == 0,
    decreases ts.len(),
{
    if ts.len() > 0 {
        lemma_quiet_polls(last, ts.drop_first());
    }
}

/// Polls made within less than one second of each other, in time order,
/// redraw the display at most once.
pub proof fn burst_redraws_at_most_once(last: u64, ts: Seq<u64>)
    requires
        ts.len() > 0,
        forall|i: int, j: int| 0 <= i <= j < ts.len() ==> ts[i] <= ts[j],
        ts.last() - ts[0] < RENDER_INTERVAL_MS,
    ensures
        redraws(last, ts) <= 1,
    decreases ts.len(),
{
    let rest = ts.drop_first();
    let (r, next) = poll_spec(last, ts[0]);
    assert(redraws(last, ts) == (if r { 1nat } else { 0nat }) + redraws(next, rest));
    if r {
        assert forall|i: int| 0 <= i < rest.len() implies rest[i] < next + RENDER_INTERVAL_MS by {
            assert(rest[i] == ts[i + 1]);
        }
        lemma_quiet_polls(next, rest);
    } else if rest.len() > 0 {
        assert forall|i: int, j: int| 0 <= i <= j < rest.len() implies rest[i] <= rest[j] by {
            assert(rest[i] == ts[i + 1] && rest[j] == ts[j + 1]);
        }
        assert(rest.last() == ts.last());
        assert(rest[0] == ts[1]);
        burst_redraws_at_most_once(next, rest);
    }
}

impl LoadGFAView {
    pub closed spec fn model(&self) -> ViewModel {
        ViewModel {
            seconds: self.seconds_elapsed as nat,
            nodes: self.nodes_added as nat,
            edges: self.edges_added as nat,
            paths: self.paths_added as nat,
            bytes: self.bytes_used as nat,
        }
    }

    pub closed spec fn name(&self) -> Seq<char> {
        self.file_name@
    }

    pub closed spec fn last_render(&self) -> u64 {
        self.last_render_ms
    }

    /// A display for `file` with every counter at zero, last drawn at time 0.
    pub fn new(file: &str) -> (r: Self)
        ensures
            r.name() == file@,
            r.model() == (ViewModel { seconds: 0, nodes: 0, edges: 0, paths: 0, bytes: 0 }),
            r.last_render() == 0,
    {
        LoadGFAView {
            file_name: file.to_owned(),
            seconds_elapsed: 0,
            nodes_added: 0,
            edges_added: 0,
            paths_added: 0,
            bytes_used: 0,
            last_render_ms: 0,
        }
    }

    /// Applies one event: node, edge and path events add one to their
    /// counter, a bytes event replaces the snapshot, `Done` changes nothing.
    pub fn apply_message(&mut self, msg: LoadGFAMsg)
        ensures
            final(self).model() == apply_spec(old(self).model(), msg),
            final(self).name() == old(self).name(),
            final(self).last_render() == old(self).last_render(),
    {
        match msg {
            LoadGFAMsg::Node => self.nodes_added = self.nodes_added.saturating_add(1),
            LoadGFAMsg::Edge => self.edges_added = self.edges_added.saturating_add(1),
            LoadGFAMsg::Path => self.paths_added = self.paths_added.saturating_add(1),
            LoadGFAMsg::Bytes(bytes) => self.bytes_used = bytes,
            LoadGFAMsg::Done => {},
        }
    }

    /// Takes one received event. Returns `true` for `Done`, which ends the
    /// render loop; any other event is applied.
    pub fn receive(&mut self, msg: LoadGFAMsg) -> (stop: bool)
        ensures
            stop == (msg == LoadGFAMsg::Done),
            final(self).model() == apply_spec(old(self).model(), msg),
            final(self).name() == old(self).name(),
            final(self).last_render() == old(self).last_render(),
    {
        if msg == LoadGFAMsg::Done {
            true
        } else {
            self.apply_message(msg);
            false
        }
    }

    /// Decides, at time `now_ms`, whether the display is redrawn: it is when
    /// at least one second has passed since the last redraw, which then
    /// counts one more elapsed second.
    pub fn poll_render(&mut self, now_ms: u64) -> (redraw: bool)
        ensures
            (redraw, final(self).last_render()) == poll_spec(old(self).last_render(), now_ms),
            final(self).model() == (if redraw {
                ViewModel { seconds: bump(old(self).model().seconds), ..old(self).model() }
            } else {
                old(self).model()
            }),
            final(self).name() == old(self).name(),
    {
        if now_ms >= self.last_render_ms && now_ms - self.last_render_ms >= RENDER_INTERVAL_MS {
            self.seconds_elapsed = self.seconds_elapsed.saturating_add(1);
            self.last_render_ms = now_ms;
            true
        } else {
            false
        }
    }

    pub fn file_name(&self) -> (r: &str)
        ensures
            r@ == self.name(),
    {
        self.file_name.as_str()
    }

    pub fn seconds_elapsed(&self) -> (r: usize)
        ensures
            r == self.model().seconds,
    {
        self.seconds_elapsed
    }

    pub fn nodes_added(&self) -> (r: usize)
        ensures
            r == self.model().nodes,
    {
        self.nodes_added
    }

    pub fn edges_added(&self) -> (r: usize)
        ensures
            r == self.model().edges,
    {
        self.edges_added
    }

    pub fn paths_added(&self) -> (r: usize)
        ensures
            r == self.model().paths,
    {
        self.paths_added
    }

    pub fn bytes_used(&self) -> (r: usize)
        ensures
            r == self.model().bytes,
    {
        self.bytes_used
    }
}

} // verus!
