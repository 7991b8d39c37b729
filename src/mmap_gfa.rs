//! A line index over the bytes of a GFA file, and reads of single lines.
use vstd::prelude::*;
use crate::error::LoadError;
use crate::record::{check_parser_safe, parse_record, record_of, Record};

verus! {

pub const NEWLINE: u8 = 10;

pub const TAB: u8 = 9;

/// First byte of a segment line (`S`).
pub const SEGMENT_MARKER: u8 = 83;

/// First byte of a link line (`L`).
pub const LINK_MARKER: u8 = 76;

/// First byte of a path line (`P`).
pub const PATH_MARKER: u8 = 80;

/// The record types that the index locates.
#[derive(Debug, Clone, Copy, PartialEq, Eq, Structural)]
pub enum LineType {
    Segment,
    Link,
    Path,
}

impl LineType {
    /// The first byte of a line of this type.
    pub open spec fn marker_spec(self) -> u8 {
        match self {
            LineType::Segment => SEGMENT_MARKER,
            LineType::Link => LINK_MARKER,
            LineType::Path => PATH_MARKER,
        }
    }

    pub fn marker(self) -> (r: u8)
        ensures
            r == self.marker_spec(),
    {
        match self {
            LineType::Segment => SEGMENT_MARKER,
            LineType::Link => LINK_MARKER,
            LineType::Path => PATH_MARKER,
        }
    }
}

/// Offsets of the first bytes of the segment, link and path lines, in file order.
#[derive(Debug, Clone, PartialEq, Eq)]
pub struct LineIndices {
    pub segments: Vec<usize>,
    pub links: Vec<usize>,
    pub paths: Vec<usize>,
}

/// One past the end of the line that holds position `i`: past its newline,
/// or the end of the data.
pub open spec fn line_end(data: Seq<u8>, i: int) -> int
    decreases data.len() - i,
{
    if i >= data.len() {
        data.len() as int
    } else if data[i] == NEWLINE {
        i + 1
    } else {
        line_end(data, i + 1)
    }
}

/// The line that starts at `start`, its newline included.
pub open spec fn line_at(data: Seq<u8>, start: int) -> Seq<u8> {
    data.subrange(start, line_end(data, start))
}

/// Whether a line starts at `o` with the byte `marker`.
pub open spec fn starts_marked_line(data: Seq<u8>, marker: u8, o: int) -> bool {
    &&& 0 <= o < data.len()
    &&& o == 0 || data[o - 1] == NEWLINE
    &&& data[o] == marker
}

pub open spec fn marked_pred(data: Seq<u8>, marker: u8) -> spec_fn(usize) -> bool {
    |o: usize| starts_marked_line(data, marker, o as int)
}

/// Start offsets, below `n` and in increasing order, of the lines that begin with `marker`.
pub open spec fn marked_lines_below(data: Seq<u8>, marker: u8, n: int) -> Seq<usize> {
    Seq::new(n as nat, |i: int| i as usize).filter(marked_pred(data, marker))
}

/// Start offsets, in file order, of the lines that begin with `marker`.
pub open spec fn marked_lines(data: Seq<u8>, marker: u8) -> Seq<usize> {
    marked_lines_below(data, marker, data.len() as int)
}

/// Reading line by line from `pos`, the start of the first line that begins
/// with `marker`.
pub open spec fn next_marked(data: Seq<u8>, pos: int, marker: u8) -> Option<int>
    decreases data.len() - pos,
{
    if pos < 0 || pos >= data.len() {
        None
    } else if data[pos] == marker {
        Some(pos)
    } else if line_end(data, pos) <= pos || line_end(data, pos) > data.len() {
        None
    } else {
        next_marked(data, line_end(data, pos), marker)
    }
}

impl LineIndices {
    /// Whether these lists index every segment, link and path line of `data`.
    pub open spec fn indexes(&self, data: Seq<u8>) -> bool {
        &&& self.segments@ == marked_lines(data, LineType::Segment.marker_spec())
        &&& self.links@ == marked_lines(data, LineType::Link.marker_spec())
        &&& self.paths@ == marked_lines(data, LineType::Path.marker_spec())
    }
}

pub proof fn lemma_line_end_bounds(data: Seq<u8>, i: int)
    requires
        0 <= i <= data.len(),
    ensures
        i <= line_end(data, i) <= data.len(),
        i < data.len() ==> i < line_end(data, i),
    decreases data.len() - i,
{
    if i < data.len() && data[i] != NEWLINE {
        lemma_line_end_bounds(data, i + 1);
    }
}

proof fn lemma_marked_lines_step(data: Seq<u8>, marker: u8, n: int)
    requires
        0 <= n < data.len() <= usize::MAX,
    ensures
        marked_lines_below(data, marker, n + 1) == if starts_marked_line(data, marker, n) {
            marked_lines_below(data, marker, n).push(n as usize)
        } else {
            marked_lines_below(data, marker, n)
        },
{
    let f = |i: int| i as usize;
    assert(Seq::new((n + 1) as nat, f) =~= Seq::new(n as nat, f).push(n as usize));
    Seq::new(n as nat, f).lemma_filter_push(n as usize, marked_pred(data, marker));
}

proof fn lemma_marked_lines_facts(data: Seq<u8>, marker: u8, n: int)
    requires
        0 <= n <= data.len() <= usize::MAX,
    ensures
        forall|i: int, j: int|
            0 <= i < j < marked_lines_below(data, marker, n).len() ==> marked_lines_below(
                data,
                marker,
                n,
            )[i] < marked_lines_below(data, marker, n)[j],
        forall|o: usize|
            marked_lines_below(data, marker, n).contains(o) <==> (o < n && starts_marked_line(
                data,
                marker,
                o as int,
            )),
    decreases n,
{
    if n > 0 {
        lemma_marked_lines_facts(data, marker, n - 1);
        lemma_marked_lines_step(data, marker, n - 1);
        let prev = marked_lines_below(data, marker, n - 1);
        let cur = marked_lines_below(data, marker, n);
        if starts_marked_line(data, marker, n - 1) {
            assert forall|o: usize| prev.contains(o) implies o < n - 1 by {}
            assert forall|o: usize| #[trigger] cur.contains(o) <==> (prev.contains(o) || o == (n - 1) as usize) by {
                if cur.contains(o) {
                    let k = choose|k: int| 0 <= k < cur.len() && cur[k] == o;
                    if k < prev.len() {
                        assert(prev[k] == o);
                    }
                }
                if prev.contains(o) {
                    let k = choose|k: int| 0 <= k < prev.len() && prev[k] == o;
                    assert(cur[k] == o);
                }
                if o == (n - 1) as usize {
                    assert(cur[prev.len() as int] == o);
                }
            }
            assert forall|i: int, j: int| 0 <= i < j < cur.len() implies cur[i] < cur[j] by {
                if j == prev.len() {
                    assert(prev.contains(cur[i]));
                }
            }
        }
    } else {
        assert(marked_lines_below(data, marker, 0) =~= Seq::<usize>::empty()) by {
            reveal(Seq::filter);
        }
    }
}

/// Each index list is in strictly increasing file order and holds exactly
/// the starts of the lines that begin with its marker; so no line is in two
/// lists, and each list is as long as the number of its lines.
pub proof fn index_lists_are_exact(data: Seq<u8>, idx: LineIndices)
    requires
        idx.indexes(data),
        data.len() <= usize::MAX,
    ensures
        forall|i: int, j: int|
            0 <= i < j < idx.segments@.len() ==> idx.segments@[i] < idx.segments@[j],
        forall|i: int, j: int| 0 <= i < j < idx.links@.len() ==> idx.links@[i] < idx.links@[j],
        forall|i: int, j: int| 0 <= i < j < idx.paths@.len() ==> idx.paths@[i] < idx.paths@[j],
        forall|o: usize|
            idx.segments@.contains(o) <==> starts_marked_line(data, SEGMENT_MARKER, o as int),
        forall|o: usize| idx.links@.contains(o) <==> starts_marked_line(data, LINK_MARKER, o as int),
        forall|o: usize| idx.paths@.contains(o) <==> starts_marked_line(data, PATH_MARKER, o as int),
        forall|o: usize|
            !(idx.segments@.contains(o) && idx.links@.contains(o)) && !(idx.segments@.contains(o)
                && idx.paths@.contains(o)) && !(idx.links@.contains(o) && idx.paths@.contains(o)),
{
    lemma_marked_lines_facts(data, SEGMENT_MARKER, data.len() as int);
    lemma_marked_lines_facts(data, LINK_MARKER, data.len() as int);
    lemma_marked_lines_facts(data, PATH_MARKER, data.len() as int);
}

/// A GFA file's bytes with a read cursor and the line read last.
pub struct MmapGFA<'a> {
    data: &'a [u8],
    cursor: usize,
    line_buf: Vec<u8>,
    last_buf_offset: usize,
}

impl<'a> MmapGFA<'a> {
    /// The file's bytes.
    pub closed spec fn bytes(&self) -> Seq<u8> {
        self.data@
    }

    /// Where the next sequential read starts.
    pub closed spec fn position(&self) -> int {
        self.cursor as int
    }

    /// The line read last, its newline included (empty before any read).
    pub closed spec fn current(&self) -> Seq<u8> {
        self.line_buf@
    }

    /// The offset at which the line read last starts.
    pub closed spec fn current_offset(&self) -> int {
        self.last_buf_offset as int
    }

    pub closed spec fn wf(&self) -> bool {
        &&& self.data@.len() <= usize::MAX
        &&& self.cursor <= self.data@.len()
        &&& self.last_buf_offset <= self.data@.len()
    }

    pub proof fn lemma_bytes_fit(&self)
        requires
            self.wf(),
        ensures
            self.bytes().len() <= usize::MAX,
            0 <= self.position() <= self.bytes().len(),
            0 <= self.current_offset() <= self.bytes().len(),
    {
    }

    /// Reads `data`, with the cursor at its start and no line read yet.
    pub fn new(data: &'a [u8]) -> (r: Self)
        ensures
            r.wf(),
            r.bytes() == data@,
            r.position() == 0,
            r.current() == Seq::<u8>::empty(),
            r.current_offset() == 0,
    {
        let len = data.len();
        // A slice's length is a `usize`, so the data's length fits in one.
        assert(data@.len() == len);
        MmapGFA { data, cursor: 0, line_buf: Vec::new(), last_buf_offset: 0 }
    }

    /// Reads the line at the cursor, its newline included, and moves the
    /// cursor past it. At the end of the data the line is empty.
    pub fn next_line(&mut self) -> (r: &[u8])
        requires
            old(self).wf(),
        ensures
            final(self).wf(),
            final(self).bytes() == old(self).bytes(),
            final(self).current() == line_at(old(self).bytes(), old(self).position()),
            final(self).current_offset() == old(self).position(),
            final(self).position() == line_end(old(self).bytes(), old(self).position()),
            r@ == final(self).current(),
    {
        self.line_buf.clear();
        self.last_buf_offset = self.cursor;
        let start = self.cursor;
        let ghost d = self.data@;
        proof {
            lemma_line_end_bounds(d, start as int);
        }
        let mut i: usize = start;
        while i < self.data.len() && self.data[i] != NEWLINE
            invariant
                self.data@ == d,
                self.cursor == start,
                self.last_buf_offset == start,
                start <= i <= d.len(),
                line_end(d, start as int) == line_end(d, i as int),
                self.line_buf@ == d.subrange(start as int, i as int),
            decreases d.len() - i,
        {
            self.line_buf.push(self.data[i]);
            proof {
                assert(d.subrange(start as int, i + 1) =~= d.subrange(start as int, i as int).push(d[i as int]));
            }
            i += 1;
        }
        if i < self.data.len() {
            self.line_buf.push(NEWLINE);
            proof {
                assert(d.subrange(start as int, i + 1) =~= d.subrange(start as int, i as int).push(d[i as int]));
            }
            i += 1;
        }
        self.cursor = i;
        self.line_buf.as_slice()
    }

    /// Moves the cursor to `offset` and reads the line there. Fails on an
    /// offset past the end of the data.
    pub fn read_line_at(&mut self, offset: usize) -> (r: Result<&[u8], LoadError>)
        requires
            old(self).wf(),
        ensures
            final(self).wf(),
            final(self).bytes() == old(self).bytes(),
            offset > old(self).bytes().len() <==> r == Err::<&[u8], LoadError>(LoadError::OffsetOutOfBounds { offset }),
            offset > old(self).bytes().len() ==> *final(self) == *old(self),
            offset <= old(self).bytes().len() ==> {
                &&& final(self).current() == line_at(old(self).bytes(), offset as int)
                &&& final(self).current_offset() == offset
                &&& final(self).position() == line_end(old(self).bytes(), offset as int)
                &&& r matches Ok(line) && line@ == final(self).current()
            },
    {
        if offset > self.data.len() {
            return Err(LoadError::OffsetOutOfBounds { offset });
        }
        self.cursor = offset;
        Ok(self.next_line())
    }

    /// Indexes the whole file in one scan: the start offset of each segment,
    /// link and path line, in file order. The cursor and the line read last
    /// are untouched.
    pub fn build_index(&self) -> (r: LineIndices)
        ensures
            r.indexes(self.bytes()),
    {
        let ghost d = self.data@;
        let mut segments: Vec<usize> = Vec::new();
        let mut links: Vec<usize> = Vec::new();
        let mut paths: Vec<usize> = Vec::new();
        let mut i: usize = 0;
        while i < self.data.len()
            invariant
                self.data@ == d,
                i <= d.len(),
                segments@ == marked_lines_below(d, LineType::Segment.marker_spec(), i as int),
                links@ == marked_lines_below(d, LineType::Link.marker_spec(), i as int),
                paths@ == marked_lines_below(d, LineType::Path.marker_spec(), i as int),
            decreases d.len() - i,
        {
            proof {
                lemma_marked_lines_step(d, LineType::Segment.marker_spec(), i as int);
                lemma_marked_lines_step(d, LineType::Link.marker_spec(), i as int);
                lemma_marked_lines_step(d, LineType::Path.marker_spec(), i as int);
            }
            if i == 0 || self.data[i - 1] == NEWLINE {
                let b = self.data[i];
                if b == SEGMENT_MARKER {
                    segments.push(i);
                } else if b == LINK_MARKER {
                    links.push(i);
                } else if b == PATH_MARKER {
                    paths.push(i);
                }
            }
            i += 1;
        }
        LineIndices { segments, links, paths }
    }

    /// Reads lines from the cursor until one of type `line_type`, which is
    /// then the line read last. Returns `false` where the data ends first,
    /// with the cursor at the end.
    pub fn seek_next(&mut self, line_type: LineType) -> (found: bool)
        requires
            old(self).wf(),
        ensures
            final(self).wf(),
            final(self).bytes() == old(self).bytes(),
            match next_marked(old(self).bytes(), old(self).position(), line_type.marker_spec()) {
                Some(o) => {
                    &&& found
                    &&& final(self).current() == line_at(old(self).bytes(), o)
                    &&& final(self).current_offset() == o
                    &&& final(self).position() == line_end(old(self).bytes(), o)
                },
                None => {
                    &&& !found
                    &&& final(self).current().len() == 0
                    &&& final(self).position() == old(self).bytes().len()
                },
            },
    {
        let marker = line_type.marker();
        let ghost d = self.data@;
        let ghost target = next_marked(d, self.cursor as int, marker);
        loop
            invariant
                self.wf(),
                self.data@ == d,
                d == old(self).bytes(),
                target == next_marked(d, old(self).position(), marker),
                marker == line_type.marker_spec(),
                next_marked(d, self.cursor as int, marker) == target,
            decreases d.len() - self.cursor,
        {
            if self.cursor >= self.data.len() {
                self.next_line();
                return false;
            }
            let start = self.cursor;
            proof {
                lemma_line_end_bounds(d, start as int);
            }
            let line = self.next_line();
            if line[0] == marker {
                return true;
            }
        }
    }

    /// The line read last, its newline included.
    pub fn current_line(&self) -> (r: &[u8])
        ensures
            r@ == self.current(),
    {
        self.line_buf.as_slice()
    }

    /// Hands the line read last to the record parser. Fails on an empty
    /// line, on a line that the parser cannot read without failing hard, and
    /// where the parser refuses the line, each with its offset.
    pub fn parse_current_line(&self) -> (r: Result<Record, LoadError>)
        ensures
            r == record_of(self.current(), self.current_offset() as usize),
    {
        if self.line_buf.len() == 0 {
            return Err(LoadError::EmptyLine { offset: self.last_buf_offset });
        }
        if !check_parser_safe(self.line_buf.as_slice()) {
            return Err(LoadError::Unsupported { offset: self.last_buf_offset });
        }
        match parse_record(self.line_buf.as_slice()) {
            Ok(rec) => Ok(rec),
            Err(complaint) => Err(LoadError::Parse { offset: self.last_buf_offset, complaint }),
        }
    }

    /// The second tab-separated field of the line read last, or `None`
    /// where the line has no tab.
    pub fn current_line_name(&self) -> (r: Option<&[u8]>)
        ensures
            r matches Some(name) ==> second_field(self.current()) == Some(name@),
            r is None ==> second_field(self.current()) is None,
    {
        second_field_of(self.line_buf.as_slice())
    }
}

/// Position of the first tab at or after `i`, or the length where there is none.
pub open spec fn next_tab(s: Seq<u8>, i: int) -> int
    decreases s.len() - i,
{
    if i >= s.len() {
        s.len() as int
    } else if s[i] == TAB {
        i
    } else {
        next_tab(s, i + 1)
    }
}

/// The field after the first tab, up to the next tab or the end.
pub open spec fn second_field(s: Seq<u8>) -> Option<Seq<u8>> {
    let t = next_tab(s, 0);
    if t >= s.len() {
        None
    } else {
        Some(s.subrange(t + 1, next_tab(s, t + 1)))
    }
}

pub(crate) proof fn lemma_next_tab_bounds(s: Seq<u8>, i: int)
    requires
        0 <= i <= s.len(),
    ensures
        i <= next_tab(s, i) <= s.len(),
        next_tab(s, i) < s.len() ==> s[next_tab(s, i)] == TAB,
    decreases s.len() - i,
{
    if i < s.len() && s[i] != TAB {
        lemma_next_tab_bounds(s, i + 1);
    }
}

pub(crate) fn find_tab(s: &[u8], from: usize) -> (r: usize)
    requires
        from <= s@.len(),
    ensures
        r == next_tab(s@, from as int),
{
    let mut i = from;
    while i < s.len() && s[i] != TAB
        invariant
            from <= i <= s@.len(),
            next_tab(s@, from as int) == next_tab(s@, i as int),
        decreases s@.len() - i,
    {
        i += 1;
    }
    i
}

/// The second tab-separated field of `s`.
pub fn second_field_of(s: &[u8]) -> (r: Option<&[u8]>)
    ensures
        r matches Some(f) ==> second_field(s@) == Some(f@),
        r is None ==> second_field(s@) is None,
{
    let t = find_tab(s, 0);
    if t >= s.len() {
        None
    } else {
        proof {
            lemma_next_tab_bounds(s@, t + 1);
        }
        let e = find_tab(s, t + 1);
        Some(vstd::slice::slice_subrange(s, t + 1, e))
    }
}

} // verus!
