//! Typed GFA records, as the outside line parser returns them, and the
//! reading of numeric segment names.
use vstd::prelude::*;
use gfa::gfa::{Line, Orientation, Path};
use gfa::parser::GFAParser;
use crate::error::LoadError;
use crate::mmap_gfa::{
    find_tab, lemma_next_tab_bounds, next_tab, second_field, second_field_of, PATH_MARKER, TAB,
};

verus! {

pub const COMMA: u8 = 44;

pub const PLUS: u8 = 43;

pub const MINUS: u8 = 45;

pub const DIGIT_ZERO: u8 = 48;

pub const DIGIT_NINE: u8 = 57;

/// First byte of a header line (`H`).
pub const HEADER_MARKER: u8 = 72;

/// Type letter of an array field (`B`).
pub const B_TYPE: u8 = 66;

/// One parsed GFA line, with numeric segment names.
#[derive(Debug, Clone, PartialEq, Eq)]
pub enum Record {
    Header,
    Segment { name: usize, sequence: Vec<u8> },
    Link { from_segment: usize, from_reverse: bool, to_segment: usize, to_reverse: bool },
    Containment,
    /// A path, its step list kept as the raw comma-separated field.
    Path { path_name: Vec<u8>, segment_names: Vec<u8> },
}

/// What the record parser makes of a line: the record, or the parser's
/// complaint as text.
pub uninterp spec fn gfa_record(line: Seq<u8>) -> Result<Record, String>;

/// Relies on gfa's `GFAParser::<usize, ()>::parse_gfa_line`: the record on
/// the line, or the text of its error, depending on the line's bytes alone.
/// It panics on some lines that `parser_safe` leaves out.
#[verifier::external_body]
pub(crate) fn parse_record(line: &[u8]) -> (r: Result<Record, String>)
    requires
        parser_safe(line@),
    ensures
        r == gfa_record(line@),
{
    match GFAParser::<usize, ()>::new().parse_gfa_line(line) {
        Ok(Line::Header(_)) => Ok(Record::Header),
        Ok(Line::Segment(s)) => Ok(Record::Segment { name: s.name, sequence: s.sequence }),
        Ok(Line::Link(l)) => Ok(Record::Link {
            from_segment: l.from_segment,
            from_reverse: l.from_orient == Orientation::Backward,
            to_segment: l.to_segment,
            to_reverse: l.to_orient == Orientation::Backward,
        }),
        Ok(Line::Containment(_)) => Ok(Record::Containment),
        Ok(Line::Path(p)) => Ok(Record::Path { path_name: p.path_name, segment_names: p.segment_names }),
        Err(e) => Err(e.to_string()),
    }
}

/// What reading the line at `offset` as a record gives: the parser's
/// record, or an error naming the offset.
pub open spec fn record_of(line: Seq<u8>, offset: usize) -> Result<Record, LoadError> {
    if line.len() == 0 {
        Err(LoadError::EmptyLine { offset })
    } else if !parser_safe(line) {
        Err(LoadError::Unsupported { offset })
    } else {
        match gfa_record(line) {
            Ok(rec) => Ok(rec),
            Err(complaint) => Err(LoadError::Parse { offset, complaint }),
        }
    }
}

/// The bytes that the parser trims from the ends of a line.
pub open spec fn is_ascii_space(b: u8) -> bool {
    b == 32 || b == 9 || b == 10 || b == 12 || b == 13
}

pub open spec fn trim_start(s: Seq<u8>, i: int) -> int
    decreases s.len() - i,
{
    if i < 0 || i >= s.len() {
        s.len() as int
    } else if is_ascii_space(s[i]) {
        trim_start(s, i + 1)
    } else {
        i
    }
}

pub open spec fn trim_end(s: Seq<u8>, j: int, lo: int) -> int
    decreases j - lo,
{
    if j <= lo {
        lo
    } else if is_ascii_space(s[j - 1]) {
        trim_end(s, j - 1, lo)
    } else {
        j
    }
}

/// `s` without leading and trailing ASCII whitespace.
pub open spec fn trimmed(s: Seq<u8>) -> Seq<u8> {
    let a = trim_start(s, 0);
    s.subrange(a, trim_end(s, s.len() as int, a))
}

/// Whether the first tab-separated field of `t` is the one byte `marker`.
pub open spec fn starts_record(t: Seq<u8>, marker: u8) -> bool {
    t.len() > 0 && t[0] == marker && (t.len() == 1 || t[1] == TAB)
}

pub open spec fn is_letter(b: u8) -> bool {
    (65 <= b <= 90) || (97 <= b <= 122)
}

/// Whether the parser reads the header field `f` without panicking: it
/// panics where `f` has a value but its tag is not a letter and a letter or
/// digit, and where `f` is an empty `B` array.
pub open spec fn header_field_safe(f: Seq<u8>) -> bool {
    f.len() < 5 || (is_letter(f[0]) && (is_letter(f[1]) || is_digit(f[1])) && !(f.len() == 5 && f[3]
        == B_TYPE))
}

/// The value of the run of digits that ends just before position `i`.
pub open spec fn run_value(t: Seq<u8>, i: int) -> nat
    decreases i,
{
    if i <= 0 || i > t.len() || !is_digit(t[i - 1]) {
        0
    } else {
        run_value(t, i - 1) * 10 + (t[i - 1] - DIGIT_ZERO) as nat
    }
}

/// The bounds of the fourth tab-separated field of `t`: the overlaps of a
/// path line.
pub open spec fn fourth_field(t: Seq<u8>) -> (int, int) {
    let t1 = next_tab(t, 0);
    let t2 = next_tab(t, t1 + 1);
    let t3 = next_tab(t, t2 + 1);
    (t3 + 1, next_tab(t, t3 + 1))
}

/// Whether every number in the overlaps of the path line `t` fits in `u32`,
/// as the parser's overlap reading needs (it panics on a larger one).
pub open spec fn overlaps_fit(t: Seq<u8>) -> bool {
    let (a, b) = fourth_field(t);
    a <= t.len() ==> forall|i: int| a <= i <= b ==> #[trigger] run_value(t, i) <= u32::MAX
}

/// Whether the record parser reads `line` without panicking.
pub open spec fn parser_safe(line: Seq<u8>) -> bool {
    let t = trimmed(line);
    &&& starts_record(t, HEADER_MARKER) && second_field(t) is Some ==> header_field_safe(
        second_field(t).unwrap(),
    )
    &&& starts_record(t, PATH_MARKER) ==> overlaps_fit(t)
}

proof fn lemma_trim_start_bounds(s: Seq<u8>, i: int)
    requires
        0 <= i <= s.len(),
    ensures
        i <= trim_start(s, i) <= s.len(),
    decreases s.len() - i,
{
    if i < s.len() && is_ascii_space(s[i]) {
        lemma_trim_start_bounds(s, i + 1);
    }
}

proof fn lemma_trim_end_bounds(s: Seq<u8>, j: int, lo: int)
    requires
        0 <= lo <= j <= s.len(),
    ensures
        lo <= trim_end(s, j, lo) <= j,
    decreases j - lo,
{
    if j > lo && is_ascii_space(s[j - 1]) {
        lemma_trim_end_bounds(s, j - 1, lo);
    }
}

fn is_space_byte(b: u8) -> (r: bool)
    ensures
        r == is_ascii_space(b),
{
    b == 32 || b == 9 || b == 10 || b == 12 || b == 13
}

/// The line without leading and trailing ASCII whitespace.
fn trim_line(s: &[u8]) -> (r: &[u8])
    ensures
        r@ == trimmed(s@),
{
    let n = s.len();
    let mut a: usize = 0;
    while a < n && is_space_byte(s[a])
        invariant
            n == s@.len(),
            a <= n,
            trim_start(s@, 0) == trim_start(s@, a as int),
        decreases n - a,
    {
        a += 1;
    }
    let mut b: usize = n;
    while b > a && is_space_byte(s[b - 1])
        invariant
            n == s@.len(),
            a <= b <= n,
            a == trim_start(s@, 0),
            trim_end(s@, n as int, a as int) == trim_end(s@, b as int, a as int),
        decreases b,
    {
        b -= 1;
    }
    vstd::slice::slice_subrange(s, a, b)
}

/// Tells whether the record parser reads `line` without panicking.
pub fn check_parser_safe(line: &[u8]) -> (r: bool)
    ensures
        r == parser_safe(line@),
{
    let t = trim_line(line);
    let n = t.len();
    if n > 0 && t[0] == HEADER_MARKER && (n == 1 || t[1] == TAB) {
        match second_field_of(t) {
            Some(f) => {
                if f.len() >= 5 {
                    let tag_ok = ((65 <= f[0] && f[0] <= 90) || (97 <= f[0] && f[0] <= 122)) && ((65
                        <= f[1] && f[1] <= 90) || (97 <= f[1] && f[1] <= 122) || (DIGIT_ZERO <= f[1]
                        && f[1] <= DIGIT_NINE));
                    if !tag_ok || (f.len() == 5 && f[3] == B_TYPE) {
                        return false;
                    }
                }
            },
            None => {},
        }
        return true;
    }
    if !(n > 0 && t[0] == PATH_MARKER && (n == 1 || t[1] == TAB)) {
        return true;
    }
    proof {
        lemma_next_tab_bounds(t@, 0);
    }
    let t1 = find_tab(t, 0);
    if t1 >= n {
        return true;
    }
    proof {
        lemma_next_tab_bounds(t@, t1 + 1);
    }
    let t2 = find_tab(t, t1 + 1);
    if t2 >= n {
        return true;
    }
    proof {
        lemma_next_tab_bounds(t@, t2 + 1);
    }
    let t3 = find_tab(t, t2 + 1);
    if t3 >= n {
        return true;
    }
    proof {
        lemma_next_tab_bounds(t@, t3 + 1);
    }
    let t4 = find_tab(t, t3 + 1);
    let mut v: u64 = 0;
    let mut i: usize = t3 + 1;
    assert(run_value(t@, i as int) == 0);
    while i < t4
        invariant
            n == t@.len(),
            t@ == trimmed(line@),
            starts_record(t@, PATH_MARKER),
            t3 < n,
            t3 + 1 <= i <= t4 <= n,
            fourth_field(t@) == (t3 + 1, t4 as int),
            v == run_value(t@, i as int),
            v <= u32::MAX,
            forall|k: int| t3 + 1 <= k <= i ==> #[trigger] run_value(t@, k) <= u32::MAX,
        decreases t4 - i,
    {
        let c = t[i];
        if DIGIT_ZERO <= c && c <= DIGIT_NINE {
            v = v * 10 + (c - DIGIT_ZERO) as u64;
            assert(v == run_value(t@, i + 1));
            if v > 4294967295 {
                return false;
            }
        } else {
            v = 0;
        }
        i += 1;
    }
    true
}

/// Position of the first comma at or after `i`, or the length where there is none.
pub open spec fn next_comma(s: Seq<u8>, i: int) -> int
    decreases s.len() - i,
{
    if i < 0 || i >= s.len() {
        s.len() as int
    } else if s[i] == COMMA {
        i
    } else {
        next_comma(s, i + 1)
    }
}

proof fn lemma_next_comma_bounds(s: Seq<u8>, i: int)
    requires
        0 <= i <= s.len(),
    ensures
        i <= next_comma(s, i) <= s.len(),
    decreases s.len() - i,
{
    if i < s.len() && s[i] != COMMA {
        lemma_next_comma_bounds(s, i + 1);
    }
}

/// Whether a step of a path's step field is empty, or an unsigned decimal
/// segment identifier followed by `+` or `-`.
pub open spec fn step_ok(piece: Seq<u8>) -> bool {
    piece.len() == 0 || ((piece.last() == PLUS || piece.last() == MINUS) && decimal_usize(
        piece.drop_last(),
    ) is Some)
}

/// The `(segment, is_reverse)` step that a non-empty well-formed step writes.
pub open spec fn step_of(piece: Seq<u8>) -> (usize, bool) {
    (decimal_usize(piece.drop_last()).unwrap(), piece.last() == MINUS)
}

/// Whether every comma-separated step of `s` from position `a` on is well-formed.
pub open spec fn steps_ok_from(s: Seq<u8>, a: int) -> bool
    decreases s.len() - a,
{
    if a < 0 || a > s.len() {
        true
    } else {
        let e = next_comma(s, a);
        step_ok(s.subrange(a, e)) && (a <= e < s.len() ==> steps_ok_from(s, e + 1))
    }
}

/// The steps that the comma-separated step field `s` writes from position
/// `a` on, skipping empty ones.
pub open spec fn steps_from(s: Seq<u8>, a: int) -> Seq<(usize, bool)>
    decreases s.len() - a,
{
    if a < 0 || a > s.len() {
        Seq::empty()
    } else {
        let e = next_comma(s, a);
        let piece = s.subrange(a, e);
        let head = if piece.len() == 0 {
            Seq::<(usize, bool)>::empty()
        } else {
            seq![step_of(piece)]
        };
        if a <= e < s.len() {
            head + steps_from(s, e + 1)
        } else {
            head
        }
    }
}

/// Whether every step of a path's step field is well-formed.
pub open spec fn steps_well_formed(s: Seq<u8>) -> bool {
    steps_ok_from(s, 0)
}

/// The steps that a well-formed step field writes, in order.
pub open spec fn parsed_steps(s: Seq<u8>) -> Seq<(usize, bool)> {
    steps_from(s, 0)
}

/// Relies on gfa's `Path::<usize, ()>::iter`: it splits the field at commas
/// and reads each non-empty step as a decimal identifier and a final `+` or
/// `-`. It panics on a step without orientation and drops one whose
/// identifier does not parse; `requires` leaves both out.
#[verifier::external_body]
pub(crate) fn path_steps(segment_names: &Vec<u8>) -> (r: Vec<(usize, bool)>)
    requires
        steps_well_formed(segment_names@),
    ensures
        r@ == parsed_steps(segment_names@),
{
    let path: Path<usize, ()> = Path::new(Vec::new(), segment_names.clone(), Vec::new(), ());
    path.iter().map(|(id, o)| (id, o == Orientation::Backward)).collect()
}

fn find_comma(s: &Vec<u8>, from: usize) -> (r: usize)
    requires
        from <= s@.len(),
    ensures
        r == next_comma(s@, from as int),
{
    let mut i = from;
    while i < s.len() && s[i] != COMMA
        invariant
            from <= i <= s@.len(),
            next_comma(s@, from as int) == next_comma(s@, i as int),
        decreases s@.len() - i,
    {
        i += 1;
    }
    i
}

/// Tells whether every step of a path's step field is well-formed.
pub fn check_steps_well_formed(s: &Vec<u8>) -> (r: bool)
    ensures
        r == steps_well_formed(s@),
{
    let n = s.len();
    let mut a: usize = 0;
    loop
        invariant
            n == s@.len(),
            a <= n,
            steps_ok_from(s@, 0) == steps_ok_from(s@, a as int),
        decreases n - a,
    {
        let e = find_comma(s, a);
        proof {
            lemma_next_comma_bounds(s@, a as int);
        }
        if e > a {
            let last = s[e - 1];
            if last != PLUS && last != MINUS {
                return false;
            }
            let piece = vstd::slice::slice_subrange(s.as_slice(), a, e - 1);
            assert(piece@ =~= s@.subrange(a as int, e as int).drop_last());
            match parse_decimal(piece) {
                Some(_) => {},
                None => {
                    return false;
                },
            }
        }
        if e >= n {
            return true;
        }
        a = e + 1;
    }
}

pub open spec fn is_digit(c: u8) -> bool {
    DIGIT_ZERO <= c <= DIGIT_NINE
}

/// The value of a string of decimal digits.
pub open spec fn digits_value(s: Seq<u8>) -> nat
    decreases s.len(),
{
    if s.len() == 0 {
        0
    } else {
        digits_value(s.drop_last()) * 10 + (s.last() - DIGIT_ZERO) as nat
    }
}

/// `s` without its leading `+`, if it has one.
pub open spec fn unsigned_part(s: Seq<u8>) -> Seq<u8> {
    if s.len() > 0 && s[0] == PLUS {
        s.drop_first()
    } else {
        s
    }
}

/// The value of the non-empty digit string `d`, where it fits in `usize`.
pub open spec fn digits_usize(d: Seq<u8>) -> Option<usize> {
    if d.len() > 0 && (forall|i: int| 0 <= i < d.len() ==> is_digit(d[i])) && digits_value(d)
        <= usize::MAX {
        Some(digits_value(d) as usize)
    } else {
        None
    }
}

/// The unsigned integer that `s` writes in decimal, with an optional
/// leading `+`, where it fits in `usize`.
pub open spec fn decimal_usize(s: Seq<u8>) -> Option<usize> {
    digits_usize(unsigned_part(s))
}

proof fn lemma_digits_value_grows(d: Seq<u8>, k: int, j: int)
    requires
        0 <= k <= j <= d.len(),
        forall|i: int| 0 <= i < d.len() ==> is_digit(d[i]),
    ensures
        digits_value(d.subrange(0, k)) <= digits_value(d.subrange(0, j)),
    decreases j - k,
{
    if k < j {
        lemma_digits_value_grows(d, k, j - 1);
        assert(d.subrange(0, j).drop_last() =~= d.subrange(0, j - 1));
    }
}

/// Reads an unsigned decimal integer, as `str::parse::<usize>` does.
pub fn parse_decimal(s: &[u8]) -> (r: Option<usize>)
    ensures
        r == decimal_usize(s@),
{
    let mut start: usize = 0;
    if s.len() > 0 && s[0] == PLUS {
        start = 1;
    }
    let ghost d = unsigned_part(s@);
    assert(d =~= s@.subrange(start as int, s@.len() as int));
    if start == s.len() {
        return None;
    }
    let mut value: usize = 0;
    let mut i: usize = start;
    while i < s.len()
        invariant
            start <= i <= s@.len(),
            d == unsigned_part(s@),
            d =~= s@.subrange(start as int, s@.len() as int),
            forall|k: int| 0 <= k < i - start ==> is_digit(d[k]),
            value == digits_value(d.subrange(0, i - start)),
        decreases s@.len() - i,
    {
        let c = s[i];
        if c < DIGIT_ZERO || c > DIGIT_NINE {
            assert(!is_digit(d[i - start]));
            return None;
        }
        assert(d.subrange(0, i + 1 - start).drop_last() =~= d.subrange(0, i - start));
        assert(digits_value(d.subrange(0, i + 1 - start)) == value * 10 + (c - DIGIT_ZERO) as nat);
        match value.checked_mul(10) {
            Some(v) => match v.checked_add((c - DIGIT_ZERO) as usize) {
                Some(w) => value = w,
                None => {
                    proof {
                        if forall|k: int| 0 <= k < d.len() ==> is_digit(d[k]) {
                            lemma_digits_value_grows(d, i + 1 - start, d.len() as int);
                            assert(d.subrange(0, d.len() as int) =~= d);
                        }
                    }
                    return None;
                },
            },
            None => {
                proof {
                    if forall|k: int| 0 <= k < d.len() ==> is_digit(d[k]) {
                        lemma_digits_value_grows(d, i + 1 - start, d.len() as int);
                        assert(d.subrange(0, d.len() as int) =~= d);
                    }
                }
                return None;
            },
        }
        i += 1;
    }
    assert(d.subrange(0, d.len() as int) =~= d);
    Some(value)
}

} // verus!
