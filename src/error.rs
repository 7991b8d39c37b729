//! Why a load stops.
use vstd::prelude::*;

verus! {

/// The error of a load. Each carries the byte offset of the line at fault.
#[derive(Debug, Clone, PartialEq, Eq)]
pub enum LoadError {
    /// A read was asked for at an offset past the end of the file.
    OffsetOutOfBounds { offset: usize },
    /// The line at `offset` is empty.
    EmptyLine { offset: usize },
    /// The record parser refused the line at `offset`, for the reason `complaint`.
    Parse { offset: usize, complaint: String },
    /// The line at `offset` holds what the record parser cannot read without
    /// failing hard: a header field whose tag is not a letter and a letter or
    /// digit, an empty header array, or a path overlap number beyond `u32`.
    Unsupported { offset: usize },
    /// The line at `offset` parsed as a record of another type than its index list.
    UnexpectedRecord { offset: usize },
    /// The line at `offset` has no second tab-separated field.
    MissingName { offset: usize },
    /// The name of the segment at `offset` is not an unsigned decimal integer,
    /// or it makes node identifier 0.
    InvalidSegmentName { offset: usize },
    /// A node identifier on the line at `offset` is 2^63 or more once remapped.
    IdOverflow { offset: usize },
    /// The segment at `offset` has an empty sequence.
    EmptySequence { offset: usize },
    /// The segment at `offset` declares node `id` a second time.
    DuplicateNode { offset: usize, id: u64 },
    /// The line at `offset` refers to node `id`, which no segment created.
    MissingNode { offset: usize, id: u64 },
    /// The path at `offset` has the name of an earlier path.
    DuplicatePath { offset: usize },
    /// A step of the path at `offset` is not a decimal identifier followed
    /// by `+` or `-`.
    MalformedStep { offset: usize },
}

} // verus!
