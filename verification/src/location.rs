//! Positions in the source: what tree-sitter reports for a node, and what a
//! query hands to its caller.

use vstd::prelude::*;
use vstd::utf8::encode_utf8;

use crate::text::is_slice;

verus! {

/// A zero-based row and byte column.
#[derive(Debug, Clone, Copy)]
pub struct Point {
    pub row: usize,
    pub column: usize,
}

/// Span information: byte range and point range.
#[derive(Debug, Clone, Copy)]
pub struct SpanInfo {
    pub start_byte: usize,
    pub end_byte: usize,
    pub start_point: Point,
    pub end_point: Point,
}

/// Represents the concrete location of some YAML syntax.
#[derive(Debug, Clone, Copy)]
pub struct Location {
    /// The byte span at which the route's result appears.
    pub byte_span: (usize, usize),
    /// The "point" (i.e., line/column) span at which the route's result appears.
    pub point_span: ((usize, usize), (usize, usize)),
}

impl SpanInfo {
    /// Whether the bytes of this span lie within those of another.
    pub open spec fn is_within(self, outer: SpanInfo) -> bool {
        outer.start_byte <= self.start_byte && self.end_byte <= outer.end_byte
    }

    /// The location that this span denotes.
    pub open spec fn location(self) -> Location {
        Location {
            byte_span: (self.start_byte, self.end_byte),
            point_span: (
                (self.start_point.row, self.start_point.column),
                (self.end_point.row, self.end_point.column),
            ),
        }
    }
}

/// How many of the first `n` bytes are newlines.
pub open spec fn newline_count(bytes: Seq<u8>, n: int) -> nat
    decreases n,
{
    if n > 0 {
        newline_count(bytes, n - 1) + if bytes[n - 1] == 0x0a {
            1nat
        } else {
            0nat
        }
    } else {
        0
    }
}

/// Where the line of position `n` begins: behind the last newline before it.
pub open spec fn line_begin(bytes: Seq<u8>, n: int) -> int
    decreases n,
{
    if n <= 0 || bytes[n - 1] == 0x0a {
        n
    } else {
        line_begin(bytes, n - 1)
    }
}

/// Whether `row` and `column` are those of position `n`: the number of newlines
/// before it, and the number of bytes between it and the last of them.
pub open spec fn is_point_of(bytes: Seq<u8>, n: int, row: usize, column: usize) -> bool {
    &&& row == newline_count(bytes, n)
    &&& column == n - line_begin(bytes, n)
}

/// Whether a span is a slice of `text`, and its points are those of its bytes.
pub open spec fn span_fits(text: Seq<char>, span: SpanInfo) -> bool {
    &&& is_slice(text, span.start_byte as int, span.end_byte as int)
    &&& is_point_of(
        encode_utf8(text),
        span.start_byte as int,
        span.start_point.row,
        span.start_point.column,
    )
    &&& is_point_of(
        encode_utf8(text),
        span.end_byte as int,
        span.end_point.row,
        span.end_point.column,
    )
}

/// Rows do not fall, and rise exactly where there is a newline.
pub proof fn lemma_newline_count(bytes: Seq<u8>, start: int, end: int)
    requires
        0 <= start <= end,
    ensures
        newline_count(bytes, start) <= newline_count(bytes, end),
        newline_count(bytes, start) < newline_count(bytes, end) <==> exists|i: int|
            start <= i < end && #[trigger] bytes[i] == 0x0a,
    decreases end - start,
{
    if start < end {
        lemma_newline_count(bytes, start, end - 1);
        if newline_count(bytes, start) < newline_count(bytes, end) {
            if bytes[end - 1] != 0x0a {
                let i = choose|i: int| start <= i < end - 1 && #[trigger] bytes[i] == 0x0a;
                assert(start <= i < end && bytes[i] == 0x0a);
            }
        } else {
            assert forall|i: int| start <= i < end implies #[trigger] bytes[i] != 0x0a by {
                if i < end - 1 && bytes[i] == 0x0a {
                    assert(start <= i < end - 1 && bytes[i] == 0x0a);
                }
            }
        }
    }
}

impl Location {
    /// Creates the location that a span denotes.
    pub fn from_span(span: &SpanInfo) -> (location: Location)
        ensures
            location == span.location(),
    {
        Location {
            byte_span: (span.start_byte, span.end_byte),
            point_span: (
                (span.start_point.row, span.start_point.column),
                (span.end_point.row, span.end_point.column),
            ),
        }
    }
}

} // verus!
