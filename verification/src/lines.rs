//! Lines: how a text is cut at its line endings.
//!
//! A line ends at a line feed or at the end of the text. The line feed is
//! not part of the line, and neither is a carriage return that stands
//! directly before it. A text that ends with a line feed has no further,
//! empty line after it.

use vstd::prelude::*;

verus! {

/// The byte that ends a line.
pub const LINE_FEED: u8 = 0x0a;

/// The byte that is dropped from the end of a line when a line feed
/// follows it.
pub const CARRIAGE_RETURN: u8 = 0x0d;

/// The number of bytes from `start` up to the next line feed, or up to the
/// end of the text where none follows.
pub open spec fn line_len(bytes: Seq<u8>, start: int) -> nat
    decreases bytes.len() - start,
{
    if start < 0 || start >= bytes.len() || bytes[start] == LINE_FEED {
        0
    } else {
        1 + line_len(bytes, start + 1)
    }
}

/// A line without the carriage return that closes it, if it has one.
pub open spec fn strip_carriage_return(line: Seq<u8>) -> Seq<u8> {
    if line.len() > 0 && line.last() == CARRIAGE_RETURN {
        line.drop_last()
    } else {
        line
    }
}

/// The line that starts at byte `start`. Only a line that a line feed
/// closes loses its carriage return: one at the very end of the text stays.
pub open spec fn line_at(bytes: Seq<u8>, start: int) -> Seq<u8> {
    let end = start + line_len(bytes, start);
    if end < bytes.len() {
        strip_carriage_return(bytes.subrange(start, end))
    } else {
        bytes.subrange(start, end)
    }
}

/// Where the line after the one at `start` starts: behind the line feed, or
/// at the end of the text.
pub open spec fn next_line(bytes: Seq<u8>, start: int) -> int {
    let end = start + line_len(bytes, start);
    if end < bytes.len() {
        end + 1
    } else {
        end
    }
}

/// The lines of the text from byte `start` on.
pub open spec fn lines_from(bytes: Seq<u8>, start: int) -> Seq<Seq<u8>>
    decreases bytes.len() - start,
{
    if start < 0 || start >= bytes.len() {
        seq![]
    } else {
        proof {
            lemma_line_len_bounds(bytes, start);
        }
        seq![line_at(bytes, start)] + lines_from(bytes, next_line(bytes, start))
    }
}

/// The lines of a text.
pub open spec fn lines(bytes: Seq<u8>) -> Seq<Seq<u8>> {
    lines_from(bytes, 0)
}

/// A line stops inside the text, at the first line feed: no byte of it is a
/// line feed, and the byte behind it is one unless the text ends there.
pub proof fn lemma_line_len_bounds(bytes: Seq<u8>, start: int)
    requires
        0 <= start <= bytes.len(),
    ensures
        start + line_len(bytes, start) <= bytes.len(),
        forall|i: int| start <= i < start + line_len(bytes, start) ==> bytes[i] != LINE_FEED,
        start + line_len(bytes, start) < bytes.len() ==> bytes[start + line_len(bytes, start)]
            == LINE_FEED,
    decreases bytes.len() - start,
{
    if start < bytes.len() && bytes[start] != LINE_FEED {
        lemma_line_len_bounds(bytes, start + 1);
    }
}

/// The first line feed decides the length of the line: if the bytes from
/// `start` to `end` hold none, and `end` is a line feed or the end of the
/// text, then the line at `start` has `end - start` bytes.
pub proof fn lemma_line_len_is(bytes: Seq<u8>, start: int, end: int)
    requires
        0 <= start <= end <= bytes.len(),
        forall|i: int| start <= i < end ==> bytes[i] != LINE_FEED,
        end < bytes.len() ==> bytes[end] == LINE_FEED,
    ensures
        line_len(bytes, start) == end - start,
    decreases end - start,
{
    if start < end {
        lemma_line_len_is(bytes, start + 1, end);
    }
}

/// Finds the end of the line that starts at `start`.
pub fn line_end(bytes: &[u8], start: usize) -> (end: usize)
    requires
        start <= bytes@.len(),
    ensures
        end == start + line_len(bytes@, start as int),
        end <= bytes@.len(),
{
    let mut end = start;
    while end < bytes.len() && bytes[end] != LINE_FEED
        invariant
            start <= end <= bytes@.len(),
            forall|i: int| start <= i < end ==> bytes@[i] != LINE_FEED,
        decreases bytes@.len() - end,
    {
        end += 1;
    }
    proof {
        lemma_line_len_is(bytes@, start as int, end as int);
    }
    end
}

} // verus!
