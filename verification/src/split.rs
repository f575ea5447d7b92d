//! From a text to its fragments: line by line, chunk by chunk.

use crate::fragment::{line_fragments, push_line_fragments, texts};
use crate::lines::{
    lemma_line_len_bounds, line_at, line_end, lines, lines_from, next_line, CARRIAGE_RETURN,
};
use vstd::prelude::*;
use vstd::slice::slice_subrange;

verus! {

/// The fragments of a list of lines: those of the first line, then those of
/// the second, and so on.
pub open spec fn fragments_of_lines(lines: Seq<Seq<u8>>, width: nat) -> Seq<Seq<char>>
    decreases lines.len(),
{
    if lines.len() == 0 {
        seq![]
    } else {
        line_fragments(lines.first(), width) + fragments_of_lines(lines.drop_first(), width)
    }
}

/// The fragments that a text is displayed as, for the UTF-8 bytes of the
/// text and the width of the display in bytes.
pub open spec fn text_fragments(bytes: Seq<u8>, width: nat) -> Seq<Seq<char>> {
    fragments_of_lines(lines(bytes), width)
}

/// The fragments of a list of lines are those of its first line followed by
/// those of the other lines.
pub proof fn lemma_fragments_of_lines_step(line: Seq<u8>, rest: Seq<Seq<u8>>, width: nat)
    ensures
        fragments_of_lines(seq![line] + rest, width) == line_fragments(line, width)
            + fragments_of_lines(rest, width),
{
    let all = seq![line] + rest;
    assert(all.first() == line);
    assert(all.drop_first() =~= rest);
}

/// A text without bytes has no fragments.
pub proof fn lemma_empty_text_has_no_fragments(width: nat)
    ensures
        text_fragments(Seq::<u8>::empty(), width) == Seq::<Seq<char>>::empty(),
{
}

/// Cuts a text, given by its bytes, into the fragments that are displayed
/// for it.
pub fn split_fragments(bytes: &[u8], width: usize) -> (out: Vec<String>)
    requires
        width > 0,
    ensures
        texts(out@) == text_fragments(bytes@, width as nat),
{
    let mut out: Vec<String> = Vec::new();
    let mut start: usize = 0;
    assert(texts(out@) + text_fragments(bytes@, width as nat) =~= text_fragments(
        bytes@,
        width as nat,
    ));
    while start < bytes.len()
        invariant
            width > 0,
            start <= bytes@.len(),
            texts(out@) + fragments_of_lines(lines_from(bytes@, start as int), width as nat)
                == text_fragments(bytes@, width as nat),
        decreases bytes@.len() - start,
    {
        let end = line_end(bytes, start);
        let terminated = end < bytes.len();
        let stop = if terminated && end > start && bytes[end - 1] == CARRIAGE_RETURN {
            end - 1
        } else {
            end
        };
        let ghost held = texts(out@);
        let ghost line = line_at(bytes@, start as int);
        let ghost rest = lines_from(bytes@, next_line(bytes@, start as int));
        proof {
            lemma_line_len_bounds(bytes@, start as int);
            lemma_fragments_of_lines_step(line, rest, width as nat);
            assert(bytes@.subrange(start as int, stop as int) =~= line);
        }
        push_line_fragments(slice_subrange(bytes, start, stop), width, &mut out);
        assert(texts(out@) + fragments_of_lines(rest, width as nat) =~= held + (line_fragments(
            line,
            width as nat,
        ) + fragments_of_lines(rest, width as nat)));
        start = if terminated {
            end + 1
        } else {
            end
        };
    }
    assert(texts(out@) + Seq::<Seq<char>>::empty() =~= texts(out@));
    out
}

} // verus!
