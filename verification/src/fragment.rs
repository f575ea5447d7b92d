//! Fragments: the pieces of one line that fit the display width.

use vstd::prelude::*;
use vstd::slice::{slice_subrange, slice_to_vec};
use vstd::string::*;
use vstd::utf8::*;

verus! {

/// The glyphs that open every fragment but the first of a line.
pub open spec fn continuation_marker() -> Seq<char> {
    seq!['\u{2023}', '\u{2023}', '\u{2023}', '\u{2023}']
}

/// The text that a chunk of a line is displayed as, if it has one.
///
/// A chunk that is not valid UTF-8 on its own (a character was cut in two by
/// the chunk boundary, or the bytes were never text) has no text. A chunk
/// that continues a line starts with the continuation marker.
pub open spec fn fragment_text(chunk: Seq<u8>, continued: bool) -> Option<Seq<char>> {
    if !valid_utf8(chunk) {
        None
    } else if continued {
        Some(continuation_marker() + decode_utf8(chunk))
    } else {
        Some(decode_utf8(chunk))
    }
}

/// `String::from_utf8` of the standard library: the bytes are accepted
/// exactly when they are valid UTF-8, and the string then holds the
/// characters that they encode.
#[verifier::external_body]
fn string_from_utf8(bytes: Vec<u8>) -> (text: Option<String>)
    ensures
        text is Some <==> valid_utf8(bytes@),
        text matches Some(s) ==> s@ == decode_utf8(bytes@),
{
    match String::from_utf8(bytes) {
        Ok(s) => Some(s),
        Err(_) => None,
    }
}

/// The continuation marker as an owned string.
pub fn marker_string() -> (marker: String)
    ensures
        marker@ == continuation_marker(),
{
    proof {
        reveal_strlit("\u{2023}\u{2023}\u{2023}\u{2023}");
    }
    let marker = "\u{2023}\u{2023}\u{2023}\u{2023}".to_owned();
    assert(marker@ =~= continuation_marker());
    marker
}

/// Decodes one chunk of a line into the fragment that is displayed for it.
pub fn decode_fragment(chunk: &[u8], continued: bool) -> (fragment: Option<String>)
    ensures
        match fragment {
            Some(text) => fragment_text(chunk@, continued) == Some(text@),
            None => fragment_text(chunk@, continued) is None,
        },
{
    match string_from_utf8(slice_to_vec(chunk)) {
        Some(text) => {
            if continued {
                let mut marked = marker_string();
                marked.append(text.as_str());
                Some(marked)
            } else {
                Some(text)
            }
        },
        None => None,
    }
}

/// Where the chunk that starts at byte `pos` of a line of `len` bytes ends:
/// `width` bytes on, or at the end of the line if that comes first.
pub open spec fn chunk_end(len: nat, width: nat, pos: int) -> int {
    if pos + width < len {
        pos + width
    } else {
        len as int
    }
}

/// Chunk number `k` of a line, counted from 0.
pub open spec fn chunk(line: Seq<u8>, width: nat, k: nat) -> Seq<u8> {
    let start = (k * width) as int;
    line.subrange(start, chunk_end(line.len(), width, start))
}

/// The number of chunks of a line of `len` bytes.
pub open spec fn chunk_count(len: nat, width: nat) -> nat {
    if width == 0 {
        0
    } else {
        ((len + width - 1) / (width as int)) as nat
    }
}

/// The fragments of the chunks of `line` from the one that starts at byte
/// `pos` on, in order. Chunks without a text are left out.
pub open spec fn line_fragments_from(line: Seq<u8>, width: nat, pos: int) -> Seq<Seq<char>>
    decreases line.len() - pos,
{
    if width == 0 || pos < 0 || pos >= line.len() {
        seq![]
    } else {
        let end = chunk_end(line.len(), width, pos);
        let rest = line_fragments_from(line, width, end);
        match fragment_text(line.subrange(pos, end), pos > 0) {
            Some(text) => seq![text] + rest,
            None => rest,
        }
    }
}

/// The fragments of one line: it is cut into chunks of `width` bytes, the
/// last one possibly shorter, and each chunk that has a text gives one
/// fragment. An empty line has no chunk and so no fragment.
pub open spec fn line_fragments(line: Seq<u8>, width: nat) -> Seq<Seq<char>> {
    line_fragments_from(line, width, 0)
}

/// The texts of a list of strings.
pub open spec fn texts(strings: Seq<String>) -> Seq<Seq<char>> {
    Seq::new(strings.len(), |i: int| strings[i]@)
}

/// Appends the fragments of `line` to `out`.
pub fn push_line_fragments(line: &[u8], width: usize, out: &mut Vec<String>)
    requires
        width > 0,
    ensures
        texts(final(out)@) == texts(old(out)@) + line_fragments(line@, width as nat),
{
    let ghost before = texts(out@);
    let ghost all = line_fragments(line@, width as nat);
    let mut pos: usize = 0;
    while pos < line.len()
        invariant
            width > 0,
            pos <= line@.len(),
            all == line_fragments(line@, width as nat),
            texts(out@) + line_fragments_from(line@, width as nat, pos as int) == before + all,
        decreases line@.len() - pos,
    {
        let end = if line.len() - pos > width {
            pos + width
        } else {
            line.len()
        };
        let ghost rest = line_fragments_from(line@, width as nat, end as int);
        let ghost held = texts(out@);
        match decode_fragment(slice_subrange(line, pos, end), pos > 0) {
            Some(text) => {
                out.push(text);
                assert(texts(out@) =~= held + seq![text@]);
                assert(texts(out@) + rest =~= held + (seq![text@] + rest));
            },
            None => {},
        }
        pos = end;
    }
    assert(texts(out@) + Seq::<Seq<char>>::empty() =~= texts(out@));
}

} // verus!
