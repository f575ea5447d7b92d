//! What holds of splitting and merging, whatever the texts and the store.

use crate::fragment::{
    chunk, chunk_count, chunk_end, continuation_marker, fragment_text, line_fragments,
    line_fragments_from,
};
use crate::lines::{
    lemma_line_len_bounds, lemma_line_len_is, line_at, line_len, lines, lines_from, next_line,
    strip_carriage_return, LINE_FEED,
};
use crate::split::{fragments_of_lines, lemma_fragments_of_lines_step, text_fragments};
use crate::store::{
    lemma_merge_one_well_formed, merge_all, merge_one, repeats_last, well_formed, LogLevel,
    LogRow, COUNT_MAX,
};
use vstd::prelude::*;
use vstd::utf8::*;

verus! {

/// Any number of fragments leaves the rows well formed: in particular no
/// row ever has the text of the row before it.
pub proof fn lemma_merge_all_well_formed(
    rows: Seq<LogRow>,
    level: LogLevel,
    fragments: Seq<Seq<char>>,
)
    requires
        well_formed(rows),
    ensures
        well_formed(merge_all(rows, level, fragments)),
    decreases fragments.len(),
{
    if fragments.len() > 0 {
        lemma_merge_all_well_formed(rows, level, fragments.drop_last());
        lemma_merge_one_well_formed(
            merge_all(rows, level, fragments.drop_last()),
            level,
            fragments.last(),
        );
    }
}

/// Taking in two lists of fragments one after the other is taking in the
/// one list that holds the first and then the second.
pub proof fn lemma_merge_all_concat(
    rows: Seq<LogRow>,
    level: LogLevel,
    first: Seq<Seq<char>>,
    second: Seq<Seq<char>>,
)
    ensures
        merge_all(rows, level, first + second) == merge_all(
            merge_all(rows, level, first),
            level,
            second,
        ),
    decreases second.len(),
{
    if second.len() == 0 {
        assert(first + second =~= first);
    } else {
        assert((first + second).drop_last() =~= first + second.drop_last());
        assert((first + second).last() == second.last());
        lemma_merge_all_concat(rows, level, first, second.drop_last());
    }
}

/// A list of one fragment is taken in as that fragment.
pub proof fn lemma_merge_all_single(rows: Seq<LogRow>, level: LogLevel, text: Seq<char>)
    ensures
        merge_all(rows, level, seq![text]) == merge_one(rows, level, text),
{
    let one = seq![text];
    assert(one.drop_last() =~= Seq::<Seq<char>>::empty());
    assert(one.last() == text);
    assert(merge_all(rows, level, one.drop_last()) == rows);
}

/// Rows only grow at the end: taking fragments in never removes a row and
/// never changes the text or the severity of one.
pub proof fn lemma_merge_all_extends(
    rows: Seq<LogRow>,
    level: LogLevel,
    fragments: Seq<Seq<char>>,
)
    ensures
        merge_all(rows, level, fragments).len() >= rows.len(),
        fragments.len() > 0 ==> merge_all(rows, level, fragments).len() > 0,
        fragments.len() > 0 ==> merge_all(rows, level, fragments).last().text == fragments.last(),
        forall|i: int|
            0 <= i < rows.len() ==> (#[trigger] merge_all(rows, level, fragments)[i]).text
                == rows[i].text && merge_all(rows, level, fragments)[i].level == rows[i].level,
    decreases fragments.len(),
{
    if fragments.len() > 0 {
        lemma_merge_all_extends(rows, level, fragments.drop_last());
    }
}

/// How many fragments the rows stand for: the sum of their counters.
pub open spec fn total_count(rows: Seq<LogRow>) -> nat
    decreases rows.len(),
{
    if rows.len() == 0 {
        0
    } else {
        total_count(rows.drop_last()) + rows.last().count
    }
}

/// True when no counter has reached its ceiling.
pub open spec fn below_ceiling(rows: Seq<LogRow>) -> bool {
    forall|i: int| 0 <= i < rows.len() ==> (#[trigger] rows[i]).count < COUNT_MAX
}

/// Every fragment is counted once: on a new row, or on the last row. Only
/// a last row whose counter has reached its ceiling does not count a
/// repeat.
pub proof fn lemma_merge_one_counts(rows: Seq<LogRow>, level: LogLevel, text: Seq<char>)
    ensures
        total_count(merge_one(rows, level, text)) == if repeats_last(rows, text)
            && rows.last().count >= COUNT_MAX {
            total_count(rows)
        } else {
            total_count(rows) + 1
        },
{
    let after = merge_one(rows, level, text);
    if repeats_last(rows, text) {
        assert(after.drop_last() =~= rows.drop_last());
    } else {
        assert(after.drop_last() =~= rows);
    }
}

/// Nothing is lost while no counter reaches its ceiling: the counters then
/// add up to what they added up to before plus the number of fragments
/// that arrived.
pub proof fn lemma_merge_all_counts(rows: Seq<LogRow>, level: LogLevel, fragments: Seq<Seq<char>>)
    requires
        below_ceiling(merge_all(rows, level, fragments)),
    ensures
        total_count(merge_all(rows, level, fragments)) == total_count(rows) + fragments.len(),
    decreases fragments.len(),
{
    if fragments.len() > 0 {
        let before = merge_all(rows, level, fragments.drop_last());
        let after = merge_one(before, level, fragments.last());
        assert forall|i: int| 0 <= i < before.len() implies (#[trigger] before[i]).count
            < COUNT_MAX by {
            assert(after[i].count < COUNT_MAX);
        }
        lemma_merge_all_counts(rows, level, fragments.drop_last());
        lemma_merge_one_counts(before, level, fragments.last());
    }
}

/// The same text twice in succession, where the text has one fragment and
/// the store does not already end with it: the store gains exactly one row,
/// and its counter is 2. The row has the severity of the first emission.
pub proof fn lemma_repeat_is_counted(
    rows: Seq<LogRow>,
    first_level: LogLevel,
    second_level: LogLevel,
    bytes: Seq<u8>,
    width: nat,
)
    requires
        text_fragments(bytes, width).len() == 1,
        !repeats_last(rows, text_fragments(bytes, width)[0]),
    ensures
        merge_all(
            merge_all(rows, first_level, text_fragments(bytes, width)),
            second_level,
            text_fragments(bytes, width),
        ) == rows.push(
            LogRow { level: first_level, text: text_fragments(bytes, width)[0], count: 2 },
        ),
{
    let fragments = text_fragments(bytes, width);
    let text = fragments[0];
    assert(fragments =~= seq![text]);
    lemma_merge_all_single(rows, first_level, text);
    let once = merge_one(rows, first_level, text);
    lemma_merge_all_single(once, second_level, text);
    assert(merge_one(once, second_level, text) =~= rows.push(
        LogRow { level: first_level, text: text, count: 2 },
    ));
}

/// A text of one line that fits the width and is valid UTF-8 has one
/// fragment, the text itself. The line may be closed by a line feed.
pub proof fn lemma_short_line_is_one_fragment(bytes: Seq<u8>, width: nat)
    requires
        0 < line_len(bytes, 0) <= width,
        line_len(bytes, 0) + 1 >= bytes.len(),
        valid_utf8(line_at(bytes, 0)),
        line_at(bytes, 0).len() > 0,
    ensures
        text_fragments(bytes, width) == seq![decode_utf8(line_at(bytes, 0))],
{
    lemma_line_len_bounds(bytes, 0);
    let line = line_at(bytes, 0);
    let after = next_line(bytes, 0);
    assert(lines_from(bytes, after) =~= Seq::<Seq<u8>>::empty());
    assert(lines(bytes) =~= seq![line]);
    assert(line.subrange(0, line.len() as int) =~= line);
    assert(line_fragments_from(line, width, line.len() as int) =~= Seq::<Seq<char>>::empty());
    assert(line_fragments(line, width) =~= seq![decode_utf8(line)]);
    lemma_fragments_of_lines_step(line, Seq::<Seq<u8>>::empty(), width);
    assert(seq![line] + Seq::<Seq<u8>>::empty() =~= seq![line]);
    assert(fragments_of_lines(seq![line], width) =~= seq![decode_utf8(line)]);
}

/// Chunk `k` of a line is one of its chunks exactly when it starts inside
/// the line.
pub proof fn lemma_chunk_count(len: nat, width: nat, k: nat)
    requires
        width > 0,
    ensures
        k < chunk_count(len, width) <==> k * width < len,
{
    let w = width as int;
    let n = len + width - 1;
    assert(n == w * (n / w) + n % w && 0 <= n % w < w) by (nonlinear_arith)
        requires
            w > 0,
    ;
    let q = n / w;
    if (k as int) < q {
        assert(k * w + w <= q * w) by (nonlinear_arith)
            requires
                k + 1 <= q,
                w > 0,
        ;
    } else {
        assert(q * w <= k * w) by (nonlinear_arith)
            requires
                q <= k,
                w > 0,
        ;
    }
    assert(q * w == w * q) by (nonlinear_arith);
}

/// Where no character is cut by a chunk boundary, nothing is lost: a line
/// whose chunks are each valid UTF-8 has one fragment for each chunk, in
/// order. The first is the chunk's text; each other is the continuation
/// marker followed by the chunk's text.
pub proof fn lemma_every_valid_chunk_is_a_fragment(line: Seq<u8>, width: nat)
    requires
        width > 0,
        forall|k: nat|
            k < chunk_count(line.len(), width) ==> valid_utf8(#[trigger] chunk(line, width, k)),
    ensures
        line_fragments(line, width).len() == chunk_count(line.len(), width),
        line.len() > 0 ==> line_fragments(line, width)[0] == decode_utf8(chunk(line, width, 0)),
        forall|k: nat|
            1 <= k < chunk_count(line.len(), width) ==> #[trigger] line_fragments(
                line,
                width,
            )[k as int] == continuation_marker() + decode_utf8(chunk(line, width, k)),
{
    lemma_fragments_from_chunk(line, width, 0);
    assert(0 * width == 0) by (nonlinear_arith);
    lemma_chunk_count(line.len(), width, 0);
    assert forall|k: nat| 1 <= k < chunk_count(line.len(), width) implies #[trigger] line_fragments(
        line,
        width,
    )[k as int] == continuation_marker() + decode_utf8(chunk(line, width, k)) by {
        assert(line_fragments_from(line, width, 0)[k - 0] == fragment_text(
            chunk(line, width, k),
            k > 0,
        ).unwrap());
    }
    if line.len() > 0 {
        assert(line_fragments_from(line, width, 0)[0 - 0] == fragment_text(
            chunk(line, width, 0),
            0 > 0,
        ).unwrap());
    }
}

proof fn lemma_fragments_from_chunk(line: Seq<u8>, width: nat, first: nat)
    requires
        width > 0,
        first <= chunk_count(line.len(), width),
        forall|k: nat|
            k < chunk_count(line.len(), width) ==> valid_utf8(#[trigger] chunk(line, width, k)),
    ensures
        line_fragments_from(line, width, (first * width) as int).len() == chunk_count(
            line.len(),
            width,
        ) - first,
        forall|k: nat|
            first <= k < chunk_count(line.len(), width) ==> (#[trigger] line_fragments_from(
                line,
                width,
                (first * width) as int,
            )[k - first]) == fragment_text(chunk(line, width, k), k > 0).unwrap(),
    decreases chunk_count(line.len(), width) - first,
{
    let count = chunk_count(line.len(), width);
    let pos = (first * width) as int;
    lemma_chunk_count(line.len(), width, first);
    assert(first > 0 <==> pos > 0) by (nonlinear_arith)
        requires
            pos == first * width,
            width > 0,
    ;
    if first < count {
        let end = chunk_end(line.len(), width, pos);
        let next = first + 1;
        assert(next * width == pos + width) by (nonlinear_arith)
            requires
                next == first + 1,
                pos == first * width,
        ;
        lemma_chunk_count(line.len(), width, next);
        assert(valid_utf8(chunk(line, width, first)));
        let here = fragment_text(chunk(line, width, first), first > 0).unwrap();
        if next < count {
            assert(end == next * width);
            lemma_fragments_from_chunk(line, width, next);
        } else {
            assert(end == line.len());
            assert(line_fragments_from(line, width, end) =~= Seq::<Seq<char>>::empty());
        }
        let rest = line_fragments_from(line, width, end);
        assert(line_fragments_from(line, width, pos) =~= seq![here] + rest);
        assert forall|k: nat| first <= k < count implies (#[trigger] line_fragments_from(
            line,
            width,
            pos,
        )[k - first]) == fragment_text(chunk(line, width, k), k > 0).unwrap() by {
            if k > first {
                assert(rest[k - next] == fragment_text(chunk(line, width, k), k > 0).unwrap());
            }
        }
    }
}

/// Bytes below 128 are text: they are valid UTF-8, one character each, and
/// do not start with the continuation marker.
pub proof fn lemma_ascii_is_text(bytes: Seq<u8>)
    requires
        forall|i: int| 0 <= i < bytes.len() ==> bytes[i] < 0x80,
    ensures
        valid_utf8(bytes),
        decode_utf8(bytes).len() == bytes.len(),
        !continuation_marker().is_prefix_of(decode_utf8(bytes)),
    decreases bytes.len(),
{
    if bytes.len() > 0 {
        let rest = pop_first_scalar(bytes);
        assert(is_leading_byte_width_1(bytes[0]));
        assert(rest =~= bytes.subrange(1, bytes.len() as int));
        lemma_ascii_is_text(rest);
        let first = bytes[0];
        assert(first & 0x7f < 0x80) by (bit_vector);
        let head = decode_utf8(bytes)[0];
        assert(head == (decode_first_scalar(bytes) as char));
        assert(decode_first_scalar(bytes) < 0x80);
        assert(head as u32 == decode_first_scalar(bytes));
        assert(continuation_marker()[0] as u32 == 0x2023);
        if continuation_marker().is_prefix_of(decode_utf8(bytes)) {
            assert(decode_utf8(bytes)[0] == continuation_marker()[0]);
        }
    } else {
        assert(continuation_marker().len() == 4);
    }
}

/// A line of three full chunks and five bytes more has four fragments, of
/// which all but the first start with the continuation marker. This is
/// said of a line whose four chunks are each valid UTF-8 (no character is
/// cut by a chunk boundary) and which does not itself start with the
/// marker's glyphs, for a width of at least five.
pub proof fn lemma_long_line_has_four_fragments(line: Seq<u8>, width: nat)
    requires
        width >= 5,
        line.len() == 3 * width + 5,
        forall|k: nat| k < 4 ==> valid_utf8(#[trigger] chunk(line, width, k)),
        !continuation_marker().is_prefix_of(decode_utf8(chunk(line, width, 0))),
    ensures
        line_fragments(line, width).len() == 4,
        line_fragments(line, width)[0] == decode_utf8(chunk(line, width, 0)),
        !continuation_marker().is_prefix_of(line_fragments(line, width)[0]),
        forall|k: nat|
            1 <= k < 4 ==> #[trigger] line_fragments(line, width)[k as int]
                == continuation_marker() + decode_utf8(chunk(line, width, k)),
        forall|k: int|
            1 <= k < 4 ==> continuation_marker().is_prefix_of(
                #[trigger] line_fragments(line, width)[k],
            ),
{
    let w = width as int;
    let marker = continuation_marker();
    let f3 = line_fragments_from(line, width, 3 * w);
    let f2 = line_fragments_from(line, width, 2 * w);
    let f1 = line_fragments_from(line, width, w);
    let f0 = line_fragments_from(line, width, 0);
    assert(chunk(line, width, 0) == line.subrange(0, w));
    assert(chunk(line, width, 1) == line.subrange(w, 2 * w));
    assert(chunk(line, width, 2) == line.subrange(2 * w, 3 * w));
    assert(chunk(line, width, 3) == line.subrange(3 * w, 3 * w + 5));
    assert(line_fragments_from(line, width, 3 * w + 5) =~= Seq::<Seq<char>>::empty());
    assert(f3 =~= seq![marker + decode_utf8(chunk(line, width, 3))]);
    assert(f2 =~= seq![marker + decode_utf8(chunk(line, width, 2))] + f3);
    assert(f1 =~= seq![marker + decode_utf8(chunk(line, width, 1))] + f2);
    assert(f0 =~= seq![decode_utf8(chunk(line, width, 0))] + f1);
    assert forall|k: int| 1 <= k < 4 implies marker.is_prefix_of(#[trigger] f0[k]) by {
        assert(f0[k] == marker + decode_utf8(chunk(line, width, k as nat)));
        assert(f0[k].subrange(0, marker.len() as int) =~= marker);
    }
}

/// Two lines with a line feed between them have the fragments of the first
/// line followed by those of the second. The first line is taken without
/// the carriage return that may close it.
pub proof fn lemma_two_lines(first: Seq<u8>, second: Seq<u8>, width: nat)
    requires
        forall|i: int| 0 <= i < first.len() ==> first[i] != LINE_FEED,
        forall|i: int| 0 <= i < second.len() ==> second[i] != LINE_FEED,
    ensures
        text_fragments(first + seq![LINE_FEED] + second, width) == line_fragments(
            strip_carriage_return(first),
            width,
        ) + line_fragments(second, width),
{
    let all = first + seq![LINE_FEED] + second;
    let n = first.len() as int;
    let none = Seq::<Seq<u8>>::empty();
    lemma_line_len_is(all, 0, n);
    assert(all.subrange(0, n) =~= first);
    assert(line_at(all, 0) == strip_carriage_return(first));
    assert(next_line(all, 0) == n + 1);
    lemma_fragments_of_lines_step(strip_carriage_return(first), lines_from(all, n + 1), width);
    if second.len() == 0 {
        assert(lines_from(all, n + 1) =~= none);
        assert(line_fragments(second, width) =~= Seq::<Seq<char>>::empty());
    } else {
        lemma_line_len_is(all, n + 1, all.len() as int);
        assert(all.subrange(n + 1, all.len() as int) =~= second);
        assert(line_at(all, n + 1) == second);
        assert(lines_from(all, all.len() as int) =~= none);
        assert(lines_from(all, n + 1) =~= seq![second] + none);
        lemma_fragments_of_lines_step(second, none, width);
    }
    assert(line_fragments(second, width) + Seq::<Seq<char>>::empty() =~= line_fragments(
        second,
        width,
    ));
}

/// A, then B, then A again: three rows, each counted once. This is said of
/// texts A and B of one fragment each, where the two fragments differ and
/// the store does not already end with A's.
pub proof fn lemma_no_merge_across_rows(
    rows: Seq<LogRow>,
    level_a: LogLevel,
    level_b: LogLevel,
    level_again: LogLevel,
    bytes_a: Seq<u8>,
    bytes_b: Seq<u8>,
    width: nat,
)
    requires
        text_fragments(bytes_a, width).len() == 1,
        text_fragments(bytes_b, width).len() == 1,
        text_fragments(bytes_a, width)[0] != text_fragments(bytes_b, width)[0],
        !repeats_last(rows, text_fragments(bytes_a, width)[0]),
    ensures
        merge_all(
            merge_all(
                merge_all(rows, level_a, text_fragments(bytes_a, width)),
                level_b,
                text_fragments(bytes_b, width),
            ),
            level_again,
            text_fragments(bytes_a, width),
        ) == rows.push(
            LogRow { level: level_a, text: text_fragments(bytes_a, width)[0], count: 1 },
        ).push(LogRow { level: level_b, text: text_fragments(bytes_b, width)[0], count: 1 }).push(
            LogRow { level: level_again, text: text_fragments(bytes_a, width)[0], count: 1 },
        ),
{
    let a = text_fragments(bytes_a, width)[0];
    let b = text_fragments(bytes_b, width)[0];
    assert(text_fragments(bytes_a, width) =~= seq![a]);
    assert(text_fragments(bytes_b, width) =~= seq![b]);
    let one = merge_one(rows, level_a, a);
    let two = merge_one(one, level_b, b);
    lemma_merge_all_single(rows, level_a, a);
    lemma_merge_all_single(one, level_b, b);
    lemma_merge_all_single(two, level_again, a);
}

/// The row that fragment `k` of a list is taken into, counted from the
/// oldest row: the last row that there is once the fragment has arrived.
pub open spec fn row_of(
    rows: Seq<LogRow>,
    level: LogLevel,
    fragments: Seq<Seq<char>>,
    k: int,
) -> int {
    merge_all(rows, level, fragments.take(k + 1)).len() - 1
}

/// Once a fragment has been taken into a row, that row keeps its place and
/// its text, whatever arrives afterwards.
pub proof fn lemma_row_of_holds_fragment(
    rows: Seq<LogRow>,
    level: LogLevel,
    fragments: Seq<Seq<char>>,
    k: int,
)
    requires
        0 <= k < fragments.len(),
    ensures
        0 <= row_of(rows, level, fragments, k) < merge_all(rows, level, fragments).len(),
        rows.len() <= row_of(rows, level, fragments, k) + 1,
        merge_all(rows, level, fragments)[row_of(rows, level, fragments, k)].text == fragments[k],
{
    let head = fragments.take(k + 1);
    let tail = fragments.skip(k + 1);
    let arrived = merge_all(rows, level, head);
    assert(head + tail =~= fragments);
    assert(head.last() == fragments[k]);
    lemma_merge_all_concat(rows, level, head, tail);
    lemma_merge_all_extends(rows, level, head);
    lemma_merge_all_extends(arrived, level, tail);
    assert(merge_all(arrived, level, tail)[arrived.len() - 1].text == arrived[arrived.len()
        - 1].text);
}

/// Within one emission the fragments keep their order: a later fragment is
/// never in an earlier row than a fragment before it.
pub proof fn lemma_fragments_keep_order(
    rows: Seq<LogRow>,
    level: LogLevel,
    fragments: Seq<Seq<char>>,
    i: int,
    j: int,
)
    requires
        0 <= i <= j < fragments.len(),
    ensures
        row_of(rows, level, fragments, i) <= row_of(rows, level, fragments, j),
{
    let upto_i = fragments.take(i + 1);
    let upto_j = fragments.take(j + 1);
    let between = upto_j.skip(i + 1);
    assert(upto_j.take(i + 1) =~= upto_i);
    assert(upto_i + between =~= upto_j);
    lemma_merge_all_concat(rows, level, upto_i, between);
    lemma_merge_all_extends(merge_all(rows, level, upto_i), level, between);
}

/// Of two emissions, one completed before the other starts, every fragment
/// of the first is in a row at or before the row of every fragment of the
/// second, and each of those rows shows its fragment.
pub proof fn lemma_emissions_keep_order(
    rows: Seq<LogRow>,
    first_level: LogLevel,
    first: Seq<Seq<char>>,
    second_level: LogLevel,
    second: Seq<Seq<char>>,
    i: int,
    j: int,
)
    requires
        0 <= i < first.len(),
        0 <= j < second.len(),
    ensures
        ({
            let between = merge_all(rows, first_level, first);
            let after = merge_all(between, second_level, second);
            let p = row_of(rows, first_level, first, i);
            let q = row_of(between, second_level, second, j);
            &&& 0 <= p <= q < after.len()
            &&& after[p].text == first[i]
            &&& after[q].text == second[j]
        }),
{
    let between = merge_all(rows, first_level, first);
    let p = row_of(rows, first_level, first, i);
    lemma_row_of_holds_fragment(rows, first_level, first, i);
    lemma_row_of_holds_fragment(between, second_level, second, j);
    lemma_merge_all_extends(between, second_level, second);
    assert(merge_all(between, second_level, second)[p].text == between[p].text);
}

} // verus!
