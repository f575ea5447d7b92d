//! The log store: rows in the order of arrival, repeats counted.

use crate::fragment::texts;
use crate::split::{lemma_empty_text_has_no_fragments, split_fragments, text_fragments};
use vstd::prelude::*;
use vstd::string::*;

verus! {

/// How severe a log entry is.
#[derive(Clone, Copy, Debug, PartialEq, Eq, Structural)]
pub enum LogLevel {
    /// Details about what exactly is going on.
    Diagnostic,
    /// Non-critical information.
    Info,
    /// Something went wrong, within what is expected.
    Warning,
    /// Something went wrong and needs fixing.
    Error,
}

/// One row of the log display.
#[derive(Clone, Debug, PartialEq, Eq)]
pub struct LogItem {
    /// The severity of the fragment that opened the row.
    pub level: LogLevel,
    /// One fragment of a line.
    pub text: String,
    /// How many times in a row the fragment arrived.
    pub count: u32,
}

/// The highest value of a row's counter. A row that has reached it stays
/// there, whatever else arrives.
pub const COUNT_MAX: u32 = 0xffff_ffff;

/// The width, in bytes, that a store cuts lines to unless told otherwise.
pub const DEFAULT_WIDTH: usize = 120;

/// A row as the contracts see it.
pub struct LogRow {
    pub level: LogLevel,
    pub text: Seq<char>,
    pub count: nat,
}

impl View for LogItem {
    type V = LogRow;

    open spec fn view(&self) -> LogRow {
        LogRow { level: self.level, text: self.text@, count: self.count as nat }
    }
}

/// The rows that a list of items stands for.
pub open spec fn rows_of(items: Seq<LogItem>) -> Seq<LogRow> {
    Seq::new(items.len(), |i: int| items[i]@)
}

/// A counter after one more repeat.
pub open spec fn bump(count: nat) -> nat {
    if count < COUNT_MAX {
        count + 1
    } else {
        count
    }
}

/// True when a fragment with this text is counted on the last row rather
/// than stored: the store has a last row, and its text is the same. The
/// severities play no part.
pub open spec fn repeats_last(rows: Seq<LogRow>, text: Seq<char>) -> bool {
    rows.len() > 0 && rows.last().text == text
}

/// The rows after one fragment has arrived.
pub open spec fn merge_one(rows: Seq<LogRow>, level: LogLevel, text: Seq<char>) -> Seq<LogRow> {
    if repeats_last(rows, text) {
        rows.update(
            rows.len() - 1,
            LogRow { level: rows.last().level, text: text, count: bump(rows.last().count) },
        )
    } else {
        rows.push(LogRow { level: level, text: text, count: 1 })
    }
}

/// The rows after a list of fragments of one severity has arrived, one
/// after the other.
pub open spec fn merge_all(rows: Seq<LogRow>, level: LogLevel, fragments: Seq<Seq<char>>) -> Seq<
    LogRow,
>
    decreases fragments.len(),
{
    if fragments.len() == 0 {
        rows
    } else {
        merge_one(merge_all(rows, level, fragments.drop_last()), level, fragments.last())
    }
}

/// True when row `i` has another text than the row before it.
pub open spec fn differs_from_previous(rows: Seq<LogRow>, i: int) -> bool {
    rows[i - 1].text != rows[i].text
}

/// What holds of the rows of every store: each counter is at least one and
/// within its range, and no row has the same text as the row before it.
pub open spec fn well_formed(rows: Seq<LogRow>) -> bool {
    &&& forall|i: int| 0 <= i < rows.len() ==> 1 <= (#[trigger] rows[i]).count <= COUNT_MAX
    &&& forall|i: int| 0 < i < rows.len() ==> #[trigger] differs_from_previous(rows, i)
}

/// One fragment more leaves the rows well formed.
pub proof fn lemma_merge_one_well_formed(rows: Seq<LogRow>, level: LogLevel, text: Seq<char>)
    requires
        well_formed(rows),
    ensures
        well_formed(merge_one(rows, level, text)),
{
    let after = merge_one(rows, level, text);
    assert forall|i: int| 0 < i < after.len() implies #[trigger] differs_from_previous(
        after,
        i,
    ) by {
        if i < rows.len() {
            assert(differs_from_previous(rows, i));
        }
    }
}

/// The log store.
pub struct LogStore {
    items: Vec<LogItem>,
    width: usize,
}

impl View for LogStore {
    type V = Seq<LogRow>;

    closed spec fn view(&self) -> Seq<LogRow> {
        rows_of(self.items@)
    }
}

impl LogStore {
    #[verifier::type_invariant]
    spec fn valid(&self) -> bool {
        self.width > 0 && well_formed(rows_of(self.items@))
    }

    /// The width, in bytes, that this store cuts lines to.
    pub closed spec fn spec_width(&self) -> nat {
        self.width as nat
    }

    /// An empty store of the default width.
    pub fn new() -> (store: Self)
        ensures
            store@ == Seq::<LogRow>::empty(),
            store.spec_width() == DEFAULT_WIDTH,
    {
        let store = LogStore { items: Vec::new(), width: DEFAULT_WIDTH };
        assert(rows_of(store.items@) =~= Seq::<LogRow>::empty());
        store
    }

    /// An empty store that cuts lines to `width` bytes.
    pub fn with_width(width: usize) -> (store: Self)
        requires
            width > 0,
        ensures
            store@ == Seq::<LogRow>::empty(),
            store.spec_width() == width,
    {
        let store = LogStore { items: Vec::new(), width };
        assert(rows_of(store.items@) =~= Seq::<LogRow>::empty());
        store
    }

    /// A store that holds the given rows and cuts lines to `width` bytes,
    /// where that is possible: the width is not zero, every counter is at
    /// least one, and no row has the text of the row before it.
    pub fn from_items(items: Vec<LogItem>, width: usize) -> (store: Option<Self>)
        ensures
            store is Some <==> width > 0 && well_formed(rows_of(items@)),
            store matches Some(made) ==> made@ == rows_of(items@) && made.spec_width() == width,
    {
        if width == 0 {
            return None;
        }
        let ghost rows = rows_of(items@);
        let mut i: usize = 0;
        while i < items.len()
            invariant
                i <= items@.len(),
                rows == rows_of(items@),
                forall|k: int| 0 <= k < i ==> 1 <= (#[trigger] rows[k]).count <= COUNT_MAX,
                forall|k: int| 0 < k < i ==> #[trigger] differs_from_previous(rows, k),
            decreases items@.len() - i,
        {
            if items[i].count == 0 {
                assert(rows[i as int].count == 0);
                return None;
            }
            if i > 0 && items[i - 1].text == items[i].text {
                assert(!differs_from_previous(rows, i as int));
                return None;
            }
            i += 1;
        }
        Some(LogStore { items, width })
    }

    /// The width, in bytes, that this store cuts lines to.
    pub fn width(&self) -> (width: usize)
        ensures
            width == self.spec_width(),
            width > 0,
    {
        proof {
            use_type_invariant(self);
        }
        self.width
    }

    /// The number of rows.
    pub fn len(&self) -> (len: usize)
        ensures
            len == self@.len(),
    {
        self.items.len()
    }

    /// True when the store has no row.
    pub fn is_empty(&self) -> (empty: bool)
        ensures
            empty == (self@.len() == 0),
    {
        self.items.len() == 0
    }

    /// The row at `index`, counted from the oldest, if there is one.
    pub fn get(&self, index: usize) -> (item: Option<&LogItem>)
        ensures
            match item {
                Some(found) => index < self@.len() && found@ == self@[index as int],
                None => index >= self@.len(),
            },
    {
        if index < self.items.len() {
            Some(&self.items[index])
        } else {
            None
        }
    }

    /// All rows, oldest first.
    pub fn items(&self) -> (items: &Vec<LogItem>)
        ensures
            rows_of(items@) == self@,
            well_formed(self@),
    {
        proof {
            use_type_invariant(self);
        }
        &self.items
    }

    /// Takes in one fragment: counted on the last row if it repeats that
    /// row's text, stored as a new row of its own otherwise.
    pub fn append(&mut self, level: LogLevel, text: String)
        ensures
            final(self)@ == merge_one(old(self)@, level, text@),
            final(self).spec_width() == old(self).spec_width(),
            well_formed(final(self)@),
    {
        proof {
            use_type_invariant(&*self);
            lemma_merge_one_well_formed(self@, level, text@);
        }
        let mut items: Vec<LogItem> = Vec::new();
        std::mem::swap(&mut items, &mut self.items);
        let n = items.len();
        if n > 0 && items[n - 1].text == text {
            let mut last = items.pop().unwrap();
            if last.count < COUNT_MAX {
                last.count = last.count + 1;
            }
            items.push(last);
        } else {
            items.push(LogItem { level, text, count: 1 });
        }
        assert(rows_of(items@) =~= merge_one(old(self)@, level, text@));
        self.items = items;
    }

    /// Takes in one log emission: the text is cut into its fragments, and
    /// the fragments are taken in one after the other, all with the
    /// severity of the emission.
    pub fn ingest(&mut self, level: LogLevel, text: &str)
        ensures
            final(self)@ == merge_all(
                old(self)@,
                level,
                text_fragments(text.spec_bytes(), old(self).spec_width()),
            ),
            final(self).spec_width() == old(self).spec_width(),
            well_formed(final(self)@),
            text@.len() == 0 ==> final(self)@ == old(self)@,
    {
        proof {
            use_type_invariant(&*self);
            if text@.len() == 0 {
                assert(text.spec_bytes() =~= Seq::<u8>::empty());
                lemma_empty_text_has_no_fragments(self.width as nat);
            }
        }
        let fragments = split_fragments(text.as_bytes(), self.width);
        let ghost all = texts(fragments@);
        for fragment in it: fragments
            invariant
                it.seq() == fragments@,
                all == texts(fragments@),
                self.spec_width() == old(self).spec_width(),
                well_formed(self@),
                self@ == merge_all(old(self)@, level, all.take(it.index() as int)),
        {
            assert(all.take(it.index() + 1).drop_last() =~= all.take(it.index() as int));
            self.append(level, fragment);
        }
        assert(all.take(all.len() as int) =~= all);
    }
}

} // verus!
