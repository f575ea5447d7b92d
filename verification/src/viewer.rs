//! The state behind the sheet viewer: which sheets are shown, and the frame
//! at which passthrough is switched on.

use vstd::prelude::*;

verus! {

/// The frame on which passthrough is switched on.
pub const PASSTHROUGH_FRAME: u32 = 100;

/// The frame at which the counter stops counting.
pub const FRAME_LIMIT: u32 = 500;

/// How many sheets the book has.
pub const SHEET_COUNT: usize = 10;

/// How many sheets are shown side by side.
pub const SHEETS_SHOWN: usize = 2;

/// The highest sheet that can be the left one of those shown.
pub const LAST_LEFT_SHEET: usize = 8;

/// The counter after one more frame: one up, until the limit is reached.
pub open spec fn next_frame(frame: nat) -> nat {
    if frame < FRAME_LIMIT {
        frame + 1
    } else {
        frame
    }
}

/// The counter after `frames` frames, counted from the start.
pub open spec fn frame_after(frames: nat) -> nat {
    if frames < FRAME_LIMIT {
        frames
    } else {
        FRAME_LIMIT as nat
    }
}

/// Counts the frames that were drawn, up to a limit.
pub struct FrameCounter {
    frame: u32,
}

impl View for FrameCounter {
    type V = nat;

    closed spec fn view(&self) -> nat {
        self.frame as nat
    }
}

impl FrameCounter {
    /// A counter before the first frame.
    pub fn new() -> (counter: Self)
        ensures
            counter@ == 0,
    {
        FrameCounter { frame: 0 }
    }

    /// The number of frames counted so far.
    pub fn frame(&self) -> (frame: u32)
        ensures
            frame == self@,
    {
        self.frame
    }

    /// Counts one frame, and says whether passthrough is to be switched on
    /// with it.
    pub fn tick(&mut self) -> (switch_on: bool)
        ensures
            final(self)@ == next_frame(old(self)@),
            switch_on == (final(self)@ == PASSTHROUGH_FRAME),
    {
        if self.frame < FRAME_LIMIT {
            self.frame = self.frame + 1;
        }
        self.frame == PASSTHROUGH_FRAME
    }
}

/// Counting frame by frame from the start gives `frame_after`.
pub proof fn lemma_frame_after_step(frames: nat)
    ensures
        frame_after(0) == 0,
        frame_after(frames + 1) == next_frame(frame_after(frames)),
{
}

/// Passthrough is switched on with one frame only: the one that brings the
/// counter to `PASSTHROUGH_FRAME`, counted from the start.
pub proof fn lemma_passthrough_once(frames: nat)
    ensures
        next_frame(frame_after(frames)) == PASSTHROUGH_FRAME <==> frames + 1 == PASSTHROUGH_FRAME,
{
}

/// The sheet after a step back.
pub open spec fn previous_sheet(index: nat) -> nat {
    if index > 0 {
        (index - 1) as nat
    } else {
        index
    }
}

/// The sheet after a step forward.
pub open spec fn next_sheet(index: nat) -> nat {
    if index < LAST_LEFT_SHEET {
        index + 1
    } else {
        index
    }
}

/// The sheets that are shown when `index` is the left one, of a book of
/// `count` sheets, from left to right.
pub open spec fn shown_sheets(index: nat, count: nat) -> Seq<usize> {
    Seq::new(
        if index >= count {
            0nat
        } else if count - index < SHEETS_SHOWN {
            (count - index) as nat
        } else {
            SHEETS_SHOWN as nat
        },
        |slot: int| (index + slot) as usize,
    )
}

/// Which sheet of the book is the left one of those shown.
pub struct SheetCursor {
    index: usize,
}

impl View for SheetCursor {
    type V = nat;

    closed spec fn view(&self) -> nat {
        self.index as nat
    }
}

impl SheetCursor {
    #[verifier::type_invariant]
    spec fn in_range(&self) -> bool {
        self.index <= LAST_LEFT_SHEET
    }

    /// A cursor on the first sheet.
    pub fn new() -> (cursor: Self)
        ensures
            cursor@ == 0,
    {
        SheetCursor { index: 0 }
    }

    /// The left one of the sheets shown.
    pub fn index(&self) -> (index: usize)
        ensures
            index == self@,
            index <= LAST_LEFT_SHEET,
    {
        proof {
            use_type_invariant(self);
        }
        self.index
    }

    /// Steps one sheet back, unless the first sheet is shown.
    pub fn previous(&mut self)
        ensures
            final(self)@ == previous_sheet(old(self)@),
    {
        proof {
            use_type_invariant(&*self);
        }
        if self.index > 0 {
            self.index = self.index - 1;
        }
    }

    /// Steps one sheet forward, unless the last sheets are shown.
    pub fn next(&mut self)
        ensures
            final(self)@ == next_sheet(old(self)@),
    {
        proof {
            use_type_invariant(&*self);
        }
        if self.index < LAST_LEFT_SHEET {
            self.index = self.index + 1;
        }
    }

    /// The sheets to show, from left to right, of a book of `count` sheets.
    /// The place of a sheet in the result is the slot it is drawn in.
    pub fn shown(&self, count: usize) -> (sheets: Vec<usize>)
        ensures
            sheets@ == shown_sheets(self@, count as nat),
    {
        proof {
            use_type_invariant(self);
        }
        let mut sheets: Vec<usize> = Vec::new();
        let mut slot: usize = 0;
        while slot < SHEETS_SHOWN && self.index + slot < count
            invariant
                self.index <= LAST_LEFT_SHEET,
                slot <= SHEETS_SHOWN,
                self.index + slot <= count || slot == 0,
                sheets@.len() == slot,
                forall|k: int| 0 <= k < slot ==> sheets@[k] == self.index + k,
            decreases SHEETS_SHOWN - slot,
        {
            sheets.push(self.index + slot);
            slot += 1;
        }
        assert(sheets@ =~= shown_sheets(self@, count as nat));
        sheets
    }
}

} // verus!
