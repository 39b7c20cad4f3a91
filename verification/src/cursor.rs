//! A lookahead cursor over a character sequence.
//!
//! The cursor separates what has been *committed* (consumed for good) from
//! what has merely been *peeked at*. `peek` inspects the character at the
//! current lookahead offset, `advance_cursor` moves that offset forward,
//! and `reset_cursor` rolls it back to the committed position. Consuming a
//! character with `next` commits one position and pulls the lookahead
//! offset back by one, so that peeks stay anchored just past the committed
//! position.

use vstd::prelude::*;

verus! {

/// A committed position plus a lookahead offset into a character sequence.
pub struct Cursor {
    chars: Vec<char>,
    index: usize,
    offset: usize,
}

impl Cursor {
    /// The whole character sequence the cursor walks over.
    pub closed spec fn src(&self) -> Seq<char> {
        self.chars@
    }

    /// The committed position: everything before it has been consumed.
    pub closed spec fn pos(&self) -> int {
        self.index as int
    }

    /// The lookahead offset, counted from the committed position.
    pub closed spec fn ahead(&self) -> int {
        self.offset as int
    }

    /// Well-formedness: the committed position and the lookahead offset
    /// never point past the end of the sequence.
    pub open spec fn wf(&self) -> bool {
        0 <= self.pos() && 0 <= self.ahead() && self.pos() + self.ahead() <= self.src().len()
    }

    pub fn new(chars: Vec<char>) -> (c: Cursor)
        ensures
            c.wf(),
            c.src() == chars@,
            c.pos() == 0,
            c.ahead() == 0,
    {
        Cursor { chars, index: 0, offset: 0 }
    }

    /// The character at the lookahead position, without consuming it;
    /// `None` once the lookahead has reached the end of the input.
    pub fn peek(&self) -> (r: Option<char>)
        requires
            self.wf(),
        ensures
            r == (if self.pos() + self.ahead() < self.src().len() {
                Some(self.src()[self.pos() + self.ahead()])
            } else {
                None::<char>
            }),
    {
        if self.offset < self.chars.len() - self.index {
            Some(self.chars[self.index + self.offset])
        } else {
            None
        }
    }

    /// Moves the lookahead offset one character forward. At the end of the
    /// input it stays put, where `peek` answers `None` either way.
    pub fn advance_cursor(&mut self)
        requires
            old(self).wf(),
        ensures
            final(self).wf(),
            final(self).src() == old(self).src(),
            final(self).pos() == old(self).pos(),
            final(self).ahead() == (if old(self).pos() + old(self).ahead()
                < old(self).src().len() {
                old(self).ahead() + 1
            } else {
                old(self).ahead()
            }),
    {
        if self.offset < self.chars.len() - self.index {
            self.offset = self.offset + 1;
        }
    }

    /// Rolls the lookahead back to the committed position, discarding all
    /// peeks since the last commit.
    pub fn reset_cursor(&mut self)
        requires
            old(self).wf(),
        ensures
            final(self).wf(),
            final(self).src() == old(self).src(),
            final(self).pos() == old(self).pos(),
            final(self).ahead() == 0,
    {
        self.offset = 0;
    }

    /// Consumes and returns the next uncommitted character, committing one
    /// position forward; the lookahead offset follows, staying anchored to
    /// the committed position.
    pub fn next(&mut self) -> (r: Option<char>)
        requires
            old(self).wf(),
        ensures
            final(self).wf(),
            final(self).src() == old(self).src(),
            old(self).pos() < old(self).src().len() ==> {
                &&& r == Some(old(self).src()[old(self).pos()])
                &&& final(self).pos() == old(self).pos() + 1
                &&& final(self).ahead() == (if old(self).ahead() > 0 {
                    old(self).ahead() - 1
                } else {
                    0int
                })
            },
            old(self).pos() >= old(self).src().len() ==> {
                &&& r == None::<char>
                &&& final(self).pos() == old(self).pos()
                &&& final(self).ahead() == old(self).ahead()
            },
    {
        if self.index < self.chars.len() {
            let c = self.chars[self.index];
            self.index = self.index + 1;
            if self.offset > 0 {
                self.offset = self.offset - 1;
            }
            Some(c)
        } else {
            None
        }
    }
}

} // verus!
