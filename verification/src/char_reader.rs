//! A character source with one-character lookahead and a one-step pushback.
//!
//! The reader walks a sequence of already-decoded characters and reports, for
//! every character it hands out, the line and column at which that character
//! stands. Lines and columns are 1-based; consuming a newline advances the
//! line counter and rests the column counter at 0 until the next character.

use vstd::prelude::*;

verus! {

/// The (line, column-rest) state after the first `n` characters of `s` have
/// been consumed. The initial state is `(1, 0)`; a character is reported at
/// column `state.1 + 1` of line `state.0`.
pub open spec fn pos_after(s: Seq<char>, n: int) -> (int, int)
    decreases n,
{
    if n <= 0 {
        (1int, 0int)
    } else {
        let prev = pos_after(s, n - 1);
        if s[n - 1] == '\n' {
            (prev.0 + 1, 0int)
        } else {
            (prev.0, prev.1 + 1)
        }
    }
}

/// Line on which the character at index `i` of `s` is reported.
pub open spec fn line_at(s: Seq<char>, i: int) -> int {
    pos_after(s, i).0
}

/// Column at which the character at index `i` of `s` is reported.
pub open spec fn col_at(s: Seq<char>, i: int) -> int {
    pos_after(s, i).1 + 1
}

/// Both counters stay within the count of consumed characters.
pub proof fn lemma_pos_after_bounds(s: Seq<char>, n: int)
    requires
        0 <= n,
    ensures
        1 <= pos_after(s, n).0 <= n + 1,
        0 <= pos_after(s, n).1 <= n,
    decreases n,
{
    if n > 0 {
        lemma_pos_after_bounds(s, n - 1);
    }
}

/// Failure of a read: the source held no further character. Carries the
/// (line, column-rest) state at the point of exhaustion.
#[derive(Clone, Copy, Debug, PartialEq, Eq, Structural)]
pub enum Error {
    EOF(usize, usize),
}

/// Reads characters one at a time, with lookahead that may run ahead of the
/// consumed prefix and a single-step pushback slot for the lookahead cursor.
pub struct CharReader {
    chars: Vec<char>,
    /// Count of consumed characters.
    taken: usize,
    /// Count of characters the lookahead has moved past; never below `taken`.
    seen: usize,
    /// Position state for the consumed prefix: `pos_after(chars, taken)`.
    line: usize,
    pos: usize,
    /// Position state for the lookahead cursor: `pos_after(chars, seen)`.
    peek_line: usize,
    peek_pos: usize,
    /// Saved lookahead state, for undoing the most recent peek.
    save_line: usize,
    save_pos: usize,
    /// Whether the pushback slot is armed (a peek happened and was not yet
    /// consumed, pushed back, or skipped over).
    armed: bool,
}

impl CharReader {
    /// The characters this reader walks.
    pub closed spec fn stream(self) -> Seq<char> {
        self.chars@
    }

    /// How many characters have been consumed.
    pub closed spec fn consumed(self) -> int {
        self.taken as int
    }

    /// How far the lookahead cursor has moved.
    pub closed spec fn peeked(self) -> int {
        self.seen as int
    }

    /// The pushback slot is armed: `peek_back` may be called.
    pub closed spec fn can_push_back(self) -> bool {
        self.armed
    }

    pub closed spec fn wf(self) -> bool {
        &&& self.taken <= self.seen <= self.chars@.len()
        &&& self.chars@.len() < usize::MAX
        &&& (self.line as int, self.pos as int) == pos_after(self.chars@, self.taken as int)
        &&& (self.peek_line as int, self.peek_pos as int) == pos_after(
            self.chars@,
            self.seen as int,
        )
        &&& (self.armed ==> self.taken < self.seen && (
        self.save_line as int,
        self.save_pos as int,
        ) == pos_after(self.chars@, self.seen as int - 1))
    }

    /// What well-formedness guarantees about the counters.
    pub proof fn lemma_wf_bounds(r: CharReader)
        requires
            r.wf(),
        ensures
            0 <= r.consumed() <= r.peeked() <= r.stream().len() < usize::MAX,
    {
    }

    pub fn new(chars: Vec<char>) -> (r: CharReader)
        requires
            chars@.len() < usize::MAX,
        ensures
            r.wf(),
            r.stream() == chars@,
            r.consumed() == 0,
            r.peeked() == 0,
    {
        CharReader {
            chars,
            taken: 0,
            seen: 0,
            line: 1,
            pos: 0,
            peek_line: 1,
            peek_pos: 0,
            save_line: 1,
            save_pos: 0,
            armed: false,
        }
    }

    /// Consume and return the next character together with the line and
    /// column at which it stands; report exhaustion as `Error::EOF` carrying
    /// the current position state.
    pub fn read(&mut self) -> (r: Result<(char, usize, usize), Error>)
        requires
            old(self).wf(),
        ensures
            final(self).wf(),
            final(self).stream() == old(self).stream(),
            ({
                let s = old(self).stream();
                let c = old(self).consumed();
                if c < s.len() {
                    &&& r matches Ok(t) && t.0 == s[c] && t.1 as int == line_at(s, c) && t.2
                        as int == col_at(s, c)
                    &&& final(self).consumed() == c + 1
                    &&& final(self).peeked() == if old(self).peeked() > c + 1 {
                        old(self).peeked()
                    } else {
                        c + 1
                    }
                } else {
                    &&& r matches Err(e) && e == Error::EOF(
                        pos_after(s, c).0 as usize,
                        pos_after(s, c).1 as usize,
                    )
                    &&& *final(self) == *old(self)
                }
            }),
    {
        proof {
            lemma_pos_after_bounds(self.chars@, self.taken as int);
        }
        if self.taken < self.chars.len() {
            let c = self.chars[self.taken];
            let at_line = self.line;
            let at_col = self.pos + 1;
            if c == '\n' {
                self.line = self.line + 1;
                self.pos = 0;
            } else {
                self.pos = at_col;
            }
            self.taken = self.taken + 1;
            if self.seen < self.taken {
                self.seen = self.taken;
                self.peek_line = self.line;
                self.peek_pos = self.pos;
            }
            self.armed = false;
            Ok((c, at_line, at_col))
        } else {
            Err(Error::EOF(self.line, self.pos))
        }
    }

    /// Look at the next character the lookahead cursor has not yet passed,
    /// without consuming anything; the cursor moves one step further, so a
    /// following `peek` inspects the character after this one. Arms the
    /// pushback slot. At exhaustion, reports `Error::EOF` with the cursor's
    /// position state and moves nothing.
    pub fn peek(&mut self) -> (r: Result<(char, usize, usize), Error>)
        requires
            old(self).wf(),
        ensures
            final(self).wf(),
            final(self).stream() == old(self).stream(),
            final(self).consumed() == old(self).consumed(),
            ({
                let s = old(self).stream();
                let p = old(self).peeked();
                if p < s.len() {
                    &&& r matches Ok(t) && t.0 == s[p] && t.1 as int == line_at(s, p) && t.2
                        as int == col_at(s, p)
                    &&& final(self).peeked() == p + 1
                    &&& final(self).can_push_back()
                } else {
                    &&& r matches Err(e) && e == Error::EOF(
                        pos_after(s, p).0 as usize,
                        pos_after(s, p).1 as usize,
                    )
                    &&& *final(self) == *old(self)
                }
            }),
    {
        proof {
            lemma_pos_after_bounds(self.chars@, self.seen as int);
        }
        if self.seen < self.chars.len() {
            let c = self.chars[self.seen];
            let at_line = self.peek_line;
            let at_col = self.peek_pos + 1;
            self.save_line = self.peek_line;
            self.save_pos = self.peek_pos;
            if c == '\n' {
                self.peek_line = self.peek_line + 1;
                self.peek_pos = 0;
            } else {
                self.peek_pos = at_col;
            }
            self.seen = self.seen + 1;
            self.armed = true;
            Ok((c, at_line, at_col))
        } else {
            Err(Error::EOF(self.peek_line, self.peek_pos))
        }
    }

    /// Undo the most recent peek: the lookahead cursor steps back one
    /// character, so that character is produced again. Requires an armed
    /// pushback slot — peeking before each pushback and never pushing back
    /// twice in a row is the caller's contract.
    pub fn peek_back(&mut self)
        requires
            old(self).wf(),
            old(self).can_push_back(),
        ensures
            final(self).wf(),
            final(self).stream() == old(self).stream(),
            final(self).consumed() == old(self).consumed(),
            final(self).peeked() == old(self).peeked() - 1,
    {
        self.peek_line = self.save_line;
        self.peek_pos = self.save_pos;
        self.seen = self.seen - 1;
        self.armed = false;
    }

    /// Forget all lookahead: the cursor returns to the consumed prefix, so
    /// the next peek inspects the first unconsumed character again.
    pub fn reset_peek(&mut self)
        requires
            old(self).wf(),
        ensures
            final(self).wf(),
            final(self).stream() == old(self).stream(),
            final(self).consumed() == old(self).consumed(),
            final(self).peeked() == final(self).consumed(),
    {
        self.peek_line = self.line;
        self.peek_pos = self.pos;
        self.seen = self.taken;
        self.armed = false;
    }

    /// Discard exactly `n` upcoming characters, already verified through
    /// `peek`, without handing them out again; report exhaustion as the same
    /// `Error::EOF` a `read` would give.
    pub fn consume(&mut self, n: usize) -> (r: Result<(), Error>)
        requires
            old(self).wf(),
        ensures
            final(self).wf(),
            final(self).stream() == old(self).stream(),
            ({
                let s = old(self).stream();
                let c = old(self).consumed();
                if c + n <= s.len() {
                    &&& r matches Ok(_)
                    &&& final(self).consumed() == c + n
                    &&& final(self).peeked() == if old(self).peeked() > c + n {
                        old(self).peeked()
                    } else {
                        c + n
                    }
                } else {
                    &&& r matches Err(e) && e == Error::EOF(
                        pos_after(s, s.len() as int).0 as usize,
                        pos_after(s, s.len() as int).1 as usize,
                    )
                    &&& final(self).consumed() == s.len()
                }
            }),
    {
        let mut i: usize = 0;
        while i < n
            invariant
                self.wf(),
                self.stream() == old(self).stream(),
                i <= n,
                self.consumed() == old(self).consumed() + i,
                old(self).consumed() + i <= self.stream().len(),
                self.peeked() == if old(self).peeked() > old(self).consumed() + i {
                    old(self).peeked()
                } else {
                    old(self).consumed() + i
                },
            decreases n - i,
        {
            match self.read() {
                Ok(_) => {
                    i = i + 1;
                },
                Err(e) => {
                    return Err(e);
                },
            }
        }
        Ok(())
    }
}

} // verus!
