//! A character stream over a text buffer that folds `\r`, `\n` and `\r\n` into
//! one logical `\n` and knows the position of the character it showed last.

use core::str::CharIndices;
use vstd::prelude::*;
use vstd::string::StringSliceAdditionalSpecFns;

use super::layout::{
    after, aligned, break_before, byte_offset, char_at, fits, last_start,
    lemma_byte_offset_increases, lemma_byte_offset_is_encoded_length, lemma_line_col_bounds,
    lemma_position_fits, lemma_position_follows, position_at, position_before, start_position,
};
use super::Position;

verus! {

/// `core::str::CharIndices`, carried as an opaque value.
#[verifier::external_type_specification]
#[verifier::external_body]
pub struct ExCharIndices<'a>(CharIndices<'a>);

/// The `(byte offset, character)` pairs that a `CharIndices` has not handed out
/// yet, in the order in which it will.
pub uninterp spec fn pending(it: CharIndices<'_>) -> Seq<(usize, char)>;

/// Every character of `text` from index `from` on, paired with the byte offset
/// at which it starts.
pub open spec fn indexed(text: Seq<char>, from: int) -> Seq<(usize, char)> {
    Seq::new(
        (text.len() - from) as nat,
        |k: int| (byte_offset(text, from + k) as usize, text[from + k]),
    )
}

/// `str::char_indices`. Trusted: the iterator starts with every character of
/// the string still to come, each with the byte offset at which it starts.
#[verifier::external_body]
fn char_indices<'a>(data: &'a str) -> (it: CharIndices<'a>)
    ensures
        pending(it) == indexed(data@, 0),
{
    data.char_indices()
}

/// `CharIndices::next`. Trusted: hands out the first pending pair and leaves
/// the rest; with nothing pending it returns `None` and stays as it is.
#[verifier::external_body]
fn pull<'a>(it: &mut CharIndices<'a>) -> (r: Option<(usize, char)>)
    ensures
        pending(*old(it)).len() > 0 ==> r == Some(pending(*old(it))[0]) && pending(*final(it))
            == pending(*old(it)).drop_first(),
        pending(*old(it)).len() == 0 ==> r is None && pending(*final(it)) == pending(*old(it)),
{
    it.next()
}

/// The character stream. Its state is the text it was made for and a cursor,
/// the number of raw characters taken so far; the position and the line-break
/// flag follow the cursor between calls of `next`.
pub struct Stream<'a> {
    char_indices: CharIndices<'a>,
    col: usize,
    offset: usize,
    line: usize,
    peek: Option<(usize, char)>,
    had_linebreak: bool,
    text: Ghost<Seq<char>>,
}

impl<'a> Stream<'a> {
    /// The text that the stream reads.
    pub closed spec fn text(&self) -> Seq<char> {
        self.text@
    }

    /// Number of raw characters taken from the text; one that was pushed back
    /// does not count.
    pub closed spec fn cursor(&self) -> int {
        self.text@.len() - pending(self.char_indices).len() - if self.peek is Some {
            1int
        } else {
            0int
        }
    }

    /// The position that `get_position` reports.
    pub closed spec fn position(&self) -> Position {
        Position { offset: self.offset, line: self.line, col: self.col }
    }

    /// Whether the next position update starts a new line.
    pub closed spec fn pending_break(&self) -> bool {
        self.had_linebreak
    }

    /// Whether a raw character that was looked at is waiting to be taken
    /// again.
    pub closed spec fn pushed_back(&self) -> bool {
        self.peek is Some
    }

    /// The raw source is consistent with the text and the cursor: what has not
    /// been taken is exactly the text from the cursor on.
    pub closed spec fn inv(&self) -> bool {
        &&& fits(self.text@)
        &&& 0 <= self.cursor() <= self.text@.len()
        &&& match self.peek {
            Some(p) => {
                &&& self.cursor() < self.text@.len()
                &&& p == (byte_offset(self.text@, self.cursor()) as usize, self.text@[self.cursor()])
                &&& pending(self.char_indices) == indexed(self.text@, self.cursor() + 1)
            },
            None => pending(self.char_indices) == indexed(self.text@, self.cursor()),
        }
    }

    /// The state between two calls of `next`: the cursor stands at the start of
    /// a logical character, and position and line-break flag are those of the
    /// character shown last.
    pub open spec fn wf(&self) -> bool {
        &&& self.inv()
        &&& aligned(self.text(), self.cursor())
        &&& self.position() == position_before(self.text(), self.cursor())
        &&& self.pending_break() == break_before(self.text(), self.cursor())
    }

    /// The cursor stays inside the text, and the text fits a machine word.
    pub proof fn lemma_inv_bounds(&self)
        requires
            self.inv(),
        ensures
            0 <= self.cursor() <= self.text().len(),
            fits(self.text()),
    {
    }

    /// A stream at the start of `data`.
    pub fn new(data: &'a str) -> (s: Self)
        ensures
            s.wf(),
            s.text() == data@,
            s.cursor() == 0,
            s.position() == start_position(),
            !s.pending_break(),
            !s.pushed_back(),
    {
        // The text is a byte slice in memory, so its length fits a machine word.
        let bytes = data.as_bytes();
        proof {
            vstd::slice::axiom_spec_len(bytes);
            lemma_byte_offset_is_encoded_length(data@, data@.len() as int);
            assert(data@.take(data@.len() as int) =~= data@);
        }
        Self {
            char_indices: char_indices(data),
            col: 0,
            offset: 0,
            line: 1,
            peek: None,
            had_linebreak: false,
            text: Ghost(data@),
        }
    }

    /// The position of the character shown last, or the start position.
    pub fn get_position(&self) -> (p: Position)
        ensures
            p == self.position(),
    {
        Position { offset: self.offset, line: self.line, col: self.col }
    }

    /// Shows the next logical character and moves position and cursor to it;
    /// `None` at the end of the text, where nothing changes.
    pub fn next(&mut self) -> (r: Option<char>)
        requires
            old(self).wf(),
        ensures
            final(self).wf(),
            final(self).text() == old(self).text(),
            r == char_at(old(self).text(), old(self).cursor()),
            final(self).cursor() == after(old(self).text(), old(self).cursor()),
            r is Some ==> final(self).position() == position_at(
                old(self).text(),
                old(self).cursor(),
            ),
            r is None ==> final(self).position() == old(self).position(),
            final(self).position().offset >= old(self).position().offset,
            old(self).cursor() > 0 && r is Some ==> final(self).position().offset > old(
                self,
            ).position().offset,
    {
        let ghost text = self.text();
        let ghost c = self.cursor();
        proof {
            if c < text.len() {
                lemma_position_fits(text, c);
                if c > 0 {
                    lemma_position_fits(text, last_start(text, c));
                    lemma_line_col_bounds(text, last_start(text, c));
                    lemma_position_follows(text, c);
                    lemma_byte_offset_increases(text, last_start(text, c), c);
                }
            }
        }
        match self.next_internal() {
            Some((i, raw)) => {
                if raw == '\r' {
                    self.update_pos(i);
                    match self.next_internal() {
                        Some((j, cc)) => {
                            if cc != '\n' {
                                self.peek = Some((j, cc));
                            }
                        },
                        None => {},
                    }
                    self.had_linebreak = true;
                    Some('\n')
                } else if raw == '\n' {
                    self.update_pos(i);
                    self.had_linebreak = true;
                    Some('\n')
                } else {
                    self.update_pos(i);
                    Some(raw)
                }
            },
            None => None,
        }
    }

    /// Takes the next raw character with its byte offset: the one that was
    /// pushed back, if any, else the next of the text. Position and line-break
    /// flag stay as they are.
    pub fn next_internal(&mut self) -> (r: Option<(usize, char)>)
        requires
            old(self).inv(),
        ensures
            final(self).inv(),
            final(self).text() == old(self).text(),
            final(self).position() == old(self).position(),
            final(self).pending_break() == old(self).pending_break(),
            !final(self).pushed_back(),
            old(self).cursor() >= old(self).text().len() ==> r is None && final(self).cursor()
                == old(self).cursor(),
            old(self).cursor() < old(self).text().len() ==> r == Some(
                (
                    byte_offset(old(self).text(), old(self).cursor()) as usize,
                    old(self).text()[old(self).cursor()],
                ),
            ) && final(self).cursor() == old(self).cursor() + 1,
    {
        match self.peek {
            None => {
                let r = pull(&mut self.char_indices);
                proof {
                    let c = old(self).cursor();
                    if c < self.text@.len() {
                        assert(indexed(self.text@, c).drop_first() =~= indexed(self.text@, c + 1));
                    }
                }
                r
            },
            Some(p) => {
                self.peek = None;
                Some(p)
            },
        }
    }

    /// Moves the position to a character that starts at byte `offset`: onto
    /// the first column of the next line if a line break is pending, which is
    /// then cleared, else one column on.
    pub fn update_pos(&mut self, offset: usize)
        requires
            old(self).pending_break() ==> old(self).position().line < usize::MAX,
            !old(self).pending_break() ==> old(self).position().col < usize::MAX,
        ensures
            final(self).inv() == old(self).inv(),
            final(self).text() == old(self).text(),
            final(self).cursor() == old(self).cursor(),
            final(self).pushed_back() == old(self).pushed_back(),
            !final(self).pending_break(),
            final(self).position().offset == offset,
            old(self).pending_break() ==> final(self).position().line == old(self).position().line
                + 1 && final(self).position().col == 1,
            !old(self).pending_break() ==> final(self).position().line == old(
                self,
            ).position().line && final(self).position().col == old(self).position().col + 1,
    {
        self.offset = offset;
        if self.had_linebreak {
            self.line += 1;
            self.col = 1;
            self.had_linebreak = false;
        } else {
            self.col += 1;
        }
    }
}

} // verus!
