//! The tokenizer: groups the stream's characters into positioned tokens and
//! keeps track of whether it stands inside a quoted span.

use vstd::prelude::*;

use super::layout::{
    after, aligned, col_at, is_break, last_start, lemma_position_fits, lemma_position_follows,
    logical_char, position_at,
};
use super::stream::Stream;
use super::Position;

verus! {

/// One lexical unit and the position of its first character.
#[derive(Debug, PartialEq)]
pub struct Token<'a> {
    pub pos: Position,
    pub content: TokenType<'a>,
}

impl<'a> Token<'a> {
    /// A token of the given content that starts at `pos`.
    pub fn new(pos: Position, content: TokenType<'a>) -> (t: Self)
        ensures
            t == (Token { pos, content }),
    {
        Self { pos, content }
    }
}

/// What a token is. `Spaces` holds the length of a run of spaces at the start
/// of a line; `String` holds a span of the input.
#[derive(Debug, PartialEq)]
pub enum TokenType<'a> {
    Spaces(usize),
    QuestionMark,
    Dash,
    Newline,
    Colon,
    LeftBraket,
    RightBraket,
    LeftSqBraket,
    RightSqBraket,
    DoubleQuote,
    SingleQuote,
    String(&'a str),
}

/// What the tokenizer's next token depends on, besides the text: the index of
/// the next character to classify and the two quote flags.
pub struct ScanState {
    pub cursor: int,
    pub in_double_quote: bool,
    pub in_single_quote: bool,
}

/// Number of space characters that follow each other from index `i` on.
pub open spec fn space_run(text: Seq<char>, i: int) -> int
    decreases text.len() - i,
{
    if 0 <= i < text.len() && text[i] == ' ' {
        1 + space_run(text, i + 1)
    } else {
        0
    }
}

/// The character at `i` starts an indentation run: a space in column 1.
pub open spec fn starts_indent(text: Seq<char>, i: int) -> bool {
    0 <= i < text.len() && text[i] == ' ' && col_at(text, i) == 1
}

/// The token that the logical character `c` stands for by itself, given the
/// quote flags. A quote character opens a span outside of quotes and closes a
/// span of its own kind; a line break is always a token; the other punctuation
/// counts only outside of quotes; nothing else is a token.
pub open spec fn punctuation<'a>(c: char, in_double_quote: bool, in_single_quote: bool) -> Option<
    TokenType<'a>,
> {
    let in_quote = in_double_quote || in_single_quote;
    if c == '"' {
        if !in_quote || in_double_quote {
            Some(TokenType::DoubleQuote)
        } else {
            None
        }
    } else if c == '\'' {
        if !in_quote || in_single_quote {
            Some(TokenType::SingleQuote)
        } else {
            None
        }
    } else if c == '\n' {
        Some(TokenType::Newline)
    } else if in_quote {
        None
    } else if c == ':' {
        Some(TokenType::Colon)
    } else if c == '?' {
        Some(TokenType::QuestionMark)
    } else if c == '-' {
        Some(TokenType::Dash)
    } else if c == '{' {
        Some(TokenType::LeftBraket)
    } else if c == '}' {
        Some(TokenType::RightBraket)
    } else if c == '[' {
        Some(TokenType::LeftSqBraket)
    } else if c == ']' {
        Some(TokenType::RightSqBraket)
    } else {
        None
    }
}

/// The token that starts at the state's cursor, if there is one.
pub open spec fn token_at<'a>(text: Seq<char>, s: ScanState) -> Option<Token<'a>> {
    if !(0 <= s.cursor < text.len()) {
        None
    } else if starts_indent(text, s.cursor) {
        Some(
            Token {
                pos: position_at(text, s.cursor),
                content: TokenType::Spaces(space_run(text, s.cursor) as usize),
            },
        )
    } else {
        match punctuation(logical_char(text[s.cursor]), s.in_double_quote, s.in_single_quote) {
            Some(content) => Some(Token { pos: position_at(text, s.cursor), content }),
            None => None,
        }
    }
}

/// The state after one call of `next`. An indentation run is passed whole and
/// leaves the flags alone; any other character is passed alone, and a quote
/// character that opens or closes a span sets or clears its flag.
pub open spec fn state_after(text: Seq<char>, s: ScanState) -> ScanState {
    if !(0 <= s.cursor < text.len()) {
        s
    } else if starts_indent(text, s.cursor) {
        ScanState { cursor: s.cursor + space_run(text, s.cursor), ..s }
    } else {
        let in_quote = s.in_double_quote || s.in_single_quote;
        ScanState {
            cursor: after(text, s.cursor),
            in_double_quote: if text[s.cursor] == '"' {
                !in_quote
            } else {
                s.in_double_quote
            },
            in_single_quote: if text[s.cursor] == '\'' {
                !in_quote
            } else {
                s.in_single_quote
            },
        }
    }
}

/// The tokenizer over one text buffer.
pub struct Scanner<'a> {
    data: &'a str,
    stream: Stream<'a>,
    peeked_char: Option<char>,
    in_double_quote: bool,
    in_single_quote: bool,
}

impl<'a> Scanner<'a> {
    /// The text that is tokenized.
    pub closed spec fn text(&self) -> Seq<char> {
        self.stream.text()
    }

    /// Whether a character that ended an indentation run waits to be
    /// classified.
    pub closed spec fn holds_char(&self) -> bool {
        self.peeked_char is Some
    }

    /// The cursor and the quote flags.
    pub closed spec fn state(&self) -> ScanState {
        ScanState {
            cursor: if self.peeked_char is Some {
                last_start(self.stream.text(), self.stream.cursor())
            } else {
                self.stream.cursor()
            },
            in_double_quote: self.in_double_quote,
            in_single_quote: self.in_single_quote,
        }
    }

    /// The stream is between two characters, a character held back is the one
    /// that the stream showed last, and at most one quote flag is set.
    pub closed spec fn wf(&self) -> bool {
        &&& self.stream.wf()
        &&& self.data@ == self.stream.text()
        &&& !(self.in_double_quote && self.in_single_quote)
        &&& match self.peeked_char {
            Some(c) => self.stream.cursor() > 0 && c == logical_char(
                self.stream.text()[last_start(self.stream.text(), self.stream.cursor())],
            ),
            None => true,
        }
    }

    /// The cursor stands at the start of a logical character or at the end of
    /// the text, and the flags exclude each other.
    pub proof fn lemma_wf_state(&self)
        requires
            self.wf(),
        ensures
            aligned(self.text(), self.state().cursor),
            !(self.state().in_double_quote && self.state().in_single_quote),
            self.holds_char() ==> self.state().cursor < self.text().len(),
    {
        self.stream.lemma_inv_bounds();
        if self.peeked_char is Some {
            lemma_position_follows(self.stream.text(), self.stream.cursor());
        }
    }

    /// A tokenizer at the start of `data`, outside of quotes.
    pub fn new(data: &'a str) -> (s: Self)
        ensures
            s.wf(),
            s.text() == data@,
            !s.holds_char(),
            s.state() == (ScanState { cursor: 0, in_double_quote: false, in_single_quote: false }),
    {
        Self {
            data,
            stream: Stream::new(data),
            peeked_char: None,
            in_double_quote: false,
            in_single_quote: false,
        }
    }

    /// The next token, or `None` at the end of the text and at a character
    /// that is no token.
    pub fn next(&mut self) -> (r: Option<Token<'a>>)
        requires
            old(self).wf(),
        ensures
            final(self).wf(),
            final(self).text() == old(self).text(),
            r == token_at::<'a>(old(self).text(), old(self).state()),
            final(self).state() == state_after(old(self).text(), old(self).state()),
    {
        let ghost text = self.text();
        let ghost at = self.state().cursor;
        proof {
            self.lemma_wf_state();
            self.stream.lemma_inv_bounds();
            if at < text.len() {
                lemma_position_fits(text, at);
                lemma_space_run_bounds(text, at + 1);
            }
        }
        let (c, pos) = match self.peeked_char {
            Some(cc) => {
                self.peeked_char = None;
                (Some(cc), self.stream.get_position())
            },
            None => {
                let cc = self.stream.next();
                (cc, self.stream.get_position())
            },
        };

        let in_quote = self.in_double_quote || self.in_single_quote;

        match c {
            Some(cc) => {
                if cc == ' ' && pos.col == 1 {
                    self.create_indent(pos)
                } else if cc == '"' && !in_quote {
                    self.in_double_quote = true;
                    self.create_token(pos, TokenType::DoubleQuote)
                } else if cc == '"' && self.in_double_quote {
                    self.in_double_quote = false;
                    self.create_token(pos, TokenType::DoubleQuote)
                } else if cc == '\'' && !in_quote {
                    self.in_single_quote = true;
                    self.create_token(pos, TokenType::SingleQuote)
                } else if cc == '\'' && self.in_single_quote {
                    self.in_single_quote = false;
                    self.create_token(pos, TokenType::SingleQuote)
                } else if cc == ':' && !in_quote {
                    self.create_token(pos, TokenType::Colon)
                } else if cc == '?' && !in_quote {
                    self.create_token(pos, TokenType::QuestionMark)
                } else if cc == '-' && !in_quote {
                    self.create_token(pos, TokenType::Dash)
                } else if cc == '{' && !in_quote {
                    self.create_token(pos, TokenType::LeftBraket)
                } else if cc == '}' && !in_quote {
                    self.create_token(pos, TokenType::RightBraket)
                } else if cc == '[' && !in_quote {
                    self.create_token(pos, TokenType::LeftSqBraket)
                } else if cc == ']' && !in_quote {
                    self.create_token(pos, TokenType::RightSqBraket)
                } else if cc == '\n' {
                    self.create_token(pos, TokenType::Newline)
                } else {
                    None
                }
            },
            None => None,
        }
    }

    /// Counts the space that was just read and every space that follows it
    /// directly, and gives the run as one token at `pos`. The character that
    /// ends the run is held back for the next call of `next`.
    pub fn create_indent(&mut self, pos: Position) -> (r: Option<Token<'a>>)
        requires
            old(self).wf(),
            !old(self).holds_char(),
            1 + space_run(old(self).text(), old(self).state().cursor) <= usize::MAX,
        ensures
            final(self).wf(),
            final(self).text() == old(self).text(),
            r == Some(
                Token::<'a> {
                    pos,
                    content: TokenType::Spaces(
                        (1 + space_run(old(self).text(), old(self).state().cursor)) as usize,
                    ),
                },
            ),
            final(self).state() == (ScanState {
                cursor: old(self).state().cursor + space_run(
                    old(self).text(),
                    old(self).state().cursor,
                ),
                ..old(self).state()
            }),
    {
        let ghost text = self.text();
        let ghost from = self.state().cursor;
        proof {
            self.stream.lemma_inv_bounds();
            lemma_space_run_bounds(text, from);
        }
        let mut count: usize = 1;
        loop
            invariant_except_break
                self.peeked_char is None,
                count == 1 + (self.stream.cursor() - from),
                space_run(text, from) == (self.stream.cursor() - from) + space_run(
                    text,
                    self.stream.cursor(),
                ),
            invariant
                self.stream.wf(),
                self.stream.text() == text,
                self.data@ == text,
                self.in_double_quote == old(self).in_double_quote,
                self.in_single_quote == old(self).in_single_quote,
                !(self.in_double_quote && self.in_single_quote),
                0 <= from <= self.stream.cursor() <= text.len(),
                1 + space_run(text, from) <= usize::MAX,
            ensures
                self.wf(),
                self.text() == text,
                self.in_double_quote == old(self).in_double_quote,
                self.in_single_quote == old(self).in_single_quote,
                self.state().cursor == from + space_run(text, from),
                count == 1 + space_run(text, from),
            decreases text.len() - self.stream.cursor(),
        {
            proof {
                if self.stream.cursor() < text.len() {
                    lemma_space_run_bounds(text, self.stream.cursor() + 1);
                }
            }
            match self.stream.next() {
                Some(c) => {
                    if c != ' ' {
                        self.peeked_char = Some(c);
                        break ;
                    }
                    count += 1;
                },
                None => {
                    break ;
                },
            }
        }

        self.create_token(pos, TokenType::Spaces(count))
    }

    /// Wraps a token type and its position into a token.
    pub fn create_token(&self, pos: Position, content: TokenType<'a>) -> (r: Option<Token<'a>>)
        ensures
            r == Some(Token { pos, content }),
    {
        Some(Token::new(pos, content))
    }
}

/// An indentation run is counted whole: every character of the run is a
/// space, and the run ends at the end of the text or before a character that is
/// no space.
pub proof fn lemma_space_run_is_maximal(text: Seq<char>, i: int)
    requires
        0 <= i <= text.len(),
    ensures
        forall|k: int| i <= k < i + space_run(text, i) ==> text[k] == ' ',
        i + space_run(text, i) == text.len() || text[i + space_run(text, i)] != ' ',
    decreases text.len() - i,
{
    lemma_space_run_bounds(text, i);
    if i < text.len() && text[i] == ' ' {
        lemma_space_run_is_maximal(text, i + 1);
    }
}

/// Indentation is recognized in column 1 and nowhere else, and a run is one
/// token: `next` gives `Spaces` exactly for a space in column 1, with the
/// length of the whole run, and goes on behind the run, where no second
/// `Spaces` token starts.
pub proof fn lemma_indent_is_one_token<'a>(text: Seq<char>, s: ScanState)
    requires
        0 <= s.cursor < text.len(),
    ensures
        starts_indent(text, s.cursor) <==> (token_at::<'a>(text, s) matches Some(t)
            && t.content is Spaces),
        starts_indent(text, s.cursor) ==> {
            &&& token_at::<'a>(text, s) == Some(
                Token::<'a> {
                    pos: position_at(text, s.cursor),
                    content: TokenType::Spaces(space_run(text, s.cursor) as usize),
                },
            )
            &&& 1 <= space_run(text, s.cursor) <= text.len() - s.cursor
            &&& state_after(text, s).cursor == s.cursor + space_run(text, s.cursor)
            &&& !starts_indent(text, state_after(text, s).cursor)
        },
{
    lemma_space_run_bounds(text, s.cursor);
    lemma_space_run_is_maximal(text, s.cursor);
}

/// Quotes toggle: outside of quotes a quote character is a token and opens a
/// span of its kind; inside a span of its own kind it is a token and closes
/// the span; inside a span of the other kind it is no token and changes
/// nothing.
pub proof fn lemma_quotes_toggle<'a>(text: Seq<char>, s: ScanState)
    requires
        0 <= s.cursor < text.len(),
        text[s.cursor] == '"' || text[s.cursor] == '\'',
        !(s.in_double_quote && s.in_single_quote),
    ensures
        ({
            let double = text[s.cursor] == '"';
            let own = if double {
                s.in_double_quote
            } else {
                s.in_single_quote
            };
            let other = if double {
                s.in_single_quote
            } else {
                s.in_double_quote
            };
            let t = state_after(text, s);
            &&& t.cursor == s.cursor + 1
            &&& !other ==> token_at::<'a>(text, s) == Some(
                Token::<'a> {
                    pos: position_at(text, s.cursor),
                    content: if double {
                        TokenType::DoubleQuote
                    } else {
                        TokenType::SingleQuote
                    },
                },
            )
            &&& !other ==> (if double {
                t.in_double_quote
            } else {
                t.in_single_quote
            }) == !own
            &&& !other ==> (if double {
                t.in_single_quote
            } else {
                t.in_double_quote
            }) == false
            &&& other ==> token_at::<'a>(text, s) is None
            &&& other ==> t.in_double_quote == s.in_double_quote && t.in_single_quote
                == s.in_single_quote
        }),
{
}

/// Inside a quoted span punctuation is no token: of the characters that are
/// tokens by themselves only the line break and the quote that closes the span
/// still count. Such a character leaves the quote flags as they are.
pub proof fn lemma_quoted_punctuation_is_silent<'a>(text: Seq<char>, s: ScanState)
    requires
        0 <= s.cursor < text.len(),
        s.in_double_quote || s.in_single_quote,
        !starts_indent(text, s.cursor),
    ensures
        token_at::<'a>(text, s) is Some ==> is_break(text[s.cursor]) || (text[s.cursor] == '"'
            && s.in_double_quote) || (text[s.cursor] == '\'' && s.in_single_quote),
        text[s.cursor] != '"' && text[s.cursor] != '\'' ==> state_after(text, s).in_double_quote
            == s.in_double_quote && state_after(text, s).in_single_quote == s.in_single_quote,
{
}

/// At the end of the text `next` gives nothing and changes nothing, so every
/// later call gives nothing too.
pub proof fn lemma_scan_end_is_final<'a>(text: Seq<char>, s: ScanState)
    requires
        s.cursor >= text.len(),
    ensures
        token_at::<'a>(text, s) is None,
        state_after(text, s) == s,
        token_at::<'a>(text, state_after(text, s)) is None,
{
}

/// The two quote flags never come to be set together, and the cursor moves
/// forward from one start of a logical character to another.
pub proof fn lemma_state_after_keeps_order(text: Seq<char>, s: ScanState)
    requires
        aligned(text, s.cursor),
        !(s.in_double_quote && s.in_single_quote),
    ensures
        aligned(text, state_after(text, s).cursor),
        !(state_after(text, s).in_double_quote && state_after(text, s).in_single_quote),
        s.cursor < text.len() ==> s.cursor < state_after(text, s).cursor <= text.len(),
{
    lemma_space_run_bounds(text, s.cursor);
    lemma_space_run_is_maximal(text, s.cursor);
}

/// A run of spaces never goes past the end of the text.
pub proof fn lemma_space_run_bounds(text: Seq<char>, i: int)
    requires
        0 <= i <= text.len(),
    ensures
        0 <= space_run(text, i) <= text.len() - i,
    decreases text.len() - i,
{
    if i < text.len() && text[i] == ' ' {
        lemma_space_run_bounds(text, i + 1);
    }
}

} // verus!
