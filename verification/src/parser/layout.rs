//! The mathematical model of a text buffer: where each scalar value starts in
//! bytes, which line and column a text editor would show for it, and how the
//! three line-ending styles fold into one logical newline.

use vstd::prelude::*;
use vstd::utf8::{char_is_scalar, encode_scalar, encode_utf8};

use super::Position;

verus! {

/// Number of bytes that `c` occupies in UTF-8.
pub open spec fn utf8_width(c: char) -> int {
    if (c as u32) < 0x80 {
        1
    } else if (c as u32) < 0x800 {
        2
    } else if (c as u32) < 0x10000 {
        3
    } else {
        4
    }
}

/// Byte offset at which the scalar value with index `i` starts; for
/// `i == text.len()` the length of the whole text in bytes.
pub open spec fn byte_offset(text: Seq<char>, i: int) -> int
    decreases i,
{
    if i <= 0 {
        0
    } else {
        byte_offset(text, i - 1) + utf8_width(text[i - 1])
    }
}

/// The byte length of `text` fits a machine word.
pub open spec fn fits(text: Seq<char>) -> bool {
    byte_offset(text, text.len() as int) <= usize::MAX
}

/// `c` is one of the two raw line-break characters.
pub open spec fn is_break(c: char) -> bool {
    c == '\r' || c == '\n'
}

/// The raw character at `i` is the `\n` of a `\r\n` pair: it is folded into
/// the `\r` before it and never shown on its own.
pub open spec fn swallowed(text: Seq<char>, i: int) -> bool {
    0 < i < text.len() && text[i] == '\n' && text[i - 1] == '\r'
}

/// The raw character at `i` ends its line: any `\r`, and any `\n` that is not
/// the second half of a `\r\n` pair.
pub open spec fn ends_line(text: Seq<char>, i: int) -> bool {
    0 <= i < text.len() && is_break(text[i]) && !swallowed(text, i)
}

/// A place where a logical character can start, or the end of the text.
pub open spec fn aligned(text: Seq<char>, i: int) -> bool {
    0 <= i <= text.len() && !swallowed(text, i)
}

/// What the raw character `c` is shown as: every line break is `\n`.
pub open spec fn logical_char(c: char) -> char {
    if c == '\r' {
        '\n'
    } else {
        c
    }
}

/// Index just behind the logical character that starts at `i`: two raw
/// characters for `\r\n`, one for everything else.
pub open spec fn step(text: Seq<char>, i: int) -> int {
    if text[i] == '\r' && i + 1 < text.len() && text[i + 1] == '\n' {
        i + 2
    } else {
        i + 1
    }
}

/// The logical character that starts at `i`, if the text goes that far.
pub open spec fn char_at(text: Seq<char>, i: int) -> Option<char> {
    if 0 <= i < text.len() {
        Some(logical_char(text[i]))
    } else {
        None
    }
}

/// Where reading goes on after the logical character at `i`; at the end of the
/// text it stays where it is.
pub open spec fn after(text: Seq<char>, i: int) -> int {
    if 0 <= i < text.len() {
        step(text, i)
    } else {
        i
    }
}

/// The logical characters from index `i` to the end of the text, in order:
/// what the stream shows, call after call, once its cursor is at `i`.
pub open spec fn shown_from(text: Seq<char>, i: int) -> Seq<char>
    decreases text.len() - i,
{
    if 0 <= i < text.len() {
        seq![logical_char(text[i])] + shown_from(text, step(text, i))
    } else {
        Seq::empty()
    }
}

/// Start of the logical character that ends just before `i`.
pub open spec fn last_start(text: Seq<char>, i: int) -> int {
    if swallowed(text, i - 1) {
        i - 2
    } else {
        i - 1
    }
}

/// The 1-based line of the character at `i`: one more than the number of line
/// ends before it.
pub open spec fn line_at(text: Seq<char>, i: int) -> int
    decreases i,
{
    if i <= 0 {
        1
    } else if ends_line(text, i - 1) {
        line_at(text, i - 1) + 1
    } else {
        line_at(text, i - 1)
    }
}

/// The 1-based column of the character at `i`: one more than the number of
/// logical characters between the last line end and `i`.
pub open spec fn col_at(text: Seq<char>, i: int) -> int
    decreases i,
{
    if i <= 0 {
        1
    } else if ends_line(text, i - 1) {
        1
    } else if swallowed(text, i - 1) {
        col_at(text, i - 1)
    } else {
        col_at(text, i - 1) + 1
    }
}

/// Position of the character at `i`, as the stream reports it.
pub open spec fn position_at(text: Seq<char>, i: int) -> Position {
    Position {
        offset: byte_offset(text, i) as usize,
        line: line_at(text, i) as usize,
        col: col_at(text, i) as usize,
    }
}

/// The position that is reported before the first character has been read.
pub open spec fn start_position() -> Position {
    Position { offset: 0, line: 1, col: 0 }
}

/// Position of the last character shown once everything before `i` has been
/// read.
pub open spec fn position_before(text: Seq<char>, i: int) -> Position {
    if i <= 0 {
        start_position()
    } else {
        position_at(text, last_start(text, i))
    }
}

/// Whether the last character shown before `i` was a line break.
pub open spec fn break_before(text: Seq<char>, i: int) -> bool {
    i > 0 && is_break(text[last_start(text, i)])
}

/// `utf8_width` is the length of the character's UTF-8 encoding.
pub proof fn lemma_width_is_encoded_length(c: char)
    ensures
        encode_scalar(c as u32).len() == utf8_width(c),
{
    char_is_scalar(c);
}

/// Appending a character to a text appends its encoding.
proof fn lemma_encoded_length_push(text: Seq<char>, c: char)
    ensures
        encode_utf8(text.push(c)).len() == encode_utf8(text).len() + utf8_width(c),
    decreases text.len(),
{
    lemma_width_is_encoded_length(c);
    if text.len() == 0 {
        assert(text.push(c).drop_first() =~= text);
    } else {
        assert(text.push(c).drop_first() =~= text.drop_first().push(c));
        assert(text.push(c)[0] == text[0]);
        lemma_encoded_length_push(text.drop_first(), c);
    }
}

/// Byte offsets are true byte offsets: the character with index `i` starts
/// where the UTF-8 encoding of the `i` characters before it ends.
pub proof fn lemma_byte_offset_is_encoded_length(text: Seq<char>, i: int)
    requires
        0 <= i <= text.len(),
    ensures
        byte_offset(text, i) == encode_utf8(text.take(i)).len(),
    decreases i,
{
    if i > 0 {
        lemma_byte_offset_is_encoded_length(text, i - 1);
        assert(text.take(i) =~= text.take(i - 1).push(text[i - 1]));
        lemma_encoded_length_push(text.take(i - 1), text[i - 1]);
    }
}

/// Every character takes at least one byte and at most four, so byte offsets
/// grow strictly with the index.
pub proof fn lemma_byte_offset_increases(text: Seq<char>, i: int, j: int)
    requires
        0 <= i <= j,
    ensures
        byte_offset(text, i) + (j - i) <= byte_offset(text, j),
        byte_offset(text, j) <= byte_offset(text, i) + 4 * (j - i),
    decreases j,
{
    if i < j {
        lemma_byte_offset_increases(text, i, j - 1);
    }
}

/// Lines and columns are 1-based and never exceed the number of characters
/// read so far.
pub proof fn lemma_line_col_bounds(text: Seq<char>, i: int)
    requires
        0 <= i,
    ensures
        1 <= line_at(text, i) <= i + 1,
        1 <= col_at(text, i) <= i + 1,
    decreases i,
{
    if i > 0 {
        lemma_line_col_bounds(text, i - 1);
    }
}

/// How the position moves from one logical character to the next: after a
/// line break, whichever of the three styles wrote it, the line grows by one
/// and the column is 1; after any other character the line stays and the column
/// grows by one.
pub proof fn lemma_position_follows(text: Seq<char>, i: int)
    requires
        aligned(text, i),
        0 < i,
    ensures
        aligned(text, last_start(text, i)),
        0 <= last_start(text, i) < i,
        step(text, last_start(text, i)) == i,
        is_break(text[last_start(text, i)]) ==> line_at(text, i) == line_at(
            text,
            last_start(text, i),
        ) + 1 && col_at(text, i) == 1,
        !is_break(text[last_start(text, i)]) ==> line_at(text, i) == line_at(
            text,
            last_start(text, i),
        ) && col_at(text, i) == col_at(text, last_start(text, i)) + 1,
{
    reveal_with_fuel(line_at, 3);
    reveal_with_fuel(col_at, 3);
}

/// In a text whose byte length fits a machine word, the three parts of a
/// position fit one too, and so does the number of characters.
pub proof fn lemma_position_fits(text: Seq<char>, i: int)
    requires
        fits(text),
        0 <= i < text.len(),
    ensures
        0 <= byte_offset(text, i) < usize::MAX,
        1 <= line_at(text, i) <= i + 1 <= text.len() <= usize::MAX,
        1 <= col_at(text, i) <= i + 1 <= text.len() <= usize::MAX,
{
    lemma_byte_offset_increases(text, i, text.len() as int);
    lemma_byte_offset_increases(text, 0, i);
    lemma_line_col_bounds(text, i);
}

/// A multi-byte character moves the offset by its length in bytes and the
/// column by one: behind a character that is no line break, the next one
/// starts `utf8_width` bytes later, on the same line, one column on.
pub proof fn lemma_char_advances(text: Seq<char>, i: int)
    requires
        aligned(text, i),
        i < text.len(),
        !is_break(text[i]),
    ensures
        after(text, i) == i + 1,
        aligned(text, i + 1),
        byte_offset(text, i + 1) == byte_offset(text, i) + utf8_width(text[i]),
        1 <= utf8_width(text[i]) <= 4,
        line_at(text, i + 1) == line_at(text, i),
        col_at(text, i + 1) == col_at(text, i) + 1,
{
}

/// A line break moves to the first column of the next line, however it is
/// written: `\n` and a lone `\r` take one byte, `\r\n` takes two and is still
/// one logical `\n`.
pub proof fn lemma_break_advances(text: Seq<char>, i: int)
    requires
        aligned(text, i),
        i < text.len(),
        is_break(text[i]),
    ensures
        char_at(text, i) == Some('\n'),
        aligned(text, after(text, i)),
        after(text, i) == if text[i] == '\r' && i + 1 < text.len() && text[i + 1] == '\n' {
            i + 2
        } else {
            i + 1
        },
        byte_offset(text, after(text, i)) == byte_offset(text, i) + (after(text, i) - i),
        line_at(text, after(text, i)) == line_at(text, i) + 1,
        col_at(text, after(text, i)) == 1,
{
    reveal_with_fuel(byte_offset, 3);
    lemma_position_follows(text, after(text, i));
}

/// `shown_from` is what repeated reading gives: the character at `i`, then
/// what is shown from where reading goes on; nothing at the end of the text.
pub proof fn lemma_shown_from_unfolds(text: Seq<char>, i: int)
    requires
        0 <= i,
    ensures
        shown_from(text, i) == match char_at(text, i) {
            Some(c) => seq![c] + shown_from(text, after(text, i)),
            None => Seq::empty(),
        },
{
}

/// What is shown from a start of a logical character on depends on the text
/// from there on alone.
pub proof fn lemma_shown_from_suffix(text: Seq<char>, i: int)
    requires
        0 <= i <= text.len(),
    ensures
        shown_from(text, i) == shown_from(text.subrange(i, text.len() as int), 0),
    decreases text.len() - i,
{
    let rest = text.subrange(i, text.len() as int);
    if i < text.len() {
        let j = step(text, i);
        assert(step(rest, 0) == j - i);
        lemma_shown_from_suffix(text, j);
        lemma_shown_from_suffix(rest, j - i);
        assert(rest.subrange(j - i, rest.len() as int) =~= text.subrange(j, text.len() as int));
    }
}

/// Line endings fold into one: whether a line break is written `\n`, `\r` or
/// `\r\n`, the stream shows one `\n` for it and then the same characters. The
/// one condition is that what follows a lone `\r` does not start with `\n`,
/// as the two would then be a pair.
pub proof fn lemma_line_endings_agree(rest: Seq<char>)
    requires
        rest.len() == 0 || rest[0] != '\n',
    ensures
        shown_from(seq!['\n'] + rest, 0) == seq!['\n'] + shown_from(rest, 0),
        shown_from(seq!['\r'] + rest, 0) == seq!['\n'] + shown_from(rest, 0),
        shown_from(seq!['\r', '\n'] + rest, 0) == seq!['\n'] + shown_from(rest, 0),
{
    let n = seq!['\n'] + rest;
    let r = seq!['\r'] + rest;
    let rn = seq!['\r', '\n'] + rest;
    assert(step(n, 0) == 1 && step(r, 0) == 1 && step(rn, 0) == 2);
    lemma_shown_from_suffix(n, 1);
    lemma_shown_from_suffix(r, 1);
    lemma_shown_from_suffix(rn, 2);
    assert(n.subrange(1, n.len() as int) =~= rest);
    assert(r.subrange(1, r.len() as int) =~= rest);
    assert(rn.subrange(2, rn.len() as int) =~= rest);
}

/// Once the stream has shown nothing it shows nothing again: at the end of the
/// text reading stays where it is.
pub proof fn lemma_end_is_final(text: Seq<char>, i: int)
    requires
        char_at(text, i) is None,
    ensures
        after(text, i) == i,
        char_at(text, after(text, i)) is None,
{
}

} // verus!
