use markup_lexer::parser::stream::Stream;
use markup_lexer::parser::Position;

fn assert_char(stream: &mut Stream, value: char, offset: usize, line: usize, col: usize) {
    if let Some(c) = stream.next() {
        assert_eq!(c, value);
        let pos = stream.get_position();
        assert_eq!(offset, pos.offset, "Offset");
        assert_eq!(line, pos.line, "Line");
        assert_eq!(col, pos.col, "Column");
    } else {
        panic!("Char expected!");
    }
}

fn assert_end(stream: &mut Stream) {
    let val = stream.next();
    assert!(val.is_none());
}

#[test]
fn stream_test_empty() {
    let mut stream = Stream::new("");
    assert_end(&mut stream);
}

#[test]
fn test_single_word() {
    let mut stream = Stream::new("AB");
    assert_char(&mut stream, 'A', 0, 1, 1);
    assert_char(&mut stream, 'B', 1, 1, 2);
    assert_end(&mut stream);
}

#[test]
fn test_single_word_and_n() {
    let mut stream = Stream::new("AB\n");
    assert_char(&mut stream, 'A', 0, 1, 1);
    assert_char(&mut stream, 'B', 1, 1, 2);
    assert_char(&mut stream, '\n', 2, 1, 3);
    assert_end(&mut stream);
}

#[test]
fn test_single_word_and_r() {
    let mut stream = Stream::new("AB\r");
    assert_char(&mut stream, 'A', 0, 1, 1);
    assert_char(&mut stream, 'B', 1, 1, 2);
    assert_char(&mut stream, '\n', 2, 1, 3);
    assert_end(&mut stream);
}

#[test]
fn test_single_word_and_rn() {
    let mut stream = Stream::new("AB\r\n");
    assert_char(&mut stream, 'A', 0, 1, 1);
    assert_char(&mut stream, 'B', 1, 1, 2);
    assert_char(&mut stream, '\n', 2, 1, 3);
    assert_end(&mut stream);
}

#[test]
fn test_word_n_word() {
    let mut stream = Stream::new("AB\nCD");
    assert_char(&mut stream, 'A', 0, 1, 1);
    assert_char(&mut stream, 'B', 1, 1, 2);
    assert_char(&mut stream, '\n', 2, 1, 3);
    assert_char(&mut stream, 'C', 3, 2, 1);
    assert_char(&mut stream, 'D', 4, 2, 2);
    assert_end(&mut stream);
}

#[test]
fn test_word_r_word() {
    let mut stream = Stream::new("AB\rCD");
    assert_char(&mut stream, 'A', 0, 1, 1);
    assert_char(&mut stream, 'B', 1, 1, 2);
    assert_char(&mut stream, '\n', 2, 1, 3);
    assert_char(&mut stream, 'C', 3, 2, 1);
    assert_char(&mut stream, 'D', 4, 2, 2);
    assert_end(&mut stream);
}

#[test]
fn test_word_rn_word() {
    let mut stream = Stream::new("AB\r\nCD");
    assert_char(&mut stream, 'A', 0, 1, 1);
    assert_char(&mut stream, 'B', 1, 1, 2);
    assert_char(&mut stream, '\n', 2, 1, 3);
    assert_char(&mut stream, 'C', 4, 2, 1);
    assert_char(&mut stream, 'D', 5, 2, 2);
    assert_end(&mut stream);
}

#[test]
fn test_emoji_end() {
    let mut stream = Stream::new("Hi 😊");
    assert_char(&mut stream, 'H', 0, 1, 1);
    assert_char(&mut stream, 'i', 1, 1, 2);
    assert_char(&mut stream, ' ', 2, 1, 3);
    assert_char(&mut stream, '😊', 3, 1, 4);
    assert_end(&mut stream);
}

#[test]
fn test_emoji_start() {
    // emoji is 4 bytes long
    let mut stream = Stream::new("😊 Bye!");
    assert_char(&mut stream, '😊', 0, 1, 1);
    assert_char(&mut stream, ' ', 4, 1, 2);
    assert_char(&mut stream, 'B', 5, 1, 3);
    assert_char(&mut stream, 'y', 6, 1, 4);
    assert_char(&mut stream, 'e', 7, 1, 5);
    assert_char(&mut stream, '!', 8, 1, 6);
    assert_end(&mut stream);
}

#[test]
fn test_emoji_n_emoji() {
    let mut stream = Stream::new("😊\n😊");
    assert_char(&mut stream, '😊', 0, 1, 1);
    assert_char(&mut stream, '\n', 4, 1, 2);
    assert_char(&mut stream, '😊', 5, 2, 1);
    assert_end(&mut stream);
}

#[test]
fn test_emoji_r_emoji() {
    let mut stream = Stream::new("😊\r😊");
    assert_char(&mut stream, '😊', 0, 1, 1);
    assert_char(&mut stream, '\n', 4, 1, 2);
    assert_char(&mut stream, '😊', 5, 2, 1);
    assert_end(&mut stream);
}

#[test]
fn test_emoji_rn_emoji() {
    let mut stream = Stream::new("😊\r\n😊");
    assert_char(&mut stream, '😊', 0, 1, 1);
    assert_char(&mut stream, '\n', 4, 1, 2);
    assert_char(&mut stream, '😊', 6, 2, 1);
    assert_end(&mut stream);
}

#[test]
fn position_before_first_char_is_start() {
    let stream = Stream::new("AB");
    assert_eq!(stream.get_position(), Position { offset: 0, line: 1, col: 0 });
    let empty = Stream::new("");
    assert_eq!(empty.get_position(), Position { offset: 0, line: 1, col: 0 });
}

#[test]
fn get_position_is_repeatable() {
    let mut stream = Stream::new("xy");
    stream.next();
    stream.next();
    let first = stream.get_position();
    let second = stream.get_position();
    assert_eq!(first, Position { offset: 1, line: 1, col: 2 });
    assert_eq!(first, second);
}

#[test]
fn end_of_stream_stays_the_end() {
    let mut stream = Stream::new("a\r");
    assert_char(&mut stream, 'a', 0, 1, 1);
    assert_char(&mut stream, '\n', 1, 1, 2);
    for _ in 0..5 {
        assert_eq!(stream.next(), None);
        assert_eq!(stream.get_position(), Position { offset: 1, line: 1, col: 2 });
    }
}

#[test]
fn two_and_three_byte_chars_move_offset_by_their_length() {
    // 'é' takes 2 bytes, '€' takes 3, '😊' takes 4
    let mut stream = Stream::new("é€😊x");
    assert_char(&mut stream, 'é', 0, 1, 1);
    assert_char(&mut stream, '€', 2, 1, 2);
    assert_char(&mut stream, '😊', 5, 1, 3);
    assert_char(&mut stream, 'x', 9, 1, 4);
    assert_end(&mut stream);
}

#[test]
fn width_boundaries_of_the_encoding() {
    // last one-byte, first two-byte, last two-byte, first three-byte,
    // last three-byte and first four-byte scalar values
    let mut stream = Stream::new("\u{7f}\u{80}\u{7ff}\u{800}\u{ffff}\u{10000}!");
    assert_char(&mut stream, '\u{7f}', 0, 1, 1);
    assert_char(&mut stream, '\u{80}', 1, 1, 2);
    assert_char(&mut stream, '\u{7ff}', 3, 1, 3);
    assert_char(&mut stream, '\u{800}', 5, 1, 4);
    assert_char(&mut stream, '\u{ffff}', 8, 1, 5);
    assert_char(&mut stream, '\u{10000}', 11, 1, 6);
    assert_char(&mut stream, '!', 15, 1, 7);
    assert_end(&mut stream);
}

#[test]
fn offsets_never_decrease() {
    let mut stream = Stream::new("a\r\n😊\n\rb\r");
    let mut last = stream.get_position().offset;
    let mut shown = 0;
    while let Some(_) = stream.next() {
        let pos = stream.get_position();
        assert!(pos.offset >= last);
        assert!(pos.line >= 1 && pos.col >= 1);
        last = pos.offset;
        shown += 1;
    }
    assert_eq!(shown, 7);
}

#[test]
fn consecutive_line_breaks() {
    let mut stream = Stream::new("\n\r\r\n\n\r\nz");
    assert_char(&mut stream, '\n', 0, 1, 1);
    assert_char(&mut stream, '\n', 1, 2, 1);
    assert_char(&mut stream, '\n', 2, 3, 1);
    assert_char(&mut stream, '\n', 4, 4, 1);
    assert_char(&mut stream, '\n', 5, 5, 1);
    assert_char(&mut stream, 'z', 7, 6, 1);
    assert_end(&mut stream);
}

#[test]
fn carriage_return_before_multibyte_char() {
    let mut stream = Stream::new("\ré");
    assert_char(&mut stream, '\n', 0, 1, 1);
    assert_char(&mut stream, 'é', 1, 2, 1);
    assert_end(&mut stream);
}

#[test]
fn next_internal_gives_raw_chars_with_offsets() {
    let mut stream = Stream::new("é\r\n!");
    assert_eq!(stream.next_internal(), Some((0, 'é')));
    assert_eq!(stream.next_internal(), Some((2, '\r')));
    assert_eq!(stream.next_internal(), Some((3, '\n')));
    assert_eq!(stream.next_internal(), Some((4, '!')));
    assert_eq!(stream.next_internal(), None);
    assert_eq!(stream.next_internal(), None);
    assert_eq!(stream.get_position(), Position { offset: 0, line: 1, col: 0 });
}

#[test]
fn next_internal_takes_the_pushed_back_char_first() {
    let mut stream = Stream::new("\rab");
    assert_eq!(stream.next(), Some('\n'));
    assert_eq!(stream.next_internal(), Some((1, 'a')));
    assert_eq!(stream.next_internal(), Some((2, 'b')));
    assert_eq!(stream.next_internal(), None);
}

#[test]
fn update_pos_moves_one_column_on() {
    let mut stream = Stream::new("abc");
    stream.update_pos(7);
    assert_eq!(stream.get_position(), Position { offset: 7, line: 1, col: 1 });
    stream.update_pos(9);
    assert_eq!(stream.get_position(), Position { offset: 9, line: 1, col: 2 });
}

#[test]
fn update_pos_after_line_break_starts_new_line() {
    let mut stream = Stream::new("a\nb");
    assert_eq!(stream.next(), Some('a'));
    assert_eq!(stream.next(), Some('\n'));
    stream.update_pos(2);
    assert_eq!(stream.get_position(), Position { offset: 2, line: 2, col: 1 });
    stream.update_pos(3);
    assert_eq!(stream.get_position(), Position { offset: 3, line: 2, col: 2 });
}
