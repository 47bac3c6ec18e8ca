use ruson::lexer::{Lexer, Position};

#[test]
fn position_starts_at_one_one() {
    let position = Position::new();
    assert_eq!((position.row, position.col), (1, 1));
    assert_eq!((Position::MINROW, Position::MINCOL), (1, 1));
}

#[test]
fn new_lexer_holds_every_character() {
    let lexer = Lexer::new("héllo");
    assert_eq!(lexer.stack, vec!['h', 'é', 'l', 'l', 'o']);
    assert_eq!(lexer.cursor, 0);
    assert_eq!(lexer.get_string(), "héllo");
}

#[test]
fn peek_does_not_consume() {
    let mut lexer = Lexer::new("ab");
    assert_eq!(lexer.peek(), Some(&'a'));
    assert_eq!(lexer.peek(), Some(&'a'));
    assert_eq!(lexer.peek_at(1), Some(&'b'));
    assert_eq!(lexer.peek_at(2), None);
    lexer.cursor = 2;
    assert_eq!(lexer.peek(), None);
    lexer.cursor = 7;
    assert_eq!(lexer.peek(), None);
}

#[test]
fn consume_byte_moves_only_on_a_match() {
    let mut lexer = Lexer::new("ab");
    assert_eq!(lexer.consume_byte('b'), None);
    assert_eq!(lexer.cursor, 0);
    assert_eq!(lexer.consume_byte('a'), Some('a'));
    assert_eq!(lexer.cursor, 1);
    assert_eq!(lexer.consume_byte('b'), Some('b'));
    assert_eq!(lexer.consume_byte('b'), None);
    assert_eq!(lexer.cursor, 2);
}

#[test]
fn consume_string_needs_every_character() {
    let mut lexer = Lexer::new("nul");
    assert_eq!(lexer.consume_string("null"), None);
    assert_eq!(lexer.cursor, 0);
    let mut lexer = Lexer::new("nulx");
    assert_eq!(lexer.consume_string("null"), None);
    assert_eq!(lexer.cursor, 0);
    let mut lexer = Lexer::new("nullx");
    assert_eq!(lexer.consume_string("null"), Some("null".to_string()));
    assert_eq!(lexer.cursor, 4);
    assert_eq!(lexer.consume_string(""), Some(String::new()));
    assert_eq!(lexer.cursor, 4);
}

#[test]
fn consume_while_takes_the_longest_run() {
    let mut lexer = Lexer::new("aaab");
    assert_eq!(lexer.consume_while(|&ch| ch == 'a'), "aaa");
    assert_eq!(lexer.cursor, 3);
    assert_eq!(lexer.consume_while(|&ch| ch == 'a'), "");
    assert_eq!(lexer.cursor, 3);
    assert_eq!(lexer.consume_while(|_| true), "b");
    assert_eq!(lexer.cursor, 4);
    assert_eq!(lexer.consume_while(|_| true), "");
}

#[test]
fn consume_uint_reads_digits() {
    let mut lexer = Lexer::new("0042x");
    assert_eq!(lexer.consume_uint(), Some(42));
    assert_eq!(lexer.cursor, 4);
    assert_eq!(lexer.consume_uint(), None);
    assert_eq!(lexer.cursor, 4);
    let mut lexer = Lexer::new("4294967295");
    assert_eq!(lexer.consume_uint(), Some(u32::MAX));
    let mut lexer = Lexer::new("4294967296 ");
    assert_eq!(lexer.consume_uint(), None);
    assert_eq!(lexer.cursor, 10);
    let mut lexer = Lexer::new("99999999999999999999999999999");
    assert_eq!(lexer.consume_uint(), None);
    assert_eq!(lexer.cursor, 29);
}

#[test]
fn consume_int_reads_a_sign() {
    let mut lexer = Lexer::new("-17,");
    assert_eq!(lexer.consume_int(), Some(-17));
    assert_eq!(lexer.cursor, 3);
    let mut lexer = Lexer::new("17");
    assert_eq!(lexer.consume_int(), Some(17));
    let mut lexer = Lexer::new("-x");
    assert_eq!(lexer.consume_int(), None);
    assert_eq!(lexer.cursor, 0);
    let mut lexer = Lexer::new("x");
    assert_eq!(lexer.consume_int(), None);
    assert_eq!(lexer.cursor, 0);
    let mut lexer = Lexer::new("-2147483648");
    assert_eq!(lexer.consume_int(), Some(i32::MIN));
    let mut lexer = Lexer::new("2147483647");
    assert_eq!(lexer.consume_int(), Some(i32::MAX));
}

#[test]
fn consume_int_yields_nothing_outside_32_bits() {
    let mut lexer = Lexer::new("3000000000");
    assert_eq!(lexer.consume_int(), None);
    assert_eq!(lexer.cursor, 10);
    let mut lexer = Lexer::new("-3000000000");
    assert_eq!(lexer.consume_int(), None);
    assert_eq!(lexer.cursor, 11);
    let mut lexer = Lexer::new("2147483648");
    assert_eq!(lexer.consume_int(), None);
    let mut lexer = Lexer::new("-2147483649");
    assert_eq!(lexer.consume_int(), None);
    let mut lexer = Lexer::new("-4294967296");
    assert_eq!(lexer.consume_int(), None);
    assert_eq!(lexer.cursor, 11);
}

#[test]
fn position_counts_line_feeds() {
    let lexer = Lexer::new("ab\ncd\n\nef");
    let at = |offset: usize| {
        let position = lexer.position(offset);
        (position.row, position.col)
    };
    assert_eq!(at(0), (1, 1));
    assert_eq!(at(1), (1, 2));
    assert_eq!(at(2), (1, 3));
    assert_eq!(at(3), (2, 1));
    assert_eq!(at(5), (2, 3));
    assert_eq!(at(6), (3, 1));
    assert_eq!(at(7), (4, 1));
    assert_eq!(at(9), (4, 3));
    assert_eq!(at(100), (4, 3));
}

#[test]
fn line_is_the_text_around_an_offset() {
    let lexer = Lexer::new("ab\ncd\r\n\nef\r");
    assert_eq!(lexer.line(0), "ab");
    assert_eq!(lexer.line(2), "ab");
    assert_eq!(lexer.line(3), "cd");
    assert_eq!(lexer.line(6), "cd");
    assert_eq!(lexer.line(7), "");
    assert_eq!(lexer.line(8), "ef\r");
    assert_eq!(lexer.line(500), "ef\r");
    assert_eq!(Lexer::new("").line(0), "");
}
