use stackvm::parser::Value;
use stackvm::tokenizer::{
    LexError, Loc, LocRange, Mark, Token, TokenName, TokenOwned, Tokenizer,
};

#[test]
fn token() {
    let buf = " test tkoen 1234";
    let mut t = Tokenizer::new(buf.as_bytes());

    let (ret, _) = t.next_token().unwrap();
    assert_eq!(ret, Token::Ident("test"));

    let (ret, _) = t.next_token().unwrap();
    assert_eq!(ret, Token::Ident("tkoen"));

    // The last word runs into the end of the input and is lost.
    let (ret, _) = t.next_token().unwrap();
    assert_ne!(ret, Token::Ident("1234"));
    assert_eq!(ret, Token::Eof);

    let (ret, _) = t.next_token().unwrap();
    assert_eq!(ret, Token::Eof);
}

#[test]
fn last_word_is_kept_before_a_separator() {
    let mut t = Tokenizer::new(b" test tkoen 1234\n");
    assert_eq!(t.next_token().unwrap().0, Token::Ident("test"));
    assert_eq!(t.next_token().unwrap().0, Token::Ident("tkoen"));
    assert_eq!(t.next_token().unwrap().0, Token::Ident("1234"));
    assert_eq!(t.next_token().unwrap().0, Token::Eof);
    assert_eq!(t.next_token().unwrap().0, Token::Eof);
}

#[test]
fn next_token_on_empty_input_is_eof() {
    let mut t = Tokenizer::new(b"");
    let (tok, range) = t.next_token().unwrap();
    assert_eq!(tok, Token::Eof);
    assert_eq!(range, LocRange { start: Loc { column: 0, line: 0 }, end: Loc { column: 0, line: 0 } });
}

#[test]
fn next_token_tracks_lines_and_columns() {
    let mut t = Tokenizer::new(b"ab\n  cd \n");
    let (tok, range) = t.next_token().unwrap();
    assert_eq!(tok, Token::Ident("ab"));
    assert_eq!(range.start, Loc { column: 0, line: 0 });
    assert_eq!(range.end, Loc { column: 2, line: 0 });
    let (tok, range) = t.next_token().unwrap();
    assert_eq!(tok, Token::Ident("cd"));
    assert_eq!(range.start, Loc { column: 2, line: 1 });
    assert_eq!(range.end, Loc { column: 4, line: 1 });
}

#[test]
fn separators_are_space_tab_line_feed_carriage_return() {
    let mut t = Tokenizer::new(b"a\tb\rc\nd e\x0bf ");
    assert_eq!(t.next_token().unwrap().0, Token::Ident("a"));
    assert_eq!(t.next_token().unwrap().0, Token::Ident("b"));
    assert_eq!(t.next_token().unwrap().0, Token::Ident("c"));
    assert_eq!(t.next_token().unwrap().0, Token::Ident("d"));
    assert_eq!(t.next_token().unwrap().0, Token::Ident("e\x0bf"));
}

#[test]
fn a_byte_that_is_not_ascii_ends_the_input() {
    let mut t = Tokenizer::new(b"one tw\xc3\xa9 three ");
    assert_eq!(t.next_token().unwrap().0, Token::Ident("one"));
    assert_eq!(t.next_token().unwrap().0, Token::Eof);
    assert_eq!(t.next_token().unwrap().0, Token::Eof);
    assert_eq!(t.read_line().unwrap().0, Token::Eof);
}

#[test]
fn read_line_takes_the_line_and_its_line_feed() {
    let mut t = Tokenizer::new(b"first line\n\nthird");
    let (tok, range) = t.read_line().unwrap();
    assert_eq!(tok, Token::Value(Value::String("first line".to_string())));
    assert_eq!(range.start, Loc { column: 0, line: 0 });
    assert_eq!(range.end, Loc { column: 10, line: 0 });
    let (tok, range) = t.read_line().unwrap();
    assert_eq!(tok, Token::Value(Value::String(String::new())));
    assert_eq!(range.start, Loc { column: 0, line: 1 });
    assert_eq!(range.end, Loc { column: 0, line: 1 });
    // No line feed after the last line: it is lost.
    assert_eq!(t.read_line().unwrap().0, Token::Eof);
    assert_eq!(t.read_line().unwrap().0, Token::Eof);
}

#[test]
fn read_line_keeps_leading_spaces() {
    let mut t = Tokenizer::new(b"  x \r\n");
    assert_eq!(t.read_line().unwrap().0, Token::Value(Value::String("  x \r".to_string())));
}

#[test]
fn read_string_plain_word() {
    let mut t = Tokenizer::new(b"  hello world ");
    let (tok, range) = t.read_string().unwrap();
    assert_eq!(tok, Token::Value(Value::String("hello".to_string())));
    assert_eq!(range.start, Loc { column: 2, line: 0 });
    assert_eq!(range.end, Loc { column: 7, line: 0 });
    assert_eq!(t.read_string().unwrap().0, Token::Value(Value::String("world".to_string())));
    assert_eq!(t.read_string().unwrap().0, Token::Eof);
}

#[test]
fn read_string_quoted() {
    let mut t = Tokenizer::new(b" \"two words\" x\"y ");
    let (tok, range) = t.read_string().unwrap();
    assert_eq!(tok, Token::Value(Value::String("two words".to_string())));
    assert_eq!(range.start, Loc { column: 2, line: 0 });
    assert_eq!(range.end, Loc { column: 11, line: 0 });
    // A quote inside a plain word is part of the word.
    assert_eq!(t.read_string().unwrap().0, Token::Value(Value::String("x\"y".to_string())));
}

#[test]
fn read_string_quote_without_end_is_eof() {
    let mut t = Tokenizer::new(b"\"never closed ");
    assert_eq!(t.read_string().unwrap().0, Token::Eof);
    assert_eq!(t.next_token().unwrap().0, Token::Eof);
}

#[test]
fn read_string_empty_quotes() {
    let mut t = Tokenizer::new(b"\"\"rest ");
    assert_eq!(t.read_string().unwrap().0, Token::Value(Value::String(String::new())));
    assert_eq!(t.next_token().unwrap().0, Token::Ident("rest"));
}

#[test]
fn read_num_consumes_the_byte_after_the_digits() {
    let mut t = Tokenizer::new(b" 12x34 ");
    let (tok, range) = t.read_num().unwrap();
    assert_eq!(tok, Token::Value(Value::Num(12)));
    assert_eq!(range.start, Loc { column: 1, line: 0 });
    assert_eq!(range.end, Loc { column: 3, line: 0 });
    // The `x` is gone.
    assert_eq!(t.read_num().unwrap().0, Token::Value(Value::Num(34)));
    assert_eq!(t.read_num().unwrap().0, Token::Eof);
}

#[test]
fn read_num_digits_at_the_end_are_lost() {
    let mut t = Tokenizer::new(b"7 8");
    assert_eq!(t.read_num().unwrap().0, Token::Value(Value::Num(7)));
    assert_eq!(t.read_num().unwrap().0, Token::Eof);
}

#[test]
fn read_num_takes_leading_zeros_and_the_largest_number() {
    let mut t = Tokenizer::new(b"007 18446744073709551615 ");
    assert_eq!(t.read_num().unwrap().0, Token::Value(Value::Num(7)));
    assert_eq!(t.read_num().unwrap().0, Token::Value(Value::Num(u64::MAX)));
}

#[test]
fn read_num_without_digits_is_an_error() {
    let mut t = Tokenizer::new(b" abc ");
    match t.read_num() {
        Err(LexError::BadNumber { text, range }) => {
            assert_eq!(text, "");
            assert_eq!(range.start, Loc { column: 1, line: 0 });
            assert_eq!(range.end, Loc { column: 1, line: 0 });
        }
        other => panic!("{:?}", other),
    }
    // The `a` was consumed.
    assert_eq!(t.next_token().unwrap().0, Token::Ident("bc"));
}

#[test]
fn read_num_too_large_is_an_error() {
    let mut t = Tokenizer::new(b"18446744073709551616 5 ");
    match t.read_num() {
        Err(LexError::BadNumber { text, .. }) => assert_eq!(text, "18446744073709551616"),
        other => panic!("{:?}", other),
    }
    assert_eq!(t.read_num().unwrap().0, Token::Value(Value::Num(5)));
}

#[test]
fn to_owned_keeps_the_token() {
    assert_eq!(Token::Eof.to_owned(), TokenOwned::Eof);
    assert_eq!(Token::Ident("word").to_owned(), TokenOwned::Ident("word".to_string()));
    assert_eq!(
        Token::Value(Value::Num(3)).to_owned(),
        TokenOwned::Value(Value::Num(3))
    );
    assert_eq!(
        Token::Value(Value::String("s".to_string())).to_owned(),
        TokenOwned::Value(Value::String("s".to_string()))
    );
}

#[test]
fn loc_default_is_the_origin() {
    assert_eq!(Loc::default(), Loc { column: 0, line: 0 });
    assert_ne!(TokenName::Eof, TokenName::Ident);
}

#[test]
fn a_lexer_goes_on_from_a_mark_in_a_longer_input() {
    let mut t = Tokenizer::new(b"one tw");
    assert_eq!(t.next_token().unwrap().0, Token::Ident("one"));
    let mark = t.mark();
    assert!(!t.at_eof());
    assert!(!t.at_end());
    assert_eq!(t.next_token().unwrap().0, Token::Eof);
    assert!(t.at_eof());
    assert!(t.at_end());
    let mut t = Tokenizer::resume(b"one two\nthree ", mark).unwrap();
    let (tok, range) = t.next_token().unwrap();
    assert_eq!(tok, Token::Ident("two"));
    assert_eq!(range.start, Loc { column: 4, line: 0 });
    assert_eq!(range.end, Loc { column: 7, line: 0 });
    assert!(Tokenizer::resume(b"on", mark).is_none());
    let mut t = Tokenizer::resume(b"whole ", Mark::start()).unwrap();
    assert_eq!(t.next_token().unwrap().0, Token::Ident("whole"));
}

#[test]
fn a_byte_that_is_not_ascii_is_an_end_before_the_end() {
    let mut t = Tokenizer::new(b"a \xff b ");
    assert_eq!(t.next_token().unwrap().0, Token::Ident("a"));
    assert_eq!(t.next_token().unwrap().0, Token::Eof);
    assert!(t.at_eof());
    assert!(!t.at_end());
}
