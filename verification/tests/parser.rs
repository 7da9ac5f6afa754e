use stackvm::parser::{
    compile_on, known_ops, lookup, Error, Parser, UOps, Value, ValueType,
};
use stackvm::tokenizer::{Loc, LocRange, Token, TokenName, TokenOwned, Tokenizer};

fn shape_of(uops: &[UOps]) -> Vec<String> {
    uops.iter().map(|op| format!("{:?}", op)).collect()
}

#[test]
fn add_and_plus_pick_the_sum_program() {
    for word in ["add", "+"] {
        let uops = lookup(word).unwrap();
        assert_eq!(
            shape_of(&uops),
            vec!["Push(Num(0))", "ReadNum", "JmpRelZ(2)", "Add", "JmpRel(-4)", "Print"]
        );
    }
}

#[test]
fn mul_and_star_pick_the_product_program() {
    for word in ["mul", "*"] {
        let uops = lookup(word).unwrap();
        assert_eq!(
            shape_of(&uops),
            vec!["Push(Num(1))", "ReadNum", "JmpRelZ(2)", "Mul", "JmpRel(-4)", "Print"]
        );
    }
}

#[test]
fn join_picks_the_join_program() {
    let uops = lookup("join").unwrap();
    assert_eq!(
        shape_of(&uops),
        vec![
            "ReadString",
            "Pop",
            "ReadLine",
            "JmpRelZ(3)",
            "Pop",
            "Push(String(\"\"))",
            "Dup",
            "ReadLine",
            "JmpRelZ(7)",
            "Add",
            "Add",
            "Swap(1)",
            "Dup",
            "Swap(2)",
            "Swap(1)",
            "JmpRel(-9)",
            "Pop",
            "Swap(1)",
            "Pop",
            "Print",
        ]
    );
}

#[test]
fn command_words_are_case_sensitive() {
    assert!(lookup("Add").is_none());
    assert!(lookup("MUL").is_none());
    assert!(lookup("").is_none());
    assert!(lookup("add ").is_none());
    assert!(lookup("div").is_none());
}

#[test]
fn known_ops_lists_the_words() {
    assert_eq!(known_ops(), ["+", "add", "*", "mul", "join"]);
}

#[test]
fn known_ops_are_the_words_that_name_a_program() {
    for word in known_ops() {
        assert!(lookup(word).is_some());
    }
    for word in ["div", "sub", "Join", "add1", "", " "] {
        assert!(!known_ops().contains(&word));
        assert!(lookup(word).is_none());
    }
}

#[test]
fn compile_leaves_the_operands_in_the_input() {
    let mut toks = Tokenizer::new(b"add 1 2 3\n");
    let mut parser = Parser::new(&mut toks);
    let ucode = parser.compile().unwrap();
    assert_eq!(ucode.uops.len(), 6);
    assert_eq!(ucode.tokenizer.read_num().unwrap().0, Token::Value(Value::Num(1)));
    assert_eq!(ucode.tokenizer.read_num().unwrap().0, Token::Value(Value::Num(2)));
}

#[test]
fn unknown_word_is_an_unknown_operation() {
    let mut toks = Tokenizer::new(b"div 1 2");
    let mut parser = Parser::new(&mut toks);
    match parser.compile() {
        Err(Error::UnknownOperation { op, range }) => {
            assert_eq!(op, "div");
            assert_eq!(range.start, Loc { column: 0, line: 0 });
            assert_eq!(range.end, Loc { column: 3, line: 0 });
        }
        Err(other) => panic!("{:?}", other),
        Ok(_) => panic!("a program was picked"),
    }
}

#[test]
fn empty_input_is_an_unexpected_token() {
    let mut toks = Tokenizer::new(b"");
    let mut parser = Parser::new(&mut toks);
    match parser.compile() {
        Err(Error::UnexpectedToken { tok, expected, range }) => {
            assert_eq!(tok, TokenOwned::Eof);
            assert_eq!(expected, vec![TokenName::Eof]);
            assert_eq!(range.start, Loc { column: 0, line: 0 });
            assert_eq!(range.end, Loc { column: 0, line: 0 });
        }
        Err(other) => panic!("{:?}", other),
        Ok(_) => panic!("a program was picked"),
    }
}

#[test]
fn command_word_at_the_end_of_the_input_is_lost() {
    let mut toks = Tokenizer::new(b"add");
    let mut parser = Parser::new(&mut toks);
    match parser.compile() {
        Err(Error::UnexpectedToken { tok, .. }) => assert_eq!(tok, TokenOwned::Eof),
        Err(other) => panic!("{:?}", other),
        Ok(_) => panic!("a program was picked"),
    }
}

#[test]
fn values_compare_by_kind_and_content() {
    assert_eq!(Value::Num(5), Value::Num(5));
    assert_ne!(Value::Num(5), Value::Num(6));
    assert_eq!(Value::String("5".to_string()), Value::String("5".to_string()));
    assert_ne!(Value::Num(5), Value::String("5".to_string()));
    assert_ne!(Value::String("5".to_string()), Value::Num(5));
    assert_eq!(Value::Num(5).clone(), Value::Num(5));
    assert_eq!(Value::String("a b".to_string()).clone(), Value::String("a b".to_string()));
}

#[test]
fn value_type_names_the_kind() {
    assert_eq!(Value::Num(0).value_type(), ValueType::Num);
    assert_eq!(Value::String(String::new()).value_type(), ValueType::String);
}

#[test]
fn instructions_clone_with_their_operands() {
    assert_eq!(format!("{:?}", UOps::Push(Value::Num(7)).clone()), "Push(Num(7))");
    assert_eq!(format!("{:?}", UOps::JmpRelZ(-3).clone()), "JmpRelZ(-3)");
    assert_eq!(format!("{:?}", UOps::Swap(2).clone()), "Swap(2)");
    assert_eq!(format!("{:?}", UOps::Eq.clone()), "Eq");
}

#[test]
fn compile_on_waits_for_the_end_of_the_word() {
    assert!(compile_on(b"", false).is_none());
    assert!(compile_on(b"  ad", false).is_none());
    assert!(compile_on(b"  add", false).is_none());
    let (uops, mark) = compile_on(b"  add ", false).unwrap().unwrap();
    assert_eq!(uops.len(), 6);
    let mut toks = Tokenizer::resume(b"  add 17 ", mark).unwrap();
    assert_eq!(toks.read_num().unwrap().0, Token::Value(Value::Num(17)));
}

#[test]
fn compile_on_complete_input_is_compile() {
    match compile_on(b"add", true) {
        Some(Err(Error::UnexpectedToken { tok, .. })) => assert_eq!(tok, TokenOwned::Eof),
        other => panic!("{:?}", other.map(|r| r.map(|found| found.0))),
    }
    match compile_on(b"div ", false) {
        Some(Err(Error::UnknownOperation { op, .. })) => assert_eq!(op, "div"),
        other => panic!("{:?}", other.map(|r| r.map(|found| found.0))),
    }
    // A byte that is no ASCII ends the input whatever may follow.
    match compile_on(b"\xff", false) {
        Some(Err(Error::UnexpectedToken { tok, .. })) => assert_eq!(tok, TokenOwned::Eof),
        other => panic!("{:?}", other.map(|r| r.map(|found| found.0))),
    }
}

#[test]
fn message_for_an_unknown_word_names_the_word_and_the_known_words() {
    let mut toks = Tokenizer::new(b"div 1 2");
    let mut parser = Parser::new(&mut toks);
    let message = match parser.compile() {
        Err(e) => e.message(),
        Ok(_) => panic!("a program was picked"),
    };
    assert_eq!(
        message,
        "unknown operations \"div\" as location 0:0-0:3, known operations are +, add, *, mul, join"
    );
    for word in known_ops() {
        assert!(message.contains(word));
    }
}

#[test]
fn message_for_a_token_that_is_no_word() {
    let mut toks = Tokenizer::new(b"\n\n  ");
    let mut parser = Parser::new(&mut toks);
    let message = match parser.compile() {
        Err(e) => e.message(),
        Ok(_) => panic!("a program was picked"),
    };
    assert_eq!(
        message,
        "expected any token of type end of input, got token \"end of input\" as location 2:2-2:2"
    );
    let other = Error::UnexpectedToken {
        tok: TokenOwned::Value(Value::Num(12)),
        expected: vec![TokenName::Ident, TokenName::Eof],
        range: LocRange { start: Loc { column: 1, line: 0 }, end: Loc { column: 3, line: 0 } },
    };
    assert_eq!(
        other.message(),
        "expected any token of type word, end of input, got token \"number 12\" as location 0:1-0:3"
    );
    let texts = Error::UnexpectedToken {
        tok: TokenOwned::Ident("w".to_string()),
        expected: vec![],
        range: LocRange { start: Loc { column: 0, line: 0 }, end: Loc { column: 0, line: 0 } },
    };
    assert_eq!(
        texts.message(),
        "expected any token of type , got token \"word w\" as location 0:0-0:0"
    );
}

#[test]
fn message_for_digits_that_are_no_number() {
    let mut toks = Tokenizer::new(b" 99999999999999999999 ");
    let e = match toks.read_num() {
        Err(e) => Error::Other(e),
        Ok(found) => panic!("{:?}", found),
    };
    assert_eq!(e.message(), "no number \"99999999999999999999\" as location 0:1-0:21");
}
