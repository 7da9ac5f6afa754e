//! Values, instructions and the compiler that picks a program by its command word.

use crate::tokenizer::{
    Cursor, LexError, Lexed, LocRange, Mark, SpecToken, Token, TokenName, TokenOwned, Tokenizer,
};
use vstd::prelude::*;
use vstd::std_specs::cmp::PartialEqSpecImpl;

verus! {

/// A value on the operand stack: a number or a text.
#[derive(Debug)]
pub enum Value {
    Num(u64),
    String(String),
}

/// What a [`Value`] stands for in contracts.
pub enum SpecValue {
    Num(u64),
    Text(Seq<char>),
}

impl View for Value {
    type V = SpecValue;

    open spec fn view(&self) -> SpecValue {
        match self {
            Value::Num(n) => SpecValue::Num(*n),
            Value::String(s) => SpecValue::Text(s@),
        }
    }
}

impl Clone for Value {
    fn clone(&self) -> (r: Self)
        ensures
            r@ == self@,
    {
        match self {
            Value::Num(n) => Value::Num(*n),
            Value::String(s) => Value::String(s.clone()),
        }
    }
}

impl PartialEq for Value {
    fn eq(&self, other: &Self) -> (r: bool) {
        match (self, other) {
            (Value::Num(a), Value::Num(b)) => *a == *b,
            (Value::String(a), Value::String(b)) => *a == *b,
            _ => false,
        }
    }
}

impl Eq for Value {

}

impl PartialEqSpecImpl for Value {
    open spec fn obeys_eq_spec() -> bool {
        true
    }

    open spec fn eq_spec(&self, other: &Self) -> bool {
        self@ == other@
    }
}

/// The two kinds of value.
#[derive(Debug, Clone, Copy, PartialEq, Eq, Structural)]
pub enum ValueType {
    Num,
    String,
}

impl Value {
    /// The kind of this value.
    pub fn value_type(&self) -> (r: ValueType)
        ensures
            r == self@.value_type(),
    {
        match self {
            Value::Num(_) => ValueType::Num,
            Value::String(_) => ValueType::String,
        }
    }
}

impl SpecValue {
    /// The kind of this value.
    pub open spec fn value_type(self) -> ValueType {
        match self {
            SpecValue::Num(_) => ValueType::Num,
            SpecValue::Text(_) => ValueType::String,
        }
    }
}

/// One instruction of the machine.
#[derive(Debug)]
pub enum UOps {
    Push(Value),
    Pop,
    JmpRelZ(isize),
    JmpRel(isize),
    Swap(usize),
    ReadString,
    ReadNum,
    ReadLine,
    Dup,
    Trim,
    Add,
    Mul,
    Eq,
    Print,
}

/// What an instruction stands for in contracts.
pub enum SpecOp {
    Push(SpecValue),
    Pop,
    JmpRelZ(int),
    JmpRel(int),
    Swap(nat),
    ReadString,
    ReadNum,
    ReadLine,
    Dup,
    Trim,
    Add,
    Mul,
    Eq,
    Print,
}

impl View for UOps {
    type V = SpecOp;

    open spec fn view(&self) -> SpecOp {
        match self {
            UOps::Push(v) => SpecOp::Push(v@),
            UOps::Pop => SpecOp::Pop,
            UOps::JmpRelZ(offset) => SpecOp::JmpRelZ(*offset as int),
            UOps::JmpRel(offset) => SpecOp::JmpRel(*offset as int),
            UOps::Swap(n) => SpecOp::Swap(*n as nat),
            UOps::ReadString => SpecOp::ReadString,
            UOps::ReadNum => SpecOp::ReadNum,
            UOps::ReadLine => SpecOp::ReadLine,
            UOps::Dup => SpecOp::Dup,
            UOps::Trim => SpecOp::Trim,
            UOps::Add => SpecOp::Add,
            UOps::Mul => SpecOp::Mul,
            UOps::Eq => SpecOp::Eq,
            UOps::Print => SpecOp::Print,
        }
    }
}

impl Clone for UOps {
    fn clone(&self) -> (r: Self)
        ensures
            r@ == self@,
    {
        match self {
            UOps::Push(v) => UOps::Push(v.clone()),
            UOps::Pop => UOps::Pop,
            UOps::JmpRelZ(offset) => UOps::JmpRelZ(*offset),
            UOps::JmpRel(offset) => UOps::JmpRel(*offset),
            UOps::Swap(n) => UOps::Swap(*n),
            UOps::ReadString => UOps::ReadString,
            UOps::ReadNum => UOps::ReadNum,
            UOps::ReadLine => UOps::ReadLine,
            UOps::Dup => UOps::Dup,
            UOps::Trim => UOps::Trim,
            UOps::Add => UOps::Add,
            UOps::Mul => UOps::Mul,
            UOps::Eq => UOps::Eq,
            UOps::Print => UOps::Print,
        }
    }
}

/// The views of the items of `s`, in order.
pub open spec fn views<T: View>(s: Seq<T>) -> Seq<T::V> {
    Seq::new(s.len(), |i: int| s[i]@)
}

/// The program that adds numbers: it starts from 0, reads numbers as long as
/// there are any and adds each, then prints the sum.
pub open spec fn sum_program() -> Seq<SpecOp> {
    seq![
        SpecOp::Push(SpecValue::Num(0)),
        SpecOp::ReadNum,
        SpecOp::JmpRelZ(2),
        SpecOp::Add,
        SpecOp::JmpRel(-4),
        SpecOp::Print,
    ]
}

/// The program that multiplies numbers: as the sum, from 1 and with `Mul`.
pub open spec fn product_program() -> Seq<SpecOp> {
    seq![
        SpecOp::Push(SpecValue::Num(1)),
        SpecOp::ReadNum,
        SpecOp::JmpRelZ(2),
        SpecOp::Mul,
        SpecOp::JmpRel(-4),
        SpecOp::Print,
    ]
}

/// The program that joins lines: it reads one string, the separator, and drops
/// the rest of that line; then it reads line after line and puts them into one
/// text, with the separator between them, and prints that text once no line is
/// left.
pub open spec fn join_program() -> Seq<SpecOp> {
    seq![
        SpecOp::ReadString,
        SpecOp::Pop,
        SpecOp::ReadLine,
        SpecOp::JmpRelZ(3),
        SpecOp::Pop,
        SpecOp::Push(SpecValue::Text(Seq::empty())),
        SpecOp::Dup,
        SpecOp::ReadLine,
        SpecOp::JmpRelZ(7),
        SpecOp::Add,
        SpecOp::Add,
        SpecOp::Swap(1),
        SpecOp::Dup,
        SpecOp::Swap(2),
        SpecOp::Swap(1),
        SpecOp::JmpRel(-9),
        SpecOp::Pop,
        SpecOp::Swap(1),
        SpecOp::Pop,
        SpecOp::Print,
    ]
}

/// The program that the command word `word` names, if it names one: `add` or `+`
/// the sum, `mul` or `*` the product, `join` the join.
pub open spec fn program_for(word: Seq<char>) -> Option<Seq<SpecOp>> {
    if word == seq!['+'] || word == seq!['a', 'd', 'd'] {
        Some(sum_program())
    } else if word == seq!['*'] || word == seq!['m', 'u', 'l'] {
        Some(product_program())
    } else if word == seq!['j', 'o', 'i', 'n'] {
        Some(join_program())
    } else {
        None
    }
}

fn add_ucode() -> (r: Vec<UOps>)
    ensures
        views(r@) == sum_program(),
{
    let r = vec![
        UOps::Push(Value::Num(0)),
        UOps::ReadNum,
        UOps::JmpRelZ(2),
        UOps::Add,
        UOps::JmpRel(-4),
        UOps::Print,
    ];
    assert(views(r@) =~= sum_program());
    r
}

fn mul_ucode() -> (r: Vec<UOps>)
    ensures
        views(r@) == product_program(),
{
    let r = vec![
        UOps::Push(Value::Num(1)),
        UOps::ReadNum,
        UOps::JmpRelZ(2),
        UOps::Mul,
        UOps::JmpRel(-4),
        UOps::Print,
    ];
    assert(views(r@) =~= product_program());
    r
}

fn join_ucode() -> (r: Vec<UOps>)
    ensures
        views(r@) == join_program(),
{
    let r = vec![
        UOps::ReadString,
        UOps::Pop,
        UOps::ReadLine,
        UOps::JmpRelZ(3),
        UOps::Pop,
        UOps::Push(Value::String(String::new())),
        UOps::Dup,
        UOps::ReadLine,
        UOps::JmpRelZ(7),
        UOps::Add,
        UOps::Add,
        UOps::Swap(1),
        UOps::Dup,
        UOps::Swap(2),
        UOps::Swap(1),
        UOps::JmpRel(-9),
        UOps::Pop,
        UOps::Swap(1),
        UOps::Pop,
        UOps::Print,
    ];
    assert(views(r@) =~= join_program());
    r
}

/// Whether two texts hold the same characters.
fn same_text(a: &str, b: &str) -> (r: bool)
    ensures
        r == (a@ == b@),
{
    String::from_str(a) == String::from_str(b)
}

/// The instructions of the program that `word` names, if it names one.
pub fn lookup(word: &str) -> (r: Option<Vec<UOps>>)
    ensures
        match r {
            Some(uops) => program_for(word@) == Some(views(uops@)),
            None => program_for(word@) is None,
        },
{
    proof {
        reveal_strlit("+");
        reveal_strlit("add");
        reveal_strlit("*");
        reveal_strlit("mul");
        reveal_strlit("join");
        assert("+"@ =~= seq!['+']);
        assert("add"@ =~= seq!['a', 'd', 'd']);
        assert("*"@ =~= seq!['*']);
        assert("mul"@ =~= seq!['m', 'u', 'l']);
        assert("join"@ =~= seq!['j', 'o', 'i', 'n']);
    }
    if same_text(word, "+") || same_text(word, "add") {
        Some(add_ucode())
    } else if same_text(word, "*") || same_text(word, "mul") {
        Some(mul_ucode())
    } else if same_text(word, "join") {
        Some(join_ucode())
    } else {
        None
    }
}

/// The command words: all the words that name a program, and no other. The
/// diagnostic for an unknown word lists them.
pub fn known_ops() -> (r: [&'static str; 5])
    ensures
        r@.len() == 5,
        r@[0]@ == seq!['+'],
        r@[1]@ == seq!['a', 'd', 'd'],
        r@[2]@ == seq!['*'],
        r@[3]@ == seq!['m', 'u', 'l'],
        r@[4]@ == seq!['j', 'o', 'i', 'n'],
        forall|word: Seq<char>|
            program_for(word) is Some <==> exists|i: int|
                0 <= i < r@.len() && #[trigger] r@[i]@ == word,
{
    proof {
        reveal_strlit("+");
        reveal_strlit("add");
        reveal_strlit("*");
        reveal_strlit("mul");
        reveal_strlit("join");
        assert("+"@ =~= seq!['+']);
        assert("add"@ =~= seq!['a', 'd', 'd']);
        assert("*"@ =~= seq!['*']);
        assert("mul"@ =~= seq!['m', 'u', 'l']);
        assert("join"@ =~= seq!['j', 'o', 'i', 'n']);
    }
    let r = ["+", "add", "*", "mul", "join"];
    proof {
        assert forall|word: Seq<char>| program_for(word) is Some implies exists|i: int|
            0 <= i < r@.len() && #[trigger] r@[i]@ == word by {
            if word == seq!['+'] {
                assert(r@[0]@ == word);
            } else if word == seq!['a', 'd', 'd'] {
                assert(r@[1]@ == word);
            } else if word == seq!['*'] {
                assert(r@[2]@ == word);
            } else if word == seq!['m', 'u', 'l'] {
                assert(r@[3]@ == word);
            } else {
                assert(r@[4]@ == word);
            }
        }
    }
    r
}

/// Why no program could be picked.
#[derive(Debug)]
pub enum Error {
    /// The input does not start with a word.
    UnexpectedToken { tok: TokenOwned, expected: Vec<TokenName>, range: LocRange },
    /// The input starts with a word that names no program.
    UnknownOperation { op: String, range: LocRange },
    /// The lexer failed.
    Other(LexError),
}

/// A program ready to run: its instructions, and the lexer that its read
/// instructions draw on.
pub struct UCode<'a> {
    pub uops: Vec<UOps>,
    pub tokenizer: &'a mut Tokenizer<'a>,
}

/// The compiler: it reads the command word and picks the program.
pub struct Parser<'a> {
    tokenizer: &'a mut Tokenizer<'a>,
}

impl<'a> Parser<'a> {
    /// The state of the lexer that this compiler reads from.
    pub closed spec fn cursor(&self) -> Cursor {
        self.tokenizer@
    }

    /// A compiler that reads from `tokenizer`.
    pub fn new(tokenizer: &'a mut Tokenizer<'a>) -> (r: Self)
        ensures
            r.cursor() == old(tokenizer)@,
    {
        Self { tokenizer }
    }

    /// Reads one token and picks the program that it names. All that follows the
    /// command word stays in the input for the program to read.
    pub fn compile(&'a mut self) -> (r: Result<UCode<'a>, Error>)
        ensures
            ({
                let l = old(self).cursor().next_token();
                match r {
                    Ok(code) => {
                        &&& l.token matches Ok(SpecToken::Ident(word))
                        &&& program_for(word) == Some(views(code.uops@))
                        &&& code.tokenizer@ == l.cursor
                        &&& code.tokenizer@.bounded()
                        &&& final(self).cursor() == final(code.tokenizer)@
                    },
                    Err(Error::UnknownOperation { op, range }) => {
                        &&& l.token == Ok::<SpecToken, Seq<char>>(SpecToken::Ident(op@))
                        &&& program_for(op@) is None
                        &&& range == l.range
                        &&& final(self).cursor() == l.cursor
                        &&& final(self).cursor().bounded()
                    },
                    Err(Error::UnexpectedToken { tok, expected, range }) => {
                        &&& l.token == Ok::<SpecToken, Seq<char>>(tok@)
                        &&& !(tok@ is Ident)
                        &&& expected@ == seq![TokenName::Eof]
                        &&& range == l.range
                        &&& final(self).cursor() == l.cursor
                        &&& final(self).cursor().bounded()
                    },
                    Err(Error::Other(_)) => false,
                }
            }),
    {
        match pick(self.tokenizer) {
            Ok(uops) => Ok(UCode { uops, tokenizer: self.tokenizer }),
            Err(e) => Err(e),
        }
    }
}

/// Whether `r` is what the compiler owes for the first token `l` of its input:
/// the program that the word names, or the error that tells why there is none.
pub open spec fn picked(r: Result<Vec<UOps>, Error>, l: Lexed) -> bool {
    match r {
        Ok(uops) => {
            &&& l.token matches Ok(SpecToken::Ident(word))
            &&& program_for(word) == Some(views(uops@))
        },
        Err(Error::UnknownOperation { op, range }) => {
            &&& l.token == Ok::<SpecToken, Seq<char>>(SpecToken::Ident(op@))
            &&& program_for(op@) is None
            &&& range == l.range
        },
        Err(Error::UnexpectedToken { tok, expected, range }) => {
            &&& l.token == Ok::<SpecToken, Seq<char>>(tok@)
            &&& !(tok@ is Ident)
            &&& expected@ == seq![TokenName::Eof]
            &&& range == l.range
        },
        Err(Error::Other(_)) => false,
    }
}

/// Reads one token and picks the program that it names.
fn pick(tokenizer: &mut Tokenizer) -> (r: Result<Vec<UOps>, Error>)
    ensures
        picked(r, old(tokenizer)@.next_token()),
        final(tokenizer)@ == old(tokenizer)@.next_token().cursor,
        final(tokenizer)@.bounded(),
        final(tokenizer).input() == old(tokenizer).input(),
{
    match tokenizer.next_token() {
        Ok((Token::Ident(op), range)) => {
            match lookup(op) {
                Some(uops) => Ok(uops),
                None => Err(Error::UnknownOperation { op: String::from_str(op), range }),
            }
        },
        Ok((tok, range)) => {
            let mut expected = Vec::new();
            expected.push(TokenName::Eof);
            Err(Error::UnexpectedToken { tok: tok.to_owned(), expected, range })
        },
        Err(e) => Err(Error::Other(e)),
    }
}

/// Picks the program as [`Parser::compile`] does, over an input that may still
/// grow: `input` holds the bytes at hand, and `complete` tells whether that is
/// all there will be. Where the first token runs out of the bytes at hand while
/// more may come, nothing is returned: the caller fetches more bytes and tries
/// again with the longer input. Else it returns the program with the place
/// behind the command word, from which the program reads on, or the error.
pub fn compile_on(input: &[u8], complete: bool) -> (r: Option<Result<(Vec<UOps>, Mark), Error>>)
    ensures
        ({
            let l = Cursor::new(input@).next_token();
            if !complete && l.cursor.eof && l.cursor.rest.len() == 0 {
                r is None
            } else {
                match r {
                    Some(Ok((uops, mark))) => {
                        &&& picked(Ok(uops), l)
                        &&& mark.cursor(input@) == l.cursor
                        &&& mark.offset() <= input@.len()
                    },
                    Some(Err(e)) => picked(Err(e), l),
                    None => false,
                }
            }
        }),
{
    let mut lexer = Tokenizer::new(input);
    let found = pick(&mut lexer);
    if !complete && lexer.at_eof() && lexer.at_end() {
        return None;
    }
    match found {
        Ok(uops) => Some(Ok((uops, lexer.mark()))),
        Err(e) => Some(Err(e)),
    }
}

} // verus!
