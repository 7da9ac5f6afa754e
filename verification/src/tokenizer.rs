//! The lexer: a cursor over the input bytes that hands out words, lines, strings
//! and numbers, and keeps track of line and column.

use crate::parser::{SpecValue, Value};
use crate::text::{parse_decimal, parsed, push_char};
use vstd::prelude::*;

verus! {

/// A place in the input: line and column, both counted from zero.
#[derive(Debug, Clone, Copy, PartialEq, Eq, Structural)]
pub struct Loc {
    pub column: usize,
    pub line: usize,
}

impl Default for Loc {
    fn default() -> (r: Loc)
        ensures
            r == Loc::origin(),
    {
        Loc { column: 0, line: 0 }
    }
}

impl Loc {
    /// The place where every input starts.
    pub open spec fn origin() -> Loc {
        Loc { column: 0, line: 0 }
    }

    /// The place after the character `c`: a line feed starts the next line, any
    /// other character moves one column on.
    pub open spec fn moved(self, c: char) -> Loc {
        if c == '\n' {
            Loc { column: 0, line: (self.line + 1) as usize }
        } else {
            Loc { column: (self.column + 1) as usize, line: self.line }
        }
    }

    /// The place after all the bytes of `s`, read in order.
    pub open spec fn after(self, s: Seq<u8>) -> Loc
        decreases s.len(),
    {
        if s.len() == 0 {
            self
        } else {
            self.after(s.drop_last()).moved(s.last() as char)
        }
    }

    fn advance(&mut self, c: char)
        requires
            old(self).line < usize::MAX,
            old(self).column < usize::MAX,
        ensures
            *final(self) == old(self).moved(c),
    {
        match c {
            '\n' => {
                self.line += 1;
                self.column = 0;
            },
            _ => {
                self.column += 1;
            },
        }
    }
}

/// The places where a token starts and ends.
#[derive(Debug, Clone, Copy, PartialEq, Eq, Structural)]
pub struct LocRange {
    pub start: Loc,
    pub end: Loc,
}

/// A token that may borrow its text from the lexer.
#[derive(Debug, PartialEq, Eq)]
pub enum Token<'a> {
    Eof,
    Ident(&'a str),
    Value(Value),
}

/// A token that owns its text.
#[derive(Debug, PartialEq, Eq)]
pub enum TokenOwned {
    Eof,
    Ident(String),
    Value(Value),
}

/// The kinds of token that a diagnostic can name.
#[derive(Debug, Clone, Copy, PartialEq, Eq, Structural)]
pub enum TokenName {
    Eof,
    Ident,
}

/// What a token stands for in contracts.
pub enum SpecToken {
    Eof,
    Ident(Seq<char>),
    Value(SpecValue),
}

impl View for Token<'_> {
    type V = SpecToken;

    open spec fn view(&self) -> SpecToken {
        match self {
            Token::Eof => SpecToken::Eof,
            Token::Ident(s) => SpecToken::Ident(s@),
            Token::Value(v) => SpecToken::Value(v@),
        }
    }
}

impl View for TokenOwned {
    type V = SpecToken;

    open spec fn view(&self) -> SpecToken {
        match self {
            TokenOwned::Eof => SpecToken::Eof,
            TokenOwned::Ident(s) => SpecToken::Ident(s@),
            TokenOwned::Value(v) => SpecToken::Value(v@),
        }
    }
}

impl Token<'_> {
    /// The same token with a text of its own.
    pub fn to_owned(&self) -> (r: TokenOwned)
        ensures
            r@ == self@,
    {
        match self {
            Token::Eof => TokenOwned::Eof,
            Token::Ident(ident) => TokenOwned::Ident(String::from_str(ident)),
            Token::Value(v) => TokenOwned::Value(v.clone()),
        }
    }
}

/// A run of digits that is no number of 64 bits: it is empty or too large.
#[derive(Debug)]
pub enum LexError {
    BadNumber { text: String, range: LocRange },
}

/// The bytes that separate words: space, tab, line feed, carriage return.
pub open spec fn is_space(b: u8) -> bool {
    b == 32 || b == 9 || b == 10 || b == 13
}

/// The bytes of the decimal digits.
pub open spec fn is_digit(b: u8) -> bool {
    48 <= b <= 57
}

/// A set of bytes that a scan runs over.
pub enum Class {
    /// The bytes below 128.
    Ascii,
    /// The separators.
    Space,
    /// All but the separators.
    Word,
    /// The decimal digits.
    Digit,
    /// All but the given byte.
    Except(u8),
}

impl Class {
    pub open spec fn has(self, b: u8) -> bool {
        match self {
            Class::Ascii => b < 128,
            Class::Space => is_space(b),
            Class::Word => !is_space(b),
            Class::Digit => is_digit(b),
            Class::Except(x) => b != x,
        }
    }
}

/// The length of the longest prefix of `s` whose bytes are all in `class`.
pub open spec fn span(s: Seq<u8>, class: Class) -> nat
    decreases s.len(),
{
    if s.len() > 0 && class.has(s[0]) {
        1 + span(s.skip(1), class)
    } else {
        0
    }
}

/// The bytes of `s` as characters.
pub open spec fn chars(s: Seq<u8>) -> Seq<char> {
    Seq::new(s.len(), |i: int| s[i] as char)
}

/// The state of a lexer: the bytes not yet consumed, whether the end of the input
/// was met, and the place reached.
pub struct Cursor {
    pub rest: Seq<u8>,
    pub eof: bool,
    pub loc: Loc,
}

/// What one call of the lexer gives: the state it leaves, the token (or the text
/// of a run of digits that is no number), and the token's place.
pub struct Lexed {
    pub cursor: Cursor,
    pub token: Result<SpecToken, Seq<char>>,
    pub range: LocRange,
}

impl Cursor {
    /// The state before anything of `input` is read.
    pub open spec fn new(input: Seq<u8>) -> Cursor {
        Cursor { rest: input, eof: false, loc: Loc::origin() }
    }

    /// Whether line and column can be counted up to the end of the input: however
    /// the bytes that are left fall into lines, neither count passes what a
    /// `usize` holds. It holds of every lexer, so that the places of a token are
    /// the true counts.
    pub open spec fn bounded(self) -> bool {
        self.loc.line + self.loc.column + self.rest.len() <= usize::MAX
    }

    /// The bytes that can still be read: none once the end was met, else those
    /// before the first byte that is not ASCII, which counts as the end.
    pub open spec fn avail(self) -> Seq<u8> {
        if self.eof {
            Seq::empty()
        } else {
            self.rest.take(span(self.rest, Class::Ascii) as int)
        }
    }

    /// The place after the first `n` readable bytes.
    pub open spec fn loc_at(self, n: int) -> Loc {
        self.loc.after(self.avail().take(n))
    }

    /// The state after a scan that consumed the first `n` readable bytes; `end`
    /// tells whether it ran into the end of the input.
    pub open spec fn taken(self, n: int, end: bool) -> Cursor {
        Cursor { rest: self.rest.skip(n), eof: self.eof || end, loc: self.loc_at(n) }
    }

    /// Skips separators, then takes the bytes up to the next separator as a word.
    /// A word that runs into the end of the input is lost: the token is `Eof`.
    pub open spec fn next_token(self) -> Lexed {
        let a = self.avail();
        let i = span(a, Class::Space) as int;
        let n = i + span(a.skip(i), Class::Word);
        let end = n == a.len();
        Lexed {
            cursor: self.taken(n, end),
            token: Ok(
                if end {
                    SpecToken::Eof
                } else {
                    SpecToken::Ident(chars(a.subrange(i, n)))
                },
            ),
            range: LocRange { start: self.loc_at(i), end: self.loc_at(n) },
        }
    }

    /// Takes the bytes up to the next line feed as a text and consumes the line
    /// feed. A line that runs into the end of the input is lost.
    pub open spec fn read_line(self) -> Lexed {
        let a = self.avail();
        let n = span(a, Class::Except(10)) as int;
        let end = n == a.len();
        Lexed {
            cursor: self.taken(if end { n } else { n + 1 }, end),
            token: Ok(
                if end {
                    SpecToken::Eof
                } else {
                    SpecToken::Value(SpecValue::Text(chars(a.take(n))))
                },
            ),
            range: LocRange { start: self.loc, end: self.loc_at(n) },
        }
    }

    /// Skips separators. Then, after a double quote, takes the bytes up to the next
    /// double quote as a text and consumes that quote; else takes the bytes up to
    /// the next separator. A text that runs into the end of the input is lost.
    pub open spec fn read_string(self) -> Lexed {
        let a = self.avail();
        let i = span(a, Class::Space) as int;
        if i < a.len() && a[i] == 34 {
            let n = i + 1 + span(a.skip(i + 1), Class::Except(34));
            let end = n == a.len();
            Lexed {
                cursor: self.taken(if end { n } else { n + 1 }, end),
                token: Ok(
                    if end {
                        SpecToken::Eof
                    } else {
                        SpecToken::Value(SpecValue::Text(chars(a.subrange(i + 1, n))))
                    },
                ),
                range: LocRange { start: self.loc_at(i + 1), end: self.loc_at(n) },
            }
        } else {
            let n = i + span(a.skip(i), Class::Word);
            let end = n == a.len();
            Lexed {
                cursor: self.taken(n, end),
                token: Ok(
                    if end {
                        SpecToken::Eof
                    } else {
                        SpecToken::Value(SpecValue::Text(chars(a.subrange(i, n))))
                    },
                ),
                range: LocRange { start: self.loc_at(i), end: self.loc_at(n) },
            }
        }
    }

    /// Skips separators, takes the digits that follow and consumes the byte after
    /// them, whatever ASCII byte it is. Digits that run into the end of the input
    /// are lost; a byte that is no ASCII counts as that end.
    /// No digits, or digits of a number above 64 bits, are an error that carries them.
    pub open spec fn read_num(self) -> Lexed {
        let a = self.avail();
        let i = span(a, Class::Space) as int;
        let n = i + span(a.skip(i), Class::Digit);
        let end = n == a.len();
        let digits = a.subrange(i, n);
        Lexed {
            cursor: self.taken(if end { n } else { n + 1 }, end),
            token: if end {
                Ok(SpecToken::Eof)
            } else {
                match parsed(chars(digits)) {
                    Some(v) => Ok(SpecToken::Value(SpecValue::Num(v))),
                    None => Err(chars(digits)),
                }
            },
            range: LocRange { start: self.loc_at(i), end: self.loc_at(n) },
        }
    }
}

/// A prefix of `n` bytes of `class` that ends the sequence, or is followed by a
/// byte outside `class`, is the span.
pub proof fn lemma_span(s: Seq<u8>, class: Class, n: int)
    requires
        0 <= n <= s.len(),
        forall|j: int| 0 <= j < n ==> class.has(#[trigger] s[j]),
        n < s.len() ==> !class.has(s[n]),
    ensures
        span(s, class) == n,
    decreases n,
{
    if n > 0 {
        lemma_span(s.skip(1), class, n - 1);
    }
}

/// The span is a prefix of bytes of `class` that ends the sequence or is followed
/// by a byte outside `class`.
pub proof fn lemma_span_is_run(s: Seq<u8>, class: Class)
    ensures
        span(s, class) <= s.len(),
        forall|j: int| 0 <= j < span(s, class) ==> class.has(#[trigger] s[j]),
        span(s, class) < s.len() ==> !class.has(s[span(s, class) as int]),
    decreases s.len(),
{
    if s.len() > 0 && class.has(s[0]) {
        let t = s.skip(1);
        lemma_span_is_run(t, class);
        assert forall|j: int| 0 <= j < span(s, class) implies class.has(#[trigger] s[j]) by {
            if j > 0 {
                assert(s[j] == t[j - 1]);
            }
        }
        if span(s, class) < s.len() {
            assert(s[span(s, class) as int] == t[span(t, class) as int]);
        }
    }
}

/// Whether the result `r` of a call of the lexer is what `l` says: the same token
/// at the same place, or the error that carries the same digits.
pub open spec fn agrees(r: Result<(Token<'_>, LocRange), LexError>, l: Lexed) -> bool {
    match r {
        Ok((token, range)) => l.token == Ok::<SpecToken, Seq<char>>(token@) && l.range == range,
        Err(LexError::BadNumber { text, range }) => l.token == Err::<SpecToken, Seq<char>>(text@)
            && l.range == range,
    }
}

/// The readable bytes are a prefix of the rest, and there is one exactly when the
/// end was not met and the rest starts with an ASCII byte.
pub proof fn lemma_avail(c: Cursor)
    ensures
        c.avail().len() <= c.rest.len(),
        c.avail() == c.rest.take(c.avail().len() as int),
        c.avail().len() > 0 <==> !c.eof && c.rest.len() > 0 && c.rest[0] < 128,
        c.eof ==> c.avail().len() == 0,
{
    lemma_span_is_run(c.rest, Class::Ascii);
    if c.eof {
        assert(c.rest.take(0) =~= Seq::<u8>::empty());
    }
}

/// Consuming readable bytes leaves the readable bytes behind them.
pub proof fn lemma_taken(c: Cursor, n: int)
    requires
        0 <= n <= c.avail().len(),
    ensures
        c.taken(n, false).avail() == c.avail().skip(n),
        n == c.avail().len() ==> c.taken(n, true).avail() == c.avail().skip(n),
    decreases n,
{
    lemma_avail(c);
    let a = c.avail();
    if !c.eof {
        let k = span(c.rest, Class::Ascii) as int;
        lemma_span_is_run(c.rest, Class::Ascii);
        let r = c.rest.skip(n);
        assert forall|j: int| 0 <= j < k - n implies Class::Ascii.has(#[trigger] r[j]) by {
            assert(r[j] == c.rest[j + n]);
        }
        lemma_span(r, Class::Ascii, k - n);
        assert(r.take(k - n) =~= a.skip(n));
    } else {
        assert(a.skip(n) =~= Seq::<u8>::empty());
    }
    if n == a.len() {
        assert(a.skip(n) =~= Seq::<u8>::empty());
    }
}

/// One more byte consumed: where a cursor that has consumed `i` readable bytes of
/// `c0` stands after the next one.
proof fn lemma_step(c0: Cursor, i: int, prev: Cursor)
    requires
        0 <= i < c0.avail().len(),
        prev.rest == c0.rest.skip(i),
        prev.loc == c0.loc_at(i),
        prev.avail() == c0.avail().skip(i),
    ensures
        prev.taken(1, false).rest == c0.rest.skip(i + 1),
        prev.taken(1, false).loc == c0.loc_at(i + 1),
        prev.taken(1, false).avail() == c0.avail().skip(i + 1),
        prev.taken(1, false).eof == prev.eof,
        prev.avail()[0] == c0.avail()[i],
{
    let a = c0.avail();
    lemma_avail(c0);
    lemma_taken(prev, 1);
    assert(c0.rest.skip(i).skip(1) =~= c0.rest.skip(i + 1));
    assert(a.skip(i).skip(1) =~= a.skip(i + 1));
    assert(a.skip(i).take(1).drop_last() =~= Seq::<u8>::empty());
    assert(prev.loc.after(a.skip(i).take(1).drop_last()) == prev.loc);
    assert(a.take(i + 1).drop_last() =~= a.take(i));
}

/// Where the counts have room for all of `s`, reading `s` adds to line and column
/// together at most its length, and never takes from the line.
pub proof fn lemma_after_bounded(loc: Loc, s: Seq<u8>)
    requires
        loc.line + loc.column + s.len() <= usize::MAX,
    ensures
        loc.line <= loc.after(s).line,
        loc.after(s).line + loc.after(s).column <= loc.line + loc.column + s.len(),
    decreases s.len(),
{
    if s.len() > 0 {
        lemma_after_bounded(loc, s.drop_last());
    }
}

/// Where the counts have room for all of `s` and `s` holds no line feed, reading
/// `s` stays on the line and moves the column on by the length of `s`.
pub proof fn lemma_after_on_one_line(loc: Loc, s: Seq<u8>)
    requires
        loc.line + loc.column + s.len() <= usize::MAX,
        forall|i: int| 0 <= i < s.len() ==> #[trigger] s[i] != 10,
    ensures
        loc.after(s).line == loc.line,
        loc.after(s).column == loc.column + s.len(),
    decreases s.len(),
{
    if s.len() > 0 {
        let t = s.drop_last();
        assert forall|i: int| 0 <= i < t.len() implies #[trigger] t[i] != 10 by {
            assert(t[i] == s[i]);
        }
        lemma_after_on_one_line(loc, t);
        assert(s.last() == s[s.len() - 1]);
    }
}

/// Reading `s` and then `t` leads where reading them as one sequence leads.
pub proof fn lemma_after_add(loc: Loc, s: Seq<u8>, t: Seq<u8>)
    ensures
        loc.after(s).after(t) == loc.after(s + t),
    decreases t.len(),
{
    if t.len() == 0 {
        assert(s + t =~= s);
    } else {
        lemma_after_add(loc, s, t.drop_last());
        assert((s + t).drop_last() =~= s + t.drop_last());
    }
}

/// Two scans in a row consume what one scan over both stretches consumes.
pub proof fn lemma_taken_add(c: Cursor, n1: int, e1: bool, n2: int, e2: bool)
    requires
        0 <= n1 <= c.avail().len(),
        0 <= n2 <= c.avail().len() - n1,
        e1 ==> n1 == c.avail().len(),
    ensures
        c.taken(n1, e1).taken(n2, e2) == c.taken(n1 + n2, e1 || e2),
        c.taken(n1, e1).loc_at(n2) == c.loc_at(n1 + n2),
        c.taken(n1, e1).avail() == c.avail().skip(n1),
{
    let a = c.avail();
    lemma_taken(c, n1);
    lemma_avail(c);
    let d = c.taken(n1, e1);
    if e1 || c.eof {
        assert(d.avail() =~= a.skip(n1));
    }
    assert(d.avail().take(n2) =~= a.subrange(n1, n1 + n2));
    lemma_after_add(c.loc, a.take(n1), a.subrange(n1, n1 + n2));
    assert(a.take(n1) + a.subrange(n1, n1 + n2) =~= a.take(n1 + n2));
    assert(c.rest.skip(n1).skip(n2) =~= c.rest.skip(n1 + n2));
}

/// A word ends on the line on which it starts, as many columns on as it has
/// characters.
pub proof fn lemma_word_range(c: Cursor)
    requires
        c.bounded(),
    ensures
        c.next_token().token matches Ok(SpecToken::Ident(word)) ==> {
            &&& c.next_token().range.end.line == c.next_token().range.start.line
            &&& c.next_token().range.end.column == c.next_token().range.start.column + word.len()
        },
{
    let a = c.avail();
    let i = span(a, Class::Space) as int;
    let b = a.skip(i);
    let j = span(b, Class::Word) as int;
    lemma_avail(c);
    lemma_span_is_run(a, Class::Space);
    lemma_span_is_run(b, Class::Word);
    let word = a.subrange(i, i + j);
    assert forall|k: int| 0 <= k < word.len() implies #[trigger] word[k] != 10 by {
        assert(word[k] == b[k]);
        assert(Class::Word.has(b[k]));
    }
    lemma_after_bounded(c.loc, a.take(i));
    lemma_after_add(c.loc, a.take(i), word);
    assert(a.take(i) + word =~= a.take(i + j));
    lemma_after_on_one_line(c.loc_at(i), word);
}

/// One more byte taken into the text of a token.
proof fn lemma_chars_push(a: Seq<u8>, from: int, to: int)
    requires
        0 <= from <= to < a.len(),
    ensures
        chars(a.subrange(from, to)).push(a[to] as char) == chars(a.subrange(from, to + 1)),
{
    assert(chars(a.subrange(from, to)).push(a[to] as char) =~= chars(a.subrange(from, to + 1)));
}

/// The stretch that a scan takes as the text of a token.
#[derive(Clone, Copy)]
enum Run {
    /// Up to the next separator, which stays.
    Word,
    /// Up to the next line feed, which is consumed.
    Line,
    /// Up to the next double quote, which is consumed.
    Quoted,
    /// The digits, and the byte after them is consumed.
    Digits,
}

impl Run {
    spec fn class(self) -> Class {
        match self {
            Run::Word => Class::Word,
            Run::Line => Class::Except(10),
            Run::Quoted => Class::Except(34),
            Run::Digits => Class::Digit,
        }
    }

    /// Whether `c` ends the stretch.
    fn stops_at(self, c: char) -> (r: bool)
        requires
            c as u32 <= 127,
        ensures
            r == !self.class().has(c as u8),
    {
        match self {
            Run::Word => c == ' ' || c == '\t' || c == '\n' || c == '\r',
            Run::Line => c == '\n',
            Run::Quoted => c == '"',
            Run::Digits => c < '0' || c > '9',
        }
    }
}

/// A place reached in an input, from which a lexer can go on later, over the
/// same input or over that input with more bytes behind it.
#[derive(Debug, Clone, Copy)]
pub struct Mark {
    offset: usize,
    eof: bool,
    loc: Loc,
}

impl Mark {
    #[verifier::type_invariant]
    spec fn inv(self) -> bool {
        self.loc.line + self.loc.column <= self.offset
    }

    /// The number of bytes consumed up to this place.
    pub closed spec fn offset(self) -> nat {
        self.offset as nat
    }

    /// The state of a lexer that stands at this place in `input`.
    pub closed spec fn cursor(self, input: Seq<u8>) -> Cursor {
        Cursor { rest: input.skip(self.offset as int), eof: self.eof, loc: self.loc }
    }

    /// The place before the first byte.
    pub fn start() -> (r: Mark)
        ensures
            r.offset() == 0,
            forall|input: Seq<u8>| #[trigger] r.cursor(input) == Cursor::new(input),
    {
        let r = Mark { offset: 0, eof: false, loc: Loc::default() };
        assert forall|input: Seq<u8>| #[trigger] r.cursor(input) == Cursor::new(input) by {
            assert(input.skip(0) =~= input);
        }
        r
    }

    /// More bytes behind the input are more bytes behind what is left of it.
    pub proof fn lemma_longer_input(self, input: Seq<u8>, more: Seq<u8>)
        requires
            self.offset() <= input.len(),
        ensures
            self.cursor(input + more) == (Cursor {
                rest: self.cursor(input).rest + more,
                ..self.cursor(input)
            }),
    {
        assert((input + more).skip(self.offset as int) =~= input.skip(self.offset as int) + more);
    }
}

/// The lexer. It owns the cursor over the input; each call consumes what it read.
pub struct Tokenizer<'a> {
    input: &'a [u8],
    offset: usize,
    eof: bool,
    token: String,
    loc: Loc,
}

impl View for Tokenizer<'_> {
    type V = Cursor;

    closed spec fn view(&self) -> Cursor {
        Cursor { rest: self.input@.skip(self.offset as int), eof: self.eof, loc: self.loc }
    }
}

impl<'a> Tokenizer<'a> {
    #[verifier::type_invariant]
    spec fn inv(&self) -> bool {
        &&& self.offset <= self.input@.len() <= usize::MAX
        &&& self.loc.line + self.loc.column <= self.offset
    }

    /// A lexer at the start of `input`.
    pub fn new(input: &'a [u8]) -> (r: Self)
        ensures
            r@ == Cursor::new(input@),
            r@.bounded(),
            r.input() == input@,
    {
        let len = input.len();
        let r = Self { input, offset: 0, eof: false, token: String::new(), loc: Loc::default() };
        assert(input@.skip(0) =~= input@);
        r
    }


    /// All of the input that this lexer reads from, consumed or not.
    pub closed spec fn input(&self) -> Seq<u8> {
        self.input@
    }

    /// The place that this lexer has reached.
    pub fn mark(&self) -> (r: Mark)
        ensures
            r.cursor(self.input()) == self@,
            r.offset() <= self.input().len(),
    {
        proof {
            use_type_invariant(self);
        }
        Mark { offset: self.offset, eof: self.eof, loc: self.loc }
    }

    /// A lexer that goes on in `input` from `mark`; none where `input` is shorter
    /// than what was consumed up to `mark`.
    pub fn resume(input: &'a [u8], mark: Mark) -> (r: Option<Self>)
        ensures
            match r {
                Some(lexer) => lexer@ == mark.cursor(input@) && lexer.input() == input@
                    && mark.offset() <= input@.len(),
                None => mark.offset() > input@.len(),
            },
    {
        proof {
            use_type_invariant(mark);
        }
        if mark.offset <= input.len() {
            Some(
                Self {
                    input,
                    offset: mark.offset,
                    eof: mark.eof,
                    token: String::new(),
                    loc: mark.loc,
                },
            )
        } else {
            None
        }
    }

    /// Whether the end of the input was met.
    pub fn at_eof(&self) -> (r: bool)
        ensures
            r == self@.eof,
    {
        self.eof
    }

    /// Whether all bytes of the input are consumed.
    pub fn at_end(&self) -> (r: bool)
        ensures
            r == (self@.rest.len() == 0),
    {
        proof {
            use_type_invariant(self);
        }
        self.offset == self.input.len()
    }

    /// Looks at the next readable character and, if `advance` is set, consumes it.
    /// When there is none, the end of the input is met.
    fn next_char(&mut self, advance: bool) -> (r: Option<(char, Loc)>)
        ensures
            final(self).token == old(self).token,
            final(self).input == old(self).input,
            old(self)@.avail().len() == 0 ==> r is None && final(self)@ == (Cursor {
                eof: true,
                ..old(self)@
            }),
            old(self)@.avail().len() > 0 ==> r == Some(
                (old(self)@.avail()[0] as char, final(self)@.loc),
            ) && final(self)@ == (if advance {
                old(self)@.taken(1, false)
            } else {
                old(self)@
            }),
    {
        proof {
            use_type_invariant(&*self);
            lemma_avail(self@);
        }
        if self.eof {
            return None;
        }
        if self.input.len() == self.offset {
            self.eof = true;
            return None;
        }
        let b = self.input[self.offset];
        if b >= 128 {
            self.eof = true;
            return None;
        }
        let c = b as char;
        let loc = self.advance(c, advance);
        Some((c, loc))
    }

    fn advance(&mut self, c: char, advance: bool) -> (r: Loc)
        requires
            old(self)@.avail().len() > 0,
            c == old(self)@.avail()[0] as char,
        ensures
            final(self).token == old(self).token,
            final(self).input == old(self).input,
            r == final(self)@.loc,
            final(self)@ == (if advance {
                old(self)@.taken(1, false)
            } else {
                old(self)@
            }),
    {
        proof {
            use_type_invariant(&*self);
            lemma_avail(self@);
        }
        if advance {
            let ghost a = self@.avail();
            let len = self.input.len();
            assert(self.offset < len);
            assert(a.take(1).drop_last() =~= Seq::<u8>::empty());
            assert(self.loc.after(a.take(1).drop_last()) == self.loc);
            assert(self@.loc_at(1) == self.loc.moved(c));
            assert(self.input@.skip(self.offset as int).skip(1) =~= self.input@.skip(
                self.offset + 1,
            ));
            let mut loc = self.loc;
            loc.advance(c);
            self.offset += 1;
            self.loc = loc;
        }
        return self.loc;
    }

    /// Yields the next readable character if it separates words.
    fn whitespace(&mut self, advance: bool) -> (r: Option<(char, Loc)>)
        ensures
            final(self).token == old(self).token,
            final(self).input == old(self).input,
            old(self)@.avail().len() == 0 ==> r is None && final(self)@ == (Cursor {
                eof: true,
                ..old(self)@
            }),
            old(self)@.avail().len() > 0 && !is_space(old(self)@.avail()[0]) ==> r is None
                && final(self)@ == old(self)@,
            old(self)@.avail().len() > 0 && is_space(old(self)@.avail()[0]) ==> r == Some(
                (old(self)@.avail()[0] as char, final(self)@.loc),
            ) && final(self)@ == (if advance {
                old(self)@.taken(1, false)
            } else {
                old(self)@
            }),
    {
        match self.next_char(false) {
            None => None,
            Some((c, _)) => {
                if c == ' ' || c == '\t' || c == '\n' || c == '\r' {
                    Some((c, self.advance(c, advance)))
                } else {
                    None
                }
            },
        }
    }

    /// Yields the next readable character unless it separates words.
    fn not_whitespace(&mut self, advance: bool) -> (r: Option<(char, Loc)>)
        ensures
            final(self).token == old(self).token,
            final(self).input == old(self).input,
            old(self)@.avail().len() == 0 ==> r is None && final(self)@ == (Cursor {
                eof: true,
                ..old(self)@
            }),
            old(self)@.avail().len() > 0 && is_space(old(self)@.avail()[0]) ==> r is None
                && final(self)@ == old(self)@,
            old(self)@.avail().len() > 0 && !is_space(old(self)@.avail()[0]) ==> r == Some(
                (old(self)@.avail()[0] as char, final(self)@.loc),
            ) && final(self)@ == (if advance {
                old(self)@.taken(1, false)
            } else {
                old(self)@
            }),
    {
        match self.whitespace(false) {
            Some(_) => None,
            None => self.next_char(advance),
        }
    }

    /// Consumes the separators at the cursor.
    fn skip_whitespace(&mut self)
        ensures
            final(self).token == old(self).token,
            final(self).input == old(self).input,
            final(self)@ == old(self)@.taken(
                span(old(self)@.avail(), Class::Space) as int,
                span(old(self)@.avail(), Class::Space) == old(self)@.avail().len(),
            ),
            span(old(self)@.avail(), Class::Space) <= old(self)@.avail().len(),
    {
        let ghost c0 = self@;
        let ghost a = c0.avail();
        let ghost mut i: int = 0;
        proof {
            assert(c0.rest.skip(0) =~= c0.rest);
            assert(a.take(0) =~= Seq::<u8>::empty());
            assert(a.skip(0) =~= a);
        }
        loop
            invariant
                0 <= i <= a.len(),
                a == c0.avail(),
                self.token == old(self).token,
                self.input == old(self).input,
                self@.rest == c0.rest.skip(i),
                self@.loc == c0.loc_at(i),
                self@.avail() == a.skip(i),
                c0.eof ==> self@.eof,
                forall|j: int| 0 <= j < i ==> is_space(#[trigger] a[j]),
            ensures
                self@.eof || (i < a.len() && !is_space(a[i])),
            decreases a.len() - i,
        {
            let ghost prev = self@;
            match self.whitespace(true) {
                Some(_) => {
                    proof {
                        lemma_step(c0, i, prev);
                        i = i + 1;
                    }
                },
                None => {
                    proof {
                        if prev.avail().len() > 0 {
                            assert(prev.avail()[0] == a[i]);
                        }
                    }
                    break ;
                },
            }
        }
        proof {
            lemma_avail(self@);
            lemma_span(a, Class::Space, i);
        }
    }

    /// Takes the stretch `run` at the cursor: gives its text and the place behind
    /// its last character.
    fn take_run(&mut self, run: Run) -> (r: (String, Loc))
        ensures
            final(self).token == old(self).token,
            final(self).input == old(self).input,
            ({
                let a = old(self)@.avail();
                let n = span(a, run.class()) as int;
                let end = n == a.len();
                &&& n <= a.len()
                &&& r.0@ == chars(a.take(n))
                &&& r.1 == old(self)@.loc_at(n)
                &&& final(self)@ == old(self)@.taken(
                    if end || run is Word {
                        n
                    } else {
                        n + 1
                    },
                    end,
                )
            }),
    {
        let ghost c0 = self@;
        let ghost a = c0.avail();
        let ghost mut i: int = 0;
        let mut text = String::new();
        let mut end = self.loc;
        proof {
            assert(c0.rest.skip(0) =~= c0.rest);
            assert(a.take(0) =~= Seq::<u8>::empty());
            assert(a.skip(0) =~= a);
            assert(text@ =~= chars(a.take(0)));
        }
        loop
            invariant_except_break
                self@.rest == c0.rest.skip(i),
                self@.loc == c0.loc_at(i),
                self@.avail() == a.skip(i),
            invariant
                0 <= i <= a.len(),
                a == c0.avail(),
                self.token == old(self).token,
                self.input == old(self).input,
                text@ == chars(a.take(i)),
                end == c0.loc_at(i),
                c0.eof ==> self@.eof,
                forall|j: int| 0 <= j < i ==> run.class().has(#[trigger] a[j]),
            ensures
                ({
                    ||| self@.eof && i == a.len() && self@.rest == c0.rest.skip(i) && self@.loc
                        == c0.loc_at(i)
                    ||| i < a.len() && !run.class().has(a[i]) && self@.eof == c0.eof && self@.rest
                        == c0.rest.skip(if run is Word { i } else { i + 1 }) && self@.loc
                        == c0.loc_at(if run is Word { i } else { i + 1 })
                }),
            decreases a.len() - i,
        {
            let ghost prev = self@;
            proof {
                lemma_avail(prev);
            }
            let next = match run {
                Run::Word => self.not_whitespace(true),
                _ => self.next_char(true),
            };
            match next {
                None => {
                    proof {
                        if prev.avail().len() > 0 {
                            assert(prev.avail()[0] == a[i]);
                        }
                    }
                    break ;
                },
                Some((c, loc)) => {
                    proof {
                        lemma_step(c0, i, prev);
                    }
                    if run.stops_at(c) {
                        break ;
                    }
                    end = loc;
                    push_char(&mut text, c);
                    proof {
                        lemma_chars_push(a, 0, i);
                        assert(a.subrange(0, i) =~= a.take(i));
                        assert(a.subrange(0, i + 1) =~= a.take(i + 1));
                        i = i + 1;
                    }
                },
            }
        }
        proof {
            lemma_avail(self@);
            lemma_span(a, run.class(), i);
        }
        (text, end)
    }

    /// The next word: skips separators and takes the bytes up to the next
    /// separator. Gives `Eof` when the end of the input is met on the way, even
    /// after some bytes of a word. Never fails.
    pub fn next_token(&mut self) -> (r: Result<(Token<'_>, LocRange), LexError>)
        ensures
            final(self)@ == old(self)@.next_token().cursor,
            agrees(r, old(self)@.next_token()),
            final(self)@.bounded(),
            final(self).input() == old(self).input(),
    {
        let ghost c0 = self@;
        let ghost a = c0.avail();
        proof {
            use_type_invariant(&*self);
        }
        self.token = String::new();
        self.skip_whitespace();
        let start = self.loc;
        let (word, end) = self.take_run(Run::Word);
        proof {
            use_type_invariant(&*self);
        }
        self.token = word;
        proof {
            use_type_invariant(&*self);
        }
        proof {
            let i = span(a, Class::Space) as int;
            let j = span(a.skip(i), Class::Word) as int;
            lemma_span_is_run(a, Class::Space);
            lemma_span_is_run(a.skip(i), Class::Word);
            lemma_taken_add(c0, i, i == a.len(), j, j == a.len() - i);
            assert(a.skip(i).take(j) =~= a.subrange(i, i + j));
            assert(a.take(0) =~= Seq::<u8>::empty());
        }
        Ok(
            (
                if self.eof {
                    Token::Eof
                } else {
                    Token::Ident(self.token.as_str())
                },
                LocRange { start, end },
            ),
        )
    }

    /// The rest of the line: takes the bytes up to the next line feed and consumes
    /// the line feed. Gives `Eof` when the end of the input is met before a line
    /// feed. Never fails.
    pub fn read_line(&mut self) -> (r: Result<(Token<'_>, LocRange), LexError>)
        ensures
            final(self)@ == old(self)@.read_line().cursor,
            agrees(r, old(self)@.read_line()),
            final(self)@.bounded(),
            final(self).input() == old(self).input(),
    {
        let ghost c0 = self@;
        proof {
            use_type_invariant(&*self);
        }
        self.token = String::new();
        let start = self.loc;
        let (line, end) = self.take_run(Run::Line);
        proof {
            use_type_invariant(&*self);
        }
        proof {
            assert(c0.avail().take(0) =~= Seq::<u8>::empty());
        }
        Ok(
            (
                if self.eof {
                    Token::Eof
                } else {
                    Token::Value(Value::String(line))
                },
                LocRange { start, end },
            ),
        )
    }

    /// The next string: skips separators; after a double quote takes the bytes up
    /// to the next double quote and consumes it, else takes the bytes up to the
    /// next separator. Gives `Eof` when the end of the input is met on the way.
    /// Never fails.
    pub fn read_string(&mut self) -> (r: Result<(Token<'_>, LocRange), LexError>)
        ensures
            final(self)@ == old(self)@.read_string().cursor,
            agrees(r, old(self)@.read_string()),
            final(self)@.bounded(),
            final(self).input() == old(self).input(),
    {
        let ghost c0 = self@;
        let ghost a = c0.avail();
        proof {
            use_type_invariant(&*self);
        }
        self.token = String::new();
        self.skip_whitespace();
        let ghost c1 = self@;
        let in_quote = match self.next_char(false) {
            Some((c, _)) => c == '"',
            None => false,
        };
        if in_quote {
            self.next_char(true);
        }
        let start = self.loc;
        let (text, end) = self.take_run(
            if in_quote {
                Run::Quoted
            } else {
                Run::Word
            },
        );
        proof {
            use_type_invariant(&*self);
        }
        proof {
            let i = span(a, Class::Space) as int;
            lemma_span_is_run(a, Class::Space);
            lemma_taken_add(c0, i, i == a.len(), 0, false);
            lemma_avail(c1);
            if in_quote {
                let k = span(a.skip(i + 1), Class::Except(34)) as int;
                lemma_span_is_run(a.skip(i + 1), Class::Except(34));
                lemma_taken_add(c0, i, false, 1, false);
                lemma_taken_add(c0, i + 1, false, k, k == a.len() - i - 1);
                assert(a.skip(i + 1).take(k) =~= a.subrange(i + 1, i + 1 + k));
                if k < a.len() - i - 1 {
                    lemma_taken_add(c0, i + 1, false, k + 1, false);
                }
            } else {
                let j = span(a.skip(i), Class::Word) as int;
                lemma_span_is_run(a.skip(i), Class::Word);
                if i < a.len() {
                    assert(c1.avail()[0] == a[i]);
                }
                lemma_taken_add(c0, i, i == a.len(), j, j == a.len() - i);
                assert(a.skip(i).take(j) =~= a.subrange(i, i + j));
            }
            assert(a.take(0) =~= Seq::<u8>::empty());
        }
        Ok(
            (
                if self.eof {
                    Token::Eof
                } else {
                    Token::Value(Value::String(text))
                },
                LocRange { start, end },
            ),
        )
    }

    /// The next number: skips separators, takes the digits that follow and
    /// consumes the byte after them, whatever ASCII byte it is. Gives `Eof` when
    /// the end of the input is met on the way, or a byte that is no ASCII. Fails
    /// when there is no digit, or when the digits spell a number of more than 64
    /// bits.
    pub fn read_num(&mut self) -> (r: Result<(Token<'_>, LocRange), LexError>)
        ensures
            final(self)@ == old(self)@.read_num().cursor,
            agrees(r, old(self)@.read_num()),
            final(self)@.bounded(),
            final(self).input() == old(self).input(),
    {
        let ghost c0 = self@;
        let ghost a = c0.avail();
        proof {
            use_type_invariant(&*self);
        }
        self.token = String::new();
        self.skip_whitespace();
        let start = self.loc;
        let (text, end) = self.take_run(Run::Digits);
        proof {
            use_type_invariant(&*self);
        }
        let range = LocRange { start, end };
        proof {
            let i = span(a, Class::Space) as int;
            let j = span(a.skip(i), Class::Digit) as int;
            lemma_span_is_run(a, Class::Space);
            lemma_span_is_run(a.skip(i), Class::Digit);
            lemma_taken_add(c0, i, i == a.len(), j, j == a.len() - i);
            if j < a.len() - i {
                lemma_taken_add(c0, i, false, j + 1, false);
            }
            assert(a.skip(i).take(j) =~= a.subrange(i, i + j));
            assert(a.take(0) =~= Seq::<u8>::empty());
        }
        if self.eof {
            Ok((Token::Eof, range))
        } else {
            match parse_decimal(text.as_str()) {
                Some(n) => Ok((Token::Value(Value::Num(n)), range)),
                None => Err(LexError::BadNumber { text, range }),
            }
        }
    }
}

} // verus!
