//! The messages of the errors, for the user of the program to read.

use crate::parser::{known_ops, program_for, Error, SpecValue, Value};
use crate::text::{decimal, push_decimal};
use crate::tokenizer::{LexError, Loc, LocRange, SpecToken, TokenName, TokenOwned};
use vstd::prelude::*;

verus! {

/// A place as text: line, colon, column.
pub open spec fn loc_text(loc: Loc) -> Seq<char> {
    decimal(loc.line as nat) + ":"@ + decimal(loc.column as nat)
}

/// The places of a token as text: start, hyphen, end.
pub open spec fn range_text(range: LocRange) -> Seq<char> {
    loc_text(range.start) + "-"@ + loc_text(range.end)
}

/// A token as text: its kind and what it holds.
pub open spec fn token_text(token: SpecToken) -> Seq<char> {
    match token {
        SpecToken::Eof => "end of input"@,
        SpecToken::Ident(word) => "word "@ + word,
        SpecToken::Value(SpecValue::Num(n)) => "number "@ + decimal(n as nat),
        SpecToken::Value(SpecValue::Text(text)) => "text "@ + text,
    }
}

/// A kind of token as text.
pub open spec fn name_text(name: TokenName) -> Seq<char> {
    match name {
        TokenName::Eof => "end of input"@,
        TokenName::Ident => "word"@,
    }
}

/// Texts in a row, with a comma and a space between each two.
pub open spec fn listed(items: Seq<Seq<char>>) -> Seq<char>
    decreases items.len(),
{
    if items.len() == 0 {
        Seq::empty()
    } else if items.len() == 1 {
        items[0]
    } else {
        listed(items.drop_last()) + ", "@ + items.last()
    }
}

/// The command words, in the order in which a message lists them.
pub open spec fn known_words() -> Seq<Seq<char>> {
    seq![
        seq!['+'],
        seq!['a', 'd', 'd'],
        seq!['*'],
        seq!['m', 'u', 'l'],
        seq!['j', 'o', 'i', 'n'],
    ]
}

/// The message of an error. For an unknown word it names the word, its place
/// and all the command words; for a token that is no word, the kinds that were
/// expected, the token and its place; for digits that are no number, the digits
/// and their place.
pub open spec fn message_text(e: Error) -> Seq<char> {
    match e {
        Error::UnexpectedToken { tok, expected, range } => "expected any token of type "@ + listed(
            expected@.map_values(|name: TokenName| name_text(name)),
        ) + ", got token \""@ + token_text(tok@) + "\" as location "@ + range_text(range),
        Error::UnknownOperation { op, range } => "unknown operations \""@ + op@
            + "\" as location "@ + range_text(range) + ", known operations are "@ + listed(
            known_words(),
        ),
        Error::Other(LexError::BadNumber { text, range }) => "no number \""@ + text@
            + "\" as location "@ + range_text(range),
    }
}

/// Whether `part` stands somewhere in `text`.
pub open spec fn contains(text: Seq<char>, part: Seq<char>) -> bool {
    exists|i: int| 0 <= i <= text.len() - part.len() && #[trigger] text.subrange(
        i,
        i + part.len(),
    ) == part
}

fn push_loc(s: &mut String, loc: Loc)
    ensures
        final(s)@ == old(s)@ + loc_text(loc),
{
    push_decimal(s, loc.line as u64);
    s.append(":");
    push_decimal(s, loc.column as u64);
    assert(s@ =~= old(s)@ + loc_text(loc));
}

fn push_range(s: &mut String, range: LocRange)
    ensures
        final(s)@ == old(s)@ + range_text(range),
{
    push_loc(s, range.start);
    s.append("-");
    push_loc(s, range.end);
    assert(s@ =~= old(s)@ + range_text(range));
}

fn push_token(s: &mut String, token: &TokenOwned)
    ensures
        final(s)@ == old(s)@ + token_text(token@),
{
    match token {
        TokenOwned::Eof => {
            s.append("end of input");
        },
        TokenOwned::Ident(word) => {
            s.append("word ");
            s.append(word.as_str());
        },
        TokenOwned::Value(Value::Num(n)) => {
            s.append("number ");
            push_decimal(s, *n);
        },
        TokenOwned::Value(Value::String(text)) => {
            s.append("text ");
            s.append(text.as_str());
        },
    }
    assert(s@ =~= old(s)@ + token_text(token@));
}

fn name_of(name: TokenName) -> (r: &'static str)
    ensures
        r@ == name_text(name),
{
    match name {
        TokenName::Eof => "end of input",
        TokenName::Ident => "word",
    }
}

fn push_names(s: &mut String, names: &Vec<TokenName>)
    ensures
        final(s)@ == old(s)@ + listed(names@.map_values(|name: TokenName| name_text(name))),
{
    let ghost items = names@.map_values(|name: TokenName| name_text(name));
    let mut i: usize = 0;
    assert(items.take(0) =~= Seq::<Seq<char>>::empty());
    assert(s@ =~= old(s)@ + listed(items.take(0)));
    while i < names.len()
        invariant
            i <= names.len(),
            items == names@.map_values(|name: TokenName| name_text(name)),
            s@ == old(s)@ + listed(items.take(i as int)),
        decreases names.len() - i,
    {
        if i > 0 {
            s.append(", ");
        }
        s.append(name_of(names[i]));
        proof {
            let next = items.take(i + 1);
            assert(next.drop_last() =~= items.take(i as int));
            assert(next.last() == name_text(names[i as int]));
            assert(s@ =~= old(s)@ + listed(next));
        }
        i += 1;
    }
    assert(items.take(names.len() as int) =~= items);
}

fn push_known_words(s: &mut String)
    ensures
        final(s)@ == old(s)@ + listed(known_words()),
{
    let words = known_ops();
    let ghost items = known_words();
    let mut i: usize = 0;
    assert(items.take(0) =~= Seq::<Seq<char>>::empty());
    assert(s@ =~= old(s)@ + listed(items.take(0)));
    while i < 5
        invariant
            i <= 5,
            items == known_words(),
            words@.len() == 5,
            forall|k: int| 0 <= k < 5 ==> (#[trigger] words@[k])@ == items[k],
            s@ == old(s)@ + listed(items.take(i as int)),
        decreases 5 - i,
    {
        if i > 0 {
            s.append(", ");
        }
        s.append(words[i]);
        proof {
            let next = items.take(i + 1);
            assert(next.drop_last() =~= items.take(i as int));
            assert(next.last() == items[i as int]);
            assert(s@ =~= old(s)@ + listed(next));
        }
        i += 1;
    }
    assert(items.take(5) =~= items);
}

impl Error {
    /// The message of this error.
    pub fn message(&self) -> (r: String)
        ensures
            r@ == message_text(*self),
    {
        let mut s = String::new();
        match self {
            Error::UnexpectedToken { tok, expected, range } => {
                s.append("expected any token of type ");
                push_names(&mut s, expected);
                s.append(", got token \"");
                push_token(&mut s, tok);
                s.append("\" as location ");
                push_range(&mut s, *range);
            },
            Error::UnknownOperation { op, range } => {
                s.append("unknown operations \"");
                s.append(op.as_str());
                s.append("\" as location ");
                push_range(&mut s, *range);
                s.append(", known operations are ");
                push_known_words(&mut s);
            },
            Error::Other(LexError::BadNumber { text, range }) => {
                s.append("no number \"");
                s.append(text.as_str());
                s.append("\" as location ");
                push_range(&mut s, *range);
            },
        }
        assert(s@ =~= message_text(*self));
        s
    }
}

/// A text stands in itself.
proof fn lemma_contains_self(part: Seq<char>)
    ensures
        contains(part, part),
{
    let i: int = 0;
    assert(part.subrange(i, i + part.len()) =~= part);
}

/// What stands in a text stands in that text with more before and behind it.
proof fn lemma_contains_inside(
    before: Seq<char>,
    text: Seq<char>,
    behind: Seq<char>,
    part: Seq<char>,
)
    requires
        contains(text, part),
    ensures
        contains(before + text + behind, part),
{
    let i = choose|i: int|
        0 <= i <= text.len() - part.len() && #[trigger] text.subrange(i, i + part.len()) == part;
    let whole = before + text + behind;
    let at = before.len() + i;
    assert(whole.subrange(at, at + part.len()) =~= text.subrange(i, i + part.len()));
}

/// Each of the texts in a row stands in the row.
proof fn lemma_listed_contains(items: Seq<Seq<char>>, k: int)
    requires
        0 <= k < items.len(),
    ensures
        contains(listed(items), items[k]),
    decreases items.len(),
{
    let empty = Seq::<char>::empty();
    if items.len() == 1 {
        lemma_contains_self(items[0]);
    } else {
        let front = items.drop_last();
        if k == items.len() - 1 {
            lemma_contains_self(items.last());
            lemma_contains_inside(listed(front) + ", "@, items.last(), empty, items.last());
            assert(listed(front) + ", "@ + items.last() + empty =~= listed(items));
        } else {
            lemma_listed_contains(front, k);
            lemma_contains_inside(empty, listed(front), ", "@ + items.last(), items[k]);
            assert(empty + listed(front) + (", "@ + items.last()) =~= listed(items));
        }
    }
}

/// The message for an unknown word names that word, and every command word:
/// each word that names a program stands in it.
pub proof fn unknown_operation_message_names_the_words(op: String, range: LocRange)
    ensures
        contains(message_text(Error::UnknownOperation { op, range }), op@),
        forall|word: Seq<char>|
            program_for(word) is Some ==> contains(
                message_text(Error::UnknownOperation { op, range }),
                word,
            ),
{
    let message = message_text(Error::UnknownOperation { op, range });
    let head = "unknown operations \""@;
    let middle = "\" as location "@ + range_text(range) + ", known operations are "@;
    let list = listed(known_words());
    let empty = Seq::<char>::empty();
    lemma_contains_self(op@);
    lemma_contains_inside(head, op@, middle + list, op@);
    assert(head + op@ + (middle + list) =~= message);
    assert forall|word: Seq<char>| program_for(word) is Some implies contains(message, word) by {
        let words = known_words();
        let k: int = if word == seq!['+'] {
            0
        } else if word == seq!['a', 'd', 'd'] {
            1
        } else if word == seq!['*'] {
            2
        } else if word == seq!['m', 'u', 'l'] {
            3
        } else {
            4
        };
        assert(words[k] == word);
        lemma_listed_contains(words, k);
        lemma_contains_inside(head + op@ + middle, list, empty, word);
        assert(head + op@ + middle + list + empty =~= message);
    }
}

} // verus!
