//! Text helpers shared by the lexer and the interpreter: building strings one
//! character at a time, decimal rendering, and trimming.

use vstd::prelude::*;

verus! {

/// Appends one character to a string. Trusted: the body is `String::push`, which
/// adds `c` at the end and leaves the rest of the string as it was.
#[verifier::external_body]
pub(crate) fn push_char(s: &mut String, c: char)
    ensures
        final(s)@ == old(s)@.push(c),
{
    s.push(c)
}

/// The character for the decimal digit `d`.
pub open spec fn digit_char(d: nat) -> char {
    (48 + d) as char
}

/// The decimal numeral of `n`, most significant digit first, without leading zeros.
pub open spec fn decimal(n: nat) -> Seq<char>
    decreases n,
{
    if n < 10 {
        seq![digit_char(n)]
    } else {
        decimal(n / 10).push(digit_char(n % 10))
    }
}

/// The number that the decimal digits `s` spell; 0 for no digits.
pub open spec fn decimal_value(s: Seq<char>) -> nat
    decreases s.len(),
{
    if s.len() == 0 {
        0
    } else {
        decimal_value(s.drop_last()) * 10 + (s.last() as nat - 48) as nat
    }
}

/// Whether `c` is one of the ten decimal digits.
pub open spec fn is_digit_char(c: char) -> bool {
    '0' <= c <= '9'
}

/// Whether `s` is a decimal numeral: at least one character, all of them digits.
pub open spec fn is_numeral(s: Seq<char>) -> bool {
    s.len() > 0 && forall|i: int| 0 <= i < s.len() ==> is_digit_char(#[trigger] s[i])
}

/// The number that `s` spells, if `s` is a decimal numeral of a number below 2^64.
pub open spec fn parsed(s: Seq<char>) -> Option<u64> {
    if is_numeral(s) && decimal_value(s) <= u64::MAX {
        Some(decimal_value(s) as u64)
    } else {
        None
    }
}

/// A numeral's value does not shrink when a digit is appended.
proof fn lemma_decimal_value_grows(s: Seq<char>, n: int)
    requires
        0 <= n <= s.len(),
        forall|i: int| 0 <= i < s.len() ==> is_digit_char(#[trigger] s[i]),
    ensures
        decimal_value(s.take(n)) <= decimal_value(s),
    decreases s.len() - n,
{
    if n == s.len() {
        assert(s.take(n) =~= s);
    } else {
        lemma_decimal_value_grows(s, n + 1);
        assert(s.take(n + 1).drop_last() =~= s.take(n));
    }
}

/// Reads a decimal numeral: the number it spells, or `None` where `s` is empty,
/// holds anything but digits, or spells a number of more than 64 bits.
pub fn parse_decimal(s: &str) -> (r: Option<u64>)
    ensures
        r == parsed(s@),
{
    let mut value: u64 = 0;
    let mut ok = true;
    let mut i: usize = 0;
    let n = s.unicode_len();
    let chars = s.chars();
    for c in it: chars
        invariant
            n == s@.len(),
            i == it.index(),
            it.seq() == s@,
            ok ==> forall|k: int| 0 <= k < i ==> is_digit_char(#[trigger] s@[k]),
            ok ==> value == decimal_value(s@.take(i as int)),
            !ok ==> parsed(s@) is None,
    {
        proof {
            assert(s@.take(i + 1).drop_last() =~= s@.take(i as int));
        }
        if ok {
            if c < '0' || c > '9' {
                ok = false;
            } else {
                let d: u64 = (c as u32 - 48) as u64;
                let next = match value.checked_mul(10) {
                    Some(v) => v.checked_add(d),
                    None => None,
                };
                match next {
                    Some(v) => {
                        value = v;
                    },
                    None => {
                        proof {
                            if is_numeral(s@) {
                                lemma_decimal_value_grows(s@, i + 1);
                            }
                        }
                        ok = false;
                    },
                }
            }
        }
        i = i + 1;
    }
    proof {
        assert(s@.take(s@.len() as int) =~= s@);
    }
    if ok && i > 0 {
        Some(value)
    } else {
        None
    }
}

/// Appends the decimal numeral of `n` to `s`.
pub fn push_decimal(s: &mut String, n: u64)
    ensures
        final(s)@ == old(s)@ + decimal(n as nat),
    decreases n,
{
    if n >= 10 {
        push_decimal(s, n / 10);
    }
    let d: u8 = (n % 10) as u8;
    let c: char = (48u8 + d) as char;
    push_char(s, c);
    assert(s@ =~= old(s)@ + decimal(n as nat));
}

/// The decimal numeral of `n` as a string.
pub fn to_decimal(n: u64) -> (r: String)
    ensures
        r@ == decimal(n as nat),
{
    let mut s = String::new();
    push_decimal(&mut s, n);
    assert(s@ =~= decimal(n as nat));
    s
}

/// Whether `c` counts as white space when a text is trimmed: whether it has the
/// Unicode property White_Space. These are the tab, the line feed, the vertical
/// tab, the form feed and the carriage return, the space, the next-line control,
/// the no-break space, the Ogham space mark, the spaces from the en quad to the
/// hair space, the line and the paragraph separator, the narrow no-break space,
/// the medium mathematical space and the ideographic space.
pub open spec fn white_space(c: char) -> bool {
    let n = c as u32;
    ||| 0x09 <= n <= 0x0D
    ||| n == 0x20
    ||| n == 0x85
    ||| n == 0xA0
    ||| n == 0x1680
    ||| 0x2000 <= n <= 0x200A
    ||| n == 0x2028
    ||| n == 0x2029
    ||| n == 0x202F
    ||| n == 0x205F
    ||| n == 0x3000
}

/// Tells whether a character is white space. Trusted: the body is
/// `char::is_whitespace`, which std documents to answer whether the character
/// has the Unicode property White_Space; the contract spells that property out.
#[verifier::external_body]
pub(crate) fn is_white_space(c: char) -> (r: bool)
    ensures
        r == white_space(c),
{
    c.is_whitespace()
}

/// `s` without its leading run of white space.
pub open spec fn strip_start(s: Seq<char>) -> Seq<char>
    decreases s.len(),
{
    if s.len() > 0 && white_space(s[0]) {
        strip_start(s.skip(1))
    } else {
        s
    }
}

/// `s` without its trailing run of white space.
pub open spec fn strip_end(s: Seq<char>) -> Seq<char>
    decreases s.len(),
{
    if s.len() > 0 && white_space(s.last()) {
        strip_end(s.drop_last())
    } else {
        s
    }
}

/// `s` without leading and trailing white space.
pub open spec fn strip(s: Seq<char>) -> Seq<char> {
    strip_end(strip_start(s))
}

/// A prefix of white space up to `a`, where `a` is the end or no white space,
/// is exactly what `strip_start` removes.
proof fn lemma_strip_start(s: Seq<char>, a: int)
    requires
        0 <= a <= s.len(),
        forall|i: int| 0 <= i < a ==> white_space(#[trigger] s[i]),
        a < s.len() ==> !white_space(s[a]),
    ensures
        strip_start(s) == s.skip(a),
    decreases s.len(),
{
    if a == 0 {
        assert(s.skip(0) =~= s);
    } else {
        lemma_strip_start(s.skip(1), a - 1);
        assert(s.skip(1).skip(a - 1) =~= s.skip(a));
    }
}

/// A suffix of white space from `b` on, where `b` is the start or follows no
/// white space, is exactly what `strip_end` removes.
proof fn lemma_strip_end(s: Seq<char>, b: int)
    requires
        0 <= b <= s.len(),
        forall|i: int| b <= i < s.len() ==> white_space(#[trigger] s[i]),
        0 < b ==> !white_space(s[b - 1]),
    ensures
        strip_end(s) == s.take(b),
    decreases s.len(),
{
    if b == s.len() {
        assert(s.take(b) =~= s);
    } else {
        lemma_strip_end(s.drop_last(), b);
        assert(s.drop_last().take(b) =~= s.take(b));
    }
}

/// What trimming leaves: where `s` is white space before `a` and from `b` on, and
/// holds other characters at `a` and just before `b`, the trimmed text is the
/// stretch from `a` to `b`.
pub proof fn lemma_strip_between(s: Seq<char>, a: int, b: int)
    requires
        0 <= a < b <= s.len(),
        forall|i: int| 0 <= i < a ==> white_space(#[trigger] s[i]),
        forall|i: int| b <= i < s.len() ==> white_space(#[trigger] s[i]),
        !white_space(s[a]),
        !white_space(s[b - 1]),
    ensures
        strip(s) == s.subrange(a, b),
{
    let t = s.skip(a);
    lemma_strip_start(s, a);
    lemma_strip_end(t, b - a);
    assert(t.take(b - a) =~= s.subrange(a, b));
}

/// What trimming leaves of white space alone: nothing.
pub proof fn lemma_strip_blank(s: Seq<char>)
    requires
        forall|i: int| 0 <= i < s.len() ==> white_space(#[trigger] s[i]),
    ensures
        strip(s) == Seq::<char>::empty(),
{
    lemma_strip_start(s, s.len() as int);
}

/// Trimming a trimmed text changes nothing.
pub proof fn lemma_strip_idempotent(s: Seq<char>)
    ensures
        strip(strip(s)) == strip(s),
{
    let t = strip(s);
    lemma_strip_shape(s);
    if t.len() > 0 {
        lemma_strip_start(t, 0);
        assert(t.skip(0) =~= t);
        lemma_strip_end(t, t.len() as int);
        assert(t.take(t.len() as int) =~= t);
    }
}

/// A trimmed text is empty, or neither starts nor ends with white space.
pub proof fn lemma_strip_shape(s: Seq<char>)
    ensures
        strip(s).len() > 0 ==> !white_space(strip(s)[0]) && !white_space(strip(s).last()),
{
    lemma_strip_start_shape(s);
    lemma_strip_end_shape(strip_start(s));
}

proof fn lemma_strip_start_shape(s: Seq<char>)
    ensures
        strip_start(s).len() > 0 ==> !white_space(strip_start(s)[0]),
    decreases s.len(),
{
    if s.len() > 0 && white_space(s[0]) {
        lemma_strip_start_shape(s.skip(1));
    }
}

proof fn lemma_strip_end_shape(s: Seq<char>)
    ensures
        strip_end(s).len() > 0 ==> !white_space(strip_end(s).last()) && strip_end(s)[0] == s[0],
        strip_end(s).len() <= s.len(),
    decreases s.len(),
{
    if s.len() > 0 && white_space(s.last()) {
        lemma_strip_end_shape(s.drop_last());
    }
}

/// A copy of `s` without leading and trailing white space.
pub fn trim(s: &str) -> (r: String)
    ensures
        r@ == strip(s@),
{
    let mut start: usize = 0;
    let mut end: usize = 0;
    let mut seen = false;
    let mut i: usize = 0;
    let n = s.unicode_len();
    let chars = s.chars();
    for c in it: chars
        invariant
            n == s@.len(),
            i == it.index(),
            it.seq() == s@,
            !seen ==> forall|k: int| 0 <= k < i ==> white_space(#[trigger] s@[k]),
            seen ==> start < end <= i,
            seen ==> forall|k: int| 0 <= k < start ==> white_space(#[trigger] s@[k]),
            seen ==> !white_space(s@[start as int]) && !white_space(s@[end - 1]),
            seen ==> forall|k: int| end <= k < i ==> white_space(#[trigger] s@[k]),
    {
        if !is_white_space(c) {
            if !seen {
                start = i;
                seen = true;
            }
            end = i + 1;
        }
        i = i + 1;
    }
    if !seen {
        proof {
            lemma_strip_blank(s@);
        }
        String::new()
    } else {
        proof {
            lemma_strip_between(s@, start as int, end as int);
        }
        s.substring_char(start, end).to_owned()
    }
}

} // verus!
