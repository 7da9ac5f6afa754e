//! What holds of the machine whatever the program and the input: facts about
//! single instructions, what the three programs print, and that a step taken
//! on a part of the input stands when more of the input comes.

use crate::interpreter::{flag, printed, pushed, starved, swapped, Effect, Machine};
use crate::parser::{
    join_program, product_program, program_for, sum_program, SpecOp, SpecValue, ValueType,
};
use crate::text::{decimal, decimal_value, is_numeral, lemma_strip_idempotent, parsed, strip};
use crate::tokenizer::{
    chars, is_digit, is_space, lemma_avail, lemma_span, lemma_span_is_run, span, Class, Cursor,
    Lexed, Loc, SpecToken,
};
use vstd::prelude::*;

verus! {

/// `Swap(0)` leaves every stack as it is, the empty one too, and is no fault.
pub proof fn swap_zero_keeps_the_stack(m: Machine)
    ensures
        m.perform(SpecOp::Swap(0)) == (m.goes(m.stack), Effect::Continue),
        m.perform(SpecOp::Swap(0)).0.stack == m.stack,
{
}

/// `Swap(n)` with `n` at least 1, on a stack that holds more than `n` values,
/// exchanges the top with the value `n` places below it and leaves every other
/// value where it is.
pub proof fn swap_exchanges_two_values(m: Machine, n: nat)
    requires
        1 <= n < m.stack.len(),
    ensures
        ({
            let after = m.perform(SpecOp::Swap(n)).0.stack;
            let top = m.stack.len() - 1;
            &&& m.perform(SpecOp::Swap(n)).1 == Effect::Continue
            &&& after.len() == m.stack.len()
            &&& after[top] == m.stack[top - n]
            &&& after[top - n] == m.stack[top]
            &&& forall|i: int| 0 <= i < top && i != top - n ==> after[i] == m.stack[i]
        }),
{
}

/// `Swap(n)` twice in a row gives back the stack it started from, whatever the
/// stack: with more than `n` values the second exchange undoes the first, and
/// with fewer both are faults that change nothing.
pub proof fn swap_twice_restores_the_stack(m: Machine, n: nat)
    ensures
        m.perform(SpecOp::Swap(n)).0.perform(SpecOp::Swap(n)).0.stack == m.stack,
{
    if 1 <= n < m.stack.len() {
        assert(swapped(swapped(m.stack, n), n) =~= m.stack);
    }
}

/// Instructions that push the values of `values`, in order.
pub open spec fn pushes(values: Seq<SpecValue>) -> Seq<SpecOp> {
    Seq::new(values.len(), |i: int| SpecOp::Push(values[i]))
}

/// `count` times the instruction `Print`.
pub open spec fn prints(count: nat) -> Seq<SpecOp> {
    Seq::new(count, |i: int| SpecOp::Print)
}

/// The lines that printing the stack `values` from its top down gives.
pub open spec fn printed_down(values: Seq<SpecValue>) -> Seq<Seq<char>> {
    Seq::new(values.len(), |i: int| printed(values[values.len() - 1 - i]))
}

/// A step that shows nothing uses up one step of a run.
proof fn lemma_run_on(m: Machine, next: Machine, steps: nat)
    requires
        steps >= 1,
        m.step() == (next, Effect::Continue),
    ensures
        m.run(steps) == next.run((steps - 1) as nat),
{
}

/// A stretch of pushes puts its values on the stack, in order.
proof fn lemma_run_pushes(
    code: Seq<SpecOp>,
    stack: Seq<SpecValue>,
    ip: nat,
    values: Seq<SpecValue>,
    input: Cursor,
    steps: nat,
)
    requires
        ip + values.len() <= code.len(),
        forall|t: int| 0 <= t < values.len() ==> code[ip + t] == SpecOp::Push(#[trigger] values[t]),
        steps >= values.len(),
    ensures
        (Machine { code, stack, ip, input }).run(steps) == (Machine {
            code,
            stack: stack + values,
            ip: ip + values.len(),
            input,
        }).run((steps - values.len()) as nat),
    decreases values.len(),
{
    let m = Machine { code, stack, ip, input };
    if values.len() == 0 {
        assert(stack + values =~= stack);
    } else {
        let rest = values.skip(1);
        let next = Machine { code, stack: stack.push(values[0]), ip: ip + 1, input };
        assert(code[ip as int] == SpecOp::Push(values[0]));
        assert(m.step() == (next, Effect::Continue));
        lemma_run_on(m, next, steps);
        assert forall|t: int| 0 <= t < rest.len() implies code[ip + 1 + t] == SpecOp::Push(
            #[trigger] rest[t],
        ) by {
            assert(rest[t] == values[t + 1]);
            assert(code[ip + (t + 1)] == SpecOp::Push(values[t + 1]));
        }
        lemma_run_pushes(code, stack.push(values[0]), ip + 1, rest, input, (steps - 1) as nat);
        assert(stack.push(values[0]) + rest =~= stack + values);
    }
}

/// A stretch of prints that ends the program prints the stack from its top down,
/// and the run halts.
proof fn lemma_run_prints(
    code: Seq<SpecOp>,
    values: Seq<SpecValue>,
    ip: nat,
    input: Cursor,
    steps: nat,
)
    requires
        ip + values.len() == code.len(),
        forall|t: int| ip <= t < code.len() ==> #[trigger] code[t] == SpecOp::Print,
        steps > values.len(),
    ensures
        (Machine { code, stack: values, ip, input }).run(steps).ending is Halted,
        (Machine { code, stack: values, ip, input }).run(steps).output == printed_down(values),
    decreases values.len(),
{
    let m = Machine { code, stack: values, ip, input };
    if values.len() == 0 {
        assert(m.step() == (m, Effect::Halt));
        assert(printed_down(values) =~= Seq::<Seq<char>>::empty());
    } else {
        let rest = values.drop_last();
        let next = Machine { code, stack: rest, ip: ip + 1, input };
        assert(code[ip as int] == SpecOp::Print);
        assert(m.step() == (next, Effect::Print(printed(values.last()))));
        lemma_run_prints(code, rest, ip + 1, input, (steps - 1) as nat);
        assert(seq![printed(values.last())] + printed_down(rest) =~= printed_down(values));
    }
}

/// A program that pushes values and then prints as often prints the values, the
/// last one first, and halts.
pub proof fn pushes_then_prints(values: Seq<SpecValue>, input: Cursor, steps: nat)
    requires
        steps > 2 * values.len(),
    ensures
        ({
            let code = pushes(values) + prints(values.len());
            let t = Machine::start(code, input).run(steps);
            t.ending is Halted && t.output == printed_down(values)
        }),
{
    let code = pushes(values) + prints(values.len());
    let empty = Seq::<SpecValue>::empty();
    lemma_run_pushes(code, empty, 0, values, input, steps);
    assert(empty + values =~= values);
    lemma_run_prints(code, values, values.len(), input, (steps - values.len()) as nat);
}

/// `Swap(0)` between the pushes and the prints of such a program changes nothing
/// of what it prints: the values, the last one first, also where there is none.
pub proof fn swap_zero_leaves_the_output(values: Seq<SpecValue>, input: Cursor, steps: nat)
    requires
        steps > 2 * values.len() + 1,
    ensures
        ({
            let code = pushes(values) + seq![SpecOp::Swap(0)] + prints(values.len());
            let t = Machine::start(code, input).run(steps);
            t.ending is Halted && t.output == printed_down(values)
        }),
{
    let k = values.len();
    let code = pushes(values) + seq![SpecOp::Swap(0)] + prints(k);
    let empty = Seq::<SpecValue>::empty();
    lemma_run_pushes(code, empty, 0, values, input, steps);
    assert(empty + values =~= values);
    let m = Machine { code, stack: values, ip: k, input };
    let next = Machine { code, stack: values, ip: k + 1, input };
    assert(code[k as int] == SpecOp::Swap(0));
    assert(m.step() == (next, Effect::Continue));
    lemma_run_on(m, next, (steps - k) as nat);
    lemma_run_prints(code, values, k + 1, input, (steps - k - 1) as nat);
}

/// `Swap(n)` twice between the pushes and the prints of such a program, with `n`
/// at least 1 and less than the number of values, changes nothing of what it
/// prints: the second exchange undoes the first.
pub proof fn swap_twice_leaves_the_output(
    values: Seq<SpecValue>,
    n: nat,
    input: Cursor,
    steps: nat,
)
    requires
        1 <= n < values.len(),
        steps > 2 * values.len() + 2,
    ensures
        ({
            let code = pushes(values) + seq![SpecOp::Swap(n), SpecOp::Swap(n)] + prints(
                values.len(),
            );
            let t = Machine::start(code, input).run(steps);
            t.ending is Halted && t.output == printed_down(values)
        }),
{
    let k = values.len();
    let code = pushes(values) + seq![SpecOp::Swap(n), SpecOp::Swap(n)] + prints(k);
    let empty = Seq::<SpecValue>::empty();
    lemma_run_pushes(code, empty, 0, values, input, steps);
    assert(empty + values =~= values);
    let m = Machine { code, stack: values, ip: k, input };
    let once = Machine { code, stack: swapped(values, n), ip: k + 1, input };
    let twice = Machine { code, stack: values, ip: k + 2, input };
    assert(code[k as int] == SpecOp::Swap(n));
    assert(code[k as int + 1] == SpecOp::Swap(n));
    assert(m.step() == (once, Effect::Continue));
    assert(swapped(swapped(values, n), n) =~= values);
    assert(once.step() == (twice, Effect::Continue));
    lemma_run_on(m, once, (steps - k) as nat);
    lemma_run_on(once, twice, (steps - k - 1) as nat);
    lemma_run_prints(code, values, k + 2, input, (steps - k - 2) as nat);
}

/// `JmpRelZ` takes a number from the top of the stack, and jumps only if that
/// number is 0; after any other number the run goes on with the next instruction.
/// On a stack that is empty or has a text on top it is a fault.
pub proof fn jmprelz_jumps_on_zero_only(m: Machine, offset: int)
    ensures
        ({
            let s = m.stack;
            let (after, effect) = m.perform(SpecOp::JmpRelZ(offset));
            &&& s.len() > 0 && s.last() == SpecValue::Num(0) ==> effect == Effect::Continue && after
                == m.jumps(s.drop_last(), offset)
            &&& s.len() > 0 && s.last() is Num && s.last() != SpecValue::Num(0) ==> effect
                == Effect::Continue && after == m.goes(s.drop_last())
            &&& s.len() == 0 || s.last() is Text ==> effect == Effect::Fault && after == m
        }),
{
}

/// `Trim` after `Trim` leaves the stack that one `Trim` leaves.
pub proof fn trim_twice_is_trim_once(m: Machine)
    requires
        m.stack.len() > 0,
        m.stack.last() is Text,
    ensures
        m.perform(SpecOp::Trim).0.perform(SpecOp::Trim).0.stack == m.perform(SpecOp::Trim).0.stack,
        m.perform(SpecOp::Trim).0.stack == m.stack.drop_last().push(
            SpecValue::Text(strip(m.stack.last()->Text_0)),
        ),
{
    let text = m.stack.last()->Text_0;
    lemma_strip_idempotent(text);
    let once = m.perform(SpecOp::Trim).0.stack;
    assert(once.drop_last() =~= m.stack.drop_last());
}

/// `Eq` on two equal values pushes 1.
pub proof fn eq_is_reflexive(m: Machine, v: SpecValue)
    ensures
        ({
            let before = Machine { stack: m.stack.push(v).push(v), ..m };
            before.perform(SpecOp::Eq) == (before.goes(m.stack.push(flag(true))), Effect::Continue)
        }),
{
    let s = m.stack.push(v).push(v);
    assert(s.take(s.len() - 2) =~= m.stack);
}

/// `Eq` gives the same answer for two values in either order.
pub proof fn eq_is_symmetric(m: Machine, a: SpecValue, b: SpecValue)
    ensures
        ({
            let one = Machine { stack: m.stack.push(a).push(b), ..m };
            let other = Machine { stack: m.stack.push(b).push(a), ..m };
            &&& one.perform(SpecOp::Eq).0 == other.perform(SpecOp::Eq).0
            &&& one.perform(SpecOp::Eq).1 == other.perform(SpecOp::Eq).1
            &&& one.perform(SpecOp::Eq).0.stack == m.stack.push(flag(a == b))
        }),
{
    let s = m.stack.push(a).push(b);
    let t = m.stack.push(b).push(a);
    assert(s.take(s.len() - 2) =~= m.stack);
    assert(t.take(t.len() - 2) =~= m.stack);
}

/// `Eq` on a number and a text pushes 0, in either order.
pub proof fn eq_is_false_across_kinds(m: Machine, n: u64, text: Seq<char>)
    ensures
        ({
            let a = SpecValue::Num(n);
            let b = SpecValue::Text(text);
            let one = Machine { stack: m.stack.push(a).push(b), ..m };
            let other = Machine { stack: m.stack.push(b).push(a), ..m };
            &&& one.perform(SpecOp::Eq).0.stack == m.stack.push(flag(false))
            &&& other.perform(SpecOp::Eq).0.stack == m.stack.push(flag(false))
        }),
{
    eq_is_symmetric(m, SpecValue::Num(n), SpecValue::Text(text));
}

/// Whether all bytes of `s` are separators.
pub open spec fn all_spaces(s: Seq<u8>) -> bool {
    forall|i: int| 0 <= i < s.len() ==> is_space(#[trigger] s[i])
}

/// Whether all bytes of `s` are decimal digits.
pub open spec fn all_digits(s: Seq<u8>) -> bool {
    forall|i: int| 0 <= i < s.len() ==> is_digit(#[trigger] s[i])
}

/// One operand in the input of the sum or product program: the separators before
/// it and its digits.
pub struct Operand {
    pub gap: Seq<u8>,
    pub digits: Seq<u8>,
}

impl Operand {
    /// At least one separator, then at least one digit.
    pub open spec fn well_formed(self) -> bool {
        &&& self.gap.len() > 0
        &&& all_spaces(self.gap)
        &&& self.digits.len() > 0
        &&& all_digits(self.digits)
    }

    /// The number that the digits spell.
    pub open spec fn value(self) -> nat {
        decimal_value(chars(self.digits))
    }
}

/// The text of a list of operands, followed by `tail`.
pub open spec fn listing(operands: Seq<Operand>, tail: Seq<u8>) -> Seq<u8>
    decreases operands.len(),
{
    if operands.len() == 0 {
        tail
    } else {
        operands[0].gap + operands[0].digits + listing(operands.skip(1), tail)
    }
}

/// The operands that a program gets to read: all of them, but for the last one
/// where nothing follows it, since digits that run into the end of the input
/// are lost.
pub open spec fn operands_read(operands: Seq<Operand>, tail: Seq<u8>) -> Seq<Operand> {
    if tail.len() == 0 && operands.len() > 0 {
        operands.drop_last()
    } else {
        operands
    }
}

/// The sum of two numbers, or their product where `mul` is set.
pub open spec fn combine(mul: bool, a: nat, b: nat) -> nat {
    if mul {
        a * b
    } else {
        a + b
    }
}

/// `acc` with the values of the operands added to it, or multiplied into it
/// where `mul` is set, one after the other.
pub open spec fn folded(mul: bool, acc: nat, operands: Seq<Operand>) -> nat
    decreases operands.len(),
{
    if operands.len() == 0 {
        acc
    } else {
        folded(mul, combine(mul, acc, operands[0].value()), operands.skip(1))
    }
}

/// Whether every intermediate result on the way to `folded` is below 2^64. A
/// product that has reached 0 stays 0, so nothing more is asked after that.
pub open spec fn fits(mul: bool, acc: nat, operands: Seq<Operand>) -> bool
    decreases operands.len(),
{
    if operands.len() == 0 {
        true
    } else {
        ||| mul && acc == 0
        ||| combine(mul, acc, operands[0].value()) <= u64::MAX && fits(
            mul,
            combine(mul, acc, operands[0].value()),
            operands.skip(1),
        )
    }
}

/// The sum program, or the product program where `mul` is set.
pub open spec fn accumulator(mul: bool) -> Seq<SpecOp> {
    if mul {
        product_program()
    } else {
        sum_program()
    }
}

/// What is left of a listing when the program is about to read the next number:
/// the separators `lead` that are left before the next operand or the end.
spec fn pending(lead: Seq<u8>, operands: Seq<Operand>, tail: Seq<u8>) -> Seq<u8> {
    if operands.len() == 0 {
        lead
    } else {
        lead + operands[0].digits + listing(operands.skip(1), tail)
    }
}

proof fn lemma_product_of_zero(operands: Seq<Operand>)
    ensures
        folded(true, 0, operands) == 0,
        fits(true, 0, operands),
    decreases operands.len(),
{
    if operands.len() > 0 {
        assert(combine(true, 0, operands[0].value()) == 0) by (nonlinear_arith);
        lemma_product_of_zero(operands.skip(1));
    }
}

/// A listing holds separators and digits only.
proof fn lemma_listing_plain(operands: Seq<Operand>, tail: Seq<u8>)
    requires
        forall|i: int| 0 <= i < operands.len() ==> (#[trigger] operands[i]).well_formed(),
        all_spaces(tail),
    ensures
        forall|j: int|
            0 <= j < listing(operands, tail).len() ==> is_space(#[trigger] listing(operands, tail)[j])
                || is_digit(listing(operands, tail)[j]),
        operands.len() > 0 || tail.len() > 0 ==> listing(operands, tail).len() > 0 && is_space(
            listing(operands, tail)[0],
        ),
    decreases operands.len(),
{
    if operands.len() > 0 {
        let first = operands[0];
        let rest = operands.skip(1);
        assert(first.well_formed());
        assert forall|i: int| 0 <= i < rest.len() implies (#[trigger] rest[i]).well_formed() by {
            assert(rest[i] == operands[i + 1]);
        }
        lemma_listing_plain(rest, tail);
        let l = listing(operands, tail);
        assert forall|j: int| 0 <= j < l.len() implies is_space(#[trigger] l[j]) || is_digit(
            l[j],
        ) by {
            if j < first.gap.len() {
                assert(l[j] == first.gap[j]);
            } else if j < first.gap.len() + first.digits.len() {
                assert(l[j] == first.digits[j - first.gap.len()]);
            } else {
                assert(l[j] == listing(rest, tail)[j - first.gap.len() - first.digits.len()]);
            }
        }
        assert(l[0] == first.gap[0]);
    }
}

/// Where all that is left is ASCII, all of it can be read.
proof fn lemma_all_readable(c: Cursor)
    requires
        !c.eof,
        forall|j: int| 0 <= j < c.rest.len() ==> #[trigger] c.rest[j] < 128,
    ensures
        c.avail() == c.rest,
{
    lemma_span(c.rest, Class::Ascii, c.rest.len() as int);
    assert(c.rest.take(c.rest.len() as int) =~= c.rest);
}

/// Reading a number where separators, digits and one more separator follow: the
/// digits are parsed, and the separator after them is consumed.
proof fn lemma_read_number(c: Cursor, lead: Seq<u8>, digits: Seq<u8>, next: Seq<u8>)
    requires
        !c.eof,
        c.rest == lead + digits + next,
        all_spaces(lead),
        digits.len() > 0,
        all_digits(digits),
        next.len() > 0,
        is_space(next[0]),
        forall|j: int| 0 <= j < next.len() ==> #[trigger] next[j] < 128,
    ensures
        c.read_num().cursor.rest == next.skip(1),
        !c.read_num().cursor.eof,
        c.read_num().token == match parsed(chars(digits)) {
            Some(v) => Ok::<SpecToken, Seq<char>>(SpecToken::Value(SpecValue::Num(v))),
            None => Err::<SpecToken, Seq<char>>(chars(digits)),
        },
{
    let a = c.rest;
    let i = lead.len() as int;
    let n = i + digits.len();
    assert forall|j: int| 0 <= j < a.len() implies #[trigger] a[j] < 128 by {
        if j < i {
            assert(a[j] == lead[j]);
        } else if j < n {
            assert(a[j] == digits[j - i]);
        } else {
            assert(a[j] == next[j - n]);
        }
    }
    lemma_all_readable(c);
    assert forall|j: int| 0 <= j < i implies Class::Space.has(#[trigger] a[j]) by {
        assert(a[j] == lead[j]);
    }
    assert(a[i] == digits[0]);
    lemma_span(a, Class::Space, i);
    let b = a.skip(i);
    assert forall|j: int| 0 <= j < digits.len() implies Class::Digit.has(#[trigger] b[j]) by {
        assert(b[j] == digits[j]);
    }
    assert(b[digits.len() as int] == next[0]);
    lemma_span(b, Class::Digit, digits.len() as int);
    assert(a.subrange(i, n) =~= digits);
    assert(a.skip(n + 1) =~= next.skip(1));
}

/// Reading a number where only separators and digits are left: the digits run
/// into the end of the input, and the token is `Eof`.
proof fn lemma_read_number_at_end(c: Cursor, lead: Seq<u8>, digits: Seq<u8>)
    requires
        !c.eof,
        c.rest == lead + digits,
        all_spaces(lead),
        all_digits(digits),
    ensures
        c.read_num().token == Ok::<SpecToken, Seq<char>>(SpecToken::Eof),
{
    let a = c.rest;
    let i = lead.len() as int;
    assert forall|j: int| 0 <= j < a.len() implies #[trigger] a[j] < 128 by {
        if j < i {
            assert(a[j] == lead[j]);
        } else {
            assert(a[j] == digits[j - i]);
        }
    }
    lemma_all_readable(c);
    assert forall|j: int| 0 <= j < i implies Class::Space.has(#[trigger] a[j]) by {
        assert(a[j] == lead[j]);
    }
    if digits.len() > 0 {
        assert(a[i] == digits[0]);
    }
    lemma_span(a, Class::Space, i);
    let b = a.skip(i);
    assert forall|j: int| 0 <= j < digits.len() implies Class::Digit.has(#[trigger] b[j]) by {
        assert(b[j] == digits[j]);
    }
    lemma_span(b, Class::Digit, digits.len() as int);
}

/// The state of the sum or product program when it is about to read a number:
/// the result so far alone on the stack.
spec fn at_loop(mul: bool, acc: u64, input: Cursor) -> Machine {
    Machine { code: accumulator(mul), stack: seq![SpecValue::Num(acc)], ip: 1, input }
}

/// The instructions of the sum and product programs.
proof fn lemma_accumulator(mul: bool)
    ensures
        accumulator(mul).len() == 6,
        accumulator(mul)[0] == SpecOp::Push(
            SpecValue::Num(
                if mul {
                    1
                } else {
                    0
                },
            ),
        ),
        accumulator(mul)[1] == SpecOp::ReadNum,
        accumulator(mul)[2] == SpecOp::JmpRelZ(2),
        accumulator(mul)[3] == if mul {
            SpecOp::Mul
        } else {
            SpecOp::Add
        },
        accumulator(mul)[4] == SpecOp::JmpRel(-4),
        accumulator(mul)[5] == SpecOp::Print,
{
}

/// The read of the loop, where a number comes.
proof fn lemma_round_read(code: Seq<SpecOp>, acc: u64, input: Cursor, v: u64)
    requires
        code.len() == 6,
        code[1] == SpecOp::ReadNum,
        input.read_num().token == Ok::<SpecToken, Seq<char>>(
            SpecToken::Value(SpecValue::Num(v)),
        ),
    ensures
        (Machine { code, stack: seq![SpecValue::Num(acc)], ip: 1, input }).step() == (
            Machine {
                code,
                stack: seq![SpecValue::Num(acc), SpecValue::Num(v), flag(true)],
                ip: 2,
                input: input.read_num().cursor,
            },
            Effect::Continue,
        ),
{
    let m = Machine { code, stack: seq![SpecValue::Num(acc)], ip: 1, input };
    assert(m.stack + pushed(input.read_num().token, ValueType::Num) =~= seq![
        SpecValue::Num(acc),
        SpecValue::Num(v),
        flag(true),
    ]);
}

/// The test of the loop, where a number came.
proof fn lemma_round_test(code: Seq<SpecOp>, acc: u64, input: Cursor, v: u64)
    requires
        code.len() == 6,
        code[2] == SpecOp::JmpRelZ(2),
    ensures
        (Machine {
            code,
            stack: seq![SpecValue::Num(acc), SpecValue::Num(v), flag(true)],
            ip: 2,
            input,
        }).step() == (
            Machine { code, stack: seq![SpecValue::Num(acc), SpecValue::Num(v)], ip: 3, input },
            Effect::Continue,
        ),
{
    let s = seq![SpecValue::Num(acc), SpecValue::Num(v), flag(true)];
    assert(s.drop_last() =~= seq![SpecValue::Num(acc), SpecValue::Num(v)]);
}

/// The addition or multiplication of the loop.
proof fn lemma_round_combine(code: Seq<SpecOp>, mul: bool, acc: u64, input: Cursor, v: u64)
    requires
        code.len() == 6,
        code[3] == if mul {
            SpecOp::Mul
        } else {
            SpecOp::Add
        },
        combine(mul, acc as nat, v as nat) <= u64::MAX,
    ensures
        (Machine { code, stack: seq![SpecValue::Num(acc), SpecValue::Num(v)], ip: 3, input }).step()
            == (
            Machine {
                code,
                stack: seq![SpecValue::Num(combine(mul, acc as nat, v as nat) as u64)],
                ip: 4,
                input,
            },
            Effect::Continue,
        ),
{
    let s = seq![SpecValue::Num(acc), SpecValue::Num(v)];
    let r = combine(mul, acc as nat, v as nat) as u64;
    assert(s.take(0).push(SpecValue::Num(r)) =~= seq![SpecValue::Num(r)]);
}

/// The jump back to the read of the loop.
proof fn lemma_round_back(code: Seq<SpecOp>, acc: u64, input: Cursor)
    requires
        code.len() == 6,
        code[4] == SpecOp::JmpRel(-4),
    ensures
        (Machine { code, stack: seq![SpecValue::Num(acc)], ip: 4, input }).step() == (
            Machine { code, stack: seq![SpecValue::Num(acc)], ip: 1, input },
            Effect::Continue,
        ),
{
}

/// One round of the loop: a number is read and taken into the result.
proof fn lemma_round(mul: bool, acc: u64, input: Cursor, v: u64, steps: nat)
    requires
        input.read_num().token == Ok::<SpecToken, Seq<char>>(
            SpecToken::Value(SpecValue::Num(v)),
        ),
        combine(mul, acc as nat, v as nat) <= u64::MAX,
        steps >= 4,
    ensures
        at_loop(mul, acc, input).run(steps) == at_loop(
            mul,
            combine(mul, acc as nat, v as nat) as u64,
            input.read_num().cursor,
        ).run((steps - 4) as nat),
{
    let code = accumulator(mul);
    let next = input.read_num().cursor;
    let r = combine(mul, acc as nat, v as nat) as u64;
    lemma_accumulator(mul);
    let m = at_loop(mul, acc, input);
    let m1 = Machine {
        code,
        stack: seq![SpecValue::Num(acc), SpecValue::Num(v), flag(true)],
        ip: 2,
        input: next,
    };
    let m2 = Machine { code, stack: seq![SpecValue::Num(acc), SpecValue::Num(v)], ip: 3, input: next };
    let m3 = Machine { code, stack: seq![SpecValue::Num(r)], ip: 4, input: next };
    let m4 = at_loop(mul, r, next);
    lemma_round_read(code, acc, input, v);
    lemma_round_test(code, acc, next, v);
    lemma_round_combine(code, mul, acc, next, v);
    lemma_round_back(code, r, next);
    lemma_run_on(m, m1, steps);
    lemma_run_on(m1, m2, (steps - 1) as nat);
    lemma_run_on(m2, m3, (steps - 2) as nat);
    lemma_run_on(m3, m4, (steps - 3) as nat);
}

/// The end of the loop: no number could be read, and the result is printed.
proof fn lemma_finish(mul: bool, acc: u64, input: Cursor, steps: nat)
    requires
        !(input.read_num().token matches Ok(SpecToken::Value(SpecValue::Num(_)))),
        steps >= 4,
    ensures
        at_loop(mul, acc, input).run(steps).ending is Halted,
        at_loop(mul, acc, input).run(steps).output == seq![decimal(acc as nat)],
{
    let m = at_loop(mul, acc, input);
    let code = accumulator(mul);
    let l = input.read_num();
    assert(code.len() == 6);
    assert(code[1] == SpecOp::ReadNum);
    assert(code[2] == SpecOp::JmpRelZ(2));
    assert(code[5] == SpecOp::Print);
    let s1 = seq![SpecValue::Num(acc), flag(false)];
    let m1 = Machine { code, stack: s1, ip: 2, input: l.cursor };
    assert(m.stack + pushed(l.token, ValueType::Num) =~= s1);
    assert(m.step() == (m1, Effect::Continue));
    let s2 = seq![SpecValue::Num(acc)];
    let m2 = Machine { code, stack: s2, ip: 5, input: l.cursor };
    assert(s1.drop_last() =~= s2);
    assert(m1.step() == (m2, Effect::Continue));
    let m3 = Machine { code, stack: Seq::<SpecValue>::empty(), ip: 6, input: l.cursor };
    assert(s2.drop_last() =~= Seq::<SpecValue>::empty());
    assert(m2.step() == (m3, Effect::Print(decimal(acc as nat))));
    assert(m3.step() == (m3, Effect::Halt));
    assert(m.run(steps) == m1.run((steps - 1) as nat));
    assert(m1.run((steps - 1) as nat) == m2.run((steps - 2) as nat));
    let end = m3.run((steps - 3) as nat);
    assert(end.ending is Halted && end.output == Seq::<Seq<char>>::empty());
    assert(seq![decimal(acc as nat)] + end.output =~= seq![decimal(acc as nat)]);
}

/// The digits of an operand are a numeral, which is parsed unless its value is
/// 2^64 or more.
proof fn lemma_operand_parsed(operand: Operand)
    requires
        operand.well_formed(),
    ensures
        is_numeral(chars(operand.digits)),
        parsed(chars(operand.digits)) == if operand.value() <= u64::MAX {
            Some(operand.value() as u64)
        } else {
            None
        },
{
    let s = chars(operand.digits);
    assert forall|i: int| 0 <= i < s.len() implies '0' <= #[trigger] s[i] <= '9' by {
        assert(is_digit(operand.digits[i]));
    }
}

/// The loop of the sum or product program, from the moment it is about to read a
/// number to the end of the run.
proof fn lemma_loop(
    mul: bool,
    acc: u64,
    lead: Seq<u8>,
    operands: Seq<Operand>,
    tail: Seq<u8>,
    loc: Loc,
    steps: nat,
)
    requires
        all_spaces(lead),
        all_spaces(tail),
        forall|i: int| 0 <= i < operands.len() ==> (#[trigger] operands[i]).well_formed(),
        fits(mul, acc as nat, operands_read(operands, tail)),
        steps >= 4 * operands.len() + 4,
    ensures
        ({
            let input = Cursor { rest: pending(lead, operands, tail), eof: false, loc };
            let t = at_loop(mul, acc, input).run(steps);
            &&& t.ending is Halted
            &&& t.output == seq![decimal(folded(mul, acc as nat, operands_read(operands, tail)))]
        }),
    decreases operands.len(),
{
    let input = Cursor { rest: pending(lead, operands, tail), eof: false, loc };
    let read = operands_read(operands, tail);
    if operands.len() == 0 {
        assert(lead + Seq::<u8>::empty() =~= lead);
        lemma_read_number_at_end(input, lead, Seq::<u8>::empty());
        lemma_finish(mul, acc, input, steps);
    } else if operands.len() == 1 && tail.len() == 0 {
        let first = operands[0];
        assert(first.well_formed());
        assert(listing(operands.skip(1), tail) =~= Seq::<u8>::empty());
        assert(lead + first.digits + listing(operands.skip(1), tail) =~= lead + first.digits);
        lemma_read_number_at_end(input, lead, first.digits);
        lemma_finish(mul, acc, input, steps);
        assert(read =~= Seq::<Operand>::empty());
    } else {
        let first = operands[0];
        let others = operands.skip(1);
        let next = listing(others, tail);
        assert(first.well_formed());
        assert forall|i: int| 0 <= i < others.len() implies (#[trigger] others[i]).well_formed() by {
            assert(others[i] == operands[i + 1]);
        }
        lemma_listing_plain(others, tail);
        lemma_read_number(input, lead, first.digits, next);
        lemma_operand_parsed(first);
        assert(read.len() > 0 && read[0] == first);
        assert(read.skip(1) =~= operands_read(others, tail));
        let v = first.value();
        if v <= u64::MAX {
            if mul && acc == 0 {
                lemma_product_of_zero(read.skip(1));
                assert(combine(mul, acc as nat, v) == 0) by (nonlinear_arith)
                    requires
                        mul,
                        acc == 0,
                ;
            }
            let r = combine(mul, acc as nat, v) as u64;
            lemma_round(mul, acc, input, v as u64, steps);
            let after = input.read_num().cursor;
            let lead2 = if others.len() == 0 {
                tail.skip(1)
            } else {
                others[0].gap.skip(1)
            };
            if others.len() > 0 {
                assert(others[0].well_formed());
                assert(next.skip(1) =~= lead2 + others[0].digits + listing(others.skip(1), tail));
            }
            assert(after == Cursor { rest: pending(lead2, others, tail), eof: false, loc: after.loc });
            lemma_loop(mul, r, lead2, others, tail, after.loc, (steps - 4) as nat);
        } else {
            assert(mul && acc == 0) by (nonlinear_arith)
                requires
                    v > u64::MAX,
                    (mul && acc == 0) || combine(mul, acc as nat, v) <= u64::MAX,
                    combine(mul, acc as nat, v) == if mul {
                        acc * v
                    } else {
                        acc + v
                    },
            ;
            lemma_finish(mul, acc, input, steps);
            lemma_product_of_zero(read);
        }
    }
}

/// The command word is read as a word, and what follows it is left to the program.
proof fn lemma_command_word(word: Seq<u8>, rest: Seq<u8>)
    requires
        word.len() > 0,
        forall|j: int| 0 <= j < word.len() ==> !is_space(#[trigger] word[j]) && word[j] < 128,
        rest.len() > 0,
        is_space(rest[0]),
        forall|j: int| 0 <= j < rest.len() ==> #[trigger] rest[j] < 128,
    ensures
        Cursor::new(word + rest).next_token().token == Ok::<SpecToken, Seq<char>>(
            SpecToken::Ident(chars(word)),
        ),
        Cursor::new(word + rest).next_token().cursor.rest == rest,
        !Cursor::new(word + rest).next_token().cursor.eof,
{
    let c = Cursor::new(word + rest);
    let a = c.rest;
    let n = word.len() as int;
    assert forall|j: int| 0 <= j < a.len() implies #[trigger] a[j] < 128 by {
        if j < n {
            assert(a[j] == word[j]);
        } else {
            assert(a[j] == rest[j - n]);
        }
    }
    lemma_all_readable(c);
    assert(a[0] == word[0]);
    lemma_span(a, Class::Space, 0);
    assert(a.skip(0) =~= a);
    assert forall|j: int| 0 <= j < n implies Class::Word.has(#[trigger] a[j]) by {
        assert(a[j] == word[j]);
    }
    assert(a[n] == rest[0]);
    lemma_span(a, Class::Word, n);
    assert(a.subrange(0, n) =~= word);
    assert(a.skip(n) =~= rest);
}

/// What the sum and product programs print. The input is a command word, then
/// operands, each after at least one separator, then separators up to the end.
/// Where every intermediate result is below 2^64, the run halts after printing
/// one line: the operands that were read, added up from 0 or multiplied up from
/// 1, in decimal. An operand that ends the input is not read.
pub proof fn accumulator_prints_the_result(
    mul: bool,
    word: Seq<u8>,
    operands: Seq<Operand>,
    tail: Seq<u8>,
    steps: nat,
)
    requires
        program_for(chars(word)) == Some(accumulator(mul)),
        forall|i: int| 0 <= i < operands.len() ==> (#[trigger] operands[i]).well_formed(),
        all_spaces(tail),
        operands.len() > 0 || tail.len() > 0,
        fits(
            mul,
            if mul {
                1
            } else {
                0
            },
            operands_read(operands, tail),
        ),
        steps >= 4 * operands.len() + 5,
    ensures
        ({
            let compiled = Cursor::new(word + listing(operands, tail)).next_token();
            let t = Machine::start(accumulator(mul), compiled.cursor).run(steps);
            &&& compiled.token == Ok::<SpecToken, Seq<char>>(SpecToken::Ident(chars(word)))
            &&& t.ending is Halted
            &&& t.output == seq![
                decimal(
                    folded(
                        mul,
                        if mul {
                            1
                        } else {
                            0
                        },
                        operands_read(operands, tail),
                    ),
                ),
            ]
        }),
{
    let seed: u64 = if mul {
        1
    } else {
        0
    };
    let text = listing(operands, tail);
    lemma_listing_plain(operands, tail);
    lemma_word_bytes(word);
    lemma_command_word(word, text);
    let compiled = Cursor::new(word + text).next_token();
    let m = Machine::start(accumulator(mul), compiled.cursor);
    lemma_accumulator(mul);
    let lead = if operands.len() == 0 {
        tail
    } else {
        operands[0].gap
    };
    if operands.len() > 0 {
        assert(operands[0].well_formed());
        assert(text =~= pending(lead, operands, tail));
    }
    assert(compiled.cursor == Cursor {
        rest: pending(lead, operands, tail),
        eof: false,
        loc: compiled.cursor.loc,
    });
    let m1 = at_loop(mul, seed, compiled.cursor);
    assert(m.stack.push(SpecValue::Num(seed)) =~= seq![SpecValue::Num(seed)]);
    assert(m.step() == (m1, Effect::Continue));
    lemma_run_on(m, m1, steps);
    lemma_loop(mul, seed, lead, operands, tail, compiled.cursor.loc, (steps - 1) as nat);
}

/// The command words are made of ASCII bytes that are no separators.
proof fn lemma_word_bytes(word: Seq<u8>)
    requires
        program_for(chars(word)) is Some,
    ensures
        word.len() > 0,
        forall|j: int| 0 <= j < word.len() ==> !is_space(#[trigger] word[j]) && word[j] < 128,
{
    let w = chars(word);
    assert(w.len() == word.len());
    assert forall|j: int| 0 <= j < word.len() implies !is_space(#[trigger] word[j]) && word[j]
        < 128 by {
        assert(w[j] == word[j] as char);
        if w == seq!['+'] {
            assert(w[j] == '+');
        } else if w == seq!['a', 'd', 'd'] {
            assert(w[j] == seq!['a', 'd', 'd'][j]);
        } else if w == seq!['*'] {
            assert(w[j] == '*');
        } else if w == seq!['m', 'u', 'l'] {
            assert(w[j] == seq!['m', 'u', 'l'][j]);
        } else {
            assert(w == seq!['j', 'o', 'i', 'n']);
            assert(w[j] == seq!['j', 'o', 'i', 'n'][j]);
        }
    }
}

/// The sum of the values of the operands.
pub open spec fn sum(operands: Seq<Operand>) -> nat {
    folded(false, 0, operands)
}

/// The product of the values of the operands.
pub open spec fn product(operands: Seq<Operand>) -> nat {
    folded(true, 1, operands)
}

/// A sum is the sum of all but the last operand, plus the last.
proof fn lemma_sum_last(acc: nat, operands: Seq<Operand>)
    requires
        operands.len() > 0,
    ensures
        folded(false, acc, operands) == folded(false, acc, operands.drop_last())
            + operands.last().value(),
    decreases operands.len(),
{
    let least = operands.drop_last();
    if operands.len() > 1 {
        lemma_sum_last(combine(false, acc, operands[0].value()), operands.skip(1));
        assert(least.skip(1) =~= operands.skip(1).drop_last());
        assert(least[0] == operands[0]);
        assert(operands.skip(1).last() == operands.last());
        assert(folded(false, acc, least) == folded(
            false,
            combine(false, acc, least[0].value()),
            least.skip(1),
        ));
    } else {
        assert(least =~= Seq::<Operand>::empty());
        assert(operands.skip(1) =~= Seq::<Operand>::empty());
        assert(folded(false, acc, operands) == folded(
            false,
            combine(false, acc, operands[0].value()),
            operands.skip(1),
        ));
    }
}

/// A sum below 2^64 has all its intermediate sums below 2^64.
proof fn lemma_sum_fits(acc: nat, operands: Seq<Operand>)
    requires
        folded(false, acc, operands) <= u64::MAX,
    ensures
        acc <= folded(false, acc, operands),
        fits(false, acc, operands),
    decreases operands.len(),
{
    if operands.len() > 0 {
        lemma_sum_fits(combine(false, acc, operands[0].value()), operands.skip(1));
    }
}

/// The sum program prints the sum. The input is `add` or `+`, then numbers in
/// decimal, each after at least one separator, then separators up to the end.
/// Where the sum is below 2^64, and a separator follows the last number (or that
/// number is 0, which the sum does not miss), the run halts after printing one
/// line: the sum in decimal, 0 for no numbers.
pub proof fn sum_program_prints_the_sum(
    word: Seq<u8>,
    operands: Seq<Operand>,
    tail: Seq<u8>,
    steps: nat,
)
    requires
        program_for(chars(word)) == Some(sum_program()),
        forall|i: int| 0 <= i < operands.len() ==> (#[trigger] operands[i]).well_formed(),
        all_spaces(tail),
        tail.len() > 0 || (operands.len() > 0 && operands.last().value() == 0),
        sum(operands) <= u64::MAX,
        steps >= 4 * operands.len() + 5,
    ensures
        ({
            let compiled = Cursor::new(word + listing(operands, tail)).next_token();
            let t = Machine::start(sum_program(), compiled.cursor).run(steps);
            &&& compiled.token == Ok::<SpecToken, Seq<char>>(SpecToken::Ident(chars(word)))
            &&& t.ending is Halted
            &&& t.output == seq![decimal(sum(operands))]
        }),
{
    if tail.len() == 0 {
        lemma_sum_last(0, operands);
    }
    lemma_sum_fits(0, operands_read(operands, tail));
    accumulator_prints_the_result(false, word, operands, tail, steps);
}

/// The product program prints the product. The input is `mul` or `*`, then
/// numbers in decimal, each after at least one separator, then separators up to
/// the end. Where every intermediate product is below 2^64 (after a product of 0
/// nothing more is asked), and a separator follows the last number (or the
/// product is the same without it), the run halts after printing one line: the
/// product in decimal, 1 for no numbers.
pub proof fn product_program_prints_the_product(
    word: Seq<u8>,
    operands: Seq<Operand>,
    tail: Seq<u8>,
    steps: nat,
)
    requires
        program_for(chars(word)) == Some(product_program()),
        forall|i: int| 0 <= i < operands.len() ==> (#[trigger] operands[i]).well_formed(),
        all_spaces(tail),
        operands.len() > 0 || tail.len() > 0,
        fits(true, 1, operands_read(operands, tail)),
        tail.len() > 0 || product(operands_read(operands, tail)) == product(operands),
        steps >= 4 * operands.len() + 5,
    ensures
        ({
            let compiled = Cursor::new(word + listing(operands, tail)).next_token();
            let t = Machine::start(product_program(), compiled.cursor).run(steps);
            &&& compiled.token == Ok::<SpecToken, Seq<char>>(SpecToken::Ident(chars(word)))
            &&& t.ending is Halted
            &&& t.output == seq![decimal(product(operands))]
        }),
{
    accumulator_prints_the_result(true, word, operands, tail, steps);
}

/// Whether `s` can stand inside one line: ASCII, and no line feed.
pub open spec fn is_line(s: Seq<u8>) -> bool {
    forall|i: int| 0 <= i < s.len() ==> #[trigger] s[i] != 10 && s[i] < 128
}

/// The text of lines, each ended by a line feed, followed by `tail`.
pub open spec fn lines_text(lines: Seq<Seq<u8>>, tail: Seq<u8>) -> Seq<u8>
    decreases lines.len(),
{
    if lines.len() == 0 {
        tail
    } else {
        lines[0] + seq![10u8] + lines_text(lines.skip(1), tail)
    }
}

/// `acc` with the lines appended one after the other, `first` before the first
/// of them and `sep` before each of the others.
pub open spec fn joined(
    acc: Seq<char>,
    first: Seq<char>,
    sep: Seq<char>,
    lines: Seq<Seq<u8>>,
) -> Seq<char>
    decreases lines.len(),
{
    if lines.len() == 0 {
        acc
    } else {
        joined(acc + (first + chars(lines[0])), sep, sep, lines.skip(1))
    }
}

/// Lines and what follows them are ASCII.
proof fn lemma_lines_ascii(lines: Seq<Seq<u8>>, tail: Seq<u8>)
    requires
        forall|i: int| 0 <= i < lines.len() ==> is_line(#[trigger] lines[i]),
        is_line(tail),
    ensures
        forall|j: int|
            0 <= j < lines_text(lines, tail).len() ==> #[trigger] lines_text(lines, tail)[j] < 128,
    decreases lines.len(),
{
    if lines.len() > 0 {
        let first = lines[0];
        let rest = lines.skip(1);
        assert(is_line(first));
        assert forall|i: int| 0 <= i < rest.len() implies is_line(#[trigger] rest[i]) by {
            assert(rest[i] == lines[i + 1]);
        }
        lemma_lines_ascii(rest, tail);
        let l = lines_text(lines, tail);
        assert forall|j: int| 0 <= j < l.len() implies #[trigger] l[j] < 128 by {
            if j < first.len() {
                assert(l[j] == first[j]);
            } else if j > first.len() {
                assert(l[j] == lines_text(rest, tail)[j - first.len() - 1]);
            }
        }
    }
}

/// Reading a line where a line feed follows: the line is the text, and the line
/// feed is consumed.
proof fn lemma_read_line(c: Cursor, line: Seq<u8>, after: Seq<u8>)
    requires
        !c.eof,
        c.rest == line + seq![10u8] + after,
        is_line(line),
        forall|j: int| 0 <= j < after.len() ==> #[trigger] after[j] < 128,
    ensures
        c.read_line().cursor.rest == after,
        !c.read_line().cursor.eof,
        c.read_line().token == Ok::<SpecToken, Seq<char>>(
            SpecToken::Value(SpecValue::Text(chars(line))),
        ),
{
    let a = c.rest;
    let n = line.len() as int;
    assert forall|j: int| 0 <= j < a.len() implies #[trigger] a[j] < 128 by {
        if j < n {
            assert(a[j] == line[j]);
        } else if j > n {
            assert(a[j] == after[j - n - 1]);
        }
    }
    lemma_all_readable(c);
    assert forall|j: int| 0 <= j < n implies Class::Except(10).has(#[trigger] a[j]) by {
        assert(a[j] == line[j]);
    }
    assert(a[n] == 10);
    lemma_span(a, Class::Except(10), n);
    assert(a.take(n) =~= line);
    assert(a.skip(n + 1) =~= after);
}

/// Reading a line where no line feed is left: the token is `Eof`.
proof fn lemma_read_line_at_end(c: Cursor)
    requires
        c.eof || is_line(c.rest),
    ensures
        c.read_line().token == Ok::<SpecToken, Seq<char>>(SpecToken::Eof),
        c.read_line().cursor.eof,
{
    if !c.eof {
        lemma_all_readable(c);
        lemma_span(c.rest, Class::Except(10), c.rest.len() as int);
    } else {
        lemma_span(c.avail(), Class::Except(10), 0);
    }
}

/// Reading a string where separators, a plain word and one more separator
/// follow: the word is the text, and the separator after it stays.
proof fn lemma_read_word(c: Cursor, gap: Seq<u8>, word: Seq<u8>, after: Seq<u8>)
    requires
        !c.eof,
        c.rest == gap + word + after,
        all_spaces(gap),
        word.len() > 0,
        forall|j: int| 0 <= j < word.len() ==> !is_space(#[trigger] word[j]) && word[j] < 128,
        word[0] != 34,
        after.len() > 0,
        is_space(after[0]),
        forall|j: int| 0 <= j < after.len() ==> #[trigger] after[j] < 128,
    ensures
        c.read_string().cursor.rest == after,
        !c.read_string().cursor.eof,
        c.read_string().token == Ok::<SpecToken, Seq<char>>(
            SpecToken::Value(SpecValue::Text(chars(word))),
        ),
{
    let a = c.rest;
    let i = gap.len() as int;
    let n = i + word.len();
    assert forall|j: int| 0 <= j < a.len() implies #[trigger] a[j] < 128 by {
        if j < i {
            assert(a[j] == gap[j]);
        } else if j < n {
            assert(a[j] == word[j - i]);
        } else {
            assert(a[j] == after[j - n]);
        }
    }
    lemma_all_readable(c);
    assert forall|j: int| 0 <= j < i implies Class::Space.has(#[trigger] a[j]) by {
        assert(a[j] == gap[j]);
    }
    assert(a[i] == word[0]);
    lemma_span(a, Class::Space, i);
    let b = a.skip(i);
    assert forall|j: int| 0 <= j < word.len() implies Class::Word.has(#[trigger] b[j]) by {
        assert(b[j] == word[j]);
    }
    assert(b[word.len() as int] == after[0]);
    lemma_span(b, Class::Word, word.len() as int);
    assert(a.subrange(i, n) =~= word);
    assert(a.skip(n) =~= after);
}

/// A state of a program.
spec fn state(code: Seq<SpecOp>, stack: Seq<SpecValue>, ip: nat, input: Cursor) -> Machine {
    Machine { code, stack, ip, input }
}

/// Whether `code` holds the instructions of the join program.
spec fn is_join(code: Seq<SpecOp>) -> bool {
    &&& code.len() == 20
    &&& code[0] == SpecOp::ReadString
    &&& code[1] == SpecOp::Pop
    &&& code[2] == SpecOp::ReadLine
    &&& code[3] == SpecOp::JmpRelZ(3)
    &&& code[4] == SpecOp::Pop
    &&& code[5] == SpecOp::Push(SpecValue::Text(Seq::empty()))
    &&& code[6] == SpecOp::Dup
    &&& code[7] == SpecOp::ReadLine
    &&& code[8] == SpecOp::JmpRelZ(7)
    &&& code[9] == SpecOp::Add
    &&& code[10] == SpecOp::Add
    &&& code[11] == SpecOp::Swap(1)
    &&& code[12] == SpecOp::Dup
    &&& code[13] == SpecOp::Swap(2)
    &&& code[14] == SpecOp::Swap(1)
    &&& code[15] == SpecOp::JmpRel(-9)
    &&& code[16] == SpecOp::Pop
    &&& code[17] == SpecOp::Swap(1)
    &&& code[18] == SpecOp::Pop
    &&& code[19] == SpecOp::Print
}

proof fn lemma_join_code()
    ensures
        is_join(join_program()),
{
}

/// A text as a value.
spec fn text_of(s: Seq<char>) -> SpecValue {
    SpecValue::Text(s)
}

/// The start of the join program: the separator is read and the rest of its line
/// dropped.
proof fn lemma_join_begin(
    code: Seq<SpecOp>,
    input: Cursor,
    sep: Seq<char>,
    junk: Seq<char>,
    steps: nat,
)
    requires
        is_join(code),
        input.read_string().token == Ok::<SpecToken, Seq<char>>(SpecToken::Value(text_of(sep))),
        input.read_string().cursor.read_line().token == Ok::<SpecToken, Seq<char>>(
            SpecToken::Value(text_of(junk)),
        ),
        steps >= 7,
    ensures
        state(code, Seq::empty(), 0, input).run(steps) == state(
            code,
            seq![text_of(sep), text_of(Seq::empty()), text_of(Seq::empty())],
            7,
            input.read_string().cursor.read_line().cursor,
        ).run((steps - 7) as nat),
{
    let c1 = input.read_string().cursor;
    let c2 = c1.read_line().cursor;
    let empty = Seq::<SpecValue>::empty();
    let m0 = state(code, empty, 0, input);
    let m1 = state(code, seq![text_of(sep), flag(true)], 1, c1);
    let m2 = state(code, seq![text_of(sep)], 2, c1);
    let m3 = state(code, seq![text_of(sep), text_of(junk), flag(true)], 3, c2);
    assert(m0.step() == (m1, Effect::Continue)) by {
        assert(empty + pushed(input.read_string().token, ValueType::String) =~= m1.stack);
    }
    assert(m1.step() == (m2, Effect::Continue)) by {
        assert(m1.stack.drop_last() =~= m2.stack);
    }
    assert(m2.step() == (m3, Effect::Continue)) by {
        assert(m2.stack + pushed(c1.read_line().token, ValueType::String) =~= m3.stack);
    }
    lemma_run_on(m0, m1, steps);
    lemma_run_on(m1, m2, (steps - 1) as nat);
    lemma_run_on(m2, m3, (steps - 2) as nat);
    lemma_join_begin_rest(code, c2, sep, junk, (steps - 3) as nat);
}

proof fn lemma_join_begin_rest(
    code: Seq<SpecOp>,
    input: Cursor,
    sep: Seq<char>,
    junk: Seq<char>,
    steps: nat,
)
    requires
        is_join(code),
        steps >= 4,
    ensures
        state(code, seq![text_of(sep), text_of(junk), flag(true)], 3, input).run(steps) == state(
            code,
            seq![text_of(sep), text_of(Seq::empty()), text_of(Seq::empty())],
            7,
            input,
        ).run((steps - 4) as nat),
{
    let m3 = state(code, seq![text_of(sep), text_of(junk), flag(true)], 3, input);
    let m4 = state(code, seq![text_of(sep), text_of(junk)], 4, input);
    let m5 = state(code, seq![text_of(sep)], 5, input);
    let m6 = state(code, seq![text_of(sep), text_of(Seq::empty())], 6, input);
    let m7 = state(code, seq![text_of(sep), text_of(Seq::empty()), text_of(Seq::empty())], 7, input);
    assert(m3.step() == (m4, Effect::Continue)) by {
        assert(m3.stack.drop_last() =~= m4.stack);
    }
    assert(m4.step() == (m5, Effect::Continue)) by {
        assert(m4.stack.drop_last() =~= m5.stack);
    }
    assert(m5.step() == (m6, Effect::Continue)) by {
        assert(m5.stack.push(text_of(Seq::empty())) =~= m6.stack);
    }
    assert(m6.step() == (m7, Effect::Continue)) by {
        assert(m6.stack.push(m6.stack.last()) =~= m7.stack);
    }
    lemma_run_on(m3, m4, steps);
    lemma_run_on(m4, m5, (steps - 1) as nat);
    lemma_run_on(m5, m6, (steps - 2) as nat);
    lemma_run_on(m6, m7, (steps - 3) as nat);
}

/// The first half of a round of the join program: a line is read and appended.
proof fn lemma_join_round_append(
    code: Seq<SpecOp>,
    input: Cursor,
    sep: Seq<char>,
    acc: Seq<char>,
    glue: Seq<char>,
    line: Seq<char>,
    steps: nat,
)
    requires
        is_join(code),
        input.read_line().token == Ok::<SpecToken, Seq<char>>(SpecToken::Value(text_of(line))),
        steps >= 4,
    ensures
        state(code, seq![text_of(sep), text_of(acc), text_of(glue)], 7, input).run(steps) == state(
            code,
            seq![text_of(sep), text_of(acc + (glue + line))],
            11,
            input.read_line().cursor,
        ).run((steps - 4) as nat),
{
    let c = input.read_line().cursor;
    let m7 = state(code, seq![text_of(sep), text_of(acc), text_of(glue)], 7, input);
    let m8 = state(code, seq![text_of(sep), text_of(acc), text_of(glue), text_of(line), flag(true)], 8, c);
    let m9 = state(code, seq![text_of(sep), text_of(acc), text_of(glue), text_of(line)], 9, c);
    let m10 = state(code, seq![text_of(sep), text_of(acc), text_of(glue + line)], 10, c);
    let m11 = state(code, seq![text_of(sep), text_of(acc + (glue + line))], 11, c);
    assert(m7.step() == (m8, Effect::Continue)) by {
        assert(m7.stack + pushed(input.read_line().token, ValueType::String) =~= m8.stack);
    }
    assert(m8.step() == (m9, Effect::Continue)) by {
        assert(m8.stack.drop_last() =~= m9.stack);
    }
    assert(m9.step() == (m10, Effect::Continue)) by {
        assert(m9.stack.take(2).push(text_of(glue + line)) =~= m10.stack);
    }
    assert(m10.step() == (m11, Effect::Continue)) by {
        assert(m10.stack.take(1).push(text_of(acc + (glue + line))) =~= m11.stack);
    }
    lemma_run_on(m7, m8, steps);
    lemma_run_on(m8, m9, (steps - 1) as nat);
    lemma_run_on(m9, m10, (steps - 2) as nat);
    lemma_run_on(m10, m11, (steps - 3) as nat);
}

/// The second half of a round of the join program: the stack is put in order
/// for the next line, with the separator on top.
proof fn lemma_join_round_turn(
    code: Seq<SpecOp>,
    input: Cursor,
    sep: Seq<char>,
    acc: Seq<char>,
    steps: nat,
)
    requires
        is_join(code),
        steps >= 5,
    ensures
        state(code, seq![text_of(sep), text_of(acc)], 11, input).run(steps) == state(
            code,
            seq![text_of(sep), text_of(acc), text_of(sep)],
            7,
            input,
        ).run((steps - 5) as nat),
{
    let m11 = state(code, seq![text_of(sep), text_of(acc)], 11, input);
    let m12 = state(code, seq![text_of(acc), text_of(sep)], 12, input);
    let m13 = state(code, seq![text_of(acc), text_of(sep), text_of(sep)], 13, input);
    let m14 = state(code, seq![text_of(sep), text_of(sep), text_of(acc)], 14, input);
    let m15 = state(code, seq![text_of(sep), text_of(acc), text_of(sep)], 15, input);
    let m7 = state(code, seq![text_of(sep), text_of(acc), text_of(sep)], 7, input);
    assert(m11.step() == (m12, Effect::Continue)) by {
        assert(swapped(m11.stack, 1) =~= m12.stack);
    }
    assert(m12.step() == (m13, Effect::Continue)) by {
        assert(m12.stack.push(m12.stack.last()) =~= m13.stack);
    }
    assert(m13.step() == (m14, Effect::Continue)) by {
        assert(swapped(m13.stack, 2) =~= m14.stack);
    }
    assert(m14.step() == (m15, Effect::Continue)) by {
        assert(swapped(m14.stack, 1) =~= m15.stack);
    }
    assert(m15.step() == (m7, Effect::Continue));
    lemma_run_on(m11, m12, steps);
    lemma_run_on(m12, m13, (steps - 1) as nat);
    lemma_run_on(m13, m14, (steps - 2) as nat);
    lemma_run_on(m14, m15, (steps - 3) as nat);
    lemma_run_on(m15, m7, (steps - 4) as nat);
}

/// The end of the join program: no line is left, and the text is printed.
proof fn lemma_join_end(
    code: Seq<SpecOp>,
    input: Cursor,
    sep: Seq<char>,
    acc: Seq<char>,
    glue: Seq<char>,
    steps: nat,
)
    requires
        is_join(code),
        input.read_line().token == Ok::<SpecToken, Seq<char>>(SpecToken::Eof),
        steps >= 7,
    ensures
        state(code, seq![text_of(sep), text_of(acc), text_of(glue)], 7, input).run(steps).ending is Halted,
        state(code, seq![text_of(sep), text_of(acc), text_of(glue)], 7, input).run(steps).output == seq![acc],
{
    let c = input.read_line().cursor;
    let m7 = state(code, seq![text_of(sep), text_of(acc), text_of(glue)], 7, input);
    let m8 = state(code, seq![text_of(sep), text_of(acc), text_of(glue), flag(false)], 8, c);
    let m16 = state(code, seq![text_of(sep), text_of(acc), text_of(glue)], 16, c);
    let m17 = state(code, seq![text_of(sep), text_of(acc)], 17, c);
    assert(m7.step() == (m8, Effect::Continue)) by {
        assert(m7.stack + pushed(input.read_line().token, ValueType::String) =~= m8.stack);
    }
    assert(m8.step() == (m16, Effect::Continue)) by {
        assert(m8.stack.drop_last() =~= m16.stack);
    }
    assert(m16.step() == (m17, Effect::Continue)) by {
        assert(m16.stack.drop_last() =~= m17.stack);
    }
    lemma_run_on(m7, m8, steps);
    lemma_run_on(m8, m16, (steps - 1) as nat);
    lemma_run_on(m16, m17, (steps - 2) as nat);
    lemma_join_end_print(code, c, sep, acc, (steps - 3) as nat);
}

proof fn lemma_join_end_print(
    code: Seq<SpecOp>,
    input: Cursor,
    sep: Seq<char>,
    acc: Seq<char>,
    steps: nat,
)
    requires
        is_join(code),
        steps >= 4,
    ensures
        state(code, seq![text_of(sep), text_of(acc)], 17, input).run(steps).ending is Halted,
        state(code, seq![text_of(sep), text_of(acc)], 17, input).run(steps).output == seq![acc],
{
    let m17 = state(code, seq![text_of(sep), text_of(acc)], 17, input);
    let m18 = state(code, seq![text_of(acc), text_of(sep)], 18, input);
    let m19 = state(code, seq![text_of(acc)], 19, input);
    let m20 = state(code, Seq::empty(), 20, input);
    assert(m17.step() == (m18, Effect::Continue)) by {
        assert(swapped(m17.stack, 1) =~= m18.stack);
    }
    assert(m18.step() == (m19, Effect::Continue)) by {
        assert(m18.stack.drop_last() =~= m19.stack);
    }
    assert(m19.step() == (m20, Effect::Print(acc))) by {
        assert(m19.stack.drop_last() =~= m20.stack);
    }
    assert(m20.step() == (m20, Effect::Halt));
    lemma_run_on(m17, m18, steps);
    lemma_run_on(m18, m19, (steps - 1) as nat);
    let end = m20.run((steps - 3) as nat);
    assert(end.ending is Halted && end.output == Seq::<Seq<char>>::empty());
    assert(seq![acc] + end.output =~= seq![acc]);
}

/// The loop of the join program, from the moment it is about to read a line to
/// the end of the run.
proof fn lemma_join_loop(
    code: Seq<SpecOp>,
    sep: Seq<char>,
    acc: Seq<char>,
    glue: Seq<char>,
    lines: Seq<Seq<u8>>,
    tail: Seq<u8>,
    loc: Loc,
    steps: nat,
)
    requires
        is_join(code),
        forall|i: int| 0 <= i < lines.len() ==> is_line(#[trigger] lines[i]),
        is_line(tail),
        steps >= 9 * lines.len() + 7,
    ensures
        ({
            let input = Cursor { rest: lines_text(lines, tail), eof: false, loc };
            let t = state(code, seq![text_of(sep), text_of(acc), text_of(glue)], 7, input).run(steps);
            &&& t.ending is Halted
            &&& t.output == seq![joined(acc, glue, sep, lines)]
        }),
    decreases lines.len(),
{
    let input = Cursor { rest: lines_text(lines, tail), eof: false, loc };
    if lines.len() == 0 {
        lemma_read_line_at_end(input);
        lemma_join_end(code, input, sep, acc, glue, steps);
    } else {
        let line = lines[0];
        let others = lines.skip(1);
        assert(is_line(line));
        assert forall|i: int| 0 <= i < others.len() implies is_line(#[trigger] others[i]) by {
            assert(others[i] == lines[i + 1]);
        }
        lemma_lines_ascii(others, tail);
        lemma_read_line(input, line, lines_text(others, tail));
        let after = input.read_line().cursor;
        let next = acc + (glue + chars(line));
        lemma_join_round_append(code, input, sep, acc, glue, chars(line), steps);
        lemma_join_round_turn(code, after, sep, next, (steps - 4) as nat);
        assert(after == Cursor { rest: lines_text(others, tail), eof: false, loc: after.loc });
        lemma_join_loop(code, sep, next, sep, others, tail, after.loc, (steps - 9) as nat);
    }
}

/// The join program prints the lines, joined. The input is `join`, then after at
/// least one separator a word that starts with no double quote, then the rest of
/// that line, then lines, each ended by a line feed; what follows the last line
/// feed is lost. The run halts after printing one line: the lines in order,
/// with the word between each two of them.
pub proof fn join_program_prints_the_joined_lines(
    word: Seq<u8>,
    gap: Seq<u8>,
    separator: Seq<u8>,
    junk: Seq<u8>,
    lines: Seq<Seq<u8>>,
    tail: Seq<u8>,
    steps: nat,
)
    requires
        program_for(chars(word)) == Some(join_program()),
        gap.len() > 0,
        all_spaces(gap),
        separator.len() > 0,
        forall|j: int|
            0 <= j < separator.len() ==> !is_space(#[trigger] separator[j]) && separator[j] < 128,
        separator[0] != 34,
        is_line(junk),
        junk.len() > 0 ==> is_space(junk[0]),
        forall|i: int| 0 <= i < lines.len() ==> is_line(#[trigger] lines[i]),
        is_line(tail),
        steps >= 9 * lines.len() + 14,
    ensures
        ({
            let input = word + gap + separator + junk + seq![10u8] + lines_text(lines, tail);
            let compiled = Cursor::new(input).next_token();
            let t = Machine::start(join_program(), compiled.cursor).run(steps);
            &&& compiled.token == Ok::<SpecToken, Seq<char>>(SpecToken::Ident(chars(word)))
            &&& t.ending is Halted
            &&& t.output == seq![
                joined(Seq::empty(), Seq::empty(), chars(separator), lines),
            ]
        }),
{
    let code = join_program();
    lemma_join_code();
    let body = lines_text(lines, tail);
    let line_end = junk + seq![10u8] + body;
    let operands = gap + separator + line_end;
    let input = word + gap + separator + junk + seq![10u8] + body;
    assert(input =~= word + operands);
    lemma_lines_ascii(lines, tail);
    assert(line_end.len() > 0 && is_space(line_end[0]));
    assert forall|j: int| 0 <= j < line_end.len() implies #[trigger] line_end[j] < 128 by {
        if j < junk.len() {
            assert(line_end[j] == junk[j]);
        } else if j > junk.len() {
            assert(line_end[j] == body[j - junk.len() - 1]);
        }
    }
    assert(is_space(operands[0])) by {
        assert(operands[0] == gap[0]);
    }
    assert forall|j: int| 0 <= j < operands.len() implies #[trigger] operands[j] < 128 by {
        if j < gap.len() {
            assert(operands[j] == gap[j]);
        } else if j < gap.len() + separator.len() {
            assert(operands[j] == separator[j - gap.len()]);
        } else {
            assert(operands[j] == line_end[j - gap.len() - separator.len()]);
        }
    }
    lemma_word_bytes(word);
    lemma_command_word(word, operands);
    let c0 = Cursor::new(word + operands).next_token().cursor;
    lemma_read_word(c0, gap, separator, line_end);
    let c1 = c0.read_string().cursor;
    lemma_read_line(c1, junk, body);
    let c2 = c1.read_line().cursor;
    assert(Machine::start(join_program(), c0) == state(code, Seq::empty(), 0, c0));
    lemma_join_begin(code, c0, chars(separator), chars(junk), steps);
    assert(c2 == Cursor { rest: body, eof: false, loc: c2.loc });
    lemma_join_loop(
        code,
        chars(separator),
        Seq::empty(),
        Seq::empty(),
        lines,
        tail,
        c2.loc,
        (steps - 7) as nat,
    );
}

/// The state of a lexer with the bytes `more` behind its input.
pub open spec fn longer(c: Cursor, more: Seq<u8>) -> Cursor {
    Cursor { rest: c.rest + more, ..c }
}

/// Whether the call that gave `l` from state `c` ran out of bytes: it met the
/// end of the input, and not at a byte that is no ASCII.
pub open spec fn ran_out(c: Cursor, l: Lexed) -> bool {
    !c.eof && l.cursor.eof && l.cursor.rest.len() == 0
}

/// Whether `on_longer` is what `l` is with the bytes `more` left behind it.
pub open spec fn settled(l: Lexed, on_longer: Lexed, more: Seq<u8>) -> bool {
    &&& on_longer.token == l.token
    &&& on_longer.range == l.range
    &&& on_longer.cursor == longer(l.cursor, more)
}

/// A span that ends before the end of `s` is the span of every sequence that
/// starts with `s`.
proof fn lemma_span_longer(s: Seq<u8>, t: Seq<u8>, class: Class)
    requires
        s.len() <= t.len(),
        t.take(s.len() as int) == s,
        span(s, class) < s.len(),
    ensures
        span(t, class) == span(s, class),
{
    lemma_span_is_run(s, class);
    let n = span(s, class) as int;
    assert forall|j: int| 0 <= j <= n implies #[trigger] t[j] == s[j] by {
        assert(t.take(s.len() as int)[j] == t[j]);
    }
    lemma_span(t, class, n);
}

/// Two spans in a row that end before the end of `s` are the same two spans of
/// every sequence that starts with `s`.
proof fn lemma_two_spans_longer(s: Seq<u8>, t: Seq<u8>, first: Class, second: Class)
    requires
        s.len() <= t.len(),
        t.take(s.len() as int) == s,
        span(s, first) + span(s.skip(span(s, first) as int), second) < s.len(),
    ensures
        span(t, first) == span(s, first),
        span(t.skip(span(s, first) as int), second) == span(
            s.skip(span(s, first) as int),
            second,
        ),
{
    let i = span(s, first) as int;
    lemma_span_longer(s, t, first);
    let s2 = s.skip(i);
    let t2 = t.skip(i);
    assert(t2.take(s2.len() as int) =~= s2) by {
        assert forall|j: int| 0 <= j < s2.len() implies t2[j] == s2[j] by {
            assert(t.take(s.len() as int)[j + i] == t[j + i]);
        }
    }
    lemma_span_longer(s2, t2, second);
}

/// What can be read of a longer input starts with what could be read before; it
/// is the same where the end was met already or a byte that is no ASCII stands
/// in the way.
proof fn lemma_avail_longer(c: Cursor, more: Seq<u8>)
    ensures
        c.avail().len() <= longer(c, more).avail().len(),
        longer(c, more).avail().take(c.avail().len() as int) == c.avail(),
        c.eof || c.avail().len() < c.rest.len() ==> longer(c, more).avail() == c.avail(),
{
    let d = longer(c, more);
    lemma_avail(c);
    lemma_avail(d);
    if c.eof {
        assert(d.avail().take(0) =~= c.avail());
    } else {
        let k = span(c.rest, Class::Ascii) as int;
        lemma_span_is_run(c.rest, Class::Ascii);
        lemma_span_is_run(d.rest, Class::Ascii);
        let k2 = span(d.rest, Class::Ascii) as int;
        assert forall|j: int| 0 <= j < c.rest.len() implies #[trigger] d.rest[j] == c.rest[j] by {}
        if k < c.rest.len() {
            assert(d.rest[k] == c.rest[k]);
            lemma_span(d.rest, Class::Ascii, k);
            assert(d.avail() =~= c.avail());
        } else {
            if k2 < k {
                assert(d.rest[k2] == c.rest[k2]);
            }
        }
        assert(d.avail().take(k) =~= c.avail());
    }
}

/// A word that `next_token` gave without running out of bytes is the word it
/// gives whatever bytes follow.
pub proof fn next_token_is_settled(c: Cursor, more: Seq<u8>)
    requires
        !ran_out(c, c.next_token()),
    ensures
        settled(c.next_token(), longer(c, more).next_token(), more),
{
    let d = longer(c, more);
    let a = c.avail();
    let b = d.avail();
    lemma_avail(c);
    lemma_avail_longer(c, more);
    let i = span(a, Class::Space) as int;
    lemma_span_is_run(a, Class::Space);
    lemma_span_is_run(a.skip(i), Class::Word);
    let n = i + span(a.skip(i), Class::Word);
    if n < a.len() {
        lemma_two_spans_longer(a, b, Class::Space, Class::Word);
        assert(b.take(i) =~= a.take(i));
        assert(b.take(n) =~= a.take(n));
        assert(b.subrange(i, n) =~= a.subrange(i, n));
    } else {
        assert(c.rest.skip(n).len() == c.rest.len() - n);
    }
    assert(d.rest.skip(n) =~= c.rest.skip(n) + more);
}

/// A line that `read_line` gave without running out of bytes is the line it
/// gives whatever bytes follow.
pub proof fn read_line_is_settled(c: Cursor, more: Seq<u8>)
    requires
        !ran_out(c, c.read_line()),
    ensures
        settled(c.read_line(), longer(c, more).read_line(), more),
{
    let d = longer(c, more);
    let a = c.avail();
    let b = d.avail();
    lemma_avail(c);
    lemma_avail_longer(c, more);
    lemma_span_is_run(a, Class::Except(10));
    let n = span(a, Class::Except(10)) as int;
    if n < a.len() {
        lemma_span_longer(a, b, Class::Except(10));
        assert(b.take(n) =~= a.take(n));
        assert(b.take(n + 1) =~= a.take(n + 1));
        assert(d.rest.skip(n + 1) =~= c.rest.skip(n + 1) + more);
    } else {
        assert(c.rest.skip(n).len() == c.rest.len() - n);
        assert(d.rest.skip(n) =~= c.rest.skip(n) + more);
    }
}

/// A number that `read_num` gave without running out of bytes is the number it
/// gives whatever bytes follow; so is the error for digits that are no number.
pub proof fn read_num_is_settled(c: Cursor, more: Seq<u8>)
    requires
        !ran_out(c, c.read_num()),
    ensures
        settled(c.read_num(), longer(c, more).read_num(), more),
{
    let d = longer(c, more);
    let a = c.avail();
    let b = d.avail();
    lemma_avail(c);
    lemma_avail_longer(c, more);
    let i = span(a, Class::Space) as int;
    lemma_span_is_run(a, Class::Space);
    lemma_span_is_run(a.skip(i), Class::Digit);
    let n = i + span(a.skip(i), Class::Digit);
    if n < a.len() {
        lemma_two_spans_longer(a, b, Class::Space, Class::Digit);
        assert(b.take(i) =~= a.take(i));
        assert(b.take(n) =~= a.take(n));
        assert(b.take(n + 1) =~= a.take(n + 1));
        assert(b.subrange(i, n) =~= a.subrange(i, n));
        assert(d.rest.skip(n + 1) =~= c.rest.skip(n + 1) + more);
    } else {
        assert(c.rest.skip(n).len() == c.rest.len() - n);
        assert(d.rest.skip(n) =~= c.rest.skip(n) + more);
    }
}

/// A string that `read_string` gave without running out of bytes is the string
/// it gives whatever bytes follow.
pub proof fn read_string_is_settled(c: Cursor, more: Seq<u8>)
    requires
        !ran_out(c, c.read_string()),
    ensures
        settled(c.read_string(), longer(c, more).read_string(), more),
{
    let d = longer(c, more);
    let a = c.avail();
    let b = d.avail();
    lemma_avail(c);
    lemma_avail_longer(c, more);
    let i = span(a, Class::Space) as int;
    lemma_span_is_run(a, Class::Space);
    if i < a.len() && a[i] == 34 {
        let quoted = a.skip(i + 1);
        lemma_span_is_run(quoted, Class::Except(34));
        let n = i + 1 + span(quoted, Class::Except(34));
        if n < a.len() {
            lemma_span_longer(a, b, Class::Space);
            assert(b.take(a.len() as int)[i] == b[i]);
            let longer_quoted = b.skip(i + 1);
            assert(longer_quoted.take(quoted.len() as int) =~= quoted) by {
                assert forall|j: int| 0 <= j < quoted.len() implies longer_quoted[j]
                    == quoted[j] by {
                    assert(b.take(a.len() as int)[j + i + 1] == b[j + i + 1]);
                }
            }
            lemma_span_longer(quoted, longer_quoted, Class::Except(34));
            assert(b.take(i + 1) =~= a.take(i + 1));
            assert(b.take(n) =~= a.take(n));
            assert(b.take(n + 1) =~= a.take(n + 1));
            assert(b.subrange(i + 1, n) =~= a.subrange(i + 1, n));
            assert(d.rest.skip(n + 1) =~= c.rest.skip(n + 1) + more);
        } else {
            assert(c.rest.skip(n).len() == c.rest.len() - n);
            assert(d.rest.skip(n) =~= c.rest.skip(n) + more);
        }
    } else {
        lemma_span_is_run(a.skip(i), Class::Word);
        let n = i + span(a.skip(i), Class::Word);
        if n < a.len() {
            lemma_two_spans_longer(a, b, Class::Space, Class::Word);
            assert(b.take(a.len() as int)[i] == b[i]);
            assert(b.take(i) =~= a.take(i));
            assert(b.take(n) =~= a.take(n));
            assert(b.subrange(i, n) =~= a.subrange(i, n));
        } else {
            assert(c.rest.skip(n).len() == c.rest.len() - n);
        }
        assert(d.rest.skip(n) =~= c.rest.skip(n) + more);
    }
}

/// A step that did not run out of bytes is the step that is taken whatever bytes
/// follow: the same effect, the same stack and index, and the bytes that
/// follow left behind what the step left. So a run over an input that comes in
/// pieces, which waits only where a step runs out of bytes, does what the run
/// over the whole input does.
pub proof fn step_is_settled(m: Machine, more: Seq<u8>)
    requires
        !starved(m, false),
    ensures
        (Machine { input: longer(m.input, more), ..m }).step() == (
            Machine { input: longer(m.step().0.input, more), ..m.step().0 },
            m.step().1,
        ),
{
    if m.ip < m.code.len() {
        match m.code[m.ip as int] {
            SpecOp::ReadString => {
                read_string_is_settled(m.input, more);
            },
            SpecOp::ReadNum => {
                read_num_is_settled(m.input, more);
            },
            SpecOp::ReadLine => {
                read_line_is_settled(m.input, more);
            },
            _ => {},
        }
    }
}

} // verus!
