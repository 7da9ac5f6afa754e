//! The interpreter: one instruction at a time over an operand stack, with the
//! lexer at hand for the instructions that read.

use crate::parser::{views, SpecOp, SpecValue, UCode, UOps, Value, ValueType};
use crate::text::{decimal, strip, to_decimal, trim};
use crate::tokenizer::{Cursor, Mark, SpecToken, Token, Tokenizer};
use vstd::prelude::*;

verus! {

/// The registers of the machine: the index of the next instruction.
#[derive(Debug)]
pub struct Regs {
    pub ip: usize,
}

/// The whole state of a run: the program, the operand stack with its top last,
/// the index of the next instruction, and the state of the lexer.
pub struct Machine {
    pub code: Seq<SpecOp>,
    pub stack: Seq<SpecValue>,
    pub ip: nat,
    pub input: Cursor,
}

/// What one step shows to the outside.
pub enum Effect {
    /// Nothing: the instruction only changed the state.
    Continue,
    /// A line to print.
    Print(Seq<char>),
    /// The index is past the last instruction: the run is over.
    Halt,
    /// The instruction cannot work on this stack; the state is unchanged.
    Fault,
}

/// `x` held to what an index can be.
pub open spec fn clip(x: int) -> nat {
    if x < 0 {
        0
    } else if x > usize::MAX {
        usize::MAX as nat
    } else {
        x as nat
    }
}

/// The number that stands for a truth value on the stack.
pub open spec fn flag(b: bool) -> SpecValue {
    SpecValue::Num(
        if b {
            1
        } else {
            0
        },
    )
}

/// What a read instruction pushes for the token it got: the value and the flag 1
/// for a value of the kind it asked for, the flag 0 alone for anything else.
pub open spec fn pushed(token: Result<SpecToken, Seq<char>>, want: ValueType) -> Seq<SpecValue> {
    match token {
        Ok(SpecToken::Value(v)) => if v.value_type() == want {
            seq![v, flag(true)]
        } else {
            seq![flag(false)]
        },
        _ => seq![flag(false)],
    }
}

/// The line that `Print` writes for a value: a number in decimal, a text as it is.
pub open spec fn printed(v: SpecValue) -> Seq<char> {
    match v {
        SpecValue::Num(n) => decimal(n as nat),
        SpecValue::Text(s) => s,
    }
}

/// The kinds of the values of a stack, in order.
pub open spec fn shape(stack: Seq<SpecValue>) -> Seq<ValueType> {
    Seq::new(stack.len(), |i: int| stack[i].value_type())
}

/// `stack` with its top and the value `n` places below it exchanged.
pub open spec fn swapped(stack: Seq<SpecValue>, n: nat) -> Seq<SpecValue>
    recommends
        n < stack.len(),
{
    let top = stack.len() - 1;
    stack.update(top, stack[top - n]).update(top - n, stack[top])
}

impl Machine {
    /// The state after an instruction that leaves `stack` and does not jump.
    pub open spec fn goes(self, stack: Seq<SpecValue>) -> Machine {
        Machine { stack, ip: self.ip + 1, ..self }
    }

    /// The state after an instruction that leaves `stack` and jumps by `offset`:
    /// the index moves by `offset`, held to what an index can be, and then one
    /// further, as after every instruction.
    pub open spec fn jumps(self, stack: Seq<SpecValue>, offset: int) -> Machine {
        Machine { stack, ip: clip(clip(self.ip + offset) as int + 1), ..self }
    }

    /// The state after a read instruction that got `token` and left the lexer in
    /// `input`.
    pub open spec fn reads(
        self,
        token: Result<SpecToken, Seq<char>>,
        input: Cursor,
        want: ValueType,
    ) -> Machine {
        Machine { stack: self.stack + pushed(token, want), ip: self.ip + 1, input, ..self }
    }

    /// What the instruction `op` does in this state: the state that follows, and
    /// what shows. An instruction that cannot work on the stack is a fault and
    /// leaves the state as it is.
    pub open spec fn perform(self, op: SpecOp) -> (Machine, Effect) {
        let s = self.stack;
        let n = s.len() as int;
        match op {
            SpecOp::Push(v) => (self.goes(s.push(v)), Effect::Continue),
            SpecOp::Pop => if n >= 1 {
                (self.goes(s.drop_last()), Effect::Continue)
            } else {
                (self, Effect::Fault)
            },
            SpecOp::JmpRelZ(offset) => if n >= 1 && s.last() is Num {
                if s.last()->Num_0 == 0 {
                    (self.jumps(s.drop_last(), offset), Effect::Continue)
                } else {
                    (self.goes(s.drop_last()), Effect::Continue)
                }
            } else {
                (self, Effect::Fault)
            },
            SpecOp::JmpRel(offset) => (self.jumps(s, offset), Effect::Continue),
            SpecOp::Swap(k) => if k == 0 {
                (self.goes(s), Effect::Continue)
            } else if n > k {
                (self.goes(swapped(s, k)), Effect::Continue)
            } else {
                (self, Effect::Fault)
            },
            SpecOp::ReadString => {
                let l = self.input.read_string();
                (self.reads(l.token, l.cursor, ValueType::String), Effect::Continue)
            },
            SpecOp::ReadNum => {
                let l = self.input.read_num();
                (self.reads(l.token, l.cursor, ValueType::Num), Effect::Continue)
            },
            SpecOp::ReadLine => {
                let l = self.input.read_line();
                (self.reads(l.token, l.cursor, ValueType::String), Effect::Continue)
            },
            SpecOp::Dup => if n >= 1 {
                (self.goes(s.push(s.last())), Effect::Continue)
            } else {
                (self, Effect::Fault)
            },
            SpecOp::Trim => if n >= 1 && s.last() is Text {
                (
                    self.goes(s.drop_last().push(SpecValue::Text(strip(s.last()->Text_0)))),
                    Effect::Continue,
                )
            } else {
                (self, Effect::Fault)
            },
            SpecOp::Add => if n >= 2 {
                match (s[n - 2], s[n - 1]) {
                    (SpecValue::Num(a), SpecValue::Num(b)) => if a + b <= u64::MAX {
                        (
                            self.goes(s.take(n - 2).push(SpecValue::Num((a + b) as u64))),
                            Effect::Continue,
                        )
                    } else {
                        (self, Effect::Fault)
                    },
                    (SpecValue::Text(a), SpecValue::Text(b)) => (
                        self.goes(s.take(n - 2).push(SpecValue::Text(a + b))),
                        Effect::Continue,
                    ),
                    _ => (self, Effect::Fault),
                }
            } else {
                (self, Effect::Fault)
            },
            SpecOp::Mul => if n >= 2 {
                match (s[n - 2], s[n - 1]) {
                    (SpecValue::Num(a), SpecValue::Num(b)) => if a * b <= u64::MAX {
                        (
                            self.goes(s.take(n - 2).push(SpecValue::Num((a * b) as u64))),
                            Effect::Continue,
                        )
                    } else {
                        (self, Effect::Fault)
                    },
                    _ => (self, Effect::Fault),
                }
            } else {
                (self, Effect::Fault)
            },
            SpecOp::Eq => if n >= 2 {
                (self.goes(s.take(n - 2).push(flag(s[n - 2] == s[n - 1]))), Effect::Continue)
            } else {
                (self, Effect::Fault)
            },
            SpecOp::Print => if n >= 1 {
                (self.goes(s.drop_last()), Effect::Print(printed(s.last())))
            } else {
                (self, Effect::Fault)
            },
        }
    }

    /// One step: past the last instruction the run is over; else the instruction
    /// at the index is performed.
    pub open spec fn step(self) -> (Machine, Effect) {
        if self.ip >= self.code.len() {
            (self, Effect::Halt)
        } else {
            self.perform(self.code[self.ip as int])
        }
    }
}

/// How a run stands after some steps.
pub enum Ending {
    /// The index went past the last instruction.
    Halted,
    /// An instruction could not work on the stack.
    Fault,
    /// The steps were used up before either.
    OutOfSteps,
}

/// A run of some steps: the state it reached, the lines it printed in order, and
/// how it stands.
pub struct Trace {
    pub machine: Machine,
    pub output: Seq<Seq<char>>,
    pub ending: Ending,
}

impl Machine {
    /// The state in which the program `code` starts on a lexer in state `input`.
    pub open spec fn start(code: Seq<SpecOp>, input: Cursor) -> Machine {
        Machine { code, stack: Seq::empty(), ip: 0, input }
    }

    /// The run of at most `steps` steps from this state.
    pub open spec fn run(self, steps: nat) -> Trace
        decreases steps,
    {
        if steps == 0 {
            Trace { machine: self, output: Seq::empty(), ending: Ending::OutOfSteps }
        } else {
            let (next, effect) = self.step();
            match effect {
                Effect::Halt => Trace {
                    machine: self,
                    output: Seq::empty(),
                    ending: Ending::Halted,
                },
                Effect::Fault => Trace {
                    machine: self,
                    output: Seq::empty(),
                    ending: Ending::Fault,
                },
                Effect::Continue => next.run((steps - 1) as nat),
                Effect::Print(line) => {
                    let rest = next.run((steps - 1) as nat);
                    Trace { output: seq![line] + rest.output, ..rest }
                },
            }
        }
    }
}

/// An instruction that could not work: the instruction, and the kinds of the
/// values that the stack held, bottom first.
#[derive(Debug)]
pub struct RuntimeFault {
    pub op: UOps,
    pub stack: Vec<ValueType>,
}

/// What one step of the interpreter hands to its caller.
#[derive(Debug)]
pub enum Step {
    Continue,
    Print(String),
    Halt,
    Fault(RuntimeFault),
}

impl View for Step {
    type V = Effect;

    open spec fn view(&self) -> Effect {
        match self {
            Step::Continue => Effect::Continue,
            Step::Print(line) => Effect::Print(line@),
            Step::Halt => Effect::Halt,
            Step::Fault(_) => Effect::Fault,
        }
    }
}

/// The state that the parts of a run stand for.
pub open spec fn machine(
    uops: &Vec<UOps>,
    tokenizer: &Tokenizer,
    stack: &Vec<Value>,
    regs: &Regs,
) -> Machine {
    Machine { code: views(uops@), stack: views(stack@), ip: regs.ip as nat, input: tokenizer@ }
}

/// The fault of `op` on `stack`.
fn fault(op: &UOps, stack: &Vec<Value>) -> (r: Step)
    ensures
        r matches Step::Fault(f) && f.op@ == op@ && f.stack@ == shape(views(stack@)),
{
    let mut kinds: Vec<ValueType> = Vec::new();
    let mut i: usize = 0;
    while i < stack.len()
        invariant
            i <= stack.len(),
            kinds@ == shape(views(stack@)).take(i as int),
        decreases stack.len() - i,
    {
        kinds.push(stack[i].value_type());
        i += 1;
        assert(kinds@ =~= shape(views(stack@)).take(i as int));
    }
    assert(kinds@ =~= shape(views(stack@)));
    Step::Fault(RuntimeFault { op: op.clone(), stack: kinds })
}

/// The index after an instruction at `ip` that jumps by `offset`.
fn jump(ip: usize, offset: isize) -> (r: usize)
    ensures
        r == clip(clip(ip + offset) as int + 1),
{
    let target = match ip.checked_add_signed(offset) {
        Some(target) => target,
        None => if offset < 0 {
            0
        } else {
            usize::MAX
        },
    };
    target.saturating_add(1)
}

/// Whether `r` and the stack `after` are what performing `op` in state `m` gives,
/// for an instruction that does not jump and does not read.
spec fn went(m: Machine, op: SpecOp, after: Seq<SpecValue>, r: Step) -> bool {
    match r {
        Step::Continue => m.perform(op) == (m.goes(after), Effect::Continue),
        Step::Print(line) => m.perform(op) == (m.goes(after), Effect::Print(line@)),
        Step::Fault(f) => m.perform(op) == (m, Effect::Fault) && after == m.stack && f.op@ == op
            && f.stack@ == shape(m.stack),
        Step::Halt => false,
    }
}

/// Performs `Push`, `Pop`, `Dup` or `Swap` on `stack`.
fn move_values(op: &UOps, stack: &mut Vec<Value>, Ghost(m): Ghost<Machine>) -> (r: Step)
    requires
        m.stack == views(old(stack)@),
        op is Push || op is Pop || op is Dup || op is Swap,
    ensures
        went(m, op@, views(final(stack)@), r),
{
    let n = stack.len();
    match op {
        UOps::Push(value) => {
            stack.push(value.clone());
            assert(views(stack@) =~= m.stack.push(value@));
        },
        UOps::Pop => {
            if n == 0 {
                return fault(op, stack);
            }
            stack.pop();
            assert(views(stack@) =~= m.stack.drop_last());
        },
        UOps::Dup => {
            if n == 0 {
                return fault(op, stack);
            }
            let copy = stack[n - 1].clone();
            stack.push(copy);
            assert(views(stack@) =~= m.stack.push(m.stack.last()));
        },
        UOps::Swap(k) => {
            if *k != 0 {
                if n <= *k {
                    return fault(op, stack);
                }
                match stack.pop() {
                    Some(x) => {
                        let mut x = x;
                        let l = stack.len();
                        core::mem::swap(&mut stack[l - *k], &mut x);
                        stack.push(x);
                        assert(views(stack@) =~= swapped(m.stack, *k as nat));
                    },
                    None => {},
                }
            }
        },
        _ => {},
    }
    Step::Continue
}

/// Performs `JmpRelZ` or `JmpRel`.
fn move_index(op: &UOps, stack: &mut Vec<Value>, regs: &mut Regs, Ghost(m): Ghost<Machine>) -> (r:
    Step)
    requires
        m.stack == views(old(stack)@),
        m.ip == old(regs).ip,
        m.ip < usize::MAX,
        op is JmpRelZ || op is JmpRel,
    ensures
        match r {
            Step::Continue => m.perform(op@) == (
                Machine { stack: views(final(stack)@), ip: final(regs).ip as nat, ..m },
                Effect::Continue,
            ),
            Step::Fault(f) => m.perform(op@) == (m, Effect::Fault) && final(stack)@ == old(stack)@
                && final(regs).ip == old(regs).ip && f.op@ == op@ && f.stack@ == shape(m.stack),
            _ => false,
        },
{
    let n = stack.len();
    let ip = regs.ip;
    match op {
        UOps::JmpRelZ(offset) => {
            if n == 0 {
                return fault(op, stack);
            }
            match &stack[n - 1] {
                Value::Num(v) => {
                    let zero = *v == 0;
                    stack.pop();
                    assert(views(stack@) =~= m.stack.drop_last());
                    regs.ip = if zero {
                        jump(ip, *offset)
                    } else {
                        ip + 1
                    };
                },
                Value::String(_) => {
                    return fault(op, stack);
                },
            }
        },
        UOps::JmpRel(offset) => {
            regs.ip = jump(ip, *offset);
        },
        _ => {},
    }
    Step::Continue
}

/// Performs `ReadString`, `ReadNum` or `ReadLine`.
fn read_value(
    op: &UOps,
    tokenizer: &mut Tokenizer,
    stack: &mut Vec<Value>,
    Ghost(m): Ghost<Machine>,
)
    requires
        m.stack == views(old(stack)@),
        m.input == old(tokenizer)@,
        op is ReadString || op is ReadNum || op is ReadLine,
    ensures
        m.perform(op@) == (
            Machine {
                stack: views(final(stack)@),
                ip: m.ip + 1,
                input: final(tokenizer)@,
                ..m
            },
            Effect::Continue,
        ),
        old(tokenizer)@.bounded() ==> final(tokenizer)@.bounded(),
        final(tokenizer).input() == old(tokenizer).input(),
{
    match op {
        UOps::ReadString => {
            match tokenizer.read_string() {
                Ok((Token::Value(Value::String(text)), _)) => {
                    stack.push(Value::String(text));
                    stack.push(Value::Num(1));
                },
                _ => {
                    stack.push(Value::Num(0));
                },
            }
            assert(views(stack@) =~= m.stack + pushed(
                m.input.read_string().token,
                ValueType::String,
            ));
        },
        UOps::ReadNum => {
            match tokenizer.read_num() {
                Ok((Token::Value(Value::Num(v)), _)) => {
                    stack.push(Value::Num(v));
                    stack.push(Value::Num(1));
                },
                _ => {
                    stack.push(Value::Num(0));
                },
            }
            assert(views(stack@) =~= m.stack + pushed(m.input.read_num().token, ValueType::Num));
        },
        UOps::ReadLine => {
            match tokenizer.read_line() {
                Ok((Token::Value(Value::String(text)), _)) => {
                    stack.push(Value::String(text));
                    stack.push(Value::Num(1));
                },
                _ => {
                    stack.push(Value::Num(0));
                },
            }
            assert(views(stack@) =~= m.stack + pushed(
                m.input.read_line().token,
                ValueType::String,
            ));
        },
        _ => {},
    }
}

/// Performs `Trim`, `Add`, `Mul` or `Eq` on `stack`.
fn compute(op: &UOps, stack: &mut Vec<Value>, Ghost(m): Ghost<Machine>) -> (r: Step)
    requires
        m.stack == views(old(stack)@),
        op is Trim || op is Add || op is Mul || op is Eq,
    ensures
        went(m, op@, views(final(stack)@), r),
{
    let n = stack.len();
    match op {
        UOps::Trim => {
            if n == 0 {
                return fault(op, stack);
            }
            match &stack[n - 1] {
                Value::String(text) => {
                    let trimmed = trim(text.as_str());
                    stack.pop();
                    stack.push(Value::String(trimmed));
                    assert(views(stack@) =~= m.stack.drop_last().push(
                        SpecValue::Text(strip(m.stack.last()->Text_0)),
                    ));
                },
                Value::Num(_) => {
                    return fault(op, stack);
                },
            }
        },
        UOps::Add => {
            if n < 2 {
                return fault(op, stack);
            }
            let sum = match (&stack[n - 2], &stack[n - 1]) {
                (Value::Num(a), Value::Num(b)) => match a.checked_add(*b) {
                    Some(sum) => Some(Value::Num(sum)),
                    None => None,
                },
                (Value::String(a), Value::String(b)) => Some(
                    Value::String(a.clone().concat(b.as_str())),
                ),
                _ => None,
            };
            match sum {
                Some(sum) => {
                    stack.pop();
                    stack.pop();
                    stack.push(sum);
                    assert(views(stack@) =~= m.stack.take(n - 2).push(sum@));
                },
                None => {
                    return fault(op, stack);
                },
            }
        },
        UOps::Mul => {
            if n < 2 {
                return fault(op, stack);
            }
            let product = match (&stack[n - 2], &stack[n - 1]) {
                (Value::Num(a), Value::Num(b)) => a.checked_mul(*b),
                _ => None,
            };
            match product {
                Some(product) => {
                    stack.pop();
                    stack.pop();
                    stack.push(Value::Num(product));
                    assert(views(stack@) =~= m.stack.take(n - 2).push(SpecValue::Num(product)));
                },
                None => {
                    return fault(op, stack);
                },
            }
        },
        UOps::Eq => {
            if n < 2 {
                return fault(op, stack);
            }
            let same = stack[n - 2] == stack[n - 1];
            stack.pop();
            stack.pop();
            stack.push(
                Value::Num(
                    if same {
                        1
                    } else {
                        0
                    },
                ),
            );
            assert(views(stack@) =~= m.stack.take(n - 2).push(flag(same)));
        },
        _ => {},
    }
    Step::Continue
}

/// Performs `Print`: takes the top of `stack` and gives the line to print.
fn print(op: &UOps, stack: &mut Vec<Value>, Ghost(m): Ghost<Machine>) -> (r: Step)
    requires
        m.stack == views(old(stack)@),
        op is Print,
    ensures
        went(m, op@, views(final(stack)@), r),
{
    let line = match stack.pop() {
        Some(Value::Num(v)) => to_decimal(v),
        Some(Value::String(text)) => text,
        None => {
            return fault(op, stack);
        },
    };
    assert(views(stack@) =~= m.stack.drop_last());
    Step::Print(line)
}

/// Runs one instruction of `uops`: the one at `regs.ip`, on `stack`, reading
/// from `tokenizer` where the instruction reads. Past the last instruction it
/// reports `Halt`. Where the instruction cannot work on the stack it reports the
/// fault and changes nothing.
pub fn step(
    uops: &Vec<UOps>,
    tokenizer: &mut Tokenizer,
    stack: &mut Vec<Value>,
    regs: &mut Regs,
) -> (r: Step)
    ensures
        machine(uops, final(tokenizer), final(stack), final(regs)) == machine(
            uops,
            old(tokenizer),
            old(stack),
            old(regs),
        ).step().0,
        r@ == machine(uops, old(tokenizer), old(stack), old(regs)).step().1,
        r matches Step::Fault(f) ==> f.op@ == uops[old(regs).ip as int]@ && f.stack@ == shape(
            views(old(stack)@),
        ),
        old(tokenizer)@.bounded() ==> final(tokenizer)@.bounded(),
        final(tokenizer).input() == old(tokenizer).input(),
{
    let ghost m = machine(uops, tokenizer, stack, regs);
    let ip = regs.ip;
    if ip >= uops.len() {
        return Step::Halt;
    }
    let op = &uops[ip];
    assert(m.code[ip as int] == op@);
    let r = match op {
        UOps::Push(_) | UOps::Pop | UOps::Dup | UOps::Swap(_) => move_values(op, stack, Ghost(m)),
        UOps::JmpRelZ(_) | UOps::JmpRel(_) => {
            return move_index(op, stack, regs, Ghost(m));
        },
        UOps::ReadString | UOps::ReadNum | UOps::ReadLine => {
            read_value(op, tokenizer, stack, Ghost(m));
            Step::Continue
        },
        UOps::Trim | UOps::Add | UOps::Mul | UOps::Eq => compute(op, stack, Ghost(m)),
        UOps::Print => print(op, stack, Ghost(m)),
    };
    match r {
        Step::Fault(f) => Step::Fault(f),
        r => {
            regs.ip = ip + 1;
            r
        },
    }
}

/// Whether a step from state `m` cannot be taken yet: it reads, and the read runs
/// out of bytes that are at hand while more may come.
pub open spec fn starved(m: Machine, complete: bool) -> bool {
    &&& !complete
    &&& !m.input.eof
    &&& m.step().0.input.eof
    &&& m.step().0.input.rest.len() == 0
}

/// A step that runs out of bytes is a read that got no token: all it did was to
/// push the flag 0 and to move on by one instruction.
proof fn lemma_starved_step(m: Machine)
    requires
        !m.input.eof,
        m.step().0.input.eof,
    ensures
        m.step().1 == Effect::Continue,
        m.step().0.stack == m.stack.push(flag(false)),
        m.step().0.ip == m.ip + 1,
{
    let op = m.code[m.ip as int];
    assert(op is ReadString || op is ReadNum || op is ReadLine);
    assert(m.step().0.stack =~= m.stack.push(flag(false)));
}

/// Runs one instruction as [`step`] does, over an input that may still grow:
/// `input` holds the bytes at hand, `complete` tells whether that is all there
/// will be, and `mark` is the place reached in it. Where the instruction reads
/// and the read runs out of the bytes at hand while more may come, nothing is
/// changed and nothing returned: the caller fetches more bytes and tries again
/// with the longer input. It does so too where `input` is shorter than what was
/// consumed up to `mark`.
pub fn step_on(
    uops: &Vec<UOps>,
    input: &[u8],
    complete: bool,
    mark: &mut Mark,
    stack: &mut Vec<Value>,
    regs: &mut Regs,
) -> (r: Option<Step>)
    ensures
        ({
            let m = Machine {
                code: views(uops@),
                stack: views(old(stack)@),
                ip: old(regs).ip as nat,
                input: old(mark).cursor(input@),
            };
            if old(mark).offset() > input@.len() || starved(m, complete) {
                &&& r is None
                &&& *final(mark) == *old(mark)
                &&& views(final(stack)@) == views(old(stack)@)
                &&& final(regs).ip == old(regs).ip
            } else {
                &&& r matches Some(step)
                &&& step@ == m.step().1
                &&& m.step().0 == (Machine {
                    code: views(uops@),
                    stack: views(final(stack)@),
                    ip: final(regs).ip as nat,
                    input: final(mark).cursor(input@),
                })
                &&& final(mark).offset() <= input@.len()
                &&& step matches Step::Fault(f) ==> f.op@ == uops[old(regs).ip as int]@ && f.stack@
                    == shape(views(old(stack)@))
            }
        }),
{
    let ip = regs.ip;
    let mut lexer = match Tokenizer::resume(input, *mark) {
        Some(lexer) => lexer,
        None => {
            return None;
        },
    };
    let ghost m = machine(uops, &lexer, stack, regs);
    let open = !complete && !lexer.at_eof();
    let r = step(uops, &mut lexer, stack, regs);
    if open && lexer.at_eof() && lexer.at_end() {
        let ghost after = stack@;
        proof {
            lemma_starved_step(m);
            assert(views(after) == m.stack.push(flag(false)));
            assert(after.len() == m.stack.len() + 1);
        }
        stack.pop();
        regs.ip = ip;
        assert(stack@ == after.drop_last());
        assert(views(stack@) =~= views(after).drop_last());
        assert(m.stack.push(flag(false)).drop_last() =~= m.stack);
        return None;
    }
    *mark = lexer.mark();
    Some(r)
}

/// How a run ended.
#[derive(Debug)]
pub enum Exit {
    /// The index went past the last instruction: the program is done.
    Halted,
    /// An instruction could not work on the stack.
    Fault(RuntimeFault),
    /// The program was still running when the steps were used up.
    OutOfSteps,
}

impl View for Exit {
    type V = Ending;

    open spec fn view(&self) -> Ending {
        match self {
            Exit::Halted => Ending::Halted,
            Exit::Fault(_) => Ending::Fault,
            Exit::OutOfSteps => Ending::OutOfSteps,
        }
    }
}

/// What a run leaves: the lines it printed, in order, and how it ended.
#[derive(Debug)]
pub struct Report {
    pub output: Vec<String>,
    pub exit: Exit,
}

/// Runs the program of `ucode` from its first instruction on an empty stack, for
/// at most `limit` steps, and collects the lines it prints.
#[verifier::loop_isolation(false)]
pub fn run(ucode: UCode, limit: usize) -> (r: Report)
    ensures
        ({
            let t = Machine::start(views(ucode.uops@), old(ucode.tokenizer)@).run(limit as nat);
            &&& views(r.output@) == t.output
            &&& r.exit@ == t.ending
            &&& final(ucode.tokenizer)@ == t.machine.input
            &&& old(ucode.tokenizer)@.bounded() ==> final(ucode.tokenizer)@.bounded()
            &&& r.exit matches Exit::Fault(f) ==> t.machine.ip < t.machine.code.len() && f.op@
                == t.machine.code[t.machine.ip as int] && f.stack@ == shape(t.machine.stack)
        }),
{
    let UCode { uops, tokenizer } = ucode;
    let mut stack: Vec<Value> = Vec::new();
    let mut regs = Regs { ip: 0 };
    let mut output: Vec<String> = Vec::new();
    let mut left = limit;
    let ghost t = machine(&uops, tokenizer, &stack, &regs).run(limit as nat);
    proof {
        assert(views(stack@) =~= Seq::<SpecValue>::empty());
        assert(views(output@) =~= Seq::<Seq<char>>::empty());
        assert(views(output@) + t.output =~= t.output);
    }
    while left > 0
        invariant
            views(output@) + machine(&uops, tokenizer, &stack, &regs).run(left as nat).output
                == t.output,
            machine(&uops, tokenizer, &stack, &regs).run(left as nat).machine == t.machine,
            machine(&uops, tokenizer, &stack, &regs).run(left as nat).ending == t.ending,
            old(ucode.tokenizer)@.bounded() ==> tokenizer@.bounded(),
        decreases left,
    {
        let ghost printed = views(output@);
        match step(&uops, tokenizer, &mut stack, &mut regs) {
            Step::Continue => {},
            Step::Print(line) => {
                output.push(line);
                proof {
                    let rest = machine(&uops, tokenizer, &stack, &regs).run(
                        (left - 1) as nat,
                    ).output;
                    assert(views(output@) =~= printed.push(line@));
                    assert(printed.push(line@) + rest =~= printed + (seq![line@] + rest));
                }
            },
            Step::Halt => {
                assert(printed + Seq::<Seq<char>>::empty() =~= printed);
                return Report { output, exit: Exit::Halted };
            },
            Step::Fault(f) => {
                assert(printed + Seq::<Seq<char>>::empty() =~= printed);
                return Report { output, exit: Exit::Fault(f) };
            },
        }
        left -= 1;
    }
    assert(views(output@) + Seq::<Seq<char>>::empty() =~= views(output@));
    Report { output, exit: Exit::OutOfSteps }
}

} // verus!
