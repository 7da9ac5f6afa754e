use stackvm::interpreter::{run, step, step_on, Exit, Regs, Report, Step};
use stackvm::parser::{compile_on, Error, Parser, UCode, UOps, Value, ValueType};
use stackvm::tokenizer::{Mark, Tokenizer};

fn run_ops(uops: Vec<UOps>, input: &str) -> Report {
    let mut toks = Tokenizer::new(input.as_bytes());
    run(UCode { uops, tokenizer: &mut toks }, 10_000)
}

fn run_text(input: &str) -> Result<Report, Error> {
    let mut toks = Tokenizer::new(input.as_bytes());
    let mut parser = Parser::new(&mut toks);
    let ucode = parser.compile()?;
    Ok(run(ucode, 100_000))
}

fn prints(input: &str) -> Vec<String> {
    let report = run_text(input).unwrap();
    assert!(matches!(report.exit, Exit::Halted), "{:?}", report.exit);
    report.output
}

fn one_step(op: UOps, stack: Vec<Value>) -> (Step, Vec<Value>, usize) {
    let mut toks = Tokenizer::new(b"");
    let mut stack = stack;
    let mut regs = Regs { ip: 0 };
    let r = step(&vec![op], &mut toks, &mut stack, &mut regs);
    (r, stack, regs.ip)
}

fn text(s: &str) -> Value {
    Value::String(s.to_string())
}

#[test]
fn add_prints_the_sum() {
    assert_eq!(prints("add 1 2 3\n"), vec!["6"]);
    assert_eq!(prints("+ 1 2 3\n"), vec!["6"]);
    assert_eq!(prints("add   10\t20\r\n30  \n"), vec!["60"]);
    assert_eq!(prints("add 007 1 \n"), vec!["8"]);
}

#[test]
fn mul_prints_the_product() {
    assert_eq!(prints("mul 2 3 4\n"), vec!["24"]);
    assert_eq!(prints("* 2 3 4\n"), vec!["24"]);
    assert_eq!(prints("mul 5 0 7 \n"), vec!["0"]);
    assert_eq!(prints("mul 4294967296 4294967295\n"), vec!["18446744069414584320"]);
}

#[test]
fn add_without_numbers_prints_zero() {
    assert_eq!(prints("add\n"), vec!["0"]);
    assert_eq!(prints("add  \n \n"), vec!["0"]);
}

#[test]
fn mul_without_numbers_prints_one() {
    assert_eq!(prints("mul\n"), vec!["1"]);
    assert_eq!(prints("* "), vec!["1"]);
}

#[test]
fn a_number_that_ends_the_input_is_not_read() {
    assert_eq!(prints("add 1 2 3"), vec!["3"]);
    assert_eq!(prints("mul 2 3 4"), vec!["6"]);
}

#[test]
fn add_stops_at_what_is_no_number() {
    assert_eq!(prints("add 1 2 x 5\n"), vec!["3"]);
    assert_eq!(prints("add 1 99999999999999999999 5\n"), vec!["1"]);
}

#[test]
fn add_overflow_is_a_fault() {
    let report = run_text("add 18446744073709551615 1\n").unwrap();
    assert!(report.output.is_empty());
    match report.exit {
        Exit::Fault(f) => {
            assert!(matches!(f.op, UOps::Add));
            assert_eq!(f.stack, vec![ValueType::Num, ValueType::Num]);
        }
        other => panic!("{:?}", other),
    }
}

#[test]
fn mul_overflow_is_a_fault() {
    let report = run_text("mul 4294967296 4294967296\n").unwrap();
    assert!(report.output.is_empty());
    match report.exit {
        Exit::Fault(f) => {
            assert!(matches!(f.op, UOps::Mul));
            assert_eq!(f.stack, vec![ValueType::Num, ValueType::Num]);
        }
        other => panic!("{:?}", other),
    }
}

#[test]
fn unknown_command_prints_nothing() {
    match run_text("div 1 2") {
        Err(Error::UnknownOperation { op, .. }) => assert_eq!(op, "div"),
        Err(other) => panic!("{:?}", other),
        Ok(report) => panic!("{:?}", report),
    }
}

#[test]
fn join_puts_the_first_word_between_the_lines() {
    assert_eq!(prints("join ,\nx\ny\nz\n"), vec!["x,y,z"]);
    assert_eq!(prints("join - this is dropped\none\ntwo\n"), vec!["one-two"]);
    assert_eq!(prints("join\na\nb\nc\n"), vec!["bac"]);
    assert_eq!(prints("join \", \"\nx\ny\n"), vec!["x, y"]);
}

#[test]
fn join_of_one_line_and_of_none() {
    assert_eq!(prints("join ,\nonly\n"), vec!["only"]);
    assert_eq!(prints("join ,\n"), vec![""]);
    // The last line has no line feed: it is lost.
    assert_eq!(prints("join ,\nx\ny"), vec!["x"]);
}

#[test]
fn join_without_a_word_is_a_fault() {
    let report = run_text("join\n").unwrap();
    assert!(report.output.is_empty());
    match report.exit {
        Exit::Fault(f) => {
            assert!(matches!(f.op, UOps::Pop));
            assert!(f.stack.is_empty());
        }
        other => panic!("{:?}", other),
    }
}

#[test]
fn empty_program_halts_at_once() {
    let report = run_ops(vec![], "whatever");
    assert!(matches!(report.exit, Exit::Halted));
    assert!(report.output.is_empty());
}

#[test]
fn run_stops_when_the_steps_are_used_up() {
    let mut toks = Tokenizer::new(b"");
    // The jump lands on the second instruction, so the loop never ends.
    let uops = vec![
        UOps::Push(Value::Num(0)),
        UOps::Push(Value::Num(1)),
        UOps::Print,
        UOps::JmpRel(-3),
    ];
    let report = run(UCode { uops, tokenizer: &mut toks }, 8);
    assert!(matches!(report.exit, Exit::OutOfSteps));
    assert_eq!(report.output, vec!["1", "1"]);
    let mut toks = Tokenizer::new(b"");
    let report = run(UCode { uops: vec![UOps::JmpRel(-1)], tokenizer: &mut toks }, 0);
    assert!(matches!(report.exit, Exit::OutOfSteps));
}

#[test]
fn print_writes_numbers_in_decimal_and_texts_as_they_are() {
    let report = run_ops(
        vec![
            UOps::Push(Value::Num(1234)),
            UOps::Print,
            UOps::Push(text("  as is ")),
            UOps::Print,
        ],
        "",
    );
    assert!(matches!(report.exit, Exit::Halted));
    assert_eq!(report.output, vec!["1234", "  as is "]);
}

#[test]
fn jump_offsets_count_from_the_jump_and_one_more_is_added() {
    // JmpRel(1) at 0 lands on 2.
    let report = run_ops(
        vec![
            UOps::JmpRel(1),
            UOps::Push(Value::Num(1)),
            UOps::Push(Value::Num(2)),
            UOps::Print,
        ],
        "",
    );
    assert_eq!(report.output, vec!["2"]);
    let (r, _, ip) = one_step(UOps::JmpRel(0), vec![]);
    assert!(matches!(r, Step::Continue));
    assert_eq!(ip, 1);
}

#[test]
fn a_jump_before_the_start_lands_on_the_second_instruction() {
    let (r, _, ip) = one_step(UOps::JmpRel(-100), vec![]);
    assert!(matches!(r, Step::Continue));
    assert_eq!(ip, 1);
    let (r, _, ip) = one_step(UOps::JmpRel(isize::MAX), vec![]);
    assert!(matches!(r, Step::Continue));
    assert_eq!(ip, isize::MAX as usize + 1);
}

#[test]
fn jmprelz_jumps_on_zero() {
    let (r, stack, ip) = one_step(UOps::JmpRelZ(5), vec![Value::Num(9), Value::Num(0)]);
    assert!(matches!(r, Step::Continue));
    assert_eq!(stack, vec![Value::Num(9)]);
    assert_eq!(ip, 6);
}

#[test]
fn jmprelz_goes_on_after_another_number() {
    let (r, stack, ip) = one_step(UOps::JmpRelZ(5), vec![Value::Num(9), Value::Num(3)]);
    assert!(matches!(r, Step::Continue));
    assert_eq!(stack, vec![Value::Num(9)]);
    assert_eq!(ip, 1);
}

#[test]
fn jmprelz_faults_on_a_text_and_on_an_empty_stack() {
    let (r, stack, ip) = one_step(UOps::JmpRelZ(5), vec![Value::Num(0), text("0")]);
    match r {
        Step::Fault(f) => {
            assert!(matches!(f.op, UOps::JmpRelZ(5)));
            assert_eq!(f.stack, vec![ValueType::Num, ValueType::String]);
        }
        other => panic!("{:?}", other),
    }
    assert_eq!(stack, vec![Value::Num(0), text("0")]);
    assert_eq!(ip, 0);
    let (r, _, ip) = one_step(UOps::JmpRelZ(5), vec![]);
    assert!(matches!(r, Step::Fault(_)));
    assert_eq!(ip, 0);
}

#[test]
fn swap_zero_changes_nothing() {
    let (r, stack, ip) = one_step(UOps::Swap(0), vec![Value::Num(1), text("b")]);
    assert!(matches!(r, Step::Continue));
    assert_eq!(stack, vec![Value::Num(1), text("b")]);
    assert_eq!(ip, 1);
    let (r, stack, _) = one_step(UOps::Swap(0), vec![]);
    assert!(matches!(r, Step::Continue));
    assert!(stack.is_empty());
}

#[test]
fn swap_exchanges_the_top_with_the_value_below() {
    let start = vec![Value::Num(1), Value::Num(2), Value::Num(3), Value::Num(4)];
    let (_, stack, _) = one_step(UOps::Swap(1), start.clone());
    assert_eq!(stack, vec![Value::Num(1), Value::Num(2), Value::Num(4), Value::Num(3)]);
    let (_, stack, _) = one_step(UOps::Swap(3), start.clone());
    assert_eq!(stack, vec![Value::Num(4), Value::Num(2), Value::Num(3), Value::Num(1)]);
}

#[test]
fn swap_twice_restores_the_stack() {
    let start = vec![text("a"), Value::Num(2), text("c")];
    for n in 1..3 {
        let (_, once, _) = one_step(UOps::Swap(n), start.clone());
        assert_ne!(once, start);
        let (_, twice, _) = one_step(UOps::Swap(n), once);
        assert_eq!(twice, start);
    }
}

#[test]
fn swap_too_deep_is_a_fault() {
    let (r, stack, ip) = one_step(UOps::Swap(2), vec![Value::Num(1), Value::Num(2)]);
    match r {
        Step::Fault(f) => {
            assert!(matches!(f.op, UOps::Swap(2)));
            assert_eq!(f.stack, vec![ValueType::Num, ValueType::Num]);
        }
        other => panic!("{:?}", other),
    }
    assert_eq!(stack, vec![Value::Num(1), Value::Num(2)]);
    assert_eq!(ip, 0);
}

#[test]
fn pop_dup_and_print_fault_on_an_empty_stack() {
    for op in [UOps::Pop, UOps::Dup, UOps::Print, UOps::Trim] {
        let (r, stack, ip) = one_step(op, vec![]);
        assert!(matches!(r, Step::Fault(_)));
        assert!(stack.is_empty());
        assert_eq!(ip, 0);
    }
}

#[test]
fn pop_and_dup() {
    let (_, stack, _) = one_step(UOps::Pop, vec![Value::Num(1), text("x")]);
    assert_eq!(stack, vec![Value::Num(1)]);
    let (_, stack, _) = one_step(UOps::Dup, vec![Value::Num(1), text("x")]);
    assert_eq!(stack, vec![Value::Num(1), text("x"), text("x")]);
}

#[test]
fn trim_strips_the_text_on_top() {
    let (r, stack, ip) = one_step(UOps::Trim, vec![Value::Num(1), text(" \t padded\n")]);
    assert!(matches!(r, Step::Continue));
    assert_eq!(stack, vec![Value::Num(1), text("padded")]);
    assert_eq!(ip, 1);
    let (_, again, _) = one_step(UOps::Trim, stack.clone());
    assert_eq!(again, stack);
}

#[test]
fn trim_faults_on_a_number() {
    let (r, stack, _) = one_step(UOps::Trim, vec![Value::Num(1)]);
    assert!(matches!(r, Step::Fault(_)));
    assert_eq!(stack, vec![Value::Num(1)]);
}

#[test]
fn add_numbers_and_texts() {
    let (_, stack, _) = one_step(UOps::Add, vec![Value::Num(9), Value::Num(40), Value::Num(2)]);
    assert_eq!(stack, vec![Value::Num(9), Value::Num(42)]);
    // The deeper text comes first.
    let (_, stack, _) = one_step(UOps::Add, vec![text("deep"), text("top")]);
    assert_eq!(stack, vec![text("deeptop")]);
}

#[test]
fn add_faults_on_mixed_kinds_and_short_stacks() {
    for stack in [
        vec![Value::Num(1), text("a")],
        vec![text("a"), Value::Num(1)],
        vec![Value::Num(1)],
        vec![],
        vec![Value::Num(u64::MAX), Value::Num(1)],
    ] {
        let (r, after, ip) = one_step(UOps::Add, stack.clone());
        assert!(matches!(r, Step::Fault(_)));
        assert_eq!(after, stack);
        assert_eq!(ip, 0);
    }
}

#[test]
fn mul_numbers_only() {
    let (_, stack, _) = one_step(UOps::Mul, vec![Value::Num(6), Value::Num(7)]);
    assert_eq!(stack, vec![Value::Num(42)]);
    for stack in [
        vec![text("a"), text("b")],
        vec![Value::Num(1), text("a")],
        vec![Value::Num(1)],
        vec![Value::Num(u64::MAX), Value::Num(2)],
    ] {
        let (r, after, _) = one_step(UOps::Mul, stack.clone());
        assert!(matches!(r, Step::Fault(_)));
        assert_eq!(after, stack);
    }
}

#[test]
fn eq_compares_kind_and_content() {
    let (_, stack, _) = one_step(UOps::Eq, vec![Value::Num(7), Value::Num(5), Value::Num(5)]);
    assert_eq!(stack, vec![Value::Num(7), Value::Num(1)]);
    let (_, stack, _) = one_step(UOps::Eq, vec![text("a"), text("a")]);
    assert_eq!(stack, vec![Value::Num(1)]);
    let (_, stack, _) = one_step(UOps::Eq, vec![Value::Num(5), Value::Num(6)]);
    assert_eq!(stack, vec![Value::Num(0)]);
    let (_, stack, _) = one_step(UOps::Eq, vec![Value::Num(5), text("5")]);
    assert_eq!(stack, vec![Value::Num(0)]);
    let (_, stack, _) = one_step(UOps::Eq, vec![text("5"), Value::Num(5)]);
    assert_eq!(stack, vec![Value::Num(0)]);
    let (r, _, _) = one_step(UOps::Eq, vec![Value::Num(5)]);
    assert!(matches!(r, Step::Fault(_)));
}

#[test]
fn reads_push_the_value_and_the_flag() {
    let mut toks = Tokenizer::new(b"12 word rest of line\n");
    let uops = vec![UOps::ReadNum, UOps::ReadString, UOps::ReadLine, UOps::ReadNum];
    let mut stack = Vec::new();
    let mut regs = Regs { ip: 0 };
    assert!(matches!(step(&uops, &mut toks, &mut stack, &mut regs), Step::Continue));
    assert_eq!(stack, vec![Value::Num(12), Value::Num(1)]);
    stack.clear();
    assert!(matches!(step(&uops, &mut toks, &mut stack, &mut regs), Step::Continue));
    assert_eq!(stack, vec![text("word"), Value::Num(1)]);
    stack.clear();
    assert!(matches!(step(&uops, &mut toks, &mut stack, &mut regs), Step::Continue));
    assert_eq!(stack, vec![text(" rest of line"), Value::Num(1)]);
    stack.clear();
    assert!(matches!(step(&uops, &mut toks, &mut stack, &mut regs), Step::Continue));
    assert_eq!(stack, vec![Value::Num(0)]);
    assert_eq!(regs.ip, 4);
    assert!(matches!(step(&uops, &mut toks, &mut stack, &mut regs), Step::Halt));
    assert_eq!(regs.ip, 4);
}

#[test]
fn reads_at_the_end_push_the_flag_zero() {
    for op in [UOps::ReadNum, UOps::ReadString, UOps::ReadLine] {
        let (r, stack, ip) = one_step(op, vec![text("kept")]);
        assert!(matches!(r, Step::Continue));
        assert_eq!(stack, vec![text("kept"), Value::Num(0)]);
        assert_eq!(ip, 1);
    }
}

#[test]
fn push_copies_the_literal() {
    let (r, stack, ip) = one_step(UOps::Push(text("lit")), vec![Value::Num(1)]);
    assert!(matches!(r, Step::Continue));
    assert_eq!(stack, vec![Value::Num(1), text("lit")]);
    assert_eq!(ip, 1);
}

#[test]
fn swap_zero_between_pushes_and_prints_changes_no_output() {
    let values = [Value::Num(1), text("two"), Value::Num(3)];
    for k in 0..=values.len() {
        let pushes: Vec<UOps> = values[..k].iter().map(|v| UOps::Push(v.clone())).collect();
        let prints: Vec<UOps> = (0..k).map(|_| UOps::Print).collect();
        let plain = run_ops([pushes.clone(), prints.clone()].concat(), "");
        let swapped = run_ops([pushes, vec![UOps::Swap(0)], prints].concat(), "");
        assert!(matches!(plain.exit, Exit::Halted));
        assert!(matches!(swapped.exit, Exit::Halted));
        assert_eq!(swapped.output, plain.output);
        let expected: Vec<&str> = ["1", "two", "3"][..k].iter().rev().copied().collect();
        assert_eq!(plain.output, expected);
    }
}

#[test]
fn swap_twice_between_pushes_and_prints_changes_no_output() {
    let pushes: Vec<UOps> = (1..=4).map(|n| UOps::Push(Value::Num(n))).collect();
    let prints: Vec<UOps> = (0..4).map(|_| UOps::Print).collect();
    for n in 1..4 {
        let twice = vec![UOps::Swap(n), UOps::Swap(n)];
        let report = run_ops([pushes.clone(), twice, prints.clone()].concat(), "");
        assert!(matches!(report.exit, Exit::Halted));
        assert_eq!(report.output, vec!["4", "3", "2", "1"]);
        let once = vec![UOps::Swap(n)];
        let report = run_ops([pushes.clone(), once, prints.clone()].concat(), "");
        assert_ne!(report.output, vec!["4", "3", "2", "1"]);
    }
}

/// Runs the program of `text`, handing the input over in chunks of `size` bytes.
fn run_in_chunks(text: &str, size: usize) -> Result<(Vec<String>, Step, usize), Error> {
    let bytes = text.as_bytes();
    let mut at_hand = 0;
    let mut fetches = 0;
    let (uops, mut mark) = loop {
        match compile_on(&bytes[..at_hand], at_hand == bytes.len() && fetches > bytes.len()) {
            None => {
                at_hand = (at_hand + size).min(bytes.len());
                fetches += size;
            }
            Some(found) => break found?,
        }
    };
    let mut stack = Vec::new();
    let mut regs = Regs { ip: 0 };
    let mut output = Vec::new();
    loop {
        let complete = at_hand == bytes.len() && fetches > bytes.len();
        match step_on(&uops, &bytes[..at_hand], complete, &mut mark, &mut stack, &mut regs) {
            None => {
                assert!(!complete);
                at_hand = (at_hand + size).min(bytes.len());
                fetches += size;
            }
            Some(Step::Continue) => {}
            Some(Step::Print(line)) => output.push(line),
            Some(last) => return Ok((output, last, at_hand)),
        }
    }
}

#[test]
fn input_in_chunks_gives_what_the_whole_input_gives() {
    for text in [
        "add 1 2 3\n",
        "add 1 2 3",
        "mul 12 34 56 \n",
        "join , rest\nfirst line\nsecond\nthird\n",
        "add\n",
        "+ 18446744073709551615 1\n",
        "join\n",
    ] {
        let whole = run_text(text).unwrap();
        for size in [1, 2, 3, 7, 512] {
            let (output, last, _) = run_in_chunks(text, size).unwrap();
            assert_eq!(output, whole.output, "{:?} by {}", text, size);
            match (&whole.exit, &last) {
                (Exit::Halted, Step::Halt) => {}
                (Exit::Fault(a), Step::Fault(b)) => {
                    assert_eq!(format!("{:?}", a), format!("{:?}", b))
                }
                other => panic!("{:?}", other),
            }
        }
    }
}

#[test]
fn a_program_that_stops_early_does_not_wait_for_the_rest() {
    // The sum is known once `x` is read: the lines behind it are never asked for.
    let text = "add 1 2 x\nmore\nand more\n";
    let (output, last, at_hand) = run_in_chunks(text, 1).unwrap();
    assert_eq!(output, vec!["3"]);
    assert!(matches!(last, Step::Halt));
    assert_eq!(at_hand, "add 1 2 x".len());
}

#[test]
fn unknown_word_in_chunks() {
    match run_in_chunks("div 1 2", 2) {
        Err(Error::UnknownOperation { op, .. }) => assert_eq!(op, "div"),
        Err(other) => panic!("{:?}", other),
        Ok(found) => panic!("{:?}", found),
    }
    match run_in_chunks("add", 1) {
        Err(Error::UnexpectedToken { .. }) => {}
        Err(other) => panic!("{:?}", other),
        Ok(found) => panic!("{:?}", found),
    }
}

#[test]
fn step_on_waits_for_bytes_and_changes_nothing() {
    let uops = vec![UOps::ReadNum];
    let mut mark = Mark::start();
    let mut stack = vec![text("kept")];
    let mut regs = Regs { ip: 0 };
    assert!(step_on(&uops, b"12", false, &mut mark, &mut stack, &mut regs).is_none());
    assert_eq!(stack, vec![text("kept")]);
    assert_eq!(regs.ip, 0);
    let r = step_on(&uops, b"12 ", false, &mut mark, &mut stack, &mut regs);
    assert!(matches!(r, Some(Step::Continue)));
    assert_eq!(stack, vec![text("kept"), Value::Num(12), Value::Num(1)]);
    assert_eq!(regs.ip, 1);
    // The input must not shrink below what was read.
    assert!(step_on(&uops, b"1", true, &mut mark, &mut stack, &mut regs).is_none());
}

#[test]
fn step_on_takes_complete_input_as_it_is() {
    let uops = vec![UOps::ReadNum];
    let mut mark = Mark::start();
    let mut stack = Vec::new();
    let mut regs = Regs { ip: 0 };
    let r = step_on(&uops, b"12", true, &mut mark, &mut stack, &mut regs);
    assert!(matches!(r, Some(Step::Continue)));
    assert_eq!(stack, vec![Value::Num(0)]);
}
