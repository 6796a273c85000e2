use bfck::errors::{BUDGET_EXCEEDED, INPUT_ERROR, INVALID_CURSOR, OUTPUT_ERROR, OVERFLOW, STRUCTURAL_ERROR, UNDERFLOW};
use bfck::tape::wrap;
use bfck::{error_description, parse_bftext, Action, BFBox, BfProgramm, Op, Tape};

fn run_text(code: &str, input: &[u8], budget: u64) -> (Result<(), i16>, Vec<u8>) {
    let text = String::from(code);
    let mut bfck_box = match BFBox::with_budget(&text, budget) {
        Ok(b) => b,
        Err(e) => return (Err(e), Vec::new()),
    };
    let input: Vec<u8> = input.to_vec();
    let mut output: Vec<u8> = Vec::new();
    let r = bfck_box.run(&input, &mut output);
    (r, output)
}

#[test]
fn input_test() {
    let code = String::from(",+[-->++++[>++++++++<-]<[->+>-[>+>>]>[+[-<+>]>+>>]<<<<<<]>>[-]>>--[-[>-<[-]]]>+[-<+++++++++++++<[->-[>+>>]>[+[-<+>]>+>>]<<<<<]>[-]>[-]+>[<-->-[<+>-]]<[<<<<+++++++++++++>>>>-]]<<[-]<<+.[-]<,+]");
    let input = String::from("Slava Zipp");
    let read_buff: Vec<u8> = input.into_bytes();
    let mut write_buff: Vec<u8> = Vec::new();
    let mut bfck_box = match BFBox::new(&code) {
        Ok(b) => b,
        _ => {
            return assert!(false);
        },
    };
    let result = bfck_box.run(&read_buff, &mut write_buff);
    if let Err(x) = result {
        println!("Got error {}", x);
    }
    // the program asks for one more byte after the last one given, and a
    // read with nothing left is an input error
    assert_eq!(result, Err(INPUT_ERROR));
    let result_string = String::from_utf8(write_buff).unwrap();
    assert_eq!("Fynin Mvcc", result_string);
}

#[test]
fn read_then_increment_writes_next_byte() {
    let (r, out) = run_text(",+.", &[65], 1000);
    assert_eq!(r, Ok(()));
    assert_eq!(out, vec![66u8]);
}

#[test]
fn hello_world() {
    let code = "++++++++[>++++[>++>+++>+++>+<<<<-]>+>+>->>+[<]<-]>>.>---.+++++++..+++.>>.<-.<.+++.------.--------.>>+.>++.";
    let (r, out) = run_text(code, &[], 100_000);
    assert_eq!(r, Ok(()));
    assert_eq!(String::from_utf8(out).unwrap(), "Hello World!\n");
}

#[test]
fn infinite_loop_exceeds_budget() {
    let (r, out) = run_text("+[]", &[], 10_000);
    assert_eq!(r, Err(BUDGET_EXCEEDED));
    assert!(out.is_empty());
}

#[test]
fn increment_wraps_to_zero() {
    let mut plus = String::new();
    for _ in 0..256 {
        plus.push('+');
    }
    plus.push('.');
    let (r, out) = run_text(&plus, &[], 10_000);
    assert_eq!(r, Ok(()));
    assert_eq!(out, vec![0u8]);
    let mut tape = Tape::new();
    tape.write(255).unwrap();
    tape.add(1).unwrap();
    assert_eq!(tape.read(), 0);
}

#[test]
fn decrement_wraps_to_max() {
    let (r, out) = run_text("-.", &[], 100);
    assert_eq!(r, Ok(()));
    assert_eq!(out, vec![255u8]);
    let mut tape = Tape::new();
    tape.substract(1).unwrap();
    assert_eq!(tape.read(), 255);
}

#[test]
fn wrap_normalizes_signed_values() {
    assert_eq!(wrap(-1), 255);
    assert_eq!(wrap(256), 0);
    assert_eq!(wrap(300), 44);
    assert_eq!(wrap(-256), 0);
    assert_eq!(wrap(7), 7);
}

#[test]
fn move_left_from_start_underflows() {
    let (r, _) = run_text("+<", &[], 100);
    assert_eq!(r, Err(UNDERFLOW));
    let mut tape = Tape::new();
    tape.write(9).unwrap();
    assert_eq!(tape.left(1), Err(UNDERFLOW));
    assert_eq!(tape.read(), 9);
}

#[test]
fn move_right_past_last_cell_overflows() {
    let mut tape = Tape::new();
    assert_eq!(tape.right(29999), Ok(()));
    tape.write(3).unwrap();
    assert_eq!(tape.right(1), Err(OVERFLOW));
    assert_eq!(tape.read(), 3);
    let mut code = String::new();
    for _ in 0..30000 {
        code.push('>');
    }
    let (r, _) = run_text(&code, &[], 100);
    assert_eq!(r, Err(OVERFLOW));
}

#[test]
fn clear_loop_runs_cell_down() {
    for n in 0u32..256 {
        let mut code = String::new();
        for _ in 0..n {
            code.push('+');
        }
        code.push_str("[-].");
        // one fetch for the folded run of `+` (when there is one), 2n + 1 for
        // the loop, one for `.` and one for `End`
        let needed = if n == 0 { 3 } else { 2 * n as u64 + 4 };
        let (r, out) = run_text(&code, &[], needed);
        assert_eq!(r, Ok(()));
        assert_eq!(out, vec![0u8]);
        let (r, _) = run_text(&code, &[], needed - 1);
        assert_eq!(r, Err(BUDGET_EXCEEDED));
    }
}

#[test]
fn compile_folds_runs_and_pairs_brackets() {
    let ops = parse_bftext(&String::from("++ >>> x [-] <, .")).unwrap();
    assert_eq!(
        ops,
        vec![
            Op::Start,
            Op::Add(2),
            Op::Right(3),
            Op::Forward(5),
            Op::Substract(1),
            Op::Back(3),
            Op::Left(1),
            Op::In,
            Op::Out,
            Op::End,
        ]
    );
}

#[test]
fn compile_nested_loops() {
    let ops = parse_bftext(&String::from("[[]][]")).unwrap();
    assert_eq!(
        ops,
        vec![
            Op::Start,
            Op::Forward(4),
            Op::Forward(3),
            Op::Back(2),
            Op::Back(1),
            Op::Forward(6),
            Op::Back(5),
            Op::End,
        ]
    );
}

#[test]
fn compile_rejects_unmatched_brackets() {
    assert_eq!(parse_bftext(&String::from("[")), Err(STRUCTURAL_ERROR));
    assert_eq!(parse_bftext(&String::from("]")), Err(STRUCTURAL_ERROR));
    assert_eq!(parse_bftext(&String::from("[]][")), Err(STRUCTURAL_ERROR));
    assert!(BFBox::new(&String::from("+[")).is_err());
}

#[test]
fn empty_source_halts_at_once() {
    let ops = parse_bftext(&String::new()).unwrap();
    assert_eq!(ops, vec![Op::Start, Op::End]);
    let (r, out) = run_text("", &[], 1);
    assert_eq!(r, Ok(()));
    assert!(out.is_empty());
    let (r, _) = run_text("", &[], 0);
    assert_eq!(r, Err(BUDGET_EXCEEDED));
}

#[test]
fn reading_past_input_fails() {
    let (r, out) = run_text(",.,.", &[7], 100);
    assert_eq!(r, Err(INPUT_ERROR));
    assert_eq!(out, vec![7u8]);
}

#[test]
fn second_run_after_halt_reports_invalid_cursor() {
    let text = String::from("+.");
    let mut b = BFBox::new(&text).unwrap();
    let mut out: Vec<u8> = Vec::new();
    assert_eq!(b.run(&Vec::new(), &mut out), Ok(()));
    assert_eq!(b.run(&Vec::new(), &mut out), Err(bfck::errors::INVALID_CURSOR));
    assert_eq!(out, vec![1u8]);
}

#[test]
fn descriptions_of_codes() {
    assert_eq!(error_description(1), "Invalid bf source (Symbols [ and ] does not match)");
    assert_eq!(error_description(2), "Error writing to output stream");
    assert_eq!(error_description(3), "Error reading input stream");
    assert_eq!(error_description(4), "Invalid operation pointer");
    assert_eq!(error_description(5), "Attempt to write negative value");
    assert_eq!(error_description(6), "Addressing above 30000");
    assert_eq!(error_description(7), "Addressing below 0");
    assert_eq!(error_description(8), "Execution step budget exceeded");
    assert_eq!(error_description(0), "Unknown error");
    assert_eq!(error_description(-3), "Unknown error");
}

/// Drives a session, answering reads from `input` and accepting every write.
fn session(code: &str, input: &[u8], budget: u64) -> (Action, Vec<u8>) {
    let mut b = BFBox::new(&String::from(code)).unwrap();
    let mut fuel = budget;
    let mut taken = 0usize;
    let mut out: Vec<u8> = Vec::new();
    loop {
        match b.next_action(&mut fuel) {
            Action::Read => {
                let got = input.get(taken).copied();
                taken += 1;
                if let Err(e) = b.read_in(got) {
                    return (Action::Fail(e), out);
                }
            }
            Action::Write(v) => {
                out.push(v);
                b.write_out(1).unwrap();
            }
            other => return (other, out),
        }
    }
}

#[test]
fn next_passes_over_a_skipped_loop() {
    let mut p = BfProgramm::new(&String::from("[-]+")).unwrap();
    let mut fuel: u64 = 10;
    assert_eq!(p.next(0, &mut fuel), Some(Op::Add(1)));
    // the loop start is fetched and jumps onto its end; `+` is fetched next
    assert_eq!(fuel, 8);
    assert_eq!(p.next(0, &mut fuel), Some(Op::End));
    assert_eq!(p.next(0, &mut fuel), None);
}

#[test]
fn next_repeats_a_loop_body() {
    let mut p = BfProgramm::new(&String::from("+[-]")).unwrap();
    let mut fuel: u64 = 10;
    assert_eq!(p.next(0, &mut fuel), Some(Op::Add(1)));
    assert_eq!(p.next(1, &mut fuel), Some(Op::Substract(1)));
    assert_eq!(p.next(1, &mut fuel), Some(Op::Substract(1)));
    assert_eq!(p.next(0, &mut fuel), Some(Op::End));
    assert_eq!(fuel, 3);
}

#[test]
fn next_stops_when_fuel_is_spent() {
    let mut p = BfProgramm::new(&String::from("+[]")).unwrap();
    let mut fuel: u64 = 50;
    assert_eq!(p.next(0, &mut fuel), Some(Op::Add(1)));
    assert_eq!(p.next(1, &mut fuel), None);
    assert_eq!(fuel, 0);
}

#[test]
fn session_reads_and_writes_one_byte_at_a_time() {
    let (a, out) = session(",+.", &[65], 100);
    assert_eq!(a, Action::Halt);
    assert_eq!(out, vec![66u8]);
    let (a, out) = session(",+[-->++++[>++++++++<-]<[->+>-[>+>>]>[+[-<+>]>+>>]<<<<<<]>>[-]>>--[-[>-<[-]]]>+[-<+++++++++++++<[->-[>+>>]>[+[-<+>]>+>>]<<<<<]>[-]>[-]+>[<-->-[<+>-]]<[<<<<+++++++++++++>>>>-]]<<[-]<<+.[-]<,+]", b"Slava Zipp", 1_000_000);
    assert_eq!(a, Action::Fail(INPUT_ERROR));
    assert_eq!(out, b"Fynin Mvcc".to_vec());
}

#[test]
fn session_failed_write_is_output_error() {
    let mut b = BFBox::new(&String::from("+.+.")).unwrap();
    let mut fuel: u64 = 100;
    assert_eq!(b.next_action(&mut fuel), Action::Write(1));
    assert_eq!(b.write_out(0), Err(OUTPUT_ERROR));
    assert_eq!(b.write_out(2), Err(OUTPUT_ERROR));
    assert_eq!(b.write_out(1), Ok(()));
    assert_eq!(b.next_action(&mut fuel), Action::Write(2));
    assert_eq!(b.next_action(&mut fuel), Action::Halt);
    assert_eq!(b.next_action(&mut fuel), Action::Fail(INVALID_CURSOR));
}

#[test]
fn session_missing_byte_is_input_error() {
    let mut b = BFBox::new(&String::from(",.")).unwrap();
    let mut fuel: u64 = 100;
    assert_eq!(b.next_action(&mut fuel), Action::Read);
    assert_eq!(b.read_in(None), Err(INPUT_ERROR));
    let (a, out) = session("+,.", &[], 100);
    assert_eq!(a, Action::Fail(INPUT_ERROR));
    assert!(out.is_empty());
}

#[test]
fn session_budget_and_bounds() {
    let (a, _) = session("+[]", &[], 1000);
    assert_eq!(a, Action::Fail(BUDGET_EXCEEDED));
    let (a, _) = session("<", &[], 1000);
    assert_eq!(a, Action::Fail(UNDERFLOW));
}

#[test]
fn counting_loop_writes_each_value() {
    for n in 1u32..256 {
        let mut code = String::new();
        for _ in 0..n {
            code.push('+');
        }
        code.push_str("[-.]");
        let (r, out) = run_text(&code, &[], 10_000);
        assert_eq!(r, Ok(()));
        let expected: Vec<u8> = (0..n).rev().map(|v| v as u8).collect();
        assert_eq!(out, expected);
    }
}
