use bingbang::instruction::Instr;
use bingbang::interpret::{interpret_instructions, ErrKind, Flow, InstrTag, Io};
use bingbang::parse::parse_bng;
use bingbang::stackval::StackVal;

fn chars(s: &str) -> Vec<char> {
    s.chars().collect()
}

fn empty_io() -> Io {
    Io {
        input: vec![],
        output: vec![],
    }
}

fn text(out: &Vec<char>) -> String {
    out.iter().collect()
}

fn run(source: &str) -> (Result<Flow, bingbang::interpret::InterpretError>, Vec<StackVal>, Io) {
    let instrs = parse_bng(source).unwrap();
    let mut stack: Vec<StackVal> = Vec::new();
    let mut io = empty_io();
    let r = interpret_instructions(&instrs, &mut stack, &mut io);
    (r, stack, io)
}

#[test]
fn hello_world_prints_and_exits() {
    let (r, _, io) = run("'Hello World'P");
    assert_eq!(text(&io.output), "Hello World\n");
    assert_eq!(r, Ok(Flow::Exited(0)));
}

#[test]
fn addition_takes_top_two() {
    let (r, _, io) = run("1 2 3 + P");
    assert_eq!(text(&io.output), "5\n");
    assert_eq!(r, Ok(Flow::Exited(0)));
}

#[test]
fn parse_number_feeds_addition() {
    let (r, _, io) = run("1 '1'n + P");
    assert_eq!(text(&io.output), "2\n");
    assert_eq!(r, Ok(Flow::Exited(0)));
}

#[test]
fn conditional_runs_its_body_on_true() {
    let (r, _, io) = run("1 1 = ? ['yes'P]");
    assert_eq!(text(&io.output), "yes\n");
    assert_eq!(r, Ok(Flow::Exited(0)));
}

#[test]
fn conditional_skips_its_body_on_false() {
    let (r, _, io) = run("2 1 = ? ['yes'P]");
    assert_eq!(text(&io.output), "");
    assert_eq!(r, Ok(Flow::Exited(0)));
}

#[test]
fn print_stack_leaves_the_bottom_element() {
    let instrs = vec![Instr::PrintStack];
    let mut stack = vec![StackVal::Num(1), StackVal::Num(2), StackVal::Num(3)];
    let mut io = empty_io();
    let r = interpret_instructions(&instrs, &mut stack, &mut io);
    assert_eq!(r, Ok(Flow::Ran));
    assert_eq!(text(&io.output), "32\n");
    assert_eq!(stack.len(), 1);
    assert!(stack[0] == StackVal::Num(1));
}

#[test]
fn range_with_larger_start_is_empty() {
    let instrs = vec![Instr::GenRange];
    let mut stack = vec![StackVal::Num(5), StackVal::Num(10)];
    let mut io = empty_io();
    let r = interpret_instructions(&instrs, &mut stack, &mut io);
    assert_eq!(r, Ok(Flow::Ran));
    assert!(stack.is_empty());
}

#[test]
fn range_counts_up_from_the_top_operand() {
    let instrs = vec![Instr::GenRange];
    let mut stack = vec![StackVal::Num(10), StackVal::Num(5)];
    let mut io = empty_io();
    let r = interpret_instructions(&instrs, &mut stack, &mut io);
    assert_eq!(r, Ok(Flow::Ran));
    let got: Vec<i64> = stack
        .iter()
        .map(|v| match v {
            StackVal::Num(n) => *n,
            _ => panic!("expected numbers"),
        })
        .collect();
    assert_eq!(got, vec![5, 6, 7, 8, 9]);
}

#[test]
fn arity_failures_leave_the_stack_alone() {
    for instr in [
        Instr::Print,
        Instr::PrintLn,
        Instr::Plus,
        Instr::Sub,
        Instr::Mul,
        Instr::Div,
        Instr::GreaterThan,
        Instr::LessThan,
        Instr::Sum,
        Instr::ParseNum,
        Instr::Reverse,
        Instr::GenRange,
        Instr::Syscall,
        Instr::TimeFmt,
        Instr::IfStmt(vec![]),
        Instr::Eq,
        Instr::Not,
    ] {
        let instrs = vec![instr];
        let mut stack: Vec<StackVal> = Vec::new();
        let mut io = empty_io();
        let r = interpret_instructions(&instrs, &mut stack, &mut io);
        let e = r.unwrap_err();
        assert_eq!(e.index, 0);
        assert_eq!(e.kind, ErrKind::Underflow);
        assert!(stack.is_empty());
        assert!(io.output.is_empty());
    }
}

#[test]
fn binary_arity_needs_two() {
    let instrs = vec![Instr::Plus];
    let mut stack = vec![StackVal::Num(1)];
    let mut io = empty_io();
    let e = interpret_instructions(&instrs, &mut stack, &mut io).unwrap_err();
    assert_eq!(e.kind, ErrKind::Underflow);
    assert_eq!(e.instr, InstrTag::Plus);
    assert_eq!(stack.len(), 1);
}

#[test]
fn subtraction_takes_the_top_as_left_operand() {
    let (r, _, io) = run("5 3 - P");
    assert_eq!(text(&io.output), "-2\n");
    assert_eq!(r, Ok(Flow::Exited(0)));
}

#[test]
fn division_by_zero_fails() {
    let (r, _, _) = run("0 8 / P");
    let e = r.unwrap_err();
    assert_eq!(e.kind, ErrKind::Overflow);
    assert_eq!(e.instr, InstrTag::Div);
}

#[test]
fn arithmetic_on_text_fails() {
    let (r, _, _) = run("1 'x' +");
    let e = r.unwrap_err();
    assert_eq!(e.kind, ErrKind::NotANumber);
}

#[test]
fn equality_coerces_across_tags() {
    assert!(StackVal::Bool(true) == StackVal::Num(1));
    assert!(StackVal::Num(1) == StackVal::Bool(true));
    assert!(StackVal::Str(chars("1")) == StackVal::Num(1));
    assert!(StackVal::Num(1) == StackVal::Str(chars("1")));
    assert!(StackVal::Bool(true) == StackVal::Str(chars("true")));
    assert!(!(StackVal::Num(1) == StackVal::Str(chars("true"))));
    assert!(StackVal::Num(-3) == StackVal::Str(chars("-3")));
    assert!(StackVal::Str(chars("ab")) == StackVal::Str(chars("ab")));
    assert!(!(StackVal::Str(chars("ab")) == StackVal::Str(chars("ba"))));
}

#[test]
fn equals_instruction_pushes_a_bool() {
    let (r, _, io) = run("1 '1' = P");
    assert_eq!(text(&io.output), "true\n");
    assert_eq!(r, Ok(Flow::Exited(0)));
}

#[test]
fn not_negates_a_bool() {
    let (r, _, io) = run("1 2 = ! P");
    assert_eq!(text(&io.output), "true\n");
    assert_eq!(r, Ok(Flow::Exited(0)));
}

#[test]
fn not_rejects_a_number() {
    let (r, _, _) = run("1 !");
    assert_eq!(r.unwrap_err().kind, ErrKind::NotABool);
}

#[test]
fn sum_drains_the_whole_stack() {
    let (r, _, io) = run("1 2 3 4 s P");
    assert_eq!(text(&io.output), "10\n");
    assert_eq!(r, Ok(Flow::Exited(0)));
}

#[test]
fn sum_skips_non_numbers() {
    let instrs = vec![Instr::Sum];
    let mut stack = vec![
        StackVal::Num(2),
        StackVal::Str(chars("x")),
        StackVal::Num(5),
    ];
    let mut io = empty_io();
    let r = interpret_instructions(&instrs, &mut stack, &mut io);
    assert_eq!(r, Ok(Flow::Ran));
    assert_eq!(stack.len(), 1);
    assert!(stack[0] == StackVal::Num(7));
}

#[test]
fn reverse_flips_a_text() {
    let (r, _, io) = run("'dlrow' r P");
    assert_eq!(text(&io.output), "world\n");
    assert_eq!(r, Ok(Flow::Exited(0)));
}

#[test]
fn flip_stack_reverses_order() {
    let (r, _, io) = run("1 2 3 R A");
    assert_eq!(text(&io.output), "1\n2\n3\n");
    assert_eq!(r, Ok(Flow::Exited(0)));
}

#[test]
fn show_stack_keeps_every_element() {
    let instrs = vec![Instr::ShowStack];
    let mut stack = vec![StackVal::Num(1), StackVal::Num(2)];
    let mut io = empty_io();
    let r = interpret_instructions(&instrs, &mut stack, &mut io);
    assert_eq!(r, Ok(Flow::Ran));
    assert_eq!(text(&io.output), "1\n2\n");
    assert_eq!(stack.len(), 2);
}

#[test]
fn clear_stack_empties_everything() {
    let instrs = vec![Instr::ClearStack];
    let mut stack = vec![StackVal::Num(1), StackVal::Bool(false)];
    let mut io = empty_io();
    let r = interpret_instructions(&instrs, &mut stack, &mut io);
    assert_eq!(r, Ok(Flow::Ran));
    assert!(stack.is_empty());
}

#[test]
fn pop_on_an_empty_stack_is_a_no_op() {
    let instrs = vec![Instr::Pop, Instr::Pop];
    let mut stack = vec![StackVal::Num(1)];
    let mut io = empty_io();
    let r = interpret_instructions(&instrs, &mut stack, &mut io);
    assert_eq!(r, Ok(Flow::Ran));
    assert!(stack.is_empty());
}

#[test]
fn read_takes_the_next_input_line() {
    let instrs = vec![Instr::Read, Instr::PrintLn];
    let mut stack: Vec<StackVal> = Vec::new();
    let mut io = Io {
        input: vec![chars("first"), chars("second")],
        output: vec![],
    };
    let r = interpret_instructions(&instrs, &mut stack, &mut io);
    assert_eq!(r, Ok(Flow::Ran));
    assert_eq!(text(&io.output), "first\n");
    assert_eq!(io.input.len(), 1);
}

#[test]
fn read_with_nothing_left_fails() {
    let instrs = vec![Instr::Read];
    let mut stack: Vec<StackVal> = Vec::new();
    let mut io = empty_io();
    let e = interpret_instructions(&instrs, &mut stack, &mut io).unwrap_err();
    assert_eq!(e.kind, ErrKind::NoInput);
}

#[test]
fn parse_number_accepts_trimmed_signed_text() {
    let (r, _, io) = run("' -42 'n P");
    assert_eq!(text(&io.output), "-42\n");
    assert_eq!(r, Ok(Flow::Exited(0)));
}

#[test]
fn parse_number_maps_bools_to_bits() {
    let instrs = vec![Instr::ParseNum];
    let mut stack = vec![StackVal::Bool(true)];
    let mut io = empty_io();
    let r = interpret_instructions(&instrs, &mut stack, &mut io);
    assert_eq!(r, Ok(Flow::Ran));
    assert!(stack[0] == StackVal::Num(1));
}

#[test]
fn parse_number_rejects_malformed_text() {
    let (r, _, _) = run("'12x'n");
    assert_eq!(r.unwrap_err().kind, ErrKind::BadParse);
}

#[test]
fn syscall_zero_exits_with_its_argument() {
    let (r, _, _) = run("7 0 $");
    assert_eq!(r, Ok(Flow::Exited(7)));
}

#[test]
fn syscall_other_codes_are_unknown() {
    let (r, _, _) = run("7 1 $");
    assert_eq!(r.unwrap_err().kind, ErrKind::UnknownSyscall);
}

#[test]
fn exit_stops_everything_even_in_a_body() {
    let (r, _, io) = run("1 1 = ? ['a'P q] 'b'P");
    assert_eq!(text(&io.output), "a\n");
    assert_eq!(r, Ok(Flow::Exited(0)));
}

#[test]
fn failure_inside_a_body_propagates() {
    let (r, _, _) = run("1 1 = ? [+]");
    let e = r.unwrap_err();
    assert_eq!(e.kind, ErrKind::Underflow);
    assert_eq!(e.index, 0);
}

#[test]
fn comparisons_take_the_top_as_left_operand() {
    let (r, _, io) = run("1 2 > P");
    assert_eq!(text(&io.output), "true\n");
    assert_eq!(r, Ok(Flow::Exited(0)));
    let (r2, _, io2) = run("1 2 < P");
    assert_eq!(text(&io2.output), "false\n");
    assert_eq!(r2, Ok(Flow::Exited(0)));
}

#[test]
fn print_has_no_newline() {
    let (r, _, io) = run("'a'p'b'p");
    assert_eq!(text(&io.output), "ab");
    assert_eq!(r, Ok(Flow::Exited(0)));
}

#[test]
fn addition_overflow_fails() {
    let instrs = vec![Instr::Plus];
    let mut stack = vec![StackVal::Num(i64::MAX), StackVal::Num(1)];
    let mut io = empty_io();
    let e = interpret_instructions(&instrs, &mut stack, &mut io).unwrap_err();
    assert_eq!(e.kind, ErrKind::Overflow);
    assert_eq!(stack.len(), 2);
}

#[test]
fn time_pushes_a_text() {
    let instrs = vec![Instr::Time];
    let mut stack: Vec<StackVal> = Vec::new();
    let mut io = empty_io();
    let r = interpret_instructions(&instrs, &mut stack, &mut io);
    assert_eq!(r, Ok(Flow::Ran));
    assert_eq!(stack.len(), 1);
    assert!(matches!(stack[0], StackVal::Str(_)));
}

#[test]
fn time_format_uses_the_popped_pattern() {
    let instrs = vec![Instr::TimeFmt, Instr::Print];
    let mut stack = vec![StackVal::Str(chars("fixed"))];
    let mut io = empty_io();
    let r = interpret_instructions(&instrs, &mut stack, &mut io);
    assert_eq!(r, Ok(Flow::Ran));
    assert_eq!(text(&io.output), "fixed");
}

#[test]
fn reverse_rejects_a_number() {
    let (r, _, _) = run("1 r");
    assert_eq!(r.unwrap_err().kind, ErrKind::NotAString);
}

#[test]
fn time_format_rejects_a_lone_percent() {
    let instrs = vec![Instr::TimeFmt];
    let mut stack = vec![StackVal::Str(chars("%"))];
    let mut io = empty_io();
    let e = interpret_instructions(&instrs, &mut stack, &mut io).unwrap_err();
    assert_eq!(e.kind, ErrKind::BadTimeFormat);
    assert_eq!(stack.len(), 1);
}
