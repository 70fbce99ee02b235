use bingbang::instruction::Instr;
use bingbang::parse::{parse_bng, ParseError};

fn chars(s: &str) -> Vec<char> {
    s.chars().collect()
}

#[test]
fn hello_world() {
    let parsed = parse_bng("'Hello World'P").unwrap();
    assert!(
        parsed
            == vec![
                Instr::PushStr(chars("Hello World")),
                Instr::PrintLn,
                Instr::Exit
            ]
    );
}

#[test]
fn basic_math() {
    let parsed = parse_bng("1 2 3 + P").unwrap();
    assert!(
        parsed
            == vec![
                Instr::PushNum(1),
                Instr::PushNum(2),
                Instr::PushNum(3),
                Instr::Plus,
                Instr::PrintLn,
                Instr::Exit
            ]
    );
}

#[test]
fn parse_numbers() {
    let parsed = parse_bng("1 '1'n + P").unwrap();
    assert!(
        parsed
            == vec![
                Instr::PushNum(1),
                Instr::PushStr(chars("1")),
                Instr::ParseNum,
                Instr::Plus,
                Instr::PrintLn,
                Instr::Exit
            ]
    );
}

#[test]
fn digit_run_is_one_literal() {
    let parsed = parse_bng("1234p").unwrap();
    assert_eq!(
        parsed,
        vec![Instr::PushNum(1234), Instr::Print, Instr::Exit]
    );
}

#[test]
fn lone_digit_at_end() {
    let parsed = parse_bng("7").unwrap();
    assert_eq!(parsed, vec![Instr::PushNum(7), Instr::Exit]);
}

#[test]
fn empty_text_literal() {
    let parsed = parse_bng("''").unwrap();
    assert_eq!(parsed, vec![Instr::PushStr(vec![]), Instr::Exit]);
}

#[test]
fn empty_source_is_just_exit() {
    let parsed = parse_bng("").unwrap();
    assert_eq!(parsed, vec![Instr::Exit]);
}

#[test]
fn unterminated_text_names_its_line() {
    let err = parse_bng("\n\n'oops").unwrap_err();
    assert_eq!(err, ParseError::UnterminatedString { line: 3 });
}

#[test]
fn unknown_token_is_reported() {
    let err = parse_bng("1 2 %").unwrap_err();
    assert_eq!(err, ParseError::UnknownToken { token: '%' });
}

#[test]
fn oversized_number_is_rejected() {
    let err = parse_bng("99999999999999999999").unwrap_err();
    assert_eq!(err, ParseError::NumberTooLarge { line: 1 });
}

#[test]
fn conditional_collects_its_body() {
    let parsed = parse_bng("? [1 2]").unwrap();
    assert_eq!(
        parsed,
        vec![
            Instr::IfStmt(vec![Instr::PushNum(1), Instr::PushNum(2)]),
            Instr::Exit
        ]
    );
}

#[test]
fn conditional_needs_a_bracket() {
    let err = parse_bng("? x").unwrap_err();
    assert_eq!(err, ParseError::ExpectedBody { got: 'x' });
}

#[test]
fn conditional_needs_a_close() {
    let err = parse_bng("? [1 2").unwrap_err();
    assert_eq!(err, ParseError::ConditionalUnterminated);
}

#[test]
fn unused_letters_are_skipped() {
    let parsed = parse_bng("b1z").unwrap();
    assert_eq!(parsed, vec![Instr::PushNum(1), Instr::Exit]);
}

#[test]
fn push_separator_and_spaces_are_skipped() {
    let parsed = parse_bng("1,2, 3").unwrap();
    assert_eq!(
        parsed,
        vec![
            Instr::PushNum(1),
            Instr::PushNum(2),
            Instr::PushNum(3),
            Instr::Exit
        ]
    );
}

#[test]
fn every_opcode_maps_to_its_instruction() {
    let parsed = parse_bng("aAcdinpPqrRsStT+-/*><.=$!").unwrap();
    assert_eq!(
        parsed,
        vec![
            Instr::PrintStack,
            Instr::PrintStackLn,
            Instr::ClearStack,
            Instr::Pop,
            Instr::Read,
            Instr::ParseNum,
            Instr::Print,
            Instr::PrintLn,
            Instr::Exit,
            Instr::Reverse,
            Instr::FlipStack,
            Instr::Sum,
            Instr::ShowStack,
            Instr::Time,
            Instr::TimeFmt,
            Instr::Plus,
            Instr::Sub,
            Instr::Div,
            Instr::Mul,
            Instr::GreaterThan,
            Instr::LessThan,
            Instr::GenRange,
            Instr::Eq,
            Instr::Syscall,
            Instr::Not,
            Instr::Exit
        ]
    );
}

#[test]
fn text_literal_keeps_newlines() {
    let parsed = parse_bng("'a\nb'").unwrap();
    assert_eq!(parsed, vec![Instr::PushStr(chars("a\nb")), Instr::Exit]);
}
