use register_machine::parser::Parser;
use register_machine::{Error, Instruction, Label, Register, Unsigned};

#[test]
fn blank_and_comment_lines_are_counted() {
    let mut p = Parser::new();
    assert!(p.parse_line("", 0).is_ok());
    assert!(p.parse_line("   \t ", 1).is_ok());
    assert!(p.parse_line("# a comment", 2).is_ok());
    assert_eq!(p.blank_lines, 3);
    assert_eq!(p.instructions.len(), 0);
}

#[test]
fn parses_increment_and_decrement() {
    let mut p = Parser::new();
    assert!(p.parse_line("INCREMENT X0", 0).is_ok());
    assert!(p.parse_line("DECREMENT Z2", 1).is_ok());
    assert!(p.parse_line("INCREMENT Y", 2).is_ok());
    assert_eq!(
        p.instructions,
        vec![
            Instruction::Increment(Register::X(Unsigned(0))),
            Instruction::Decrement(Register::Z(Unsigned(2))),
            Instruction::Increment(Register::Y),
        ]
    );
    assert_eq!(p.max_x, Some(Unsigned(0)));
    assert_eq!(p.max_z, Some(Unsigned(2)));
}

#[test]
fn parses_conditional_with_ignored_words() {
    let mut p = Parser::new();
    assert!(p.parse_line("IF X1 IS NOT ZERO GOTO loop", 0).is_ok());
    assert_eq!(
        p.instructions,
        vec![Instruction::Conditional(
            Register::X(Unsigned(1)),
            Label(b"loop".to_vec())
        )]
    );
}

#[test]
fn parses_goto_and_stop() {
    let mut p = Parser::new();
    assert!(p.parse_line("GOTO end", 0).is_ok());
    assert!(p.parse_line("STOP", 1).is_ok());
    assert_eq!(
        p.instructions,
        vec![
            Instruction::Goto(Label(b"end".to_vec())),
            Instruction::Stop,
        ]
    );
}

#[test]
fn label_definition_lands_at_line_minus_blanks() {
    let mut p = Parser::new();
    assert!(p.parse_line("", 0).is_ok());
    assert!(p.parse_line("# skip", 1).is_ok());
    assert!(p.parse_line("[here] STOP", 2).is_ok());
    assert_eq!(p.jump_table.get(&Label(b"here".to_vec())), Some(&0));
}

#[test]
fn label_only_line_defines_without_instruction() {
    let mut p = Parser::new();
    assert!(p.parse_line("[alone]", 0).is_ok());
    assert_eq!(p.instructions.len(), 0);
    assert!(p.jump_table.get(&Label(b"alone".to_vec())).is_some());
}

#[test]
fn one_line_may_carry_several_instructions() {
    let mut p = Parser::new();
    assert!(p.parse_line("INCREMENT X0 STOP", 0).is_ok());
    assert_eq!(
        p.instructions,
        vec![
            Instruction::Increment(Register::X(Unsigned(0))),
            Instruction::Stop,
        ]
    );
}

#[test]
fn malformed_register_token_is_a_syntax_error() {
    let mut p = Parser::new();
    let r = p.parse_line("INCREMENT W0", 0);
    assert_eq!(r, Err(Error::SyntaxError(b"W0".to_vec())));
    assert_eq!(p.instructions.len(), 0);
}

#[test]
fn register_without_index_is_a_syntax_error() {
    let mut p = Parser::new();
    assert_eq!(
        p.parse_line("INCREMENT X", 0),
        Err(Error::SyntaxError(b"X".to_vec()))
    );
    assert_eq!(
        p.parse_line("DECREMENT Zx", 0),
        Err(Error::SyntaxError(b"Zx".to_vec()))
    );
}

#[test]
fn oversized_register_index_is_a_syntax_error() {
    let mut p = Parser::new();
    let r = p.parse_line("INCREMENT X99999999999999999999999999", 0);
    assert_eq!(
        r,
        Err(Error::SyntaxError(b"X99999999999999999999999999".to_vec()))
    );
}

#[test]
fn missing_operand_is_a_syntax_error() {
    let mut p = Parser::new();
    assert_eq!(
        p.parse_line("INCREMENT", 0),
        Err(Error::SyntaxError(b"INCREMENT".to_vec()))
    );
    assert_eq!(
        p.parse_line("GOTO", 0),
        Err(Error::SyntaxError(b"GOTO".to_vec()))
    );
}

#[test]
fn conditional_without_goto_is_a_syntax_error() {
    let mut p = Parser::new();
    assert_eq!(
        p.parse_line("IF X0 NEVER JUMPS", 0),
        Err(Error::SyntaxError(b"IF".to_vec()))
    );
}

#[test]
fn unknown_keyword_is_a_syntax_error() {
    let mut p = Parser::new();
    assert_eq!(
        p.parse_line("JUMP somewhere", 0),
        Err(Error::SyntaxError(b"JUMP".to_vec()))
    );
}

#[test]
fn lone_open_bracket_is_a_syntax_error() {
    let mut p = Parser::new();
    assert_eq!(p.parse_line("[ STOP", 0), Err(Error::SyntaxError(b"[".to_vec())));
}

#[test]
fn syntax_error_leaves_parser_unchanged() {
    let mut p = Parser::new();
    assert!(p.parse_line("INCREMENT X5", 0).is_ok());
    assert!(p.parse_line("INCREMENT W1", 1).is_err());
    assert_eq!(p.instructions.len(), 1);
    assert_eq!(p.max_x, Some(Unsigned(5)));
}

#[test]
fn parse_lines_walks_a_whole_file() {
    let mut p = Parser::new();
    let lines: Vec<&str> = vec!["[a] INCREMENT X0", "", "DECREMENT X0", "STOP"];
    assert!(p.parse_lines(&lines).is_ok());
    assert_eq!(p.instructions.len(), 3);
    assert_eq!(p.blank_lines, 1);
    assert_eq!(p.jump_table.get(&Label(b"a".to_vec())), Some(&0));
}

#[test]
fn parse_lines_stops_at_the_first_bad_line() {
    let mut p = Parser::new();
    let lines: Vec<&str> = vec!["INCREMENT X0", "WAT", "STOP"];
    assert_eq!(p.parse_lines(&lines), Err(Error::SyntaxError(b"WAT".to_vec())));
    assert_eq!(p.instructions.len(), 1);
}

#[test]
fn leading_zeros_in_an_index_are_plain_decimal() {
    let mut p = Parser::new();
    assert!(p.parse_line("INCREMENT X007", 0).is_ok());
    assert_eq!(
        p.instructions,
        vec![Instruction::Increment(Register::X(Unsigned(7)))]
    );
}

#[test]
fn y_register_takes_no_index() {
    let mut p = Parser::new();
    assert!(p.parse_line("DECREMENT Y", 0).is_ok());
    assert_eq!(
        p.instructions,
        vec![Instruction::Decrement(Register::Y)]
    );
}
