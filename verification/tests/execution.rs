use register_machine::parser::Parser;
use register_machine::{Error, Label, MachineState, Register, Unsigned};

fn run_program(lines: Vec<&str>, inputs: Vec<usize>) -> Result<usize, Error> {
    let mut p = Parser::new();
    p.parse_lines(&lines)?;
    let mut m = MachineState::new(inputs, p.instructions, p.jump_table);
    match m.run(100_000)? {
        true => Ok(m.get_y().0),
        false => panic!("step bound reached"),
    }
}

#[test]
fn copy_input_to_output() {
    // A decrement loop moving X0 into Y, one unit per pass.
    let lines = vec![
        "[start] IF X0 GOTO body",
        "STOP",
        "[body] DECREMENT X0",
        "INCREMENT Y",
        "GOTO start",
    ];
    assert_eq!(run_program(lines, vec![3]), Ok(3));
}

#[test]
fn forward_jump_skips_premature_stop() {
    let lines = vec!["[a] GOTO b", "STOP", "[b] INCREMENT Y", "STOP"];
    assert_eq!(run_program(lines, vec![]), Ok(1));
}

#[test]
fn addition_with_backward_jumps() {
    // Y := X0 + X1, each addend drained by its own backward-jumping loop.
    let lines = vec![
        "[c1] IF X0 GOTO b1",
        "GOTO c2",
        "[b1] DECREMENT X0",
        "INCREMENT Y",
        "GOTO c1",
        "[c2] IF X1 GOTO b2",
        "STOP",
        "[b2] DECREMENT X1",
        "INCREMENT Y",
        "GOTO c2",
    ];
    assert_eq!(run_program(lines, vec![2, 3]), Ok(5));
}

#[test]
fn blank_lines_do_not_shift_label_targets() {
    // The jump must land on the INCREMENT, not an off-by-one neighbour.
    let lines = vec![
        "",
        "# a comment before any instruction",
        "GOTO target",
        "STOP",
        "",
        "[target] INCREMENT Y",
        "STOP",
    ];
    assert_eq!(run_program(lines, vec![]), Ok(1));
}

#[test]
fn running_off_the_end_halts() {
    let lines = vec!["INCREMENT Y", "INCREMENT Y"];
    assert_eq!(run_program(lines, vec![]), Ok(2));
}

#[test]
fn straight_line_program_halts_on_its_own() {
    let lines = vec!["INCREMENT Y", "DECREMENT X0", "STOP", "INCREMENT Y"];
    assert_eq!(run_program(lines, vec![1]), Ok(1));
}

#[test]
fn infinite_loop_is_cut_off_by_the_step_bound() {
    let mut p = Parser::new();
    let lines = vec!["[a] GOTO a"];
    p.parse_lines(&lines).unwrap();
    let mut m = MachineState::new(vec![], p.instructions, p.jump_table);
    assert_eq!(m.run(100), Ok(false));
    assert!(m.running);
}

#[test]
fn jump_to_undefined_label_fails_at_jump_time() {
    let mut p = Parser::new();
    let lines = vec!["GOTO nowhere", "STOP"];
    p.parse_lines(&lines).unwrap();
    let mut m = MachineState::new(vec![], p.instructions, p.jump_table);
    assert_eq!(
        m.run(100),
        Err(Error::UnresolvedLabel(Label(b"nowhere".to_vec())))
    );
}

#[test]
fn unreachable_bad_jump_is_tolerated() {
    // Lazy detection: a dangling label behind a STOP never trips.
    let lines = vec!["INCREMENT Y", "STOP", "GOTO nowhere"];
    assert_eq!(run_program(lines, vec![]), Ok(1));
}

#[test]
fn conditional_falls_through_on_zero() {
    let lines = vec!["IF X0 GOTO one", "STOP", "[one] INCREMENT Y", "STOP"];
    assert_eq!(run_program(lines.clone(), vec![0]), Ok(0));
    assert_eq!(run_program(lines, vec![1]), Ok(1));
}

#[test]
fn output_register_defaults_to_zero() {
    let lines = vec!["STOP"];
    assert_eq!(run_program(lines, vec![7]), Ok(0));
}

#[test]
fn absent_register_reads_as_zero() {
    // Decrementing a register never written keeps it at zero.
    let lines = vec!["DECREMENT Y", "DECREMENT Y", "DECREMENT Y", "STOP"];
    assert_eq!(run_program(lines, vec![]), Ok(0));
}

#[test]
fn inputs_land_in_the_input_registers() {
    let m = MachineState::new(vec![4, 9], vec![], register_machine::tables::LabelTable::new());
    assert_eq!(m.register_values.read(&Register::X(Unsigned(0))), 4);
    assert_eq!(m.register_values.read(&Register::X(Unsigned(1))), 9);
    assert_eq!(m.register_values.read(&Register::X(Unsigned(2))), 0);
}

#[test]
fn interpret_runs_the_whole_pipeline() {
    let lines = vec![
        "[start] IF X0 GOTO body",
        "STOP",
        "[body] DECREMENT X0",
        "INCREMENT Y",
        "GOTO start",
    ];
    assert_eq!(
        register_machine::interpret(&lines, vec![4], 100_000),
        Ok(Some(4))
    );
}

#[test]
fn interpret_surfaces_syntax_errors() {
    let lines = vec!["INCREMENT W0"];
    assert_eq!(
        register_machine::interpret(&lines, vec![], 100),
        Err(Error::SyntaxError(b"W0".to_vec()))
    );
}

#[test]
fn interpret_reports_a_cut_off_run() {
    let lines = vec!["[a] GOTO a"];
    assert_eq!(register_machine::interpret(&lines, vec![], 50), Ok(None));
}

#[test]
fn increment_past_the_machine_word_is_an_error() {
    let lines = vec!["INCREMENT X0", "STOP"];
    let mut p = Parser::new();
    p.parse_lines(&lines).unwrap();
    let mut m = MachineState::new(vec![usize::MAX], p.instructions, p.jump_table);
    assert_eq!(m.run(10), Err(Error::CounterOverflow));
}
