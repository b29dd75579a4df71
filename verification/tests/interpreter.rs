use brainfuck::bf_eval;
use brainfuck::bf_eval_on;
use brainfuck::bf_jumps;
use brainfuck::BFEvalError;
use brainfuck::InvalidProgramError;

#[test]
fn jumps_of_simple_pair() {
    let table = bf_jumps(b"[]").unwrap();
    assert_eq!(table.len(), 2);
    assert_eq!(table.get(&0), Some(&1));
    assert_eq!(table.get(&1), Some(&0));
}

#[test]
fn jumps_of_nested_pairs() {
    let table = bf_jumps(b"[[]]").unwrap();
    assert_eq!(table.len(), 4);
    assert_eq!(table.get(&0), Some(&3));
    assert_eq!(table.get(&1), Some(&2));
    assert_eq!(table.get(&2), Some(&1));
    assert_eq!(table.get(&3), Some(&0));
}

#[test]
fn jumps_count_comment_positions() {
    let table = bf_jumps(b"a[b]c").unwrap();
    assert_eq!(table.len(), 2);
    assert_eq!(table.get(&1), Some(&3));
    assert_eq!(table.get(&3), Some(&1));
}

#[test]
fn jumps_table_is_an_involution() {
    let program = b"+[>[-]<[[]]]";
    let table = bf_jumps(program).unwrap();
    for (&k, &v) in table.iter() {
        assert_eq!(table.get(&v), Some(&k));
    }
}

#[test]
fn jumps_unexpected_closing_bracket() {
    assert_eq!(
        bf_jumps(b"]").unwrap_err(),
        InvalidProgramError::UnexpectedClosingBracket(0)
    );
}

#[test]
fn jumps_excessive_opening_brackets() {
    assert_eq!(
        bf_jumps(b"[").unwrap_err(),
        InvalidProgramError::ExcessiveOpeningBrackets(0)
    );
}

#[test]
fn jumps_report_innermost_unmatched_opener() {
    assert_eq!(
        bf_jumps(b"[[]").unwrap_err(),
        InvalidProgramError::ExcessiveOpeningBrackets(0)
    );
}

#[test]
fn jumps_report_first_unexpected_closer() {
    assert_eq!(
        bf_jumps(b"[]]]").unwrap_err(),
        InvalidProgramError::UnexpectedClosingBracket(2)
    );
}

#[test]
fn eval_increments_and_writes_one_byte() {
    let run = bf_eval_on(b"+++.", 4, b"", 100).unwrap();
    assert_eq!(run.tape, vec![3, 0, 0, 0]);
    assert_eq!(run.output, vec![3]);
}

#[test]
fn eval_cell_wraps_above_255() {
    let program = vec![b'+'; 256];
    let run = bf_eval_on(&program, 1, b"", 1000).unwrap();
    assert_eq!(run.tape, vec![0]);
}

#[test]
fn eval_cell_wraps_below_zero() {
    let run = bf_eval_on(b"-", 1, b"", 10).unwrap();
    assert_eq!(run.tape, vec![255]);
}

#[test]
fn eval_copy_loop_moves_value() {
    let run = bf_eval_on(b"+++[->+<]", 2, b"", 1000).unwrap();
    assert_eq!(run.tape, vec![0, 3]);
    assert_eq!(run.output, vec![]);
}

#[test]
fn eval_same_program_twice_agrees() {
    let first = bf_eval_on(b"++[->++<]>.", 2, b"xyz", 1000).unwrap();
    let second = bf_eval_on(b"++[->++<]>.", 2, b"xyz", 1000).unwrap();
    assert_eq!(first.tape, second.tape);
    assert_eq!(first.output, second.output);
}

#[test]
fn eval_reads_input_bytes_in_order() {
    let run = bf_eval_on(b",>,.", 2, b"AB", 100).unwrap();
    assert_eq!(run.tape, vec![65, 66]);
    assert_eq!(run.output, vec![66]);
}

#[test]
fn eval_exhausted_input_leaves_cell_unchanged() {
    let run = bf_eval_on(b"+++,", 1, b"", 100).unwrap();
    assert_eq!(run.tape, vec![3]);
}

#[test]
fn eval_skips_unrecognized_bytes() {
    let run = bf_eval_on(b" + hello + ", 1, b"", 100).unwrap();
    assert_eq!(run.tape, vec![2]);
}

#[test]
fn eval_empty_program_returns_zero_tape() {
    let run = bf_eval_on(b"", 3, b"", 10).unwrap();
    assert_eq!(run.tape, vec![0, 0, 0]);
    assert_eq!(run.output, vec![]);
}

#[test]
fn eval_zero_length_tape_is_fatal() {
    let err = bf_eval_on(b"+", 0, b"", 10).unwrap_err();
    assert!(matches!(err, BFEvalError::OutOfBoundsAccess));
}

#[test]
fn eval_move_left_of_zero_is_fatal() {
    let err = bf_eval_on(b"<", 1, b"", 10).unwrap_err();
    assert!(matches!(err, BFEvalError::OutOfBoundsAccess));
}

#[test]
fn eval_move_past_end_is_fatal() {
    let err = bf_eval_on(b">", 1, b"", 10).unwrap_err();
    assert!(matches!(err, BFEvalError::OutOfBoundsAccess));
}

#[test]
fn eval_structural_error_wins_over_empty_tape() {
    let err = bf_eval_on(b"]", 0, b"", 10).unwrap_err();
    assert!(matches!(
        err,
        BFEvalError::InvalidProgramError(InvalidProgramError::UnexpectedClosingBracket(0))
    ));
}

#[test]
fn eval_propagates_excessive_opening_brackets() {
    let err = bf_eval_on(b"++[", 1, b"", 10).unwrap_err();
    assert!(matches!(
        err,
        BFEvalError::InvalidProgramError(InvalidProgramError::ExcessiveOpeningBrackets(2))
    ));
}

#[test]
fn eval_reports_exhausted_step_budget() {
    let err = bf_eval_on(b"+[]", 1, b"", 10).unwrap_err();
    assert!(matches!(err, BFEvalError::StepLimitExceeded));
}

#[test]
fn eval_budget_counts_machine_steps() {
    assert!(bf_eval_on(b"++++", 1, b"", 3).is_err());
    assert!(bf_eval_on(b"++++", 1, b"", 4).is_ok());
}

#[test]
fn eval_on_stdio_runs_pure_programs() {
    let tape = bf_eval(b"+++[->+<]", 2).unwrap();
    assert_eq!(tape, vec![0, 3]);
}

#[test]
fn eval_on_stdio_writes_output() {
    let tape = bf_eval(b"+++.", 1).unwrap();
    assert_eq!(tape, vec![3]);
}

#[test]
fn eval_on_stdio_propagates_structural_errors() {
    let err = bf_eval(b"][", 4).unwrap_err();
    assert!(matches!(
        err,
        BFEvalError::InvalidProgramError(InvalidProgramError::UnexpectedClosingBracket(0))
    ));
}

#[test]
fn eval_on_stdio_rejects_zero_length_tape() {
    let err = bf_eval(b"+", 0).unwrap_err();
    assert!(matches!(err, BFEvalError::OutOfBoundsAccess));
}

#[test]
fn eval_on_stdio_checks_cursor_bounds() {
    let err = bf_eval(b"+>", 1).unwrap_err();
    assert!(matches!(err, BFEvalError::OutOfBoundsAccess));
}
