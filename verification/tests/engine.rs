use tape_engine::machine::{run, Event, Machine, RunStatus};
use tape_engine::semantics::ExecutionError;

/// Drive a machine over in-memory streams for at most `max_steps` steps.
/// Returns the machine (for tape inspection), the terminal result if one was
/// reached (`None` means the step budget ran out), and the output written.
fn drive(
    program: &[u8],
    input: &[u8],
    max_steps: usize,
) -> (Machine, Option<Result<(), ExecutionError>>, Vec<u8>) {
    let mut m = Machine::new(program.to_vec());
    let mut next = 0;
    let mut out = Vec::new();
    for _ in 0..max_steps {
        match m.step() {
            Ok(Event::Ran) => {}
            Ok(Event::NeedsInput) => {
                assert!(m.is_awaiting_input());
                if next == input.len() {
                    return (m, Some(Err(ExecutionError::EndOfInput)), out);
                }
                m.feed(input[next]);
                next += 1;
            }
            Ok(Event::Wrote(b)) => out.push(b),
            Ok(Event::Done) => return (m, Some(Ok(())), out),
            Err(e) => return (m, Some(Err(e)), out),
        }
    }
    (m, None, out)
}

#[test]
fn plus_minus_net_count() {
    let (m, result, out) = drive(b"+++--", b"", 100);
    assert_eq!(result, Some(Ok(())));
    assert!(out.is_empty());
    assert_eq!(m.current_cell(), 1);
}

#[test]
fn plus_wraps_past_255() {
    let program: Vec<u8> = std::iter::repeat(b'+').take(300).collect();
    let (m, result, _) = drive(&program, b"", 1000);
    assert_eq!(result, Some(Ok(())));
    assert_eq!(m.current_cell(), 44);
}

#[test]
fn minus_wraps_below_zero() {
    let (m, result, _) = drive(b"-", b"", 10);
    assert_eq!(result, Some(Ok(())));
    assert_eq!(m.current_cell(), 255);
}

#[test]
fn retreat_at_cursor_zero_underflows() {
    let (_, result, _) = drive(b"<", b"", 10);
    assert_eq!(result, Some(Err(ExecutionError::TapeUnderflow)));
}

#[test]
fn retreat_underflows_whatever_the_cell_holds() {
    let (_, result, _) = drive(b"+++<", b"", 10);
    assert_eq!(result, Some(Err(ExecutionError::TapeUnderflow)));
}

#[test]
fn advance_256_times_grows_tape_to_512() {
    let program: Vec<u8> = std::iter::repeat(b'>').take(256).collect();
    let (m, result, _) = drive(&program, b"", 1000);
    assert_eq!(result, Some(Ok(())));
    assert_eq!(m.tape_len(), 512);
    assert_eq!(m.cursor_position(), 256);
    assert_eq!(m.cell(256), Some(0));
    assert_eq!(m.current_cell(), 0);
}

#[test]
fn single_advance_keeps_initial_tape() {
    let (m, result, _) = drive(b">", b"", 10);
    assert_eq!(result, Some(Ok(())));
    assert_eq!(m.tape_len(), 256);
    assert_eq!(m.cursor_position(), 1);
}

#[test]
fn clear_loop_zeroes_a_nonzero_cell() {
    let (m, result, _) = drive(b"+++++[-]", b"", 100);
    assert_eq!(result, Some(Ok(())));
    assert_eq!(m.current_cell(), 0);
}

#[test]
fn clear_loop_on_zero_cell_skips_immediately() {
    let (m, result, _) = drive(b"[-]", b"", 3);
    assert_eq!(result, Some(Ok(())));
    assert_eq!(m.current_cell(), 0);
}

#[test]
fn echo_copies_one_byte_unchanged() {
    let (_, result, out) = drive(b",.", b"A", 10);
    assert_eq!(result, Some(Ok(())));
    assert_eq!(out, vec![b'A']);
}

#[test]
fn echo_reads_exactly_one_byte() {
    let (_, result, out) = drive(b",.", &[7, 9], 10);
    assert_eq!(result, Some(Ok(())));
    assert_eq!(out, vec![7]);
}

#[test]
fn read_lands_in_current_cell() {
    let (m, result, _) = drive(b",", &[200], 10);
    assert_eq!(result, Some(Ok(())));
    assert_eq!(m.current_cell(), 200);
}

#[test]
fn unmatched_open_with_zero_cell_fails() {
    let (_, result, _) = drive(b"[", b"", 10);
    assert_eq!(result, Some(Err(ExecutionError::UnmatchedStartBracket)));
}

#[test]
fn unmatched_open_skip_tracks_nesting() {
    let (_, result, _) = drive(b"[[]", b"", 10);
    assert_eq!(result, Some(Err(ExecutionError::UnmatchedStartBracket)));
}

#[test]
fn nested_brackets_skip_as_one_loop() {
    let (_, result, _) = drive(b"[[]]", b"", 10);
    assert_eq!(result, Some(Ok(())));
}

#[test]
fn unmatched_open_entered_nonzero_runs_off_the_end() {
    // with lazy jump resolution an open bracket never revisited simply
    // leaves its entry on the stack; the run still halts
    let (_, result, _) = drive(b"+[", b"", 10);
    assert_eq!(result, Some(Ok(())));
}

#[test]
fn endless_loop_exhausts_any_step_budget() {
    let (_, result, _) = drive(b"+[]", b"", 10_000);
    assert_eq!(result, None);
    assert_eq!(run(b"+[]".to_vec(), Vec::new(), 10_000), RunStatus::OutOfFuel);
}

#[test]
fn lone_close_bracket_fails_on_zero_cell() {
    let (_, result, _) = drive(b"]", b"", 10);
    assert_eq!(result, Some(Err(ExecutionError::UnmatchedEndBracket)));
}

#[test]
fn close_bracket_fails_on_nonzero_cell_too() {
    let (_, result, _) = drive(b"+]", b"", 10);
    assert_eq!(result, Some(Err(ExecutionError::UnmatchedEndBracket)));
}

#[test]
fn close_bracket_after_skip_has_no_open_recorded() {
    let (_, result, _) = drive(b"[]]", b"", 10);
    assert_eq!(result, Some(Err(ExecutionError::UnmatchedEndBracket)));
}

#[test]
fn end_to_end_writes_sixty_four() {
    assert_eq!(
        run(b"++++++++[>++++++++<-]>.".to_vec(), Vec::new(), 1_000_000),
        RunStatus::Halted(vec![64]),
    );
}

#[test]
fn end_to_end_echo_byte_65() {
    assert_eq!(run(b",.".to_vec(), vec![65], 100), RunStatus::Halted(vec![65]));
}

#[test]
fn end_to_end_echo_empty_input_is_end_of_input() {
    assert_eq!(
        run(b",.".to_vec(), Vec::new(), 100),
        RunStatus::Failed(ExecutionError::EndOfInput),
    );
}

#[test]
fn step_events_follow_the_read_write_protocol() {
    let mut m = Machine::new(b",.".to_vec());
    assert_eq!(m.step(), Ok(Event::NeedsInput));
    assert!(m.is_awaiting_input());
    m.feed(65);
    assert_eq!(m.step(), Ok(Event::Wrote(65)));
    assert_eq!(m.step(), Ok(Event::Done));
    assert!(m.is_done());
}

#[test]
fn unrecognized_bytes_are_comments() {
    let (m, result, out) = drive(b"a+b c#%\n+", b"", 100);
    assert_eq!(result, Some(Ok(())));
    assert!(out.is_empty());
    assert_eq!(m.current_cell(), 2);
}

#[test]
fn zero_fuel_is_out_of_fuel_even_for_an_empty_program() {
    assert_eq!(run(Vec::new(), Vec::new(), 0), RunStatus::OutOfFuel);
    assert_eq!(run(b"+".to_vec(), Vec::new(), 0), RunStatus::OutOfFuel);
}

#[test]
fn empty_program_halts_with_one_fuel() {
    assert_eq!(run(Vec::new(), Vec::new(), 1), RunStatus::Halted(Vec::new()));
}

#[test]
fn error_stops_the_run_and_keeps_prior_output() {
    // output written before the failure was already delivered
    let (_, result, out) = drive(b"+.<", b"", 10);
    assert_eq!(result, Some(Err(ExecutionError::TapeUnderflow)));
    assert_eq!(out, vec![1]);
}
