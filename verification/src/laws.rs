//! General properties of the language, stated and proved over the model in
//! `semantics`. Each public lemma is a law of the engine; `machine::run`'s
//! contract ties the executable engine to the same model, so these laws
//! carry over to it.

use vstd::prelude::*;
use vstd::arithmetic::div_mod::{lemma_add_mod_noop, lemma_add_mod_noop_right};
use crate::semantics::{
    State, StepOutcome, ExecutionError, TAPE_CHUNK, INC, DEC, RIGHT, LEFT, OPEN, CLOSE, READ,
    WRITE, wf, init_config, skip_from, step_of, feed_of, inc_cell, zeros, Config, RunOutcome,
    run_from,
};

verus! {

/// How many times the byte `b` occurs in `p` at or after position `i`.
pub open spec fn count_from(p: Seq<u8>, b: u8, i: int) -> int
    decreases p.len() - i,
{
    if i < 0 || i >= p.len() {
        0
    } else {
        (if p[i] == b {
            1int
        } else {
            0int
        }) + count_from(p, b, i + 1)
    }
}

/// How many times the byte `b` occurs in `p`.
pub open spec fn count_of(p: Seq<u8>, b: u8) -> int {
    count_from(p, b, 0)
}

/// A cell value out of an unbounded tally: the tally modulo 256.
pub open spec fn cell_mod(v: int) -> u8 {
    (v % 256) as u8
}

/// The net effect of a pure-arithmetic program suffix on one cell, running
/// from `c`: the run halts with the current cell moved by the counts of `+`
/// and `-`, modulo 256, and everything else untouched.
proof fn lemma_arith_from(c: Config, fuel: nat)
    requires
        wf(c.state),
        forall|i: int|
            c.state.pc <= i < c.state.program.len() ==> (#[trigger] c.state.program[i]) == INC
                || c.state.program[i] == DEC,
        fuel >= c.state.program.len() - c.state.pc + 1,
    ensures
        run_from(c, fuel) == RunOutcome::Halted(
            Config {
                state: State {
                    pc: c.state.program.len(),
                    tape: c.state.tape.update(
                        c.state.cursor as int,
                        cell_mod(
                            c.state.tape[c.state.cursor as int] + count_from(
                                c.state.program,
                                INC,
                                c.state.pc as int,
                            ) - count_from(c.state.program, DEC, c.state.pc as int),
                        ),
                    ),
                    ..c.state
                },
                ..c
            },
        ),
    decreases c.state.program.len() - c.state.pc,
{
    let s = c.state;
    let t = s.tape[s.cursor as int] as int;
    if s.pc == s.program.len() {
        assert(t % 256 == t);
        assert(s.tape.update(s.cursor as int, cell_mod(t + 0 - 0)) =~= s.tape);
        assert(Config { state: State { pc: s.program.len(), tape: s.tape, ..s }, ..c } =~= c);
    } else {
        let op = s.program[s.pc as int];
        let rest = count_from(s.program, INC, s.pc as int + 1) - count_from(
            s.program,
            DEC,
            s.pc as int + 1,
        );
        let delta: int = if op == INC {
            1
        } else {
            -1
        };
        let new_cell = if op == INC {
            cell_mod(t + 1)
        } else {
            cell_mod(t + 255)
        };
        let s1 = State { tape: s.tape.update(s.cursor as int, new_cell), pc: s.pc + 1, ..s };
        let c1 = Config { state: s1, ..c };
        assert(step_of(s) == StepOutcome::Next(s1));
        assert(run_from(c, fuel) == run_from(c1, (fuel - 1) as nat));
        lemma_arith_from(c1, (fuel - 1) as nat);
        // fold the one-instruction change into the running tally, modulo 256
        assert(new_cell as int == (t + delta) % 256) by {
            if op != INC {
                lemma_add_mod_noop_right(t, -1, 256);
                assert((t + 255) % 256 == (t + (255int % 256)) % 256);
                assert(255int % 256 == (-1) % 256);
            }
        }
        assert((new_cell as int + rest) % 256 == (t + delta + rest) % 256) by {
            lemma_add_mod_noop(t + delta, rest, 256);
            lemma_add_mod_noop_right((t + delta) % 256, rest, 256);
        }
        assert(s1.tape.update(s.cursor as int, cell_mod(new_cell as int + rest)) =~= s.tape.update(
            s.cursor as int,
            cell_mod(t + count_from(s.program, INC, s.pc as int) - count_from(
                s.program,
                DEC,
                s.pc as int,
            )),
        ));
        assert(run_from(c, fuel) == RunOutcome::Halted(
            Config {
                state: State {
                    pc: s.program.len(),
                    tape: s.tape.update(
                        s.cursor as int,
                        cell_mod(t + count_from(s.program, INC, s.pc as int) - count_from(
                            s.program,
                            DEC,
                            s.pc as int,
                        )),
                    ),
                    ..s
                },
                ..c
            },
        ));
    }
}

/// For any program made only of `+` and `-` and any input, the run halts,
/// reads nothing, writes nothing, and leaves the first cell at the count of
/// `+` minus the count of `-`, modulo 256.
pub proof fn lemma_arith_program(program: Seq<u8>, input: Seq<u8>, fuel: nat)
    requires
        forall|i: int|
            0 <= i < program.len() ==> (#[trigger] program[i]) == INC || program[i] == DEC,
        fuel >= program.len() + 1,
    ensures
        run_from(init_config(program, input), fuel) == RunOutcome::Halted(
            Config {
                state: State {
                    program,
                    pc: program.len(),
                    tape: zeros(TAPE_CHUNK as nat).update(
                        0,
                        cell_mod(count_of(program, INC) - count_of(program, DEC)),
                    ),
                    cursor: 0,
                    stack: Seq::empty(),
                },
                input,
                output: Seq::empty(),
            },
        ),
{
    let c = init_config(program, input);
    lemma_arith_from(c, fuel);
    assert(c.state.tape[0] == 0);
    assert(run_from(c, fuel) == RunOutcome::Halted(
        Config {
            state: State {
                pc: program.len(),
                tape: c.state.tape.update(
                    0,
                    cell_mod(0 + count_from(program, INC, 0) - count_from(program, DEC, 0)),
                ),
                ..c.state
            },
            ..c
        },
    ));
}

/// A retreat at cursor 0 always fails with `TapeUnderflow`, whatever the
/// tape holds.
pub proof fn lemma_underflow(c: Config, fuel: nat)
    requires
        c.state.cursor == 0,
        c.state.pc < c.state.program.len(),
        c.state.program[c.state.pc as int] == LEFT,
        fuel >= 1,
    ensures
        run_from(c, fuel) == RunOutcome::Failed(ExecutionError::TapeUnderflow, c),
{
}

/// A program of exactly 256 advances, from a fresh run, halts with the tape
/// grown from 256 to 512 cells, the cursor on cell 256, and every cell still
/// zero: the freshly grown region starts zeroed.
pub proof fn lemma_tape_growth(program: Seq<u8>, input: Seq<u8>, fuel: nat)
    requires
        program.len() == 256,
        forall|i: int| 0 <= i < 256 ==> #[trigger] program[i] == RIGHT,
        fuel >= 257,
    ensures
        run_from(init_config(program, input), fuel) == RunOutcome::Halted(
            Config {
                state: State {
                    program,
                    pc: 256,
                    tape: zeros(512),
                    cursor: 256,
                    stack: Seq::empty(),
                },
                input,
                output: Seq::empty(),
            },
        ),
{
    lemma_right_run(program, input, init_config(program, input), 0, fuel);
}

/// The induction behind `lemma_tape_growth`: after `i` advances the cursor
/// sits at `i`, and the final advance grows the tape by one chunk.
proof fn lemma_right_run(program: Seq<u8>, input: Seq<u8>, c: Config, i: nat, fuel: nat)
    requires
        program.len() == 256,
        forall|j: int| 0 <= j < 256 ==> #[trigger] program[j] == RIGHT,
        i <= 255,
        fuel >= 257 - i,
        c == (Config {
            state: State {
                program,
                pc: i,
                tape: zeros(TAPE_CHUNK as nat),
                cursor: i,
                stack: Seq::<nat>::empty(),
            },
            input,
            output: Seq::<u8>::empty(),
        }),
    ensures
        run_from(c, fuel) == RunOutcome::Halted(
            Config {
                state: State {
                    program,
                    pc: 256,
                    tape: zeros(512),
                    cursor: 256,
                    stack: Seq::empty(),
                },
                input,
                output: Seq::empty(),
            },
        ),
    decreases 256 - i,
{
    let s = c.state;
    assert(s.program[i as int] == RIGHT);
    if i == 255 {
        let grown = zeros(TAPE_CHUNK as nat) + zeros(TAPE_CHUNK as nat);
        assert(grown =~= zeros(512));
        let s1 = State { tape: grown, cursor: 256, pc: 256, ..s };
        assert(step_of(s) == StepOutcome::Next(s1));
        let c1 = Config { state: s1, ..c };
        assert(run_from(c, fuel) == run_from(c1, (fuel - 1) as nat));
        assert(step_of(s1) == StepOutcome::Halt);
        assert(run_from(c1, (fuel - 1) as nat) == RunOutcome::Halted(c1));
    } else {
        let s1 = State { cursor: i + 1, pc: i + 1, ..s };
        assert(step_of(s) == StepOutcome::Next(s1));
        let c1 = Config { state: s1, ..c };
        assert(run_from(c, fuel) == run_from(c1, (fuel - 1) as nat));
        lemma_right_run(program, input, c1, i + 1, (fuel - 1) as nat);
    }
}

/// A clear loop `[-]`, entered with the current cell holding any value,
/// terminates and leaves that cell at 0, touching nothing else. A zero cell
/// skips the loop at once.
pub proof fn lemma_clear_loop(c: Config, fuel: nat)
    requires
        wf(c.state),
        c.state.program == seq![OPEN, DEC, CLOSE],
        c.state.pc == 0,
        c.state.stack == Seq::<nat>::empty(),
        fuel >= 2 * (c.state.tape[c.state.cursor as int] as int) + 2,
    ensures
        run_from(c, fuel) == RunOutcome::Halted(
            Config {
                state: State {
                    pc: 3,
                    tape: c.state.tape.update(c.state.cursor as int, 0u8),
                    ..c.state
                },
                ..c
            },
        ),
{
    let s = c.state;
    let n = s.tape[s.cursor as int];
    if n == 0 {
        assert(skip_from(s.program, 3, 0) == Some(3nat));
        assert(skip_from(s.program, 2, 1) == Some(3nat));
        assert(skip_from(s.program, 1, 1) == Some(3nat));
        let s1 = State { pc: 3, ..s };
        assert(step_of(s) == StepOutcome::Next(s1));
        let c1 = Config { state: s1, ..c };
        assert(run_from(c, fuel) == run_from(c1, (fuel - 1) as nat));
        assert(run_from(c1, (fuel - 1) as nat) == RunOutcome::Halted(c1));
        assert(s.tape.update(s.cursor as int, 0u8) =~= s.tape);
        assert(Config { state: State { pc: 3, tape: s.tape.update(s.cursor as int, 0u8), ..s }, ..c
        } =~= c1);
    } else {
        let s1 = State { stack: s.stack.push(1), pc: 1, ..s };
        assert(step_of(s) == StepOutcome::Next(s1));
        let c1 = Config { state: s1, ..c };
        assert(run_from(c, fuel) == run_from(c1, (fuel - 1) as nat));
        assert(s1.stack =~= seq![1nat]);
        lemma_clear_loop_body(c1, (fuel - 1) as nat);
        assert(s1.tape.update(s.cursor as int, 0u8) == s.tape.update(s.cursor as int, 0u8));
    }
}

/// The body of the clear loop: with the loop entered (resume position 1 on
/// the stack) and the cell at a nonzero value, each pass decrements the cell
/// once, and the final pass pops the stack and leaves the loop.
proof fn lemma_clear_loop_body(c: Config, fuel: nat)
    requires
        wf(c.state),
        c.state.program == seq![OPEN, DEC, CLOSE],
        c.state.pc == 1,
        c.state.stack == seq![1nat],
        c.state.tape[c.state.cursor as int] != 0,
        fuel >= 2 * (c.state.tape[c.state.cursor as int] as int) + 1,
    ensures
        run_from(c, fuel) == RunOutcome::Halted(
            Config {
                state: State {
                    pc: 3,
                    tape: c.state.tape.update(c.state.cursor as int, 0u8),
                    stack: Seq::empty(),
                    ..c.state
                },
                ..c
            },
        ),
    decreases c.state.tape[c.state.cursor as int],
{
    let s = c.state;
    let n = s.tape[s.cursor as int];
    assert((n as int + 255) % 256 == n - 1);
    let s1 = State { tape: s.tape.update(s.cursor as int, (n - 1) as u8), pc: 2, ..s };
    assert(step_of(s) == StepOutcome::Next(s1));
    let c1 = Config { state: s1, ..c };
    assert(run_from(c, fuel) == run_from(c1, (fuel - 1) as nat));
    if n == 1 {
        // the cell reaches zero: the close bracket pops and exits
        let s2 = State { stack: s1.stack.drop_last(), pc: 3, ..s1 };
        assert(step_of(s1) == StepOutcome::Next(s2));
        let c2 = Config { state: s2, ..c1 };
        assert(run_from(c1, (fuel - 1) as nat) == run_from(c2, (fuel - 2) as nat));
        assert(run_from(c2, (fuel - 2) as nat) == RunOutcome::Halted(c2));
        assert(s2.stack =~= Seq::<nat>::empty());
        assert(s2.tape =~= s.tape.update(s.cursor as int, 0u8));
        assert(Config {
            state: State {
                pc: 3,
                tape: s.tape.update(s.cursor as int, 0u8),
                stack: Seq::empty(),
                ..s
            },
            ..c
        } =~= c2);
    } else {
        // the cell is still nonzero: the close bracket jumps back to the body
        assert(s1.stack.last() == 1nat);
        let s2 = State { pc: 1, ..s1 };
        assert(step_of(s1) == StepOutcome::Next(s2));
        let c2 = Config { state: s2, ..c1 };
        assert(run_from(c1, (fuel - 1) as nat) == run_from(c2, (fuel - 2) as nat));
        lemma_clear_loop_body(c2, (fuel - 2) as nat);
        assert(s2.tape.update(s.cursor as int, 0u8) =~= s.tape.update(s.cursor as int, 0u8));
    }
}

/// The two-instruction program `,.` echoes exactly one input byte to the
/// output unchanged: it halts having consumed one byte and written that
/// byte, whatever the byte and whatever follows it.
pub proof fn lemma_echo(input: Seq<u8>, fuel: nat)
    requires
        input.len() >= 1,
        fuel >= 3,
    ensures
        run_from(init_config(seq![READ, WRITE], input), fuel) == RunOutcome::Halted(
            Config {
                state: State {
                    program: seq![READ, WRITE],
                    pc: 2,
                    tape: zeros(TAPE_CHUNK as nat).update(0, input[0]),
                    cursor: 0,
                    stack: Seq::empty(),
                },
                input: input.skip(1),
                output: seq![input[0]],
            },
        ),
{
    let c = init_config(seq![READ, WRITE], input);
    let s = c.state;
    assert(step_of(s) == StepOutcome::AwaitInput);
    let s1 = State { tape: s.tape.update(0, input[0]), pc: 1, ..s };
    let c1 = Config { state: s1, input: input.skip(1), ..c };
    assert(run_from(c, fuel) == run_from(c1, (fuel - 1) as nat));
    assert(s1.tape[0] == input[0]);
    assert(step_of(s1) == StepOutcome::Emit(input[0], State { pc: 2, ..s1 }));
    let s2 = State { pc: 2, ..s1 };
    let c2 = Config { state: s2, output: c1.output.push(input[0]), ..c1 };
    assert(run_from(c1, (fuel - 1) as nat) == run_from(c2, (fuel - 2) as nat));
    assert(run_from(c2, (fuel - 2) as nat) == RunOutcome::Halted(c2));
    assert(c2.output =~= seq![input[0]]);
}

/// A forward scan with at least one bracket still open and no close bracket
/// anywhere ahead never finds a match.
proof fn lemma_skip_none(p: Seq<u8>, pos: nat, depth: nat)
    requires
        depth >= 1,
        forall|i: int| pos <= i < p.len() ==> #[trigger] p[i] != CLOSE,
    ensures
        skip_from(p, pos, depth) == None::<nat>,
    decreases p.len() - pos,
{
    if pos < p.len() {
        lemma_skip_none(p, pos + 1, if p[pos as int] == OPEN {
            depth + 1
        } else {
            depth
        });
    }
}

/// An open bracket with no close bracket anywhere after it, reached with the
/// current cell zero, fails with `UnmatchedStartBracket`.
pub proof fn lemma_unmatched_open(c: Config, fuel: nat)
    requires
        c.state.pc < c.state.program.len(),
        c.state.program[c.state.pc as int] == OPEN,
        c.state.tape[c.state.cursor as int] == 0,
        forall|i: int|
            c.state.pc < i < c.state.program.len() ==> #[trigger] c.state.program[i] != CLOSE,
        fuel >= 1,
    ensures
        run_from(c, fuel) == RunOutcome::Failed(ExecutionError::UnmatchedStartBracket, c),
{
    lemma_skip_none(c.state.program, c.state.pc + 1, 1);
}

/// A close bracket reached with an empty jump stack fails with
/// `UnmatchedEndBracket`, whatever the current cell holds: the strict policy
/// rejects a close with no recorded open even on a zero cell.
pub proof fn lemma_unmatched_close(c: Config, fuel: nat)
    requires
        c.state.pc < c.state.program.len(),
        c.state.program[c.state.pc as int] == CLOSE,
        c.state.stack == Seq::<nat>::empty(),
        fuel >= 1,
    ensures
        run_from(c, fuel) == RunOutcome::Failed(ExecutionError::UnmatchedEndBracket, c),
{
}

/// The tape never shrinks and never grows at the low end: one instruction
/// either leaves the tape's length alone or appends exactly one zeroed
/// chunk at the high end, and a consumed input byte never changes it.
pub proof fn lemma_tape_monotone(s: State, b: u8)
    requires
        wf(s),
    ensures
        match step_of(s) {
            StepOutcome::Next(s2) => s2.tape.len() == s.tape.len() || s2.tape == s.tape + zeros(
                TAPE_CHUNK as nat,
            ),
            StepOutcome::Emit(_, s2) => s2.tape == s.tape,
            _ => true,
        },
        feed_of(s, b).tape.len() == s.tape.len(),
{
}

/// A close bracket reached with a nonzero cell jumps back without popping,
/// so a loop whose body never zeroes its cell never settles: the program
/// `+[]` is still running under every step budget, whatever the input.
pub proof fn lemma_endless_loop(input: Seq<u8>, fuel: nat)
    ensures
        run_from(init_config(seq![INC, OPEN, CLOSE], input), fuel) matches RunOutcome::Running(_),
{
    let c = init_config(seq![INC, OPEN, CLOSE], input);
    let s = c.state;
    if fuel >= 1 {
        assert(inc_cell(0) == 1);
        let s1 = State { tape: s.tape.update(0, 1u8), pc: 1, ..s };
        assert(step_of(s) == StepOutcome::Next(s1));
        let c1 = Config { state: s1, ..c };
        assert(run_from(c, fuel) == run_from(c1, (fuel - 1) as nat));
        if fuel >= 2 {
            assert(s1.tape[0] == 1);
            let s2 = State { stack: s1.stack.push(2), pc: 2, ..s1 };
            assert(step_of(s1) == StepOutcome::Next(s2));
            let c2 = Config { state: s2, ..c1 };
            assert(run_from(c1, (fuel - 1) as nat) == run_from(c2, (fuel - 2) as nat));
            assert(s2.stack =~= seq![2nat]);
            lemma_spin(c2, (fuel - 2) as nat);
        }
    }
}

/// The spinning state of the endless loop: at the close bracket with a
/// nonzero cell and resume position 2 on the stack, every step returns to
/// the very same state.
proof fn lemma_spin(c: Config, fuel: nat)
    requires
        c.state.program == seq![INC, OPEN, CLOSE],
        c.state.pc == 2,
        c.state.stack == seq![2nat],
        c.state.tape[c.state.cursor as int] != 0,
    ensures
        run_from(c, fuel) matches RunOutcome::Running(_),
    decreases fuel,
{
    if fuel >= 1 {
        let s = c.state;
        assert(s.stack.last() == 2);
        let s1 = State { pc: s.stack.last(), ..s };
        assert(step_of(s) == StepOutcome::Next(s1));
        assert(s1 =~= s);
        assert(run_from(c, fuel) == run_from(Config { state: s1, ..c }, (fuel - 1) as nat));
        lemma_spin(Config { state: s1, ..c }, (fuel - 1) as nat);
    }
}

} // verus!

