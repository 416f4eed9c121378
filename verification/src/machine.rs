//! The executable engine, verified against the model in `semantics`.
//!
//! A `Machine` owns the program, the tape and the jump stack, and runs one
//! instruction per `step` call. Input and output are not performed here:
//! `step` reports a read instruction as `Event::NeedsInput` (the caller then
//! hands the byte to `feed`) and a write instruction as `Event::Wrote`, so
//! that a caller may connect the engine to any byte streams. `run` connects
//! it to in-memory streams and is verified end to end.

use vstd::prelude::*;
use vstd::pervasive::VecAdditionalExecFns;
use crate::semantics::{
    State, StepOutcome, ExecutionError, TAPE_CHUNK, INC, DEC, RIGHT, LEFT, OPEN, CLOSE, READ,
    WRITE, wf, init_state, init_config, skip_from, step_of, feed_of, awaiting_input, zeros,
    Config, RunOutcome, run_from, lemma_run_from_mono,
};

verus! {

/// What one `step` call did, when it did not fail.
#[derive(Clone, Copy, Debug, PartialEq, Eq, Structural)]
pub enum Event {
    /// One instruction ran; the machine is ready for the next step.
    Ran,
    /// The machine sits on a read instruction and waits for `feed`.
    NeedsInput,
    /// A write instruction emitted this byte; the caller should deliver it.
    Wrote(u8),
    /// The program counter reached the end of the program.
    Done,
}

/// The execution engine: program counter, tape with cursor, and jump stack.
pub struct Machine {
    program: Vec<u8>,
    pc: usize,
    tape: Vec<u8>,
    cursor: usize,
    stack: Vec<usize>,
}

impl View for Machine {
    type V = State;

    closed spec fn view(&self) -> State {
        State {
            program: self.program@,
            pc: self.pc as nat,
            tape: self.tape@,
            cursor: self.cursor as nat,
            stack: self.stack@.map_values(|p: usize| p as nat),
        }
    }
}

/// Append `n` zeroed cells to the tape.
fn extend_zeros(tape: &mut Vec<u8>, n: usize)
    ensures
        final(tape)@ == old(tape)@ + zeros(n as nat),
{
    let mut i: usize = 0;
    while i < n
        invariant
            i <= n,
            tape@ == old(tape)@ + zeros(i as nat),
        decreases n - i,
    {
        tape.push(0);
        proof {
            assert(old(tape)@ + zeros((i + 1) as nat) =~= (old(tape)@ + zeros(i as nat)).push(
                0u8,
            ));
        }
        i = i + 1;
    }
}

impl Machine {
    /// The machine's internal invariant; established by `new` and kept by
    /// every method.
    pub open spec fn inv(&self) -> bool {
        wf(self@)
    }

    /// A fresh machine for the given program: counter and cursor at 0, one
    /// chunk of zeroed tape, an empty jump stack.
    pub fn new(program: Vec<u8>) -> (m: Machine)
        ensures
            m.inv(),
            m@ == init_state(program@),
    {
        let ghost p = program@;
        let mut tape: Vec<u8> = Vec::new();
        extend_zeros(&mut tape, TAPE_CHUNK);
        let m = Machine { program, pc: 0, tape, cursor: 0, stack: Vec::new() };
        proof {
            assert(Seq::<u8>::empty() + zeros(TAPE_CHUNK as nat) =~= zeros(TAPE_CHUNK as nat));
            assert(m@ =~= init_state(p));
        }
        m
    }

    /// Run one instruction, as `step_of` describes: the returned event (or
    /// error) and the machine's new state are exactly those of the model.
    /// On an error, and on `NeedsInput` and `Done`, the state is unchanged.
    pub fn step(&mut self) -> (r: Result<Event, ExecutionError>)
        requires
            old(self).inv(),
        ensures
            final(self).inv(),
            match step_of(old(self)@) {
                StepOutcome::Next(s2) => r == Ok::<Event, ExecutionError>(Event::Ran)
                    && final(self)@ == s2,
                StepOutcome::AwaitInput => r == Ok::<Event, ExecutionError>(Event::NeedsInput)
                    && final(self)@ == old(self)@,
                StepOutcome::Emit(b, s2) => r == Ok::<Event, ExecutionError>(Event::Wrote(b))
                    && final(self)@ == s2,
                StepOutcome::Halt => r == Ok::<Event, ExecutionError>(Event::Done)
                    && final(self)@ == old(self)@,
                StepOutcome::Fail(e) => r == Err::<Event, ExecutionError>(e)
                    && final(self)@ == old(self)@,
            },
    {
        if self.pc >= self.program.len() {
            return Ok(Event::Done);
        }
        let op = self.program[self.pc];
        if op == INC {
            let v = self.tape[self.cursor];
            self.tape.set(self.cursor, if v == 255 { 0 } else { v + 1 });
            self.pc = self.pc + 1;
            Ok(Event::Ran)
        } else if op == DEC {
            let v = self.tape[self.cursor];
            self.tape.set(self.cursor, if v == 0 { 255 } else { v - 1 });
            self.pc = self.pc + 1;
            Ok(Event::Ran)
        } else if op == RIGHT {
            let len = self.tape.len();
            if self.cursor == len - 1 {
                extend_zeros(&mut self.tape, TAPE_CHUNK);
            }
            self.cursor = self.cursor + 1;
            self.pc = self.pc + 1;
            Ok(Event::Ran)
        } else if op == LEFT {
            if self.cursor == 0 {
                return Err(ExecutionError::TapeUnderflow);
            }
            self.cursor = self.cursor - 1;
            self.pc = self.pc + 1;
            Ok(Event::Ran)
        } else if op == OPEN {
            if self.tape[self.cursor] != 0 {
                self.stack.push(self.pc + 1);
                self.pc = self.pc + 1;
                proof {
                    assert(self@.stack =~= old(self)@.stack.push((old(self)@.pc + 1) as nat));
                }
                Ok(Event::Ran)
            } else {
                let mut pos = self.pc + 1;
                let mut depth: usize = 1;
                while depth != 0
                    invariant
                        old(self).inv(),
                        self == old(self),
                        old(self)@.pc < old(self)@.program.len(),
                        old(self)@.program[old(self)@.pc as int] == OPEN,
                        old(self)@.tape[old(self)@.cursor as int] == 0,
                        self.pc + 1 <= pos <= self.program.len(),
                        1 <= depth <= pos,
                        skip_from(self.program@, pos as nat, depth as nat) == skip_from(
                            self.program@,
                            (self.pc + 1) as nat,
                            1nat,
                        ),
                    decreases self.program@.len() - pos,
                {
                    if pos == self.program.len() {
                        return Err(ExecutionError::UnmatchedStartBracket);
                    }
                    let b = self.program[pos];
                    if b == OPEN {
                        depth = depth + 1;
                    } else if b == CLOSE {
                        if depth == 1 {
                            // the matching close: the scan ends just past it
                            proof {
                                assert(skip_from(self.program@, (pos + 1) as nat, 0nat) == Some(
                                    (pos + 1) as nat,
                                ));
                                assert(skip_from(self.program@, pos as nat, 1nat) == Some(
                                    (pos + 1) as nat,
                                ));
                            }
                            self.pc = pos + 1;
                            return Ok(Event::Ran);
                        }
                        depth = depth - 1;
                    }
                    pos = pos + 1;
                }
                // depth starts at 1 and the loop returns before it reaches 0
                proof {
                    assert(false);
                }
                Ok(Event::Ran)
            }
        } else if op == CLOSE {
            if self.stack.len() == 0 {
                Err(ExecutionError::UnmatchedEndBracket)
            } else if self.tape[self.cursor] != 0 {
                self.pc = self.stack[self.stack.len() - 1];
                proof {
                    assert(self@.pc == old(self)@.stack.last());
                }
                Ok(Event::Ran)
            } else {
                let _ = self.stack.pop();
                self.pc = self.pc + 1;
                proof {
                    assert(self@.stack =~= old(self)@.stack.drop_last());
                }
                Ok(Event::Ran)
            }
        } else if op == READ {
            Ok(Event::NeedsInput)
        } else if op == WRITE {
            let b = self.tape[self.cursor];
            self.pc = self.pc + 1;
            Ok(Event::Wrote(b))
        } else {
            self.pc = self.pc + 1;
            Ok(Event::Ran)
        }
    }

    /// Deliver one input byte to a machine that sits on a read instruction:
    /// the byte lands in the current cell and the counter advances.
    pub fn feed(&mut self, b: u8)
        requires
            old(self).inv(),
            awaiting_input(old(self)@),
        ensures
            final(self).inv(),
            final(self)@ == feed_of(old(self)@, b),
    {
        // reading the length as a usize bounds the counter's advance
        let _len = self.program.len();
        self.tape.set(self.cursor, b);
        self.pc = self.pc + 1;
        proof {
            assert(self@.stack == old(self)@.stack);
        }
    }

    /// Whether the machine sits on a read instruction, so that `feed` may be
    /// called.
    pub fn is_awaiting_input(&self) -> (r: bool)
        ensures
            r == awaiting_input(self@),
    {
        self.pc < self.program.len() && self.program[self.pc] == READ
    }

    /// Whether the program counter has reached the end of the program.
    pub fn is_done(&self) -> (r: bool)
        requires
            self.inv(),
        ensures
            r == (self@.pc == self@.program.len()),
    {
        self.pc >= self.program.len()
    }

    /// The current length of the tape, in cells.
    pub fn tape_len(&self) -> (r: usize)
        ensures
            r == self@.tape.len(),
    {
        self.tape.len()
    }

    /// The cursor's position on the tape.
    pub fn cursor_position(&self) -> (r: usize)
        ensures
            r == self@.cursor,
    {
        self.cursor
    }

    /// The value of the cell under the cursor.
    pub fn current_cell(&self) -> (r: u8)
        requires
            self.inv(),
        ensures
            r == self@.tape[self@.cursor as int],
    {
        self.tape[self.cursor]
    }

    /// The value of the cell at `i`, or `None` past the end of the tape.
    pub fn cell(&self, i: usize) -> (r: Option<u8>)
        ensures
            r == if i < self@.tape.len() {
                Some(self@.tape[i as int])
            } else {
                None::<u8>
            },
    {
        if i < self.tape.len() {
            Some(self.tape[i])
        } else {
            None
        }
    }
}

/// What a bounded run ended as.
#[derive(Debug, PartialEq, Eq)]
pub enum RunStatus {
    /// The program ran off its end; this is the output it wrote.
    Halted(Vec<u8>),
    /// The run stopped at this error.
    Failed(ExecutionError),
    /// The step budget ran out with the machine still going.
    OutOfFuel,
}

/// Run a program over in-memory streams, for at most `fuel` instructions:
/// the whole input is given up front, the output is collected and returned.
/// The result is exactly what the model's `run_from` says for that budget;
/// a program that never stops exhausts any budget, by design. A caller that
/// wants real, on-demand streams drives `Machine::step` itself.
pub fn run(program: Vec<u8>, input: Vec<u8>, fuel: u64) -> (r: RunStatus)
    ensures
        match run_from(init_config(program@, input@), fuel as nat) {
            RunOutcome::Halted(c) => r matches RunStatus::Halted(out) && out@ == c.output,
            RunOutcome::Failed(e, c) => r == RunStatus::Failed(e),
            RunOutcome::Running(c) => r == RunStatus::OutOfFuel,
        },
{
    let ghost init = init_config(program@, input@);
    let mut m = Machine::new(program);
    let mut next: usize = 0;
    let mut out: Vec<u8> = Vec::new();
    let mut remaining: u64 = fuel;
    let ghost mut steps: nat = 0;
    proof {
        assert(input@.skip(0) =~= input@);
        assert(init =~= Config { state: m@, input: input@.skip(0), output: out@ });
    }
    loop
        invariant
            m.inv(),
            next <= input.len(),
            steps + remaining == fuel,
            init == init_config(program@, input@),
            forall|k: nat| #[trigger] run_from(init, steps + k) == run_from(
                Config { state: m@, input: input@.skip(next as int), output: out@ },
                k,
            ),
        decreases remaining,
    {
        let ghost cur = Config { state: m@, input: input@.skip(next as int), output: out@ };
        if remaining == 0 {
            proof {
                assert(run_from(init, steps + 0) == run_from(cur, 0));
            }
            return RunStatus::OutOfFuel;
        }
        match m.step() {
            Ok(Event::Ran) => {
                remaining = remaining - 1;
                proof {
                    assert forall|k: nat| #[trigger] run_from(init, (steps + 1) + k) == run_from(
                        Config { state: m@, input: input@.skip(next as int), output: out@ },
                        k,
                    ) by {
                        assert(run_from(init, steps + (1 + k)) == run_from(cur, 1 + k));
                    }
                    steps = steps + 1;
                }
            },
            Ok(Event::NeedsInput) => {
                if next == input.len() {
                    proof {
                        assert(input@.skip(next as int).len() == 0);
                        assert(run_from(init, steps + 1) == run_from(cur, 1));
                        lemma_run_from_mono(init, steps + 1, fuel as nat);
                    }
                    return RunStatus::Failed(ExecutionError::EndOfInput);
                }
                let b = input[next];
                m.feed(b);
                next = next + 1;
                remaining = remaining - 1;
                proof {
                    assert(cur.input[0] == b);
                    assert(input@.skip((next - 1) as int).skip(1) =~= input@.skip(next as int));
                    assert forall|k: nat| #[trigger] run_from(init, (steps + 1) + k) == run_from(
                        Config { state: m@, input: input@.skip(next as int), output: out@ },
                        k,
                    ) by {
                        assert(run_from(init, steps + (1 + k)) == run_from(cur, 1 + k));
                    }
                    steps = steps + 1;
                }
            },
            Ok(Event::Wrote(b)) => {
                out.push(b);
                remaining = remaining - 1;
                proof {
                    assert forall|k: nat| #[trigger] run_from(init, (steps + 1) + k) == run_from(
                        Config { state: m@, input: input@.skip(next as int), output: out@ },
                        k,
                    ) by {
                        assert(run_from(init, steps + (1 + k)) == run_from(cur, 1 + k));
                    }
                    steps = steps + 1;
                }
            },
            Ok(Event::Done) => {
                proof {
                    assert(run_from(init, steps + 1) == run_from(cur, 1));
                    lemma_run_from_mono(init, steps + 1, fuel as nat);
                }
                return RunStatus::Halted(out);
            },
            Err(e) => {
                proof {
                    assert(run_from(init, steps + 1) == run_from(cur, 1));
                    lemma_run_from_mono(init, steps + 1, fuel as nat);
                }
                return RunStatus::Failed(e);
            },
        }
    }
}

} // verus!
