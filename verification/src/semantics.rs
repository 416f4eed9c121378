//! The mathematical model of the engine: machine states, one-instruction
//! transitions, and a fuel-indexed run function over them.

use vstd::prelude::*;

verus! {

/// The eight recognized instruction bytes. Any other byte is a no-op.
pub const INC: u8 = 43; // b'+'
pub const DEC: u8 = 45; // b'-'
pub const RIGHT: u8 = 62; // b'>'
pub const LEFT: u8 = 60; // b'<'
pub const OPEN: u8 = 91; // b'['
pub const CLOSE: u8 = 93; // b']'
pub const READ: u8 = 44; // b','
pub const WRITE: u8 = 46; // b'.'

/// The number of cells the tape starts with, and the size of each extension.
pub const TAPE_CHUNK: usize = 256;

/// A terminal failure of a run. Every error stops the run at once; none is
/// retried or caught internally.
#[derive(Clone, Copy, Debug, PartialEq, Eq, Structural)]
pub enum ExecutionError {
    /// The cursor was asked to retreat below position 0.
    TapeUnderflow,
    /// A zero-entry loop skip ran off the end of the program without finding
    /// its matching close bracket.
    UnmatchedStartBracket,
    /// A close bracket was reached with no corresponding open recorded.
    UnmatchedEndBracket,
    /// An input read found the stream exhausted.
    EndOfInput,
    /// An input read failed for a reason other than exhaustion.
    InputFailure,
    /// An output write failed.
    OutputFailure,
}

/// The abstract state of the engine: the immutable program, the program
/// counter, the tape with its cursor, and the jump stack of loop-entry
/// resume positions (each the position just after its `[`).
#[verifier::ext_equal]
pub ghost struct State {
    pub program: Seq<u8>,
    pub pc: nat,
    pub tape: Seq<u8>,
    pub cursor: nat,
    pub stack: Seq<nat>,
}

/// What one instruction does to a machine state.
#[verifier::ext_equal]
pub ghost enum StepOutcome {
    /// An instruction ran without touching the input or output streams.
    Next(State),
    /// The machine sits on a read instruction and waits for one input byte.
    AwaitInput,
    /// A write instruction emitted the given byte; the state advanced.
    Emit(u8, State),
    /// The program counter reached the end of the program.
    Halt,
    /// The run failed.
    Fail(ExecutionError),
}

/// A sequence of `n` zeroed cells.
pub open spec fn zeros(n: nat) -> Seq<u8> {
    Seq::new(n, |i: int| 0u8)
}

/// Increment a cell, wrapping 255 to 0.
pub open spec fn inc_cell(v: u8) -> u8 {
    (((v as int) + 1) % 256) as u8
}

/// Decrement a cell, wrapping 0 to 255.
pub open spec fn dec_cell(v: u8) -> u8 {
    (((v as int) + 255) % 256) as u8
}

/// Well-formedness of a state: the cursor stays on the tape, the program
/// counter stays within one past the program, and every saved jump position
/// does too.
pub open spec fn wf(s: State) -> bool {
    &&& s.cursor < s.tape.len()
    &&& s.pc <= s.program.len()
    &&& forall|i: int| 0 <= i < s.stack.len() ==> #[trigger] s.stack[i] <= s.program.len()
}

/// The state a fresh run starts in: counter and cursor at 0, one chunk of
/// zeroed tape, an empty jump stack.
pub open spec fn init_state(program: Seq<u8>) -> State {
    State {
        program,
        pc: 0,
        tape: zeros(TAPE_CHUNK as nat),
        cursor: 0,
        stack: Seq::empty(),
    }
}

/// The position just past the close bracket that matches an open bracket,
/// scanning forward from `pos` with `depth` brackets currently open;
/// `None` when the scan runs off the end of the program first.
pub open spec fn skip_from(program: Seq<u8>, pos: nat, depth: nat) -> Option<nat>
    decreases program.len() - pos,
{
    if depth == 0 {
        Some(pos)
    } else if pos >= program.len() {
        None
    } else {
        let next_depth: nat = if program[pos as int] == OPEN {
            depth + 1
        } else if program[pos as int] == CLOSE {
            (depth - 1) as nat
        } else {
            depth
        };
        skip_from(program, pos + 1, next_depth)
    }
}

/// True when the machine sits on a read instruction: the next step consumes
/// one input byte.
pub open spec fn awaiting_input(s: State) -> bool {
    s.pc < s.program.len() && s.program[s.pc as int] == READ
}

/// One instruction of the engine, applied to a state. Cell arithmetic wraps
/// modulo 256; the tape grows by one zeroed chunk exactly when the cursor
/// would land one past its end; unrecognized bytes advance the counter and
/// do nothing else.
pub open spec fn step_of(s: State) -> StepOutcome {
    if s.pc >= s.program.len() {
        StepOutcome::Halt
    } else {
        let op = s.program[s.pc as int];
        if op == INC {
            StepOutcome::Next(State {
                tape: s.tape.update(s.cursor as int, inc_cell(s.tape[s.cursor as int])),
                pc: s.pc + 1,
                ..s
            })
        } else if op == DEC {
            StepOutcome::Next(State {
                tape: s.tape.update(s.cursor as int, dec_cell(s.tape[s.cursor as int])),
                pc: s.pc + 1,
                ..s
            })
        } else if op == RIGHT {
            let tape = if s.cursor + 1 == s.tape.len() {
                s.tape + zeros(TAPE_CHUNK as nat)
            } else {
                s.tape
            };
            StepOutcome::Next(State { tape, cursor: s.cursor + 1, pc: s.pc + 1, ..s })
        } else if op == LEFT {
            if s.cursor == 0 {
                StepOutcome::Fail(ExecutionError::TapeUnderflow)
            } else {
                StepOutcome::Next(State { cursor: (s.cursor - 1) as nat, pc: s.pc + 1, ..s })
            }
        } else if op == OPEN {
            if s.tape[s.cursor as int] != 0 {
                StepOutcome::Next(State { stack: s.stack.push(s.pc + 1), pc: s.pc + 1, ..s })
            } else {
                match skip_from(s.program, s.pc + 1, 1) {
                    Some(after) => StepOutcome::Next(State { pc: after, ..s }),
                    None => StepOutcome::Fail(ExecutionError::UnmatchedStartBracket),
                }
            }
        } else if op == CLOSE {
            if s.stack.len() == 0 {
                StepOutcome::Fail(ExecutionError::UnmatchedEndBracket)
            } else if s.tape[s.cursor as int] != 0 {
                StepOutcome::Next(State { pc: s.stack.last(), ..s })
            } else {
                StepOutcome::Next(State { stack: s.stack.drop_last(), pc: s.pc + 1, ..s })
            }
        } else if op == READ {
            StepOutcome::AwaitInput
        } else if op == WRITE {
            StepOutcome::Emit(
                s.tape[s.cursor as int],
                State { pc: s.pc + 1, ..s },
            )
        } else {
            StepOutcome::Next(State { pc: s.pc + 1, ..s })
        }
    }
}

/// The state after a read instruction consumes the byte `b`: the byte lands
/// in the current cell and the counter advances.
pub open spec fn feed_of(s: State, b: u8) -> State {
    State { tape: s.tape.update(s.cursor as int, b), pc: s.pc + 1, ..s }
}

/// A machine state together with its streams: the input bytes not yet read
/// and the output bytes written so far.
#[verifier::ext_equal]
pub ghost struct Config {
    pub state: State,
    pub input: Seq<u8>,
    pub output: Seq<u8>,
}

/// Where a run stands after a given amount of fuel.
#[verifier::ext_equal]
pub ghost enum RunOutcome {
    /// The fuel ran out with the machine still going.
    Running(Config),
    /// The program counter reached the end of the program.
    Halted(Config),
    /// The run stopped at this error.
    Failed(ExecutionError, Config),
}

/// The configuration a fresh run starts in: the initial state, the whole
/// input still unread, nothing written.
pub open spec fn init_config(program: Seq<u8>, input: Seq<u8>) -> Config {
    Config { state: init_state(program), input, output: Seq::empty() }
}

/// Run the machine for at most `fuel` instructions. A read instruction
/// consumes the first unread input byte, or fails with `EndOfInput` when
/// none is left; a write instruction appends to the output.
pub open spec fn run_from(c: Config, fuel: nat) -> RunOutcome
    decreases fuel,
{
    if fuel == 0 {
        RunOutcome::Running(c)
    } else {
        match step_of(c.state) {
            StepOutcome::Halt => RunOutcome::Halted(c),
            StepOutcome::Fail(e) => RunOutcome::Failed(e, c),
            StepOutcome::Next(s2) => run_from(Config { state: s2, ..c }, (fuel - 1) as nat),
            StepOutcome::Emit(b, s2) => run_from(
                Config { state: s2, output: c.output.push(b), ..c },
                (fuel - 1) as nat,
            ),
            StepOutcome::AwaitInput => if c.input.len() == 0 {
                RunOutcome::Failed(ExecutionError::EndOfInput, c)
            } else {
                run_from(
                    Config {
                        state: feed_of(c.state, c.input[0]),
                        input: c.input.skip(1),
                        ..c
                    },
                    (fuel - 1) as nat,
                )
            },
        }
    }
}

/// A run that has stopped, stays stopped: a settled outcome (halt or
/// failure) is the same under any larger fuel.
pub proof fn lemma_run_from_mono(c: Config, f1: nat, f2: nat)
    requires
        f1 <= f2,
        !(run_from(c, f1) is Running),
    ensures
        run_from(c, f2) == run_from(c, f1),
    decreases f1,
{
    if f1 > 0 {
        match step_of(c.state) {
            StepOutcome::Next(s2) => {
                lemma_run_from_mono(Config { state: s2, ..c }, (f1 - 1) as nat, (f2 - 1) as nat);
            },
            StepOutcome::Emit(b, s2) => {
                lemma_run_from_mono(
                    Config { state: s2, output: c.output.push(b), ..c },
                    (f1 - 1) as nat,
                    (f2 - 1) as nat,
                );
            },
            StepOutcome::AwaitInput => {
                if c.input.len() != 0 {
                    lemma_run_from_mono(
                        Config { state: feed_of(c.state, c.input[0]), input: c.input.skip(1), ..c },
                        (f1 - 1) as nat,
                        (f2 - 1) as nat,
                    );
                }
            },
            _ => {},
        }
    }
}

/// A run has at most one settled outcome: whatever fuel suffices, the same
/// halt or failure comes out.
pub proof fn lemma_run_outcome_unique(c: Config, f1: nat, f2: nat)
    requires
        !(run_from(c, f1) is Running),
        !(run_from(c, f2) is Running),
    ensures
        run_from(c, f1) == run_from(c, f2),
{
    if f1 <= f2 {
        lemma_run_from_mono(c, f1, f2);
    } else {
        lemma_run_from_mono(c, f2, f1);
    }
}

} // verus!
