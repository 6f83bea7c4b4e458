//! The interpreter: a fetch-execute loop over resolved bytecode, mutating
//! an instruction pointer, a data pointer and a byte tape.
//!
//! Input bytes come from a caller-supplied buffer and output bytes are
//! collected into another, so a run is a pure function of the program, the
//! initial tape and the available input.  Every tape access and every move
//! of the data pointer is checked: leaving the tape is an explicit
//! [`RuntimeError::OutOfRange`] rather than undefined behaviour, and an
//! input opcode with no byte left is [`RuntimeError::InputExhausted`].

use vstd::prelude::*;
use vstd::arithmetic::div_mod::lemma_add_mod_noop;
use vstd::arithmetic::div_mod::lemma_mod_self_0;
use vstd::arithmetic::div_mod::lemma_mod_twice;
use vstd::arithmetic::div_mod::lemma_sub_mod_noop;
use crate::instruction::Instruction;
use crate::instruction::is_bracket;
use crate::instruction::is_open;
use crate::instruction::target_of;

verus! {

/// A run-time error; each one aborts the run immediately.
#[derive(Copy, Clone, Debug, PartialEq, Eq, Structural)]
pub enum RuntimeError {
    /// The data pointer would leave the tape, or a cell outside it was
    /// accessed.
    OutOfRange,
    /// An input opcode found the input source exhausted.
    InputExhausted,
}

/// The mathematical state of the machine: instruction pointer, data
/// pointer, tape contents, remaining input and accumulated output.
#[verifier::ext_equal]
pub struct MachineState {
    pub ip: int,
    pub dp: int,
    pub tape: Seq<u8>,
    pub input: Seq<u8>,
    pub output: Seq<u8>,
}

/// What one opcode does to a machine state.
pub enum StepResult {
    /// The opcode completed; this is the next state.
    Next(MachineState),
    /// The opcode aborted the run.
    Fail(RuntimeError),
}

/// Eight-bit wrapping addition of a run length to a cell value.
pub open spec fn wrap_add(b: u8, n: int) -> u8 {
    (((b + n) % 256) as u8)
}

/// Eight-bit wrapping subtraction of a run length from a cell value.
pub open spec fn wrap_sub(b: u8, n: int) -> u8 {
    (((b - n) % 256) as u8)
}

/// Moving the data pointer by `delta` cells; the pointer must stay on the
/// tape.
pub open spec fn move_step(st: MachineState, delta: int) -> StepResult {
    if 0 <= st.dp + delta < st.tape.len() {
        StepResult::Next(MachineState { ip: st.ip + 1, dp: st.dp + delta, ..st })
    } else {
        StepResult::Fail(RuntimeError::OutOfRange)
    }
}

/// Adding `n` to the current cell with eight-bit wraparound; the data
/// pointer must be on the tape.
pub open spec fn add_step(st: MachineState, n: int) -> StepResult {
    if 0 <= st.dp < st.tape.len() {
        StepResult::Next(
            MachineState {
                ip: st.ip + 1,
                tape: st.tape.update(st.dp, wrap_add(st.tape[st.dp], n)),
                ..st
            },
        )
    } else {
        StepResult::Fail(RuntimeError::OutOfRange)
    }
}

/// Subtracting `n` from the current cell with eight-bit wraparound.
pub open spec fn sub_step(st: MachineState, n: int) -> StepResult {
    if 0 <= st.dp < st.tape.len() {
        StepResult::Next(
            MachineState {
                ip: st.ip + 1,
                tape: st.tape.update(st.dp, wrap_sub(st.tape[st.dp], n)),
                ..st
            },
        )
    } else {
        StepResult::Fail(RuntimeError::OutOfRange)
    }
}

/// The effect of one opcode on a machine state, including the uniform
/// advance of the instruction pointer.  A taken loop-open jump lands one
/// past the matching close; a taken loop-close jump lands on the matching
/// open, which re-tests the cell.
pub open spec fn op_step(op: Instruction, st: MachineState) -> StepResult {
    match op {
        Instruction::NOP => StepResult::Next(MachineState { ip: st.ip + 1, ..st }),
        Instruction::IncrementDataPtr => move_step(st, 1),
        Instruction::QuickIncrementDataPtr(n) => move_step(st, n as int),
        Instruction::DecrementDataPtr => move_step(st, -1),
        Instruction::QuickDecrementDataPtr(n) => move_step(st, -(n as int)),
        Instruction::IncrementByte => add_step(st, 1),
        Instruction::QuickIncrementByte(n) => add_step(st, n as int),
        Instruction::DecrementByte => sub_step(st, 1),
        Instruction::QuickDecrementByte(n) => sub_step(st, n as int),
        Instruction::OutputByte => {
            if 0 <= st.dp < st.tape.len() {
                StepResult::Next(
                    MachineState { ip: st.ip + 1, output: st.output.push(st.tape[st.dp]), ..st },
                )
            } else {
                StepResult::Fail(RuntimeError::OutOfRange)
            }
        },
        Instruction::InputByte => {
            if !(0 <= st.dp < st.tape.len()) {
                StepResult::Fail(RuntimeError::OutOfRange)
            } else if st.input.len() == 0 {
                StepResult::Fail(RuntimeError::InputExhausted)
            } else {
                StepResult::Next(
                    MachineState {
                        ip: st.ip + 1,
                        tape: st.tape.update(st.dp, st.input[0]),
                        input: st.input.drop_first(),
                        ..st
                    },
                )
            }
        },
        Instruction::LoopOpen { close_location } => {
            if 0 <= st.dp < st.tape.len() {
                if st.tape[st.dp] == 0 {
                    StepResult::Next(MachineState { ip: close_location + 1, ..st })
                } else {
                    StepResult::Next(MachineState { ip: st.ip + 1, ..st })
                }
            } else {
                StepResult::Fail(RuntimeError::OutOfRange)
            }
        },
        Instruction::LoopClose { open_location } => {
            if 0 <= st.dp < st.tape.len() {
                if st.tape[st.dp] != 0 {
                    StepResult::Next(MachineState { ip: open_location as int, ..st })
                } else {
                    StepResult::Next(MachineState { ip: st.ip + 1, ..st })
                }
            } else {
                StepResult::Fail(RuntimeError::OutOfRange)
            }
        },
    }
}

/// What a bounded run of the interpreter reports.
#[derive(Copy, Clone, Debug, PartialEq, Eq, Structural)]
pub enum RunStatus {
    /// The instruction pointer left the program: a normal halt.
    Halted,
    /// The cycle budget was exhausted; calling [`Interpreter::run`] again
    /// resumes the run where it stopped.
    StillRunning,
    /// An opcode aborted the run.
    Failed(RuntimeError),
}

/// The outcome of running the machine for a bounded number of cycles.
pub enum RunResult {
    /// The cycle budget ran out with the machine still going.
    Running(MachineState),
    /// The instruction pointer left the program: a normal halt.
    Halted(MachineState),
    /// An opcode aborted the run in the given state.
    Failed(RuntimeError, MachineState),
}

/// One fetch-execute cycle: halt when the instruction pointer is outside
/// the program, otherwise apply the fetched opcode.
pub open spec fn machine_step(prog: Seq<Instruction>, st: MachineState) -> Option<StepResult> {
    if 0 <= st.ip < prog.len() {
        Some(op_step(prog[st.ip], st))
    } else {
        None
    }
}

/// Running the machine for at most `n` cycles from `st`.
pub open spec fn run_n(prog: Seq<Instruction>, st: MachineState, n: nat) -> RunResult
    decreases n,
{
    if n == 0 {
        RunResult::Running(st)
    } else {
        match machine_step(prog, st) {
            None => RunResult::Halted(st),
            Some(StepResult::Fail(e)) => RunResult::Failed(e, st),
            Some(StepResult::Next(st2)) => run_n(prog, st2, (n - 1) as nat),
        }
    }
}

/// Extending the outcome of a bounded run by one more cycle.
pub open spec fn run_extend(prog: Seq<Instruction>, prev: RunResult) -> RunResult {
    match prev {
        RunResult::Running(s) => (match machine_step(prog, s) {
            None => RunResult::Halted(s),
            Some(StepResult::Fail(e)) => RunResult::Failed(e, s),
            Some(StepResult::Next(s2)) => RunResult::Running(s2),
        }),
        done => done,
    }
}

/// Unfolding a bounded run from its far end: one more cycle after `n`.
pub proof fn lemma_run_n_snoc(prog: Seq<Instruction>, st: MachineState, n: nat)
    ensures
        run_n(prog, st, n + 1) == run_extend(prog, run_n(prog, st, n)),
    decreases n,
{
    if n == 0 {
        assert(run_n(prog, st, 0) == RunResult::Running(st));
        match machine_step(prog, st) {
            Some(StepResult::Next(st2)) => {
                assert(run_n(prog, st2, 0) == RunResult::Running(st2));
            },
            _ => {},
        }
    } else {
        match machine_step(prog, st) {
            Some(StepResult::Next(st2)) => {
                lemma_run_n_snoc(prog, st2, (n - 1) as nat);
                assert(run_n(prog, st, n + 1) == run_n(prog, st2, n));
                assert(run_n(prog, st, n) == run_n(prog, st2, (n - 1) as nat));
            },
            _ => {},
        }
    }
}

/// A halted or failed run stays halted or failed under a larger budget.
pub proof fn lemma_run_n_stable(prog: Seq<Instruction>, st: MachineState, n: nat, m: nat)
    requires
        n <= m,
        !(run_n(prog, st, n) is Running),
    ensures
        run_n(prog, st, m) == run_n(prog, st, n),
    decreases m,
{
    if n > 0 && m > n {
        match machine_step(prog, st) {
            Some(StepResult::Next(st2)) => {
                lemma_run_n_stable(prog, st2, (n - 1) as nat, (m - 1) as nat);
            },
            _ => {},
        }
    }
}

/// Every bracket's target lies inside the program: all the executor needs
/// to fetch and jump safely.
pub open spec fn wf_program(p: Seq<Instruction>) -> bool {
    forall|i: int|
        0 <= i < p.len() && is_bracket(#[trigger] p[i]) ==> (target_of(p[i]) as int) < p.len()
}

/// A fully resolved program is safe to execute: every bracket points at
/// its matching partner, which lies inside the program.  This is the
/// bridge from the compiler's guarantee to what `run` asks of a program.
pub proof fn lemma_resolved_wf(p: Seq<Instruction>)
    requires
        crate::compiler::resolved(p),
    ensures
        wf_program(p),
{
    assert forall|i: int|
        0 <= i < p.len() && is_bracket(#[trigger] p[i]) implies (target_of(p[i]) as int)
        < p.len() by {
        if is_open(p[i]) {
            assert(crate::compiler::pair_matched(p, i, target_of(p[i]) as int));
        } else {
            assert(crate::compiler::pair_matched(p, target_of(p[i]) as int, i));
        }
    }
}

/// The interpreter: a program, a tape, the input not yet consumed, the
/// output produced so far, and the two pointers.  The program and the tape
/// are exclusively owned for the lifetime of one run.
pub struct Interpreter {
    pub program: Vec<Instruction>,
    pub memory: Vec<u8>,
    pub input: Vec<u8>,
    pub output: Vec<u8>,
    pub instruction_ptr: usize,
    pub data_ptr: usize,
}

impl Interpreter {
    /// The machine state this interpreter currently holds.
    pub open spec fn state(&self) -> MachineState {
        MachineState {
            ip: self.instruction_ptr as int,
            dp: self.data_ptr as int,
            tape: self.memory@,
            input: self.input@,
            output: self.output@,
        }
    }

    /// A fresh interpreter over a program, a caller-supplied tape and the
    /// bytes available for input opcodes; both pointers start at zero and
    /// no output has been produced.
    pub fn new(program: Vec<Instruction>, memory: Vec<u8>, input: Vec<u8>) -> (r: Interpreter)
        ensures
            r.program == program,
            r.memory == memory,
            r.input == input,
            r.output@ =~= Seq::<u8>::empty(),
            r.instruction_ptr == 0,
            r.data_ptr == 0,
    {
        Interpreter { program, memory, input, output: Vec::new(), instruction_ptr: 0, data_ptr: 0 }
    }

    /// The value of the current cell.
    pub fn data(&self) -> (r: u8)
        requires
            self.data_ptr < self.memory.len(),
        ensures
            r == self.memory@[self.data_ptr as int],
    {
        self.memory[self.data_ptr]
    }

    /// Runs the fetch-execute loop for at most `max_cycles` cycles: exactly
    /// what `run_n` says of that budget.  A normal halt (the instruction
    /// pointer leaves the program) reports [`RunStatus::Halted`]; an aborted
    /// run reports the error.  A run that exhausts its budget reports
    /// [`RunStatus::StillRunning`] with all state kept, and calling again
    /// resumes it, so a caller that keeps calling runs without any bound —
    /// an unbounded loop in the program is the program's own property.
    #[verifier::rlimit(80)]
    pub fn run(&mut self, max_cycles: usize) -> (r: RunStatus)
        requires
            wf_program(old(self).program@),
        ensures
            final(self).program == old(self).program,
            run_n(old(self).program@, old(self).state(), max_cycles as nat) == (match r {
                RunStatus::Halted => RunResult::Halted(final(self).state()),
                RunStatus::StillRunning => RunResult::Running(final(self).state()),
                RunStatus::Failed(e) => RunResult::Failed(e, final(self).state()),
            }),
    {
        let ghost prog = self.program@;
        let ghost init = self.state();
        let mut i: usize = 0;
        while i < max_cycles
            invariant
                self.program == old(self).program,
                self.program@ == prog,
                prog == old(self).program@,
                init == old(self).state(),
                wf_program(prog),
                i <= max_cycles,
                run_n(prog, init, i as nat) == RunResult::Running(self.state()),
            decreases max_cycles - i,
        {
            if self.instruction_ptr >= self.program.len() {
                proof {
                    lemma_run_n_snoc(prog, init, i as nat);
                    assert(run_n(prog, init, i as nat + 1) == RunResult::Halted(self.state()));
                    lemma_run_n_stable(prog, init, i as nat + 1, max_cycles as nat);
                }
                return RunStatus::Halted;
            }
            let inst = self.program[self.instruction_ptr];
            let ghost before = self.state();
            match inst.execute(self) {
                Ok(()) => {
                    proof {
                        lemma_run_n_snoc(prog, init, i as nat);
                        assert(machine_step(prog, before) == Some(
                            StepResult::Next(self.state()),
                        ));
                    }
                },
                Err(e) => {
                    proof {
                        lemma_run_n_snoc(prog, init, i as nat);
                        assert(run_n(prog, init, i as nat + 1) == RunResult::Failed(
                            e,
                            self.state(),
                        ));
                        lemma_run_n_stable(prog, init, i as nat + 1, max_cycles as nat);
                    }
                    return RunStatus::Failed(e);
                },
            }
            i = i + 1;
        }
        RunStatus::StillRunning
    }
}

impl Instruction {
    /// Applies this opcode's effect to the interpreter state: exactly the
    /// step that [`op_step`] describes.
    pub fn execute(self, state: &mut Interpreter) -> (r: Result<(), RuntimeError>)
        requires
            old(state).instruction_ptr < usize::MAX,
            is_open(self) ==> target_of(self) < usize::MAX,
        ensures
            final(state).program == old(state).program,
            r is Ok ==> op_step(self, old(state).state()) == StepResult::Next(final(state).state()),
            r matches Err(e) ==> op_step(self, old(state).state()) == StepResult::Fail(e)
                && *final(state) == *old(state),
    {
        match self {
            Self::NOP => {
                state.instruction_ptr = state.instruction_ptr + 1;
                proof {
                    assert(state.state() =~= MachineState {
                        ip: old(state).state().ip + 1,
                        ..old(state).state()
                    });
                }
                Ok(())
            },
            Self::IncrementDataPtr => state.move_right(1),
            Self::QuickIncrementDataPtr(n) => state.move_right(n),
            Self::DecrementDataPtr => state.move_left(1),
            Self::QuickDecrementDataPtr(n) => state.move_left(n),
            Self::IncrementByte => state.add_cell(1),
            Self::QuickIncrementByte(n) => state.add_cell(n),
            Self::DecrementByte => state.sub_cell(1),
            Self::QuickDecrementByte(n) => state.sub_cell(n),
            Self::OutputByte => {
                if state.data_ptr < state.memory.len() {
                    let b = state.memory[state.data_ptr];
                    state.output.push(b);
                    state.instruction_ptr = state.instruction_ptr + 1;
                    Ok(())
                } else {
                    Err(RuntimeError::OutOfRange)
                }
            },
            Self::InputByte => {
                if state.data_ptr >= state.memory.len() {
                    Err(RuntimeError::OutOfRange)
                } else if state.input.len() == 0 {
                    Err(RuntimeError::InputExhausted)
                } else {
                    let b = state.input.remove(0);
                    state.memory[state.data_ptr] = b;
                    state.instruction_ptr = state.instruction_ptr + 1;
                    proof {
                        assert(state.input@ =~= old(state).input@.drop_first());
                    }
                    Ok(())
                }
            },
            Self::LoopOpen { close_location } => {
                if state.data_ptr < state.memory.len() {
                    if state.memory[state.data_ptr] == 0 {
                        state.instruction_ptr = close_location + 1;
                    } else {
                        state.instruction_ptr = state.instruction_ptr + 1;
                    }
                    Ok(())
                } else {
                    Err(RuntimeError::OutOfRange)
                }
            },
            Self::LoopClose { open_location } => {
                if state.data_ptr < state.memory.len() {
                    if state.memory[state.data_ptr] != 0 {
                        state.instruction_ptr = open_location;
                    } else {
                        state.instruction_ptr = state.instruction_ptr + 1;
                    }
                    Ok(())
                } else {
                    Err(RuntimeError::OutOfRange)
                }
            },
        }
    }
}

impl Interpreter {
    /// Moves the data pointer `n` cells to the right, checking that it
    /// stays on the tape.
    fn move_right(&mut self, n: usize) -> (r: Result<(), RuntimeError>)
        requires
            old(self).instruction_ptr < usize::MAX,
        ensures
            final(self).program == old(self).program,
            r is Ok ==> move_step(old(self).state(), n as int) == StepResult::Next(
                final(self).state(),
            ),
            r matches Err(e) ==> move_step(old(self).state(), n as int) == StepResult::Fail(e)
                && *final(self) == *old(self),
    {
        if self.data_ptr < self.memory.len() && n < self.memory.len() - self.data_ptr {
            self.data_ptr = self.data_ptr + n;
            self.instruction_ptr = self.instruction_ptr + 1;
            Ok(())
        } else {
            Err(RuntimeError::OutOfRange)
        }
    }

    /// Moves the data pointer `n` cells to the left, checking that it
    /// stays on the tape.
    fn move_left(&mut self, n: usize) -> (r: Result<(), RuntimeError>)
        requires
            old(self).instruction_ptr < usize::MAX,
        ensures
            final(self).program == old(self).program,
            r is Ok ==> move_step(old(self).state(), -(n as int)) == StepResult::Next(
                final(self).state(),
            ),
            r matches Err(e) ==> move_step(old(self).state(), -(n as int)) == StepResult::Fail(e)
                && *final(self) == *old(self),
    {
        if n <= self.data_ptr && self.data_ptr - n < self.memory.len() {
            self.data_ptr = self.data_ptr - n;
            self.instruction_ptr = self.instruction_ptr + 1;
            Ok(())
        } else {
            Err(RuntimeError::OutOfRange)
        }
    }

    /// Adds `n` to the current cell with eight-bit wraparound.
    fn add_cell(&mut self, n: usize) -> (r: Result<(), RuntimeError>)
        requires
            old(self).instruction_ptr < usize::MAX,
        ensures
            final(self).program == old(self).program,
            r is Ok ==> add_step(old(self).state(), n as int) == StepResult::Next(
                final(self).state(),
            ),
            r matches Err(e) ==> add_step(old(self).state(), n as int) == StepResult::Fail(e)
                && *final(self) == *old(self),
    {
        if self.data_ptr < self.memory.len() {
            let b = self.memory[self.data_ptr];
            let v = (((b as u16) + ((n % 256) as u16)) % 256) as u8;
            proof {
                lemma_add_mod_noop(b as int, n as int, 256);
                lemma_mod_twice(b as int, 256);
                lemma_mod_twice(n as int, 256);
                lemma_add_mod_noop(b as int, (n as int) % 256, 256);
                assert(v == wrap_add(b, n as int));
            }
            self.memory[self.data_ptr] = v;
            self.instruction_ptr = self.instruction_ptr + 1;
            Ok(())
        } else {
            Err(RuntimeError::OutOfRange)
        }
    }

    /// Subtracts `n` from the current cell with eight-bit wraparound.
    fn sub_cell(&mut self, n: usize) -> (r: Result<(), RuntimeError>)
        requires
            old(self).instruction_ptr < usize::MAX,
        ensures
            final(self).program == old(self).program,
            r is Ok ==> sub_step(old(self).state(), n as int) == StepResult::Next(
                final(self).state(),
            ),
            r matches Err(e) ==> sub_step(old(self).state(), n as int) == StepResult::Fail(e)
                && *final(self) == *old(self),
    {
        if self.data_ptr < self.memory.len() {
            let b = self.memory[self.data_ptr];
            let v = (((b as u16) + 256 - ((n % 256) as u16)) % 256) as u8;
            proof {
                lemma_sub_mod_noop(b as int, n as int, 256);
                lemma_mod_twice(n as int, 256);
                lemma_sub_mod_noop(b as int, (n as int) % 256, 256);
                lemma_add_mod_noop(b - ((n as int) % 256), 256, 256);
                lemma_mod_self_0(256);
                lemma_mod_twice(b as int, 256);
                assert(v == wrap_sub(b, n as int));
            }
            self.memory[self.data_ptr] = v;
            self.instruction_ptr = self.instruction_ptr + 1;
            Ok(())
        } else {
            Err(RuntimeError::OutOfRange)
        }
    }
}

} // verus!
