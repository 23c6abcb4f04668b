//! Execution of a compiled [`Module`] against a bounded tape of wraparound
//! bytes.
//!
//! The meaning of execution is the deterministic small-step relation
//! [`spec_step`], iterated by [`spec_steps`]. The executable interpreter is
//! proved to return exactly the output of the unique completed run.

use vstd::prelude::*;
use vstd::pervasive::cloned;
use vstd::pervasive::VecAdditionalExecFns;
use vstd::slice::slice_index_get;
use vstd::wrapping::u8_specs;

use crate::instructions::Instruction;
use crate::BfInterpreter;
use crate::Module;
use crate::CODESIZE;
use crate::HEAPSIZE;

verus! {

/// Why an execution was aborted.
#[derive(Clone, Copy, Debug, PartialEq, Eq, Structural)]
pub enum RuntimeError {
    /// A move instruction would take the data pointer outside the tape.
    PointerOutOfBounds,
    /// The input channel reported a hard failure (distinct from end of
    /// input, which reads as a zero sentinel).
    InputFailed,
}

/// A snapshot of a running machine: the tape, the two pointers, the input
/// bytes not yet consumed, and the output bytes produced so far.
pub struct MachineState {
    pub tape: Seq<u8>,
    pub data_ptr: int,
    pub code_ptr: int,
    pub input: Seq<u8>,
    pub output: Seq<u8>,
}

/// Where a run stands: still executing, completed (the code pointer reached
/// the module's length), or aborted with an error.
pub enum RunStatus {
    Running(MachineState),
    Done(MachineState),
    Failed(RuntimeError),
}

impl Module<Instruction> {
    /// What execution needs of a module: full-capacity backing arrays and a
    /// jump table that stays inside the populated code for every bracket
    /// slot. Every module the compiler returns is well formed.
    pub open spec fn wf(self) -> bool {
        &&& self.code_segment@.len() == CODESIZE
        &&& self.jump_lookup@.len() == HEAPSIZE
        &&& self.code_length <= CODESIZE
        &&& forall|p: int|
            0 <= p < self.code_length && (self.code_segment@[p] is Land || self.code_segment@[p]
                is Jump) ==> self.jump_lookup@[p] < self.code_length
    }
}

/// The machine a run starts in: a zeroed tape, both pointers at zero, the
/// whole input still pending, and no output.
pub open spec fn initial_state(input: Seq<u8>) -> MachineState {
    MachineState {
        tape: Seq::new(HEAPSIZE as nat, |i: int| 0u8),
        data_ptr: 0,
        code_ptr: 0,
        input,
        output: Seq::empty(),
    }
}

/// A state's standing invariant during a run of `m`.
pub open spec fn state_invariant(m: Module<Instruction>, s: MachineState) -> bool {
    &&& s.tape.len() == HEAPSIZE
    &&& 0 <= s.data_ptr < HEAPSIZE
    &&& 0 <= s.code_ptr <= m.code_length
}

/// Classify a state: the run is complete exactly when the code pointer has
/// reached the module's length.
pub open spec fn status_of(m: Module<Instruction>, s: MachineState) -> RunStatus {
    if s.code_ptr >= m.code_length {
        RunStatus::Done(s)
    } else {
        RunStatus::Running(s)
    }
}

/// Decode and apply the instruction under the code pointer of a running
/// state. Cell arithmetic wraps mod 256; a move that would leave the tape
/// fails; reading exhausted input stores the zero sentinel.
pub open spec fn spec_step(m: Module<Instruction>, s: MachineState) -> RunStatus
    recommends
        state_invariant(m, s),
        s.code_ptr < m.code_length,
{
    match m.code_segment@[s.code_ptr] {
        Instruction::Backward(v) => {
            if s.data_ptr - v < 0 {
                RunStatus::Failed(RuntimeError::PointerOutOfBounds)
            } else {
                status_of(
                    m,
                    MachineState { data_ptr: s.data_ptr - v, code_ptr: s.code_ptr + 1, ..s },
                )
            }
        },
        Instruction::Forward(v) => {
            if s.data_ptr + v >= HEAPSIZE {
                RunStatus::Failed(RuntimeError::PointerOutOfBounds)
            } else {
                status_of(
                    m,
                    MachineState { data_ptr: s.data_ptr + v, code_ptr: s.code_ptr + 1, ..s },
                )
            }
        },
        Instruction::Subtract(v) => status_of(
            m,
            MachineState {
                tape: s.tape.update(s.data_ptr, u8_specs::wrapping_sub(s.tape[s.data_ptr], v)),
                code_ptr: s.code_ptr + 1,
                ..s
            },
        ),
        Instruction::Add(v) => status_of(
            m,
            MachineState {
                tape: s.tape.update(s.data_ptr, u8_specs::wrapping_add(s.tape[s.data_ptr], v)),
                code_ptr: s.code_ptr + 1,
                ..s
            },
        ),
        Instruction::Land => status_of(
            m,
            MachineState {
                code_ptr: if s.tape[s.data_ptr] == 0 {
                    m.jump_lookup@[s.code_ptr] as int
                } else {
                    s.code_ptr + 1
                },
                ..s
            },
        ),
        Instruction::Jump => status_of(
            m,
            MachineState {
                code_ptr: if s.tape[s.data_ptr] != 0 {
                    m.jump_lookup@[s.code_ptr] as int
                } else {
                    s.code_ptr + 1
                },
                ..s
            },
        ),
        Instruction::Write => status_of(
            m,
            MachineState {
                output: s.output.push(s.tape[s.data_ptr]),
                code_ptr: s.code_ptr + 1,
                ..s
            },
        ),
        Instruction::Read => {
            if s.input.len() == 0 {
                status_of(
                    m,
                    MachineState {
                        tape: s.tape.update(s.data_ptr, 0u8),
                        code_ptr: s.code_ptr + 1,
                        ..s
                    },
                )
            } else {
                status_of(
                    m,
                    MachineState {
                        tape: s.tape.update(s.data_ptr, s.input[0]),
                        input: s.input.drop_first(),
                        code_ptr: s.code_ptr + 1,
                        ..s
                    },
                )
            }
        },
        Instruction::Nop => status_of(m, MachineState { code_ptr: s.code_ptr + 1, ..s }),
    }
}

/// The run of `m` on `input` after `n` steps. Completed and failed statuses
/// absorb further steps, so a run has at most one final status.
pub open spec fn spec_steps(m: Module<Instruction>, input: Seq<u8>, n: nat) -> RunStatus
    decreases n,
{
    if n == 0 {
        status_of(m, initial_state(input))
    } else {
        match spec_steps(m, input, (n - 1) as nat) {
            RunStatus::Running(s) => spec_step(m, s),
            RunStatus::Done(s) => RunStatus::Done(s),
            RunStatus::Failed(e) => RunStatus::Failed(e),
        }
    }
}

/// The run of `m` on `input` completes or fails after finitely many steps.
pub open spec fn run_halts(m: Module<Instruction>, input: Seq<u8>) -> bool {
    exists|n: nat| !(#[trigger] spec_steps(m, input, n) is Running)
}

/// A completed or failed status persists through all later steps.
pub proof fn lemma_steps_absorbing(m: Module<Instruction>, input: Seq<u8>, n1: nat, n2: nat)
    requires
        n1 <= n2,
        !(spec_steps(m, input, n1) is Running),
    ensures
        spec_steps(m, input, n2) == spec_steps(m, input, n1),
    decreases n2 - n1,
{
    if n2 > n1 {
        lemma_steps_absorbing(m, input, n1, (n2 - 1) as nat);
    }
}

/// A run's final status is unique: any two step counts at which the run is
/// no longer running see the very same completed or failed status.
pub proof fn lemma_run_outcome_unique(m: Module<Instruction>, input: Seq<u8>, n1: nat, n2: nat)
    requires
        !(spec_steps(m, input, n1) is Running),
        !(spec_steps(m, input, n2) is Running),
    ensures
        spec_steps(m, input, n1) == spec_steps(m, input, n2),
{
    if n1 <= n2 {
        lemma_steps_absorbing(m, input, n1, n2);
    } else {
        lemma_steps_absorbing(m, input, n2, n1);
    }
}

/// Idempotence of no-op programs, execution side: a module with no populated
/// instruction completes at once in its initial state — no output, no tape
/// mutation, no input consumed.
pub proof fn lemma_empty_module_run(m: Module<Instruction>, input: Seq<u8>, n: nat)
    requires
        m.code_length == 0,
    ensures
        spec_steps(m, input, n) == RunStatus::Done(initial_state(input)),
{
    assert(spec_steps(m, input, 0) == RunStatus::Done(initial_state(input)));
    lemma_steps_absorbing(m, input, 0, n);
}

/// A backend that runs a compiled module of its target instruction type to
/// completion against a fresh tape. Each implementation states its
/// obligations through `execute_condition` and `executable_condition`.
pub trait Executor<TargetInstructionType> {
    /// What a module and input must satisfy before `execute` may be called.
    spec fn executable_condition(module: &Module<TargetInstructionType>, input: Seq<u8>) -> bool;

    /// What `execute` promises of its result.
    spec fn execute_condition(
        module: &Module<TargetInstructionType>,
        input: Seq<u8>,
        r: Result<Vec<u8>, RuntimeError>,
    ) -> bool;

    /// Run `module` against a fresh zeroed tape, reading from `input` and
    /// returning the bytes written.
    fn execute(module: &Module<TargetInstructionType>, input: &[u8]) -> (r: Result<
        Vec<u8>,
        RuntimeError,
    >)
        requires
            Self::executable_condition(module, input@),
        ensures
            Self::execute_condition(module, input@, r),
    ;
}

/// The machine state that the interpreter's concrete bookkeeping stands for:
/// `in_pos` input bytes have been consumed so far.
spec fn live_state(
    tape: Seq<u8>,
    data_ptr: int,
    code_ptr: int,
    full_input: Seq<u8>,
    in_pos: int,
    output: Seq<u8>,
) -> MachineState {
    MachineState { tape, data_ptr, code_ptr, input: full_input.skip(in_pos), output }
}

impl Executor<Instruction> for BfInterpreter {
    open spec fn executable_condition(module: &Module<Instruction>, input: Seq<u8>) -> bool {
        module.wf() && run_halts(*module, input)
    }

    open spec fn execute_condition(
        module: &Module<Instruction>,
        input: Seq<u8>,
        r: Result<Vec<u8>, RuntimeError>,
    ) -> bool {
        match r {
            Ok(out) => exists|n: nat|
                #[trigger] spec_steps(*module, input, n) matches RunStatus::Done(s) && s.output
                    == out@,
            Err(e) => exists|n: nat|
                #[trigger] spec_steps(*module, input, n) == RunStatus::Failed(e),
        }
    }

    fn execute(module: &Module<Instruction>, input: &[u8]) -> (r: Result<Vec<u8>, RuntimeError>) {
        let mut tape: Vec<u8> = vec![0u8; HEAPSIZE];
        let mut data_ptr: usize = 0;
        let mut code_ptr: usize = 0;
        let mut in_pos: usize = 0;
        let mut output: Vec<u8> = Vec::new();
        let ghost fuel: nat = choose|n: nat|
            !(#[trigger] spec_steps(*module, input@, n) is Running);
        let ghost mut steps: nat = 0;

        proof {
            assert forall|p: int| 0 <= p < HEAPSIZE implies tape@[p] == 0u8 by {
                assert(cloned(0u8, tape@[p]));
            }
            assert(tape@ =~= initial_state(input@).tape);
            assert(input@.skip(0) =~= input@);
            assert(output@ =~= Seq::<u8>::empty());
            assert(live_state(tape@, 0, 0, input@, 0, output@) == initial_state(input@));
        }

        while code_ptr < module.code_length
            invariant
                module.wf(),
                !(spec_steps(*module, input@, fuel) is Running),
                steps <= fuel,
                tape@.len() == HEAPSIZE,
                data_ptr < HEAPSIZE,
                code_ptr <= module.code_length,
                in_pos <= input@.len(),
                spec_steps(*module, input@, steps) == status_of(
                    *module,
                    live_state(
                        tape@,
                        data_ptr as int,
                        code_ptr as int,
                        input@,
                        in_pos as int,
                        output@,
                    ),
                ),
            decreases fuel - steps,
        {
            let ghost pre = live_state(
                tape@,
                data_ptr as int,
                code_ptr as int,
                input@,
                in_pos as int,
                output@,
            );
            proof {
                assert(spec_steps(*module, input@, steps) == RunStatus::Running(pre));
                if steps >= fuel {
                    lemma_steps_absorbing(*module, input@, fuel, steps);
                }
                assert(steps < fuel);
            }
            let inst = module.code_segment[code_ptr];
            match inst {
                Instruction::Backward(v) => {
                    if (v as usize) > data_ptr {
                        proof {
                            assert(spec_steps(*module, input@, steps + 1) == RunStatus::Failed(
                                RuntimeError::PointerOutOfBounds,
                            ));
                        }
                        return Err(RuntimeError::PointerOutOfBounds);
                    }
                    data_ptr = data_ptr - v as usize;
                    code_ptr = code_ptr + 1;
                    proof {
                        steps = steps + 1;
                        assert(spec_steps(*module, input@, steps) == status_of(
                            *module,
                            MachineState { data_ptr: pre.data_ptr - v, code_ptr: pre.code_ptr + 1, ..pre },
                        ));
                    }
                },
                Instruction::Forward(v) => {
                    if data_ptr + v as usize >= HEAPSIZE {
                        proof {
                            assert(spec_steps(*module, input@, steps + 1) == RunStatus::Failed(
                                RuntimeError::PointerOutOfBounds,
                            ));
                        }
                        return Err(RuntimeError::PointerOutOfBounds);
                    }
                    data_ptr = data_ptr + v as usize;
                    code_ptr = code_ptr + 1;
                    proof {
                        steps = steps + 1;
                        assert(spec_steps(*module, input@, steps) == status_of(
                            *module,
                            MachineState { data_ptr: pre.data_ptr + v, code_ptr: pre.code_ptr + 1, ..pre },
                        ));
                    }
                },
                Instruction::Subtract(v) => {
                    let cell = tape[data_ptr];
                    tape.set(data_ptr, cell.wrapping_sub(v));
                    code_ptr = code_ptr + 1;
                    proof {
                        steps = steps + 1;
                        assert(spec_steps(*module, input@, steps) == status_of(
                            *module,
                            MachineState {
                                tape: pre.tape.update(
                                    pre.data_ptr,
                                    u8_specs::wrapping_sub(pre.tape[pre.data_ptr], v),
                                ),
                                code_ptr: pre.code_ptr + 1,
                                ..pre
                            },
                        ));
                    }
                },
                Instruction::Add(v) => {
                    let cell = tape[data_ptr];
                    tape.set(data_ptr, cell.wrapping_add(v));
                    code_ptr = code_ptr + 1;
                    proof {
                        steps = steps + 1;
                        assert(spec_steps(*module, input@, steps) == status_of(
                            *module,
                            MachineState {
                                tape: pre.tape.update(
                                    pre.data_ptr,
                                    u8_specs::wrapping_add(pre.tape[pre.data_ptr], v),
                                ),
                                code_ptr: pre.code_ptr + 1,
                                ..pre
                            },
                        ));
                    }
                },
                Instruction::Land => {
                    if tape[data_ptr] == 0 {
                        code_ptr = module.jump_lookup[code_ptr];
                    } else {
                        code_ptr = code_ptr + 1;
                    }
                    proof {
                        steps = steps + 1;
                        assert(spec_steps(*module, input@, steps) == status_of(
                            *module,
                            MachineState { code_ptr: code_ptr as int, ..pre },
                        ));
                    }
                },
                Instruction::Jump => {
                    if tape[data_ptr] != 0 {
                        code_ptr = module.jump_lookup[code_ptr];
                    } else {
                        code_ptr = code_ptr + 1;
                    }
                    proof {
                        steps = steps + 1;
                        assert(spec_steps(*module, input@, steps) == status_of(
                            *module,
                            MachineState { code_ptr: code_ptr as int, ..pre },
                        ));
                    }
                },
                Instruction::Write => {
                    let cell = tape[data_ptr];
                    output.push(cell);
                    code_ptr = code_ptr + 1;
                    proof {
                        steps = steps + 1;
                        assert(spec_steps(*module, input@, steps) == status_of(
                            *module,
                            MachineState {
                                output: pre.output.push(pre.tape[pre.data_ptr]),
                                code_ptr: pre.code_ptr + 1,
                                ..pre
                            },
                        ));
                    }
                },
                Instruction::Read => {
                    if in_pos < input.len() {
                        let byte: u8 = *slice_index_get(input, in_pos);
                        tape.set(data_ptr, byte);
                        in_pos = in_pos + 1;
                        code_ptr = code_ptr + 1;
                        proof {
                            steps = steps + 1;
                            assert(input@.skip(in_pos as int) =~= pre.input.drop_first());
                            assert(spec_steps(*module, input@, steps) == status_of(
                                *module,
                                MachineState {
                                    tape: pre.tape.update(pre.data_ptr, pre.input[0]),
                                    input: pre.input.drop_first(),
                                    code_ptr: pre.code_ptr + 1,
                                    ..pre
                                },
                            ));
                        }
                    } else {
                        tape.set(data_ptr, 0u8);
                        code_ptr = code_ptr + 1;
                        proof {
                            steps = steps + 1;
                            assert(pre.input.len() == 0);
                            assert(spec_steps(*module, input@, steps) == status_of(
                                *module,
                                MachineState {
                                    tape: pre.tape.update(pre.data_ptr, 0u8),
                                    code_ptr: pre.code_ptr + 1,
                                    ..pre
                                },
                            ));
                        }
                    }
                },
                Instruction::Nop => {
                    code_ptr = code_ptr + 1;
                    proof {
                        steps = steps + 1;
                        assert(spec_steps(*module, input@, steps) == status_of(
                            *module,
                            MachineState { code_ptr: pre.code_ptr + 1, ..pre },
                        ));
                    }
                },
            }
        }

        proof {
            let end = live_state(
                tape@,
                data_ptr as int,
                code_ptr as int,
                input@,
                in_pos as int,
                output@,
            );
            assert(spec_steps(*module, input@, steps) == RunStatus::Done(end));
            assert(spec_steps(*module, input@, steps) matches RunStatus::Done(s) && s.output
                == output@);
        }
        Ok(output)
    }
}

} // verus!
