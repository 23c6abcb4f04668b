//! A compiler and interpreter for a minimal eight-operator, pointer-and-byte
//! esoteric language.
//!
//! Source text is compiled into a [`Module`]: a fixed-capacity instruction
//! array with run-length-folded operators and a precomputed jump table that
//! resolves every bracket pair. A [`Module`] is then executed against a
//! bounded, zero-initialised tape of wraparound bytes.

use vstd::prelude::*;

pub mod compiler;
pub mod instructions;
pub mod interpreter;

pub use compiler::CompileError;
pub use compiler::CompileState;
pub use compiler::Parser;
pub use instructions::Instruction;
pub use interpreter::Executor;
pub use interpreter::MachineState;
pub use interpreter::RunStatus;
pub use interpreter::RuntimeError;

verus! {

/// Number of cells on the memory tape, and also the number of slots in a
/// module's jump table.
pub const HEAPSIZE: usize = 30000;

/// Capacity of a module's instruction array.
pub const CODESIZE: usize = HEAPSIZE;

/// Capacity of the compile-time stack of pending open brackets.
pub const STACKSIZE: usize = 30000;

/// The compiled unit: a fixed-capacity instruction array, the count of its
/// populated leading slots, and a table mapping each loop-start slot to its
/// matching loop-end slot and vice versa.
pub struct Module<InstructionType> {
    pub code_segment: Vec<InstructionType>,
    pub code_length: usize,
    pub jump_lookup: Vec<usize>,
}

/// The interpreting backend: compiles source text directly to [`Instruction`]
/// modules and executes them on a byte tape.
pub struct BfInterpreter;

/// A translating backend turning a compiled module of one instruction type
/// into a module of another; an extension point for alternate executors.
pub trait Compiler<SourceInstructionType, TargetInstructionType> {
    fn compile(module: &Module<SourceInstructionType>) -> Module<TargetInstructionType>;
}

} // verus!
