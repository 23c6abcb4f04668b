//! The compiled instruction set: nine variants, one per operator, plus a
//! no-op filler for the unpopulated tail of a module's instruction array.

use vstd::prelude::*;

verus! {

/// One compiled operation. The four count-bearing variants carry the length
/// of the source run they were folded from, always in `1..=255`.
#[derive(Clone, Copy, Debug, PartialEq, Eq, Structural)]
pub enum Instruction {
    /// Shift the data pointer left by the carried count.
    Backward(u8),
    /// Shift the data pointer right by the carried count.
    Forward(u8),
    /// Subtract the carried count from the current cell, mod 256.
    Subtract(u8),
    /// Add the carried count to the current cell, mod 256.
    Add(u8),
    /// Loop start: falls through when the current cell is non-zero.
    Land,
    /// Loop end: jumps back when the current cell is non-zero.
    Jump,
    /// Write the current cell to the output.
    Write,
    /// Read one input byte into the current cell.
    Read,
    /// No effect; never emitted for an operator character.
    Nop,
}

/// The instruction a single source character compiles to, carrying `value`
/// as its run count where the variant bears one.
pub open spec fn spec_instruction(character: char, value: u8) -> Instruction {
    if character == '<' {
        Instruction::Backward(value)
    } else if character == '>' {
        Instruction::Forward(value)
    } else if character == '-' {
        Instruction::Subtract(value)
    } else if character == '+' {
        Instruction::Add(value)
    } else if character == '[' {
        Instruction::Land
    } else if character == ']' {
        Instruction::Jump
    } else if character == '.' {
        Instruction::Write
    } else if character == ',' {
        Instruction::Read
    } else {
        Instruction::Nop
    }
}

impl Instruction {
    /// Map one source character to its instruction; any character that is
    /// not one of the eight operators is a comment and maps to `Nop`.
    pub fn get_instruction(character: char, value: u8) -> (inst: Instruction)
        ensures
            inst == spec_instruction(character, value),
    {
        match character {
            '<' => Instruction::Backward(value),
            '>' => Instruction::Forward(value),
            '-' => Instruction::Subtract(value),
            '+' => Instruction::Add(value),
            '[' => Instruction::Land,
            ']' => Instruction::Jump,
            '.' => Instruction::Write,
            ',' => Instruction::Read,
            _ => Instruction::Nop,
        }
    }
}

} // verus!
