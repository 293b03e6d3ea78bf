//! Errors raised while running instructions.

use vstd::prelude::*;

verus! {

/// What can go wrong while the interpreter runs an instruction.
#[derive(Debug, Clone, Copy, PartialEq, Eq, Structural)]
pub enum Chip8Error {
    /// A variable register id above 0xF.
    OutOfRangeRegister(u8),
    /// A key id above 0xF.
    OutOfRangeKey(u8),
    /// A return with no caller on the call stack.
    EmptyStack,
    /// An opcode that no instruction family decodes.
    InvalidOpcode,
    /// A pixel coordinate outside the 64x32 grid.
    InvalidPixelPosition(u8, u8),
}

/// An error raised by one instruction, together with the opcode that raised it.
#[derive(Debug, Clone, Copy, PartialEq, Eq, Structural)]
pub struct InstructionError {
    pub opcode: u16,
    pub error: Chip8Error,
}

} // verus!
