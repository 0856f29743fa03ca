//! The instruction set and the error types of the engine.

use vstd::prelude::*;

verus! {

/// One executable operation of the machine.
///
/// The two jump variants carry an absolute index into the instruction
/// list: `JumpIfZero` is taken when the current cell is zero,
/// `JumpIfNotZero` when it is not.
#[derive(Clone, Copy, Debug, PartialEq, Eq, Structural)]
pub enum Instruction {
    MoveRight,
    MoveLeft,
    Increment,
    Decrement,
    Write,
    Read,
    JumpIfZero(usize),
    JumpIfNotZero(usize),
}

/// Failure of the assembly phase: a close bracket with no open bracket
/// before it, or an open bracket still unclosed at the end of the source.
#[derive(Clone, Copy, Debug, PartialEq, Eq, Structural)]
pub enum AssemblyError {
    UnmatchedBracket,
}

/// Failure of the execution phase: the data pointer would leave the tape.
#[derive(Clone, Copy, Debug, PartialEq, Eq, Structural)]
pub enum RuntimeError {
    PointerOutOfBounds,
}

} // verus!
