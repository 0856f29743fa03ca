//! A minimal interpreter for a byte-tape esoteric language with eight
//! single-character instructions: pointer moves, cell increment and
//! decrement with eight-bit wraparound, byte output and input, and a
//! matched pair of conditional jump brackets.
//!
//! The engine has two phases: an assembler that turns source characters
//! into a flat instruction list with jump targets resolved by
//! backpatching, and an interpreter that executes that list against a
//! fixed-size byte tape.

pub mod assembler;
pub mod instructions;
pub mod interpreter;
