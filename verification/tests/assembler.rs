use tapevm::assembler::assemble;
use tapevm::instructions::{AssemblyError, Instruction};

fn chars(source: &str) -> Vec<char> {
    source.chars().collect()
}

#[test]
fn assemble_empty_source() {
    assert_eq!(assemble(&chars("")), Ok(vec![]));
}

#[test]
fn assemble_plain_instructions() {
    assert_eq!(
        assemble(&chars("><+-.,")),
        Ok(vec![
            Instruction::MoveRight,
            Instruction::MoveLeft,
            Instruction::Increment,
            Instruction::Decrement,
            Instruction::Write,
            Instruction::Read,
        ])
    );
}

#[test]
fn assemble_ignores_comments() {
    // Only the two significant characters count: line breaks and letters
    // must not shift bracket bookkeeping or emit anything.
    assert_eq!(
        assemble(&chars("a +b\nc. d")),
        Ok(vec![Instruction::Increment, Instruction::Write])
    );
}

#[test]
fn assemble_clear_loop_targets() {
    // The forward jump targets the backward jump's index; the backward
    // jump targets the forward jump's index.
    assert_eq!(
        assemble(&chars("[-]")),
        Ok(vec![
            Instruction::JumpIfZero(2),
            Instruction::Decrement,
            Instruction::JumpIfNotZero(0),
        ])
    );
}

#[test]
fn assemble_nested_pairs() {
    assert_eq!(
        assemble(&chars("[[]]")),
        Ok(vec![
            Instruction::JumpIfZero(3),
            Instruction::JumpIfZero(2),
            Instruction::JumpIfNotZero(1),
            Instruction::JumpIfNotZero(0),
        ])
    );
}

#[test]
fn assemble_comments_between_brackets() {
    assert_eq!(
        assemble(&chars("[ comment - comment ]")),
        Ok(vec![
            Instruction::JumpIfZero(2),
            Instruction::Decrement,
            Instruction::JumpIfNotZero(0),
        ])
    );
}

#[test]
fn assemble_unmatched_close() {
    assert_eq!(assemble(&chars("]")), Err(AssemblyError::UnmatchedBracket));
}

#[test]
fn assemble_unmatched_open() {
    assert_eq!(assemble(&chars("[")), Err(AssemblyError::UnmatchedBracket));
}

#[test]
fn assemble_close_fails_fast() {
    assert_eq!(assemble(&chars("]+++")), Err(AssemblyError::UnmatchedBracket));
}

#[test]
fn assemble_excess_open_inside() {
    assert_eq!(assemble(&chars("+[[-]")), Err(AssemblyError::UnmatchedBracket));
}
