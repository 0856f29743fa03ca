use tapevm::assembler::assemble;
use tapevm::instructions::RuntimeError;
use tapevm::interpreter::{run, Machine, RunOutcome};

fn program_of(source: &str) -> Vec<tapevm::instructions::Instruction> {
    let chars: Vec<char> = source.chars().collect();
    assemble(&chars).expect("source should assemble")
}

#[test]
fn run_outputs_two() {
    let r = run(program_of("++."), 1, vec![], 100);
    assert_eq!(r, Ok(RunOutcome::Halted(vec![2])));
}

#[test]
fn run_echoes_input_byte() {
    let r = run(program_of(",."), 1, vec![65], 100);
    assert_eq!(r, Ok(RunOutcome::Halted(vec![65])));
}

#[test]
fn run_clear_loop_terminates_silently() {
    let r = run(program_of("+[-]"), 1, vec![], 100);
    assert_eq!(r, Ok(RunOutcome::Halted(vec![])));
}

#[test]
fn run_out_of_steps_on_endless_loop() {
    let r = run(program_of("+[]"), 1, vec![], 1000);
    assert_eq!(r, Ok(RunOutcome::OutOfSteps));
}

#[test]
fn run_move_right_out_of_bounds() {
    let r = run(program_of(">"), 1, vec![], 100);
    assert_eq!(r, Err(RuntimeError::PointerOutOfBounds));
}

#[test]
fn run_move_left_out_of_bounds() {
    let r = run(program_of("<"), 25, vec![], 100);
    assert_eq!(r, Err(RuntimeError::PointerOutOfBounds));
}

#[test]
fn machine_clear_loop_counts_body_passes() {
    // Three increments, then the clear loop: the loop costs three steps
    // per pass and runs its body once per count in the cell.
    let mut m = Machine::new(program_of("+++[-]"), 1, vec![]);
    let mut steps = 0u32;
    while m.is_running() {
        m.step().expect("no pointer moves in this program");
        steps += 1;
    }
    assert_eq!(steps, 3 + 3 * 3);
    assert_eq!(m.tape_cells()[0], 0);
    assert!(m.output().is_empty());
}

#[test]
fn machine_decrement_wraps_to_255() {
    let mut m = Machine::new(program_of("-"), 1, vec![]);
    m.step().unwrap();
    assert_eq!(m.tape_cells()[0], 255);
}

#[test]
fn machine_increment_wraps_to_zero() {
    let mut m = Machine::new(program_of("-+"), 1, vec![]);
    m.step().unwrap();
    assert_eq!(m.tape_cells()[0], 255);
    m.step().unwrap();
    assert_eq!(m.tape_cells()[0], 0);
}

#[test]
fn machine_read_past_end_gives_zero() {
    // The cell is first raised to one so the zero read is visible.
    let mut m = Machine::new(program_of("+,"), 1, vec![]);
    m.step().unwrap();
    assert_eq!(m.tape_cells()[0], 1);
    m.step().unwrap();
    assert_eq!(m.tape_cells()[0], 0);
    assert!(!m.is_running());
}

#[test]
fn machine_write_hands_back_the_byte() {
    let mut m = Machine::new(program_of("++."), 1, vec![]);
    assert_eq!(m.step(), Ok(None));
    assert_eq!(m.step(), Ok(None));
    assert_eq!(m.step(), Ok(Some(2)));
    assert!(!m.is_running());
    assert_eq!(m.into_output(), vec![2]);
}

#[test]
fn machine_reads_input_in_order() {
    let mut m = Machine::new(program_of(",.,."), 1, vec![7, 9]);
    while m.is_running() {
        m.step().unwrap();
    }
    assert_eq!(m.into_output(), vec![7, 9]);
}

#[test]
fn machine_error_leaves_state_unchanged() {
    let mut m = Machine::new(program_of("+>"), 1, vec![]);
    m.step().unwrap();
    assert_eq!(m.step(), Err(RuntimeError::PointerOutOfBounds));
    assert!(m.is_running());
    assert_eq!(m.tape_cells()[0], 1);
}

#[test]
fn run_moves_between_cells() {
    // Put two in cell zero, copy-by-loop into cell one, then write it.
    let r = run(program_of("++[>+<-]>."), 2, vec![], 1000);
    assert_eq!(r, Ok(RunOutcome::Halted(vec![2])));
}
