//! The interpreter: a fetch-decode-execute loop over an assembled
//! instruction list, driven by a program counter and a data pointer over
//! a fixed-size byte tape.
//!
//! Input is a predetermined byte sequence read one byte per `Read`
//! instruction, with exhausted input degrading to a zero read; output is
//! the sequence of bytes emitted by `Write` instructions.  Moving the
//! data pointer off either end of the tape is a fatal error (fail-fast),
//! while cell values wrap modulo 256 by design.

use vstd::prelude::*;

use crate::instructions::{Instruction, RuntimeError};

verus! {

/// A cell value after one increment, wrapping modulo 256.
pub open spec fn wrap_inc(b: u8) -> u8 {
    (((b as int) + 1) % 256) as u8
}

/// A cell value after one decrement, wrapping modulo 256.
pub open spec fn wrap_dec(b: u8) -> u8 {
    (((b as int) + 255) % 256) as u8
}

/// The full state of one run: program counter, data pointer, tape, the
/// number of input bytes consumed so far, and the output emitted so far.
#[verifier::ext_equal]
pub ghost struct Config {
    pub pc: int,
    pub dp: int,
    pub tape: Seq<u8>,
    pub consumed: int,
    pub out: Seq<u8>,
}

/// The state at the start of a run: counters at zero, tape all zeros,
/// nothing read and nothing written.
pub open spec fn init_config(tape_size: nat) -> Config {
    Config {
        pc: 0,
        dp: 0,
        tape: Seq::new(tape_size, |i: int| 0u8),
        consumed: 0,
        out: Seq::empty(),
    }
}

/// One fetch-decode-execute step, or `None` when the instruction would
/// move the data pointer off the tape.
///
/// A taken jump replaces the program counter with its target; every
/// other instruction advances the counter by one.  A `Read` past the end
/// of the input writes zero to the current cell.
pub open spec fn step_config(prog: Seq<Instruction>, input: Seq<u8>, c: Config) -> Option<Config>
    recommends
        0 <= c.pc < prog.len(),
        0 <= c.dp < c.tape.len(),
{
    match prog[c.pc] {
        Instruction::MoveRight => if c.dp + 1 < c.tape.len() {
            Some(Config { pc: c.pc + 1, dp: c.dp + 1, ..c })
        } else {
            None
        },
        Instruction::MoveLeft => if c.dp >= 1 {
            Some(Config { pc: c.pc + 1, dp: c.dp - 1, ..c })
        } else {
            None
        },
        Instruction::Increment => Some(
            Config { pc: c.pc + 1, tape: c.tape.update(c.dp, wrap_inc(c.tape[c.dp])), ..c },
        ),
        Instruction::Decrement => Some(
            Config { pc: c.pc + 1, tape: c.tape.update(c.dp, wrap_dec(c.tape[c.dp])), ..c },
        ),
        Instruction::Write => Some(Config { pc: c.pc + 1, out: c.out.push(c.tape[c.dp]), ..c }),
        Instruction::Read => if c.consumed < input.len() {
            Some(
                Config {
                    pc: c.pc + 1,
                    tape: c.tape.update(c.dp, input[c.consumed]),
                    consumed: c.consumed + 1,
                    ..c
                },
            )
        } else {
            Some(Config { pc: c.pc + 1, tape: c.tape.update(c.dp, 0u8), ..c })
        },
        Instruction::JumpIfZero(t) => Some(
            Config {
                pc: if c.tape[c.dp] == 0 {
                    t as int
                } else {
                    c.pc + 1
                },
                ..c
            },
        ),
        Instruction::JumpIfNotZero(t) => Some(
            Config {
                pc: if c.tape[c.dp] != 0 {
                    t as int
                } else {
                    c.pc + 1
                },
                ..c
            },
        ),
    }
}

/// The state after at most `n` steps: a halted state (program counter at
/// or past the end of the program) is left unchanged, and `None` records
/// that the data pointer left the tape within those steps.
pub open spec fn run_n(prog: Seq<Instruction>, input: Seq<u8>, c: Config, n: nat) -> Option<Config>
    decreases n,
{
    if n == 0 {
        Some(c)
    } else if c.pc >= prog.len() {
        Some(c)
    } else {
        match step_config(prog, input, c) {
            Option::None => Option::None,
            Option::Some(c2) => run_n(prog, input, c2, (n - 1) as nat),
        }
    }
}

/// The run from the all-zero start state halts with exactly this output.
pub open spec fn halts_with(
    prog: Seq<Instruction>,
    input: Seq<u8>,
    tape_size: nat,
    out: Seq<u8>,
) -> bool {
    exists|n: nat|
        #[trigger] run_n(prog, input, init_config(tape_size), n) matches Some(c) && c.pc
            >= prog.len() && c.out == out
}

/// The run from the all-zero start state moves the data pointer off the
/// tape at some step.
pub open spec fn faults(prog: Seq<Instruction>, input: Seq<u8>, tape_size: nat) -> bool {
    exists|n: nat| #[trigger] run_n(prog, input, init_config(tape_size), n) is None
}

/// Running for `a + b` steps is running for `a` steps and then for `b`
/// more, with a pointer fault at any point cutting the whole run short.
pub proof fn lemma_run_n_add(prog: Seq<Instruction>, input: Seq<u8>, c: Config, a: nat, b: nat)
    ensures
        run_n(prog, input, c, a + b) == match run_n(prog, input, c, a) {
            Option::None => Option::None::<Config>,
            Option::Some(c2) => run_n(prog, input, c2, b),
        },
    decreases a,
{
    if a == 0 {
    } else if c.pc >= prog.len() {
        assert(run_n(prog, input, c, a) == Some(c));
        assert(run_n(prog, input, c, a + b) == Some(c));
        assert(run_n(prog, input, c, b) == Some(c));
    } else {
        match step_config(prog, input, c) {
            Option::None => {},
            Option::Some(c2) => {
                lemma_run_n_add(prog, input, c2, (a - 1) as nat, b);
            },
        }
    }
}

/// A halted configuration is a fixed point: further steps change nothing.
pub proof fn lemma_run_n_halted(prog: Seq<Instruction>, input: Seq<u8>, c: Config, n: nat)
    requires
        c.pc >= prog.len(),
    ensures
        run_n(prog, input, c, n) == Some(c),
{
}

/// The output of a halting run is unique: however many steps two
/// witnesses of halting take, they reach the same final configuration.
pub proof fn lemma_halt_unique(
    prog: Seq<Instruction>,
    input: Seq<u8>,
    tape_size: nat,
    out1: Seq<u8>,
    out2: Seq<u8>,
)
    requires
        halts_with(prog, input, tape_size, out1),
        halts_with(prog, input, tape_size, out2),
    ensures
        out1 == out2,
{
    let c0 = init_config(tape_size);
    let n1 = choose|n: nat|
        #[trigger] run_n(prog, input, c0, n) matches Some(c) && c.pc >= prog.len() && c.out
            == out1;
    let n2 = choose|n: nat|
        #[trigger] run_n(prog, input, c0, n) matches Some(c) && c.pc >= prog.len() && c.out
            == out2;
    let c1 = run_n(prog, input, c0, n1)->Some_0;
    let c2 = run_n(prog, input, c0, n2)->Some_0;
    if n1 <= n2 {
        lemma_run_n_add(prog, input, c0, n1, (n2 - n1) as nat);
        lemma_run_n_halted(prog, input, c1, (n2 - n1) as nat);
        assert(n1 + (n2 - n1) as nat == n2);
    } else {
        lemma_run_n_add(prog, input, c0, n2, (n1 - n2) as nat);
        lemma_run_n_halted(prog, input, c2, (n1 - n2) as nat);
        assert(n2 + (n1 - n2) as nat == n1);
    }
}

/// A run that halts never faults: reaching a halted configuration rules
/// out the data pointer ever leaving the tape.
pub proof fn lemma_halt_excludes_fault(
    prog: Seq<Instruction>,
    input: Seq<u8>,
    tape_size: nat,
    out: Seq<u8>,
)
    requires
        halts_with(prog, input, tape_size, out),
    ensures
        !faults(prog, input, tape_size),
{
    let c0 = init_config(tape_size);
    let nh = choose|n: nat|
        #[trigger] run_n(prog, input, c0, n) matches Some(c) && c.pc >= prog.len() && c.out
            == out;
    let ch = run_n(prog, input, c0, nh)->Some_0;
    assert forall|n: nat| !(#[trigger] run_n(prog, input, c0, n) is None) by {
        if n <= nh {
            lemma_run_n_add(prog, input, c0, n, (nh - n) as nat);
            assert(n + (nh - n) as nat == nh);
        } else {
            lemma_run_n_add(prog, input, c0, nh, (n - nh) as nat);
            lemma_run_n_halted(prog, input, ch, (n - nh) as nat);
            assert(nh + (n - nh) as nat == n);
        }
    }
}

/// The instruction list that a clear loop — an open bracket, one
/// decrement, a close bracket — assembles to.
pub open spec fn clear_loop_prog() -> Seq<Instruction> {
    seq![
        Instruction::JumpIfZero(2),
        Instruction::Decrement,
        Instruction::JumpIfNotZero(0),
    ]
}

/// A clear loop reached with the current cell holding `n > 0` terminates:
/// its body runs exactly `n` times — three steps per pass, one of them
/// the decrement — and it halts with that cell at zero and every other
/// part of the state unchanged.
pub proof fn lemma_clear_loop(input: Seq<u8>, c: Config, n: u8)
    requires
        n > 0,
        0 <= c.dp < c.tape.len(),
        c.pc == 0,
        c.tape[c.dp] == n,
    ensures
        run_n(clear_loop_prog(), input, c, (3 * n) as nat) == Some(
            (Config { pc: 3, tape: c.tape.update(c.dp, 0u8), ..c }),
        ),
    decreases n,
{
    reveal_with_fuel(run_n, 4);
    let prog = clear_loop_prog();
    let c1 = Config { pc: 1, ..c };
    let c2 = Config { pc: 2, tape: c.tape.update(c.dp, (n - 1) as u8), ..c };
    assert(wrap_dec(n) == (n - 1) as u8);
    assert(step_config(prog, input, c) == Some(c1));
    assert(step_config(prog, input, c1) == Some(c2));
    if n == 1 {
        let c3 = Config { pc: 3, ..c2 };
        assert(step_config(prog, input, c2) == Some(c3));
        assert(run_n(prog, input, c, 3nat) == Some(c3));
        assert(c2.tape =~= c.tape.update(c.dp, 0u8));
    } else {
        let c3 = Config { pc: 0, ..c2 };
        assert(step_config(prog, input, c2) == Some(c3));
        assert(run_n(prog, input, c, 3nat) == Some(c3));
        lemma_clear_loop(input, c3, (n - 1) as u8);
        lemma_run_n_add(prog, input, c, 3nat, (3 * (n - 1)) as nat);
        assert(3nat + (3 * (n - 1)) as nat == (3 * n) as nat);
        assert(c3.tape.update(c3.dp, 0u8) =~= c.tape.update(c.dp, 0u8));
        assert((Config { pc: 3, tape: c3.tape.update(c3.dp, 0u8), ..c3 }) =~= (Config {
            pc: 3,
            tape: c.tape.update(c.dp, 0u8),
            ..c
        }));
    }
}

/// What driving a machine for a bounded number of steps ended with: the
/// program halted and this is its whole output, or the step budget ran
/// out with the program still going.
#[derive(Debug, PartialEq, Eq)]
pub enum RunOutcome {
    Halted(Vec<u8>),
    OutOfSteps,
}

/// Whole-program entry point: executes at most `max_steps` instructions
/// against a fresh tape of `tape_size` zeroed cells, reading from
/// `input` and collecting the written bytes.
///
/// The result is exactly what the step relation says about
/// `max_steps` steps from the start state: the full output when the
/// program halts within the budget, `OutOfSteps` when it is still
/// running after the budget, and the pointer error when the data
/// pointer leaves the tape within it.
#[verifier::loop_isolation(false)]
pub fn run(program: Vec<Instruction>, tape_size: usize, input: Vec<u8>, max_steps: usize) -> (r:
    Result<RunOutcome, RuntimeError>)
    requires
        tape_size >= 1,
    ensures
        ({
            let fin = run_n(program@, input@, init_config(tape_size as nat), max_steps as nat);
            match r {
                Ok(RunOutcome::Halted(out)) => {
                    &&& fin matches Some(c) && c.pc >= program@.len() && c.out == out@
                    &&& halts_with(program@, input@, tape_size as nat, out@)
                },
                Ok(RunOutcome::OutOfSteps) => fin matches Some(c) && c.pc < program@.len(),
                Err(e) => {
                    &&& fin is None
                    &&& faults(program@, input@, tape_size as nat)
                    &&& e == RuntimeError::PointerOutOfBounds
                },
            }
        }),
{
    let ghost prog = program@;
    let ghost inp = input@;
    let ghost c0 = init_config(tape_size as nat);
    let mut m = Machine::new(program, tape_size, input);
    let mut steps: usize = 0;
    while steps < max_steps && m.is_running()
        invariant
            m.prog() == prog,
            m.inp() == inp,
            m.wf(),
            steps <= max_steps,
            c0 == init_config(tape_size as nat),
            run_n(prog, inp, c0, steps as nat) == Some(m.cfg()),
        decreases max_steps - steps,
    {
        let ghost pre = m.cfg();
        match m.step() {
            Ok(_) => {
                proof {
                    reveal_with_fuel(run_n, 2);
                    lemma_run_n_add(prog, inp, c0, steps as nat, 1);
                    assert(run_n(prog, inp, pre, 1) == Some(m.cfg()));
                }
                steps = steps + 1;
            },
            Err(e) => {
                proof {
                    reveal_with_fuel(run_n, 2);
                    lemma_run_n_add(prog, inp, c0, steps as nat, 1);
                    assert(run_n(prog, inp, pre, 1) is None);
                    assert(run_n(prog, inp, c0, (steps + 1) as nat) is None);
                    lemma_run_n_add(
                        prog,
                        inp,
                        c0,
                        (steps + 1) as nat,
                        (max_steps - steps - 1) as nat,
                    );
                    assert((steps + 1) as nat + (max_steps - steps - 1) as nat
                        == max_steps as nat);
                    assert(run_n(prog, inp, c0, max_steps as nat) is None);
                    assert(run_n(
                        prog,
                        inp,
                        init_config(tape_size as nat),
                        max_steps as nat,
                    ) is None);
                    assert(faults(prog, inp, tape_size as nat));
                }
                return Err(e);
            },
        }
    }
    if m.is_running() {
        proof {
            lemma_run_n_add(prog, inp, c0, steps as nat, (max_steps - steps) as nat);
        }
        Ok(RunOutcome::OutOfSteps)
    } else {
        proof {
            lemma_run_n_add(prog, inp, c0, steps as nat, (max_steps - steps) as nat);
            lemma_run_n_halted(prog, inp, m.cfg(), (max_steps - steps) as nat);
            assert(steps as nat + (max_steps - steps) as nat == max_steps as nat);
        }
        let out = m.into_output();
        Ok(RunOutcome::Halted(out))
    }
}

/// An interpreter in mid-run, stepped one instruction at a time.
pub struct Machine {
    program: Vec<Instruction>,
    input: Vec<u8>,
    tape: Vec<u8>,
    pc: usize,
    dp: usize,
    consumed: usize,
    out: Vec<u8>,
}

impl Machine {
    /// The instruction list being executed.
    pub closed spec fn prog(self) -> Seq<Instruction> {
        self.program@
    }

    /// The predetermined input byte sequence.
    pub closed spec fn inp(self) -> Seq<u8> {
        self.input@
    }

    /// The machine's current state as a configuration.
    pub closed spec fn cfg(self) -> Config {
        Config {
            pc: self.pc as int,
            dp: self.dp as int,
            tape: self.tape@,
            consumed: self.consumed as int,
            out: self.out@,
        }
    }

    /// The data pointer is on the tape and the input cursor is within the
    /// input; established at construction and preserved by every step.
    pub closed spec fn wf(self) -> bool {
        &&& self.dp < self.tape@.len()
        &&& self.consumed <= self.input@.len()
    }

    /// A machine about to execute its first instruction: tape of
    /// `tape_size` zeroed cells, both counters at zero.
    pub fn new(program: Vec<Instruction>, tape_size: usize, input: Vec<u8>) -> (m: Machine)
        requires
            tape_size >= 1,
        ensures
            m.wf(),
            m.prog() == program@,
            m.inp() == input@,
            m.cfg() == init_config(tape_size as nat),
    {
        let mut tape: Vec<u8> = Vec::new();
        let mut k: usize = 0;
        while k < tape_size
            invariant
                k <= tape_size,
                tape@ =~= Seq::new(k as nat, |i: int| 0u8),
            decreases tape_size - k,
        {
            tape.push(0);
            proof {
                assert(tape@ =~= Seq::new((k + 1) as nat, |i: int| 0u8));
            }
            k = k + 1;
        }
        let m = Machine { program, input, tape, pc: 0, dp: 0, consumed: 0, out: Vec::new() };
        proof {
            assert(m.cfg() =~= init_config(tape_size as nat));
        }
        m
    }

    /// Whether the program counter still addresses an instruction; a run
    /// is complete once it does not.
    pub fn is_running(&self) -> (r: bool)
        ensures
            r == (self.cfg().pc < self.prog().len()),
    {
        self.pc < self.program.len()
    }

    /// The bytes written so far.
    pub fn output(&self) -> (r: &Vec<u8>)
        ensures
            r@ == self.cfg().out,
    {
        &self.out
    }

    /// Gives up the machine for the bytes it has written.
    pub fn into_output(self) -> (r: Vec<u8>)
        ensures
            r@ == self.cfg().out,
    {
        self.out
    }

    /// The tape's current contents.
    pub fn tape_cells(&self) -> (r: &Vec<u8>)
        ensures
            r@ == self.cfg().tape,
    {
        &self.tape
    }

    /// Executes the one instruction under the program counter.  Returns
    /// the byte written, if the instruction was `Write`, or the error if
    /// it would move the data pointer off the tape, in which case the
    /// machine is left unchanged.
    pub fn step(&mut self) -> (r: Result<Option<u8>, RuntimeError>)
        requires
            old(self).wf(),
            old(self).cfg().pc < old(self).prog().len(),
        ensures
            final(self).prog() == old(self).prog(),
            final(self).inp() == old(self).inp(),
            match r {
                Ok(w) => {
                    &&& final(self).wf()
                    &&& step_config(old(self).prog(), old(self).inp(), old(self).cfg()) == Some(
                        final(self).cfg(),
                    )
                    &&& match w {
                        Some(b) => old(self).prog()[old(self).cfg().pc] is Write && b == old(
                            self,
                        ).cfg().tape[old(self).cfg().dp],
                        None => !(old(self).prog()[old(self).cfg().pc] is Write),
                    }
                },
                Err(e) => {
                    &&& step_config(old(self).prog(), old(self).inp(), old(self).cfg()) is None
                    &&& e == RuntimeError::PointerOutOfBounds
                    &&& *final(self) == *old(self)
                },
            },
    {
        let prog_len = self.program.len();
        let tape_len = self.tape.len();
        assert(self.pc < prog_len);
        assert(self.dp < tape_len);
        let inst = self.program[self.pc];
        match inst {
            Instruction::MoveRight => {
                if self.dp + 1 >= tape_len {
                    return Err(RuntimeError::PointerOutOfBounds);
                }
                self.dp = self.dp + 1;
                self.pc = self.pc + 1;
                Ok(None)
            },
            Instruction::MoveLeft => {
                if self.dp == 0 {
                    return Err(RuntimeError::PointerOutOfBounds);
                }
                self.dp = self.dp - 1;
                self.pc = self.pc + 1;
                Ok(None)
            },
            Instruction::Increment => {
                let b = self.tape[self.dp];
                let b2 = if b == 255 {
                    0
                } else {
                    b + 1
                };
                self.tape[self.dp] = b2;
                self.pc = self.pc + 1;
                Ok(None)
            },
            Instruction::Decrement => {
                let b = self.tape[self.dp];
                let b2 = if b == 0 {
                    255
                } else {
                    b - 1
                };
                self.tape[self.dp] = b2;
                self.pc = self.pc + 1;
                Ok(None)
            },
            Instruction::Write => {
                let b = self.tape[self.dp];
                self.out.push(b);
                self.pc = self.pc + 1;
                Ok(Some(b))
            },
            Instruction::Read => {
                if self.consumed < self.input.len() {
                    let b = self.input[self.consumed];
                    self.tape[self.dp] = b;
                    self.consumed = self.consumed + 1;
                } else {
                    self.tape[self.dp] = 0;
                }
                self.pc = self.pc + 1;
                Ok(None)
            },
            Instruction::JumpIfZero(t) => {
                if self.tape[self.dp] == 0 {
                    self.pc = t;
                } else {
                    self.pc = self.pc + 1;
                }
                Ok(None)
            },
            Instruction::JumpIfNotZero(t) => {
                if self.tape[self.dp] != 0 {
                    self.pc = t;
                } else {
                    self.pc = self.pc + 1;
                }
                Ok(None)
            },
        }
    }
}

} // verus!
