//! The assembler: a single left-to-right pass over the source characters
//! that emits one instruction per significant character and resolves each
//! bracket pair into a pair of absolute jump targets, using a stack of
//! pending open-bracket positions to backpatch the forward jump.

use vstd::prelude::*;

use crate::instructions::{AssemblyError, Instruction};

verus! {

/// The eight characters that assemble to an instruction; every other
/// character is a comment and is ignored.
pub open spec fn is_significant(c: char) -> bool {
    c == '>' || c == '<' || c == '+' || c == '-' || c == '.' || c == ',' || c == '[' || c == ']'
}

/// How many characters of the source assemble to an instruction.
pub open spec fn significant_count(s: Seq<char>) -> nat
    decreases s.len(),
{
    if s.len() == 0 {
        0
    } else {
        significant_count(s.drop_last()) + if is_significant(s.last()) {
            1nat
        } else {
            0nat
        }
    }
}

/// Open brackets minus close brackets over the whole source.
pub open spec fn bracket_balance(s: Seq<char>) -> int
    decreases s.len(),
{
    if s.len() == 0 {
        0
    } else {
        bracket_balance(s.drop_last()) + if s.last() == '[' {
            1int
        } else if s.last() == ']' {
            -1int
        } else {
            0int
        }
    }
}

/// No prefix of the source closes more brackets than it has opened.
pub open spec fn prefixes_nonnegative(s: Seq<char>) -> bool {
    forall|k: int| 0 <= k <= s.len() ==> bracket_balance(#[trigger] s.take(k)) >= 0
}

/// Every close bracket has an open bracket before it, and every open
/// bracket is closed by the end of the source.
pub open spec fn balanced(s: Seq<char>) -> bool {
    prefixes_nonnegative(s) && bracket_balance(s) == 0
}

/// The assembler's working state: the instructions emitted so far and the
/// stack of indices of open brackets whose close bracket is still pending.
#[verifier::ext_equal]
pub ghost struct AsmState {
    pub code: Seq<Instruction>,
    pub pending: Seq<usize>,
}

/// The state before any character has been consumed.
pub open spec fn asm_init() -> AsmState {
    AsmState { code: Seq::empty(), pending: Seq::empty() }
}

/// The effect of one source character on the assembler state, or `None`
/// for a close bracket with no pending open bracket.
///
/// An open bracket pushes its own index and emits a placeholder forward
/// jump; the matching close bracket rewrites that placeholder's target to
/// the close bracket's own index (backpatch) and emits a backward jump to
/// the open bracket's index.
pub open spec fn asm_char(st: AsmState, c: char) -> Option<AsmState> {
    if c == '>' {
        Some(AsmState { code: st.code.push(Instruction::MoveRight), ..st })
    } else if c == '<' {
        Some(AsmState { code: st.code.push(Instruction::MoveLeft), ..st })
    } else if c == '+' {
        Some(AsmState { code: st.code.push(Instruction::Increment), ..st })
    } else if c == '-' {
        Some(AsmState { code: st.code.push(Instruction::Decrement), ..st })
    } else if c == '.' {
        Some(AsmState { code: st.code.push(Instruction::Write), ..st })
    } else if c == ',' {
        Some(AsmState { code: st.code.push(Instruction::Read), ..st })
    } else if c == '[' {
        Some(
            AsmState {
                code: st.code.push(Instruction::JumpIfZero(0)),
                pending: st.pending.push(st.code.len() as usize),
            },
        )
    } else if c == ']' {
        if st.pending.len() == 0 {
            None
        } else {
            let p = st.pending.last();
            Some(
                AsmState {
                    code: st.code.update(
                        p as int,
                        Instruction::JumpIfZero(st.code.len() as usize),
                    ).push(Instruction::JumpIfNotZero(p)),
                    pending: st.pending.drop_last(),
                },
            )
        }
    } else {
        Some(st)
    }
}

/// The assembler state after consuming the whole source, or `None` once a
/// close bracket has found the stack empty.
pub open spec fn asm_run(s: Seq<char>) -> Option<AsmState>
    decreases s.len(),
{
    if s.len() == 0 {
        Some(asm_init())
    } else {
        match asm_run(s.drop_last()) {
            Option::None => Option::None,
            Option::Some(st) => asm_char(st, s.last()),
        }
    }
}

/// What assembly of a source yields: the finished instruction list, or
/// `None` when a close bracket was unmatched or an open bracket was left
/// pending at the end.
pub open spec fn spec_assemble(s: Seq<char>) -> Option<Seq<Instruction>> {
    match asm_run(s) {
        Option::None => Option::None,
        Option::Some(st) => if st.pending.len() == 0 {
            Option::Some(st.code)
        } else {
            Option::None
        },
    }
}

/// Converts source characters into an executable instruction list in one
/// pass, backpatching each open bracket's jump target when its close
/// bracket is found; fails on any unmatched bracket.
pub fn assemble(source: &Vec<char>) -> (r: Result<Vec<Instruction>, AssemblyError>)
    ensures
        match r {
            Ok(program) => spec_assemble(source@) == Some(program@),
            Err(e) => spec_assemble(source@) is None && e == AssemblyError::UnmatchedBracket,
        },
{
    let mut instructions: Vec<Instruction> = Vec::new();
    let mut pending: Vec<usize> = Vec::new();
    let mut i: usize = 0;
    while i < source.len()
        invariant
            i <= source@.len(),
            asm_run(source@.take(i as int)) == Some(
                AsmState { code: instructions@, pending: pending@ },
            ),
            forall|k: int|
                0 <= k < pending@.len() ==> #[trigger] pending@[k] < instructions@.len(),
        decreases source@.len() - i,
    {
        let c = source[i];
        proof {
            assert(source@.take(i + 1).drop_last() =~= source@.take(i as int));
            assert(source@.take(i + 1).last() == source@[i as int]);
        }
        match c {
            '>' => instructions.push(Instruction::MoveRight),
            '<' => instructions.push(Instruction::MoveLeft),
            '+' => instructions.push(Instruction::Increment),
            '-' => instructions.push(Instruction::Decrement),
            '.' => instructions.push(Instruction::Write),
            ',' => instructions.push(Instruction::Read),
            '[' => {
                pending.push(instructions.len());
                instructions.push(Instruction::JumpIfZero(0));
            },
            ']' => {
                match pending.pop() {
                    Some(p) => {
                        let target = instructions.len();
                        instructions[p] = Instruction::JumpIfZero(target);
                        instructions.push(Instruction::JumpIfNotZero(p));
                    },
                    None => {
                        proof {
                            lemma_asm_run_none_extends(source@, i + 1);
                        }
                        return Err(AssemblyError::UnmatchedBracket);
                    },
                }
            },
            _ => {},
        }
        i = i + 1;
    }
    proof {
        assert(source@.take(i as int) =~= source@);
    }
    if pending.len() > 0 {
        return Err(AssemblyError::UnmatchedBracket);
    }
    Ok(instructions)
}

/// Dropping the last character does not change any shorter prefix.
proof fn lemma_take_shorter(s: Seq<char>, k: int)
    requires
        0 <= k < s.len(),
    ensures
        s.take(k) == s.drop_last().take(k),
{
    assert(s.take(k) =~= s.drop_last().take(k));
}

/// The bookkeeping of a run of the assembler: it emits one instruction
/// per significant character, its stack depth is the bracket balance so
/// far, and it fails exactly when some prefix closes a bracket it never
/// opened.
proof fn lemma_asm_run_counts(s: Seq<char>)
    ensures
        match asm_run(s) {
            Option::Some(st) => st.code.len() == significant_count(s) && st.pending.len()
                == bracket_balance(s) && prefixes_nonnegative(s) && (forall|k: int|
                0 <= k < st.pending.len() ==> #[trigger] st.pending[k] < st.code.len()),
            Option::None => !prefixes_nonnegative(s),
        },
    decreases s.len(),
{
    if s.len() == 0 {
        assert forall|k: int| 0 <= k <= s.len() implies bracket_balance(#[trigger] s.take(k))
            >= 0 by {
            assert(s.take(k) =~= s);
        }
    } else {
        let s0 = s.drop_last();
        let c = s.last();
        lemma_asm_run_counts(s0);
        match asm_run(s0) {
            Option::None => {
                let k0 = choose|k: int|
                    0 <= k <= s0.len() && bracket_balance(#[trigger] s0.take(k)) < 0;
                lemma_take_shorter(s, k0);
                assert(bracket_balance(s.take(k0)) < 0);
            },
            Option::Some(st0) => {
                if c == ']' && st0.pending.len() == 0 {
                    assert(bracket_balance(s) == -1);
                    assert(s.take(s.len() as int) =~= s);
                    assert(bracket_balance(s.take(s.len() as int)) < 0);
                } else {
                    let st = asm_char(st0, c)->Some_0;
                    assert(asm_run(s) == Some(st));
                    assert(significant_count(s) == significant_count(s0) + if is_significant(c) {
                        1nat
                    } else {
                        0nat
                    });
                    if c == ']' {
                        assert(st.code.len() == st0.code.len() + 1);
                    } else if c == '[' {
                        assert(st.code.len() == st0.code.len() + 1);
                    } else if is_significant(c) {
                        assert(st.code.len() == st0.code.len() + 1);
                    } else {
                        assert(st == st0);
                    }
                    assert(st.code.len() == significant_count(s));
                    assert(st.pending.len() == bracket_balance(s));
                    assert forall|k: int| 0 <= k <= s.len() implies bracket_balance(
                        #[trigger] s.take(k),
                    ) >= 0 by {
                        if k < s.len() {
                            lemma_take_shorter(s, k);
                        } else {
                            assert(s.take(k) =~= s);
                        }
                    }
                }
            },
        }
    }
}

/// Assembly succeeds on exactly the balanced sources, and then yields
/// one instruction per significant character of the source; on any
/// unbalanced source it fails.
pub proof fn lemma_assemble_balanced(s: Seq<char>)
    ensures
        spec_assemble(s) is Some <==> balanced(s),
        spec_assemble(s) matches Some(code) ==> code.len() == significant_count(s),
{
    lemma_asm_run_counts(s);
}

/// The jump instruction at index `i` and the one at its target point at
/// each other: a forward jump's target holds the matching backward jump,
/// and that backward jump's target is the forward jump's own index.
pub open spec fn pair_ok_at(code: Seq<Instruction>, i: int) -> bool {
    match code[i] {
        Instruction::JumpIfZero(t) => i < t < code.len() && code[t as int]
            == Instruction::JumpIfNotZero(i as usize),
        Instruction::JumpIfNotZero(t) => t < i && code[t as int] == Instruction::JumpIfZero(
            i as usize,
        ),
        _ => true,
    }
}

/// Every bracket pair of the program round-trips: re-deriving the
/// pairing from the jump targets recovers the original nesting.
pub open spec fn pairs_matched(code: Seq<Instruction>) -> bool {
    forall|i: int| 0 <= i < code.len() ==> #[trigger] pair_ok_at(code, i)
}

/// `pair_ok_at`, relaxed while assembly is still under way: a forward
/// jump whose index is still on the pending stack keeps its placeholder
/// target.
spec fn pending_pair_ok_at(st: AsmState, i: int) -> bool {
    match st.code[i] {
        Instruction::JumpIfZero(t) => if st.pending.contains(i as usize) {
            t == 0
        } else {
            i < t < st.code.len() && st.code[t as int] == Instruction::JumpIfNotZero(i as usize)
        },
        Instruction::JumpIfNotZero(t) => t < i && st.code[t as int] == Instruction::JumpIfZero(
            i as usize,
        ),
        _ => true,
    }
}

/// The assembler state invariant behind `pairs_matched`: pending indices
/// hold placeholder forward jumps and rise strictly from the bottom of
/// the stack, and every instruction off the stack is already paired.
spec fn pairs_inv(st: AsmState) -> bool {
    &&& forall|k: int|
        0 <= k < st.pending.len() ==> #[trigger] st.pending[k] < st.code.len()
            && st.code[st.pending[k] as int] == Instruction::JumpIfZero(0)
    &&& forall|k1: int, k2: int|
        #![trigger st.pending[k1], st.pending[k2]]
        0 <= k1 < k2 < st.pending.len() ==> st.pending[k1] < st.pending[k2]
    &&& forall|i: int| 0 <= i < st.code.len() ==> #[trigger] pending_pair_ok_at(st, i)
}

/// Runs of the assembler preserve `pairs_inv`, as long as every index
/// fits the targets' machine words.
proof fn lemma_asm_run_pairs(s: Seq<char>)
    requires
        s.len() <= usize::MAX,
    ensures
        asm_run(s) matches Some(st) ==> pairs_inv(st) && st.code.len() <= s.len(),
    decreases s.len(),
{
    if s.len() == 0 || asm_run(s) is None {
        // nothing to show of an empty or failed run
    } else {
        let s0 = s.drop_last();
        let c = s.last();
        lemma_asm_run_pairs(s0);
        let st0 = asm_run(s0)->Some_0;
        let st = asm_run(s)->Some_0;
        assert(asm_char(st0, c) == Some(st));
        if c == '[' {
            let le = st0.code.len() as usize;
            assert(st.code == st0.code.push(Instruction::JumpIfZero(0)));
            assert(st.pending == st0.pending.push(le));
            assert forall|i: int| 0 <= i < st.code.len() implies #[trigger] pending_pair_ok_at(
                st,
                i,
            ) by {
                if i < st0.code.len() {
                    assert(pending_pair_ok_at(st0, i));
                    if st.pending.contains(i as usize) {
                        let k = choose|k: int|
                            0 <= k < st.pending.len() && st.pending[k] == i as usize;
                        assert(k < st0.pending.len());
                        assert(st0.pending.contains(i as usize));
                    }
                    if st0.pending.contains(i as usize) {
                        let k = choose|k: int|
                            0 <= k < st0.pending.len() && st0.pending[k] == i as usize;
                        assert(st.pending[k] == i as usize);
                        assert(st.pending.contains(i as usize));
                    }
                } else {
                    assert(st.code[i] == Instruction::JumpIfZero(0));
                    assert(st.pending[st.pending.len() - 1] == le);
                    assert(st.pending.contains(le));
                }
            }
        } else if c == ']' {
            let p = st0.pending.last();
            let le = st0.code.len();
            assert(st.code == st0.code.update(p as int, Instruction::JumpIfZero(le as usize)).push(
                Instruction::JumpIfNotZero(p),
            ));
            assert(st.pending == st0.pending.drop_last());
            assert(p < le);
            assert forall|x: usize| st.pending.contains(x) implies st0.pending.contains(x) && x
                < p by {
                let k = choose|k: int| 0 <= k < st.pending.len() && st.pending[k] == x;
                assert(st0.pending[k] == x);
                assert(st0.pending[k] < st0.pending[st0.pending.len() - 1]);
            }
            assert forall|i: int| 0 <= i < st.code.len() implies #[trigger] pending_pair_ok_at(
                st,
                i,
            ) by {
                if i == le {
                    assert(st.code[i] == Instruction::JumpIfNotZero(p));
                    assert(st.code[p as int] == Instruction::JumpIfZero(le as usize));
                } else if i == p {
                    assert(st.code[i] == Instruction::JumpIfZero(le as usize));
                    assert(!st.pending.contains(p));
                    assert(st.code[le as int] == Instruction::JumpIfNotZero(p));
                } else {
                    assert(st.code[i] == st0.code[i]);
                    assert(pending_pair_ok_at(st0, i));
                    match st0.code[i] {
                        Instruction::JumpIfZero(t) => {
                            if st0.pending.contains(i as usize) {
                                let k = choose|k: int|
                                    0 <= k < st0.pending.len() && st0.pending[k] == i as usize;
                                assert(k < st0.pending.len() - 1);
                                assert(st.pending[k] == i as usize);
                                assert(st.pending.contains(i as usize));
                            } else {
                                assert(st0.code[t as int] == Instruction::JumpIfNotZero(i as usize));
                                assert(t != p);
                                assert(st.code[t as int] == st0.code[t as int]);
                            }
                        },
                        Instruction::JumpIfNotZero(t) => {
                            assert(st0.code[t as int] == Instruction::JumpIfZero(i as usize));
                            if t == p {
                                assert(st0.code[p as int] == Instruction::JumpIfZero(0));
                                assert(i as usize == 0);
                                assert(false);
                            }
                            assert(st.code[t as int] == st0.code[t as int]);
                        },
                        _ => {},
                    }
                }
            }
        } else if is_significant(c) {
            assert(st.pending == st0.pending);
            assert(st.code.len() == st0.code.len() + 1);
            assert(!(st.code.last() is JumpIfZero) && !(st.code.last() is JumpIfNotZero));
            assert forall|i: int| 0 <= i < st.code.len() implies #[trigger] pending_pair_ok_at(
                st,
                i,
            ) by {
                if i < st0.code.len() {
                    assert(pending_pair_ok_at(st0, i));
                }
            }
        } else {
            assert(st == st0);
        }
    }
}

/// Round-trip bracket pairing of an assembled program: every forward
/// jump's target holds its matching backward jump — the index just after
/// the loop body — and that backward jump's target is the forward jump's
/// own index, so the original nesting can be re-derived from the
/// targets.
pub proof fn lemma_assemble_pairs(s: Seq<char>)
    requires
        s.len() <= usize::MAX,
    ensures
        spec_assemble(s) matches Some(code) ==> pairs_matched(code),
{
    lemma_asm_run_pairs(s);
    if spec_assemble(s) is Some {
        let st = asm_run(s)->Some_0;
        assert forall|i: int| 0 <= i < st.code.len() implies #[trigger] pair_ok_at(
            st.code,
            i,
        ) by {
            assert(pending_pair_ok_at(st, i));
            assert(!st.pending.contains(i as usize));
        }
    }
}

/// Once a prefix of the source has failed to assemble, the whole source
/// fails too: the assembler stops at the first unmatched close bracket.
proof fn lemma_asm_run_none_extends(s: Seq<char>, k: int)
    requires
        0 <= k <= s.len(),
        asm_run(s.take(k)) is None,
    ensures
        asm_run(s) is None,
    decreases s.len(),
{
    if k == s.len() {
        assert(s.take(k) =~= s);
    } else {
        assert(s.drop_last().take(k) =~= s.take(k));
        lemma_asm_run_none_extends(s.drop_last(), k);
    }
}

} // verus!
