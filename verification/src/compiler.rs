//! Compilation of source text into a [`Module`] of [`Instruction`]s.
//!
//! The compiler is a single left-to-right pass over the source bytes. Maximal
//! runs of the four count-bearing operators (`<`, `>`, `-`, `+`) are folded
//! into one counted instruction each, with runs longer than 255 truncated and
//! continued in a fresh instruction. Brackets are resolved through a
//! compile-time stack into a symmetric jump table; every other operator emits
//! one instruction and every other byte is a comment.
//!
//! The meaning of compilation is the spec-level state machine
//! [`spec_compile_from`]; the executable [`Parser::parse`] is proved to return
//! exactly its result.

use vstd::prelude::*;
use vstd::pervasive::VecAdditionalExecFns;
use vstd::seq_lib::*;
use vstd::slice::slice_index_get;
use vstd::string::StringSliceAdditionalSpecFns;

use crate::instructions::Instruction;
use crate::BfInterpreter;
use crate::Module;
use crate::CODESIZE;
use crate::HEAPSIZE;
use crate::STACKSIZE;

verus! {

/// Why a compilation was rejected; no module is produced in these cases.
#[derive(Clone, Copy, Debug, PartialEq, Eq, Structural)]
pub enum CompileError {
    /// The source ended while at least one `[` was still unmatched.
    UnmatchedOpenBracket,
    /// A `]` appeared with no `[` open before it.
    UnmatchedCloseBracket,
    /// The instruction array or the bracket stack would overflow.
    SourceTooLarge,
}

/// The four operators whose runs are folded into a carried count.
pub open spec fn is_count_byte(b: u8) -> bool {
    b == ('<' as u8) || b == ('>' as u8) || b == ('-' as u8) || b == ('+' as u8)
}

/// The eight operator bytes; everything else is a comment.
pub open spec fn is_operator_byte(b: u8) -> bool {
    is_count_byte(b) || b == ('[' as u8) || b == (']' as u8) || b == ('.' as u8) || b == (',' as u8)
}

/// The instruction one operator byte compiles to, carrying `value` where the
/// variant bears a count.
pub open spec fn instruction_for_byte(b: u8, value: u8) -> Instruction {
    if b == ('<' as u8) {
        Instruction::Backward(value)
    } else if b == ('>' as u8) {
        Instruction::Forward(value)
    } else if b == ('-' as u8) {
        Instruction::Subtract(value)
    } else if b == ('+' as u8) {
        Instruction::Add(value)
    } else if b == ('[' as u8) {
        Instruction::Land
    } else if b == (']' as u8) {
        Instruction::Jump
    } else if b == ('.' as u8) {
        Instruction::Write
    } else if b == (',' as u8) {
        Instruction::Read
    } else {
        Instruction::Nop
    }
}

/// Length of the maximal run of bytes equal to `src[i]` that starts at `i`.
pub open spec fn run_len(src: Seq<u8>, i: int) -> nat
    recommends
        0 <= i < src.len(),
    decreases src.len() - i when 0 <= i < src.len()
{
    if i + 1 < src.len() && src[i + 1] == src[i] {
        1 + run_len(src, i + 1)
    } else {
        1
    }
}

/// Run length clamped to the largest count one instruction can carry.
pub open spec fn folded_run_len(src: Seq<u8>, i: int) -> nat {
    if run_len(src, i) > 255 {
        255
    } else {
        run_len(src, i)
    }
}

/// A run is at least one byte long and never reaches past the source.
pub proof fn lemma_run_len_bounds(src: Seq<u8>, i: int)
    requires
        0 <= i < src.len(),
    ensures
        1 <= run_len(src, i),
        i + run_len(src, i) <= src.len(),
    decreases src.len() - i,
{
    if i + 1 < src.len() && src[i + 1] == src[i] {
        lemma_run_len_bounds(src, i + 1);
    }
}

/// The run starting at `i` is exactly `j - i` bytes long when the positions
/// `i..j` all hold `src[i]` and `j` is the source's end or holds another byte.
pub proof fn lemma_run_len_exact(src: Seq<u8>, i: int, j: int)
    requires
        0 <= i < j <= src.len(),
        forall|q: int| i <= q < j ==> src[q] == src[i],
        j == src.len() || src[j] != src[i],
    ensures
        run_len(src, i) == j - i,
    decreases j - i,
{
    if i + 1 < j {
        lemma_run_len_exact(src, i + 1, j);
    }
}

/// The run starting at `i` spans at least `j - i` bytes when the positions
/// `i..j` all hold `src[i]`.
pub proof fn lemma_run_len_at_least(src: Seq<u8>, i: int, j: int)
    requires
        0 <= i < j <= src.len(),
        forall|q: int| i <= q < j ==> src[q] == src[i],
    ensures
        run_len(src, i) >= j - i,
    decreases j - i,
{
    if i + 1 < j {
        lemma_run_len_at_least(src, i + 1, j);
    }
}

/// The compiler's intermediate state: the instructions emitted so far, the
/// slot indices of the open brackets still pending, and the jump-table
/// entries written so far.
pub struct CompileState {
    pub code: Seq<Instruction>,
    pub stack: Seq<int>,
    pub jumps: Map<int, int>,
}

/// The state in which a compilation starts.
pub open spec fn initial_compile_state() -> CompileState {
    CompileState { code: Seq::empty(), stack: Seq::empty(), jumps: Map::empty() }
}

/// One left-to-right compilation pass over `src`, starting at position `i` in
/// state `st`. This is the meaning of compilation; the executable compiler is
/// proved to return exactly its result.
pub open spec fn spec_compile_from(src: Seq<u8>, i: int, st: CompileState) -> Result<
    CompileState,
    CompileError,
>
    decreases src.len() - i when 0 <= i <= src.len() via check_compile_decreases
{
    if i >= src.len() {
        if st.stack.len() > 0 {
            Err(CompileError::UnmatchedOpenBracket)
        } else {
            Ok(st)
        }
    } else {
        let b = src[i];
        if is_count_byte(b) {
            if st.code.len() >= CODESIZE {
                Err(CompileError::SourceTooLarge)
            } else {
                let k = folded_run_len(src, i);
                spec_compile_from(
                    src,
                    i + k,
                    CompileState {
                        code: st.code.push(instruction_for_byte(b, k as u8)),
                        stack: st.stack,
                        jumps: st.jumps,
                    },
                )
            }
        } else if b == ('[' as u8) {
            if st.code.len() >= CODESIZE || st.stack.len() >= STACKSIZE {
                Err(CompileError::SourceTooLarge)
            } else {
                spec_compile_from(
                    src,
                    i + 1,
                    CompileState {
                        code: st.code.push(Instruction::Land),
                        stack: st.stack.push(st.code.len() as int),
                        jumps: st.jumps,
                    },
                )
            }
        } else if b == (']' as u8) {
            if st.stack.len() == 0 {
                Err(CompileError::UnmatchedCloseBracket)
            } else if st.code.len() >= CODESIZE {
                Err(CompileError::SourceTooLarge)
            } else {
                let open = st.stack.last();
                let close = st.code.len() as int;
                spec_compile_from(
                    src,
                    i + 1,
                    CompileState {
                        code: st.code.push(Instruction::Jump),
                        stack: st.stack.drop_last(),
                        jumps: st.jumps.insert(open, close).insert(close, open),
                    },
                )
            }
        } else if b == ('.' as u8) || b == (',' as u8) {
            if st.code.len() >= CODESIZE {
                Err(CompileError::SourceTooLarge)
            } else {
                spec_compile_from(
                    src,
                    i + 1,
                    CompileState {
                        code: st.code.push(instruction_for_byte(b, 1u8)),
                        stack: st.stack,
                        jumps: st.jumps,
                    },
                )
            }
        } else {
            spec_compile_from(src, i + 1, st)
        }
    }
}

#[via_fn]
proof fn check_compile_decreases(src: Seq<u8>, i: int, st: CompileState) {
    if 0 <= i < src.len() && is_count_byte(src[i]) {
        lemma_run_len_bounds(src, i);
    }
}

/// Compilation of a whole source, from its first byte in the initial state.
pub open spec fn spec_compile(src: Seq<u8>) -> Result<CompileState, CompileError> {
    spec_compile_from(src, 0, initial_compile_state())
}

/// Every emitted instruction is an operator's, and a carried count is never
/// zero (nor, being a `u8`, above 255).
pub open spec fn emitted_ok(inst: Instruction) -> bool {
    match inst {
        Instruction::Backward(v) => v >= 1,
        Instruction::Forward(v) => v >= 1,
        Instruction::Subtract(v) => v >= 1,
        Instruction::Add(v) => v >= 1,
        Instruction::Land => true,
        Instruction::Jump => true,
        Instruction::Write => true,
        Instruction::Read => true,
        Instruction::Nop => false,
    }
}

/// The jump-table entry at `k` pairs a loop start with the loop end that
/// closes it: the partner lies inside the emitted code, maps back to `k`,
/// and the start sits strictly before the end.
pub open spec fn bracket_entry_ok(st: CompileState, k: int) -> bool {
    let j = st.jumps[k];
    &&& 0 <= k < st.code.len()
    &&& st.jumps.dom().contains(j)
    &&& st.jumps[j] == k
    &&& (st.code[k] is Land || st.code[k] is Jump)
    &&& (st.code[k] is Land ==> k < j && st.code[j] is Jump)
    &&& (st.code[k] is Jump ==> j < k && st.code[j] is Land)
}

/// What holds of the compiler's state throughout a pass: every jump-table
/// entry is a symmetric bracket pair, the pending stack lists loop starts
/// not yet closed in strictly increasing order, every loop end is already
/// paired, every loop start is paired or pending, and every emitted
/// instruction is well formed.
pub open spec fn compile_state_invariant(st: CompileState) -> bool {
    &&& forall|k: int| #[trigger] st.jumps.dom().contains(k) ==> bracket_entry_ok(st, k)
    &&& forall|q: int|
        0 <= q < st.stack.len() ==> 0 <= #[trigger] st.stack[q] < st.code.len()
            && st.code[st.stack[q]] is Land && !st.jumps.dom().contains(st.stack[q])
    &&& forall|q1: int, q2: int|
        0 <= q1 < q2 < st.stack.len() ==> #[trigger] st.stack[q1] < #[trigger] st.stack[q2]
    &&& forall|p: int|
        0 <= p < st.code.len() && #[trigger] st.code[p] is Jump ==> st.jumps.dom().contains(p)
    &&& forall|p: int|
        0 <= p < st.code.len() && #[trigger] st.code[p] is Land ==> st.jumps.dom().contains(p)
            || st.stack.contains(p)
    &&& forall|p: int| 0 <= p < st.code.len() ==> emitted_ok(#[trigger] st.code[p])
}

/// Emitting a non-bracket instruction preserves the compiler invariant.
proof fn lemma_emit_plain_preserves_invariant(st: CompileState, inst: Instruction)
    requires
        compile_state_invariant(st),
        emitted_ok(inst),
        !(inst is Land),
        !(inst is Jump),
    ensures
        compile_state_invariant(
            CompileState { code: st.code.push(inst), stack: st.stack, jumps: st.jumps },
        ),
{
    let st2 = CompileState { code: st.code.push(inst), stack: st.stack, jumps: st.jumps };
    assert(forall|p: int| 0 <= p < st.code.len() ==> st2.code[p] == #[trigger] st.code[p]);
    assert(st2.code[st.code.len() as int] == inst);
    assert forall|k: int| #[trigger] st2.jumps.dom().contains(k) implies bracket_entry_ok(
        st2,
        k,
    ) by {
        assert(bracket_entry_ok(st, k));
    }
}

/// Opening a bracket — pushing its slot on the stack and emitting the loop
/// start — preserves the compiler invariant.
proof fn lemma_emit_open_preserves_invariant(st: CompileState)
    requires
        compile_state_invariant(st),
    ensures
        compile_state_invariant(
            CompileState {
                code: st.code.push(Instruction::Land),
                stack: st.stack.push(st.code.len() as int),
                jumps: st.jumps,
            },
        ),
{
    let opened = st.code.len() as int;
    let st2 = CompileState {
        code: st.code.push(Instruction::Land),
        stack: st.stack.push(opened),
        jumps: st.jumps,
    };
    assert(forall|p: int| 0 <= p < st.code.len() ==> st2.code[p] == #[trigger] st.code[p]);
    assert(st2.code[opened] is Land);
    assert(forall|q: int| 0 <= q < st.stack.len() ==> st2.stack[q] == #[trigger] st.stack[q]);
    assert(st2.stack[st.stack.len() as int] == opened);
    assert forall|k: int| #[trigger] st2.jumps.dom().contains(k) implies bracket_entry_ok(
        st2,
        k,
    ) by {
        assert(bracket_entry_ok(st, k));
    }
    assert forall|p: int|
        0 <= p < st2.code.len() && #[trigger] st2.code[p] is Land implies st2.jumps.dom().contains(
        p,
    ) || st2.stack.contains(p) by {
        if p == opened {
            assert(st2.stack[st.stack.len() as int] == p);
        } else {
            assert(st.code[p] is Land);
            if !st.jumps.dom().contains(p) {
                let q = choose|q: int| 0 <= q < st.stack.len() && st.stack[q] == p;
                assert(st2.stack[q] == p);
            }
        }
    }
}

/// Closing a bracket — popping the pending loop start and writing the
/// symmetric pair into the jump table — preserves the compiler invariant.
proof fn lemma_emit_close_preserves_invariant(st: CompileState)
    requires
        compile_state_invariant(st),
        st.stack.len() > 0,
    ensures
        compile_state_invariant(
            CompileState {
                code: st.code.push(Instruction::Jump),
                stack: st.stack.drop_last(),
                jumps: st.jumps.insert(st.stack.last(), st.code.len() as int).insert(
                    st.code.len() as int,
                    st.stack.last(),
                ),
            },
        ),
{
    let open = st.stack.last();
    let close = st.code.len() as int;
    let st2 = CompileState {
        code: st.code.push(Instruction::Jump),
        stack: st.stack.drop_last(),
        jumps: st.jumps.insert(open, close).insert(close, open),
    };
    assert(0 <= open < close);
    assert(!st.jumps.dom().contains(open));
    assert(!st.jumps.dom().contains(close));
    assert(forall|p: int| 0 <= p < st.code.len() ==> st2.code[p] == #[trigger] st.code[p]);
    assert(st2.code[close] is Jump);
    assert(st.code[open] is Land);
    assert(forall|q: int| 0 <= q < st2.stack.len() ==> st2.stack[q] == #[trigger] st.stack[q]);
    assert forall|k: int| #[trigger] st2.jumps.dom().contains(k) implies bracket_entry_ok(
        st2,
        k,
    ) by {
        if k == open {
            assert(st2.jumps[open] == close);
            assert(st2.jumps[close] == open);
        } else if k == close {
            assert(st2.jumps[close] == open);
            assert(st2.jumps[open] == close);
        } else {
            assert(st.jumps.dom().contains(k));
            assert(bracket_entry_ok(st, k));
            let j = st.jumps[k];
            assert(j != open && j != close);
            assert(st2.jumps[k] == j && st2.jumps[j] == k);
        }
    }
    assert forall|q: int| 0 <= q < st2.stack.len() implies 0 <= #[trigger] st2.stack[q]
        < st2.code.len() && st2.code[st2.stack[q]] is Land && !st2.jumps.dom().contains(
        st2.stack[q],
    ) by {
        assert(st.stack[q] < st.stack[st.stack.len() - 1]);
        assert(st2.stack[q] != open && st2.stack[q] != close);
    }
    assert forall|p: int|
        0 <= p < st2.code.len() && #[trigger] st2.code[p] is Land implies st2.jumps.dom().contains(
        p,
    ) || st2.stack.contains(p) by {
        if p < st.code.len() && !st.jumps.dom().contains(p) && p != open {
            assert(st.code[p] is Land);
            let q = choose|q: int| 0 <= q < st.stack.len() && st.stack[q] == p;
            assert(q != st.stack.len() - 1);
            assert(st2.stack[q] == p);
        }
    }
}

/// A compilation pass that succeeds from an invariant-respecting state ends
/// in an invariant-respecting state with no bracket left pending.
pub proof fn lemma_compile_invariant(src: Seq<u8>, i: int, st: CompileState)
    requires
        0 <= i <= src.len(),
        compile_state_invariant(st),
        spec_compile_from(src, i, st) is Ok,
    ensures
        spec_compile_from(src, i, st) matches Ok(st2) ==> compile_state_invariant(st2)
            && st2.stack.len() == 0,
    decreases src.len() - i,
{
    if i < src.len() {
        let b = src[i];
        if is_count_byte(b) {
            lemma_run_len_bounds(src, i);
            let k = folded_run_len(src, i);
            let inst = instruction_for_byte(b, k as u8);
            assert(emitted_ok(inst) && !(inst is Land) && !(inst is Jump));
            lemma_emit_plain_preserves_invariant(st, inst);
            lemma_compile_invariant(
                src,
                i + k,
                CompileState { code: st.code.push(inst), stack: st.stack, jumps: st.jumps },
            );
        } else if b == ('[' as u8) {
            lemma_emit_open_preserves_invariant(st);
            lemma_compile_invariant(
                src,
                i + 1,
                CompileState {
                    code: st.code.push(Instruction::Land),
                    stack: st.stack.push(st.code.len() as int),
                    jumps: st.jumps,
                },
            );
        } else if b == (']' as u8) {
            lemma_emit_close_preserves_invariant(st);
            lemma_compile_invariant(
                src,
                i + 1,
                CompileState {
                    code: st.code.push(Instruction::Jump),
                    stack: st.stack.drop_last(),
                    jumps: st.jumps.insert(st.stack.last(), st.code.len() as int).insert(
                        st.code.len() as int,
                        st.stack.last(),
                    ),
                },
            );
        } else if b == ('.' as u8) || b == (',' as u8) {
            let inst = instruction_for_byte(b, 1u8);
            lemma_emit_plain_preserves_invariant(st, inst);
            lemma_compile_invariant(
                src,
                i + 1,
                CompileState { code: st.code.push(inst), stack: st.stack, jumps: st.jumps },
            );
        } else {
            lemma_compile_invariant(src, i + 1, st);
        }
    }
}

/// Comment bytes change nothing: compiling across them leaves a state with
/// no pending bracket untouched.
proof fn lemma_comments_change_nothing(src: Seq<u8>, i: int, st: CompileState)
    requires
        0 <= i <= src.len(),
        st.stack.len() == 0,
        forall|q: int| i <= q < src.len() ==> !is_operator_byte(#[trigger] src[q]),
    ensures
        spec_compile_from(src, i, st) == Ok::<CompileState, CompileError>(st),
    decreases src.len() - i,
{
    if i < src.len() {
        lemma_comments_change_nothing(src, i + 1, st);
    }
}

/// Idempotence of no-op programs, compilation side: a source consisting only
/// of comment characters compiles successfully to a module of length zero
/// with an empty jump table.
pub proof fn lemma_comment_only_source(src: Seq<u8>)
    requires
        forall|q: int| 0 <= q < src.len() ==> !is_operator_byte(#[trigger] src[q]),
    ensures
        spec_compile(src) == Ok::<CompileState, CompileError>(initial_compile_state()),
{
    lemma_comments_change_nothing(src, 0, initial_compile_state());
}

/// The count carried by an instruction; zero for the count-free variants.
pub open spec fn instruction_count(inst: Instruction) -> int {
    match inst {
        Instruction::Backward(v) => v as int,
        Instruction::Forward(v) => v as int,
        Instruction::Subtract(v) => v as int,
        Instruction::Add(v) => v as int,
        Instruction::Land => 0,
        Instruction::Jump => 0,
        Instruction::Write => 0,
        Instruction::Read => 0,
        Instruction::Nop => 0,
    }
}

/// Sum of the counts carried by a sequence of instructions.
pub open spec fn count_sum(insts: Seq<Instruction>) -> int
    decreases insts.len(),
{
    if insts.len() == 0 {
        0
    } else {
        instruction_count(insts.first()) + count_sum(insts.drop_first())
    }
}

/// What a run of `k` copies of the count-bearing byte `b` folds to: one
/// instruction carrying 255 per full chunk, then one carrying the remainder.
pub open spec fn folded_instructions(b: u8, k: nat) -> Seq<Instruction>
    decreases k,
{
    if k == 0 {
        Seq::empty()
    } else if k <= 255 {
        seq![instruction_for_byte(b, k as u8)]
    } else {
        seq![instruction_for_byte(b, 255u8)] + folded_instructions(b, (k - 255) as nat)
    }
}

/// Round-trip of run-length folding, shape side: a run of `k >= 1` copies of
/// a count-bearing byte folds to exactly `ceil(k / 255)` instructions of that
/// operator, each carrying a count in `1..=255`, and the counts sum to `k`.
pub proof fn lemma_folded_instructions_shape(b: u8, k: nat)
    requires
        k >= 1,
        is_count_byte(b),
    ensures
        folded_instructions(b, k).len() == (k + 254) / 255,
        count_sum(folded_instructions(b, k)) == k,
        forall|p: int|
            0 <= p < folded_instructions(b, k).len() ==> {
                let inst = #[trigger] folded_instructions(b, k)[p];
                inst == instruction_for_byte(b, instruction_count(inst) as u8) && 1
                    <= instruction_count(inst) <= 255
            },
    decreases k,
{
    let insts = folded_instructions(b, k);
    if k <= 255 {
        assert(insts.drop_first() =~= Seq::<Instruction>::empty());
        assert(insts.first() == instruction_for_byte(b, k as u8));
        assert(instruction_count(insts.first()) == k);
        assert(count_sum(insts.drop_first()) == 0);
    } else {
        lemma_folded_instructions_shape(b, (k - 255) as nat);
        vstd::arithmetic::div_mod::lemma_div_plus_one(k - 255 + 254, 255);
        let rest = folded_instructions(b, (k - 255) as nat);
        assert(insts.first() == instruction_for_byte(b, 255u8));
        assert(insts.drop_first() =~= rest);
        assert(forall|p: int| 0 <= p < rest.len() ==> #[trigger] rest[p] == insts[p + 1]);
    }
}

/// Round-trip of run-length folding, compilation side: compiling from the
/// start of a maximal run of `k` copies of a count-bearing byte emits the
/// folded instructions of the run and nothing else, then continues right
/// after the run, with the stack and the jump table untouched.
pub proof fn lemma_run_folding(src: Seq<u8>, i: int, st: CompileState, k: int)
    requires
        0 <= i,
        1 <= k,
        i + k <= src.len(),
        is_count_byte(src[i]),
        forall|q: int| i <= q < i + k ==> src[q] == src[i],
        i + k == src.len() || src[i + k] != src[i],
        st.code.len() + (k + 254) / 255 <= CODESIZE,
    ensures
        spec_compile_from(src, i, st) == spec_compile_from(
            src,
            i + k,
            CompileState {
                code: st.code + folded_instructions(src[i], k as nat),
                stack: st.stack,
                jumps: st.jumps,
            },
        ),
    decreases k,
{
    let b = src[i];
    if k <= 255 {
        lemma_run_len_exact(src, i, i + k);
        assert(st.code.push(instruction_for_byte(b, k as u8)) =~= st.code + folded_instructions(
            b,
            k as nat,
        ));
    } else {
        lemma_run_len_at_least(src, i, i + 256);
        vstd::arithmetic::div_mod::lemma_div_plus_one(k - 255 + 254, 255);
        let st1 = CompileState {
            code: st.code.push(instruction_for_byte(b, 255u8)),
            stack: st.stack,
            jumps: st.jumps,
        };
        assert(spec_compile_from(src, i, st) == spec_compile_from(src, i + 255, st1));
        lemma_run_folding(src, i + 255, st1, k - 255);
        assert(st1.code + folded_instructions(b, (k - 255) as nat) =~= st.code
            + folded_instructions(b, k as nat));
    }
}

/// Bracket matching symmetry: in a successfully compiled program, the jump
/// table pairs every loop start with the loop end that closes it and vice
/// versa — `jumps[jumps[k]] == k` — with each loop start strictly before its
/// loop end, and no bracket is left unpaired.
pub proof fn lemma_bracket_symmetry(src: Seq<u8>)
    requires
        spec_compile(src) is Ok,
    ensures
        spec_compile(src) matches Ok(st) ==> {
            &&& forall|k: int| #[trigger] st.jumps.dom().contains(k) ==> bracket_entry_ok(st, k)
            &&& forall|p: int|
                0 <= p < st.code.len() && (#[trigger] st.code[p] is Land || st.code[p] is Jump)
                    ==> st.jumps.dom().contains(p)
        },
{
    lemma_compile_invariant(src, 0, initial_compile_state());
    let st = match spec_compile(src) {
        Ok(st) => st,
        Err(_) => initial_compile_state(),
    };
    assert forall|p: int|
        0 <= p < st.code.len() && (#[trigger] st.code[p] is Land || st.code[p]
            is Jump) implies st.jumps.dom().contains(p) by {
        if st.code[p] is Land && !st.jumps.dom().contains(p) {
            assert(st.stack.contains(p));
        }
    }
}

impl Module<Instruction> {
    /// The module is the materialisation of compile state `st`: the emitted
    /// instructions fill the leading slots, `Nop` fills the rest, and the
    /// jump table holds every entry of `st.jumps`.
    pub open spec fn matches_compile_state(self, st: CompileState) -> bool {
        &&& self.code_segment@.len() == CODESIZE
        &&& self.jump_lookup@.len() == HEAPSIZE
        &&& self.code_length == st.code.len()
        &&& self.code_segment@.take(st.code.len() as int) == st.code
        &&& forall|p: int|
            st.code.len() <= p < CODESIZE ==> self.code_segment@[p] == Instruction::Nop
        &&& forall|k: int|
            st.jumps.dom().contains(k) ==> 0 <= k < HEAPSIZE && self.jump_lookup@[k] as int
                == st.jumps[k]
    }
}

/// How a module parsed from `buffer` relates to the spec-level compilation of
/// the buffer's bytes: on success the module materialises the final compile
/// state and is well formed; on failure the error is the spec-level one.
pub open spec fn parse_result_condition(
    buffer: &str,
    r: Result<Module<Instruction>, CompileError>,
) -> bool {
    match r {
        Ok(m) => spec_compile(buffer.spec_bytes()) matches Ok(st) && m.matches_compile_state(st)
            && m.wf(),
        Err(e) => spec_compile(buffer.spec_bytes()) == Err::<CompileState, CompileError>(e),
    }
}

/// The module invariant of a successful compilation, stated over the module
/// itself: every populated slot holds an operator's instruction with a count
/// in `1..=255` where it bears one, and the jump table pairs every bracket
/// slot symmetrically — `jump_lookup[jump_lookup[p]] == p`, with each loop
/// start strictly before its loop end.
pub proof fn lemma_parsed_module_invariants(buffer: &str, m: Module<Instruction>)
    requires
        parse_result_condition(buffer, Ok(m)),
    ensures
        forall|p: int| 0 <= p < m.code_length ==> emitted_ok(#[trigger] m.code_segment@[p]),
        forall|p: int|
            0 <= p < m.code_length && (#[trigger] m.code_segment@[p] is Land || m.code_segment@[p]
                is Jump) ==> {
                let j = m.jump_lookup@[p] as int;
                &&& 0 <= j < m.code_length
                &&& m.jump_lookup@[j] as int == p
                &&& (m.code_segment@[p] is Land ==> p < j && m.code_segment@[j] is Jump)
                &&& (m.code_segment@[p] is Jump ==> j < p && m.code_segment@[j] is Land)
            },
{
    let src = buffer.spec_bytes();
    let st = match spec_compile(src) {
        Ok(st) => st,
        Err(_) => initial_compile_state(),
    };
    lemma_compile_invariant(src, 0, initial_compile_state());
    lemma_bracket_symmetry(src);
    assert forall|p: int| 0 <= p < m.code_length implies emitted_ok(
        #[trigger] m.code_segment@[p],
    ) by {
        assert(m.code_segment@.take(st.code.len() as int)[p] == m.code_segment@[p]);
        assert(st.code[p] == m.code_segment@[p]);
    }
    assert forall|p: int|
        0 <= p < m.code_length && (#[trigger] m.code_segment@[p] is Land || m.code_segment@[p]
            is Jump) implies {
        let j = m.jump_lookup@[p] as int;
        &&& 0 <= j < m.code_length
        &&& m.jump_lookup@[j] as int == p
        &&& (m.code_segment@[p] is Land ==> p < j && m.code_segment@[j] is Jump)
        &&& (m.code_segment@[p] is Jump ==> j < p && m.code_segment@[j] is Land)
    } by {
        assert(m.code_segment@.take(st.code.len() as int)[p] == m.code_segment@[p]);
        assert(st.code[p] == m.code_segment@[p]);
        assert(st.jumps.dom().contains(p));
        assert(bracket_entry_ok(st, p));
        let j = st.jumps[p];
        assert(m.jump_lookup@[p] as int == j);
        assert(bracket_entry_ok(st, j));
        assert(m.jump_lookup@[j] as int == st.jumps[j]);
        assert(m.code_segment@.take(st.code.len() as int)[j] == m.code_segment@[j]);
        assert(st.code[j] == m.code_segment@[j]);
    }
}

/// A backend that turns source text into a compiled module of its target
/// instruction type. Each implementation states what its result satisfies
/// through `parse_condition`.
pub trait Parser<TargetInstructionType> {
    /// What `parse` promises of its result.
    spec fn parse_condition(buffer: &str, r: Result<
        Module<TargetInstructionType>,
        CompileError,
    >) -> bool;

    /// Compile `buffer`; a returned module is immutable thereafter.
    fn parse(buffer: &str) -> (r: Result<Module<TargetInstructionType>, CompileError>)
        ensures
            Self::parse_condition(buffer, r),
    ;
}

/// Byte-level twin of [`Instruction::get_instruction`], for the compiler
/// pass, which walks the source's bytes.
fn instruction_from_byte(b: u8, value: u8) -> (inst: Instruction)
    ensures
        inst == instruction_for_byte(b, value),
{
    if b == ('<' as u8) {
        Instruction::Backward(value)
    } else if b == ('>' as u8) {
        Instruction::Forward(value)
    } else if b == ('-' as u8) {
        Instruction::Subtract(value)
    } else if b == ('+' as u8) {
        Instruction::Add(value)
    } else if b == ('[' as u8) {
        Instruction::Land
    } else if b == (']' as u8) {
        Instruction::Jump
    } else if b == ('.' as u8) {
        Instruction::Write
    } else if b == (',' as u8) {
        Instruction::Read
    } else {
        Instruction::Nop
    }
}

/// The compile state that a compiler pass's concrete bookkeeping stands for.
spec fn parse_state(code: Seq<Instruction>, stack: Seq<usize>, jumps: Map<int, int>) -> CompileState {
    CompileState { code, stack: stack.map_values(|v: usize| v as int), jumps }
}

impl Parser<Instruction> for BfInterpreter {
    open spec fn parse_condition(buffer: &str, r: Result<Module<Instruction>, CompileError>) -> bool {
        parse_result_condition(buffer, r)
    }

    fn parse(buffer: &str) -> (r: Result<Module<Instruction>, CompileError>) {
        let bytes: &[u8] = buffer.as_bytes();
        let ghost src: Seq<u8> = bytes@;
        let mut code: Vec<Instruction> = Vec::new();
        let mut jump_lookup: Vec<usize> = vec![0usize; HEAPSIZE];
        let mut stack: Vec<usize> = Vec::new();
        let ghost mut jumps: Map<int, int> = Map::empty();
        let mut i: usize = 0;

        proof {
            assert(code@ =~= Seq::<Instruction>::empty());
            assert(stack@.map_values(|v: usize| v as int) =~= Seq::<int>::empty());
            assert(parse_state(code@, stack@, jumps) == initial_compile_state());
        }

        while i < bytes.len()
            invariant
                src == bytes@,
                src == buffer.spec_bytes(),
                i <= bytes.len(),
                code@.len() <= CODESIZE,
                jump_lookup@.len() == HEAPSIZE,
                forall|q: int| 0 <= q < stack@.len() ==> (#[trigger] stack@[q]) < code@.len(),
                forall|k: int|
                    #[trigger] jumps.dom().contains(k) ==> 0 <= k < code@.len()
                        && jump_lookup@[k] as int == jumps[k],
                spec_compile_from(src, i as int, parse_state(code@, stack@, jumps))
                    == spec_compile(src),
            decreases bytes.len() - i,
        {
            let b: u8 = *slice_index_get(bytes, i);
            let ghost pre = parse_state(code@, stack@, jumps);
            if b == ('<' as u8) || b == ('>' as u8) || b == ('-' as u8) || b == ('+' as u8) {
                if code.len() >= CODESIZE {
                    proof {
                        assert(spec_compile(src) == Err::<CompileState, CompileError>(
                            CompileError::SourceTooLarge,
                        ));
                    }
                    return Err(CompileError::SourceTooLarge);
                }
                let mut j: usize = i + 1;
                while j < bytes.len() && j - i < 255 && *slice_index_get(bytes, j) == b
                    invariant
                        src == bytes@,
                        i < j <= bytes.len(),
                        j - i <= 255,
                        i < bytes.len(),
                        b == src[i as int],
                        forall|q: int| i <= q < j ==> src[q] == src[i as int],
                    decreases bytes.len() - j,
                {
                    j = j + 1;
                }
                let count: usize = j - i;
                proof {
                    if j == bytes.len() || src[j as int] != src[i as int] {
                        lemma_run_len_exact(src, i as int, j as int);
                    } else {
                        lemma_run_len_at_least(src, i as int, j as int);
                    }
                    assert(folded_run_len(src, i as int) == count);
                }
                let inst = instruction_from_byte(b, count as u8);
                code.push(inst);
                proof {
                    let post = parse_state(code@, stack@, jumps);
                    assert(post == CompileState {
                        code: pre.code.push(
                            instruction_for_byte(src[i as int], folded_run_len(src, i as int) as u8),
                        ),
                        stack: pre.stack,
                        jumps: pre.jumps,
                    });
                    assert(spec_compile_from(src, i as int, pre) == spec_compile_from(
                        src,
                        j as int,
                        post,
                    ));
                }
                i = j;
            } else if b == ('[' as u8) {
                if code.len() >= CODESIZE || stack.len() >= STACKSIZE {
                    proof {
                        assert(spec_compile(src) == Err::<CompileState, CompileError>(
                            CompileError::SourceTooLarge,
                        ));
                    }
                    return Err(CompileError::SourceTooLarge);
                }
                stack.push(code.len());
                code.push(Instruction::Land);
                proof {
                    let post = parse_state(code@, stack@, jumps);
                    assert(post.stack =~= pre.stack.push(pre.code.len() as int));
                    assert(post == CompileState {
                        code: pre.code.push(Instruction::Land),
                        stack: pre.stack.push(pre.code.len() as int),
                        jumps: pre.jumps,
                    });
                    assert(spec_compile_from(src, i as int, pre) == spec_compile_from(
                        src,
                        i as int + 1,
                        post,
                    ));
                }
                i = i + 1;
            } else if b == (']' as u8) {
                if stack.len() == 0 {
                    proof {
                        assert(spec_compile(src) == Err::<CompileState, CompileError>(
                            CompileError::UnmatchedCloseBracket,
                        ));
                    }
                    return Err(CompileError::UnmatchedCloseBracket);
                }
                if code.len() >= CODESIZE {
                    proof {
                        assert(spec_compile(src) == Err::<CompileState, CompileError>(
                            CompileError::SourceTooLarge,
                        ));
                    }
                    return Err(CompileError::SourceTooLarge);
                }
                let open: usize = stack.pop().unwrap();
                let close: usize = code.len();
                jump_lookup.set(open, close);
                jump_lookup.set(close, open);
                code.push(Instruction::Jump);
                proof {
                    jumps = jumps.insert(open as int, close as int).insert(
                        close as int,
                        open as int,
                    );
                    let post = parse_state(code@, stack@, jumps);
                    assert(pre.stack.last() == open as int);
                    assert(post.stack =~= pre.stack.drop_last());
                    assert(post == CompileState {
                        code: pre.code.push(Instruction::Jump),
                        stack: pre.stack.drop_last(),
                        jumps: pre.jumps.insert(pre.stack.last(), pre.code.len() as int).insert(
                            pre.code.len() as int,
                            pre.stack.last(),
                        ),
                    });
                    assert(spec_compile_from(src, i as int, pre) == spec_compile_from(
                        src,
                        i as int + 1,
                        post,
                    ));
                    assert forall|k: int| #[trigger] jumps.dom().contains(k) implies 0 <= k
                        < code@.len() && jump_lookup@[k] as int == jumps[k] by {
                        if k != open as int && k != close as int {
                            assert(pre.jumps.dom().contains(k));
                        }
                    }
                }
                i = i + 1;
            } else if b == ('.' as u8) || b == (',' as u8) {
                if code.len() >= CODESIZE {
                    proof {
                        assert(spec_compile(src) == Err::<CompileState, CompileError>(
                            CompileError::SourceTooLarge,
                        ));
                    }
                    return Err(CompileError::SourceTooLarge);
                }
                let inst = instruction_from_byte(b, 1u8);
                code.push(inst);
                proof {
                    let post = parse_state(code@, stack@, jumps);
                    assert(post == CompileState {
                        code: pre.code.push(instruction_for_byte(src[i as int], 1u8)),
                        stack: pre.stack,
                        jumps: pre.jumps,
                    });
                    assert(spec_compile_from(src, i as int, pre) == spec_compile_from(
                        src,
                        i as int + 1,
                        post,
                    ));
                }
                i = i + 1;
            } else {
                proof {
                    assert(!is_operator_byte(src[i as int]));
                    assert(spec_compile_from(src, i as int, pre) == spec_compile_from(
                        src,
                        i as int + 1,
                        pre,
                    ));
                }
                i = i + 1;
            }
        }

        if stack.len() > 0 {
            proof {
                assert(spec_compile(src) == Err::<CompileState, CompileError>(
                    CompileError::UnmatchedOpenBracket,
                ));
            }
            return Err(CompileError::UnmatchedOpenBracket);
        }

        let ghost st_final = parse_state(code@, stack@, jumps);
        proof {
            assert(spec_compile(src) == Ok::<CompileState, CompileError>(st_final));
            lemma_compile_invariant(src, 0, initial_compile_state());
            assert(compile_state_invariant(st_final));
        }

        let code_length: usize = code.len();
        while code.len() < CODESIZE
            invariant
                code_length as int == st_final.code.len(),
                code_length as int <= code@.len() <= CODESIZE,
                code@.take(code_length as int) == st_final.code,
                forall|p: int|
                    code_length <= p < code@.len() ==> code@[p] == Instruction::Nop,
            decreases CODESIZE - code.len(),
        {
            let ghost before = code@;
            code.push(Instruction::Nop);
            proof {
                assert(code@.take(code_length as int) =~= before.take(code_length as int));
            }
        }

        let m = Module { code_segment: code, code_length, jump_lookup };
        proof {
            assert(m.code_segment@.take(st_final.code.len() as int) == st_final.code);
            assert(m.matches_compile_state(st_final));
            assert forall|p: int|
                0 <= p < m.code_length && (m.code_segment@[p] is Land || m.code_segment@[p]
                    is Jump) implies m.jump_lookup@[p] < m.code_length by {
                assert(m.code_segment@.take(st_final.code.len() as int)[p] == m.code_segment@[p]);
                assert(st_final.code[p] == m.code_segment@[p]);
                assert(st_final.jumps.dom().contains(p));
                assert(bracket_entry_ok(st_final, p));
            }
            assert(m.wf());
        }
        Ok(m)
    }
}

} // verus!
