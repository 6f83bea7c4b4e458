//! Semantic equivalence of the peephole optimization: on programs without
//! loop brackets, running the run-length-folded opcode sequence leaves the
//! same tape, data pointer, remaining input and output as running the
//! original sequence, and fails with the same error when either fails.

use vstd::prelude::*;
use crate::compiler::counted;
use crate::compiler::emit_pass;
use crate::compiler::fold;
use crate::compiler::fold_from;
use crate::compiler::same_run;
use crate::instruction::Instruction;
use crate::instruction::is_bracket;
use crate::instruction::is_counted;
use crate::instruction::is_foldable;
use crate::instruction::is_passthrough;
use crate::interpreter::MachineState;
use crate::interpreter::RunResult;
use crate::interpreter::StepResult;
use crate::interpreter::machine_step;
use crate::interpreter::op_step;
use crate::interpreter::run_n;

verus! {

/// No loop brackets anywhere: control flow is one left-to-right pass.
pub open spec fn straight_line(s: Seq<Instruction>) -> bool {
    forall|i: int| 0 <= i < s.len() ==> !is_bracket(#[trigger] s[i])
}

/// Machine states that agree on everything observable of a finished run:
/// data pointer, tape, remaining input and output.  The instruction
/// pointer is exactly where two differently-folded programs may differ.
pub open spec fn same_obs_state(a: MachineState, b: MachineState) -> bool {
    &&& a.dp == b.dp
    &&& a.tape == b.tape
    &&& a.input == b.input
    &&& a.output == b.output
}

/// Step results that agree observably: equal next states up to the
/// instruction pointer, or the same error.
pub open spec fn same_obs(a: StepResult, b: StepResult) -> bool {
    match (a, b) {
        (StepResult::Next(x), StepResult::Next(y)) => same_obs_state(x, y),
        (StepResult::Fail(e1), StepResult::Fail(e2)) => e1 == e2,
        _ => false,
    }
}

/// The denotation of a bracket-free opcode sequence: apply each opcode in
/// order, stopping at the first failure.
pub open spec fn exec_seq(s: Seq<Instruction>, st: MachineState) -> StepResult
    decreases s.len(),
{
    if s.len() == 0 {
        StepResult::Next(st)
    } else {
        match op_step(s[0], st) {
            StepResult::Next(st2) => exec_seq(s.drop_first(), st2),
            StepResult::Fail(e) => StepResult::Fail(e),
        }
    }
}

/// `n` copies of one opcode: the run that a counted opcode stands for.
pub open spec fn repeat_op(op: Instruction, n: nat) -> Seq<Instruction> {
    Seq::new(n, |i: int| op)
}

/// Executing a concatenation executes the two halves in order.
proof fn lemma_exec_seq_concat(a: Seq<Instruction>, b: Seq<Instruction>, st: MachineState)
    ensures
        exec_seq(a + b, st) == (match exec_seq(a, st) {
            StepResult::Next(m) => exec_seq(b, m),
            fail => fail,
        }),
    decreases a.len(),
{
    if a.len() == 0 {
        assert(a + b =~= b);
    } else {
        assert((a + b)[0] == a[0]);
        assert((a + b).drop_first() =~= a.drop_first() + b);
        match op_step(a[0], st) {
            StepResult::Next(st2) => {
                lemma_exec_seq_concat(a.drop_first(), b, st2);
            },
            _ => {},
        }
    }
}

/// One opcode treats observably equal states alike: the instruction
/// pointer never influences an opcode's effect on tape, pointer or bytes.
proof fn lemma_op_step_obs(op: Instruction, st1: MachineState, st2: MachineState)
    requires
        same_obs_state(st1, st2),
    ensures
        same_obs(op_step(op, st1), op_step(op, st2)),
{
}

/// A whole bracket-free sequence treats observably equal states alike.
proof fn lemma_exec_seq_obs(s: Seq<Instruction>, st1: MachineState, st2: MachineState)
    requires
        same_obs_state(st1, st2),
    ensures
        same_obs(exec_seq(s, st1), exec_seq(s, st2)),
    decreases s.len(),
{
    if s.len() > 0 {
        lemma_op_step_obs(s[0], st1, st2);
        match (op_step(s[0], st1), op_step(s[0], st2)) {
            (StepResult::Next(a), StepResult::Next(b)) => {
                lemma_exec_seq_obs(s.drop_first(), a, b);
            },
            _ => {},
        }
    }
}

/// A successful opcode keeps the data pointer on or just past the tape and
/// never changes the tape's length.
proof fn lemma_op_step_keeps_bounds(op: Instruction, st: MachineState)
    requires
        0 <= st.dp <= st.tape.len(),
    ensures
        op_step(op, st) matches StepResult::Next(m) ==> 0 <= m.dp <= m.tape.len()
            && m.tape.len() == st.tape.len(),
{
}

/// A counted opcode has exactly the observable effect of the run of
/// primitive opcodes it stands for, including failing with the same error
/// whenever the run would fail.
proof fn lemma_run_collapse(op: Instruction, n: usize, st: MachineState)
    requires
        is_foldable(op),
        n >= 1,
        0 <= st.dp <= st.tape.len(),
    ensures
        same_obs(exec_seq(repeat_op(op, n as nat), st), op_step(counted(op, n), st)),
    decreases n,
{
    let r = repeat_op(op, n as nat);
    assert(r[0] == op);
    assert(r.drop_first() =~= repeat_op(op, (n - 1) as nat));
    if n == 1 {
        assert(repeat_op(op, 0nat) =~= Seq::<Instruction>::empty());
        match op_step(op, st) {
            StepResult::Next(m) => {
                assert(exec_seq(r.drop_first(), m) == StepResult::Next(m));
                assert(exec_seq(r, st) == StepResult::Next(m));
            },
            StepResult::Fail(e) => {
                assert(exec_seq(r, st) == StepResult::Fail(e));
            },
        }
    } else {
        match op_step(op, st) {
            StepResult::Next(m) => {
                lemma_op_step_keeps_bounds(op, st);
                lemma_run_collapse(op, (n - 1) as usize, m);
                assert(exec_seq(r, st) == exec_seq(repeat_op(op, (n - 1) as nat), m));
                match op {
                    Instruction::IncrementDataPtr => {
                        assert(m.dp == st.dp + 1);
                    },
                    Instruction::DecrementDataPtr => {
                        assert(m.dp == st.dp - 1);
                    },
                    Instruction::IncrementByte => {
                        let b = st.tape[st.dp];
                        let b1 = crate::interpreter::wrap_add(b, 1);
                        assert(m.tape =~= st.tape.update(st.dp, b1));
                        vstd::arithmetic::div_mod::lemma_add_mod_noop(b + 1, n - 1, 256);
                        vstd::arithmetic::div_mod::lemma_add_mod_noop_right(
                            (b + 1) % 256,
                            n - 1,
                            256,
                        );
                        assert(crate::interpreter::wrap_add(b1, n - 1) == crate::interpreter::wrap_add(
                            b,
                            n as int,
                        ));
                        assert(m.tape.update(st.dp, crate::interpreter::wrap_add(b1, n - 1))
                            =~= st.tape.update(st.dp, crate::interpreter::wrap_add(b, n as int)));
                    },
                    Instruction::DecrementByte => {
                        let b = st.tape[st.dp];
                        let b1 = crate::interpreter::wrap_sub(b, 1);
                        assert(m.tape =~= st.tape.update(st.dp, b1));
                        vstd::arithmetic::div_mod::lemma_sub_mod_noop(b - 1, n - 1, 256);
                        vstd::arithmetic::div_mod::lemma_sub_mod_noop_right(
                            (b - 1) % 256,
                            n - 1,
                            256,
                        );
                        assert(crate::interpreter::wrap_sub(b1, n - 1) == crate::interpreter::wrap_sub(
                            b,
                            n as int,
                        ));
                        assert(m.tape.update(st.dp, crate::interpreter::wrap_sub(b1, n - 1))
                            =~= st.tape.update(st.dp, crate::interpreter::wrap_sub(b, n as int)));
                    },
                    _ => {},
                }
            },
            StepResult::Fail(e) => {
                assert(exec_seq(r, st) == StepResult::Fail(e));
            },
        }
    }
}

/// A token sequence as the tokenizer emits it: no counted opcodes yet.
pub open spec fn unfolded(s: Seq<Instruction>) -> bool {
    forall|i: int| 0 <= i < s.len() ==> !is_counted(#[trigger] s[i])
}

/// The folder's scan preserves observable behaviour.  With a pending run
/// of `ctr` copies of the foldable opcode `cur`, the folded remainder
/// behaves like that run followed by the remaining opcodes; with no
/// pending run, like the remaining opcodes alone.
#[verifier::rlimit(100)]
#[verifier::spinoff_prover]
proof fn lemma_fold_from_exec(rest: Seq<Instruction>, cur: Instruction, ctr: usize, st: MachineState)
    requires
        0 <= st.dp <= st.tape.len(),
        unfolded(rest),
        rest.len() > 0 ==> !is_foldable(rest.last()),
        is_foldable(cur) ==> rest.len() > 0 && (ctr >= 1 || same_run(cur, rest[0])),
        ctr + rest.len() <= usize::MAX,
    ensures
        is_foldable(cur) ==> same_obs(
            exec_seq(fold_from(rest, cur, ctr), st),
            exec_seq(repeat_op(cur, ctr as nat) + rest, st),
        ),
        !is_foldable(cur) ==> same_obs(exec_seq(fold_from(rest, cur, ctr), st), exec_seq(rest, st)),
    decreases 2 * rest.len(),
{
    if rest.len() == 0 {
        assert(fold_from(rest, cur, ctr) =~= Seq::<Instruction>::empty());
    } else {
        let inst = rest[0];
        let tail = rest.drop_first();
        assert(tail.len() > 0 ==> tail.last() == rest.last());
        assert(seq![inst] + tail =~= rest);
        if is_foldable(cur) && same_run(cur, inst) {
            assert(inst == cur);
            assert(tail.len() > 0);
            lemma_fold_from_exec(tail, cur, ((ctr + 1) as usize), st);
            assert(repeat_op(cur, ctr as nat) + rest =~= repeat_op(cur, (ctr + 1) as nat) + tail);
            assert(fold_from(rest, cur, ctr) == fold_from(tail, cur, ((ctr + 1) as usize)));
            assert(((ctr + 1) as usize) as nat == ctr as nat + 1);
            assert(same_obs(
                exec_seq(fold_from(rest, cur, ctr), st),
                exec_seq(repeat_op(cur, ctr as nat) + rest, st),
            ));
        } else if is_foldable(cur) {
            let head = seq![counted(cur, ctr)];
            let emitted = emit_pass(inst);
            let folded_tail = fold_from(tail, inst, 1);
            assert(fold_from(rest, cur, ctr) =~= head + (emitted + folded_tail));
            assert(head.drop_first() =~= Seq::<Instruction>::empty());
            lemma_exec_seq_concat(head, emitted + folded_tail, st);
            lemma_exec_seq_concat(repeat_op(cur, ctr as nat), rest, st);
            lemma_run_collapse(cur, ctr, st);
            lemma_op_step_keeps_bounds(counted(cur, ctr), st);
            match (op_step(counted(cur, ctr), st), exec_seq(repeat_op(cur, ctr as nat), st)) {
                (StepResult::Next(m), StepResult::Next(m2)) => {
                    assert(is_foldable(inst) ==> tail.len() > 0);
                    lemma_emit_exec(inst, tail, m, m2);
                    assert(exec_seq(rest, m2) == exec_seq(seq![inst] + tail, m2));
                    assert(head[0] == counted(cur, ctr));
                    assert(exec_seq(head.drop_first(), m) == StepResult::Next(m));
                    assert(exec_seq(head, st) == StepResult::Next(m));
                    assert(exec_seq(fold_from(rest, cur, ctr), st) == exec_seq(
                        emit_pass(inst) + fold_from(tail, inst, 1),
                        m,
                    ));
                    assert(exec_seq(repeat_op(cur, ctr as nat) + rest, st) == exec_seq(rest, m2));
                    assert(same_obs(
                        exec_seq(fold_from(rest, cur, ctr), st),
                        exec_seq(repeat_op(cur, ctr as nat) + rest, st),
                    ));
                },
                (StepResult::Fail(e), StepResult::Fail(e2)) => {
                    assert(e == e2);
                    assert(exec_seq(fold_from(rest, cur, ctr), st) == StepResult::Fail(e));
                    assert(exec_seq(repeat_op(cur, ctr as nat) + rest, st) == StepResult::Fail(
                        e2,
                    ));
                },
                _ => {
                    assert(false);
                },
            }
        } else {
            assert(fold_from(rest, cur, ctr) == emit_pass(inst) + fold_from(tail, inst, 1));
            assert(is_foldable(inst) ==> tail.len() > 0);
            lemma_emit_exec(inst, tail, st, st);
            assert(exec_seq(rest, st) == exec_seq(seq![inst] + tail, st));
        }
    }
}

/// One incoming opcode, as the folder treats it: passed through, dropped
/// as a no-op, or started as a new pending run of length one.
#[verifier::rlimit(100)]
#[verifier::spinoff_prover]
proof fn lemma_emit_exec(inst: Instruction, tail: Seq<Instruction>, m: MachineState, m2: MachineState)
    requires
        same_obs_state(m, m2),
        0 <= m.dp <= m.tape.len(),
        !is_counted(inst),
        unfolded(tail),
        tail.len() > 0 ==> !is_foldable(tail.last()),
        is_foldable(inst) ==> tail.len() > 0,
        1 + tail.len() <= usize::MAX,
    ensures
        same_obs(
            exec_seq(emit_pass(inst) + fold_from(tail, inst, 1), m),
            exec_seq(seq![inst] + tail, m2),
        ),
    decreases 2 * tail.len() + 1,
{
    let folded_tail = fold_from(tail, inst, 1);
    assert((seq![inst] + tail)[0] == inst);
    assert((seq![inst] + tail).drop_first() =~= tail);
    lemma_op_step_obs(inst, m, m2);
    lemma_op_step_keeps_bounds(inst, m);
    if is_passthrough(inst) {
        assert(emit_pass(inst) =~= seq![inst]);
        assert(emit_pass(inst) + folded_tail =~= seq![inst] + folded_tail);
        lemma_exec_seq_concat(seq![inst], folded_tail, m);
        assert(seq![inst].drop_first() =~= Seq::<Instruction>::empty());
        match (op_step(inst, m), op_step(inst, m2)) {
            (StepResult::Next(k), StepResult::Next(k2)) => {
                lemma_fold_from_exec(tail, inst, 1, k);
                lemma_exec_seq_obs(tail, k, k2);
            },
            _ => {},
        }
    } else if is_foldable(inst) {
        assert(emit_pass(inst) + folded_tail =~= folded_tail);
        lemma_fold_from_exec(tail, inst, 1, m);
        assert(repeat_op(inst, 1nat) + tail =~= seq![inst] + tail);
        lemma_exec_seq_obs(seq![inst] + tail, m, m2);
    } else {
        assert(inst is NOP);
        assert(emit_pass(inst) + folded_tail =~= folded_tail);
        lemma_fold_from_exec(tail, inst, 1, m);
        match op_step(inst, m2) {
            StepResult::Next(k2) => {
                assert(same_obs_state(m, k2));
                lemma_exec_seq_obs(tail, m, k2);
            },
            _ => {},
        }
    }
}

/// The folder never makes a bracket out of anything else.
proof fn lemma_fold_from_straight(rest: Seq<Instruction>, cur: Instruction, ctr: usize)
    requires
        straight_line(rest),
    ensures
        straight_line(fold_from(rest, cur, ctr)),
    decreases rest.len(),
{
    if rest.len() > 0 {
        let inst = rest[0];
        let tail = rest.drop_first();
        assert(straight_line(tail)) by {
            assert(forall|i: int| 0 <= i < tail.len() ==> tail[i] == rest[i + 1]);
        }
        if is_foldable(cur) && same_run(cur, inst) {
            lemma_fold_from_straight(tail, cur, ((ctr + 1) as usize));
        } else if is_foldable(cur) {
            lemma_fold_from_straight(tail, inst, 1);
            assert(!is_bracket(counted(cur, ctr)));
            assert(straight_line(fold_from(rest, cur, ctr))) by {
                assert(forall|i: int|
                    0 <= i < fold_from(rest, cur, ctr).len() ==> !is_bracket(
                        #[trigger] fold_from(rest, cur, ctr)[i],
                    ));
            }
        } else {
            lemma_fold_from_straight(tail, inst, 1);
            assert(straight_line(fold_from(rest, cur, ctr))) by {
                assert(forall|i: int|
                    0 <= i < fold_from(rest, cur, ctr).len() ==> !is_bracket(
                        #[trigger] fold_from(rest, cur, ctr)[i],
                    ));
            }
        }
    }
}

/// Run-length folding keeps a bracket-free program bracket-free.
pub proof fn lemma_fold_straight(s: Seq<Instruction>)
    requires
        straight_line(s),
    ensures
        straight_line(fold(s)),
{
    let padded = s.push(Instruction::NOP);
    assert(straight_line(padded)) by {
        assert(forall|i: int| 0 <= i < s.len() ==> padded[i] == s[i]);
    }
    lemma_fold_from_straight(padded, padded[0], 0);
}

/// On a bracket-free program, a bounded run with enough budget is the
/// denotation of the opcodes from the instruction pointer onward: it halts
/// in the denoted state, or fails with the denoted error.
pub proof fn lemma_run_matches_exec(prog: Seq<Instruction>, st: MachineState, n: nat)
    requires
        straight_line(prog),
        0 <= st.ip <= prog.len(),
        n >= prog.len() - st.ip + 1,
    ensures
        match exec_seq(prog.skip(st.ip), st) {
            StepResult::Next(m) => run_n(prog, st, n) == RunResult::Halted(m),
            StepResult::Fail(e) => run_n(prog, st, n) matches RunResult::Failed(e2, _) && e2 == e,
        },
    decreases prog.len() - st.ip,
{
    let rest = prog.skip(st.ip);
    if st.ip == prog.len() {
        assert(rest =~= Seq::<Instruction>::empty());
        assert(machine_step(prog, st) is None);
    } else {
        let op = prog[st.ip];
        assert(rest[0] == op);
        assert(rest.drop_first() =~= prog.skip(st.ip + 1));
        assert(!is_bracket(op));
        match op_step(op, st) {
            StepResult::Next(m) => {
                assert(m.ip == st.ip + 1);
                lemma_run_matches_exec(prog, m, (n - 1) as nat);
                assert(run_n(prog, st, n) == run_n(prog, m, (n - 1) as nat));
            },
            StepResult::Fail(e) => {
                assert(run_n(prog, st, n) == RunResult::Failed(e, st));
            },
        }
    }
}

/// The peephole optimization is semantically transparent, stated here for
/// programs without loop brackets: from the same initial state, running
/// the token sequence and running its run-length folding either both halt
/// with the same tape, data pointer, remaining input and output, or both
/// fail with the same error — whichever budgets suffice to finish each.
pub proof fn lemma_optimize_preserves_behaviour(
    s: Seq<Instruction>,
    st: MachineState,
    n1: nat,
    n2: nat,
)
    requires
        straight_line(s),
        unfolded(s),
        st.ip == 0,
        0 <= st.dp <= st.tape.len(),
        s.len() < usize::MAX,
        n1 > s.len(),
        n2 > fold(s).len(),
    ensures
        match (run_n(s, st, n1), run_n(fold(s), st, n2)) {
            (RunResult::Halted(a), RunResult::Halted(b)) => same_obs_state(a, b),
            (RunResult::Failed(e1, _), RunResult::Failed(e2, _)) => e1 == e2,
            _ => false,
        },
{
    let nop = Instruction::NOP;
    let padded = s.push(nop);
    assert(straight_line(padded) && unfolded(padded)) by {
        assert(forall|i: int| 0 <= i < s.len() ==> padded[i] == s[i]);
        assert(padded[s.len() as int] == nop);
    }
    assert(padded.last() == nop);
    assert(is_foldable(padded[0]) ==> same_run(padded[0], padded[0]));
    lemma_fold_from_exec(padded, padded[0], 0, st);
    if is_foldable(padded[0]) {
        assert(repeat_op(padded[0], 0nat) + padded =~= padded);
    }
    // in both cases the folded program denotes what the padded one does
    assert(same_obs(exec_seq(fold(s), st), exec_seq(padded, st)));
    // and the padded program denotes what the original does, observably
    assert(padded =~= s + seq![nop]);
    lemma_exec_seq_concat(s, seq![nop], st);
    lemma_fold_straight(s);
    assert(s.skip(0) =~= s);
    assert(fold(s).skip(0) =~= fold(s));
    lemma_run_matches_exec(s, st, n1);
    lemma_run_matches_exec(fold(s), st, n2);
    match exec_seq(s, st) {
        StepResult::Next(m) => {
            assert((seq![nop])[0] == nop);
            assert((seq![nop]).drop_first() =~= Seq::<Instruction>::empty());
            match op_step(nop, m) {
                StepResult::Next(m1) => {
                    assert(exec_seq((seq![nop]).drop_first(), m1) == StepResult::Next(m1));
                    assert(exec_seq(seq![nop], m) == StepResult::Next(m1));
                    assert(same_obs_state(m1, m));
                    assert(exec_seq(padded, st) == StepResult::Next(m1));
                },
                _ => {
                    assert(false);
                },
            }
        },
        StepResult::Fail(e) => {
            assert(exec_seq(padded, st) == StepResult::Fail(e));
        },
    }
}

/// On a bracket-free token sequence the jump resolver has nothing to
/// rewrite, so a resolved program of the same shape is the sequence itself.
proof fn lemma_same_shape_straight_equal(r: Seq<Instruction>, s: Seq<Instruction>)
    requires
        crate::compiler::same_shape(r, s),
        straight_line(s),
    ensures
        r == s,
{
    assert(r =~= s);
}

/// The corollary for the pipeline's own outputs: for a source whose token
/// sequence has no loop brackets, the bytecode that the unoptimizing
/// compilation produces and the bytecode that the optimizing compilation
/// produces run to the same tape, data pointer, remaining input and
/// output, or fail with the same error.  `raw` and `opt` are the two
/// compiled programs, pinned by the compile contracts.
pub proof fn lemma_compiled_runs_agree(
    toks: Seq<Instruction>,
    raw: Seq<Instruction>,
    opt: Seq<Instruction>,
    st: MachineState,
    n1: nat,
    n2: nat,
)
    requires
        straight_line(toks),
        unfolded(toks),
        crate::compiler::same_shape(raw, toks),
        crate::compiler::same_shape(opt, fold(toks)),
        st.ip == 0,
        0 <= st.dp <= st.tape.len(),
        toks.len() < usize::MAX,
        n1 > raw.len(),
        n2 > opt.len(),
    ensures
        match (run_n(raw, st, n1), run_n(opt, st, n2)) {
            (RunResult::Halted(a), RunResult::Halted(b)) => same_obs_state(a, b),
            (RunResult::Failed(e1, _), RunResult::Failed(e2, _)) => e1 == e2,
            _ => false,
        },
{
    lemma_fold_straight(toks);
    lemma_same_shape_straight_equal(raw, toks);
    lemma_same_shape_straight_equal(opt, fold(toks));
    lemma_optimize_preserves_behaviour(toks, st, n1, n2);
}

} // verus!
