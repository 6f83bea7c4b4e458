//! Laws of the compilation pipeline: run-length folding neither creates nor
//! destroys bracket balance, and source normalization is idempotent.

use vstd::prelude::*;
use crate::instruction::Instruction;
use crate::instruction::is_counted;
use crate::instruction::is_foldable;
use crate::instruction::is_passthrough;
use crate::compiler::balanced;
use crate::compiler::bracket_delta;
use crate::compiler::counted;
use crate::compiler::emit_pass;
use crate::compiler::fold;
use crate::compiler::fold_from;
use crate::compiler::is_whitespace_char;
use crate::compiler::net_depth;
use crate::compiler::normalize;
use crate::compiler::normalize_from;
use crate::compiler::same_run;

verus! {

/// Bracket balance, phrased as a single left-to-right scan: `d` is the
/// nesting depth in front of the remaining opcodes, it never goes negative,
/// and it returns to zero at the end.
pub open spec fn depth_ok(s: Seq<Instruction>, d: int) -> bool
    decreases s.len(),
{
    &&& d >= 0
    &&& if s.len() == 0 {
        d == 0
    } else {
        depth_ok(s.drop_first(), d + bracket_delta(s[0]))
    }
}

/// Dropping the first opcode shifts the nesting depth by its delta.
proof fn lemma_net_depth_drop_first(s: Seq<Instruction>, k: int)
    requires
        1 <= k <= s.len(),
    ensures
        net_depth(s, k) == bracket_delta(s[0]) + net_depth(s.drop_first(), k - 1),
    decreases k,
{
    if k > 1 {
        lemma_net_depth_drop_first(s, k - 1);
        assert(s[k - 1] == s.drop_first()[k - 2]);
    } else {
        assert(net_depth(s, 0) == 0);
        assert(net_depth(s.drop_first(), 0) == 0);
        assert(net_depth(s, 1) == net_depth(s, 0) + bracket_delta(s[0]));
    }
}

/// Sequences that agree up to position `k` have the same nesting depth there.
proof fn lemma_net_depth_agree(s1: Seq<Instruction>, s2: Seq<Instruction>, k: int)
    requires
        k <= s1.len(),
        k <= s2.len(),
        forall|i: int| 0 <= i < k ==> s1[i] == s2[i],
    ensures
        net_depth(s1, k) == net_depth(s2, k),
    decreases k,
{
    if k > 0 {
        lemma_net_depth_agree(s1, s2, k - 1);
    }
}

/// The scan-based and the prefix-based readings of balance coincide,
/// relative to a starting depth `d`.
proof fn lemma_depth_ok_iff(s: Seq<Instruction>, d: int)
    ensures
        depth_ok(s, d) <==> ((forall|k: int| 0 <= k <= s.len() ==> d + net_depth(s, k) >= 0) && d
            + net_depth(s, s.len() as int) == 0),
    decreases s.len(),
{
    if s.len() == 0 {
    } else {
        let rest = s.drop_first();
        let d2 = d + bracket_delta(s[0]);
        lemma_depth_ok_iff(rest, d2);
        assert forall|k: int| 1 <= k <= s.len() implies net_depth(s, k) == bracket_delta(s[0])
            + net_depth(rest, k - 1) by {
            lemma_net_depth_drop_first(s, k);
        }
        if depth_ok(s, d) {
            assert forall|k: int| 0 <= k <= s.len() implies d + net_depth(s, k) >= 0 by {
                if k >= 1 {
                    assert(d2 + net_depth(rest, k - 1) >= 0);
                }
            }
            assert(d + net_depth(s, s.len() as int) == d2 + net_depth(
                rest,
                rest.len() as int,
            ));
        }
        if (forall|k: int| 0 <= k <= s.len() ==> d + net_depth(s, k) >= 0) && d + net_depth(
            s,
            s.len() as int,
        ) == 0 {
            assert forall|k: int| 0 <= k <= rest.len() implies d2 + net_depth(rest, k) >= 0 by {
                assert(d + net_depth(s, k + 1) >= 0);
            }
            assert(d2 + net_depth(rest, rest.len() as int) == d + net_depth(
                s,
                s.len() as int,
            ));
            assert(d >= 0) by {
                assert(d + net_depth(s, 0) >= 0);
            }
            assert(depth_ok(rest, d2));
        }
    }
}

/// Balance as a scan from depth zero is balance as usually stated.
proof fn lemma_balanced_iff_depth_ok(s: Seq<Instruction>)
    ensures
        balanced(s) <==> depth_ok(s, 0),
{
    lemma_depth_ok_iff(s, 0);
}

/// One step of the folder preserves the balance scan: a counted opcode has
/// the same (zero) bracket delta as the foldable run it stands for, and
/// everything else is either dropped with delta zero or passed through.
proof fn lemma_fold_from_depth_ok(rest: Seq<Instruction>, cur: Instruction, ctr: usize, d: int)
    ensures
        depth_ok(fold_from(rest, cur, ctr), d) <==> depth_ok(rest, d),
    decreases rest.len(),
{
    if rest.len() == 0 {
    } else {
        let inst = rest[0];
        let tail = rest.drop_first();
        let d2 = d + bracket_delta(inst);
        if is_foldable(cur) && same_run(cur, inst) {
            lemma_fold_from_depth_ok(tail, cur, #[verifier::truncate] ((ctr + 1) as usize), d);
            assert(bracket_delta(inst) == 0);
            assert(depth_ok(rest, d) <==> (d >= 0 && depth_ok(tail, d)));
        } else {
            lemma_fold_from_depth_ok(tail, inst, 1, d2);
            let folded_tail = fold_from(tail, inst, 1);
            // walk the balance scan through what the folder emits for this step
            let emitted = if is_passthrough(inst) {
                assert(emit_pass(inst) + folded_tail =~= seq![inst] + folded_tail);
                assert((seq![inst] + folded_tail)[0] == inst);
                assert((seq![inst] + folded_tail).drop_first() =~= folded_tail);
                assert(depth_ok(emit_pass(inst) + folded_tail, d) <==> (d >= 0 && depth_ok(
                    folded_tail,
                    d2,
                )));
                emit_pass(inst) + folded_tail
            } else {
                assert(bracket_delta(inst) == 0);
                assert(emit_pass(inst) + folded_tail =~= folded_tail);
                assert(depth_ok(emit_pass(inst) + folded_tail, d) <==> depth_ok(folded_tail, d2));
                emit_pass(inst) + folded_tail
            };
            if is_foldable(cur) {
                let whole = seq![counted(cur, ctr)] + emitted;
                assert(fold_from(rest, cur, ctr) =~= whole);
                assert(bracket_delta(counted(cur, ctr)) == 0);
                assert(whole[0] == counted(cur, ctr));
                assert(whole.drop_first() =~= emitted);
                assert(depth_ok(whole, d) <==> (d >= 0 && depth_ok(emitted, d)));
            } else {
                assert(fold_from(rest, cur, ctr) =~= emitted);
            }
            assert(depth_ok(rest, d) <==> (d >= 0 && depth_ok(tail, d2)));
            assert(depth_ok(folded_tail, d2) ==> d2 >= 0);
            assert(depth_ok(tail, d2) ==> d2 >= 0);
        }
    }
}

/// Run-length folding preserves bracket balance, in both directions:
/// the folded token sequence is balanced exactly when the original one is.
/// Together with the compile contract, this says that compilation succeeds
/// on every source with balanced brackets and fails on every other.
pub proof fn lemma_fold_preserves_balanced(s: Seq<Instruction>)
    ensures
        balanced(fold(s)) <==> balanced(s),
{
    let padded = s.push(Instruction::NOP);
    lemma_balanced_iff_depth_ok(fold(s));
    lemma_balanced_iff_depth_ok(padded);
    lemma_balanced_iff_depth_ok(s);
    lemma_fold_from_depth_ok(padded, padded[0], 0, 0);
    lemma_depth_ok_iff(padded, 0);
    lemma_depth_ok_iff(s, 0);
    assert forall|k: int| 0 <= k <= s.len() implies net_depth(padded, k) == net_depth(s, k) by {
        lemma_net_depth_agree(padded, s, k);
    }
    assert(net_depth(padded, padded.len() as int) == net_depth(padded, s.len() as int)
        + bracket_delta(Instruction::NOP));
}

/// Everything the folder's scan emits is a counted opcode or a passthrough
/// opcode: no primitive move or arithmetic opcode and no no-op survives.
proof fn lemma_fold_from_emits_folded(rest: Seq<Instruction>, cur: Instruction, ctr: usize)
    ensures
        forall|i: int|
            0 <= i < fold_from(rest, cur, ctr).len() ==> is_counted(
                #[trigger] fold_from(rest, cur, ctr)[i],
            ) || is_passthrough(fold_from(rest, cur, ctr)[i]),
    decreases rest.len(),
{
    if rest.len() > 0 {
        let inst = rest[0];
        let tail = rest.drop_first();
        if is_foldable(cur) && same_run(cur, inst) {
            lemma_fold_from_emits_folded(tail, cur, #[verifier::truncate] ((ctr + 1) as usize));
            assert(fold_from(rest, cur, ctr) == fold_from(
                tail,
                cur,
                #[verifier::truncate] ((ctr + 1) as usize),
            ));
        } else {
            lemma_fold_from_emits_folded(tail, inst, 1);
            let out = fold_from(rest, cur, ctr);
            let folded_tail = fold_from(tail, inst, 1);
            if is_foldable(cur) {
                assert(out =~= seq![counted(cur, ctr)] + emit_pass(inst) + folded_tail);
                assert(is_counted(counted(cur, ctr)));
            } else {
                assert(out =~= emit_pass(inst) + folded_tail);
            }
            assert forall|i: int|
                0 <= i < out.len() implies is_counted(#[trigger] out[i]) || is_passthrough(
                out[i],
            ) by {
                if is_passthrough(inst) {
                    assert(emit_pass(inst) == seq![inst]);
                } else {
                    assert(emit_pass(inst) == Seq::<Instruction>::empty());
                }
            }
        }
    }
}

/// The peephole optimizer finishes its work in one pass: its output holds
/// only counted opcodes and the input, output and bracket opcodes it
/// passes through — never a primitive move or arithmetic opcode, and never
/// a no-op.
pub proof fn lemma_fold_output_folded(s: Seq<Instruction>)
    ensures
        forall|i: int|
            0 <= i < fold(s).len() ==> is_counted(#[trigger] fold(s)[i]) || is_passthrough(
                fold(s)[i],
            ),
{
    let padded = s.push(Instruction::NOP);
    lemma_fold_from_emits_folded(padded, padded[0], 0);
}

/// Every character that normalization keeps is significant: not whitespace
/// and not a comment delimiter.
proof fn lemma_normalize_from_chars(s: Seq<char>, comment: bool)
    ensures
        forall|i: int|
            0 <= i < normalize_from(s, comment).len() ==> !is_whitespace_char(
                #[trigger] normalize_from(s, comment)[i],
            ) && normalize_from(s, comment)[i] != '#',
    decreases s.len(),
{
    if s.len() == 0 {
    } else {
        let c = s[0];
        let rest = s.drop_first();
        if c == '\n' {
            lemma_normalize_from_chars(rest, false);
            assert(normalize_from(s, comment) == normalize_from(rest, false));
        } else if comment {
            lemma_normalize_from_chars(rest, true);
            assert(normalize_from(s, comment) == normalize_from(rest, true));
        } else if c == '#' {
            lemma_normalize_from_chars(rest, true);
            assert(normalize_from(s, comment) == normalize_from(rest, true));
        } else if is_whitespace_char(c) {
            lemma_normalize_from_chars(rest, false);
            assert(normalize_from(s, comment) == normalize_from(rest, false));
        } else {
            lemma_normalize_from_chars(rest, false);
            let kept = normalize_from(s, comment);
            let tail = normalize_from(rest, false);
            assert(kept =~= seq![c] + tail);
            assert forall|i: int|
                0 <= i < kept.len() implies !is_whitespace_char(#[trigger] kept[i]) && kept[i]
                != '#' by {
                if i == 0 {
                    assert(kept[0] == c);
                } else {
                    assert(kept[i] == tail[i - 1]);
                }
            }
        }
    }
}

/// Normalization leaves a string of significant characters untouched.
proof fn lemma_normalize_from_dense(s: Seq<char>)
    requires
        forall|i: int|
            0 <= i < s.len() ==> !is_whitespace_char(#[trigger] s[i]) && s[i] != '#',
    ensures
        normalize_from(s, false) == s,
    decreases s.len(),
{
    if s.len() == 0 {
        assert(normalize_from(s, false) =~= s);
    } else {
        let c = s[0];
        let rest = s.drop_first();
        assert(!is_whitespace_char(c) && c != '#');
        assert(c != '\n');
        lemma_normalize_from_dense(rest);
        assert(normalize_from(s, false) =~= s);
    }
}

/// Normalizing a string twice yields the same string as normalizing it
/// once: the normalizer is idempotent.
pub proof fn lemma_normalize_idempotent(s: Seq<char>)
    ensures
        normalize(normalize(s)) == normalize(s),
{
    lemma_normalize_from_chars(s, false);
    lemma_normalize_from_dense(normalize(s));
}

} // verus!
