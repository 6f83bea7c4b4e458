//! The compilation pipeline: source normalization, tokenization, peephole
//! optimization and loop-bracket resolution.

use vstd::prelude::*;
use vstd::string::*;
use crate::instruction::Instruction;
use crate::instruction::is_bracket;
use crate::instruction::is_close;
use crate::instruction::is_foldable;
use crate::instruction::is_open;
use crate::instruction::is_passthrough;
use crate::instruction::target_of;

verus! {

/// The characters with the Unicode `White_Space` property, which the
/// normalizer drops from the source text.
pub open spec fn is_whitespace_char(c: char) -> bool {
    ||| c == '\u{0009}'
    ||| c == '\u{000A}'
    ||| c == '\u{000B}'
    ||| c == '\u{000C}'
    ||| c == '\u{000D}'
    ||| c == '\u{0020}'
    ||| c == '\u{0085}'
    ||| c == '\u{00A0}'
    ||| c == '\u{1680}'
    ||| c == '\u{2000}'
    ||| c == '\u{2001}'
    ||| c == '\u{2002}'
    ||| c == '\u{2003}'
    ||| c == '\u{2004}'
    ||| c == '\u{2005}'
    ||| c == '\u{2006}'
    ||| c == '\u{2007}'
    ||| c == '\u{2008}'
    ||| c == '\u{2009}'
    ||| c == '\u{200A}'
    ||| c == '\u{2028}'
    ||| c == '\u{2029}'
    ||| c == '\u{202F}'
    ||| c == '\u{205F}'
    ||| c == '\u{3000}'
}

/// One left-to-right pass of the normalizer over the remaining characters.
///
/// `comment` records whether the scan stands inside a line comment: a `#`
/// enters a comment, the next line break leaves it.  Whitespace, comment
/// delimiters and commented-out characters are dropped; every other
/// character is kept in order.
pub open spec fn normalize_from(s: Seq<char>, comment: bool) -> Seq<char>
    decreases s.len(),
{
    if s.len() == 0 {
        Seq::empty()
    } else {
        let c = s[0];
        let rest = s.drop_first();
        if c == '\n' {
            normalize_from(rest, false)
        } else if comment {
            normalize_from(rest, true)
        } else if c == '#' {
            normalize_from(rest, true)
        } else if is_whitespace_char(c) {
            normalize_from(rest, false)
        } else {
            seq![c] + normalize_from(rest, false)
        }
    }
}

/// The dense command string that the normalizer produces from raw source.
pub open spec fn normalize(s: Seq<char>) -> Seq<char> {
    normalize_from(s, false)
}

/// The opcode the tokenizer emits for the character at position `i`.
/// A bracket stores its own position as a placeholder target.
pub open spec fn token_of(c: char, i: int) -> Instruction {
    if c == '>' {
        Instruction::IncrementDataPtr
    } else if c == '<' {
        Instruction::DecrementDataPtr
    } else if c == '+' {
        Instruction::IncrementByte
    } else if c == '-' {
        Instruction::DecrementByte
    } else if c == ',' {
        Instruction::InputByte
    } else if c == '.' {
        Instruction::OutputByte
    } else if c == '[' {
        Instruction::LoopOpen { close_location: i as usize }
    } else if c == ']' {
        Instruction::LoopClose { open_location: i as usize }
    } else {
        Instruction::NOP
    }
}

/// The token sequence for a normalized command string, one opcode per
/// character, positionally aligned with the string's indices.
pub open spec fn tokens_of(s: Seq<char>) -> Seq<Instruction> {
    Seq::new(s.len(), |i: int| token_of(s[i], i))
}

/// Whether `inst` continues a pending run of the foldable opcode `current`.
pub open spec fn same_run(current: Instruction, inst: Instruction) -> bool {
    match current {
        Instruction::IncrementByte => inst is IncrementByte,
        Instruction::DecrementByte => inst is DecrementByte,
        Instruction::IncrementDataPtr => inst is IncrementDataPtr,
        Instruction::DecrementDataPtr => inst is DecrementDataPtr,
        _ => false,
    }
}

/// The counted opcode that a flushed run of `counter` copies of the
/// foldable opcode `current` becomes.
pub open spec fn counted(current: Instruction, counter: usize) -> Instruction {
    match current {
        Instruction::IncrementByte => Instruction::QuickIncrementByte(counter),
        Instruction::DecrementByte => Instruction::QuickDecrementByte(counter),
        Instruction::IncrementDataPtr => Instruction::QuickIncrementDataPtr(counter),
        Instruction::DecrementDataPtr => Instruction::QuickDecrementDataPtr(counter),
        _ => Instruction::NOP,
    }
}

/// What the optimizer emits for an incoming opcode that starts a new run:
/// input, output and bracket opcodes pass through, everything else is
/// dropped (a foldable opcode is emitted later, when its run is flushed).
pub open spec fn emit_pass(inst: Instruction) -> Seq<Instruction> {
    if is_passthrough(inst) {
        seq![inst]
    } else {
        Seq::empty()
    }
}

/// One left-to-right pass of the run-length folder over the remaining
/// opcodes, holding the current run kind and its counter.
pub open spec fn fold_from(rest: Seq<Instruction>, current: Instruction, counter: usize) -> Seq<
    Instruction,
>
    decreases rest.len(),
{
    if rest.len() == 0 {
        Seq::empty()
    } else {
        let inst = rest[0];
        if is_foldable(current) {
            if same_run(current, inst) {
                fold_from(rest.drop_first(), current, ((counter + 1) as usize))
            } else {
                seq![counted(current, counter)] + emit_pass(inst) + fold_from(
                    rest.drop_first(),
                    inst,
                    1,
                )
            }
        } else {
            emit_pass(inst) + fold_from(rest.drop_first(), inst, 1)
        }
    }
}

/// The run-length folding of a token sequence.
///
/// A sentinel no-op is appended before the scan begins, guaranteeing that
/// the final pending run is flushed; the scan starts with the first opcode
/// as the current run kind and a counter of zero.
pub open spec fn fold(s: Seq<Instruction>) -> Seq<Instruction> {
    let padded = s.push(Instruction::NOP);
    fold_from(padded, padded[0], 0)
}

/// What the jump resolver's first phase writes into the opcode at index
/// `i`: a bracket's stale placeholder is overwritten with the opcode's own
/// current index, every other opcode is left alone.
pub open spec fn reindex_op(op: Instruction, i: int) -> Instruction {
    match op {
        Instruction::LoopOpen { .. } => Instruction::LoopOpen { close_location: i as usize },
        Instruction::LoopClose { .. } => Instruction::LoopClose { open_location: i as usize },
        _ => op,
    }
}

/// The opcode sequence after the jump resolver's reindexing phase.
pub open spec fn reindexed(s: Seq<Instruction>) -> Seq<Instruction> {
    Seq::new(s.len(), |i: int| reindex_op(s[i], i))
}

/// A bracket's contribution to the loop-nesting depth.
pub open spec fn bracket_delta(op: Instruction) -> int {
    if is_open(op) {
        1
    } else if is_close(op) {
        -1
    } else {
        0
    }
}

/// The number of loop-open minus loop-close opcodes among the first `k`
/// elements of `s`: the loop-nesting depth in front of position `k`.
pub open spec fn net_depth(s: Seq<Instruction>, k: int) -> int
    decreases k,
{
    if k <= 0 {
        0
    } else {
        net_depth(s, k - 1) + bracket_delta(s[k - 1])
    }
}

/// The brackets of `s` are balanced: the nesting depth never drops below
/// zero and returns to zero at the end.  Matching every loop-open to a
/// loop-close succeeds exactly on such sequences.
pub open spec fn balanced(s: Seq<Instruction>) -> bool {
    &&& forall|k: int| 0 <= k <= s.len() ==> net_depth(s, k) >= 0
    &&& net_depth(s, s.len() as int) == 0
}

/// The brackets at `i` and `t` are a matching loop-open/loop-close pair:
/// the nesting depth stays above the open's own depth strictly between
/// them, and the close is the first position that returns to it.
pub open spec fn pair_matched(s: Seq<Instruction>, i: int, t: int) -> bool {
    &&& 0 <= i < t < s.len()
    &&& is_open(s[i])
    &&& is_close(s[t])
    &&& forall|k: int| i + 1 <= k <= t ==> net_depth(s, k) > net_depth(s, i)
    &&& net_depth(s, t) == net_depth(s, i) + 1
}

/// Every bracket of `r` carries the index of its matching partner, and the
/// two partners point at each other (mutually symmetric resolution).
pub open spec fn resolved(r: Seq<Instruction>) -> bool {
    &&& forall|i: int|
        0 <= i < r.len() && is_open(#[trigger] r[i]) ==> pair_matched(
            r,
            i,
            target_of(r[i]) as int,
        ) && target_of(r[target_of(r[i]) as int]) == i
    &&& forall|t: int|
        0 <= t < r.len() && is_close(#[trigger] r[t]) ==> pair_matched(
            r,
            target_of(r[t]) as int,
            t,
        ) && target_of(r[target_of(r[t]) as int]) == t
}

/// `r` and `s` agree on length, on where the brackets of each kind stand,
/// and on every opcode that is not a bracket; only bracket targets differ.
pub open spec fn same_shape(r: Seq<Instruction>, s: Seq<Instruction>) -> bool {
    &&& r.len() == s.len()
    &&& forall|i: int|
        0 <= i < s.len() ==> {
            &&& (is_open(#[trigger] r[i]) <==> is_open(s[i]))
            &&& (is_close(r[i]) <==> is_close(s[i]))
            &&& (!is_bracket(s[i]) ==> r[i] == s[i])
        }
}

/// Sequences of the same shape have the same nesting depth everywhere.
pub proof fn lemma_net_depth_same_shape(r: Seq<Instruction>, s: Seq<Instruction>, k: int)
    requires
        same_shape(r, s),
        k <= s.len(),
    ensures
        net_depth(r, k) == net_depth(s, k),
    decreases k,
{
    if k > 0 {
        lemma_net_depth_same_shape(r, s, k - 1);
    }
}

/// Sequences of the same shape agree on where their brackets are balanced.
pub proof fn lemma_same_shape_balanced(r: Seq<Instruction>, s: Seq<Instruction>)
    requires
        same_shape(r, s),
    ensures
        balanced(r) <==> balanced(s),
{
    assert forall|k: int| 0 <= k <= s.len() implies net_depth(r, k) == net_depth(s, k) by {
        lemma_net_depth_same_shape(r, s, k);
    }
}

/// Reindexing brackets only rewrites their targets, keeping the shape.
pub proof fn lemma_reindexed_same_shape(s: Seq<Instruction>)
    ensures
        same_shape(reindexed(s), s),
{
}

/// The compile-time error for an unmatched loop bracket in the source.
/// No partial compilation artifact accompanies it.
#[derive(Copy, Clone, Debug, PartialEq, Eq, Structural)]
pub struct MismatchedBracketError;

/// Relies on `String::push`: appends one character to the string.
#[verifier::external_body]
fn push_char(s: &mut String, c: char)
    ensures
        final(s)@ == old(s)@.push(c),
{
    s.push(c);
}

/// The compilation pipeline over raw source text.
pub struct Compiler;

impl Compiler {
    /// Compiles raw source into optimized, bracket-resolved bytecode:
    /// normalize, tokenize, run-length-fold, reindex, and match brackets.
    /// Succeeds exactly on sources whose brackets are balanced; on failure
    /// no partial program is produced.
    pub fn compile(source: &str) -> (r: Result<Vec<Instruction>, MismatchedBracketError>)
        ensures
            r is Ok <==> balanced(tokens_of(normalize(source@))),
            r matches Ok(out) ==> same_shape(out@, fold(tokens_of(normalize(source@))))
                && resolved(out@),
    {
        let stripped = Self::strip_source_of_whitespace_and_comments(source);
        let mut tokens = Self::tokenize_string(stripped.as_str());
        Self::optimize_instructions(&mut tokens);
        Self::reindex_branches(&mut tokens);
        let r = Self::compute_bracket_indexes(&tokens);
        proof {
            let folded = fold(tokens_of(normalize(source@)));
            crate::laws::lemma_fold_preserves_balanced(tokens_of(normalize(source@)));
            lemma_reindexed_same_shape(folded);
            lemma_same_shape_balanced(reindexed(folded), folded);
            if r is Ok {
                assert(same_shape((r->Ok_0)@, reindexed(folded)));
                assert(same_shape((r->Ok_0)@, folded));
            }
        }
        r
    }

    /// Compiles raw source without the peephole optimization: normalize,
    /// tokenize, and match brackets, leaving every opcode unfolded.
    pub fn compile_unoptimized(source: &str) -> (r: Result<
        Vec<Instruction>,
        MismatchedBracketError,
    >)
        ensures
            r is Ok <==> balanced(tokens_of(normalize(source@))),
            r matches Ok(out) ==> same_shape(out@, tokens_of(normalize(source@))) && resolved(
                out@,
            ),
    {
        let stripped = Self::strip_source_of_whitespace_and_comments(source);
        let tokens = Self::tokenize_string(stripped.as_str());
        Self::compute_bracket_indexes(&tokens)
    }

    /// Drops whitespace and trailing line comments from raw source,
    /// concatenating the surviving characters into one dense command string.
    pub fn strip_source_of_whitespace_and_comments(source: &str) -> (r: String)
        ensures
            r@ == normalize(source@),
    {
        let n = source.unicode_len();
        let mut out = String::new();
        let mut comment = false;
        let mut i: usize = 0;
        proof {
            assert(source@.skip(0) =~= source@);
            assert(out@ + normalize_from(source@, false) =~= normalize_from(source@, false));
        }
        while i < n
            invariant
                n == source@.len(),
                i <= n,
                normalize(source@) == out@ + normalize_from(source@.skip(i as int), comment),
            decreases n - i,
        {
            let c = source.get_char(i);
            proof {
                assert(source@.skip(i as int)[0] == source@[i as int]);
                assert(source@.skip(i as int).drop_first() =~= source@.skip(i as int + 1));
            }
            if c == '\n' {
                comment = false;
            } else if comment {
                // a commented-out character is dropped
            } else if c == '#' {
                comment = true;
            } else if !whitespace(c) {
                push_char(&mut out, c);
                proof {
                    assert(out@ + normalize_from(source@.skip(i as int + 1), comment)
                        =~= normalize(source@));
                }
            }
            i = i + 1;
        }
        proof {
            assert(out@ + normalize_from(source@.skip(n as int), comment) =~= out@);
        }
        out
    }

    /// Run-length-folds consecutive identical pointer-move or cell
    /// increment/decrement opcodes into single counted opcodes; input,
    /// output and bracket opcodes pass through unchanged and in order.
    pub fn optimize_instructions(code: &mut Vec<Instruction>)
        ensures
            final(code)@ == fold(old(code)@),
    {
        // a sentinel no-op solves the last-token problem: it flushes the
        // final pending run
        code.push(Instruction::NOP);
        let n = code.len();
        let mut optimized: Vec<Instruction> = Vec::new();
        let mut current = code[0];
        let mut ctr: usize = 0;
        let mut i: usize = 0;
        proof {
            assert(code@.skip(0) =~= code@);
            assert(optimized@ + fold_from(code@, current, 0) =~= fold_from(code@, current, 0));
        }
        while i < n
            invariant
                n == code@.len(),
                code@ == old(code)@.push(Instruction::NOP),
                i <= n,
                ctr <= i,
                fold(old(code)@) == optimized@ + fold_from(code@.skip(i as int), current, ctr),
            decreases n - i,
        {
            let inst = code[i];
            proof {
                assert(code@.skip(i as int)[0] == code@[i as int]);
                assert(code@.skip(i as int).drop_first() =~= code@.skip(i as int + 1));
            }
            let ghost pending = fold_from(code@.skip(i as int), current, ctr);
            let ghost opt0 = optimized@;
            match current {
                Instruction::IncrementByte => match inst {
                    Instruction::IncrementByte => {
                        ctr = ctr + 1;
                    },
                    _ => {
                        optimized.push(Instruction::QuickIncrementByte(ctr));
                        current = inst;
                        ctr = 1;
                        push_passthrough(inst, &mut optimized);
                    },
                },
                Instruction::DecrementByte => match inst {
                    Instruction::DecrementByte => {
                        ctr = ctr + 1;
                    },
                    _ => {
                        optimized.push(Instruction::QuickDecrementByte(ctr));
                        current = inst;
                        ctr = 1;
                        push_passthrough(inst, &mut optimized);
                    },
                },
                Instruction::IncrementDataPtr => match inst {
                    Instruction::IncrementDataPtr => {
                        ctr = ctr + 1;
                    },
                    _ => {
                        optimized.push(Instruction::QuickIncrementDataPtr(ctr));
                        current = inst;
                        ctr = 1;
                        push_passthrough(inst, &mut optimized);
                    },
                },
                Instruction::DecrementDataPtr => match inst {
                    Instruction::DecrementDataPtr => {
                        ctr = ctr + 1;
                    },
                    _ => {
                        optimized.push(Instruction::QuickDecrementDataPtr(ctr));
                        current = inst;
                        ctr = 1;
                        push_passthrough(inst, &mut optimized);
                    },
                },
                _ => {
                    ctr = 1;
                    current = inst;
                    push_passthrough(inst, &mut optimized);
                },
            }
            proof {
                assert(optimized@ + fold_from(code@.skip(i as int + 1), current, ctr) =~= opt0
                    + pending);
            }
            i = i + 1;
        }
        proof {
            assert(fold(old(code)@) =~= optimized@);
        }
        *code = optimized;
    }

    /// Overwrites each bracket's stale placeholder with the bracket's own
    /// index in the optimized sequence, preparing it for matching.
    pub fn reindex_branches(code: &mut Vec<Instruction>)
        ensures
            final(code)@ == reindexed(old(code)@),
    {
        let n = code.len();
        let mut i: usize = 0;
        while i < n
            invariant
                n == code@.len(),
                code@.len() == old(code)@.len(),
                i <= n,
                forall|j: int| 0 <= j < i ==> code@[j] == reindex_op(old(code)@[j], j),
                forall|j: int| i <= j < n ==> code@[j] == old(code)@[j],
            decreases n - i,
        {
            match code[i] {
                Instruction::LoopOpen { .. } => {
                    code[i] = Instruction::LoopOpen { close_location: i };
                },
                Instruction::LoopClose { .. } => {
                    code[i] = Instruction::LoopClose { open_location: i };
                },
                _ => {},
            }
            i = i + 1;
        }
        proof {
            assert(code@ =~= reindexed(old(code)@));
        }
    }

    /// Matches every loop-open to its loop-close with an explicit stack of
    /// pending open indices and writes the partner's index into each of the
    /// two brackets.  Fails with [`MismatchedBracketError`] exactly when the
    /// brackets are unbalanced, returning no partial artifact.
    #[verifier::rlimit(60)]
    pub fn compute_bracket_indexes(code: &Vec<Instruction>) -> (r: Result<
        Vec<Instruction>,
        MismatchedBracketError,
    >)
        ensures
            r is Ok <==> balanced(code@),
            r matches Ok(out) ==> same_shape(out@, code@) && resolved(out@),
    {
        let n = code.len();
        let mut out: Vec<Instruction> = Vec::new();
        let mut p: usize = 0;
        while p < n
            invariant
                n == code@.len(),
                out@.len() == p,
                p <= n,
                forall|q: int| 0 <= q < p ==> out@[q] == code@[q],
            decreases n - p,
        {
            out.push(code[p]);
            p = p + 1;
        }
        let mut stack: Vec<usize> = Vec::new();
        let mut j: usize = 0;
        while j < n
            invariant
                n == code@.len(),
                out@.len() == n,
                j <= n,
                same_shape(out@, code@),
                stack@.len() == net_depth(code@, j as int),
                forall|k: int| 0 <= k <= j ==> net_depth(code@, k) >= 0,
                forall|m: int|
                    0 <= m < stack@.len() ==> {
                        &&& (#[trigger] stack@[m]) < j
                        &&& is_open(code@[stack@[m] as int])
                        &&& out@[stack@[m] as int] == code@[stack@[m] as int]
                        &&& net_depth(code@, stack@[m] as int) == m
                        &&& forall|k: int| stack@[m] < k <= j ==> net_depth(code@, k) >= m + 1
                    },
                forall|m1: int, m2: int|
                    0 <= m1 < m2 < stack@.len() ==> #[trigger] stack@[m1] < #[trigger] stack@[m2],
                // every close before j is resolved, mutually with its open
                forall|q: int|
                    0 <= q < j && is_close(#[trigger] code@[q]) ==> {
                        let i = target_of(out@[q]) as int;
                        &&& pair_matched(code@, i, q)
                        &&& is_close(out@[q])
                        &&& is_open(out@[i])
                        &&& target_of(out@[i]) == q
                        &&& forall|m: int| 0 <= m < stack@.len() ==> #[trigger] stack@[m] != i
                    },
                // every open before j that is no longer pending is resolved,
                // mutually with its close
                forall|q: int|
                    0 <= q < j && is_open(#[trigger] code@[q]) && (forall|m: int|
                        0 <= m < stack@.len() ==> #[trigger] stack@[m] != q) ==> {
                        let t = target_of(out@[q]) as int;
                        &&& pair_matched(code@, q, t)
                        &&& is_open(out@[q])
                        &&& is_close(out@[t])
                        &&& target_of(out@[t]) == q
                        &&& t < j
                    },
                forall|q: int| j <= q < n ==> out@[q] == code@[q],
            decreases n - j,
        {
            match code[j] {
                Instruction::LoopOpen { .. } => {
                    let ghost stack0 = stack@;
                    stack.push(j);
                    proof {
                        assert(stack@[stack@.len() - 1] == j);
                        let jj = j as int;
                        assert forall|q: int|
                            0 <= q < jj + 1 && is_open(code@[q]) && (forall|m: int|
                                0 <= m < stack@.len() ==> #[trigger] stack@[m] != q) implies {
                            let tq = target_of(out@[q]) as int;
                            &&& pair_matched(code@, q, tq)
                            &&& is_open(out@[q])
                            &&& is_close(out@[tq])
                            &&& target_of(out@[tq]) == q
                            &&& tq < jj + 1
                        } by {
                            assert(stack@[stack@.len() - 1] != q);
                            assert forall|m: int|
                                0 <= m < stack0.len() implies #[trigger] stack0[m] != q by {
                                assert(stack@[m] == stack0[m]);
                            }
                        }
                    }
                },
                Instruction::LoopClose { .. } => {
                    if stack.len() == 0 {
                        proof {
                            assert(net_depth(code@, j as int + 1) == -1);
                            assert(!balanced(code@));
                        }
                        return Err(MismatchedBracketError);
                    }
                    let ghost stack0 = stack@;
                    let t = stack.pop().unwrap();
                    proof {
                        let top = stack0.len() - 1;
                        assert(stack0[top] == t);
                        assert(net_depth(code@, t as int) == top);
                        assert(net_depth(code@, j as int) == stack0.len());
                        assert forall|k: int| t + 1 <= k <= j implies net_depth(code@, k)
                            > net_depth(code@, t as int) by {
                            assert(stack0[top] < k <= j);
                        }
                        assert(pair_matched(code@, t as int, j as int));
                    }
                    let ghost out0 = out@;
                    out[t] = Instruction::LoopOpen { close_location: j };
                    out[j] = Instruction::LoopClose { open_location: t };
                    proof {
                        assert(is_open(out@[t as int]) && target_of(out@[t as int]) == j);
                        assert(is_close(out@[j as int]) && target_of(out@[j as int]) == t);
                        let jj = j as int;
                        assert forall|q: int|
                            0 <= q < jj + 1 && is_open(code@[q]) && (forall|m: int|
                                0 <= m < stack@.len() ==> #[trigger] stack@[m] != q) implies {
                            let tq = target_of(out@[q]) as int;
                            &&& pair_matched(code@, q, tq)
                            &&& is_open(out@[q])
                            &&& is_close(out@[tq])
                            &&& target_of(out@[tq]) == q
                            &&& tq < jj + 1
                        } by {
                            if q == t as int {
                                assert(target_of(out@[q]) == j);
                                assert(pair_matched(code@, q, jj));
                            } else {
                                assert forall|m: int|
                                    0 <= m < stack0.len() implies #[trigger] stack0[m] != q by {
                                    if m < stack0.len() - 1 {
                                        assert(stack@[m] == stack0[m]);
                                    } else {
                                        assert(stack0[m] == t);
                                    }
                                }
                                assert(is_open(out0[q]) && target_of(out0[q]) < jj);
                                let tq = target_of(out0[q]) as int;
                                assert(is_close(code@[tq]));
                                assert(tq != t as int && tq != jj && q != jj);
                                assert(out@[q] == out0[q] && out@[tq] == out0[tq]);
                            }
                        }
                        assert forall|q: int|
                            0 <= q < jj + 1 && is_close(code@[q]) implies {
                            let iq = target_of(out@[q]) as int;
                            &&& pair_matched(code@, iq, q)
                            &&& is_close(out@[q])
                            &&& is_open(out@[iq])
                            &&& target_of(out@[iq]) == q
                            &&& forall|m: int| 0 <= m < stack@.len() ==> #[trigger] stack@[m] != iq
                        } by {
                            if q == jj {
                                assert(target_of(out@[q]) == t);
                                assert(pair_matched(code@, t as int, jj));
                                assert forall|m: int|
                                    0 <= m < stack@.len() implies #[trigger] stack@[m]
                                    != t as int by {
                                    assert(stack@[m] == stack0[m]);
                                    assert(stack0[m] < stack0[stack0.len() - 1]);
                                }
                            } else {
                                let iq = target_of(out0[q]) as int;
                                assert(is_close(out0[q]) && pair_matched(code@, iq, q));
                                assert(forall|m: int|
                                    0 <= m < stack0.len() ==> #[trigger] stack0[m] != iq);
                                assert(stack0[stack0.len() - 1] == t);
                                assert(iq != t as int && iq != jj && q != t as int);
                                assert(out@[q] == out0[q] && out@[iq] == out0[iq]);
                            }
                        }
                    }
                },
                _ => {},
            }
            j = j + 1;
        }
        if stack.len() > 0 {
            proof {
                assert(net_depth(code@, n as int) > 0);
                assert(!balanced(code@));
            }
            return Err(MismatchedBracketError);
        }
        proof {
            assert(balanced(code@));
            assert forall|k: int| 0 <= k <= n implies net_depth(out@, k) == net_depth(
                code@,
                k,
            ) by {
                lemma_net_depth_same_shape(out@, code@, k);
            }
            assert(resolved(out@));
        }
        Ok(out)
    }

    /// Maps each character of a normalized command string to an opcode,
    /// tagging each bracket with its own position as a placeholder target.
    pub fn tokenize_string(source: &str) -> (r: Vec<Instruction>)
        ensures
            r@ == tokens_of(source@),
    {
        let n = source.unicode_len();
        let mut out: Vec<Instruction> = Vec::new();
        let mut i: usize = 0;
        while i < n
            invariant
                n == source@.len(),
                i <= n,
                out@.len() == i,
                forall|j: int| 0 <= j < i ==> out@[j] == token_of(source@[j], j),
            decreases n - i,
        {
            let c = source.get_char(i);
            let op = if c == '>' {
                Instruction::IncrementDataPtr
            } else if c == '<' {
                Instruction::DecrementDataPtr
            } else if c == '+' {
                Instruction::IncrementByte
            } else if c == '-' {
                Instruction::DecrementByte
            } else if c == ',' {
                Instruction::InputByte
            } else if c == '.' {
                Instruction::OutputByte
            } else if c == '[' {
                Instruction::LoopOpen { close_location: i }
            } else if c == ']' {
                Instruction::LoopClose { open_location: i }
            } else {
                Instruction::NOP
            };
            out.push(op);
            i = i + 1;
        }
        proof {
            assert(out@ =~= tokens_of(source@));
        }
        out
    }
}

/// Emits an incoming opcode immediately if it is one the optimizer never
/// folds: input, output, or a loop bracket.
fn push_passthrough(inst: Instruction, optimized: &mut Vec<Instruction>)
    ensures
        final(optimized)@ == old(optimized)@ + emit_pass(inst),
{
    match inst {
        Instruction::InputByte
        | Instruction::OutputByte
        | Instruction::LoopClose { .. }
        | Instruction::LoopOpen { .. } => {
            optimized.push(inst);
            proof {
                assert(optimized@ =~= old(optimized)@ + emit_pass(inst));
            }
        },
        _ => {
            proof {
                assert(optimized@ =~= old(optimized)@ + emit_pass(inst));
            }
        },
    }
}

/// Tests a character for the Unicode `White_Space` property.
fn whitespace(c: char) -> (r: bool)
    ensures
        r == is_whitespace_char(c),
{
    match c {
        '\u{0009}' | '\u{000A}' | '\u{000B}' | '\u{000C}' | '\u{000D}' | '\u{0020}'
        | '\u{0085}' | '\u{00A0}' | '\u{1680}' | '\u{2000}' | '\u{2001}' | '\u{2002}'
        | '\u{2003}' | '\u{2004}' | '\u{2005}' | '\u{2006}' | '\u{2007}' | '\u{2008}'
        | '\u{2009}' | '\u{200A}' | '\u{2028}' | '\u{2029}' | '\u{202F}' | '\u{205F}'
        | '\u{3000}' => true,
        _ => false,
    }
}

} // verus!
