//! The instruction set of the tape machine.
//!
//! A single tagged opcode type is shared by every stage of the pipeline:
//! the tokenizer emits the primitive variants, the peephole optimizer
//! replaces runs of them by the counted `Quick` variants, and the jump
//! resolver fills in the bracket targets.

use vstd::prelude::*;

verus! {

/// One atomic instruction of the tape machine.
///
/// The `Quick` variants carry a run length produced by the peephole
/// optimizer; the primitive move/increment/decrement variants conceptually
/// carry a count of one and exist only before optimization.  A bracket's
/// field starts out as a placeholder (its own position) and is overwritten
/// by the jump resolver with the index of its matching partner.
#[derive(Copy, Clone, Debug, PartialEq, Eq, Structural)]
pub enum Instruction {
    NOP,
    QuickIncrementDataPtr(usize),
    QuickDecrementDataPtr(usize),
    QuickIncrementByte(usize),
    QuickDecrementByte(usize),
    IncrementDataPtr,
    DecrementDataPtr,
    IncrementByte,
    DecrementByte,
    OutputByte,
    InputByte,
    LoopOpen { close_location: usize },
    LoopClose { open_location: usize },
}

/// The opcodes that the peephole optimizer folds into counted runs.
pub open spec fn is_foldable(op: Instruction) -> bool {
    ||| op is IncrementByte
    ||| op is DecrementByte
    ||| op is IncrementDataPtr
    ||| op is DecrementDataPtr
}

/// The counted opcodes that only the peephole optimizer produces.
pub open spec fn is_counted(op: Instruction) -> bool {
    ||| op is QuickIncrementByte
    ||| op is QuickDecrementByte
    ||| op is QuickIncrementDataPtr
    ||| op is QuickDecrementDataPtr
}

/// The opcodes that the peephole optimizer passes through unchanged.
pub open spec fn is_passthrough(op: Instruction) -> bool {
    ||| op is InputByte
    ||| op is OutputByte
    ||| op is LoopOpen
    ||| op is LoopClose
}

pub open spec fn is_open(op: Instruction) -> bool {
    op is LoopOpen
}

pub open spec fn is_close(op: Instruction) -> bool {
    op is LoopClose
}

pub open spec fn is_bracket(op: Instruction) -> bool {
    is_open(op) || is_close(op)
}

/// The partner index stored in a bracket opcode; zero for every other opcode.
pub open spec fn target_of(op: Instruction) -> usize {
    match op {
        Instruction::LoopOpen { close_location } => close_location,
        Instruction::LoopClose { open_location } => open_location,
        _ => 0,
    }
}

/// What `bracket_location` returns: the stored partner index of a bracket.
pub open spec fn spec_bracket_location(op: Instruction) -> Option<usize> {
    match op {
        Instruction::LoopOpen { close_location } => Some(close_location),
        Instruction::LoopClose { open_location } => Some(open_location),
        _ => None,
    }
}

impl Instruction {
    /// Parses raw source into optimized, bracket-resolved bytecode: the
    /// whole compilation pipeline under one name.
    pub fn parse_str(source: &str) -> (r: Result<
        Vec<Instruction>,
        crate::compiler::MismatchedBracketError,
    >)
        ensures
            r is Ok <==> crate::compiler::balanced(
                crate::compiler::tokens_of(crate::compiler::normalize(source@)),
            ),
            r matches Ok(out) ==> crate::compiler::same_shape(
                out@,
                crate::compiler::fold(
                    crate::compiler::tokens_of(crate::compiler::normalize(source@)),
                ),
            ) && crate::compiler::resolved(out@),
    {
        crate::compiler::Compiler::compile(source)
    }

    /// The partner index stored in a bracket opcode, `None` for any other opcode.
    pub fn bracket_location(self) -> (r: Option<usize>)
        ensures
            r == spec_bracket_location(self),
    {
        let loc = match self {
            Self::LoopOpen { close_location } => close_location,
            Self::LoopClose { open_location } => open_location,
            _ => return None,
        };
        Some(loc)
    }
}

} // verus!
