//! A minimal virtual machine for an eight-instruction tape language.
//!
//! The compilation pipeline normalizes raw source text, tokenizes it,
//! run-length-folds consecutive identical opcodes, and resolves the loop
//! brackets to their matching partners.  The interpreter then executes the
//! resolved bytecode against a fixed-size byte tape, reading input bytes
//! from a caller-supplied buffer and collecting output bytes in another.

pub mod compiler;
pub mod equivalence;
pub mod instruction;
pub mod interpreter;
pub mod laws;

pub use compiler::Compiler;
pub use instruction::Instruction;
pub use interpreter::Interpreter;
pub use interpreter::RuntimeError;
