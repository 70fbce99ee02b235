//! A small stack-oriented scripting language: a scanner/parser that turns
//! source text into a tree of instructions, and a tree-walking interpreter
//! that executes the tree against a shared operand stack.

pub mod clock;
pub mod instruction;
pub mod interpret;
pub mod numfmt;
pub mod parse;
pub mod stackval;
