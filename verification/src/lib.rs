//! Semantic engine for a stack-based opcode language embedded in a document
//! format with named bindings, imports and namespaces.
//!
//! The crate parses source text into an offset-preserving token stream and
//! AST, resolves imports by content hash into a hierarchical namespace of
//! bindings, validates structural constraints (consumability, depth bounds,
//! occupied slots, reference cycles), normalizes numeric literals, and
//! answers cursor-driven completion queries over the resulting structure.
//!
//! Only ASCII text is supported: behaviour on code points above ASCII is a
//! documented non-goal, and the text-handling entry points require ASCII
//! input.

pub mod ast;
pub mod binding;
pub mod completion;
pub mod deps;
pub mod document;
pub mod error;
pub mod lexer;
pub mod namespace;
pub mod number;
pub mod offsets;
pub mod patterns;
