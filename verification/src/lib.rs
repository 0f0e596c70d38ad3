//! A verified compiler for a small ladder-logic language: boolean
//! expressions over bit addresses, named bindings, and flip-flop builtins,
//! translated into a stack-machine instruction list and emitted as AWL
//! mnemonic text.
//!
//! The pipeline has three verified stages: [`parser`] builds the high-level
//! representation from source bytes, [`mir`] resolves names, allocates
//! addresses and serializes every written value into optimized instructions,
//! and [`lir`] validates address classes and bracket nesting before the text
//! is rendered.

pub mod error;
pub mod hir;
pub mod lexer;
pub mod lir;
pub mod mir;
pub mod parser;
pub mod symbol;
pub mod util;
