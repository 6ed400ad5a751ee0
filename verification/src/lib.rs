//! A compiler and executor for a minimal eight-instruction tape machine.
//!
//! Source text is lexed one character per token, folded and rewritten into a
//! denser instruction set by a peephole pass, linked so that every loop open
//! and close point at each other, and finally run on a 65536-cell wraparound
//! tape to produce a byte sequence.

pub mod command;
pub mod wrap;
pub mod error;
pub mod interpreter;
pub mod laws;
pub mod semantics;
