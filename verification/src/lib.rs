//! A byte-oriented parser-combinator engine for recursive-descent grammars
//! over a single contiguous input buffer.
//!
//! A grammar is assembled once as an immutable tree of combinator values;
//! each `parse` call walks that fixed tree, advancing (or rejecting) a
//! cursor that is always a suffix of the original input. Every combinator
//! carries a specification of its outcome (how many bytes it consumes, or
//! where it stops on failure) and of the values it may produce, and the
//! executable parsers are verified against those specifications.

pub mod cell;
pub mod laws;
pub mod parser;
pub mod simd;
