//! A rewrite-rule interpreter: patterns over token sequences, definitions
//! that lower one shape into another, and a search that enumerates every
//! reachable rewriting of an expression and selects the smallest form.

pub mod bindings;
pub mod chars;
pub mod definition;
pub mod errors;
pub mod eval;
pub mod load;
pub mod matcher;
pub mod matcher_laws;
pub mod parser;
pub mod resolve;
pub mod runtime;
pub mod scan;
pub mod strset;
pub mod structure;
pub mod token;
