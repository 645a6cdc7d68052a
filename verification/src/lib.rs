//! An interpreter for the Core teaching language: integer variables,
//! assignment, `read`/`write`, `if`/`then`/`else`, `while`/`loop`, arithmetic
//! and boolean conditions.  Source text is scanned into a flat token
//! sequence, and a grammar-driven engine walks that sequence with a cursor,
//! executing each production as it is recognized, without building a tree.

pub mod decimal;
pub mod executor;
pub mod parser;
pub mod tokenizer;
