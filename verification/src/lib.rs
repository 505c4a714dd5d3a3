//! Interpreter for a small imperative scripting language that drives a
//! simulated walker across a 20x20 grid field.
//!
//! The library is split into the field model and its cell-entry state
//! machine (`map`), the field loader (`load`), the expression and statement
//! trees with their parser and executor (`objects`), the lexical helpers
//! (`lex`), the fixed cost table (`weights`), the error and trace vocabulary
//! (`fault`), and the proved laws of the field model (`laws`).

pub mod fault;
pub mod laws;
pub mod lex;
pub mod load;
pub mod map;
pub mod objects;
pub mod weights;
