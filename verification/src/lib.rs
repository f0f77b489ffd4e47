//! An interactive, pipe-oriented shell language for structured values: the value
//! model, the precedence-driven parser, the filter engine and its channel model.

pub mod builtin;
pub mod lang;
pub mod util;
