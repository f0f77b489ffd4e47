//! The language: values, contexts, channels, the parser and the filters it builds.

pub mod channel;
pub mod code;
pub mod context;
pub mod filter;
pub mod parser;
pub mod value;
