//! A query/transform engine for streams of structured documents.
//!
//! A query string compiles into an ordered list of stream commands plus one
//! terminal print mode; the evaluator applies the commands to one document
//! at a time, fanning out over sequences and re-flattening the results in
//! order.

pub mod command;
pub mod compile;
pub mod eval;
pub mod laws;
pub mod literal;
pub mod print;
pub mod text;
pub mod value;
