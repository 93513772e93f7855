//! A line-oriented command parser: each input line is read as an empty
//! command, a `let` assignment of a typed literal, or `quit`.

pub mod parser;
pub mod theorems;
