//! A small tape-machine language: a parser that turns source text into a
//! nested instruction tree, and a stepping interpreter that executes the
//! tree one observable event at a time.

pub mod interpreter;
pub mod parser;
