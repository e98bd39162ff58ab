//! The list expression language: `(trending | top250) - my_radarr - never`.

pub mod ast;
pub mod eval;
pub mod lexer;
pub mod parser;
pub mod wildcard;

pub use ast::{Expr, SetOp};
pub use eval::{apply, eval, GroupSet, UnknownName};
pub use parser::parse;
pub use wildcard::is_pattern;




use vstd::prelude::*;

verus! {

/// A syntax error, carrying the character offset it was found at.
#[derive(Debug)]
pub struct ParseError {
    pub message: String,
    pub pos: usize,
}

impl ParseError {
    pub fn new(message: String, pos: usize) -> (r: ParseError)
        ensures
            r.message@ == message@,
            r.pos == pos,
    {
        ParseError { message, pos }
    }
}

} // verus!
