//! A small ahead-of-time compiler: source text is split into tokens, the
//! tokens are parsed into a syntax tree, and the tree is lowered to assembly
//! text. Each stage is stated as spec functions over the text, the token
//! sequence and the tree, and each executable function is proved against them.
use vstd::prelude::*;

pub mod lexer;
pub mod parser;
pub mod asmgen;
pub mod pipeline;

verus! {

} // verus!
