use vstd::prelude::*;

pub mod chars;
pub mod data;
pub mod string_pool;
pub mod package;
pub mod error;
pub mod reader;
pub mod semantics;
pub mod env;
pub mod special_operators;
pub mod quasiquote;
pub mod macros;
pub mod laws;
pub mod parse;
pub mod syntax_tree;

verus! {
} // verus!
