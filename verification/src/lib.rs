//! A tree-walking evaluator for the Monkey language, with its semantics
//! stated and proved.
use vstd::prelude::*;

pub mod ast;
pub mod text;
pub mod object;
pub mod environment;
pub mod semantics;
pub mod evaluator;
pub mod laws;

verus! {

} // verus!
