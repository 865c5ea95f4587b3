use vstd::prelude::*;

pub mod mangling;
pub mod parser;
pub mod reification;
pub mod reporting;
pub mod resolver;
pub mod symbol;
pub mod text;
pub mod token;
pub mod tracking;
pub mod types;

verus! {

} // verus!
