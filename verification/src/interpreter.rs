//! Placeholder for the tree-walking evaluator. Evaluation itself works on
//! machine floating point and lives with the unverified callers; only the
//! constructor is part of this crate's surface.

use vstd::prelude::*;

verus! {

/// The (stateless) evaluator handle.
#[derive(Clone, Copy, Debug, PartialEq, Eq, Structural)]
pub struct Interpreter {}

impl Interpreter {
    pub fn new() -> (it: Self)
        ensures
            it == (Interpreter {  }),
    {
        Interpreter {  }
    }
}

} // verus!
