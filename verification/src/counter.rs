//! The choice of exact model counter.  Running the counter binary and
//! parsing its output happen outside the library.

use vstd::prelude::*;

verus! {

/// The exact model counters the pipeline can delegate to.
#[derive(Clone, Copy, Debug, PartialEq, Eq, Structural)]
pub enum Counter {
    /// The d4 knowledge-compilation counter.
    D4,
}

impl Counter {
    /// The name of the counter's binary.
    pub fn name(&self) -> (r: &'static str)
        ensures
            r@ == "d4"@,
    {
        "d4"
    }
}

} // verus!
