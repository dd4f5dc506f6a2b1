//! The sampler configuration: it names the DIMACS instance whose solutions
//! are enumerated.  The SAT solving itself happens outside the library; the
//! statistics over the sampled models come back as plain values.

use vstd::prelude::*;

verus! {

/// Identifies the instance to sample solutions from.
pub struct Sampler {
    input: String,
}

impl Sampler {
    /// The path of the instance, as characters.
    pub closed spec fn spec_input(self) -> Seq<char> {
        self.input@
    }

    /// Wraps the path of the instance to sample.
    pub fn new(input: String) -> (r: Sampler)
        ensures
            r.spec_input() == input@,
    {
        Sampler { input }
    }

    /// The path of the instance.
    pub fn input(&self) -> (r: &String)
        ensures
            r@ == self.spec_input(),
    {
        &self.input
    }
}

} // verus!
