use vstd::prelude::*;

verus! {

/// The shape of the problem that a population is evolved for.
#[derive(Clone, Copy, Debug)]
pub struct Environment {
    pub input_size: usize,
    pub output_size: usize,
}

impl Environment {
    pub fn new(input_size: usize, output_size: usize) -> (r: Self)
        ensures
            r.input_size == input_size,
            r.output_size == output_size,
    {
        Environment { input_size, output_size }
    }
}

} // verus!
