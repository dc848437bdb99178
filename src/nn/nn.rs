use vstd::prelude::*;

verus! {

/// The evaluator a population builds its networks with.
#[derive(Clone, Copy, Debug, PartialEq, Eq, Structural)]
pub enum NetworkType {
    Feedforward,
    CTRNN,
}

/// What building or running a network can fail with.
#[derive(Clone, Debug)]
pub enum NetworkError {
    InvalidParameter(String),
    InvalidGenome(String),
    InvalidInput(String),
    CycleDetected(String),
}

} // verus!
