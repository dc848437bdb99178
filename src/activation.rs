use vstd::prelude::*;

verus! {

/// The nonlinearities that a network of the simple model may use.
#[derive(Clone, Copy, Debug, PartialEq, Eq, Structural)]
pub enum Activation {
    Sigmoid,
    Tanh,
    ReLU,
    Linear,
}

} // verus!
