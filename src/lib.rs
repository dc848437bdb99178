use vstd::prelude::*;

pub mod activation;
pub mod assoc;
pub mod context;
pub mod environment;
pub mod genome;
pub mod innovation_record;
pub mod network;
pub mod nn;
pub mod population;
pub mod random;
pub mod speciation;
pub mod species;
pub mod state;

verus! {

} // verus!
