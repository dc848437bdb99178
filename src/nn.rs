pub mod feedforward;
pub mod nn;
