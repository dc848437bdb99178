//! The names the configuration layer uses for the library's types.
pub use crate::environment::Environment;
pub use crate::genome::genes::ActivationFunction;
pub use crate::nn::nn::NetworkType;
