pub mod distance;
pub mod genes;
pub mod genome;
