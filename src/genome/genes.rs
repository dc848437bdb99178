//! The genes a genome is made of. Weights and node parameters are real
//! numbers that the structural operators only carry; they are generic here
//! (`W` for a weight, `P` for a node's continuous-time parameters).
use vstd::prelude::*;

verus! {

/// The scalar nonlinearities a node may apply.
#[derive(Clone, Copy, Debug, PartialEq, Eq, Structural)]
pub enum ActivationFunction {
    Identity,
    Sigmoid,
    Tanh,
    Relu,
    LeakyRelu,
}

/// The role of a node in a genome.
#[derive(Clone, Copy, Debug, PartialEq, Eq, Structural)]
pub enum NodeType {
    Input,
    Bias,
    Output,
    Hidden,
}

#[derive(Clone, Copy, Debug)]
pub struct ConnectionGene<W> {
    pub weight: W,
    pub enabled: bool,
    pub in_node: usize,
    pub out_node: usize,
    pub innovation: usize,
}

impl<W> ConnectionGene<W> {
    pub open spec fn new_spec(connection: (usize, usize), weight: W, innovation: usize) -> Self {
        ConnectionGene { weight, enabled: true, in_node: connection.0, out_node: connection.1, innovation }
    }

    /// An enabled connection from `connection.0` to `connection.1`.
    pub fn new(connection: (usize, usize), weight: W, innovation: usize) -> (r: Self)
        ensures
            r == Self::new_spec(connection, weight, innovation),
    {
        ConnectionGene { weight, enabled: true, in_node: connection.0, out_node: connection.1, innovation }
    }
}

#[derive(Clone, Copy, Debug)]
pub struct NodeGene<P> {
    pub id: usize,
    pub activation: ActivationFunction,
    pub params: P,
}

impl<P> NodeGene<P> {
    pub fn new(id: usize, activation: ActivationFunction, params: P) -> (r: Self)
        ensures
            r.id == id,
            r.activation == activation,
            r.params == params,
    {
        NodeGene { id, activation, params }
    }
}

} // verus!
