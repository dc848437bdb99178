use vstd::prelude::*;
use crate::activation::Activation;
use crate::innovation_record::InnovationRecord;

verus! {

/// A network description of the simple model: its arity, its activation and
/// the registry its structure draws ids from.
pub struct Network {
    input_num: usize,
    output_num: usize,
    activation_function: Activation,
    innovation_record: InnovationRecord,
}

impl Network {
    pub closed spec fn inputs(&self) -> nat {
        self.input_num as nat
    }

    pub closed spec fn outputs(&self) -> nat {
        self.output_num as nat
    }

    pub closed spec fn activation(&self) -> Activation {
        self.activation_function
    }

    /// The registry, with its node counter past the input and output nodes.
    pub closed spec fn record(&self) -> InnovationRecord {
        self.innovation_record
    }

    pub fn new(input_num: usize, output_num: usize, activation_function: Activation) -> (r: Self)
        requires
            input_num + output_num <= usize::MAX,
        ensures
            r.inputs() == input_num,
            r.outputs() == output_num,
            r.activation() == activation_function,
            r.record().wf(),
            r.record().node_count() == input_num + output_num,
            r.record().count() == 0,
    {
        let innovation_record = InnovationRecord::with_nodes(input_num + output_num);
        Network { input_num, output_num, activation_function, innovation_record }
    }
}

} // verus!
