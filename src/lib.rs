mod graph;
mod id_list;
mod laws;
mod node;

pub use graph::CompGraph;
pub use id_list::IdList;
pub use laws::{
    lemma_compute_evaluates_once, lemma_compute_memoized, lemma_compute_succeeds_when_set,
    lemma_set_input_invalidates, lemma_set_same_value_invalidates, lemma_unset_input_error,
};
pub use node::{GraphError, InputNode, NodeId, OperationNode};
