use crate::id_list::{ids_of, IdList};
use vstd::prelude::*;

verus! {

/// Handle of a node inside the graph that created it: its index in the arena.
#[derive(Copy, Clone, Debug, PartialEq, Eq, Structural)]
pub struct NodeId(pub usize);

impl NodeId {
    /// The arena index this handle refers to.
    pub fn index(&self) -> (r: usize)
        ensures
            r == self.0,
    {
        self.0
    }
}

/// Failures reported by graph operations.
#[derive(Copy, Clone, Debug, PartialEq, Eq, Structural)]
pub enum GraphError {
    /// No input is registered under the given name.
    UnknownInputName,
    /// An input name was registered a second time.
    DuplicateInputName,
    /// Evaluation reached an input node whose value was never provided.
    UnsetInput,
    /// A node id does not belong to this graph.
    InvalidReference,
}

/// One node of the arena: either an input (no operation) or an operation
/// over the values of its ordered inputs.
pub struct OperationNode<T, F> {
    pub cache: Option<T>,
    pub node_inputs: IdList,
    pub dependents: IdList,
    pub op: Option<F>,
}

/// An input node is an operation node without an operation.
pub type InputNode<T, F> = OperationNode<T, F>;

impl<T: Copy, F: Fn(Vec<T>) -> T> OperationNode<T, F> {
    /// Creates a stale operation node reading `node_inputs` in order.
    pub fn new(node_inputs: IdList, op: F) -> (r: Self)
        ensures
            r.cache is None,
            r.node_inputs == node_inputs,
            ids_of(r.dependents) == Seq::<usize>::empty(),
            r.op == Some(op),
    {
        OperationNode { cache: None, node_inputs, dependents: IdList::new(), op: Some(op) }
    }

    /// The cached value, `None` when stale.
    pub fn cached(&self) -> (r: Option<T>)
        ensures
            r == self.cache,
    {
        self.cache
    }

    /// Whether this is an input node.
    pub fn is_input_node(&self) -> (r: bool)
        ensures
            r == (self.op is None),
    {
        self.op.is_none()
    }

    /// Applies this node's operation to the values of its inputs.
    pub fn compute(&self, args: Vec<T>) -> (r: T)
        requires
            self.op is Some,
            call_requires(self.op->0, (args,)),
        ensures
            call_ensures(self.op->0, (args,), r),
    {
        match &self.op {
            Some(f) => f(args),
            None => unreached(),
        }
    }

    /// Marks this node stale.
    pub fn invalidate_cache(&mut self)
        ensures
            final(self).cache is None,
            final(self).node_inputs == old(self).node_inputs,
            final(self).dependents == old(self).dependents,
            final(self).op == old(self).op,
    {
        self.cache = None;
    }
}

impl<T: Copy, F: Fn(Vec<T>) -> T> InputNode<T, F> {
    /// Creates an input node with no value yet.
    pub fn new_input() -> (r: Self)
        ensures
            r.cache is None,
            ids_of(r.node_inputs) == Seq::<usize>::empty(),
            ids_of(r.dependents) == Seq::<usize>::empty(),
            r.op is None,
    {
        OperationNode { cache: None, node_inputs: IdList::new(), dependents: IdList::new(), op: None }
    }

    /// Stores `data` as this node's value.
    pub fn set(&mut self, data: T)
        ensures
            final(self).cache == Some(data),
            final(self).node_inputs == old(self).node_inputs,
            final(self).dependents == old(self).dependents,
            final(self).op == old(self).op,
    {
        self.cache = Some(data);
    }
}

} // verus!
