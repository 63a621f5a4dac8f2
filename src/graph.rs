use crate::id_list::{ids_of, IdList};
use crate::node::{GraphError, InputNode, NodeId, OperationNode};
use vstd::prelude::*;

verus! {

/// An incremental, memoized dataflow graph kept in one arena.
///
/// Nodes are appended and never removed; an operation node only reads nodes
/// created before it, so the graph is acyclic by construction. Each node
/// caches its value until an input it depends on is set again.
pub struct CompGraph<T, F> {
    pub nodes: Vec<OperationNode<T, F>>,
    pub input_names: Vec<String>,
    pub input_ids: Vec<usize>,
    /// Every application of a node's operation, in order, by node index.
    pub evaluations: Ghost<Seq<usize>>,
}

impl<T: Copy, F: Fn(Vec<T>) -> T> CompGraph<T, F> {
    /// Number of nodes in the arena.
    pub open spec fn len(&self) -> int {
        self.nodes@.len() as int
    }

    /// The ordered inputs of node `k`.
    pub open spec fn inputs_of(&self, k: int) -> Seq<usize> {
        ids_of(self.nodes@[k].node_inputs)
    }

    /// The nodes that read node `k`.
    pub open spec fn dependents_of(&self, k: int) -> Seq<usize> {
        ids_of(self.nodes@[k].dependents)
    }

    /// The cached value of node `k`; `None` means stale or never set.
    pub open spec fn cache_of(&self, k: int) -> Option<T> {
        self.nodes@[k].cache
    }

    /// Node `k` is an input node (it has no operation).
    pub open spec fn is_input(&self, k: int) -> bool {
        self.nodes@[k].op is None
    }

    /// The operation of node `k` (meaningful for operation nodes).
    pub open spec fn op_of(&self, k: int) -> F {
        self.nodes@[k].op->0
    }

    /// The values cached at the nodes `ids`, in order.
    pub open spec fn cached_values(&self, ids: Seq<usize>) -> Seq<T> {
        ids.map_values(|p: usize| self.cache_of(p as int)->0)
    }

    /// Node `k`'s operation may yield `v` on the cached values of its inputs.
    pub open spec fn op_yields(&self, k: int, v: T) -> bool {
        exists|a: Vec<T>|
            a@ == self.cached_values(self.inputs_of(k)) && #[trigger] call_ensures(
                self.op_of(k),
                (a,),
                v,
            )
    }

    /// Node `k` is `src` or reads, directly or transitively, from `src`.
    pub open spec fn depends_on(&self, k: int, src: int) -> bool
        decreases k,
    {
        if k < src || k < 0 {
            false
        } else if k == src {
            true
        } else {
            exists|i: int|
                0 <= i < self.inputs_of(k).len() && 0 <= #[trigger] self.inputs_of(k)[i] < k
                    && self.depends_on(self.inputs_of(k)[i] as int, src)
        }
    }

    /// Node `k` is, or reads directly or transitively from, an input node that
    /// holds no value.
    pub open spec fn reaches_unset(&self, k: int) -> bool
        decreases k,
    {
        if k < 0 {
            false
        } else if self.is_input(k) {
            self.cache_of(k) is None
        } else {
            exists|i: int|
                0 <= i < self.inputs_of(k).len() && 0 <= #[trigger] self.inputs_of(k)[i] < k
                    && self.reaches_unset(self.inputs_of(k)[i] as int)
        }
    }

    /// The shape of node `k`: its inputs, its operation and its dependents.
    pub open spec fn node_wf(&self, k: int) -> bool {
        &&& forall|i: int| 0 <= i < self.inputs_of(k).len() ==> #[trigger] self.inputs_of(k)[i] < k
        &&& self.is_input(k) ==> self.inputs_of(k).len() == 0
        &&& !self.is_input(k) ==> forall|a: Vec<T>| call_requires(self.op_of(k), (a,))
        &&& forall|d: usize|
            #[trigger] self.dependents_of(k).contains(d) <==> (k < d < self.len()
                && self.inputs_of(d as int).contains(k as usize))
        &&& k + self.dependents_of(k).len() < self.len()
    }

    /// A cached operation node holds what its operation yields on its inputs'
    /// cached values.
    pub open spec fn cache_consistent(&self, k: int) -> bool {
        (!self.is_input(k) && self.cache_of(k) is Some) ==> {
            &&& forall|i: int|
                0 <= i < self.inputs_of(k).len() ==> (#[trigger] self.cache_of(
                    self.inputs_of(k)[i] as int,
                )) is Some
            &&& self.op_yields(k, self.cache_of(k)->0)
        }
    }

    /// `name` is registered for an input.
    pub open spec fn registered(&self, name: Seq<char>) -> bool {
        exists|i: int| 0 <= i < self.input_names@.len() && #[trigger] self.input_names@[i]@ == name
    }

    /// The node registered under `name` is `id`.
    pub open spec fn registered_as(&self, name: Seq<char>, id: int) -> bool {
        exists|i: int|
            0 <= i < self.input_names@.len() && #[trigger] self.input_names@[i]@ == name
                && self.input_ids@[i] == id
    }

    /// The node registered under `name` (meaningful when `name` is registered).
    pub open spec fn input_id(&self, name: Seq<char>) -> int {
        let i = choose|i: int|
            0 <= i < self.input_names@.len() && #[trigger] self.input_names@[i]@ == name;
        self.input_ids@[i] as int
    }

    /// Names are unique and each names an input node of the arena.
    pub open spec fn registry_wf(&self) -> bool {
        &&& self.input_names@.len() == self.input_ids@.len()
        &&& forall|i: int|
            0 <= i < self.input_ids@.len() ==> #[trigger] self.input_ids@[i] < self.len()
                && self.is_input(self.input_ids@[i] as int)
        &&& forall|i: int, j: int|
            0 <= i < self.input_names@.len() && 0 <= j < self.input_names@.len() && i != j
                ==> #[trigger] self.input_names@[i]@ != #[trigger] self.input_names@[j]@
    }

    /// Well-formedness: registry, shape of every node, and cached values
    /// consistent with the operations.
    pub open spec fn wf(&self) -> bool {
        &&& self.registry_wf()
        &&& forall|k: int| 0 <= k < self.len() ==> #[trigger] self.node_wf(k)
        &&& forall|k: int| 0 <= k < self.len() ==> #[trigger] self.cache_consistent(k)
    }

    /// `self` has the nodes, operations and names of `other`.
    pub open spec fn same_shape(&self, other: &Self) -> bool {
        &&& self.len() == other.len()
        &&& self.input_names@ == other.input_names@
        &&& self.input_ids@ == other.input_ids@
        &&& forall|k: int|
            0 <= k < self.len() ==> {
                &&& (#[trigger] self.nodes@[k]).node_inputs == other.nodes@[k].node_inputs
                &&& self.nodes@[k].dependents == other.nodes@[k].dependents
                &&& self.nodes@[k].op == other.nodes@[k].op
            }
    }

    /// `self` is `old` after every node depending on `src` went stale.
    pub open spec fn is_invalidated_from(&self, old: &Self, src: int) -> bool {
        &&& self.same_shape(old)
        &&& self.evaluations == old.evaluations
        &&& forall|k: int|
            0 <= k < self.len() ==> #[trigger] self.cache_of(k) == if old.depends_on(k, src) {
                None
            } else {
                old.cache_of(k)
            }
    }

    /// `self` is `old` after input node `id` received `data`: `id` holds it,
    /// every other node depending on `id` is stale, and the rest is unchanged.
    pub open spec fn is_set_from(&self, old: &Self, id: int, data: T) -> bool {
        &&& self.same_shape(old)
        &&& self.evaluations == old.evaluations
        &&& forall|k: int|
            0 <= k < self.len() ==> #[trigger] self.cache_of(k) == if k == id {
                Some(data)
            } else if old.depends_on(k, id) {
                None
            } else {
                old.cache_of(k)
            }
    }

    /// The nodes whose operation was applied since `old`, in order.
    pub open spec fn evaluated_since(&self, old: &Self) -> Seq<usize> {
        self.evaluations@.skip(old.evaluations@.len() as int)
    }

    /// `self` is `old` after evaluation work: the shape and every input value
    /// are kept, no cached value is dropped or changed, and the operations
    /// applied since `old` are exactly those of the nodes that went from stale
    /// to cached, each applied once.
    pub open spec fn evolves_from(&self, old: &Self) -> bool {
        &&& self.same_shape(old)
        &&& forall|k: int|
            0 <= k < self.len() && (old.is_input(k) || old.cache_of(k) is Some)
                ==> #[trigger] self.cache_of(k) == old.cache_of(k)
        &&& old.evaluations@.len() <= self.evaluations@.len()
        &&& self.evaluations@.subrange(0, old.evaluations@.len() as int) == old.evaluations@
        &&& self.evaluated_since(old).no_duplicates()
        &&& forall|k: usize|
            #[trigger] self.evaluated_since(old).contains(k) <==> (k < self.len()
                && old.cache_of(k as int) is None && self.cache_of(k as int) is Some)
    }

    /// `self` and `r` are what `compute(node)` leaves and returns on `old`.
    pub open spec fn is_computed_from(&self, old: &Self, node: NodeId, r: Result<T, GraphError>) -> bool {
        &&& self.wf()
        &&& node.0 >= old.len() ==> r == Err::<T, GraphError>(GraphError::InvalidReference)
            && *self == *old
        &&& node.0 < old.len() ==> {
            &&& self.evolves_from(old)
            &&& r is Err <==> old.reaches_unset(node.0 as int)
            &&& r is Err ==> r == Err::<T, GraphError>(GraphError::UnsetInput)
            &&& r matches Ok(v) ==> self.cache_of(node.0 as int) == Some(v)
            &&& old.cache_of(node.0 as int) is Some ==> r == Ok::<T, GraphError>(
                old.cache_of(node.0 as int)->0,
            ) && *self == *old
        }
    }

    /// `self` and `r` are what `set_input(name, data)` leaves and returns on `old`.
    pub open spec fn is_input_set_from(&self, old: &Self, name: Seq<char>, data: T, r: Result<(), GraphError>) -> bool {
        &&& self.wf()
        &&& !old.registered(name) ==> r == Err::<(), GraphError>(GraphError::UnknownInputName)
            && *self == *old
        &&& old.registered(name) ==> r == Ok::<(), GraphError>(()) && self.is_set_from(
            old,
            old.input_id(name),
            data,
        )
    }

    /// Node `k` reads directly from some node below `bound` that depends on `src`.
    pub open spec fn reads_affected(&self, k: int, src: int, bound: int) -> bool {
        exists|i: int|
            0 <= i < self.inputs_of(k).len() && (#[trigger] self.inputs_of(k)[i]) < bound
                && self.depends_on(self.inputs_of(k)[i] as int, src)
    }

    /// Number of stale nodes among the first `m`.
    pub open spec fn stale_count(&self, m: int) -> nat
        decreases m,
    {
        if m <= 0 {
            0
        } else {
            self.stale_count(m - 1) + if self.cache_of(m - 1) is None {
                1nat
            } else {
                0nat
            }
        }
    }

    /// Creates an empty graph.
    pub fn new() -> (r: Self)
        ensures
            r.wf(),
            r.len() == 0,
            r.input_names@.len() == 0,
            r.evaluations@ == Seq::<usize>::empty(),
    {
        CompGraph {
            nodes: Vec::new(),
            input_names: Vec::new(),
            input_ids: Vec::new(),
            evaluations: Ghost(Seq::empty()),
        }
    }

    /// Number of nodes in the arena.
    pub fn node_count(&self) -> (r: usize)
        ensures
            r == self.len(),
    {
        self.nodes.len()
    }

    /// The cached value of `node`, `None` when stale or never set.
    pub fn cache(&self, node: NodeId) -> (r: Option<T>)
        requires
            node.0 < self.len(),
        ensures
            r == self.cache_of(node.0 as int),
    {
        self.nodes[node.0].cached()
    }

    /// Appends a new input node registered under `name`.
    pub fn add_input_node(&mut self, name: &str) -> (r: Result<NodeId, GraphError>)
        requires
            old(self).wf(),
        ensures
            final(self).wf(),
            final(self).evaluations == old(self).evaluations,
            old(self).registered(name@) ==> r == Err::<NodeId, GraphError>(
                GraphError::DuplicateInputName,
            ) && *final(self) == *old(self),
            !old(self).registered(name@) ==> {
                &&& r == Ok::<NodeId, GraphError>(NodeId(old(self).len() as usize))
                &&& final(self).len() == old(self).len() + 1
                &&& final(self).is_input(old(self).len())
                &&& final(self).cache_of(old(self).len()) is None
                &&& final(self).registered_as(name@, old(self).len())
                &&& forall|k: int|
                    0 <= k < old(self).len() ==> #[trigger] final(self).nodes@[k]
                        == old(self).nodes@[k]
                &&& forall|s: Seq<char>|
                    s != name@ ==> #[trigger] final(self).registered(s) == old(self).registered(s)
            },
    {
        let key = name.to_owned();
        if self.find_input(&key).is_some() {
            return Err(GraphError::DuplicateInputName);
        }
        let ghost pre = *self;
        let n = self.nodes.len();
        self.nodes.push(InputNode::new_input());
        self.input_names.push(key);
        self.input_ids.push(n);
        proof {
            assert forall|k: int| 0 <= k < n implies #[trigger] self.nodes@[k] == pre.nodes@[k] by {}
            assert(self.registered_as(name@, n as int)) by {
                assert(self.input_names@[self.input_names@.len() - 1]@ == name@);
            }
            assert forall|s: Seq<char>| s != name@ implies #[trigger] self.registered(s)
                == pre.registered(s) by {
                if pre.registered(s) {
                    let i = choose|i: int|
                        0 <= i < pre.input_names@.len() && #[trigger] pre.input_names@[i]@ == s;
                    assert(self.input_names@[i]@ == s);
                }
                if self.registered(s) {
                    let i = choose|i: int|
                        0 <= i < self.input_names@.len() && #[trigger] self.input_names@[i]@ == s;
                    assert(pre.input_names@[i]@ == s);
                }
            }
            assert forall|k: int| 0 <= k < self.len() implies #[trigger] self.node_wf(k) by {
                if k < n {
                    assert(pre.node_wf(k));
                    assert(self.inputs_of(k) == pre.inputs_of(k));
                    assert(self.dependents_of(k) == pre.dependents_of(k));
                    assert(self.op_of(k) == pre.op_of(k));
                    assert(k + self.dependents_of(k).len() < self.len());
                    assert forall|d: usize|
                        #[trigger] self.dependents_of(k).contains(d) <==> (k < d < self.len()
                            && self.inputs_of(d as int).contains(k as usize)) by {
                        if d == n {
                            assert(self.inputs_of(d as int).len() == 0);
                        } else if k < d < n {
                            assert(self.inputs_of(d as int) == pre.inputs_of(d as int));
                        }
                    }
                    assert(self.node_wf(k));
                } else {
                    assert(self.inputs_of(k).len() == 0);
                    assert(self.dependents_of(k).len() == 0);
                    assert(self.is_input(k));
                    assert(self.node_wf(k));
                }
            }
            assert forall|k: int| 0 <= k < self.len() implies #[trigger] self.cache_consistent(k) by {
                if k < n {
                    assert(pre.node_wf(k));
                    assert(pre.cache_consistent(k));
                    let cur = *self;
                    Self::lemma_consistent_stable(&pre, &cur, k);
                } else {
                    assert(self.is_input(k));
                }
            }
        }
        Ok(NodeId(n))
    }

    /// Registers `name` as a further name of the input node `id`.
    pub fn register_input(&mut self, name: &str, id: NodeId) -> (r: Result<(), GraphError>)
        requires
            old(self).wf(),
        ensures
            final(self).wf(),
            final(self).evaluations == old(self).evaluations,
            (id.0 >= old(self).len() || !old(self).is_input(id.0 as int)) ==> r == Err::<
                (),
                GraphError,
            >(GraphError::InvalidReference) && *final(self) == *old(self),
            (id.0 < old(self).len() && old(self).is_input(id.0 as int) && old(self).registered(
                name@,
            )) ==> r == Err::<(), GraphError>(GraphError::DuplicateInputName) && *final(self)
                == *old(self),
            (id.0 < old(self).len() && old(self).is_input(id.0 as int) && !old(self).registered(
                name@,
            )) ==> {
                &&& r == Ok::<(), GraphError>(())
                &&& final(self).nodes@ == old(self).nodes@
                &&& final(self).registered_as(name@, id.0 as int)
                &&& forall|s: Seq<char>|
                    s != name@ ==> #[trigger] final(self).registered(s) == old(self).registered(s)
            },
    {
        if id.0 >= self.nodes.len() || !self.nodes[id.0].is_input_node() {
            return Err(GraphError::InvalidReference);
        }
        let key = name.to_owned();
        if self.find_input(&key).is_some() {
            return Err(GraphError::DuplicateInputName);
        }
        let ghost pre = *self;
        self.input_names.push(key);
        self.input_ids.push(id.0);
        proof {
            assert(self.registered_as(name@, id.0 as int)) by {
                assert(self.input_names@[self.input_names@.len() - 1]@ == name@);
            }
            assert forall|s: Seq<char>| s != name@ implies #[trigger] self.registered(s)
                == pre.registered(s) by {
                if pre.registered(s) {
                    let i = choose|i: int|
                        0 <= i < pre.input_names@.len() && #[trigger] pre.input_names@[i]@ == s;
                    assert(self.input_names@[i]@ == s);
                }
                if self.registered(s) {
                    let i = choose|i: int|
                        0 <= i < self.input_names@.len() && #[trigger] self.input_names@[i]@ == s;
                    assert(pre.input_names@[i]@ == s);
                }
            }
            assert(self.nodes@ == pre.nodes@);
            let cur = *self;
            assert forall|k: int| 0 <= k < cur.len() implies #[trigger] cur.node_wf(k) by {
                assert(pre.node_wf(k));
                assert(cur.inputs_of(k) == pre.inputs_of(k));
                assert(cur.dependents_of(k) == pre.dependents_of(k));
                assert(cur.op_of(k) == pre.op_of(k));
                assert forall|d: usize|
                    #[trigger] cur.dependents_of(k).contains(d) <==> (k < d < cur.len()
                        && cur.inputs_of(d as int).contains(k as usize)) by {
                    if d < cur.len() {
                        assert(cur.inputs_of(d as int) == pre.inputs_of(d as int));
                    }
                }
            }
            assert forall|k: int| 0 <= k < cur.len() implies #[trigger] cur.cache_consistent(k) by {
                assert(pre.node_wf(k));
                assert(pre.cache_consistent(k));
                Self::lemma_consistent_stable(&pre, &cur, k);
            }
        }
        Ok(())
    }

    /// Appends an operation node that applies `op` to the values of `inputs`,
    /// in order, and records it as a dependent of each of them.
    pub fn add_node(&mut self, inputs: Vec<NodeId>, op: F) -> (r: Result<NodeId, GraphError>)
        requires
            old(self).wf(),
            forall|a: Vec<T>| call_requires(op, (a,)),
        ensures
            final(self).wf(),
            final(self).evaluations == old(self).evaluations,
            (exists|i: int| 0 <= i < inputs@.len() && #[trigger] inputs@[i].0 >= old(self).len())
                ==> r == Err::<NodeId, GraphError>(GraphError::InvalidReference) && *final(self)
                == *old(self),
            (forall|i: int| 0 <= i < inputs@.len() ==> #[trigger] inputs@[i].0 < old(self).len())
                ==> {
                &&& r == Ok::<NodeId, GraphError>(NodeId(old(self).len() as usize))
                &&& final(self).len() == old(self).len() + 1
                &&& !final(self).is_input(old(self).len())
                &&& final(self).op_of(old(self).len()) == op
                &&& final(self).cache_of(old(self).len()) is None
                &&& final(self).inputs_of(old(self).len()).len() == inputs@.len()
                &&& forall|i: int|
                    0 <= i < inputs@.len() ==> #[trigger] final(self).inputs_of(old(self).len())[i]
                        == inputs@[i].0
                &&& forall|k: int|
                    0 <= k < old(self).len() ==> {
                        &&& #[trigger] final(self).cache_of(k) == old(self).cache_of(k)
                        &&& final(self).nodes@[k].node_inputs == old(self).nodes@[k].node_inputs
                        &&& final(self).nodes@[k].op == old(self).nodes@[k].op
                    }
                &&& final(self).input_names@ == old(self).input_names@
                &&& final(self).input_ids@ == old(self).input_ids@
            },
    {
        let n = self.nodes.len();
        let mut i: usize = 0;
        while i < inputs.len()
            invariant
                n == self.len(),
                *self == *old(self),
                self.wf(),
                i <= inputs@.len(),
                forall|j: int| 0 <= j < i ==> #[trigger] inputs@[j].0 < n,
            decreases inputs@.len() - i,
        {
            if inputs[i].0 >= n {
                return Err(GraphError::InvalidReference);
            }
            i += 1;
        }
        let ghost pre = *self;
        let mut node_inputs = IdList::new();
        let mut i: usize = 0;
        while i < inputs.len()
            invariant
                pre.wf(),
                n == pre.len(),
                n == self.len(),
                i <= inputs@.len(),
                forall|j: int| 0 <= j < inputs@.len() ==> #[trigger] inputs@[j].0 < n,
                ids_of(node_inputs).len() == i,
                forall|j: int| 0 <= j < i ==> #[trigger] ids_of(node_inputs)[j] == inputs@[j].0,
                self.input_names@ == pre.input_names@,
                self.input_ids@ == pre.input_ids@,
                self.evaluations == pre.evaluations,
                forall|k: int|
                    0 <= k < n ==> {
                        &&& (#[trigger] self.nodes@[k]).node_inputs == pre.nodes@[k].node_inputs
                        &&& self.nodes@[k].op == pre.nodes@[k].op
                        &&& self.nodes@[k].cache == pre.nodes@[k].cache
                        &&& self.dependents_of(k) == if ids_of(node_inputs).contains(k as usize) {
                            pre.dependents_of(k).push(n as usize)
                        } else {
                            pre.dependents_of(k)
                        }
                    },
            decreases inputs@.len() - i,
        {
            let p = inputs[i].0;
            let ghost before = ids_of(node_inputs);
            assert(pre.node_wf(p as int));
            let dl = self.nodes[p].dependents.len();
            let fresh = if dl == 0 {
                true
            } else {
                self.nodes[p].dependents.get(dl - 1) != n
            };
            if fresh {
                proof {
                    if before.contains(p) {
                        assert(self.dependents_of(p as int)[dl - 1] == n);
                    }
                }
                self.nodes[p].dependents.push(n);
            } else {
                proof {
                    if !before.contains(p) {
                        assert(pre.dependents_of(p as int).contains(n as usize));
                    }
                }
            }
            node_inputs.push(p);
            proof {
                assert forall|k: int| 0 <= k < n implies #[trigger] ids_of(node_inputs).contains(
                    k as usize,
                ) == (before.contains(k as usize) || k == p) by {
                    if before.contains(k as usize) {
                        let j = choose|j: int| 0 <= j < before.len() && before[j] == k as usize;
                        assert(ids_of(node_inputs)[j] == k);
                    }
                    if k == p {
                        assert(ids_of(node_inputs)[i as int] == k);
                    }
                    if ids_of(node_inputs).contains(k as usize) {
                        let j = choose|j: int|
                            0 <= j < ids_of(node_inputs).len() && ids_of(node_inputs)[j] == k as usize;
                        if j < i {
                            assert(before[j] == k);
                        }
                    }
                }
            }
            i += 1;
        }
        self.nodes.push(OperationNode::new(node_inputs, op));
        proof {
            let view = ids_of(node_inputs);
            assert forall|k: int| 0 <= k < self.len() implies #[trigger] self.node_wf(k) by {
                if k < n {
                    assert(pre.node_wf(k));
                    assert(self.op_of(k) == pre.op_of(k));
                    assert(self.inputs_of(k) == pre.inputs_of(k));
                    assert forall|d: usize|
                        #[trigger] self.dependents_of(k).contains(d) <==> (k < d < self.len()
                            && self.inputs_of(d as int).contains(k as usize)) by {
                        if d < n {
                            assert(self.inputs_of(d as int) == pre.inputs_of(d as int));
                            if view.contains(k as usize) {
                                if pre.dependents_of(k).contains(d) {
                                    let j = choose|j: int|
                                        0 <= j < pre.dependents_of(k).len()
                                            && pre.dependents_of(k)[j] == d;
                                    assert(self.dependents_of(k)[j] == d);
                                }
                                if self.dependents_of(k).contains(d) {
                                    let j = choose|j: int|
                                        0 <= j < self.dependents_of(k).len()
                                            && self.dependents_of(k)[j] == d;
                                    assert(pre.dependents_of(k)[j] == d);
                                }
                            }
                        } else if d == n {
                            assert(self.inputs_of(d as int) == view);
                            if view.contains(k as usize) {
                                assert(self.dependents_of(k).last() == n);
                            } else {
                                assert(!pre.dependents_of(k).contains(d));
                            }
                        } else if self.dependents_of(k).contains(d) {
                            let j = choose|j: int|
                                0 <= j < self.dependents_of(k).len() && self.dependents_of(k)[j] == d;
                            if j < pre.dependents_of(k).len() {
                                assert(pre.dependents_of(k)[j] == d);
                                assert(pre.dependents_of(k).contains(d));
                            }
                        }
                    }
                } else {
                    assert(self.inputs_of(k) == view);
                    assert(self.dependents_of(k).len() == 0);
                    assert(!self.is_input(k));
                    assert(self.op_of(k) == op);
                    assert forall|d: usize|
                        #[trigger] self.dependents_of(k).contains(d) <==> (k < d < self.len()
                            && self.inputs_of(d as int).contains(k as usize)) by {}
                }
            }
            assert forall|k: int| 0 <= k < self.len() implies #[trigger] self.cache_consistent(k) by {
                if k < n {
                    assert(pre.node_wf(k));
                    assert(pre.cache_consistent(k));
                    let cur = *self;
                    Self::lemma_consistent_stable(&pre, &cur, k);
                }
            }
        }
        Ok(NodeId(n))
    }

    /// Marks `node` and every node that depends on it stale.
    pub fn invalidate_node(&mut self, node: NodeId) -> (r: Result<(), GraphError>)
        requires
            old(self).wf(),
        ensures
            final(self).wf(),
            node.0 >= old(self).len() ==> r == Err::<(), GraphError>(GraphError::InvalidReference)
                && *final(self) == *old(self),
            node.0 < old(self).len() ==> r == Ok::<(), GraphError>(()) && final(self).is_invalidated_from(old(self), node.0 as int),
    {
        if node.0 >= self.nodes.len() {
            return Err(GraphError::InvalidReference);
        }
        self.invalidate(node.0);
        Ok(())
    }

    /// Stores `data` in the input registered under `name`, after marking
    /// stale every node that depends on it, whether or not the value changed.
    pub fn set_input(&mut self, name: &str, data: T) -> (r: Result<(), GraphError>)
        requires
            old(self).wf(),
        ensures
            final(self).is_input_set_from(old(self), name@, data, r),
    {
        let key = name.to_owned();
        let found = self.find_input(&key);
        match found {
            None => Err(GraphError::UnknownInputName),
            Some(i) => {
                let id = self.input_ids[i];
                let ghost pre = *self;
                proof {
                    let c = choose|c: int|
                        0 <= c < pre.input_names@.len() && #[trigger] pre.input_names@[c]@ == name@;
                    if c != i {
                        assert(pre.input_names@[c]@ != pre.input_names@[i as int]@);
                    }
                    assert(pre.input_id(name@) == id);
                    assert(pre.is_input(id as int));
                }
                self.invalidate(id);
                let ghost mid = *self;
                self.nodes[id].set(data);
                proof {
                    assert forall|k: int| 0 <= k < self.len() && k != id implies #[trigger] self.nodes@[k]
                        == mid.nodes@[k] by {}
                    Self::lemma_wf_shape(&mid, self);
                    assert forall|k: int| 0 <= k < self.len() implies #[trigger] self.cache_consistent(k) by {
                        assert(mid.node_wf(k));
                        assert(mid.cache_consistent(k));
                        if k != id && !mid.is_input(k) && mid.cache_of(k) is Some {
                            assert forall|q: int| 0 <= q < mid.inputs_of(k).len() implies self.cache_of(
                                #[trigger] mid.inputs_of(k)[q] as int,
                            ) == mid.cache_of(mid.inputs_of(k)[q] as int) by {
                                if mid.inputs_of(k)[q] == id {
                                    assert(pre.depends_on(id as int, id as int));
                                    assert(pre.inputs_of(k)[q] == id);
                                    assert(pre.depends_on(k, id as int));
                                }
                            }
                            let cur = *self;
                            Self::lemma_consistent_stable(&mid, &cur, k);
                        } else if k == id {
                            assert(self.is_input(k));
                        }
                    }
                    assert forall|k: int| 0 <= k < self.len() implies #[trigger] self.cache_of(k)
                        == if k == id {
                        Some(data)
                    } else if pre.depends_on(k, id as int) {
                        None
                    } else {
                        pre.cache_of(k)
                    } by {
                        if k != id {
                            assert(mid.cache_of(k) == self.cache_of(k));
                        }
                    }
                    assert forall|k: int| 0 <= k < self.len() implies {
                        &&& (#[trigger] self.nodes@[k]).node_inputs == pre.nodes@[k].node_inputs
                        &&& self.nodes@[k].dependents == pre.nodes@[k].dependents
                        &&& self.nodes@[k].op == pre.nodes@[k].op
                    } by {
                        assert(mid.nodes@[k].node_inputs == pre.nodes@[k].node_inputs);
                    }
                }
                Ok(())
            },
        }
    }

    /// The up-to-date value of `node`, evaluating only what is stale.
    pub fn compute(&mut self, node: NodeId) -> (r: Result<T, GraphError>)
        requires
            old(self).wf(),
        ensures
            final(self).is_computed_from(old(self), node, r),
    {
        if node.0 >= self.nodes.len() {
            return Err(GraphError::InvalidReference);
        }
        self.calculate_node(node.0)
    }

    /// Index of the registration of `name`, if any.
    fn find_input(&self, name: &String) -> (r: Option<usize>)
        requires
            self.input_names@.len() == self.input_ids@.len(),
        ensures
            r is None <==> !self.registered(name@),
            r matches Some(i) ==> i < self.input_names@.len() && self.input_names@[i as int]@
                == name@,
    {
        let mut i: usize = 0;
        while i < self.input_names.len()
            invariant
                i <= self.input_names@.len(),
                forall|j: int| 0 <= j < i ==> #[trigger] self.input_names@[j]@ != name@,
            decreases self.input_names@.len() - i,
        {
            if self.input_names[i] == *name {
                return Some(i);
            }
            i += 1;
        }
        None
    }

    /// Marks `src` and every node that depends on it stale, visiting each
    /// node once in index order and following the dependent lists.
    fn invalidate(&mut self, src: usize)
        requires
            old(self).wf(),
            src < old(self).len(),
        ensures
            final(self).wf(),
            final(self).same_shape(old(self)),
            final(self).evaluations == old(self).evaluations,
            forall|k: int|
                0 <= k < old(self).len() ==> #[trigger] final(self).cache_of(k) == if old(self).depends_on(k, src as int) {
                    None
                } else {
                    old(self).cache_of(k)
                },
    {
        let ghost pre = *self;
        let n = self.nodes.len();
        let mut marked: Vec<bool> = Vec::new();
        let mut t: usize = 0;
        while t < n
            invariant
                t <= n,
                marked@.len() == t,
                forall|q: int| 0 <= q < t ==> #[trigger] marked@[q] == (q == src),
            decreases n - t,
        {
            marked.push(t == src);
            t += 1;
        }
        let mut j: usize = src;
        while j < n
            invariant
                pre.wf(),
                n == pre.len(),
                src < n,
                src <= j <= n,
                marked@.len() == n,
                self.same_shape(&pre),
                self.evaluations == pre.evaluations,
                forall|k: int| 0 <= k < j ==> #[trigger] marked@[k] == pre.depends_on(k, src as int),
                forall|k: int|
                    j <= k < n ==> #[trigger] marked@[k] == (k == src || pre.reads_affected(
                        k,
                        src as int,
                        j as int,
                    )),
                forall|k: int|
                    0 <= k < n ==> #[trigger] self.cache_of(k) == if k < j && pre.depends_on(
                        k,
                        src as int,
                    ) {
                        None
                    } else {
                        pre.cache_of(k)
                    },
            decreases n - j,
        {
            proof {
                assert(pre.node_wf(j as int));
                assert(marked@[j as int] == pre.depends_on(j as int, src as int));
            }
            if marked[j] {
                let ghost before = *self;
                self.nodes[j].invalidate_cache();
                proof {
                    assert(pre.depends_on(j as int, src as int));
                    assert(self.cache_of(j as int) is None);
                    assert forall|k: int| 0 <= k < n && k != j implies #[trigger] self.cache_of(k)
                        == before.cache_of(k) by {}
                }
                let cnt = self.nodes[j].dependents.len();
                let mut t: usize = 0;
                while t < cnt
                    invariant
                        pre.wf(),
                        n == pre.len(),
                        src <= j < n,
                        t <= cnt,
                        cnt == pre.dependents_of(j as int).len(),
                        marked@.len() == n,
                        self.same_shape(&pre),
                        self.evaluations == pre.evaluations,
                        forall|k: int|
                            0 <= k < n ==> #[trigger] self.cache_of(k) == if k <= j
                                && pre.depends_on(k, src as int) {
                                None
                            } else {
                                pre.cache_of(k)
                            },
                        pre.depends_on(j as int, src as int),
                        forall|k: int|
                            0 <= k <= j ==> #[trigger] marked@[k] == pre.depends_on(k, src as int),
                        forall|k: int|
                            j < k < n ==> #[trigger] marked@[k] == (pre.reads_affected(
                                k,
                                src as int,
                                j as int,
                            ) || pre.dependents_of(j as int).subrange(0, t as int).contains(
                                k as usize,
                            )),
                    decreases cnt - t,
                {
                    let d = self.nodes[j].dependents.get(t);
                    proof {
                        assert(pre.node_wf(j as int));
                        assert(pre.dependents_of(j as int)[t as int] == d);
                        assert(pre.dependents_of(j as int).contains(d));
                    }
                    marked.set(d, true);
                    proof {
                        let dv = pre.dependents_of(j as int);
                        let s0 = dv.subrange(0, t as int);
                        let s1 = dv.subrange(0, t + 1);
                        assert forall|k: int| j < k < n implies #[trigger] s1.contains(k as usize)
                            == (s0.contains(k as usize) || k == d) by {
                            if s0.contains(k as usize) {
                                let q = choose|q: int| 0 <= q < s0.len() && s0[q] == k as usize;
                                assert(s1[q] == k);
                            }
                            if k == d {
                                assert(s1[t as int] == k);
                            }
                            if s1.contains(k as usize) {
                                let q = choose|q: int| 0 <= q < s1.len() && s1[q] == k as usize;
                                if q < t {
                                    assert(s0[q] == k);
                                }
                            }
                        }
                    }
                    t += 1;
                }
                proof {
                    let dv = pre.dependents_of(j as int);
                    assert(dv.subrange(0, cnt as int) == dv);
                    assert forall|k: int| j < k < n implies #[trigger] marked@[k] == (k == src
                        || pre.reads_affected(k, src as int, j + 1)) by {
                        Self::lemma_reads_step(&pre, k, src as int, j as int);
                    }
                }
            } else {
                proof {
                    assert forall|k: int| j < k < n implies #[trigger] marked@[k] == (k == src
                        || pre.reads_affected(k, src as int, j + 1)) by {
                        Self::lemma_reads_step(&pre, k, src as int, j as int);
                    }
                }
            }
            j += 1;
        }
        proof {
            Self::lemma_wf_shape(&pre, self);
            assert forall|k: int| 0 <= k < self.len() implies #[trigger] self.cache_consistent(k) by {
                assert(pre.node_wf(k));
                assert(pre.cache_consistent(k));
                if !pre.depends_on(k, src as int) {
                    assert forall|i: int| 0 <= i < pre.inputs_of(k).len() implies self.cache_of(
                        #[trigger] pre.inputs_of(k)[i] as int,
                    ) == pre.cache_of(pre.inputs_of(k)[i] as int) by {
                        let q = pre.inputs_of(k)[i] as int;
                        if pre.depends_on(q, src as int) {
                            assert(k > src);
                        }
                    }
                    let cur = *self;
                    Self::lemma_consistent_stable(&pre, &cur, k);
                }
            }
        }
    }

    /// The cached values of the inputs of operation node `id`, in order, or
    /// the first input that is stale.
    fn input_values(&self, id: usize) -> (r: Result<Vec<T>, usize>)
        requires
            self.wf(),
            id < self.len(),
        ensures
            r matches Ok(args) ==> {
                &&& args@ == self.cached_values(self.inputs_of(id as int))
                &&& forall|i: int|
                    0 <= i < self.inputs_of(id as int).len() ==> (#[trigger] self.cache_of(
                        self.inputs_of(id as int)[i] as int,
                    )) is Some
            },
            r matches Err(p) ==> self.inputs_of(id as int).contains(p) && p < id
                && self.cache_of(p as int) is None,
    {
        proof {
            assert(self.node_wf(id as int));
        }
        let cnt = self.nodes[id].node_inputs.len();
        let mut args: Vec<T> = Vec::new();
        let mut j: usize = 0;
        while j < cnt
            invariant
                self.wf(),
                id < self.len(),
                self.node_wf(id as int),
                j <= cnt,
                cnt == self.inputs_of(id as int).len(),
                args@.len() == j,
                forall|i: int|
                    0 <= i < j ==> #[trigger] self.cache_of(self.inputs_of(id as int)[i] as int)
                        == Some(args@[i]),
            decreases cnt - j,
        {
            let p = self.nodes[id].node_inputs.get(j);
            match self.nodes[p].cached() {
                Some(v) => {
                    args.push(v);
                },
                None => {
                    proof {
                        assert(self.inputs_of(id as int)[j as int] < id);
                    }
                    return Err(p);
                },
            }
            j += 1;
        }
        proof {
            assert(args@ =~= self.cached_values(self.inputs_of(id as int)));
        }
        Ok(args)
    }

    /// Applies the operation of the stale node `id` to `args`, the cached
    /// values of its inputs, and caches the result.
    fn apply_operation(&mut self, id: usize, args: Vec<T>)
        requires
            old(self).wf(),
            id < old(self).len(),
            !old(self).is_input(id as int),
            old(self).cache_of(id as int) is None,
            forall|i: int|
                0 <= i < old(self).inputs_of(id as int).len() ==> (#[trigger] old(self).cache_of(
                    old(self).inputs_of(id as int)[i] as int,
                )) is Some,
            args@ == old(self).cached_values(old(self).inputs_of(id as int)),
        ensures
            final(self).wf(),
            final(self).evolves_from(old(self)),
            final(self).cache_of(id as int) is Some,
            forall|k: int|
                0 <= k < old(self).len() && k != id ==> #[trigger] final(self).cache_of(k) == old(self).cache_of(k),
    {
        let ghost vals = args@;
        let ghost arg_vec = args;
        proof {
            assert(old(self).node_wf(id as int));
            assert(vals =~= self.cached_values(self.inputs_of(id as int)));
            assert(call_requires(self.op_of(id as int), (args,)));
        }
        let ghost before = *self;
        let v = self.nodes[id].compute(args);
        self.nodes[id].set(v);
        self.evaluations = Ghost(self.evaluations@.push(id));
        proof {
            assert forall|k: int| 0 <= k < self.len() && k != id implies #[trigger] self.nodes@[k]
                == before.nodes@[k] by {}
            assert(self.evaluated_since(&before) =~= seq![id]);
            assert forall|k: usize| #[trigger] self.evaluated_since(&before).contains(k) <==> (k
                < self.len() && before.cache_of(k as int) is None && self.cache_of(k as int) is Some) by {
                if k == id {
                    assert(seq![id][0] == k);
                } else if k < self.len() {
                    assert(self.cache_of(k as int) == before.cache_of(k as int));
                }
            }
            assert(self.evaluations@.subrange(0, before.evaluations@.len() as int)
                =~= before.evaluations@);
            assert forall|k: int| 0 <= k < self.len() implies {
                &&& (#[trigger] self.nodes@[k]).node_inputs == before.nodes@[k].node_inputs
                &&& self.nodes@[k].dependents == before.nodes@[k].dependents
                &&& self.nodes@[k].op == before.nodes@[k].op
            } by {}
            Self::lemma_wf_shape(&before, self);
            assert forall|k: int| 0 <= k < self.len() implies #[trigger] self.cache_consistent(k) by {
                assert(before.node_wf(k));
                assert(before.cache_consistent(k));
                if k == id {
                    assert forall|i: int| 0 <= i < self.inputs_of(k).len() implies (
                    #[trigger] self.cache_of(self.inputs_of(k)[i] as int)) is Some by {
                        assert(before.inputs_of(k)[i] < k);
                        assert(before.cache_of(before.inputs_of(k)[i] as int) is Some);
                    }
                    assert(self.cached_values(self.inputs_of(k)) =~= vals);
                    assert(call_ensures(self.op_of(k), (arg_vec,), v));
                    assert(self.op_yields(k, v));
                } else if !before.is_input(k) && before.cache_of(k) is Some {
                    assert forall|q: int| 0 <= q < before.inputs_of(k).len() implies self.cache_of(
                        #[trigger] before.inputs_of(k)[q] as int,
                    ) == before.cache_of(before.inputs_of(k)[q] as int) by {
                        assert((before.cache_of(before.inputs_of(k)[q] as int)) is Some);
                    }
                    let cur = *self;
                    Self::lemma_consistent_stable(&before, &cur, k);
                }
            }
        }
    }

    /// Brings node `id` up to date with an explicit stack of pending nodes:
    /// the top is evaluated once all its inputs are cached, otherwise its
    /// first stale input is pushed. Each node on the stack reads the next,
    /// so indices strictly decrease towards the top.
    fn calculate_node(&mut self, id: usize) -> (r: Result<T, GraphError>)
        requires
            old(self).wf(),
            id < old(self).len(),
        ensures
            final(self).wf(),
            final(self).evolves_from(old(self)),
            forall|k: int| id < k < old(self).len() ==> #[trigger] final(self).cache_of(k) == old(self).cache_of(k),
            r is Err <==> old(self).reaches_unset(id as int),
            r is Err ==> r == Err::<T, GraphError>(GraphError::UnsetInput),
            r matches Ok(v) ==> final(self).cache_of(id as int) == Some(v),
            old(self).cache_of(id as int) is Some ==> r == Ok::<T, GraphError>(
                old(self).cache_of(id as int)->0,
            ) && *final(self) == *old(self),
    {
        let ghost pre = *self;
        proof {
            Self::lemma_evolves_refl(&pre);
        }
        if let Some(v) = self.nodes[id].cached() {
            proof {
                Self::lemma_cached_not_unset(&pre, id as int);
            }
            return Ok(v);
        }
        let mut stack: Vec<usize> = Vec::new();
        stack.push(id);
        while stack.len() > 0
            invariant
                pre == *old(self),
                pre.wf(),
                self.wf(),
                self.evolves_from(&pre),
                id < pre.len(),
                forall|k: int| id < k < pre.len() ==> #[trigger] self.cache_of(k) == pre.cache_of(k),
                stack@.len() <= id + 1,
                stack@.len() > 0 ==> stack@[0] == id,
                stack@.len() == 0 ==> self.cache_of(id as int) is Some,
                forall|q: int| 0 <= q < stack@.len() ==> #[trigger] stack@[q] + q <= id,
                forall|q: int, t: int| 0 <= q < t < stack@.len() ==> #[trigger] stack@[t] < #[trigger] stack@[q],
                forall|q: int| 0 <= q < stack@.len() ==> (#[trigger] self.cache_of(stack@[q] as int)) is None,
                forall|q: int|
                    0 <= q < stack@.len() - 1 ==> !self.is_input(#[trigger] stack@[q] as int)
                        && self.inputs_of(stack@[q] as int).contains(stack@[q + 1]),
            decreases self.stale_count(id + 1), id + 1 - stack@.len(),
        {
            let top = stack[stack.len() - 1];
            if self.nodes[top].is_input_node() {
                proof {
                    let cur = *self;
                    Self::lemma_chain_reaches_unset(&cur, stack@, 0);
                    Self::lemma_reaches_unset_stable(&pre, &cur, id as int);
                }
                return Err(GraphError::UnsetInput);
            }
            proof {
                assert(self.node_wf(top as int));
            }
            match self.input_values(top) {
                Err(p) => {
                    stack.push(p);
                },
                Ok(args) => {
                    let ghost before = *self;
                    self.apply_operation(top, args);
                    proof {
                        let cur = *self;
                        Self::lemma_evolves_trans(&pre, &before, &cur);
                        Self::lemma_stale_count_step(&before, &cur, top as int, id + 1);
                    }
                    stack.pop();
                },
            }
        }
        proof {
            let cur = *self;
            Self::lemma_cached_not_unset(&cur, id as int);
            Self::lemma_reaches_unset_stable(&pre, &cur, id as int);
        }
        match self.nodes[id].cached() {
            Some(v) => Ok(v),
            None => unreached(),
        }
    }

    /// Well-formedness of the shape carries over to a graph of the same shape.
    proof fn lemma_wf_shape(a: &Self, b: &Self)
        requires
            a.wf(),
            b.same_shape(a),
        ensures
            b.registry_wf(),
            forall|k: int| 0 <= k < b.len() ==> #[trigger] b.node_wf(k),
    {
        assert forall|k: int| 0 <= k < b.len() implies #[trigger] b.node_wf(k) by {
            assert(a.node_wf(k));
            assert(b.inputs_of(k) == a.inputs_of(k));
            assert(b.dependents_of(k) == a.dependents_of(k));
            assert(b.op_of(k) == a.op_of(k));
            assert forall|d: usize|
                #[trigger] b.dependents_of(k).contains(d) <==> (k < d < b.len()
                    && b.inputs_of(d as int).contains(k as usize)) by {
                if d < b.len() {
                    assert(b.inputs_of(d as int) == a.inputs_of(d as int));
                }
            }
        }
        assert forall|i: int| 0 <= i < b.input_ids@.len() implies #[trigger] b.input_ids@[i] < b.len()
            && b.is_input(b.input_ids@[i] as int) by {
            assert(a.input_ids@[i] < a.len() && a.is_input(a.input_ids@[i] as int));
        }
    }

    /// A node stays consistent while its inputs, its operation and the
    /// caches it reads are unchanged.
    proof fn lemma_consistent_stable(a: &Self, b: &Self, k: int)
        requires
            0 <= k < a.len(),
            k < b.len(),
            a.node_wf(k),
            a.cache_consistent(k),
            b.nodes@[k].node_inputs == a.nodes@[k].node_inputs,
            b.nodes@[k].op == a.nodes@[k].op,
            b.cache_of(k) == a.cache_of(k),
            forall|i: int|
                0 <= i < a.inputs_of(k).len() ==> b.cache_of(#[trigger] a.inputs_of(k)[i] as int)
                    == a.cache_of(a.inputs_of(k)[i] as int),
        ensures
            b.cache_consistent(k),
    {
        if !a.is_input(k) && a.cache_of(k) is Some {
            assert(b.cached_values(b.inputs_of(k)) =~= a.cached_values(a.inputs_of(k)));
            let w = choose|w: Vec<T>|
                w@ == a.cached_values(a.inputs_of(k)) && #[trigger] call_ensures(
                    a.op_of(k),
                    (w,),
                    a.cache_of(k)->0,
                );
            assert(call_ensures(b.op_of(k), (w,), b.cache_of(k)->0));
            assert forall|i: int| 0 <= i < b.inputs_of(k).len() implies (#[trigger] b.cache_of(
                b.inputs_of(k)[i] as int,
            )) is Some by {
                assert(a.inputs_of(k)[i] == b.inputs_of(k)[i]);
            }
        }
    }

    /// Moving the bound past node `j` adds exactly the readers of `j` when
    /// `j` depends on `src`.
    proof fn lemma_reads_step(g: &Self, k: int, src: int, j: int)
        requires
            g.wf(),
            0 <= src <= j < k < g.len(),
            g.len() <= usize::MAX,
        ensures
            g.reads_affected(k, src, j + 1) == (g.reads_affected(k, src, j) || (
            g.depends_on(j, src) && g.dependents_of(j).contains(k as usize))),
    {
        assert(g.node_wf(j));
        assert(g.node_wf(k));
        assert((k as usize) as int == k);
        assert(g.dependents_of(j).contains(k as usize) <==> (j < (k as usize) < g.len()
            && g.inputs_of((k as usize) as int).contains(j as usize)));
        if g.dependents_of(j).contains(k as usize) {
            assert(g.inputs_of(k).contains(j as usize));
            let i = choose|i: int| 0 <= i < g.inputs_of(k).len() && g.inputs_of(k)[i] == j as usize;
            if g.depends_on(j, src) {
                assert(g.inputs_of(k)[i] < j + 1);
            }
        }
        if g.reads_affected(k, src, j + 1) && !g.reads_affected(k, src, j) {
            let i = choose|i: int|
                0 <= i < g.inputs_of(k).len() && (#[trigger] g.inputs_of(k)[i]) < j + 1
                    && g.depends_on(g.inputs_of(k)[i] as int, src);
            assert(g.inputs_of(k)[i] == j);
            assert(g.inputs_of(k).contains(j as usize));
        }
    }

    /// Every graph evolves from itself, with nothing evaluated.
    proof fn lemma_evolves_refl(a: &Self)
        ensures
            a.evolves_from(a),
    {
        assert(a.evaluations@.subrange(0, a.evaluations@.len() as int) =~= a.evaluations@);
        assert(a.evaluated_since(a) =~= Seq::<usize>::empty());
    }

    /// Evaluation work composes: the evaluations of two steps, in order.
    proof fn lemma_evolves_trans(a: &Self, b: &Self, c: &Self)
        requires
            b.evolves_from(a),
            c.evolves_from(b),
        ensures
            c.evolves_from(a),
    {
        let s1 = b.evaluated_since(a);
        let s2 = c.evaluated_since(b);
        let s = c.evaluated_since(a);
        assert(b.evaluations@ =~= a.evaluations@ + s1);
        assert(c.evaluations@ =~= b.evaluations@ + s2);
        assert(s =~= s1 + s2);
        assert(c.evaluations@.subrange(0, a.evaluations@.len() as int) =~= a.evaluations@);
        assert forall|x: int, y: int| 0 <= x < y < s.len() implies s[x] != s[y] by {
            if y < s1.len() {
                assert(s1[x] != s1[y]);
            } else if x >= s1.len() {
                assert(s2[x - s1.len()] != s2[y - s1.len()]);
            } else {
                assert(s1.contains(s[x]));
                assert(s2[y - s1.len()] == s[y]);
                assert(s2.contains(s[y]));
            }
        }
        assert forall|k: usize| #[trigger] s.contains(k) <==> (k < c.len() && a.cache_of(
            k as int,
        ) is None && c.cache_of(k as int) is Some) by {
            if s.contains(k) {
                let i = choose|i: int| 0 <= i < s.len() && s[i] == k;
                if i < s1.len() {
                    assert(s1[i] == k);
                    assert(s1.contains(k));
                } else {
                    assert(s2[i - s1.len()] == k);
                    assert(s2.contains(k));
                }
            }
            if k < c.len() && a.cache_of(k as int) is None && c.cache_of(k as int) is Some {
                if b.cache_of(k as int) is Some {
                    assert(s1.contains(k));
                    let i = choose|i: int| 0 <= i < s1.len() && s1[i] == k;
                    assert((s1 + s2)[i] == s1[i]);
                    assert(s[i] == k);
                } else {
                    assert(s2.contains(k));
                    let i = choose|i: int| 0 <= i < s2.len() && s2[i] == k;
                    assert((s1 + s2)[s1.len() + i] == s2[i]);
                    assert(s[s1.len() + i] == k);
                }
            }
        }
        assert forall|k: int| 0 <= k < c.len() implies {
            &&& (#[trigger] c.nodes@[k]).node_inputs == a.nodes@[k].node_inputs
            &&& c.nodes@[k].dependents == a.nodes@[k].dependents
            &&& c.nodes@[k].op == a.nodes@[k].op
        } by {
            assert(b.nodes@[k].node_inputs == a.nodes@[k].node_inputs);
        }
        assert forall|k: int|
            0 <= k < c.len() && (a.is_input(k) || a.cache_of(k) is Some) implies #[trigger] c.cache_of(k)
            == a.cache_of(k) by {
            assert(b.cache_of(k) == a.cache_of(k));
            assert(b.nodes@[k].op == a.nodes@[k].op);
        }
    }

    /// Whether a node reaches an unset input depends only on the shape and
    /// the values of the input nodes.
    proof fn lemma_reaches_unset_stable(a: &Self, b: &Self, k: int)
        requires
            a.wf(),
            b.same_shape(a),
            0 <= k < a.len(),
            forall|q: int| 0 <= q < a.len() && a.is_input(q) ==> #[trigger] b.cache_of(q) == a.cache_of(q),
        ensures
            b.reaches_unset(k) == a.reaches_unset(k),
        decreases k,
    {
        assert(a.node_wf(k));
        assert(b.nodes@[k].op == a.nodes@[k].op);
        assert(b.inputs_of(k) == a.inputs_of(k));
        if !a.is_input(k) {
            assert forall|i: int| 0 <= i < a.inputs_of(k).len() implies b.reaches_unset(
                #[trigger] a.inputs_of(k)[i] as int,
            ) == a.reaches_unset(a.inputs_of(k)[i] as int) by {
                Self::lemma_reaches_unset_stable(a, b, a.inputs_of(k)[i] as int);
            }
        }
    }

    /// A cached node reaches no unset input.
    proof fn lemma_cached_not_unset(g: &Self, k: int)
        requires
            g.wf(),
            0 <= k < g.len(),
            g.cache_of(k) is Some,
        ensures
            !g.reaches_unset(k),
        decreases k,
    {
        assert(g.node_wf(k));
        assert(g.cache_consistent(k));
        if !g.is_input(k) {
            assert forall|i: int| 0 <= i < g.inputs_of(k).len() implies !g.reaches_unset(
                #[trigger] g.inputs_of(k)[i] as int,
            ) by {
                Self::lemma_cached_not_unset(g, g.inputs_of(k)[i] as int);
            }
        }
    }

    /// Equal caches give equal stale counts.
    proof fn lemma_stale_count_same(a: &Self, b: &Self, m: int)
        requires
            forall|k: int| 0 <= k < m ==> #[trigger] b.cache_of(k) == a.cache_of(k),
        ensures
            b.stale_count(m) == a.stale_count(m),
        decreases m,
    {
        if m > 0 {
            Self::lemma_stale_count_same(a, b, m - 1);
        }
    }

    /// Caching one stale node lowers the count of stale nodes.
    proof fn lemma_stale_count_step(a: &Self, b: &Self, j: int, m: int)
        requires
            0 <= j < m,
            a.cache_of(j) is None,
            b.cache_of(j) is Some,
            forall|k: int| 0 <= k < m && k != j ==> #[trigger] b.cache_of(k) == a.cache_of(k),
        ensures
            b.stale_count(m) < a.stale_count(m),
        decreases m,
    {
        if m - 1 > j {
            Self::lemma_stale_count_step(a, b, j, m - 1);
        } else {
            Self::lemma_stale_count_same(a, b, m - 1);
        }
    }

    /// A chain of stale operation nodes, each read by the one before, that
    /// ends at an unset input node reaches an unset input from every link.
    proof fn lemma_chain_reaches_unset(g: &Self, chain: Seq<usize>, i: int)
        requires
            g.wf(),
            0 <= i < chain.len(),
            forall|q: int| 0 <= q < chain.len() ==> #[trigger] chain[q] < g.len(),
            forall|q: int|
                0 <= q < chain.len() - 1 ==> !g.is_input(#[trigger] chain[q] as int) && g.inputs_of(
                    chain[q] as int,
                ).contains(chain[q + 1]),
            g.is_input(chain.last() as int),
            g.cache_of(chain.last() as int) is None,
        ensures
            g.reaches_unset(chain[i] as int),
        decreases chain.len() - i,
    {
        if i < chain.len() - 1 {
            Self::lemma_chain_reaches_unset(g, chain, i + 1);
            let k = chain[i] as int;
            assert(!g.is_input(k) && g.inputs_of(k).contains(chain[i + 1]));
            assert(g.node_wf(k));
            let w = choose|w: int| 0 <= w < g.inputs_of(k).len() && g.inputs_of(k)[w] == chain[i + 1];
            assert(g.inputs_of(k)[w] < k);
        }
    }
}

} // verus!
