use crate::graph::CompGraph;
use crate::node::{GraphError, NodeId};
use vstd::prelude::*;

verus! {

/// Memoization: once `compute(node)` has succeeded, a second `compute(node)`
/// with no input set in between returns the identical value, leaves the
/// graph untouched and applies no operation at all.
pub proof fn lemma_compute_memoized<T: Copy, F: Fn(Vec<T>) -> T>(
    g0: CompGraph<T, F>,
    g1: CompGraph<T, F>,
    g2: CompGraph<T, F>,
    node: NodeId,
    r1: Result<T, GraphError>,
    r2: Result<T, GraphError>,
)
    requires
        g0.wf(),
        g1.is_computed_from(&g0, node, r1),
        g2.is_computed_from(&g1, node, r2),
        r1 is Ok,
    ensures
        r2 == r1,
        g2 == g1,
        g2.evaluated_since(&g1) == Seq::<usize>::empty(),
{
    assert(g2.evaluated_since(&g1) =~= Seq::<usize>::empty());
}

/// Invalidation completeness: after `set_input(name, v)` succeeds, every
/// other node that depends on that input is stale, the input holds `v`, and
/// every node that does not depend on it keeps its cached value.
pub proof fn lemma_set_input_invalidates<T: Copy, F: Fn(Vec<T>) -> T>(
    g0: CompGraph<T, F>,
    g1: CompGraph<T, F>,
    name: Seq<char>,
    v: T,
    r: Result<(), GraphError>,
)
    requires
        g0.wf(),
        g0.registered(name),
        g1.is_input_set_from(&g0, name, v, r),
    ensures
        r is Ok,
        g1.cache_of(g0.input_id(name)) == Some(v),
        forall|k: int|
            0 <= k < g0.len() && k != g0.input_id(name) && g0.depends_on(k, g0.input_id(name))
                ==> #[trigger] g1.cache_of(k) is None,
        forall|k: int|
            0 <= k < g0.len() && !g0.depends_on(k, g0.input_id(name)) ==> #[trigger] g1.cache_of(k)
                == g0.cache_of(k),
{
    let id = g0.input_id(name);
    let i = choose|i: int| 0 <= i < g0.input_names@.len() && #[trigger] g0.input_names@[i]@ == name;
    assert(g0.input_ids@[i] < g0.len());
    assert(g1.cache_of(id) == Some(v));
}

/// Diamond sharing: within one `compute`, no node's operation is applied
/// twice, however many paths lead to it; the operations applied are exactly
/// those of the nodes that were stale before and are cached after.
pub proof fn lemma_compute_evaluates_once<T: Copy, F: Fn(Vec<T>) -> T>(
    g0: CompGraph<T, F>,
    g1: CompGraph<T, F>,
    node: NodeId,
    r: Result<T, GraphError>,
)
    requires
        g0.wf(),
        g1.is_computed_from(&g0, node, r),
    ensures
        g1.evaluated_since(&g0).no_duplicates(),
        forall|k: usize|
            #[trigger] g1.evaluated_since(&g0).contains(k) <==> (k < g0.len() && g0.cache_of(
                k as int,
            ) is None && g1.cache_of(k as int) is Some),
{
    if node.0 >= g0.len() {
        assert(g1.evaluated_since(&g0) =~= Seq::<usize>::empty());
    }
}

/// Setting an input always invalidates: even when the new value equals the
/// one already held, every other node that depends on the input is stale.
pub proof fn lemma_set_same_value_invalidates<T: Copy, F: Fn(Vec<T>) -> T>(
    g0: CompGraph<T, F>,
    g1: CompGraph<T, F>,
    name: Seq<char>,
    v: T,
    r: Result<(), GraphError>,
)
    requires
        g0.wf(),
        g0.registered(name),
        g0.cache_of(g0.input_id(name)) == Some(v),
        g1.is_input_set_from(&g0, name, v, r),
    ensures
        forall|k: int|
            0 <= k < g0.len() && k != g0.input_id(name) && g0.depends_on(k, g0.input_id(name))
                ==> #[trigger] g1.cache_of(k) is None,
{
    lemma_set_input_invalidates(g0, g1, name, v, r);
}

/// Unset input: `compute` on a node that reaches an input never given a
/// value fails with `UnsetInput` and leaves a well-formed graph, keeping
/// every input value.
pub proof fn lemma_unset_input_error<T: Copy, F: Fn(Vec<T>) -> T>(
    g0: CompGraph<T, F>,
    g1: CompGraph<T, F>,
    node: NodeId,
    r: Result<T, GraphError>,
)
    requires
        g0.wf(),
        node.0 < g0.len(),
        g0.reaches_unset(node.0 as int),
        g1.is_computed_from(&g0, node, r),
    ensures
        r == Err::<T, GraphError>(GraphError::UnsetInput),
        g1.wf(),
        forall|k: int| 0 <= k < g0.len() && g0.is_input(k) ==> #[trigger] g1.cache_of(k) == g0.cache_of(k),
{
}

/// Retry after an unset input: once no input that `node` reaches is unset,
/// `compute(node)` succeeds and caches the value it returns.
pub proof fn lemma_compute_succeeds_when_set<T: Copy, F: Fn(Vec<T>) -> T>(
    g0: CompGraph<T, F>,
    g1: CompGraph<T, F>,
    node: NodeId,
    r: Result<T, GraphError>,
)
    requires
        g0.wf(),
        node.0 < g0.len(),
        !g0.reaches_unset(node.0 as int),
        g1.is_computed_from(&g0, node, r),
    ensures
        r is Ok,
        g1.cache_of(node.0 as int) == Some(r->Ok_0),
{
}

} // verus!
