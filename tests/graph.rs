use comp_graph::{CompGraph, GraphError, NodeId};
use std::cell::Cell;
use std::rc::Rc;

type Op<T> = Box<dyn Fn(Vec<T>) -> T>;

fn op<T>(f: impl Fn(Vec<T>) -> T + 'static) -> Op<T> {
    Box::new(f)
}

fn add(args: Vec<f32>) -> f32 {
    args[0] + args[1]
}

fn round(x: f32, precision: u32) -> f32 {
    let m = 10i32.pow(precision) as f32;
    (x * m).round() / m
}

#[test]
fn comp_graph_test_unary() {
    let mut graph: CompGraph<i32, Op<i32>> = CompGraph::new();
    let x1 = graph.add_input_node("x1").unwrap();
    graph.set_input("x1", 1).unwrap();

    let result = graph.add_node(vec![x1], op(|x: Vec<i32>| x[0].pow(2))).unwrap();
    assert_eq!(graph.compute(result), Ok(1));
    graph.set_input("x1", 2).unwrap();
    assert_eq!(graph.cache(result), None);
    assert_eq!(graph.compute(result), Ok(4));
}

#[test]
fn comp_graph_test_heterogeneous() {
    let mut graph: CompGraph<f32, Op<f32>> = CompGraph::new();
    let x1 = graph.add_input_node("x1").unwrap();
    let x2 = graph.add_input_node("x2").unwrap();
    graph.set_input("x1", 1.5f32).unwrap();
    graph.set_input("x2", 2.0f32).unwrap();

    let result = graph.add_node(vec![x1, x2], op(|x: Vec<f32>| x[0].powi(x[1] as i32))).unwrap();
    assert_eq!(graph.compute(result), Ok(2.25f32));
}

#[test]
fn comp_graph_test_cache() {
    let mut graph: CompGraph<f32, Op<f32>> = CompGraph::new();
    let x1 = graph.add_input_node("x1").unwrap();
    let x2 = graph.add_input_node("x2").unwrap();
    let x3 = graph.add_input_node("x3").unwrap();
    let x4 = graph.add_input_node("x4").unwrap();
    graph.set_input("x1", 1.0f32).unwrap();
    graph.set_input("x2", 1.0f32).unwrap();
    graph.set_input("x3", 1.0f32).unwrap();
    graph.set_input("x4", 1.0f32).unwrap();

    let node1 = graph.add_node(vec![x3, x4], op(add)).unwrap();
    let node2 = graph.add_node(vec![x2, node1], op(add)).unwrap();
    let node3 = graph.add_node(vec![x1, node2], op(add)).unwrap();

    assert_eq!(graph.compute(node3), Ok(4.0f32));

    graph.set_input("x2", 2.0).unwrap();

    assert_eq!(graph.cache(node1), Some(2.0f32));
    assert_eq!(graph.cache(node2), None);
    assert_eq!(graph.cache(node3), None);

    assert_eq!(graph.compute(node2), Ok(4.0f32));
    assert_eq!(graph.cache(node1), Some(2.0f32));
    assert_eq!(graph.cache(node2), Some(4.0f32));
    assert_eq!(graph.cache(node3), None);
}

#[test]
fn test_runtime_and_unsizing() {
    let mut graph: CompGraph<i32, Op<i32>> = CompGraph::new();
    let mut inputs = Vec::new();
    for x in 0..5 {
        let name = x.to_string();
        let input = graph.add_input_node(&name).unwrap();
        graph.set_input(&name, x).unwrap();
        inputs.push(input);
    }

    let result = graph.add_node(inputs, op(|x: Vec<i32>| x.iter().sum::<i32>())).unwrap();
    assert_eq!(graph.compute(result), Ok(10));

    let result = graph.add_node(vec![result], op(|x: Vec<i32>| x[0] + 2)).unwrap();
    assert_eq!(graph.compute(result), Ok(12));
}

#[test]
fn comp_graph2_test_unary() {
    let mut graph: CompGraph<i32, Op<i32>> = CompGraph::new();
    let x1 = graph.add_input_node("x1").unwrap();
    graph.set_input("x1", 1).unwrap();

    let result = graph.add_node(vec![x1], op(|x: Vec<i32>| x[0].pow(2))).unwrap();

    assert_eq!(graph.compute(result), Ok(1));
    graph.set_input("x1", 2).unwrap();
    assert_eq!(graph.compute(result), Ok(4));
}

#[test]
fn comp_graph2_test_heterogeneous() {
    let mut graph: CompGraph<f32, Op<f32>> = CompGraph::new();
    let x1 = graph.add_input_node("x1").unwrap();
    let x2 = graph.add_input_node("x2").unwrap();
    graph.set_input("x1", 1.5f32).unwrap();
    graph.set_input("x2", 2.0f32).unwrap();

    let result = graph.add_node(vec![x1, x2], op(|x: Vec<f32>| x[0].powi(x[1] as i32))).unwrap();
    assert_eq!(graph.compute(result), Ok(2.25f32));
}

#[test]
fn comp_graph2_test_cache() {
    let mut graph: CompGraph<f32, Op<f32>> = CompGraph::new();
    let x1 = graph.add_input_node("x1").unwrap();
    let x2 = graph.add_input_node("x2").unwrap();
    let x3 = graph.add_input_node("x3").unwrap();
    let x4 = graph.add_input_node("x4").unwrap();
    graph.set_input("x1", 1.0f32).unwrap();
    graph.set_input("x2", 1.0f32).unwrap();
    graph.set_input("x3", 1.0f32).unwrap();
    graph.set_input("x4", 1.0f32).unwrap();

    let node1 = graph.add_node(vec![x3, x4], op(add)).unwrap();
    let node2 = graph.add_node(vec![x2, node1], op(add)).unwrap();
    let node3 = graph.add_node(vec![x1, node2], op(add)).unwrap();

    assert_eq!(graph.compute(node3), Ok(4.0f32));

    assert_eq!(graph.cache(node1), Some(2.0f32));

    graph.set_input("x2", 2.0).unwrap();

    assert_eq!(graph.cache(node1), Some(2.0f32));
    assert_eq!(graph.cache(node2), None);
    assert_eq!(graph.cache(node3), None);

    assert_eq!(graph.compute(node2), Ok(4.0f32));
    assert_eq!(graph.cache(node1), Some(2.0f32));
    assert_eq!(graph.cache(node2), Some(4.0f32));
    assert_eq!(graph.cache(node3), None);
}

#[test]
fn test_simple() {
    let mut graph: CompGraph<i32, Op<i32>> = CompGraph::new();
    let x1 = graph.add_input_node("x1").unwrap();
    graph.set_input("x1", 1i32).unwrap();

    let result = graph.add_node(vec![x1], op(|inputs: Vec<i32>| inputs[0].pow(2))).unwrap();

    assert_eq!(graph.compute(result), Ok(1));
    graph.set_input("x1", 2).unwrap();
    assert_eq!(graph.compute(result), Ok(4));
}

#[test]
fn test_caches() {
    let mut graph: CompGraph<f32, Op<f32>> = CompGraph::new();
    let x1 = graph.add_input_node("x1").unwrap();
    let x2 = graph.add_input_node("x2").unwrap();
    let x3 = graph.add_input_node("x3").unwrap();
    let x4 = graph.add_input_node("x4").unwrap();
    graph.set_input("x1", 1.0f32).unwrap();
    graph.set_input("x2", 1.0f32).unwrap();
    graph.set_input("x3", 1.0f32).unwrap();
    graph.set_input("x4", 1.0f32).unwrap();

    let node1 = graph.add_node(vec![x3, x4], op(add)).unwrap();
    let node2 = graph.add_node(vec![x2, node1], op(add)).unwrap();
    let node3 = graph.add_node(vec![x1, node2], op(add)).unwrap();

    assert_eq!(graph.compute(node3), Ok(4.0f32));

    assert_eq!(graph.cache(node1), Some(2.0f32));

    graph.set_input("x2", 2.0f32).unwrap();

    assert_eq!(graph.cache(node1), Some(2.0f32));
    assert_eq!(graph.cache(node2), None);
    assert_eq!(graph.cache(node3), None);

    assert_eq!(graph.compute(node2), Ok(4.0f32));
    assert_eq!(graph.cache(node1), Some(2.0f32));
    assert_eq!(graph.cache(node2), Some(4.0f32));
    assert_eq!(graph.cache(node3), None);
}

fn counted(counter: &Rc<Cell<u32>>, f: fn(Vec<i64>) -> i64) -> Op<i64> {
    let c = counter.clone();
    Box::new(move |args: Vec<i64>| {
        c.set(c.get() + 1);
        f(args)
    })
}

fn sum_i64(args: Vec<i64>) -> i64 {
    args.iter().sum()
}

#[test]
fn second_compute_reuses_cache() {
    let mut graph: CompGraph<i64, Op<i64>> = CompGraph::new();
    let calls = Rc::new(Cell::new(0u32));
    let a = graph.add_input_node("a").unwrap();
    let b = graph.add_input_node("b").unwrap();
    graph.set_input("a", 3).unwrap();
    graph.set_input("b", 4).unwrap();
    let s = graph.add_node(vec![a, b], counted(&calls, sum_i64)).unwrap();
    assert_eq!(graph.compute(s), Ok(7));
    assert_eq!(calls.get(), 1);
    assert_eq!(graph.compute(s), Ok(7));
    assert_eq!(calls.get(), 1);
}

#[test]
fn diamond_shared_node_evaluated_once() {
    let mut graph: CompGraph<i64, Op<i64>> = CompGraph::new();
    let shared_calls = Rc::new(Cell::new(0u32));
    let other_calls = Rc::new(Cell::new(0u32));
    let x = graph.add_input_node("x").unwrap();
    graph.set_input("x", 5).unwrap();
    let shared = graph.add_node(vec![x], counted(&shared_calls, sum_i64)).unwrap();
    let left = graph.add_node(vec![shared], counted(&other_calls, |a| a[0] * 2)).unwrap();
    let right = graph.add_node(vec![shared], counted(&other_calls, |a| a[0] + 1)).unwrap();
    let top = graph.add_node(vec![left, right], counted(&other_calls, sum_i64)).unwrap();
    assert_eq!(graph.compute(top), Ok(16));
    assert_eq!(shared_calls.get(), 1);
    assert_eq!(other_calls.get(), 3);

    graph.set_input("x", 6).unwrap();
    assert_eq!(graph.compute(top), Ok(19));
    assert_eq!(shared_calls.get(), 2);
    assert_eq!(other_calls.get(), 6);
}

#[test]
fn set_input_invalidates_only_dependents() {
    let mut graph: CompGraph<i64, Op<i64>> = CompGraph::new();
    let a = graph.add_input_node("a").unwrap();
    let b = graph.add_input_node("b").unwrap();
    graph.set_input("a", 1).unwrap();
    graph.set_input("b", 2).unwrap();
    let from_a = graph.add_node(vec![a], op(|v: Vec<i64>| v[0] * 10)).unwrap();
    let from_b = graph.add_node(vec![b], op(|v: Vec<i64>| v[0] * 100)).unwrap();
    let both = graph.add_node(vec![from_a, from_b], op(sum_i64)).unwrap();
    assert_eq!(graph.compute(both), Ok(210));

    graph.set_input("a", 3).unwrap();
    assert_eq!(graph.cache(a), Some(3));
    assert_eq!(graph.cache(from_a), None);
    assert_eq!(graph.cache(both), None);
    assert_eq!(graph.cache(b), Some(2));
    assert_eq!(graph.cache(from_b), Some(200));
    assert_eq!(graph.compute(both), Ok(230));
}

#[test]
fn setting_same_value_still_invalidates() {
    let mut graph: CompGraph<i64, Op<i64>> = CompGraph::new();
    let calls = Rc::new(Cell::new(0u32));
    let a = graph.add_input_node("a").unwrap();
    graph.set_input("a", 8).unwrap();
    let doubled = graph.add_node(vec![a], counted(&calls, |v| v[0] * 2)).unwrap();
    assert_eq!(graph.compute(doubled), Ok(16));

    // The same value is set again: dependents are stale all the same.
    graph.set_input("a", 8).unwrap();
    assert_eq!(graph.cache(doubled), None);
    assert_eq!(graph.compute(doubled), Ok(16));
    assert_eq!(calls.get(), 2);
}

#[test]
fn unset_input_is_an_error_and_graph_recovers() {
    let mut graph: CompGraph<i64, Op<i64>> = CompGraph::new();
    let a = graph.add_input_node("a").unwrap();
    let b = graph.add_input_node("b").unwrap();
    graph.set_input("a", 2).unwrap();
    let only_a = graph.add_node(vec![a], op(|v: Vec<i64>| v[0] + 1)).unwrap();
    let both = graph.add_node(vec![only_a, b], op(sum_i64)).unwrap();
    assert_eq!(graph.compute(both), Err(GraphError::UnsetInput));
    assert_eq!(graph.compute(b), Err(GraphError::UnsetInput));
    assert_eq!(graph.cache(both), None);

    graph.set_input("b", 10).unwrap();
    assert_eq!(graph.compute(both), Ok(13));
}

#[test]
fn unknown_and_duplicate_names_are_errors() {
    let mut graph: CompGraph<i64, Op<i64>> = CompGraph::new();
    let a = graph.add_input_node("a").unwrap();
    assert_eq!(graph.set_input("missing", 1), Err(GraphError::UnknownInputName));
    assert_eq!(graph.add_input_node("a"), Err(GraphError::DuplicateInputName));
    assert_eq!(graph.node_count(), 1);
    graph.set_input("a", 4).unwrap();
    assert_eq!(graph.compute(a), Ok(4));
}

#[test]
fn foreign_node_ids_are_rejected() {
    let mut graph: CompGraph<i64, Op<i64>> = CompGraph::new();
    let a = graph.add_input_node("a").unwrap();
    let foreign = NodeId(7);
    assert_eq!(graph.add_node(vec![a, foreign], op(sum_i64)), Err(GraphError::InvalidReference));
    assert_eq!(graph.node_count(), 1);
    assert_eq!(graph.compute(foreign), Err(GraphError::InvalidReference));
    assert_eq!(graph.invalidate_node(foreign), Err(GraphError::InvalidReference));
}

#[test]
fn invalidate_node_marks_dependents_stale() {
    let mut graph: CompGraph<i64, Op<i64>> = CompGraph::new();
    let a = graph.add_input_node("a").unwrap();
    graph.set_input("a", 5).unwrap();
    let inc = graph.add_node(vec![a], op(|v: Vec<i64>| v[0] + 1)).unwrap();
    let sq = graph.add_node(vec![inc, inc], op(|v: Vec<i64>| v[0] * v[1])).unwrap();
    assert_eq!(graph.compute(sq), Ok(36));
    assert_eq!(inc.index(), 1);
    assert_eq!(graph.invalidate_node(inc), Ok(()));
    assert_eq!(graph.cache(a), Some(5));
    assert_eq!(graph.cache(inc), None);
    assert_eq!(graph.cache(sq), None);
    assert_eq!(graph.compute(sq), Ok(36));
}

#[test]
fn end_to_end_formula() {
    let mut graph: CompGraph<f32, Op<f32>> = CompGraph::new();
    let x1 = graph.add_input_node("x1").unwrap();
    let x2 = graph.add_input_node("x2").unwrap();
    let x3 = graph.add_input_node("x3").unwrap();
    let cube = graph.add_node(vec![x3], op(|v: Vec<f32>| v[0].powf(3f32))).unwrap();
    let inner = graph.add_node(vec![x2, cube], op(add)).unwrap();
    let sine = graph.add_node(vec![inner], op(|v: Vec<f32>| v[0].sin())).unwrap();
    let prod = graph.add_node(vec![x2, sine], op(|v: Vec<f32>| v[0] * v[1])).unwrap();
    let f = graph.add_node(vec![x1, prod], op(add)).unwrap();

    graph.set_input("x1", 1f32).unwrap();
    graph.set_input("x2", 2f32).unwrap();
    graph.set_input("x3", 3f32).unwrap();
    assert_eq!(round(graph.compute(f).unwrap(), 5), -0.32727);

    graph.set_input("x1", 2f32).unwrap();
    graph.set_input("x2", 3f32).unwrap();
    graph.set_input("x3", 4f32).unwrap();
    assert_eq!(round(graph.compute(f).unwrap(), 5), -0.56656);
}

#[test]
fn register_input_adds_an_alias() {
    let mut graph: CompGraph<i64, Op<i64>> = CompGraph::new();
    let a = graph.add_input_node("a").unwrap();
    let neg = graph.add_node(vec![a], op(|v: Vec<i64>| -v[0])).unwrap();
    assert_eq!(graph.register_input("alpha", a), Ok(()));
    assert_eq!(graph.register_input("alpha", a), Err(GraphError::DuplicateInputName));
    assert_eq!(graph.register_input("n", neg), Err(GraphError::InvalidReference));
    assert_eq!(graph.register_input("z", NodeId(9)), Err(GraphError::InvalidReference));
    graph.set_input("alpha", 6).unwrap();
    assert_eq!(graph.compute(neg), Ok(-6));
    graph.set_input("a", 1).unwrap();
    assert_eq!(graph.compute(neg), Ok(-1));
}
