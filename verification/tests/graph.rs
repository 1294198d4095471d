use tensor_graph::comp_graph::{CompGraph, CompGraphTensor, ComputationGraphError};
use tensor_graph::shape::Shape;
use tensor_graph::tensor::Array;

fn init_simple_graph() -> (CompGraphTensor, CompGraphTensor, CompGraphTensor, Array, CompGraph) {
    let mut graph = CompGraph::new();
    let root1 = graph.create_root(Array::from_slice(&[0, 1, 2, 3], Shape::from_slice(&[2, 2])));
    let root2 = graph.create_root(Array::from_slice(&[0, 1, 2, 3], Shape::from_slice(&[2, 2])));
    let added = graph.add(&root1, &root2);
    let expected = Array::from_slice(&[0, 2, 4, 6], Shape::from_slice(&[2, 2]));
    (root1, root2, added, expected, graph)
}

fn init_complex_graph() -> (CompGraphTensor, Array, Array, CompGraph) {
    let mut graph = CompGraph::new();
    let root1 = graph.create_root(Array::from_slice(
        &[1, 2, 3, 4, 5, 6, 7, 8, 9],
        Shape::from_slice(&[3, 3]),
    ));
    let root2 = graph.create_root(Array::from_slice(
        &[1, 1, 1, 1, 1, 1, 1, 1, 1],
        Shape::from_slice(&[3, 3]),
    ));
    let root3 = graph.create_root(Array::from_slice(
        &[0, 0, 0, 0, 0, 0, 0, 0, 0],
        Shape::from_slice(&[3, 3]),
    ));
    let root4 = graph.create_root(Array::from_slice(
        &[1, 4, 9, 16, 25, 36, 49, 64, 81],
        Shape::from_slice(&[3, 3]),
    ));
    let op1 = graph.div(&root4, &root1);
    let op2 = graph.mul(&op1, &root2);
    let op3 = graph.sub(&op2, &root3);
    let op4 = graph.mul_scalar(2, &op3);
    let op5 = graph.div_scalar_rh(&op4, 2);
    let op6 = graph.mul(&op5, &op5);
    let op7 = graph.div(&op6, &root1);
    let expected_original =
        Array::from_slice(&[1, 2, 3, 4, 5, 6, 7, 8, 9], Shape::from_slice(&[3, 3]));
    let expected_unit =
        Array::from_slice(&[1, 1, 1, 1, 1, 1, 1, 1, 1], Shape::from_slice(&[3, 3]));
    (op7, expected_original, expected_unit, graph)
}

#[test]
fn simple_no_eval() {
    let (_, _, added, _, graph) = init_simple_graph();
    assert!(graph.get_tensor(&added).is_none());
}

#[test]
fn simple_eval() {
    let (_, _, added, expected, mut graph) = init_simple_graph();
    graph.non_populating_eval(&added).unwrap();
    assert!(graph.get_tensor(&added).is_some());
    assert!(graph.get_tensor(&added).unwrap().equals(&expected));
    graph.clear_tensor(&added).unwrap();
    graph.populating_eval(&added).unwrap();
    assert!(graph.get_tensor(&added).is_some());
    assert!(graph.get_tensor(&added).unwrap().equals(&expected));
}

#[test]
fn large_depth_eval() {
    let (node_key, _, expected_unit, mut graph) = init_complex_graph();
    let power = 12u16;
    let mut out = node_key;
    for _ in 0..2_usize.pow(power as u32) {
        out = graph.div(&out, &out);
    }
    graph.non_populating_eval(&out).unwrap();
    assert!(graph.get_tensor(&out).unwrap().equals(&expected_unit));
    graph.clear_tensor(&out).unwrap();
    graph.populating_eval(&out).unwrap();
    assert!(graph.get_tensor(&out).unwrap().equals(&expected_unit));
}

#[test]
fn large_bredth_eval() {
    let (node_key, expected_original, _, mut graph) = init_complex_graph();
    let power = 12u16;
    let mut new_node_keys = vec![node_key; 2_usize.pow(power as u32)];
    while new_node_keys.len() > 1 {
        let curr_node_keys = new_node_keys;
        new_node_keys = Vec::<CompGraphTensor>::new();
        for keys in curr_node_keys.chunks_exact(2) {
            new_node_keys.push(graph.add(&keys[0], &keys[1]));
        }
    }
    let tensor = new_node_keys.last().unwrap().clone();
    let factor = 2_i64.pow(power as u32);
    let scaled: Vec<i64> = (1..=9).map(|x| x * factor).collect();
    let expected = Array::from_slice(&scaled, Shape::from_slice(&[3, 3]));
    graph.non_populating_eval(&tensor).unwrap();
    assert!(graph.get_tensor(&tensor).unwrap().equals(&expected));
    graph.clear_tensor(&tensor).unwrap();
    graph.populating_eval(&tensor).unwrap();
    assert!(graph.get_tensor(&tensor).unwrap().equals(&expected));
}

#[test]
fn comp_graph_simple_no_eval() {
    let (_, _, added, _, graph) = init_simple_graph();
    assert!(graph.get_tensor(&added).is_none());
}

#[test]
fn comp_graph_simple_eval() {
    let (_, _, added, expected, mut graph) = init_simple_graph();
    graph.non_populating_eval(&added).unwrap();
    assert!(graph.get_tensor(&added).unwrap().equals(&expected));
    graph.clear_tensor(&added).unwrap();
    graph.populating_eval(&added).unwrap();
    assert!(graph.get_tensor(&added).unwrap().equals(&expected));
}

#[test]
fn comp_graph_large_depth_eval() {
    let (node_key, _, expected_unit, mut graph) = init_complex_graph();
    let power = 12u16;
    let mut out = node_key;
    for _ in 0..2_usize.pow(power as u32) {
        out = graph.div(&out, &out);
    }
    graph.populating_eval(&out).unwrap();
    assert!(graph.get_tensor(&out).unwrap().equals(&expected_unit));
}

#[test]
fn comp_graph_large_bredth_eval() {
    let (node_key, _, _, mut graph) = init_complex_graph();
    let power = 12u16;
    let mut new_node_keys = vec![node_key; 2_usize.pow(power as u32)];
    while new_node_keys.len() > 1 {
        let curr_node_keys = new_node_keys;
        new_node_keys = Vec::<CompGraphTensor>::new();
        for keys in curr_node_keys.chunks_exact(2) {
            new_node_keys.push(graph.add(&keys[0], &keys[1]));
        }
    }
    let tensor = new_node_keys.last().unwrap().clone();
    let factor = 2_i64.pow(power as u32);
    let scaled: Vec<i64> = (1..=9).map(|x| x * factor).collect();
    let expected = Array::from_slice(&scaled, Shape::from_slice(&[3, 3]));
    graph.populating_eval(&tensor).unwrap();
    assert!(graph.get_tensor(&tensor).unwrap().equals(&expected));
}

#[test]
fn diamond_invokes_each_kernel_once() {
    let mut graph = CompGraph::new();
    let r = graph.create_root(Array::from_slice(&[1, 2], Shape::from_slice(&[2])));
    let a = graph.add(&r, &r);
    let b = graph.mul(&a, &a);
    assert_eq!(graph.kernel_invocations(), 0);
    graph.populating_eval(&b).unwrap();
    // one invocation for the add, one for the mul, despite the shared edges
    assert_eq!(graph.kernel_invocations(), 2);
    let expected = Array::from_slice(&[4, 16], Shape::from_slice(&[2]));
    assert!(graph.get_tensor(&b).unwrap().equals(&expected));
}

#[test]
fn reeval_invokes_no_kernels() {
    let (_, _, added, _, mut graph) = init_simple_graph();
    graph.populating_eval(&added).unwrap();
    let calls = graph.kernel_invocations();
    graph.populating_eval(&added).unwrap();
    assert_eq!(graph.kernel_invocations(), calls);
    graph.non_populating_eval(&added).unwrap();
    assert_eq!(graph.kernel_invocations(), calls);
}

#[test]
fn deep_chain_streams() {
    let mut graph = CompGraph::new();
    let x = graph.create_root(Array::from_slice(&[5, 10, 15], Shape::from_slice(&[3])));
    let mut out = graph.div(&x, &x);
    for _ in 0..19999 {
        out = graph.div(&out, &out);
    }
    graph.non_populating_eval(&out).unwrap();
    let ones = Array::from_slice(&[1, 1, 1], Shape::from_slice(&[3]));
    assert!(graph.get_tensor(&out).unwrap().equals(&ones));
}

#[test]
fn wide_fanin_streams() {
    let mut graph = CompGraph::new();
    let mut layer: Vec<CompGraphTensor> = Vec::new();
    for _ in 0..4096 {
        layer.push(graph.create_root(Array::from_slice(&[1, 2], Shape::from_slice(&[2]))));
    }
    while layer.len() > 1 {
        let prev = layer;
        layer = Vec::new();
        for pair in prev.chunks_exact(2) {
            layer.push(graph.add(&pair[0], &pair[1]));
        }
    }
    let top = layer.pop().unwrap();
    graph.non_populating_eval(&top).unwrap();
    let expected = Array::from_slice(&[4096, 8192], Shape::from_slice(&[2]));
    assert!(graph.get_tensor(&top).unwrap().equals(&expected));
}

#[test]
fn clear_root_refused_and_recompute_matches() {
    let (root1, _, added, expected, mut graph) = init_simple_graph();
    assert!(matches!(
        graph.clear_tensor(&root1),
        Err(ComputationGraphError::CannotClearRoot())
    ));
    graph.populating_eval(&added).unwrap();
    graph.clear_tensor(&added).unwrap();
    assert!(graph.get_tensor(&added).is_none());
    graph.populating_eval(&added).unwrap();
    assert!(graph.get_tensor(&added).unwrap().equals(&expected));
}

#[test]
fn foreign_handle_is_rejected() {
    let (_, _, added, _, _graph) = init_simple_graph();
    let mut other = CompGraph::new();
    assert!(other.get_tensor(&added).is_none());
    assert!(matches!(
        other.populating_eval(&added),
        Err(ComputationGraphError::NodeDoesNotExist(_))
    ));
    assert!(matches!(
        other.non_populating_eval(&added),
        Err(ComputationGraphError::NodeDoesNotExist(_))
    ));
    assert!(matches!(
        other.clear_tensor(&added),
        Err(ComputationGraphError::NodeDoesNotExist(_))
    ));
}

#[test]
fn concrete_add_and_scalar_div() {
    let mut graph = CompGraph::new();
    let a = graph.create_root(Array::from_slice(&[0, 1, 2, 3], Shape::from_slice(&[2, 2])));
    let b = graph.create_root(Array::from_slice(&[0, 1, 2, 3], Shape::from_slice(&[2, 2])));
    let sum = graph.add(&a, &b);
    let halved = graph.div_scalar_rh(&sum, 2);
    graph.populating_eval(&halved).unwrap();
    let expected_sum = Array::from_slice(&[0, 2, 4, 6], Shape::from_slice(&[2, 2]));
    let expected_half = Array::from_slice(&[0, 1, 2, 3], Shape::from_slice(&[2, 2]));
    assert!(graph.get_tensor(&sum).unwrap().equals(&expected_sum));
    assert!(graph.get_tensor(&halved).unwrap().equals(&expected_half));
}

#[test]
fn kernel_error_passes_through() {
    let mut graph = CompGraph::new();
    let a = graph.create_root(Array::from_slice(&[1, 2], Shape::from_slice(&[2])));
    let b = graph.create_root(Array::from_slice(&[1, 2, 3], Shape::from_slice(&[3])));
    let bad = graph.add(&a, &b);
    assert!(matches!(
        graph.populating_eval(&bad),
        Err(ComputationGraphError::ComputationError(_))
    ));
    let zero = graph.create_root(Array::from_slice(&[0, 1], Shape::from_slice(&[2])));
    let div = graph.div(&a, &zero);
    assert!(matches!(
        graph.non_populating_eval(&div),
        Err(ComputationGraphError::ComputationError(_))
    ));
}
