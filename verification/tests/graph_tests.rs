use compute_graph::graph::{ComputeError, Graph, Input, Node};

type Transform = fn(Vec<u64>) -> Vec<u64>;

fn w(x: f32) -> u64 {
    x.to_bits() as u64
}

fn uw(v: u64) -> f32 {
    f32::from_bits(v as u32)
}

fn round(x: f32, precision: u32) -> f32 {
    let m = 10i32.pow(precision) as f32;
    (x * m).round() / m
}

fn cube(input: Vec<u64>) -> Vec<u64> {
    vec![w(uw(input[0]).powf(3.0))]
}

fn add2(input: Vec<u64>) -> Vec<u64> {
    vec![w(uw(input[0]) + uw(input[1]))]
}

fn sine(input: Vec<u64>) -> Vec<u64> {
    vec![w(uw(input[0]).sin())]
}

fn mul2(input: Vec<u64>) -> Vec<u64> {
    vec![w(uw(input[0]) * uw(input[1]))]
}

fn sub2(input: Vec<u64>) -> Vec<u64> {
    vec![w(uw(input[0]) - uw(input[1]))]
}

fn ident(input: Vec<u64>) -> Vec<u64> {
    input
}

fn sum_all(input: Vec<u64>) -> Vec<u64> {
    let mut total: f32 = 0.0;
    for v in input {
        total += uw(v);
    }
    vec![w(total)]
}

#[test]
fn test_1() {
    let mut g: Graph<Transform> = Graph::new();
    let node_1 = Node::new(&mut g, cube);
    let node_2 = Node::new(&mut g, add2);
    let node_3 = Node::new(&mut g, sine);
    let node_4 = Node::new(&mut g, mul2);
    let node_5 = Node::new(&mut g, add2);

    let node_1_input = node_1.input();
    let node_2_input = node_2.input();
    let node_4_input = node_4.input();
    let node_5_input = node_5.input();

    node_1_input.set(&mut g, vec![w(3.0)]);
    node_2_input.set(&mut g, vec![w(2.0)]);
    node_4_input.set(&mut g, vec![w(2.0)]);
    node_5_input.set(&mut g, vec![w(1.0)]);

    node_2.add_children(&mut g, &node_1);
    node_3.add_children(&mut g, &node_2);
    node_4.add_children(&mut g, &node_3);
    node_5.add_children(&mut g, &node_4);

    let output = node_5.compute(&mut g).unwrap();

    assert_eq!(round(uw(output[0]), 5), -0.32727);
}

#[test]
fn test_2() {
    let mut g: Graph<Transform> = Graph::new();
    let node_1 = Node::new(&mut g, cube);
    let node_2 = Node::new(&mut g, add2);
    let node_3 = Node::new(&mut g, sine);
    let node_4 = Node::new(&mut g, mul2);
    let node_5 = Node::new(&mut g, add2);

    let node_input_1 = Node::new(&mut g, ident);
    let node_input_2 = Node::new(&mut g, ident);
    let node_input_3 = Node::new(&mut g, ident);

    let input_1 = node_input_1.input();
    let input_2 = node_input_2.input();
    let input_3 = node_input_3.input();

    input_1.set(&mut g, vec![w(1.0)]);
    input_2.set(&mut g, vec![w(2.0)]);
    input_3.set(&mut g, vec![w(3.0)]);

    node_1.add_children(&mut g, &node_input_3);

    node_2.add_children(&mut g, &node_1);
    node_2.add_children(&mut g, &node_input_2);

    node_3.add_children(&mut g, &node_2);

    node_4.add_children(&mut g, &node_3);
    node_4.add_children(&mut g, &node_input_2);

    node_5.add_children(&mut g, &node_4);
    node_5.add_children(&mut g, &node_input_1);

    let output = node_5.compute(&mut g).unwrap();

    assert_eq!(round(uw(output[0]), 5), -0.32727);
}

#[test]
fn test_3() {
    let mut g: Graph<Transform> = Graph::new();
    let node_1 = Node::new(&mut g, cube);
    let node_2 = Node::new(&mut g, add2);
    let node_3 = Node::new(&mut g, sine);
    let node_4 = Node::new(&mut g, mul2);
    let node_5 = Node::new(&mut g, add2);

    let node_input_1 = Node::new(&mut g, ident);
    let node_input_2 = Node::new(&mut g, ident);
    let node_input_3 = Node::new(&mut g, ident);

    let input_1 = node_input_1.input();
    let input_2 = node_input_2.input();
    let input_3 = node_input_3.input();

    input_1.set(&mut g, vec![w(2.0)]);
    input_2.set(&mut g, vec![w(3.0)]);
    input_3.set(&mut g, vec![w(4.0)]);

    node_1.add_children(&mut g, &node_input_3);

    node_2.add_children(&mut g, &node_1);
    node_2.add_children(&mut g, &node_input_2);

    node_3.add_children(&mut g, &node_2);

    node_4.add_children(&mut g, &node_3);
    node_4.add_children(&mut g, &node_input_2);

    node_5.add_children(&mut g, &node_4);
    node_5.add_children(&mut g, &node_input_1);

    let output = node_5.compute(&mut g).unwrap();

    assert_eq!(round(uw(output[0]), 5), -0.56656);
}

#[test]
fn test_4() {
    let mut g: Graph<Transform> = Graph::new();
    let node_1 = Node::new(&mut g, cube);
    let node_2 = Node::new(&mut g, add2);

    node_1.add_children(&mut g, &node_2);
    node_2.add_children(&mut g, &node_1);

    let result = node_2.compute(&mut g);
    assert!(matches!(result, Err(ComputeError::Cycle)));
}

#[test]
fn test_cache_invalidation() {
    let mut g: Graph<Transform> = Graph::new();
    let node_1 = Node::new(&mut g, cube);
    let node_2 = Node::new(&mut g, add2);
    let node_3 = Node::new(&mut g, sine);
    let node_4 = Node::new(&mut g, mul2);
    let node_5 = Node::new(&mut g, add2);

    let node_input_1 = Node::new(&mut g, ident);
    let node_input_2 = Node::new(&mut g, ident);
    let node_input_3 = Node::new(&mut g, ident);

    let input_1 = node_input_1.input();
    let input_2 = node_input_2.input();
    let input_3 = node_input_3.input();

    input_1.set(&mut g, vec![w(2.0)]);
    input_2.set(&mut g, vec![w(3.0)]);
    input_3.set(&mut g, vec![w(4.0)]);

    node_1.add_children(&mut g, &node_input_3);

    node_2.add_children(&mut g, &node_1);
    node_2.add_children(&mut g, &node_input_2);

    node_3.add_children(&mut g, &node_2);

    node_4.add_children(&mut g, &node_3);
    node_4.add_children(&mut g, &node_input_2);

    node_5.add_children(&mut g, &node_4);
    node_5.add_children(&mut g, &node_input_1);

    {
        let output = node_5.compute(&mut g).unwrap();
        assert_eq!(round(uw(output[0]), 5), -0.56656);
    }

    input_1.set(&mut g, vec![w(3.0)]);

    let output = node_5.compute(&mut g).unwrap();
    assert_eq!(round(uw(output[0]), 5), 0.43344);
}

#[test]
fn memoized_recompute_returns_same_output() {
    let mut g: Graph<Transform> = Graph::new();
    let node_1 = Node::new(&mut g, cube);
    let node_2 = Node::new(&mut g, add2);

    node_1.input().set(&mut g, vec![w(3.0)]);
    node_2.input().set(&mut g, vec![w(2.0)]);
    node_2.add_children(&mut g, &node_1);

    let first = node_2.compute(&mut g).unwrap();
    let second = node_2.compute(&mut g).unwrap();
    assert_eq!(first, second);
    assert_eq!(round(uw(first[0]), 5), 29.0);
}

#[test]
fn dependency_order_feeds_argument_positions() {
    let mut g: Graph<Transform> = Graph::new();
    let a = Node::new(&mut g, ident);
    let b = Node::new(&mut g, ident);
    a.input().set(&mut g, vec![w(10.0)]);
    b.input().set(&mut g, vec![w(4.0)]);

    let first_minus_second = Node::new(&mut g, sub2);
    first_minus_second.add_children(&mut g, &a);
    first_minus_second.add_children(&mut g, &b);
    let out = first_minus_second.compute(&mut g).unwrap();
    assert_eq!(uw(out[0]), 6.0);

    let second_minus_first = Node::new(&mut g, sub2);
    second_minus_first.add_children(&mut g, &b);
    second_minus_first.add_children(&mut g, &a);
    let swapped = second_minus_first.compute(&mut g).unwrap();
    assert_eq!(uw(swapped[0]), -6.0);
}

#[test]
fn diamond_shares_one_cached_value() {
    let mut g: Graph<Transform> = Graph::new();
    let source = Node::new(&mut g, ident);
    source.input().set(&mut g, vec![w(5.0)]);

    let left = Node::new(&mut g, ident);
    let right = Node::new(&mut g, ident);
    left.add_children(&mut g, &source);
    right.add_children(&mut g, &source);

    let top = Node::new(&mut g, sub2);
    top.add_children(&mut g, &left);
    top.add_children(&mut g, &right);

    let out = top.compute(&mut g).unwrap();
    assert_eq!(uw(out[0]), 0.0);

    let left_out = left.compute(&mut g).unwrap();
    let right_out = right.compute(&mut g).unwrap();
    assert_eq!(left_out, right_out);
}

#[test]
fn insert_grows_set_input_and_invalidates() {
    let mut g: Graph<Transform> = Graph::new();
    let node = Node::new(&mut g, sum_all);
    let handle = node.input();
    handle.set(&mut g, vec![w(7.0)]);

    let before = node.compute(&mut g).unwrap();
    assert_eq!(uw(before[0]), 7.0);

    let applied = handle.insert(&mut g, 0, w(2.0));
    assert_eq!(applied, Some(()));
    let stored = handle.get(&g).unwrap();
    assert_eq!(stored.len(), 2);
    assert_eq!(uw(stored[0]), 2.0);
    assert_eq!(uw(stored[1]), 7.0);

    let out = node.compute(&mut g).unwrap();
    assert_eq!(uw(out[0]), 9.0);
}

#[test]
fn insert_on_unset_input_is_not_applicable() {
    let mut g: Graph<Transform> = Graph::new();
    let node = Node::new(&mut g, ident);
    let handle = node.input();

    assert_eq!(handle.insert(&mut g, 0, w(1.0)), None);
    assert_eq!(handle.get(&g), None);

    let out = node.compute(&mut g).unwrap();
    assert_eq!(out.len(), 0);
}

#[test]
fn set_empty_input_is_allowed() {
    let mut g: Graph<Transform> = Graph::new();
    let node = Node::new(&mut g, ident);
    let handle = node.input();
    handle.set(&mut g, vec![]);
    assert_eq!(handle.get(&g), Some(vec![]));
    let out = node.compute(&mut g).unwrap();
    assert_eq!(out.len(), 0);
}

#[test]
fn set_after_compute_reflects_new_value_transitively() {
    let mut g: Graph<Transform> = Graph::new();
    let source = Node::new(&mut g, ident);
    let doubler = Node::new(&mut g, mul2);
    let two = Node::new(&mut g, ident);
    two.input().set(&mut g, vec![w(2.0)]);
    source.input().set(&mut g, vec![w(1.0)]);
    doubler.add_children(&mut g, &source);
    doubler.add_children(&mut g, &two);

    let out = doubler.compute(&mut g).unwrap();
    assert_eq!(uw(out[0]), 2.0);

    source.input().set(&mut g, vec![w(21.0)]);
    let out2 = doubler.compute(&mut g).unwrap();
    assert_eq!(uw(out2[0]), 42.0);
}

#[test]
fn self_loop_fails_as_cycle() {
    let mut g: Graph<Transform> = Graph::new();
    let node = Node::new(&mut g, ident);
    node.add_children(&mut g, &node.clone());
    let result = node.compute(&mut g);
    assert!(matches!(result, Err(ComputeError::Cycle)));
}

#[test]
fn input_handles_share_node_state() {
    let mut g: Graph<Transform> = Graph::new();
    let node = Node::new(&mut g, ident);
    let h1: Input = node.input();
    let h2: Input = node.input();
    h1.set(&mut g, vec![w(1.5)]);
    assert_eq!(h2.get(&g), Some(vec![w(1.5)]));
    h2.set(&mut g, vec![w(2.5)]);
    assert_eq!(h1.get(&g), Some(vec![w(2.5)]));
}
