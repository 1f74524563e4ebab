use autodiff::{backward, topology_sort, Graph};

#[test]
fn multiplication() {
    let mut graph = Graph::new();
    let left = graph.constant(2);
    let right = graph.constant(3);
    let result = graph.mul(left, right);

    backward(&mut graph, result);

    // Print
    println!("{:?}", graph.node(result));
}

#[test]
fn single_multiply_gradient() {
    let mut graph = Graph::new();
    let a = graph.constant(2);
    let b = graph.constant(3);
    let c = graph.mul(a, b);
    assert_eq!(graph.node(c).value, 6);
    backward(&mut graph, c);
    assert_eq!(graph.node(a).gradient, 3);
    assert_eq!(graph.node(b).gradient, 2);
    assert_eq!(graph.node(c).gradient, 1);
}

#[test]
fn chain_rule_across_depth_with_a_shared_leaf() {
    let mut graph = Graph::new();
    let a = graph.constant(2);
    let b = graph.constant(3);
    let ab = graph.mul(a, b);
    let d = graph.mul(ab, a);
    assert_eq!(graph.node(d).value, 12);
    backward(&mut graph, d);
    assert_eq!(graph.node(a).gradient, 12);
    assert_eq!(graph.node(b).gradient, 4);
    assert_eq!(graph.node(ab).gradient, 2);
    assert_eq!(graph.node(d).gradient, 1);
}

#[test]
fn shared_inner_node_is_swept_once() {
    let mut graph = Graph::new();
    let a = graph.constant(2i64);
    let b = graph.constant(3i64);
    let c = graph.mul(a, b);
    let d = graph.mul(c, c);
    assert_eq!(graph.node(d).value, 36);
    backward(&mut graph, d);
    assert_eq!(graph.node(d).gradient, 1);
    assert_eq!(graph.node(c).gradient, 12);
    assert_eq!(graph.node(a).gradient, 36);
    assert_eq!(graph.node(b).gradient, 24);
}

#[test]
fn square_of_a_leaf() {
    let mut graph = Graph::new();
    let x = graph.constant(5);
    let square = graph.mul(x, x);
    backward(&mut graph, square);
    assert_eq!(graph.node(x).gradient, 10);
    assert_eq!(graph.node(square).gradient, 1);
}

#[test]
fn backward_from_a_leaf_seeds_it_with_one() {
    let mut graph = Graph::new();
    let a = graph.constant(42);
    let b = graph.constant(7);
    backward(&mut graph, a);
    assert_eq!(graph.node(a).gradient, 1);
    assert_eq!(graph.node(b).gradient, 0);
}

#[test]
fn backward_leaves_unreached_nodes_alone() {
    let mut graph = Graph::new();
    let a = graph.constant(2);
    let b = graph.constant(3);
    let c = graph.mul(a, b);
    let e = graph.constant(7);
    let f = graph.mul(c, e);
    backward(&mut graph, c);
    assert_eq!(graph.node(a).gradient, 3);
    assert_eq!(graph.node(b).gradient, 2);
    assert_eq!(graph.node(c).gradient, 1);
    assert_eq!(graph.node(e).gradient, 0);
    assert_eq!(graph.node(f).gradient, 0);
}

#[test]
fn backward_changes_gradients_only() {
    let mut graph = Graph::new();
    let a = graph.constant(2);
    let b = graph.constant(3);
    let c = graph.mul(a, b);
    let d = graph.mul(c, a);
    backward(&mut graph, d);
    assert_eq!(graph.len(), 4);
    assert_eq!(graph.node(a).value, 2);
    assert_eq!(graph.node(b).value, 3);
    assert_eq!(graph.node(c).value, 6);
    assert_eq!(graph.node(d).value, 12);
    assert_eq!(graph.node(c).children(), &vec![a, b]);
    assert_eq!(graph.node(d).children(), &vec![c, a]);
}

#[test]
fn backward_twice_doubles_every_gradient() {
    let mut graph = Graph::new();
    let a = graph.constant(2);
    let b = graph.constant(3);
    let c = graph.mul(a, b);
    let d = graph.mul(c, a);
    backward(&mut graph, d);
    let once: Vec<i32> = (0..graph.len()).map(|id| graph.node(id).gradient).collect();
    assert_eq!(once, vec![12, 4, 2, 1]);
    backward(&mut graph, d);
    let twice: Vec<i32> = (0..graph.len()).map(|id| graph.node(id).gradient).collect();
    assert_eq!(twice, vec![24, 8, 4, 2]);
}

#[test]
fn backward_from_two_roots_adds_up() {
    let mut graph = Graph::new();
    let a = graph.constant(2);
    let b = graph.constant(3);
    let c = graph.mul(a, b);
    let d = graph.mul(c, a);
    backward(&mut graph, c);
    backward(&mut graph, d);
    assert_eq!(graph.node(a).gradient, 3 + 12);
    assert_eq!(graph.node(b).gradient, 2 + 4);
    assert_eq!(graph.node(c).gradient, 1 + 2);
    assert_eq!(graph.node(d).gradient, 1);
}

#[test]
fn backward_through_a_raw_operand() {
    let mut graph = Graph::new();
    let a = graph.constant(4);
    let product = graph.mul_value(a, 5);
    backward(&mut graph, product);
    assert_eq!(graph.node(a).gradient, 5);
    assert_eq!(graph.node(1).gradient, 4);
    assert_eq!(graph.node(product).gradient, 1);
}

#[test]
fn gradients_wrap_like_the_values() {
    let mut graph = Graph::new();
    let a = graph.constant(i32::MAX);
    let b = graph.constant(2);
    let c = graph.mul(a, b);
    let d = graph.mul(c, b);
    backward(&mut graph, d);
    assert_eq!(graph.node(c).gradient, 2);
    assert_eq!(graph.node(a).gradient, 4);
    assert_eq!(graph.node(b).gradient, (-2i32).wrapping_add(2i32.wrapping_mul(i32::MAX)));
    assert_eq!(graph.node(b).gradient, -4);
}

#[test]
fn topology_sort_of_a_leaf() {
    let mut graph = Graph::new();
    let a = graph.constant(1);
    let b = graph.constant(2);
    assert_eq!(topology_sort(&graph, a), vec![a]);
    assert_eq!(topology_sort(&graph, b), vec![b]);
}

#[test]
fn topology_sort_lists_operands_in_operand_order() {
    let mut graph = Graph::new();
    let a = graph.constant(2);
    let b = graph.constant(3);
    let ab = graph.mul(a, b);
    let ba = graph.mul(b, a);
    assert_eq!(topology_sort(&graph, ab), vec![a, b, ab]);
    assert_eq!(topology_sort(&graph, ba), vec![b, a, ba]);
}

#[test]
fn topology_sort_lists_a_shared_node_once() {
    let mut graph = Graph::new();
    let a = graph.constant(2);
    let b = graph.constant(3);
    let ab = graph.mul(a, b);
    let d = graph.mul(ab, a);
    assert_eq!(topology_sort(&graph, d), vec![a, b, ab, d]);
    let c = graph.mul(ab, ab);
    assert_eq!(topology_sort(&graph, c), vec![a, b, ab, c]);
}

#[test]
fn topology_sort_skips_what_the_root_does_not_use() {
    let mut graph = Graph::new();
    let a = graph.constant(2);
    let unused = graph.constant(9);
    let b = graph.constant(3);
    let ab = graph.mul(a, b);
    let later = graph.mul(ab, unused);
    assert_eq!(topology_sort(&graph, ab), vec![a, b, ab]);
    assert_eq!(topology_sort(&graph, later), vec![a, b, ab, unused, later]);
}

#[test]
fn topology_sort_is_a_topological_order() {
    let mut graph = Graph::new();
    let a = graph.constant(2i64);
    let b = graph.constant(3i64);
    let c = graph.mul(b, a);
    let d = graph.mul(c, c);
    let e = graph.mul_value(d, 7);
    let f = graph.mul(e, c);
    let g = graph.mul(a, f);
    let order = topology_sort(&graph, g);
    assert_eq!(order.last(), Some(&g));
    assert_eq!(order.len(), graph.len());
    for id in 0..graph.len() {
        assert_eq!(order.iter().filter(|&&x| x == id).count(), 1);
    }
    for (at, &id) in order.iter().enumerate() {
        for child in graph.node(id).children() {
            let child_at = order.iter().position(|x| x == child).unwrap();
            assert!(child_at < at);
        }
    }
}

#[test]
fn reset_gradients_gives_a_fresh_start() {
    let mut graph = Graph::new();
    let a = graph.constant(2);
    let b = graph.constant(3);
    let c = graph.mul(a, b);
    let d = graph.mul(c, a);
    backward(&mut graph, d);
    backward(&mut graph, c);
    graph.reset_gradients();
    for id in 0..graph.len() {
        assert_eq!(graph.node(id).gradient, 0);
    }
    assert_eq!(graph.node(c).value, 6);
    assert_eq!(graph.node(d).value, 12);
    assert_eq!(graph.node(d).children(), &vec![c, a]);
    backward(&mut graph, d);
    assert_eq!(graph.node(a).gradient, 12);
    assert_eq!(graph.node(b).gradient, 4);
    assert_eq!(graph.node(c).gradient, 2);
    assert_eq!(graph.node(d).gradient, 1);
}
