use autodiff::{Differentiable, GradFn, Graph};

#[test]
fn constants() {
    let result = Differentiable::from(2);
    assert_eq!(result.value, 2);
}

#[test]
fn leaf_has_value_zero_gradient_and_no_operands() {
    let leaf = Differentiable::from(7i64);
    assert_eq!(leaf.value, 7);
    assert_eq!(leaf.gradient, 0);
    assert_eq!(leaf.value(), 7);
    assert_eq!(leaf.gradient(), 0);
    assert!(leaf.children().is_empty());
    assert_eq!(leaf.grad_fn(), GradFn::Leaf);
}

#[test]
fn leaf_of_negative_value() {
    let leaf = Differentiable::from(-5);
    assert_eq!(leaf.value, -5);
    assert_eq!(leaf.gradient, 0);
}

#[test]
fn new_graph_is_empty() {
    let graph: Graph<i32> = Graph::new();
    assert_eq!(graph.len(), 0);
}

#[test]
fn constant_appends_a_leaf() {
    let mut graph = Graph::new();
    let a = graph.constant(2);
    let b = graph.constant(3);
    assert_eq!(a, 0);
    assert_eq!(b, 1);
    assert_eq!(graph.len(), 2);
    assert_eq!(graph.node(a).value, 2);
    assert_eq!(graph.node(b).value, 3);
    assert_eq!(graph.node(a).gradient, 0);
    assert_eq!(graph.node(b).gradient, 0);
    assert!(graph.node(a).children().is_empty());
    assert_eq!(graph.node(b).grad_fn(), GradFn::Leaf);
}

#[test]
fn mul_computes_the_product_and_keeps_operand_order() {
    let mut graph = Graph::new();
    let a = graph.constant(2);
    let b = graph.constant(3);
    let c = graph.mul(a, b);
    assert_eq!(c, 2);
    assert_eq!(graph.len(), 3);
    assert_eq!(graph.node(c).value, 6);
    assert_eq!(graph.node(c).gradient, 0);
    assert_eq!(graph.node(c).children(), &vec![a, b]);
    assert_eq!(graph.node(c).grad_fn(), GradFn::Multiply);
    let d = graph.mul(b, a);
    assert_eq!(graph.node(d).children(), &vec![b, a]);
    assert_eq!(graph.node(d).value, 6);
}

#[test]
fn mul_leaves_earlier_nodes_alone() {
    let mut graph = Graph::new();
    let a = graph.constant(4);
    let b = graph.constant(-3);
    let c = graph.mul(a, b);
    assert_eq!(graph.node(a).value, 4);
    assert_eq!(graph.node(b).value, -3);
    assert_eq!(graph.node(c).value, -12);
    assert!(graph.node(a).children().is_empty());
}

#[test]
fn mul_of_a_node_with_itself() {
    let mut graph = Graph::new();
    let x = graph.constant(5);
    let square = graph.mul(x, x);
    assert_eq!(graph.node(square).value, 25);
    assert_eq!(graph.node(square).children(), &vec![x, x]);
}

#[test]
fn mul_value_lifts_the_raw_operand_first() {
    let mut graph = Graph::new();
    let a = graph.constant(4);
    let product = graph.mul_value(a, 5);
    assert_eq!(graph.len(), 3);
    assert_eq!(product, 2);
    assert_eq!(graph.node(1).value, 5);
    assert_eq!(graph.node(1).gradient, 0);
    assert_eq!(graph.node(1).grad_fn(), GradFn::Leaf);
    assert_eq!(graph.node(product).value, 20);
    assert_eq!(graph.node(product).children(), &vec![a, 1]);
}

#[test]
fn local_gradient_of_a_leaf_is_empty() {
    let mut graph = Graph::new();
    let a = graph.constant(9);
    assert!(graph.local_gradient(a).is_empty());
}

#[test]
fn local_gradient_of_a_product_is_the_other_operand() {
    let mut graph = Graph::new();
    let a = graph.constant(2);
    let b = graph.constant(3);
    let c = graph.mul(a, b);
    assert_eq!(graph.local_gradient(c), vec![3, 2]);
    let d = graph.mul(c, a);
    assert_eq!(graph.local_gradient(d), vec![2, 6]);
}

#[test]
fn local_gradient_has_one_entry_per_operand() {
    let mut graph = Graph::new();
    let a = graph.constant(2);
    let b = graph.mul_value(a, 10);
    for id in 0..graph.len() {
        assert_eq!(graph.local_gradient(id).len(), graph.node(id).children().len());
    }
    assert_eq!(graph.local_gradient(b), vec![10, 2]);
}

#[test]
fn products_wrap_in_thirty_two_bits() {
    let mut graph = Graph::new();
    let a = graph.constant(i32::MAX);
    let b = graph.constant(2);
    let c = graph.mul(a, b);
    assert_eq!(graph.node(c).value, -2);
}

#[test]
fn products_wrap_in_sixty_four_bits() {
    let mut graph = Graph::new();
    let a = graph.constant(i64::MIN);
    let b = graph.constant(-1i64);
    let c = graph.mul(a, b);
    assert_eq!(graph.node(c).value, i64::MIN);
    let d = graph.constant(3_000_000_000i64);
    let e = graph.mul(d, d);
    assert_eq!(graph.node(e).value, 9_000_000_000_000_000_000i64);
}

#[test]
fn same_expression_built_twice_has_the_same_values() {
    let mut first = Graph::new();
    let a = first.constant(2);
    let b = first.constant(3);
    let c = first.mul(a, b);
    let d = first.mul(c, a);
    autodiff::backward(&mut first, d);
    autodiff::backward(&mut first, d);

    let mut second = Graph::new();
    let unrelated = second.constant(100);
    let a2 = second.constant(2);
    let b2 = second.constant(3);
    let c2 = second.mul(a2, b2);
    let d2 = second.mul(c2, a2);

    assert_eq!(first.node(c).value, second.node(c2).value);
    assert_eq!(first.node(d).value, second.node(d2).value);
    assert_eq!(first.node(d).value, 12);
    assert_eq!(second.node(unrelated).value, 100);
}
