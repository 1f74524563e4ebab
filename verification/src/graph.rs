//! Nodes and the arena that holds them.
//!
//! A [`Graph`] owns its nodes in the order in which they were made. A node is
//! named by its position, and the operands of a node are positions of nodes
//! made before it, so the dependency graph is acyclic by construction and a
//! node may be an operand of any number of later nodes.

use vstd::prelude::*;
use crate::scalar::Scalar;

verus! {

/// The rule by which a node hands its gradient on to its operands: one
/// variant for each operator the graph offers.
#[derive(Clone, Copy, Debug, PartialEq, Eq, Structural)]
pub enum GradFn {
    /// A value lifted into the graph; there is nothing to hand on.
    Leaf,
    /// The product of two operands.
    Multiply,
}

impl GradFn {
    /// The number of operands the rule expects.
    pub open spec fn arity(self) -> nat {
        match self {
            GradFn::Leaf => 0,
            GradFn::Multiply => 2,
        }
    }
}

/// A differentiable value: one node of an expression graph.
#[derive(Clone, Debug)]
pub struct Differentiable<T> {
    /// The value of the node, fixed when the node is made.
    pub value: T,
    /// The gradient accumulated for the node so far.
    pub gradient: T,
    /// The positions of the operands this node was computed from.
    children: Vec<usize>,
    /// The rule that gives the local derivative with respect to each operand.
    grad_fn: GradFn,
}

/// The mathematical content of a node.
pub struct NodeView<T> {
    pub value: T,
    pub gradient: T,
    pub children: Seq<int>,
    pub grad_fn: GradFn,
}

impl<T> View for Differentiable<T> {
    type V = NodeView<T>;

    closed spec fn view(&self) -> NodeView<T> {
        NodeView {
            value: self.value,
            gradient: self.gradient,
            children: self.children@.map_values(|c: usize| c as int),
            grad_fn: self.grad_fn,
        }
    }
}

/// The leaf that a raw value is lifted to.
pub open spec fn leaf_node<T: Scalar>(value: T) -> NodeView<T> {
    NodeView { value, gradient: T::from_int(0), children: Seq::empty(), grad_fn: GradFn::Leaf }
}

/// The node that multiplying the nodes at `lhs` and `rhs` of `g` produces.
pub open spec fn product_node<T: Scalar>(g: Seq<NodeView<T>>, lhs: int, rhs: int) -> NodeView<T> {
    NodeView {
        value: T::from_int(g[lhs].value.as_int() * g[rhs].value.as_int()),
        gradient: T::from_int(0),
        children: seq![lhs, rhs],
        grad_fn: GradFn::Multiply,
    }
}

/// Positions as the integers they are.
pub open spec fn positions(ids: Seq<usize>) -> Seq<int> {
    ids.map_values(|id: usize| id as int)
}

/// Every operand of the node at position `i` was made before it.
pub open spec fn operands_precede<T>(g: Seq<NodeView<T>>, i: int) -> bool {
    forall|k: int| 0 <= k < g[i].children.len() ==> 0 <= #[trigger] g[i].children[k] < i
}

/// No node of the graph depends on itself: operands always come first.
pub open spec fn acyclic<T>(g: Seq<NodeView<T>>) -> bool {
    forall|i: int| 0 <= i < g.len() ==> #[trigger] operands_precede(g, i)
}

/// What must hold of the node at position `i`: it has as many operands as its
/// rule expects, each operand was made before it, and its value is the one
/// its operator computes from the operands' values.
pub open spec fn node_well_formed<T: Scalar>(g: Seq<NodeView<T>>, i: int) -> bool {
    &&& g[i].children.len() == g[i].grad_fn.arity()
    &&& operands_precede(g, i)
    &&& g[i].grad_fn == GradFn::Multiply ==> g[i].value == T::from_int(
        g[g[i].children[0]].value.as_int() * g[g[i].children[1]].value.as_int(),
    )
}

/// Every node of the graph is well formed.
pub open spec fn well_formed<T: Scalar>(g: Seq<NodeView<T>>) -> bool {
    forall|i: int| 0 <= i < g.len() ==> #[trigger] node_well_formed(g, i)
}

/// A well-formed graph is acyclic.
pub proof fn lemma_well_formed_acyclic<T: Scalar>(g: Seq<NodeView<T>>)
    requires
        well_formed(g),
    ensures
        acyclic(g),
{
    assert forall|i: int| 0 <= i < g.len() implies #[trigger] operands_precede(g, i) by {
        assert(node_well_formed(g, i));
    }
}

/// The local derivatives of the node at `i`, one per operand and in operand
/// order. For a product that is the value of the other operand.
pub open spec fn local_gradient<T: Scalar>(g: Seq<NodeView<T>>, i: int) -> Seq<T> {
    match g[i].grad_fn {
        GradFn::Leaf => Seq::empty(),
        GradFn::Multiply => seq![g[g[i].children[1]].value, g[g[i].children[0]].value],
    }
}

/// `before` and `after` are the same graph but for the gradients.
pub open spec fn unchanged_but_gradients<T>(
    before: Seq<NodeView<T>>,
    after: Seq<NodeView<T>>,
) -> bool {
    &&& after.len() == before.len()
    &&& forall|i: int|
        0 <= i < before.len() ==> {
            &&& (#[trigger] after[i]).value == before[i].value
            &&& after[i].children == before[i].children
            &&& after[i].grad_fn == before[i].grad_fn
        }
}

/// A gradient rule yields one local derivative per operand.
pub proof fn lemma_local_gradient_len<T: Scalar>(g: Seq<NodeView<T>>, i: int)
    requires
        well_formed(g),
        0 <= i < g.len(),
    ensures
        local_gradient(g, i).len() == g[i].children.len(),
{
    assert(node_well_formed(g, i));
}

/// The graph with every gradient back at zero.
pub open spec fn cleared<T: Scalar>(g: Seq<NodeView<T>>) -> Seq<NodeView<T>> {
    Seq::new(g.len(), |i: int| NodeView { gradient: T::from_int(0), ..g[i] })
}

/// The node at `a` of `g` and the node at `b` of `h` stand for the same
/// expression: the same operator applied, operand by operand, to the same
/// expressions, down to leaves of equal value. Gradients play no part.
pub open spec fn same_expression<T>(
    g: Seq<NodeView<T>>,
    a: int,
    h: Seq<NodeView<T>>,
    b: int,
) -> bool
    decreases a,
    when acyclic(g) && 0 <= a < g.len()
    via same_expression_decreases::<T>
{
    &&& g[a].grad_fn == h[b].grad_fn
    &&& g[a].children.len() == h[b].children.len()
    &&& g[a].grad_fn == GradFn::Leaf ==> g[a].value == h[b].value
    &&& forall|k: int|
        0 <= k < g[a].children.len() ==> same_expression(
            g,
            #[trigger] g[a].children[k],
            h,
            h[b].children[k],
        )
}

#[via_fn]
proof fn same_expression_decreases<T>(g: Seq<NodeView<T>>, a: int, h: Seq<NodeView<T>>, b: int) {
    assert(operands_precede(g, a));
}

/// The value of a node is a function of the expression it stands for: two
/// nodes that stand for the same expression hold the same value, in
/// whichever graphs they live and whatever gradients those graphs carry.
pub proof fn lemma_same_expression_same_value<T: Scalar>(
    g: Seq<NodeView<T>>,
    a: int,
    h: Seq<NodeView<T>>,
    b: int,
)
    requires
        well_formed(g),
        well_formed(h),
        0 <= a < g.len(),
        0 <= b < h.len(),
        same_expression(g, a, h, b),
    ensures
        g[a].value == h[b].value,
    decreases a,
{
    lemma_well_formed_acyclic(g);
    assert(node_well_formed(g, a));
    assert(node_well_formed(h, b));
    if g[a].grad_fn == GradFn::Multiply {
        assert(operands_precede(h, b));
        assert(0 <= g[a].children[0] < a);
        assert(0 <= g[a].children[1] < a);
        assert(0 <= h[b].children[0] < b);
        assert(0 <= h[b].children[1] < b);
        lemma_same_expression_same_value(g, g[a].children[0], h, h[b].children[0]);
        lemma_same_expression_same_value(g, g[a].children[1], h, h[b].children[1]);
    }
}

impl<T: Scalar> Differentiable<T> {
    /// Lifts a raw value to a leaf: the value itself, a zero gradient and no
    /// operands.
    pub fn from(value: T) -> (node: Self)
        ensures
            node@ == leaf_node(value),
    {
        let node = Differentiable {
            value,
            gradient: T::zero(),
            children: Vec::new(),
            grad_fn: GradFn::Leaf,
        };
        assert(node@.children =~= Seq::empty());
        node
    }

    /// The product of the nodes at `lhs` and `rhs`, which hold `a` and `b`.
    fn product(lhs: usize, a: T, rhs: usize, b: T) -> (node: Self)
        ensures
            node@ == (NodeView {
                value: T::from_int(a.as_int() * b.as_int()),
                gradient: T::from_int(0),
                children: seq![lhs as int, rhs as int],
                grad_fn: GradFn::Multiply,
            }),
    {
        let mut children: Vec<usize> = Vec::new();
        children.push(lhs);
        children.push(rhs);
        let node = Differentiable {
            value: a.times(b),
            gradient: T::zero(),
            children,
            grad_fn: GradFn::Multiply,
        };
        assert(node@.children =~= seq![lhs as int, rhs as int]);
        node
    }
}

impl<T: Copy> Differentiable<T> {
    /// The value of the node.
    pub fn value(&self) -> (value: T)
        ensures
            value == self@.value,
    {
        self.value
    }

    /// The gradient accumulated for the node so far.
    pub fn gradient(&self) -> (gradient: T)
        ensures
            gradient == self@.gradient,
    {
        self.gradient
    }
}

impl<T> Differentiable<T> {
    /// The positions of the operands, in operand order.
    pub fn children(&self) -> (children: &Vec<usize>)
        ensures
            positions(children@) == self@.children,
    {
        &self.children
    }

    /// The node's gradient rule.
    pub fn grad_fn(&self) -> (rule: GradFn)
        ensures
            rule == self@.grad_fn,
    {
        self.grad_fn
    }
}

/// An expression graph: the nodes made so far, oldest first.
#[derive(Clone, Debug)]
pub struct Graph<T> {
    nodes: Vec<Differentiable<T>>,
}

impl<T> View for Graph<T> {
    type V = Seq<NodeView<T>>;

    closed spec fn view(&self) -> Seq<NodeView<T>> {
        self.nodes@.map_values(|n: Differentiable<T>| n@)
    }
}

impl<T: Scalar> Graph<T> {
    /// The invariant of a graph: every node is well formed.
    pub open spec fn wf(&self) -> bool {
        well_formed(self@)
    }

    /// A graph without nodes.
    pub fn new() -> (graph: Self)
        ensures
            graph.wf(),
            graph@ == Seq::<NodeView<T>>::empty(),
    {
        let graph = Graph { nodes: Vec::new() };
        assert(graph@ =~= Seq::<NodeView<T>>::empty());
        graph
    }

    /// The number of nodes.
    pub fn len(&self) -> (n: usize)
        ensures
            n == self@.len(),
    {
        self.nodes.len()
    }

    /// The node at position `id`.
    pub fn node(&self, id: usize) -> (node: &Differentiable<T>)
        requires
            id < self@.len(),
        ensures
            node@ == self@[id as int],
    {
        &self.nodes[id]
    }

    /// Lifts `value` into the graph as a new leaf and returns its position.
    pub fn constant(&mut self, value: T) -> (id: usize)
        requires
            old(self).wf(),
        ensures
            final(self).wf(),
            id == old(self)@.len(),
            final(self)@ == old(self)@.push(leaf_node(value)),
    {
        let id = self.nodes.len();
        self.nodes.push(Differentiable::from(value));
        proof {
            let before = old(self)@;
            let after = self@;
            assert(after =~= before.push(leaf_node(value)));
            assert forall|i: int| 0 <= i < after.len() implies #[trigger] node_well_formed(
                after,
                i,
            ) by {
                if i < before.len() {
                    assert(node_well_formed(before, i));
                }
            }
        }
        id
    }

    /// Multiplies the nodes at `lhs` and `rhs`: adds the node that holds the
    /// product of their values, with `lhs` and `rhs` as its operands in that
    /// order and a zero gradient, and returns its position.
    pub fn mul(&mut self, lhs: usize, rhs: usize) -> (id: usize)
        requires
            old(self).wf(),
            lhs < old(self)@.len(),
            rhs < old(self)@.len(),
        ensures
            final(self).wf(),
            id == old(self)@.len(),
            final(self)@ == old(self)@.push(product_node(old(self)@, lhs as int, rhs as int)),
    {
        let id = self.nodes.len();
        let node = Differentiable::product(lhs, self.nodes[lhs].value, rhs, self.nodes[rhs].value);
        self.nodes.push(node);
        proof {
            let before = old(self)@;
            let after = self@;
            assert(after =~= before.push(product_node(before, lhs as int, rhs as int)));
            assert forall|i: int| 0 <= i < after.len() implies #[trigger] node_well_formed(
                after,
                i,
            ) by {
                if i < before.len() {
                    assert(node_well_formed(before, i));
                }
            }
        }
        id
    }

    /// Multiplies the node at `lhs` by a raw value: lifts `rhs` to a leaf
    /// first, then multiplies the two nodes. Returns the position of the
    /// product, which is the node after the new leaf.
    pub fn mul_value(&mut self, lhs: usize, rhs: T) -> (id: usize)
        requires
            old(self).wf(),
            lhs < old(self)@.len(),
        ensures
            final(self).wf(),
            id == old(self)@.len() + 1,
            final(self)@ == old(self)@.push(leaf_node(rhs)).push(
                product_node(old(self)@.push(leaf_node(rhs)), lhs as int, old(self)@.len() as int),
            ),
    {
        let leaf = self.constant(rhs);
        self.mul(lhs, leaf)
    }

    /// Applies the gradient rule of the node at `id`: the local derivative
    /// with respect to each operand, in operand order.
    pub fn local_gradient(&self, id: usize) -> (partials: Vec<T>)
        requires
            self.wf(),
            id < self@.len(),
        ensures
            partials@ == local_gradient(self@, id as int),
            partials@.len() == self@[id as int].children.len(),
    {
        assert(node_well_formed(self@, id as int));
        let node = &self.nodes[id];
        let mut partials: Vec<T> = Vec::new();
        match node.grad_fn {
            GradFn::Leaf => {},
            GradFn::Multiply => {
                assert(node@.children[0] == node.children@[0]);
                assert(node@.children[1] == node.children@[1]);
                partials.push(self.nodes[node.children[1]].value);
                partials.push(self.nodes[node.children[0]].value);
            },
        }
        assert(partials@ =~= local_gradient(self@, id as int));
        partials
    }

    /// Sets every gradient back to zero, so that the next backward pass
    /// starts afresh. Values, operands and rules stay as they are.
    pub fn reset_gradients(&mut self)
        requires
            old(self).wf(),
        ensures
            final(self).wf(),
            final(self)@ == cleared(old(self)@),
    {
        let n = self.nodes.len();
        let zero = T::zero();
        let mut i: usize = 0;
        while i < n
            invariant
                i <= n,
                n == old(self)@.len(),
                self@.len() == n,
                self.wf(),
                zero == T::from_int(0),
                forall|j: int| 0 <= j < i ==> #[trigger] self@[j] == cleared(old(self)@)[j],
                forall|j: int| i <= j < n ==> #[trigger] self@[j] == old(self)@[j],
            decreases n - i,
        {
            self.set_gradient(i, zero);
            i += 1;
        }
        assert(self@ =~= cleared(old(self)@));
    }

    /// Adds `amount` to the gradient of the node at `id`.
    pub(crate) fn accumulate(&mut self, id: usize, amount: T)
        requires
            old(self).wf(),
            id < old(self)@.len(),
        ensures
            final(self).wf(),
            final(self)@ == old(self)@.update(
                id as int,
                (NodeView {
                    gradient: T::from_int(
                        old(self)@[id as int].gradient.as_int() + amount.as_int(),
                    ),
                    ..old(self)@[id as int]
                }),
            ),
    {
        let sum = self.nodes[id].gradient.plus(amount);
        self.set_gradient(id, sum);
    }

    /// Replaces the gradient of the node at `id`.
    fn set_gradient(&mut self, id: usize, gradient: T)
        requires
            old(self).wf(),
            id < old(self)@.len(),
        ensures
            final(self).wf(),
            final(self)@ == old(self)@.update(
                id as int,
                (NodeView { gradient, ..old(self)@[id as int] }),
            ),
    {
        self.nodes[id].gradient = gradient;
        proof {
            let before = old(self)@;
            let after = self@;
            assert(after =~= before.update(
                id as int,
                (NodeView { gradient, ..before[id as int] }),
            ));
            assert forall|i: int| 0 <= i < after.len() implies #[trigger] node_well_formed(
                after,
                i,
            ) by {
                assert(node_well_formed(before, i));
            }
        }
    }
}

} // verus!
