//! The backward pass: one sweep over the graph that adds to every node's
//! gradient the derivative of a chosen root with respect to that node.

use vstd::prelude::*;
use crate::graph::{
    acyclic, cleared, lemma_well_formed_acyclic, local_gradient, node_well_formed,
    operands_precede, positions, unchanged_but_gradients, well_formed, GradFn, Graph, NodeView,
};
use crate::scalar::{lemma_product_of_reduced, lemma_sum_of_reduced, Scalar};
use crate::topology::{is_operand, reachable, topological, topology_sort};

verus! {

/// The local derivative of the node at `p` with respect to its operand
/// number `k`, as an integer.
pub open spec fn partial<T: Scalar>(g: Seq<NodeView<T>>, p: int, k: int) -> int {
    local_gradient(g, p)[k].as_int()
}

/// The derivative of the node at `p` with respect to the node at `i`, taken
/// over the first `k` operands of `p`: the sum of the local derivatives of
/// those operands that are the node at `i`.
pub open spec fn weight_upto<T: Scalar>(g: Seq<NodeView<T>>, p: int, i: int, k: int) -> int
    decreases k,
{
    if k <= 0 {
        0
    } else {
        weight_upto(g, p, i, k - 1) + if g[p].children[k - 1] == i {
            partial(g, p, k - 1)
        } else {
            0
        }
    }
}

/// The derivative of the node at `p` with respect to the node at `i` as a
/// direct operand: a node used for several operands counts once for each.
pub open spec fn weight<T: Scalar>(g: Seq<NodeView<T>>, p: int, i: int) -> int {
    weight_upto(g, p, i, g[p].children.len() as int)
}

/// The derivative of the node at `root` with respect to the node at `i`, by
/// the chain rule: one for `root` itself, nothing for a node made after
/// `root`, and otherwise the sum, over the later nodes `q` up to `root`, of
/// the derivative of `root` with respect to `q` times the derivative of `q`
/// with respect to its direct operand `i`.
pub open spec fn adjoint<T: Scalar>(g: Seq<NodeView<T>>, root: int, i: int) -> int
    decreases root - i, root - i + 2,
{
    if i == root {
        1
    } else if i < root {
        inflow(g, root, i, root + 1)
    } else {
        0
    }
}

/// The part of the chain-rule sum for the node at `i` that comes from the
/// nodes after `i` and before `hi`.
pub open spec fn inflow<T: Scalar>(g: Seq<NodeView<T>>, root: int, i: int, hi: int) -> int
    decreases root - i, hi - i,
{
    if hi <= i + 1 || hi > root + 1 {
        0
    } else {
        inflow(g, root, i, hi - 1) + adjoint(g, root, hi - 1) * weight(g, hi - 1, i)
    }
}

/// The graph after a backward pass from `root`: every gradient has grown by
/// the derivative of `root` with respect to its node, and nothing else has
/// changed.
pub open spec fn accumulated<T: Scalar>(g: Seq<NodeView<T>>, root: int) -> Seq<NodeView<T>> {
    Seq::new(
        g.len(),
        |i: int|
            NodeView {
                gradient: T::from_int(g[i].gradient.as_int() + adjoint(g, root, i)),
                ..g[i]
            },
    )
}

/// Runs the backward pass from `root`: seeds the root with one, then walks
/// the nodes that `root` depends on from `root` down, each after every node
/// that uses it, and hands each node's share of the pass on to its operands,
/// scaled by the node's local derivatives.
///
/// Every gradient grows by the derivative of `root` with respect to its
/// node; gradients are added to, never reset, and nothing else changes. What
/// a node hands on is its share of this pass alone, not what earlier passes
/// have left in its gradient, so a pass adds the same amounts whatever the
/// gradients were before it.
pub fn backward<T: Scalar>(graph: &mut Graph<T>, root: usize)
    requires
        old(graph).wf(),
        root < old(graph)@.len(),
    ensures
        final(graph).wf(),
        final(graph)@ == accumulated(old(graph)@, root as int),
{
    let ghost g = graph@;
    let ghost r = root as int;
    let order = topology_sort(graph, root);
    let ghost ord = positions(order@);
    let n = graph.len();
    let one = T::one();
    let mut delta: Vec<T> = zeros(n);
    delta[root] = one;
    graph.accumulate(root, one);
    proof {
        lemma_well_formed_acyclic(g);
        let none = Set::<int>::empty();
        assert(processed(ord, ord.len() as int) =~= none);
        assert forall|i: int| 0 <= i < g.len() implies carried(g, r, none, i) == seed(r, i) by {
            lemma_received_none(g, r, i, g.len() as int);
        }
        assert forall|i: int| 0 <= i < g.len() implies (#[trigger] graph@[i]).gradient
            == T::from_int(g[i].gradient.as_int() + carried(g, r, none, i)) by {
            if i == r {
                lemma_sum_of_reduced::<T>(g[i].gradient.as_int(), 1);
                T::lemma_from_as_int(g[i].gradient);
            } else {
                T::lemma_from_as_int(g[i].gradient);
            }
        }
    }
    let mut idx: usize = order.len();
    while idx > 0
        invariant
            acyclic(g),
            well_formed(g),
            graph.wf(),
            0 <= r < g.len(),
            r == root,
            n == g.len(),
            ord == positions(order@),
            topological(g, r, ord),
            idx <= order.len(),
            sweep_state(
                g,
                graph@,
                delta@,
                |i: int| carried(g, r, processed(ord, idx as int), i),
            ),
        decreases idx,
    {
        idx -= 1;
        let node = order[idx];
        let ghost p = node as int;
        let ghost done = processed(ord, idx + 1);
        let ghost a = adjoint(g, r, p);
        proof {
            assert(ord[idx as int] == p);
            lemma_ready(g, r, ord, idx as int);
            assert(node_well_formed(g, p));
            assert(local_gradient(graph@, p) == local_gradient(g, p));
        }
        let upstream = delta[node];
        let partials = graph.local_gradient(node);
        let arity = partials.len();
        let mut k: usize = 0;
        while k < arity
            invariant
                acyclic(g),
                well_formed(g),
                graph.wf(),
                0 <= p < g.len(),
                p == node,
                n == g.len(),
                k <= arity,
                arity == g[p].children.len(),
                arity == partials@.len(),
                partials@ == local_gradient(g, p),
                upstream == T::from_int(a),
                sweep_state(
                    g,
                    graph@,
                    delta@,
                    |i: int| carried(g, r, done, i) + a * weight_upto(g, p, i, k as int),
                ),
            decreases arity - k,
        {
            let operands = graph.node(node).children();
            let child = operands[k];
            proof {
                assert(positions(operands@)[k as int] == child);
            }
            let contribution = upstream.times(partials[k]);
            let ghost c = child as int;
            let ghost y = partial(g, p, k as int);
            let ghost held = carried(g, r, done, c) + a * weight_upto(g, p, c, k as int);
            let ghost earlier = graph@;
            proof {
                assert(operands_precede(g, p));
                assert(c == g[p].children[k as int]);
                lemma_product_of_reduced::<T>(a, partials@[k as int]);
                assert(contribution == T::from_int(a * y));
                lemma_sum_of_reduced::<T>(held, a * y);
                lemma_sum_of_reduced::<T>(g[c].gradient.as_int() + held, a * y);
                assert(a * (weight_upto(g, p, c, k as int) + y) == a * weight_upto(
                    g,
                    p,
                    c,
                    k as int,
                ) + a * y) by (nonlinear_arith);
            }
            let sum = delta[child].plus(contribution);
            delta[child] = sum;
            graph.accumulate(child, contribution);
            k += 1;
            proof {
                assert(unchanged_but_gradients(g, graph@));
                assert forall|i: int| 0 <= i < g.len() implies #[trigger] delta@[i]
                    == T::from_int(carried(g, r, done, i) + a * weight_upto(g, p, i, k as int)) by {
                }
                assert forall|i: int| 0 <= i < g.len() implies (#[trigger] graph@[i]).gradient
                    == T::from_int(
                    g[i].gradient.as_int() + (carried(g, r, done, i) + a * weight_upto(
                        g,
                        p,
                        i,
                        k as int,
                    )),
                ) by {
                    if i != c {
                        assert(graph@[i] == earlier[i]);
                    }
                }
            }
        }
        proof {
            assert forall|i: int| 0 <= i < g.len() implies carried(g, r, done, i) + a * weight_upto(
                g,
                p,
                i,
                arity as int,
            ) == carried(g, r, processed(ord, idx as int), i) by {
                lemma_received_insert(g, r, done, p, i, g.len() as int);
            }
        }
    }
    proof {
        assert forall|i: int| 0 <= i < g.len() implies carried(g, r, processed(ord, 0), i)
            == adjoint(g, r, i) by {
            lemma_finished(g, r, ord, i);
        }
        assert(graph@ =~= accumulated(g, r));
    }
}

/// A vector of `n` zeros.
fn zeros<T: Scalar>(n: usize) -> (v: Vec<T>)
    ensures
        v@.len() == n,
        forall|i: int| 0 <= i < n ==> v@[i] == T::from_int(0),
{
    let mut v: Vec<T> = Vec::new();
    let mut i: usize = 0;
    while i < n
        invariant
            i <= n,
            v@.len() == i,
            forall|j: int| 0 <= j < i ==> v@[j] == T::from_int(0),
        decreases n - i,
    {
        v.push(T::zero());
        i += 1;
    }
    v
}

/// A backward pass changes gradients only: values, operands and rules stay,
/// and the graph stays well formed.
pub proof fn lemma_backward_keeps_expressions<T: Scalar>(g: Seq<NodeView<T>>, root: int)
    requires
        well_formed(g),
    ensures
        unchanged_but_gradients(g, accumulated(g, root)),
        well_formed(accumulated(g, root)),
{
    let after = accumulated(g, root);
    assert forall|i: int| 0 <= i < after.len() implies #[trigger] node_well_formed(after, i) by {
        assert(node_well_formed(g, i));
    }
}

/// The derivatives depend on the expressions only, not on the gradients a
/// graph carries.
pub proof fn lemma_adjoint_ignores_gradients<T: Scalar>(
    g: Seq<NodeView<T>>,
    h: Seq<NodeView<T>>,
    root: int,
    i: int,
)
    requires
        well_formed(g),
        unchanged_but_gradients(g, h),
        0 <= root < g.len(),
        0 <= i,
    ensures
        adjoint(h, root, i) == adjoint(g, root, i),
    decreases root - i, root - i + 2,
{
    if i < root {
        lemma_inflow_ignores_gradients(g, h, root, i, root + 1);
    }
}

/// The root's derivative with respect to a node it does not reach is zero.
pub proof fn lemma_adjoint_unreachable<T: Scalar>(g: Seq<NodeView<T>>, root: int, i: int)
    requires
        acyclic(g),
        0 <= root < g.len(),
        0 <= i,
        !reachable(g, root, i),
    ensures
        adjoint(g, root, i) == 0,
    decreases root - i, root - i + 2,
{
    if i < root {
        lemma_inflow_unreachable(g, root, i, root + 1);
    }
}

/// After a reset, a backward pass leaves in every node exactly the
/// derivative of `root` with respect to it.
pub proof fn lemma_backward_after_reset<T: Scalar>(g: Seq<NodeView<T>>, root: int, i: int)
    requires
        well_formed(g),
        0 <= root < g.len(),
        0 <= i < g.len(),
    ensures
        accumulated(cleared(g), root)[i].gradient == T::from_int(adjoint(g, root, i)),
{
    lemma_adjoint_ignores_gradients(g, cleared(g), root, i);
    T::lemma_add_congruent(0, adjoint(g, root, i));
}

/// Gradients are added to, never reset: a second backward pass from the same
/// root adds what the first one added.
pub proof fn lemma_backward_twice_adds_twice<T: Scalar>(g: Seq<NodeView<T>>, root: int, i: int)
    requires
        well_formed(g),
        0 <= root < g.len(),
        0 <= i < g.len(),
    ensures
        accumulated(accumulated(g, root), root)[i].gradient == T::from_int(
            g[i].gradient.as_int() + 2 * adjoint(g, root, i),
        ),
{
    let once = accumulated(g, root);
    let a = adjoint(g, root, i);
    lemma_backward_keeps_expressions(g, root);
    lemma_adjoint_ignores_gradients(g, once, root, i);
    T::lemma_add_congruent(g[i].gradient.as_int() + a, a);
}

/// On a graph whose gradients have not been touched, a second backward pass
/// from the same root doubles the gradient that the first pass left in a
/// node.
pub proof fn lemma_backward_twice_doubles<T: Scalar>(g: Seq<NodeView<T>>, root: int, i: int)
    requires
        well_formed(g),
        0 <= root < g.len(),
        0 <= i < g.len(),
        g[i].gradient == T::from_int(0),
    ensures
        accumulated(accumulated(g, root), root)[i].gradient == T::from_int(
            2 * accumulated(g, root)[i].gradient.as_int(),
        ),
{
    let a = adjoint(g, root, i);
    lemma_backward_twice_adds_twice(g, root, i);
    T::lemma_add_congruent(0, a);
    T::lemma_add_congruent(0, 2 * a);
    lemma_sum_of_reduced::<T>(a, a);
}

/// The same for every partial chain-rule sum.
proof fn lemma_inflow_ignores_gradients<T: Scalar>(
    g: Seq<NodeView<T>>,
    h: Seq<NodeView<T>>,
    root: int,
    i: int,
    hi: int,
)
    requires
        well_formed(g),
        unchanged_but_gradients(g, h),
        0 <= root < g.len(),
        0 <= i < root,
        hi <= root + 1,
    ensures
        inflow(h, root, i, hi) == inflow(g, root, i, hi),
    decreases root - i, hi - i,
{
    if hi > i + 1 {
        lemma_inflow_ignores_gradients(g, h, root, i, hi - 1);
        lemma_adjoint_ignores_gradients(g, h, root, hi - 1);
        lemma_weight_ignores_gradients(g, h, hi - 1, i, g[hi - 1].children.len() as int);
    }
}

/// The same for the derivative of a node with respect to a direct operand.
proof fn lemma_weight_ignores_gradients<T: Scalar>(
    g: Seq<NodeView<T>>,
    h: Seq<NodeView<T>>,
    p: int,
    i: int,
    k: int,
)
    requires
        well_formed(g),
        unchanged_but_gradients(g, h),
        0 <= p < g.len(),
        0 <= k <= g[p].children.len(),
    ensures
        weight_upto(h, p, i, k) == weight_upto(g, p, i, k),
    decreases k,
{
    if k > 0 {
        lemma_weight_ignores_gradients(g, h, p, i, k - 1);
        assert(node_well_formed(g, p));
        assert(operands_precede(g, p));
        assert(h[p].children == g[p].children);
        assert(0 <= g[p].children[0] < p);
        if g[p].grad_fn == GradFn::Multiply {
            assert(0 <= g[p].children[1] < p);
            assert(h[g[p].children[0]].value == g[g[p].children[0]].value);
            assert(h[g[p].children[1]].value == g[g[p].children[1]].value);
        }
        assert(local_gradient(h, p) =~= local_gradient(g, p));
    }
}

/// A node that is no operand of `p` gets nothing from `p`.
proof fn lemma_weight_of_stranger<T: Scalar>(g: Seq<NodeView<T>>, p: int, i: int, k: int)
    requires
        !is_operand(g, p, i),
        0 <= k <= g[p].children.len(),
    ensures
        weight_upto(g, p, i, k) == 0,
    decreases k,
{
    if k > 0 {
        lemma_weight_of_stranger(g, p, i, k - 1);
        assert(g[p].children.contains(g[p].children[k - 1]));
    }
}

/// In an acyclic graph a node is no operand of itself or of an earlier node.
proof fn lemma_weight_of_earlier<T: Scalar>(g: Seq<NodeView<T>>, p: int, i: int)
    requires
        acyclic(g),
        0 <= p < g.len(),
        p <= i,
    ensures
        weight(g, p, i) == 0,
{
    assert(operands_precede(g, p));
    lemma_weight_of_stranger(g, p, i, g[p].children.len() as int);
}

/// No part of the chain-rule sum of an unreached node is other than zero.
proof fn lemma_inflow_unreachable<T: Scalar>(g: Seq<NodeView<T>>, root: int, i: int, hi: int)
    requires
        acyclic(g),
        0 <= root < g.len(),
        0 <= i < root,
        !reachable(g, root, i),
        hi <= root + 1,
    ensures
        inflow(g, root, i, hi) == 0,
    decreases root - i, hi - i,
{
    if hi > i + 1 {
        let q = hi - 1;
        lemma_inflow_unreachable(g, root, i, hi - 1);
        if is_operand(g, q, i) {
            lemma_adjoint_unreachable(g, root, q);
        } else {
            lemma_weight_of_stranger(g, q, i, g[q].children.len() as int);
        }
        lemma_zero_product(adjoint(g, root, q), weight(g, q, i));
    }
}

/// A product with a zero factor is zero.
proof fn lemma_zero_product(a: int, b: int)
    requires
        a == 0 || b == 0,
    ensures
        a * b == 0,
{
    assert(a * b == 0) by (nonlinear_arith)
        requires
            a == 0 || b == 0,
    ;
}

/// What the nodes in `done` before position `hi` have handed to the node at
/// `i`: for each of them, the derivative of `root` with respect to it times
/// its derivative with respect to `i`.
spec fn received<T: Scalar>(g: Seq<NodeView<T>>, root: int, done: Set<int>, i: int, hi: int) -> int
    decreases hi,
{
    if hi <= 0 {
        0
    } else {
        received(g, root, done, i, hi - 1) + if done.contains(hi - 1) {
            adjoint(g, root, hi - 1) * weight(g, hi - 1, i)
        } else {
            0
        }
    }
}

/// What a pass from `root` starts the node at `i` with.
spec fn seed(root: int, i: int) -> int {
    if i == root {
        1
    } else {
        0
    }
}

/// Nothing is received while no node is done.
proof fn lemma_received_none<T: Scalar>(g: Seq<NodeView<T>>, root: int, i: int, hi: int)
    ensures
        received(g, root, Set::<int>::empty(), i, hi) == 0,
    decreases hi,
{
    if hi > 0 {
        lemma_received_none(g, root, i, hi - 1);
    }
}

/// A node that becomes done adds its own share to what is received.
proof fn lemma_received_insert<T: Scalar>(
    g: Seq<NodeView<T>>,
    root: int,
    done: Set<int>,
    p: int,
    i: int,
    hi: int,
)
    requires
        0 <= p,
        !done.contains(p),
    ensures
        received(g, root, done.insert(p), i, hi) == received(g, root, done, i, hi) + if p < hi {
            adjoint(g, root, p) * weight(g, p, i)
        } else {
            0
        },
    decreases hi,
{
    if hi > 0 {
        lemma_received_insert(g, root, done, p, i, hi - 1);
    }
}

/// Once every node that has something to hand to the node at `i` is done,
/// what the node has been started with and has received is the derivative
/// of `root` with respect to it.
proof fn lemma_received_settled<T: Scalar>(g: Seq<NodeView<T>>, root: int, done: Set<int>, i: int)
    requires
        acyclic(g),
        0 <= root < g.len(),
        0 <= i < g.len(),
        forall|q: int|
            0 <= q < g.len() && !done.contains(q) ==> adjoint(g, root, q) * weight(g, q, i) == 0,
    ensures
        seed(root, i) + received(g, root, done, i, g.len() as int) == adjoint(g, root, i),
{
    lemma_received_prefix(g, root, done, i, g.len() as int);
    if i < root {
        lemma_received_prefix(g, root, done, i, root + 1);
        lemma_inflow_beyond(g, root, i, g.len() as int);
    }
}

/// Adds up, for the node at `i`, the shares of all nodes before `hi`.
spec fn shares<T: Scalar>(g: Seq<NodeView<T>>, root: int, i: int, hi: int) -> int
    decreases hi,
{
    if hi <= 0 {
        0
    } else {
        shares(g, root, i, hi - 1) + adjoint(g, root, hi - 1) * weight(g, hi - 1, i)
    }
}

/// While the nodes that are not done have nothing to hand to the node at
/// `i`, what it has received is the sum of all shares, which is nothing up to
/// the node itself and the chain-rule sum from there to `root`.
proof fn lemma_received_prefix<T: Scalar>(
    g: Seq<NodeView<T>>,
    root: int,
    done: Set<int>,
    i: int,
    hi: int,
)
    requires
        acyclic(g),
        0 <= root < g.len(),
        0 <= i < g.len(),
        0 <= hi <= g.len(),
        forall|q: int|
            0 <= q < g.len() && !done.contains(q) ==> adjoint(g, root, q) * weight(g, q, i) == 0,
    ensures
        received(g, root, done, i, hi) == shares(g, root, i, hi),
        hi <= i + 1 ==> shares(g, root, i, hi) == 0,
        i < root && i + 1 <= hi <= root + 1 ==> shares(g, root, i, hi) == inflow(g, root, i, hi),
        i >= root ==> shares(g, root, i, hi) == 0,
    decreases hi,
{
    if hi > 0 {
        let q = hi - 1;
        lemma_received_prefix(g, root, done, i, hi - 1);
        if q <= i {
            lemma_weight_of_earlier(g, q, i);
            lemma_zero_product(adjoint(g, root, q), weight(g, q, i));
        } else if i >= root {
            lemma_zero_product(adjoint(g, root, q), weight(g, q, i));
        }
    }
}

/// Nodes made after `root` have no share in any sum.
proof fn lemma_inflow_beyond<T: Scalar>(g: Seq<NodeView<T>>, root: int, i: int, hi: int)
    requires
        0 <= i < root,
        root + 1 <= hi,
    ensures
        shares(g, root, i, hi) == shares(g, root, i, root + 1),
    decreases hi,
{
    if hi > root + 1 {
        lemma_inflow_beyond(g, root, i, hi - 1);
        lemma_zero_product(adjoint(g, root, hi - 1), weight(g, hi - 1, i));
    }
}

/// The nodes that `order` lists from position `idx` on.
spec fn processed(order: Seq<int>, idx: int) -> Set<int> {
    Set::new(|q: int| exists|j: int| idx <= j < order.len() && order[j] == q)
}

/// What the node at `i` holds of the pass once the nodes in `done` have
/// handed their shares on.
spec fn carried<T: Scalar>(g: Seq<NodeView<T>>, root: int, done: Set<int>, i: int) -> int {
    seed(root, i) + received(g, root, done, i, g.len() as int)
}

/// When the sweep comes to a node, every node that uses it has been done, so
/// what the node holds is the derivative of `root` with respect to it.
proof fn lemma_ready<T: Scalar>(g: Seq<NodeView<T>>, root: int, order: Seq<int>, idx: int)
    requires
        acyclic(g),
        0 <= root < g.len(),
        topological(g, root, order),
        0 <= idx < order.len(),
    ensures
        0 <= order[idx] < g.len(),
        !processed(order, idx + 1).contains(order[idx]),
        processed(order, idx) == processed(order, idx + 1).insert(order[idx]),
        carried(g, root, processed(order, idx + 1), order[idx]) == adjoint(g, root, order[idx]),
{
    let p = order[idx];
    let done = processed(order, idx + 1);
    assert(order.contains(p));
    assert(processed(order, idx) =~= done.insert(p));
    assert forall|q: int| 0 <= q < g.len() && !done.contains(q) implies adjoint(g, root, q)
        * weight(g, q, p) == 0 by {
        if !is_operand(g, q, p) {
            lemma_weight_of_stranger(g, q, p, g[q].children.len() as int);
        } else if !reachable(g, root, q) {
            lemma_adjoint_unreachable(g, root, q);
        } else {
            assert(order.contains(q));
            let b = choose|b: int| 0 <= b < order.len() && order[b] == q;
            assert(is_operand(g, order[b], order[idx]));
            assert(false);
        }
        lemma_zero_product(adjoint(g, root, q), weight(g, q, p));
    }
    lemma_received_settled(g, root, done, p);
}

/// Once the sweep has done every listed node, each node of the graph holds
/// the derivative of `root` with respect to it.
proof fn lemma_finished<T: Scalar>(g: Seq<NodeView<T>>, root: int, order: Seq<int>, i: int)
    requires
        acyclic(g),
        0 <= root < g.len(),
        topological(g, root, order),
        0 <= i < g.len(),
    ensures
        carried(g, root, processed(order, 0), i) == adjoint(g, root, i),
{
    let done = processed(order, 0);
    assert forall|q: int| 0 <= q < g.len() && !done.contains(q) implies adjoint(g, root, q)
        * weight(g, q, i) == 0 by {
        if reachable(g, root, q) {
            assert(order.contains(q));
            assert(false);
        }
        lemma_adjoint_unreachable(g, root, q);
        lemma_zero_product(adjoint(g, root, q), weight(g, q, i));
    }
    lemma_received_settled(g, root, done, i);
}

/// What holds between two steps of the sweep: each node's share of the pass
/// so far is `held(i)`, `delta` holds that share and the node's gradient has
/// grown by it, and the graph is otherwise as it was.
spec fn sweep_state<T: Scalar>(
    before: Seq<NodeView<T>>,
    now: Seq<NodeView<T>>,
    delta: Seq<T>,
    held: spec_fn(int) -> int,
) -> bool {
    &&& unchanged_but_gradients(before, now)
    &&& delta.len() == before.len()
    &&& forall|i: int| 0 <= i < before.len() ==> #[trigger] delta[i] == T::from_int(held(i))
    &&& forall|i: int|
        0 <= i < before.len() ==> (#[trigger] now[i]).gradient == T::from_int(
            before[i].gradient.as_int() + held(i),
        )
}

} // verus!
