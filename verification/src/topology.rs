//! The order in which a graph is walked: operands before the nodes that use
//! them.

use vstd::prelude::*;
use crate::graph::{
    acyclic, lemma_well_formed_acyclic, operands_precede, positions, Graph, NodeView,
};
use crate::scalar::Scalar;

verus! {

/// The node at `parent` has the node at `child` among its operands.
pub open spec fn is_operand<T>(g: Seq<NodeView<T>>, parent: int, child: int) -> bool {
    g[parent].children.contains(child)
}

/// The node at `i` is `root` or feeds into it through a chain of operands.
pub open spec fn reachable<T>(g: Seq<NodeView<T>>, root: int, i: int) -> bool
    decreases root - i,
{
    i == root || (i < root && exists|p: int|
        i < p <= root && reachable(g, root, p) && #[trigger] is_operand(g, p, i))
}

/// The depth-first walk from `node`, given the nodes `seen` that earlier
/// walks have listed: a node already listed adds nothing; otherwise its
/// operands are walked in operand order and the node is listed after them.
pub open spec fn visit<T>(g: Seq<NodeView<T>>, node: int, seen: Seq<int>) -> Seq<int>
    decreases node, 1nat, 0nat,
    when acyclic(g) && 0 <= node < g.len()
{
    if seen.contains(node) {
        seen
    } else {
        visit_operands(g, node, 0, seen).push(node)
    }
}

/// The walks from the operands of `node`, from operand `k` on.
pub open spec fn visit_operands<T>(g: Seq<NodeView<T>>, node: int, k: int, seen: Seq<int>) -> Seq<
    int,
>
    decreases node, 0nat, g[node].children.len() - k,
    when acyclic(g) && 0 <= node < g.len() && 0 <= k
{
    if k >= g[node].children.len() {
        seen
    } else {
        proof {
            assert(operands_precede(g, node));
        }
        visit_operands(g, node, k + 1, visit(g, g[node].children[k], seen))
    }
}

/// The nodes that `root` depends on, each listed once, in depth-first
/// post-order: `root` comes last.
pub open spec fn post_order<T>(g: Seq<NodeView<T>>, root: int) -> Seq<int> {
    visit(g, root, Seq::empty())
}

/// `order` is a topological order of what `root` depends on: it lists every
/// node that `root` reaches, and no other, exactly once; every operand
/// stands strictly before each node that uses it; and `root` is last.
pub open spec fn topological<T>(g: Seq<NodeView<T>>, root: int, order: Seq<int>) -> bool {
    &&& order.no_duplicates()
    &&& forall|i: int| order.contains(i) <==> 0 <= i < g.len() && reachable(g, root, i)
    &&& forall|a: int, b: int|
        0 <= a < order.len() && 0 <= b < order.len() && #[trigger] is_operand(
            g,
            order[b],
            order[a],
        ) ==> a < b
    &&& order.len() > 0 && order.last() == root
}

/// `c` stands in `s` before position `b`.
spec fn occurs_before(s: Seq<int>, c: int, b: int) -> bool {
    exists|a: int| 0 <= a < b && a < s.len() && s[a] == c
}

/// What holds of the list at every moment of the walk from `root`: nothing
/// is listed twice, every listed node is reached from `root`, and every
/// operand of a listed node is listed before it.
spec fn closed_prefix<T>(g: Seq<NodeView<T>>, root: int, s: Seq<int>) -> bool {
    &&& s.no_duplicates()
    &&& forall|j: int|
        0 <= j < s.len() ==> 0 <= #[trigger] s[j] < g.len() && reachable(g, root, s[j])
    &&& forall|b: int, k: int|
        0 <= b < s.len() && 0 <= k < g[s[b]].children.len() ==> occurs_before(
            s,
            #[trigger] g[s[b]].children[k],
            b,
        )
}

/// `out` continues `seen` with nodes at positions up to `bound` only.
spec fn extends_below(seen: Seq<int>, out: Seq<int>, bound: int) -> bool {
    &&& seen.len() <= out.len()
    &&& forall|j: int| 0 <= j < seen.len() ==> out[j] == seen[j]
    &&& forall|j: int| seen.len() <= j < out.len() ==> #[trigger] out[j] <= bound
}

/// An operand of a node that `root` reaches is reached by `root` too.
pub proof fn lemma_reachable_operand<T>(g: Seq<NodeView<T>>, root: int, p: int, k: int)
    requires
        acyclic(g),
        0 <= p < g.len(),
        reachable(g, root, p),
        0 <= k < g[p].children.len(),
    ensures
        reachable(g, root, g[p].children[k]),
        0 <= g[p].children[k] < p,
{
    let c = g[p].children[k];
    assert(operands_precede(g, p));
    assert(is_operand(g, p, c));
}

/// The walk from a node keeps the list a closed prefix, only appends to it,
/// appends no node beyond the one it started from, and lists that node.
proof fn lemma_visit<T>(g: Seq<NodeView<T>>, root: int, node: int, seen: Seq<int>)
    requires
        acyclic(g),
        0 <= node < g.len(),
        reachable(g, root, node),
        closed_prefix(g, root, seen),
    ensures
        closed_prefix(g, root, visit(g, node, seen)),
        extends_below(seen, visit(g, node, seen), node),
        visit(g, node, seen).contains(node),
    decreases node, 1nat, 0nat,
{
    if !seen.contains(node) {
        lemma_visit_operands(g, root, node, 0, seen);
        let inner = visit_operands(g, node, 0, seen);
        let out = inner.push(node);
        assert(out[inner.len() as int] == node);
        assert(!inner.contains(node)) by {
            if inner.contains(node) {
                let j = choose|j: int| 0 <= j < inner.len() && inner[j] == node;
                if j < seen.len() {
                    assert(seen[j] == node);
                }
            }
        }
        assert forall|b: int, k: int|
            0 <= b < out.len() && 0 <= k < g[out[b]].children.len() implies occurs_before(
            out,
            #[trigger] g[out[b]].children[k],
            b,
        ) by {
            let c = g[out[b]].children[k];
            if b < inner.len() {
                assert(occurs_before(inner, c, b));
                let a = choose|a: int| 0 <= a < b && a < inner.len() && inner[a] == c;
                assert(out[a] == c);
            } else {
                assert(inner.contains(c));
                let a = choose|a: int| 0 <= a < inner.len() && inner[a] == c;
                assert(out[a] == c);
            }
        }
    }
}

/// The walks from the operands of a node, from operand `k` on, keep the list
/// a closed prefix, only append to it, append only nodes made before the
/// node, and leave every operand listed.
proof fn lemma_visit_operands<T>(
    g: Seq<NodeView<T>>,
    root: int,
    node: int,
    k: int,
    seen: Seq<int>,
)
    requires
        acyclic(g),
        0 <= node < g.len(),
        reachable(g, root, node),
        closed_prefix(g, root, seen),
        0 <= k <= g[node].children.len(),
        forall|j: int| 0 <= j < k ==> seen.contains(#[trigger] g[node].children[j]),
    ensures
        closed_prefix(g, root, visit_operands(g, node, k, seen)),
        extends_below(seen, visit_operands(g, node, k, seen), node - 1),
        forall|j: int|
            0 <= j < g[node].children.len() ==> visit_operands(g, node, k, seen).contains(
                #[trigger] g[node].children[j],
            ),
    decreases node, 0nat, g[node].children.len() - k,
{
    if k < g[node].children.len() {
        let c = g[node].children[k];
        lemma_reachable_operand(g, root, node, k);
        lemma_visit(g, root, c, seen);
        let next = visit(g, c, seen);
        assert forall|j: int| 0 <= j < k + 1 implies next.contains(
            #[trigger] g[node].children[j],
        ) by {
            if j < k {
                let a = choose|a: int| 0 <= a < seen.len() && seen[a] == g[node].children[j];
                assert(a < next.len());
                assert(next[a] == g[node].children[j]);
            }
        }
        lemma_visit_operands(g, root, node, k + 1, next);
    }
}

/// A closed prefix that lists `root` lists every node that `root` reaches.
proof fn lemma_closed_prefix_complete<T>(g: Seq<NodeView<T>>, root: int, s: Seq<int>, i: int)
    requires
        closed_prefix(g, root, s),
        s.contains(root),
        reachable(g, root, i),
    ensures
        s.contains(i),
    decreases root - i,
{
    if i != root {
        let p = choose|p: int|
            i < p <= root && reachable(g, root, p) && #[trigger] is_operand(g, p, i);
        lemma_closed_prefix_complete(g, root, s, p);
        let b = choose|b: int| 0 <= b < s.len() && s[b] == p;
        let k = choose|k: int| 0 <= k < g[p].children.len() && g[p].children[k] == i;
        assert(occurs_before(s, g[s[b]].children[k], b));
    }
}

/// The depth-first post-order from `root` is a topological order of what
/// `root` depends on.
pub proof fn lemma_post_order_topological<T>(g: Seq<NodeView<T>>, root: int)
    requires
        acyclic(g),
        0 <= root < g.len(),
    ensures
        topological(g, root, post_order(g, root)),
{
    let order = post_order(g, root);
    let empty = Seq::<int>::empty();
    lemma_visit(g, root, root, empty);
    assert forall|i: int| order.contains(i) <==> 0 <= i < g.len() && reachable(g, root, i) by {
        if 0 <= i < g.len() && reachable(g, root, i) {
            lemma_closed_prefix_complete(g, root, order, i);
        }
    }
    assert forall|a: int, b: int|
        0 <= a < order.len() && 0 <= b < order.len() && #[trigger] is_operand(
            g,
            order[b],
            order[a],
        ) implies a < b by {
        let k = choose|k: int|
            0 <= k < g[order[b]].children.len() && g[order[b]].children[k] == order[a];
        assert(occurs_before(order, g[order[b]].children[k], b));
    }
    assert(order.last() == root);
}

/// `visited` marks exactly the nodes that `order` lists.
spec fn marks(visited: Seq<bool>, order: Seq<int>) -> bool {
    forall|i: int| 0 <= i < visited.len() ==> visited[i] == order.contains(i)
}

/// Walks depth-first from `node`, appending to `order` each node that is not
/// yet marked in `visited`, after its operands, and marking it.
fn visit_node<T: Scalar>(
    graph: &Graph<T>,
    node: usize,
    visited: &mut Vec<bool>,
    order: &mut Vec<usize>,
)
    requires
        graph.wf(),
        node < graph@.len(),
        old(visited)@.len() == graph@.len(),
        marks(old(visited)@, positions(old(order)@)),
    ensures
        positions(final(order)@) == visit(graph@, node as int, positions(old(order)@)),
        final(visited)@.len() == graph@.len(),
        marks(final(visited)@, positions(final(order)@)),
    decreases node,
{
    proof {
        lemma_well_formed_acyclic(graph@);
    }
    if visited[node] {
        return ;
    }
    let ghost g = graph@;
    let ghost seen = positions(order@);
    let operands = graph.node(node).children();
    let arity = operands.len();
    let mut k: usize = 0;
    while k < arity
        invariant
            acyclic(g),
            g == graph@,
            graph.wf(),
            node < g.len(),
            0 <= k <= arity,
            arity == g[node as int].children.len(),
            positions(operands@) == g[node as int].children,
            visited@.len() == g.len(),
            marks(visited@, positions(order@)),
            visit_operands(g, node as int, k as int, positions(order@)) == visit_operands(
                g,
                node as int,
                0,
                seen,
            ),
        decreases arity - k,
    {
        let child = operands[k];
        proof {
            assert(operands_precede(g, node as int));
            assert(positions(operands@)[k as int] == child);
        }
        visit_node(graph, child, visited, order);
        k += 1;
    }
    order.push(node);
    visited[node] = true;
    proof {
        let inner = visit_operands(g, node as int, 0, seen);
        assert(positions(order@) =~= inner.push(node as int));
        assert forall|i: int| 0 <= i < visited@.len() implies visited@[i] == positions(
            order@,
        ).contains(i) by {
            let out = positions(order@);
            if i == node {
                assert(out[inner.len() as int] == i);
            } else if inner.contains(i) {
                let a = choose|a: int| 0 <= a < inner.len() && inner[a] == i;
                assert(out[a] == i);
            }
        }
    }
}

/// Lists the nodes that `root` depends on in depth-first post-order, each
/// exactly once: operands before the nodes that use them, `root` last.
pub fn topology_sort<T: Scalar>(graph: &Graph<T>, root: usize) -> (order: Vec<usize>)
    requires
        graph.wf(),
        root < graph@.len(),
    ensures
        positions(order@) == post_order(graph@, root as int),
        topological(graph@, root as int, positions(order@)),
{
    let n = graph.len();
    let mut visited: Vec<bool> = Vec::new();
    let mut i: usize = 0;
    while i < n
        invariant
            i <= n,
            visited@.len() == i,
            forall|j: int| 0 <= j < i ==> !visited@[j],
        decreases n - i,
    {
        visited.push(false);
        i += 1;
    }
    let mut order: Vec<usize> = Vec::new();
    assert(positions(order@) =~= Seq::<int>::empty());
    visit_node(graph, root, &mut visited, &mut order);
    proof {
        lemma_well_formed_acyclic(graph@);
        lemma_post_order_topological(graph@, root as int);
    }
    order
}

} // verus!
