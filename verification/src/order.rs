//! The order in which a backward pass meets the nodes of a graph.

use crate::grad::{acyclic, same_nodes, Data, Dependency, Scalar};
use vstd::prelude::*;

verus! {

/// The stack after a depth-first visit of `node`: a node already on the
/// stack adds nothing, any other node goes on top of what its dependencies
/// add, the left one before the right one.
pub open spec fn visit<V>(nodes: Seq<Data<V>>, node: Scalar, stack: Seq<Scalar>) -> Seq<Scalar>
    decreases node.id,
    when acyclic(nodes) && node.id < nodes.len()
{
    if stack.contains(node) {
        stack
    } else {
        let under = match nodes[node.id as int].dep {
            None => stack,
            Some(Dependency::Single { prev, .. }) => visit(nodes, prev, stack),
            Some(Dependency::Double { lhs, rhs, .. }) => visit(
                nodes,
                rhs,
                visit(nodes, lhs, stack),
            ),
        };
        under.push(node)
    }
}

/// The nodes that `root` depends on, each once, dependencies first and
/// `root` last.
pub open spec fn sequence<V>(nodes: Seq<Data<V>>, root: Scalar) -> Seq<Scalar> {
    visit(nodes, root, Seq::empty())
}

/// `to` is `from` or one of the nodes that `from` depends on, directly or
/// through other nodes.
pub open spec fn reaches<V>(nodes: Seq<Data<V>>, from: Scalar, to: Scalar) -> bool
    decreases from.id,
    when acyclic(nodes) && from.id < nodes.len()
{
    from == to || match nodes[from.id as int].dep {
        None => false,
        Some(Dependency::Single { prev, .. }) => reaches(nodes, prev, to),
        Some(Dependency::Double { lhs, rhs, .. }) => reaches(nodes, lhs, to) || reaches(
            nodes,
            rhs,
            to,
        ),
    }
}

/// The dependencies of the node at position `at` of `order` all stand at
/// earlier positions.
pub open spec fn supplied<V>(nodes: Seq<Data<V>>, order: Seq<Scalar>, at: int) -> bool {
    match nodes[order[at].id as int].dep {
        None => true,
        Some(Dependency::Single { prev, .. }) => order.take(at).contains(prev),
        Some(Dependency::Double { lhs, rhs, .. }) => order.take(at).contains(lhs) && order.take(
            at,
        ).contains(rhs),
    }
}

/// `order` names nodes of the graph, names none twice, and lists every
/// dependency of a node before that node.
pub open spec fn is_topological<V>(nodes: Seq<Data<V>>, order: Seq<Scalar>) -> bool {
    &&& forall|i: int| 0 <= i < order.len() ==> (#[trigger] order[i]).id < nodes.len()
    &&& forall|i: int, j: int| 0 <= i < j < order.len() ==> order[i] != order[j]
    &&& forall|i: int| 0 <= i < order.len() ==> #[trigger] supplied(nodes, order, i)
}

/// A visit keeps a topological stack topological. It leaves what was on the
/// stack in place, ends with `node` on the stack, and adds no node above
/// `node`.
pub proof fn lemma_visit_topological<V>(nodes: Seq<Data<V>>, node: Scalar, stack: Seq<Scalar>)
    requires
        acyclic(nodes),
        node.id < nodes.len(),
        is_topological(nodes, stack),
    ensures
        is_topological(nodes, visit(nodes, node, stack)),
        stack.len() <= visit(nodes, node, stack).len(),
        visit(nodes, node, stack).take(stack.len() as int) == stack,
        visit(nodes, node, stack).contains(node),
        forall|i: int|
            stack.len() <= i < visit(nodes, node, stack).len() ==> (#[trigger] visit(
                nodes,
                node,
                stack,
            )[i]).id <= node.id,
    decreases node.id,
{
    let out = visit(nodes, node, stack);
    if stack.contains(node) {
        assert(stack.take(stack.len() as int) == stack);
    } else {
        let dep = nodes[node.id as int].dep;
        let under = match dep {
            None => stack,
            Some(Dependency::Single { prev, .. }) => visit(nodes, prev, stack),
            Some(Dependency::Double { lhs, rhs, .. }) => visit(
                nodes,
                rhs,
                visit(nodes, lhs, stack),
            ),
        };
        assert(out == under.push(node));
        // What holds of `under`, by induction on each dependency.
        match dep {
            None => {
                assert(stack.take(stack.len() as int) == stack);
            },
            Some(Dependency::Single { prev, .. }) => {
                lemma_visit_topological(nodes, prev, stack);
            },
            Some(Dependency::Double { lhs, rhs, .. }) => {
                let mid = visit(nodes, lhs, stack);
                lemma_visit_topological(nodes, lhs, stack);
                lemma_visit_topological(nodes, rhs, mid);
                assert(under.take(stack.len() as int) == under.take(mid.len() as int).take(
                    stack.len() as int,
                ));
                assert forall|i: int| stack.len() <= i < under.len() implies (
                #[trigger] under[i]).id < node.id by {
                    if i < mid.len() {
                        assert(under.take(mid.len() as int)[i] == under[i]);
                    }
                }
                assert(under.take(mid.len() as int).contains(lhs));
                let k = choose|k: int| 0 <= k < mid.len() && mid[k] == lhs;
                assert(under.take(mid.len() as int)[k] == under[k]);
                assert(under.contains(lhs));
            },
        }
        assert(is_topological(nodes, under));
        assert(stack.len() <= under.len());
        assert(under.take(stack.len() as int) == stack);
        assert(forall|i: int| stack.len() <= i < under.len() ==> (#[trigger] under[i]).id < node.id);
        // `node` is not in `under`.
        assert forall|i: int| 0 <= i < under.len() implies under[i] != node by {
            if i < stack.len() {
                assert(under.take(stack.len() as int)[i] == under[i]);
                assert(stack[i] != node);
            }
        }
        let n = under.len() as int;
        assert(out.take(n) == under);
        assert(out.take(stack.len() as int) == under.take(stack.len() as int));
        assert(out[n] == node);
        assert forall|i: int| 0 <= i < out.len() implies #[trigger] supplied(nodes, out, i) by {
            if i < n {
                assert(supplied(nodes, under, i));
                assert(out.take(i) == under.take(i));
                assert(out[i] == under[i]);
            } else {
                assert(out.take(i) == under);
            }
        }
        assert forall|i: int, j: int| 0 <= i < j < out.len() implies out[i] != out[j] by {
            if j < n {
                assert(under[i] != under[j]);
            }
        }
        assert forall|i: int| 0 <= i < out.len() implies (#[trigger] out[i]).id < nodes.len() by {
            if i < n {
                assert(out[i] == under[i]);
            }
        }
    }
}

/// A topological order holds every node that one of its nodes reaches.
pub proof fn lemma_topological_closed<V>(
    nodes: Seq<Data<V>>,
    order: Seq<Scalar>,
    from: Scalar,
    to: Scalar,
)
    requires
        acyclic(nodes),
        is_topological(nodes, order),
        order.contains(from),
        reaches(nodes, from, to),
    ensures
        order.contains(to),
    decreases from.id,
{
    let at = choose|i: int| 0 <= i < order.len() && order[i] == from;
    assert(supplied(nodes, order, at));
    if from != to {
        match nodes[from.id as int].dep {
            None => {},
            Some(Dependency::Single { prev, .. }) => {
                lemma_take_contains(order, at, prev);
                lemma_topological_closed(nodes, order, prev, to);
            },
            Some(Dependency::Double { lhs, rhs, .. }) => {
                lemma_take_contains(order, at, lhs);
                lemma_take_contains(order, at, rhs);
                if reaches(nodes, lhs, to) {
                    lemma_topological_closed(nodes, order, lhs, to);
                } else {
                    lemma_topological_closed(nodes, order, rhs, to);
                }
            },
        }
    }
}

/// What a prefix of a sequence holds, the sequence holds.
pub proof fn lemma_take_contains(order: Seq<Scalar>, n: int, node: Scalar)
    requires
        0 <= n <= order.len(),
        order.take(n).contains(node),
    ensures
        order.contains(node),
{
    let k = choose|k: int| 0 <= k < n && order.take(n)[k] == node;
    assert(order[k] == node);
}

/// After a visit of `node`, a topological stack holds what it held before
/// and the nodes that `node` reaches, and nothing else.
pub proof fn lemma_visit_reaches<V>(
    nodes: Seq<Data<V>>,
    node: Scalar,
    stack: Seq<Scalar>,
    other: Scalar,
)
    requires
        acyclic(nodes),
        node.id < nodes.len(),
        is_topological(nodes, stack),
    ensures
        visit(nodes, node, stack).contains(other) <==> stack.contains(other) || reaches(
            nodes,
            node,
            other,
        ),
    decreases node.id,
{
    let out = visit(nodes, node, stack);
    lemma_visit_topological(nodes, node, stack);
    if stack.contains(node) {
        if reaches(nodes, node, other) {
            lemma_topological_closed(nodes, stack, node, other);
        }
    } else {
        match nodes[node.id as int].dep {
            None => {
                assert(out == stack.push(node));
                lemma_push_contains(stack, node, other);
            },
            Some(Dependency::Single { prev, .. }) => {
                let under = visit(nodes, prev, stack);
                lemma_visit_reaches(nodes, prev, stack, other);
                assert(out == under.push(node));
                lemma_push_contains(under, node, other);
            },
            Some(Dependency::Double { lhs, rhs, .. }) => {
                let mid = visit(nodes, lhs, stack);
                let under = visit(nodes, rhs, mid);
                lemma_visit_reaches(nodes, lhs, stack, other);
                lemma_visit_topological(nodes, lhs, stack);
                lemma_visit_reaches(nodes, rhs, mid, other);
                assert(out == under.push(node));
                lemma_push_contains(under, node, other);
            },
        }
    }
}

/// A visit removes nothing from the stack.
pub proof fn lemma_visit_keeps<V>(
    nodes: Seq<Data<V>>,
    node: Scalar,
    stack: Seq<Scalar>,
    other: Scalar,
)
    requires
        acyclic(nodes),
        node.id < nodes.len(),
        stack.contains(other),
    ensures
        visit(nodes, node, stack).contains(other),
    decreases node.id,
{
    if !stack.contains(node) {
        match nodes[node.id as int].dep {
            None => {
                lemma_push_contains(stack, node, other);
            },
            Some(Dependency::Single { prev, .. }) => {
                lemma_visit_keeps(nodes, prev, stack, other);
                lemma_push_contains(visit(nodes, prev, stack), node, other);
            },
            Some(Dependency::Double { lhs, rhs, .. }) => {
                let mid = visit(nodes, lhs, stack);
                lemma_visit_keeps(nodes, lhs, stack, other);
                lemma_visit_keeps(nodes, rhs, mid, other);
                lemma_push_contains(visit(nodes, rhs, mid), node, other);
            },
        }
    }
}

/// What a sequence holds after a push.
pub proof fn lemma_push_contains(order: Seq<Scalar>, top: Scalar, node: Scalar)
    ensures
        order.push(top).contains(node) <==> order.contains(node) || node == top,
{
    let out = order.push(top);
    if order.contains(node) {
        let k = choose|k: int| 0 <= k < order.len() && order[k] == node;
        assert(out[k] == node);
    }
    if node == top {
        assert(out[order.len() as int] == node);
    }
    if out.contains(node) {
        let k = choose|k: int| 0 <= k < out.len() && out[k] == node;
        if k < order.len() {
            assert(order[k] == node);
        }
    }
}

/// A visit goes by derivations alone: two graphs that differ only in
/// gradients give the same stack.
pub proof fn lemma_visit_same_nodes<V>(
    before: Seq<Data<V>>,
    after: Seq<Data<V>>,
    node: Scalar,
    stack: Seq<Scalar>,
)
    requires
        acyclic(before),
        same_nodes(before, after),
        node.id < before.len(),
    ensures
        acyclic(after),
        visit(after, node, stack) == visit(before, node, stack),
    decreases node.id,
{
    assert forall|i: int| 0 <= i < after.len() implies crate::grad::below(
        #[trigger] after[i].dep,
        i,
    ) by {
        assert(crate::grad::below(before[i].dep, i));
    }
    assert(after[node.id as int].dep == before[node.id as int].dep);
    if !stack.contains(node) {
        match before[node.id as int].dep {
            None => {},
            Some(Dependency::Single { prev, .. }) => {
                lemma_visit_same_nodes(before, after, prev, stack);
            },
            Some(Dependency::Double { lhs, rhs, .. }) => {
                lemma_visit_same_nodes(before, after, lhs, stack);
                lemma_visit_same_nodes(before, after, rhs, visit(before, lhs, stack));
            },
        }
    }
}

/// The sequence of a root is a topological order that ends with the root.
pub proof fn lemma_sequence_topological<V>(nodes: Seq<Data<V>>, root: Scalar)
    requires
        acyclic(nodes),
        root.id < nodes.len(),
    ensures
        is_topological(nodes, sequence(nodes, root)),
        sequence(nodes, root).len() > 0,
        sequence(nodes, root).last() == root,
{
    let empty = Seq::<Scalar>::empty();
    lemma_visit_topological(nodes, root, empty);
    assert(!empty.contains(root));
}

/// The sequence of a root holds exactly the nodes that the root reaches.
pub proof fn lemma_sequence_reaches<V>(nodes: Seq<Data<V>>, root: Scalar, node: Scalar)
    requires
        acyclic(nodes),
        root.id < nodes.len(),
    ensures
        sequence(nodes, root).contains(node) <==> reaches(nodes, root, node),
{
    let empty = Seq::<Scalar>::empty();
    lemma_visit_reaches(nodes, root, empty, node);
    assert(!empty.contains(node));
}

} // verus!
