//! What holds of every backward pass.

use crate::grad::{
    accumulated, acyclic, backpropagated, below, propagated, same_nodes, swept, Data, Dependency,
    Scalar,
};
use crate::number::{is_one, is_sum, Number};
use crate::ops::Operation;
use crate::order::{
    lemma_sequence_reaches, lemma_sequence_topological, lemma_topological_closed, reaches,
    sequence, visit,
};
use crate::order::supplied;
use crate::rules::{double_deltas, single_delta};
use vstd::prelude::*;

verus! {

/// `node` is an operand of the derivation `dep`.
pub open spec fn uses(dep: Option<Dependency>, node: Scalar) -> bool {
    match dep {
        None => false,
        Some(Dependency::Single { prev, .. }) => prev == node,
        Some(Dependency::Double { lhs, rhs, .. }) => lhs == node || rhs == node,
    }
}

/// Accumulation changes one gradient: values, derivations and every other
/// node stay, and the graph stays acyclic.
pub proof fn lemma_accumulated_frame<V: Number>(
    before: Seq<Data<V>>,
    node: Scalar,
    delta: V,
    after: Seq<Data<V>>,
)
    requires
        acyclic(before),
        accumulated(before, node, delta, after),
    ensures
        acyclic(after),
        same_nodes(before, after),
{
    assert forall|i: int| 0 <= i < after.len() implies below(#[trigger] after[i].dep, i) by {
        assert(below(before[i].dep, i));
    }
}

/// Graphs that differ only in gradients are acyclic together.
pub proof fn lemma_same_nodes_acyclic<V>(before: Seq<Data<V>>, after: Seq<Data<V>>)
    requires
        acyclic(before),
        same_nodes(before, after),
    ensures
        acyclic(after),
{
    assert forall|i: int| 0 <= i < after.len() implies below(#[trigger] after[i].dep, i) by {
        assert(below(before[i].dep, i));
    }
}

/// When a node hands its gradient down, no value and no derivation
/// changes, and a node that is not one of its operands keeps its gradient.
pub proof fn lemma_propagated_frame<V: Number>(
    before: Seq<Data<V>>,
    node: Scalar,
    after: Seq<Data<V>>,
)
    requires
        acyclic(before),
        node.id < before.len(),
        propagated(before, node, after),
    ensures
        acyclic(after),
        same_nodes(before, after),
        forall|i: int|
            0 <= i < before.len() && !uses(before[node.id as int].dep, Scalar { id: i as usize })
                ==> #[trigger] after[i] == before[i],
{
    match before[node.id as int].dep {
        None => {},
        Some(Dependency::Single { prev, activation }) => {
            let delta = choose|delta: V| #[trigger] accumulated(before, prev, delta, after);
            lemma_accumulated_frame(before, prev, delta, after);
        },
        Some(Dependency::Double { lhs, rhs, op }) => {
            let (to_lhs, to_rhs, mid) = choose|to_lhs: V, to_rhs: V, mid: Seq<Data<V>>|
                #![trigger accumulated(before, lhs, to_lhs, mid), accumulated(mid, rhs, to_rhs, after)]
                accumulated(before, lhs, to_lhs, mid) && accumulated(mid, rhs, to_rhs, after);
            lemma_accumulated_frame(before, lhs, to_lhs, mid);
            lemma_accumulated_frame(mid, rhs, to_rhs, after);
            assert forall|i: int|
                0 <= i < before.len() && !uses(
                    before[node.id as int].dep,
                    Scalar { id: i as usize },
                ) implies #[trigger] after[i] == before[i] by {
                assert(mid[i] == before[i]);
            }
        },
    }
    lemma_same_nodes_acyclic(before, after);
}

/// When the nodes of `order` hand their gradients down in turn, no value
/// and no derivation changes, and a node that is an operand of none of
/// them keeps its gradient.
pub proof fn lemma_swept_frame<V: Number>(
    before: Seq<Data<V>>,
    order: Seq<Scalar>,
    after: Seq<Data<V>>,
    kept: Scalar,
)
    requires
        acyclic(before),
        forall|k: int| 0 <= k < order.len() ==> (#[trigger] order[k]).id < before.len(),
        swept(before, order, after),
        kept.id < before.len(),
        forall|k: int|
            0 <= k < order.len() ==> !uses(before[(#[trigger] order[k]).id as int].dep, kept),
    ensures
        acyclic(after),
        same_nodes(before, after),
        after[kept.id as int] == before[kept.id as int],
    decreases order.len(),
{
    if order.len() > 0 {
        let mid = choose|mid: Seq<Data<V>>|
            swept(before, order.drop_last(), mid) && #[trigger] propagated(
                mid,
                order.last(),
                after,
            );
        let rest = order.drop_last();
        assert forall|k: int| 0 <= k < rest.len() implies !uses(
            before[(#[trigger] rest[k]).id as int].dep,
            kept,
        ) by {
            assert(rest[k] == order[k]);
        }
        assert forall|k: int| 0 <= k < rest.len() implies (#[trigger] rest[k]).id
            < before.len() by {
            assert(rest[k] == order[k]);
        }
        lemma_swept_frame(before, rest, mid, kept);
        lemma_propagated_frame(mid, order.last(), after);
        assert(mid[order.last().id as int].dep == before[order.last().id as int].dep);
        assert(!uses(before[order[order.len() - 1].id as int].dep, kept));
    }
}

/// A sweep over a non-empty order is the first node handing its gradient
/// down, then a sweep over the rest.
pub proof fn lemma_swept_first<V: Number>(
    before: Seq<Data<V>>,
    order: Seq<Scalar>,
    after: Seq<Data<V>>,
)
    requires
        order.len() > 0,
        swept(before, order, after),
    ensures
        exists|mid: Seq<Data<V>>| #[trigger]
            propagated(before, order.first(), mid) && swept(mid, order.drop_first(), after),
    decreases order.len(),
{
    let last = choose|mid: Seq<Data<V>>|
        swept(before, order.drop_last(), mid) && #[trigger] propagated(mid, order.last(), after);
    if order.len() == 1 {
        assert(order.drop_last().len() == 0);
        assert(last == before);
        assert(order.drop_first().len() == 0);
        assert(swept(after, order.drop_first(), after));
        assert(propagated(before, order.first(), after));
    } else {
        let front = order.drop_last();
        lemma_swept_first(before, front, last);
        let mid = choose|mid: Seq<Data<V>>| #[trigger]
            propagated(before, front.first(), mid) && swept(mid, front.drop_first(), last);
        let rest = order.drop_first();
        assert(rest.drop_last() == front.drop_first());
        assert(rest.last() == order.last());
        assert(front.first() == order.first());
        assert(swept(mid, rest, after));
    }
}

/// No node that `top` reaches uses `kept`, a node at or above `top`: what
/// `top` reaches sits at or below `top` and uses only nodes below itself.
proof fn lemma_sequence_below<V>(nodes: Seq<Data<V>>, top: Scalar, kept: Scalar)
    requires
        acyclic(nodes),
        top.id < nodes.len(),
        top.id <= kept.id,
    ensures
        forall|k: int|
            0 <= k < sequence(nodes, top).reverse().len() ==> {
                &&& (#[trigger] sequence(nodes, top).reverse()[k]).id < nodes.len()
                &&& !uses(nodes[sequence(nodes, top).reverse()[k].id as int].dep, kept)
            },
{
    let order = sequence(nodes, top);
    let empty = Seq::<Scalar>::empty();
    crate::order::lemma_visit_topological(nodes, top, empty);
    assert forall|k: int| 0 <= k < order.reverse().len() implies {
        &&& (#[trigger] order.reverse()[k]).id < nodes.len()
        &&& !uses(nodes[order.reverse()[k].id as int].dep, kept)
    } by {
        let node = order[order.len() - 1 - k];
        assert(order.reverse()[k] == node);
        assert(node.id <= top.id);
        assert(below(nodes[node.id as int].dep, node.id as int));
    }
}

/// The gradients after a backward pass from `root`, a node derived as
/// `operand op operand`: `seed` is the gradient of `root`, and the
/// gradient of `operand` has received `to_lhs` and then `to_rhs`, the two
/// deltas that the rule of `op` gives for `seed`, by way of `between`.
pub open spec fn self_operation_deltas<V: Number>(
    before: Seq<Data<V>>,
    operand: Scalar,
    root: Scalar,
    op: Operation,
    after: Seq<Data<V>>,
    one: V,
    seed: V,
    to_lhs: V,
    to_rhs: V,
    between: V,
) -> bool {
    &&& is_one(one)
    &&& is_sum(before[root.id as int].grad, one, seed)
    &&& after[root.id as int].grad == seed
    &&& double_deltas(
        op,
        seed,
        before[operand.id as int].val,
        before[operand.id as int].val,
        to_lhs,
        to_rhs,
    )
    &&& is_sum(before[operand.id as int].grad, to_lhs, between)
    &&& is_sum(between, to_rhs, after[operand.id as int].grad)
}

/// Where both operands of a node are one and the same node, a backward
/// pass from the node adds both local derivatives to the gradient of that
/// operand, one after the other, each computed from the operand's value
/// and from the seeded gradient of the node. Nothing else reaches the
/// operand's gradient, and nothing but the seed reaches the node's.
pub proof fn lemma_backward_self_operation<V: Number>(
    before: Seq<Data<V>>,
    operand: Scalar,
    root: Scalar,
    op: Operation,
    after: Seq<Data<V>>,
)
    requires
        acyclic(before),
        root.id < before.len(),
        before[root.id as int].dep == Some(Dependency::Double { lhs: operand, rhs: operand, op }),
        backpropagated(before, root, after),
    ensures
        same_nodes(before, after),
        exists|one: V, seed: V, to_lhs: V, to_rhs: V, between: V| #[trigger]
            self_operation_deltas(
                before,
                operand,
                root,
                op,
                after,
                one,
                seed,
                to_lhs,
                to_rhs,
                between,
            ),
{
    assert(below(before[root.id as int].dep, root.id as int));
    let (one, seeded) = choose|one: V, seeded: Seq<Data<V>>|
        is_one(one) && #[trigger] accumulated(before, root, one, seeded) && swept(
            seeded,
            sequence(before, root).reverse(),
            after,
        );
    lemma_accumulated_frame(before, root, one, seeded);
    // The order of the pass: the root, then what the operand reaches.
    let empty = Seq::<Scalar>::empty();
    let under = sequence(before, operand);
    crate::order::lemma_visit_topological(before, operand, empty);
    assert(!empty.contains(root));
    assert(visit(before, operand, under) == under);
    assert(sequence(before, root) == under.push(root));
    let order = sequence(before, root).reverse();
    assert(order.first() == root);
    assert(order.drop_first() =~= under.reverse());
    lemma_swept_first(seeded, order, after);
    let mid = choose|mid: Seq<Data<V>>| #[trigger]
        propagated(seeded, order.first(), mid) && swept(mid, order.drop_first(), after);
    // The root hands its gradient to the operand, twice.
    let seed = seeded[root.id as int].grad;
    let (to_lhs, to_rhs, half) = choose|to_lhs: V, to_rhs: V, half: Seq<Data<V>>|
        #![trigger accumulated(seeded, operand, to_lhs, half), accumulated(half, operand, to_rhs, mid)]
        double_deltas(
            op,
            seed,
            seeded[operand.id as int].val,
            seeded[operand.id as int].val,
            to_lhs,
            to_rhs,
        ) && accumulated(seeded, operand, to_lhs, half) && accumulated(
            half,
            operand,
            to_rhs,
            mid,
        );
    lemma_propagated_frame(seeded, root, mid);
    // Nothing that the operand reaches uses the operand or the root.
    lemma_same_nodes_acyclic(seeded, mid);
    lemma_sequence_below(before, operand, operand);
    lemma_sequence_below(before, operand, root);
    lemma_swept_frame(mid, under.reverse(), after, operand);
    lemma_swept_frame(mid, under.reverse(), after, root);
    assert(self_operation_deltas(
        before,
        operand,
        root,
        op,
        after,
        one,
        seed,
        to_lhs,
        to_rhs,
        half[operand.id as int].grad,
    ));
}

/// The gradients after a backward pass from `root`, the square
/// `sum * sum` of a node `sum` derived as `a + b`: `seed` is the gradient
/// of `root`; the gradient of `sum` has received `seed` times the value of
/// `sum` twice, by way of `between`; and the gradients of `a` and of `b`
/// have each received the gradient of `sum`.
pub open spec fn shared_path_deltas<V: Number>(
    before: Seq<Data<V>>,
    a: Scalar,
    b: Scalar,
    sum: Scalar,
    root: Scalar,
    after: Seq<Data<V>>,
    one: V,
    seed: V,
    to_lhs: V,
    to_rhs: V,
    between: V,
) -> bool {
    &&& self_operation_deltas(
        before,
        sum,
        root,
        Operation::Mul,
        after,
        one,
        seed,
        to_lhs,
        to_rhs,
        between,
    )
    &&& is_sum(before[a.id as int].grad, after[sum.id as int].grad, after[a.id as int].grad)
    &&& is_sum(before[b.id as int].grad, after[sum.id as int].grad, after[b.id as int].grad)
}

/// Where a sum of two distinct leaves is squared, a backward pass from the
/// square hands the gradient down along both paths: the sum receives both
/// local derivatives of the product, and each leaf then receives the
/// whole gradient of the sum, once.
pub proof fn lemma_backward_shared_paths<V: Number>(
    before: Seq<Data<V>>,
    a: Scalar,
    b: Scalar,
    sum: Scalar,
    root: Scalar,
    after: Seq<Data<V>>,
)
    requires
        acyclic(before),
        root.id < before.len(),
        a != b,
        before[a.id as int].dep is None,
        before[b.id as int].dep is None,
        before[sum.id as int].dep == Some(
            Dependency::Double { lhs: a, rhs: b, op: Operation::Add },
        ),
        before[root.id as int].dep == Some(
            Dependency::Double { lhs: sum, rhs: sum, op: Operation::Mul },
        ),
        backpropagated(before, root, after),
    ensures
        same_nodes(before, after),
        exists|one: V, seed: V, to_lhs: V, to_rhs: V, between: V| #[trigger]
            shared_path_deltas(
                before,
                a,
                b,
                sum,
                root,
                after,
                one,
                seed,
                to_lhs,
                to_rhs,
                between,
            ),
{
    assert(below(before[root.id as int].dep, root.id as int));
    assert(below(before[sum.id as int].dep, sum.id as int));
    lemma_backward_self_operation(before, sum, root, Operation::Mul, after);
    let (one, seed, to_lhs, to_rhs, between) = choose|
        one: V,
        seed: V,
        to_lhs: V,
        to_rhs: V,
        between: V,
    | #[trigger]
        self_operation_deltas(
            before,
            sum,
            root,
            Operation::Mul,
            after,
            one,
            seed,
            to_lhs,
            to_rhs,
            between,
        );
    // The pass once more, step by step: the root, the sum, then the leaves.
    let (unit, seeded) = choose|unit: V, seeded: Seq<Data<V>>|
        is_one(unit) && #[trigger] accumulated(before, root, unit, seeded) && swept(
            seeded,
            sequence(before, root).reverse(),
            after,
        );
    lemma_accumulated_frame(before, root, unit, seeded);
    let empty = Seq::<Scalar>::empty();
    assert(!empty.contains(a));
    assert(visit(before, a, empty) == empty.push(a));
    let first = empty.push(a);
    assert(!first.contains(b));
    assert(visit(before, b, first) == first.push(b));
    let second = first.push(b);
    assert(!empty.contains(sum));
    assert(sequence(before, sum) == second.push(sum));
    let third = second.push(sum);
    assert(third.contains(sum)) by {
        assert(third[2] == sum);
    }
    assert(visit(before, sum, third) == third);
    assert(!empty.contains(root));
    assert(sequence(before, root) == third.push(root));
    let order = sequence(before, root).reverse();
    assert(order =~= seq![root, sum, b, a]);
    lemma_swept_first(seeded, order, after);
    let at_sum = choose|mid: Seq<Data<V>>| #[trigger]
        propagated(seeded, order.first(), mid) && swept(mid, order.drop_first(), after);
    lemma_propagated_frame(seeded, root, at_sum);
    let rest = order.drop_first();
    assert(rest =~= seq![sum, b, a]);
    lemma_swept_first(at_sum, rest, after);
    let at_b = choose|mid: Seq<Data<V>>| #[trigger]
        propagated(at_sum, rest.first(), mid) && swept(mid, rest.drop_first(), after);
    lemma_propagated_frame(at_sum, sum, at_b);
    let leaves = rest.drop_first();
    assert(leaves =~= seq![b, a]);
    lemma_swept_first(at_b, leaves, after);
    let at_a = choose|mid: Seq<Data<V>>| #[trigger]
        propagated(at_b, leaves.first(), mid) && swept(mid, leaves.drop_first(), after);
    assert(at_a == at_b);
    let last = leaves.drop_first();
    assert(last =~= seq![a]);
    lemma_swept_first(at_a, last, after);
    let end = choose|mid: Seq<Data<V>>| #[trigger]
        propagated(at_a, last.first(), mid) && swept(mid, last.drop_first(), after);
    assert(end == at_a);
    assert(last.drop_first().len() == 0);
    assert(after == at_b);
    // What the sum hands to the two leaves.
    let g = at_sum[sum.id as int].grad;
    let (to_a, to_b, half) = choose|to_a: V, to_b: V, half: Seq<Data<V>>|
        #![trigger accumulated(at_sum, a, to_a, half), accumulated(half, b, to_b, at_b)]
        double_deltas(
            Operation::Add,
            g,
            at_sum[a.id as int].val,
            at_sum[b.id as int].val,
            to_a,
            to_b,
        ) && accumulated(at_sum, a, to_a, half) && accumulated(half, b, to_b, at_b);
    assert(at_sum[a.id as int] == seeded[a.id as int]);
    assert(at_sum[b.id as int] == seeded[b.id as int]);
    assert(after[sum.id as int] == at_sum[sum.id as int]);
    assert(shared_path_deltas(
        before,
        a,
        b,
        sum,
        root,
        after,
        one,
        seed,
        to_lhs,
        to_rhs,
        between,
    ));
}

/// `to` is `from` plus `delta` where `operand` is `target`, and `from`
/// itself where it is not.
pub open spec fn added_if<V: Number>(
    operand: Scalar,
    target: Scalar,
    from: V,
    delta: V,
    to: V,
) -> bool {
    if operand == target {
        is_sum(from, delta, to)
    } else {
        to == from
    }
}

/// `to` is what becomes of the gradient `from` of `target` when `user`
/// hands its gradient down: for each operand of `user` that is `target`,
/// the delta that the rule table gives for the gradient of `user` in
/// `nodes` is added, the left operand's first.
pub open spec fn handed<V: Number>(
    nodes: Seq<Data<V>>,
    user: Scalar,
    target: Scalar,
    from: V,
    to: V,
) -> bool {
    let data = nodes[user.id as int];
    match data.dep {
        None => to == from,
        Some(Dependency::Single { prev, activation }) => exists|delta: V|
            single_delta(activation, data.grad, data.val, nodes[prev.id as int].val, delta)
                && #[trigger] added_if(prev, target, from, delta, to),
        Some(Dependency::Double { lhs, rhs, op }) => exists|to_lhs: V, to_rhs: V, between: V|
            #![trigger added_if(lhs, target, from, to_lhs, between), added_if(rhs, target, between, to_rhs, to)]
            double_deltas(
                op,
                data.grad,
                nodes[lhs.id as int].val,
                nodes[rhs.id as int].val,
                to_lhs,
                to_rhs,
            ) && added_if(lhs, target, from, to_lhs, between) && added_if(
                rhs,
                target,
                between,
                to_rhs,
                to,
            ),
    }
}

/// `to` is what becomes of the gradient `from` of `target` when the nodes
/// of `order` hand their gradients down in turn, each with the gradient
/// that it has in `nodes`.
pub open spec fn gathered<V: Number>(
    nodes: Seq<Data<V>>,
    order: Seq<Scalar>,
    target: Scalar,
    from: V,
    to: V,
) -> bool
    decreases order.len(),
{
    if order.len() == 0 {
        to == from
    } else {
        exists|between: V|
            gathered(nodes, order.drop_last(), target, from, between) && #[trigger] handed(
                nodes,
                order.last(),
                target,
                between,
                to,
            )
    }
}

/// No node of `order` is an operand of a node that comes after it in
/// `order`: every node comes before its dependencies.
pub open spec fn descending<V>(nodes: Seq<Data<V>>, order: Seq<Scalar>) -> bool {
    forall|j: int, k: int|
        0 <= j < k < order.len() ==> !uses(nodes[(#[trigger] order[k]).id as int].dep, #[trigger] order[j])
}

/// What is gathered depends on the nodes of the order and on the values
/// of their operands alone.
proof fn lemma_gathered_same<V: Number>(
    first: Seq<Data<V>>,
    second: Seq<Data<V>>,
    order: Seq<Scalar>,
    target: Scalar,
    from: V,
    to: V,
)
    requires
        acyclic(first),
        same_nodes(first, second),
        forall|k: int| 0 <= k < order.len() ==> (#[trigger] order[k]).id < first.len(),
        forall|k: int|
            0 <= k < order.len() ==> second[(#[trigger] order[k]).id as int].grad
                == first[order[k].id as int].grad,
        gathered(first, order, target, from, to),
    ensures
        gathered(second, order, target, from, to),
    decreases order.len(),
{
    if order.len() > 0 {
        let between = choose|between: V|
            gathered(first, order.drop_last(), target, from, between) && #[trigger] handed(
                first,
                order.last(),
                target,
                between,
                to,
            );
        let rest = order.drop_last();
        assert forall|k: int| 0 <= k < rest.len() implies (#[trigger] rest[k]).id < first.len()
            && second[rest[k].id as int].grad == first[rest[k].id as int].grad by {
            assert(rest[k] == order[k]);
        }
        lemma_gathered_same(first, second, rest, target, from, between);
        let user = order.last();
        assert(user == order[order.len() - 1]);
        assert(below(first[user.id as int].dep, user.id as int));
        assert(second[user.id as int].val == first[user.id as int].val);
        match first[user.id as int].dep {
            None => {},
            Some(Dependency::Single { prev, activation }) => {
                assert(second[prev.id as int].val == first[prev.id as int].val);
                let delta = choose|delta: V|
                    single_delta(
                        activation,
                        first[user.id as int].grad,
                        first[user.id as int].val,
                        first[prev.id as int].val,
                        delta,
                    ) && #[trigger] added_if(prev, target, between, delta, to);
                assert(added_if(prev, target, between, delta, to));
            },
            Some(Dependency::Double { lhs, rhs, op }) => {
                assert(second[lhs.id as int].val == first[lhs.id as int].val);
                assert(second[rhs.id as int].val == first[rhs.id as int].val);
                let (to_lhs, to_rhs, half) = choose|to_lhs: V, to_rhs: V, half: V|
                    #![trigger added_if(lhs, target, between, to_lhs, half), added_if(rhs, target, half, to_rhs, to)]
                    double_deltas(
                        op,
                        first[user.id as int].grad,
                        first[lhs.id as int].val,
                        first[rhs.id as int].val,
                        to_lhs,
                        to_rhs,
                    ) && added_if(lhs, target, between, to_lhs, half) && added_if(
                        rhs,
                        target,
                        half,
                        to_rhs,
                        to,
                    );
                assert(added_if(lhs, target, between, to_lhs, half));
                assert(added_if(rhs, target, half, to_rhs, to));
            },
        }
        assert(handed(second, user, target, between, to));
    }
}

/// A node that hands its gradient down changes the gradient of `target`
/// as `handed` says, with the gradient that it has afterwards: its own
/// gradient stays as it is.
proof fn lemma_propagated_hands<V: Number>(
    before: Seq<Data<V>>,
    user: Scalar,
    after: Seq<Data<V>>,
    target: Scalar,
)
    requires
        acyclic(before),
        user.id < before.len(),
        target.id < before.len(),
        propagated(before, user, after),
    ensures
        after[user.id as int] == before[user.id as int],
        handed(after, user, target, before[target.id as int].grad, after[target.id as int].grad),
{
    lemma_propagated_frame(before, user, after);
    assert(below(before[user.id as int].dep, user.id as int));
    assert(!uses(before[user.id as int].dep, Scalar { id: user.id }));
    let data = before[user.id as int];
    match data.dep {
        None => {},
        Some(Dependency::Single { prev, activation }) => {
            let delta = choose|delta: V|
                single_delta(activation, data.grad, data.val, before[prev.id as int].val, delta)
                    && #[trigger] accumulated(before, prev, delta, after);
            assert(after[prev.id as int].val == before[prev.id as int].val);
            assert(added_if(
                prev,
                target,
                before[target.id as int].grad,
                delta,
                after[target.id as int].grad,
            ));
        },
        Some(Dependency::Double { lhs, rhs, op }) => {
            let (to_lhs, to_rhs, mid) = choose|to_lhs: V, to_rhs: V, mid: Seq<Data<V>>|
                #![trigger accumulated(before, lhs, to_lhs, mid), accumulated(mid, rhs, to_rhs, after)]
                double_deltas(
                    op,
                    data.grad,
                    before[lhs.id as int].val,
                    before[rhs.id as int].val,
                    to_lhs,
                    to_rhs,
                ) && accumulated(before, lhs, to_lhs, mid) && accumulated(mid, rhs, to_rhs, after);
            assert(after[lhs.id as int].val == before[lhs.id as int].val);
            assert(after[rhs.id as int].val == before[rhs.id as int].val);
            let half = mid[target.id as int].grad;
            assert(added_if(lhs, target, before[target.id as int].grad, to_lhs, half));
            assert(added_if(rhs, target, half, to_rhs, after[target.id as int].grad));
        },
    }
}

/// The adjoint equation of a sweep. When the nodes of `order` hand their
/// gradients down in turn, every node before its dependencies, the
/// gradient of `target` receives from each node that uses it the local
/// derivative times the gradient that this node has in the end: the
/// gradient of a node is complete before the node hands it down.
pub proof fn lemma_swept_gathers<V: Number>(
    before: Seq<Data<V>>,
    order: Seq<Scalar>,
    after: Seq<Data<V>>,
    target: Scalar,
)
    requires
        acyclic(before),
        forall|k: int| 0 <= k < order.len() ==> (#[trigger] order[k]).id < before.len(),
        descending(before, order),
        swept(before, order, after),
        target.id < before.len(),
    ensures
        acyclic(after),
        same_nodes(before, after),
        gathered(
            after,
            order,
            target,
            before[target.id as int].grad,
            after[target.id as int].grad,
        ),
    decreases order.len(),
{
    if order.len() > 0 {
        let mid = choose|mid: Seq<Data<V>>|
            swept(before, order.drop_last(), mid) && #[trigger] propagated(
                mid,
                order.last(),
                after,
            );
        let rest = order.drop_last();
        let user = order.last();
        assert(user == order[order.len() - 1]);
        assert forall|k: int| 0 <= k < rest.len() implies (#[trigger] rest[k]).id
            < before.len() by {
            assert(rest[k] == order[k]);
        }
        assert forall|j: int, k: int| 0 <= j < k < rest.len() implies !uses(
            before[(#[trigger] rest[k]).id as int].dep,
            #[trigger] rest[j],
        ) by {
            assert(rest[k] == order[k] && rest[j] == order[j]);
        }
        lemma_swept_gathers(before, rest, mid, target);
        lemma_propagated_frame(mid, user, after);
        lemma_propagated_hands(mid, user, after, target);
        assert(mid[user.id as int].dep == before[user.id as int].dep);
        assert forall|k: int| 0 <= k < rest.len() implies after[(#[trigger] rest[k]).id as int].grad
            == mid[rest[k].id as int].grad by {
            assert(rest[k] == order[k]);
            assert(!uses(before[order[order.len() - 1].id as int].dep, order[k]));
            assert(Scalar { id: rest[k].id } == rest[k]);
        }
        lemma_gathered_same(
            mid,
            after,
            rest,
            target,
            before[target.id as int].grad,
            mid[target.id as int].grad,
        );
    }
}

/// The reverse of a sequence lists every node before its dependencies.
pub proof fn lemma_sequence_descending<V>(nodes: Seq<Data<V>>, root: Scalar)
    requires
        acyclic(nodes),
        root.id < nodes.len(),
    ensures
        descending(nodes, sequence(nodes, root).reverse()),
        forall|k: int|
            0 <= k < sequence(nodes, root).len() ==> (#[trigger] sequence(
                nodes,
                root,
            ).reverse()[k]).id < nodes.len(),
{
    let order = sequence(nodes, root);
    let back = order.reverse();
    lemma_sequence_topological(nodes, root);
    assert forall|k: int| 0 <= k < order.len() implies (#[trigger] back[k]).id < nodes.len() by {
        assert(back[k] == order[order.len() - 1 - k]);
    }
    assert forall|j: int, k: int| 0 <= j < k < back.len() implies !uses(
        nodes[(#[trigger] back[k]).id as int].dep,
        #[trigger] back[j],
    ) by {
        let user = order.len() - 1 - k;
        let used = order.len() - 1 - j;
        assert(back[k] == order[user] && back[j] == order[used]);
        assert(supplied(nodes, order, user));
        if uses(nodes[order[user].id as int].dep, order[used]) {
            let at = choose|at: int| 0 <= at < user && order.take(user)[at] == order[used];
            assert(order[at] == order[used]);
        }
    }
}

/// The adjoint equation of a backward pass. After a pass from `root`, the
/// gradient of every node is what it was before, plus one where the node
/// is `root`, plus what each node that `root` reaches has handed to it:
/// the local derivative with respect to the node, times the gradient that
/// the reaching node has in the end. A node that is used along several
/// paths, or twice by one node, receives the sum over all of them.
pub proof fn lemma_backward_gathers<V: Number>(
    before: Seq<Data<V>>,
    root: Scalar,
    after: Seq<Data<V>>,
    target: Scalar,
)
    requires
        acyclic(before),
        root.id < before.len(),
        target.id < before.len(),
        backpropagated(before, root, after),
    ensures
        same_nodes(before, after),
        exists|one: V, seeded: V|
            is_one(one) && #[trigger] added_if(
                root,
                target,
                before[target.id as int].grad,
                one,
                seeded,
            ) && gathered(
                after,
                sequence(before, root).reverse(),
                target,
                seeded,
                after[target.id as int].grad,
            ),
{
    let (one, seeded) = choose|one: V, seeded: Seq<Data<V>>|
        is_one(one) && #[trigger] accumulated(before, root, one, seeded) && swept(
            seeded,
            sequence(before, root).reverse(),
            after,
        );
    lemma_accumulated_frame(before, root, one, seeded);
    lemma_sequence_descending(before, root);
    let order = sequence(before, root).reverse();
    assert forall|j: int, k: int| 0 <= j < k < order.len() implies !uses(
        seeded[(#[trigger] order[k]).id as int].dep,
        #[trigger] order[j],
    ) by {
        assert(seeded[order[k].id as int].dep == before[order[k].id as int].dep);
    }
    lemma_swept_gathers(seeded, order, after, target);
    assert(added_if(
        root,
        target,
        before[target.id as int].grad,
        one,
        seeded[target.id as int].grad,
    ));
}

/// A backward pass from `root` leaves alone what `root` does not reach:
/// such a node keeps its value, its derivation and its gradient.
pub proof fn lemma_backward_frame<V: Number>(
    before: Seq<Data<V>>,
    root: Scalar,
    after: Seq<Data<V>>,
    kept: Scalar,
)
    requires
        acyclic(before),
        root.id < before.len(),
        kept.id < before.len(),
        !reaches(before, root, kept),
        backpropagated(before, root, after),
    ensures
        after[kept.id as int] == before[kept.id as int],
{
    let (one, seeded) = choose|one: V, seeded: Seq<Data<V>>|
        is_one(one) && #[trigger] accumulated(before, root, one, seeded) && swept(
            seeded,
            sequence(before, root).reverse(),
            after,
        );
    lemma_accumulated_frame(before, root, one, seeded);
    lemma_sequence_topological(before, root);
    let forward = sequence(before, root);
    let order = forward.reverse();
    assert forall|k: int| 0 <= k < order.len() implies (#[trigger] order[k]).id < seeded.len()
        && !uses(seeded[order[k].id as int].dep, kept) by {
        let user = forward[forward.len() - 1 - k];
        assert(order[k] == user);
        assert(seeded[user.id as int].dep == before[user.id as int].dep);
        assert(below(before[user.id as int].dep, user.id as int));
        if uses(before[user.id as int].dep, kept) {
            assert(reaches(before, user, kept)) by {
                assert(reaches(before, kept, kept));
            }
            lemma_topological_closed(before, forward, user, kept);
            lemma_sequence_reaches(before, root, kept);
        }
    }
    lemma_swept_frame(seeded, order, after, kept);
}

} // verus!
