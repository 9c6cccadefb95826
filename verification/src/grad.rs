//! The computation graph and the backward pass over it.

use crate::number::{is_one, is_sum, is_zero, Number};
use crate::ops::Operation;
use crate::order::{
    is_topological, lemma_push_contains, lemma_sequence_topological, lemma_visit_keeps, sequence,
    visit,
};
use crate::rules::{
    activate, activates, applies, double_deltas, double_rule, single_delta, single_rule,
};
use std::collections::HashSet;
use vstd::prelude::*;

verus! {

/// The unary activations a derived node can record.
#[derive(Debug, Clone, Copy, PartialEq, Eq, Structural)]
pub enum Activation {
    Exp,
    Tanh,
    Sigmoid,
    ReLU,
}

impl Activation {
    /// The activation's name in lower case.
    pub open spec fn spec_name(self) -> Seq<char> {
        match self {
            Activation::Exp => "exp"@,
            Activation::Tanh => "tanh"@,
            Activation::Sigmoid => "sigmoid"@,
            Activation::ReLU => "relu"@,
        }
    }

    /// The activation's name in lower case, as it is printed.
    pub fn name(&self) -> (name: &'static str)
        ensures
            name@ == self.spec_name(),
    {
        match self {
            Activation::Exp => "exp",
            Activation::Tanh => "tanh",
            Activation::Sigmoid => "sigmoid",
            Activation::ReLU => "relu",
        }
    }
}

/// The name of one node of a graph: its position in the arena.
///
/// Two names are the same node exactly when their positions are equal,
/// whatever values the nodes hold.
#[derive(Debug, Clone, Copy, PartialEq, Eq, Structural)]
pub struct Scalar {
    pub id: usize,
}

/// How a derived node was computed. Written once, when the node is built.
#[derive(Debug, Clone, Copy, PartialEq, Eq, Structural)]
pub enum Dependency {
    Single { prev: Scalar, activation: Activation },
    Double { lhs: Scalar, rhs: Scalar, op: Operation },
}

/// One node: its value, its accumulated gradient and its derivation.
#[derive(Debug)]
pub struct Data<V> {
    pub val: V,
    pub grad: V,
    pub dep: Option<Dependency>,
}

/// An arena of nodes. A node's dependencies always sit at smaller positions.
pub struct Graph<V> {
    nodes: Vec<Data<V>>,
}

/// Every node named by `dep` sits below position `at`.
pub open spec fn below(dep: Option<Dependency>, at: int) -> bool {
    match dep {
        None => true,
        Some(Dependency::Single { prev, .. }) => prev.id < at,
        Some(Dependency::Double { lhs, rhs, .. }) => lhs.id < at && rhs.id < at,
    }
}

/// Every edge of `nodes` points to an earlier node, so there is no cycle.
pub open spec fn acyclic<V>(nodes: Seq<Data<V>>) -> bool {
    forall|i: int| 0 <= i < nodes.len() ==> below(#[trigger] nodes[i].dep, i)
}

/// `after` holds every node of `before`, unchanged, at the same position.
pub open spec fn extends<V>(before: Seq<Data<V>>, after: Seq<Data<V>>) -> bool {
    &&& before.len() <= after.len()
    &&& forall|i: int| 0 <= i < before.len() ==> #[trigger] after[i] == before[i]
}

/// The node at position `at` is as its builder left it: its gradient is
/// zero and, where it is derived, its value is what its derivation gives
/// for the values of its operands.
pub open spec fn computed<V: Number>(nodes: Seq<Data<V>>, at: int) -> bool {
    &&& is_zero(nodes[at].grad)
    &&& match nodes[at].dep {
        None => true,
        Some(Dependency::Single { prev, activation }) => activates(
            activation,
            nodes[prev.id as int].val,
            nodes[at].val,
        ),
        Some(Dependency::Double { lhs, rhs, op }) => applies(
            op,
            nodes[lhs.id as int].val,
            nodes[rhs.id as int].val,
            nodes[at].val,
        ),
    }
}

/// `dep` is the derivation `lhs op rhs` of the nodes at the positions
/// `lhs` and `rhs`.
pub open spec fn joins(dep: Option<Dependency>, lhs: int, rhs: int, op: Operation) -> bool {
    match dep {
        Some(Dependency::Double { lhs: left, rhs: right, op: by }) => left.id == lhs && right.id
            == rhs && by == op,
        _ => false,
    }
}

/// `after` is `before` with one node more on top, freshly computed, whose
/// derivation is `dep`.
pub open spec fn derived<V: Number>(
    before: Seq<Data<V>>,
    dep: Dependency,
    after: Seq<Data<V>>,
) -> bool {
    &&& after.len() == before.len() + 1
    &&& extends(before, after)
    &&& after[before.len() as int].dep == Some(dep)
    &&& computed(after, before.len() as int)
}

/// `after` is `before` with one leaf more on top, which holds `value` and
/// a zero gradient.
pub open spec fn planted<V: Number>(before: Seq<Data<V>>, value: V, after: Seq<Data<V>>) -> bool {
    &&& after.len() == before.len() + 1
    &&& extends(before, after)
    &&& after[before.len() as int].dep is None
    &&& after[before.len() as int].val == value
    &&& is_zero(after[before.len() as int].grad)
}

/// `after` holds the nodes of `before` with the same values and
/// derivations: only gradients may differ.
pub open spec fn same_nodes<V>(before: Seq<Data<V>>, after: Seq<Data<V>>) -> bool {
    &&& after.len() == before.len()
    &&& forall|i: int|
        0 <= i < before.len() ==> (#[trigger] after[i]).val == before[i].val && after[i].dep
            == before[i].dep
}

/// `after` is `before` with `delta` added to the gradient of `node`, and
/// nothing else changed.
pub open spec fn accumulated<V: Number>(
    before: Seq<Data<V>>,
    node: Scalar,
    delta: V,
    after: Seq<Data<V>>,
) -> bool {
    &&& node.id < before.len()
    &&& after.len() == before.len()
    &&& forall|i: int| 0 <= i < before.len() && i != node.id ==> #[trigger] after[i] == before[i]
    &&& after[node.id as int].val == before[node.id as int].val
    &&& after[node.id as int].dep == before[node.id as int].dep
    &&& is_sum(before[node.id as int].grad, delta, after[node.id as int].grad)
}

/// `after` is `before` once `node` has handed its gradient down: a leaf
/// changes nothing, a derived node adds to the gradient of each operand the
/// delta that the rule table gives, the left operand first. Where both
/// operands are one node, that node receives both deltas in turn.
pub open spec fn propagated<V: Number>(
    before: Seq<Data<V>>,
    node: Scalar,
    after: Seq<Data<V>>,
) -> bool {
    let data = before[node.id as int];
    match data.dep {
        None => after == before,
        Some(Dependency::Single { prev, activation }) => exists|delta: V|
            single_delta(activation, data.grad, data.val, before[prev.id as int].val, delta)
                && #[trigger] accumulated(before, prev, delta, after),
        Some(Dependency::Double { lhs, rhs, op }) => exists|
            to_lhs: V,
            to_rhs: V,
            mid: Seq<Data<V>>,
        |
            #![trigger accumulated(before, lhs, to_lhs, mid), accumulated(mid, rhs, to_rhs, after)]
            double_deltas(
                op,
                data.grad,
                before[lhs.id as int].val,
                before[rhs.id as int].val,
                to_lhs,
                to_rhs,
            ) && accumulated(before, lhs, to_lhs, mid) && accumulated(mid, rhs, to_rhs, after),
    }
}

/// `after` is `before` once the nodes of `order` have handed their
/// gradients down one after the other, the first of `order` first.
pub open spec fn swept<V: Number>(
    before: Seq<Data<V>>,
    order: Seq<Scalar>,
    after: Seq<Data<V>>,
) -> bool
    decreases order.len(),
{
    if order.len() == 0 {
        after == before
    } else {
        exists|mid: Seq<Data<V>>|
            swept(before, order.drop_last(), mid) && #[trigger] propagated(
                mid,
                order.last(),
                after,
            )
    }
}

/// `after` is `before` after a backward pass from `root`: one is added to
/// the gradient of `root`, then the nodes that `root` reaches hand their
/// gradients down, every node before its dependencies.
pub open spec fn backpropagated<V: Number>(
    before: Seq<Data<V>>,
    root: Scalar,
    after: Seq<Data<V>>,
) -> bool {
    exists|one: V, seeded: Seq<Data<V>>|
        is_one(one) && #[trigger] accumulated(before, root, one, seeded) && swept(
            seeded,
            sequence(before, root).reverse(),
            after,
        )
}

/// `after` is `before` after one backward pass from each of `roots` in
/// turn, the first of `roots` first.
pub open spec fn backpropagated_each<V: Number>(
    before: Seq<Data<V>>,
    roots: Seq<Scalar>,
    after: Seq<Data<V>>,
) -> bool
    decreases roots.len(),
{
    if roots.len() == 0 {
        after == before
    } else {
        exists|mid: Seq<Data<V>>|
            backpropagated_each(before, roots.drop_last(), mid) && #[trigger] backpropagated(
                mid,
                roots.last(),
                after,
            )
    }
}

/// The nodes that backward passes from each of `roots` in turn meet, in
/// the order in which they meet them.
pub open spec fn met<V>(nodes: Seq<Data<V>>, roots: Seq<Scalar>) -> Seq<Scalar>
    decreases roots.len(),
{
    if roots.len() == 0 {
        Seq::empty()
    } else {
        met(nodes, roots.drop_last()) + sequence(nodes, roots.last()).reverse()
    }
}

impl<V: Number> View for Graph<V> {
    type V = Seq<Data<V>>;

    closed spec fn view(&self) -> Seq<Data<V>> {
        self.nodes@
    }
}

impl<V: Number> Graph<V> {
    /// The invariant of a graph: it is acyclic.
    pub open spec fn wf(&self) -> bool {
        acyclic(self@)
    }

    /// `node` names a node of this graph.
    pub open spec fn contains(&self, node: Scalar) -> bool {
        node.id < self@.len()
    }

    /// An empty graph.
    pub fn new() -> (graph: Self)
        ensures
            graph.wf(),
            graph@.len() == 0,
    {
        Graph { nodes: Vec::new() }
    }

    /// Drops every node from position `len` on, as a caller does to
    /// discard what was derived since the graph had `len` nodes. Names of
    /// dropped nodes must not be used afterwards.
    pub fn truncate(&mut self, len: usize)
        requires
            old(self).wf(),
        ensures
            final(self).wf(),
            len <= old(self)@.len() ==> final(self)@ == old(self)@.take(len as int),
            len > old(self)@.len() ==> final(self)@ == old(self)@,
    {
        if len <= self.nodes.len() {
            self.nodes.truncate(len);
            proof {
                assert forall|i: int| 0 <= i < self@.len() implies below(
                    #[trigger] self@[i].dep,
                    i,
                ) by {
                    assert(below(old(self)@[i].dep, i));
                }
            }
        }
    }

    /// The number of nodes.
    pub fn len(&self) -> (n: usize)
        ensures
            n == self@.len(),
    {
        self.nodes.len()
    }

    /// Appends `data` as a new node and returns its name.
    pub(crate) fn push(&mut self, data: Data<V>) -> (node: Scalar)
        requires
            old(self).wf(),
            below(data.dep, old(self)@.len() as int),
        ensures
            final(self).wf(),
            final(self)@ == old(self)@.push(data),
            node.id == old(self)@.len(),
    {
        let id = self.nodes.len();
        self.nodes.push(data);
        Scalar { id }
    }
}

/// The activations, as operations on what lives in a graph.
pub trait Nonlinear<V: Number>: Sized {
    /// Every node that `self` names is a node of `graph`.
    spec fn within(&self, graph: &Graph<V>) -> bool;

    /// `e` raised to `self`.
    fn exp(&self, graph: &mut Graph<V>) -> (out: Self)
        requires
            old(graph).wf(),
            self.within(old(graph)),
        ensures
            final(graph).wf(),
            extends(old(graph)@, final(graph)@),
            out.within(final(graph)),
    ;

    /// The hyperbolic tangent of `self`.
    fn tanh(&self, graph: &mut Graph<V>) -> (out: Self)
        requires
            old(graph).wf(),
            self.within(old(graph)),
        ensures
            final(graph).wf(),
            extends(old(graph)@, final(graph)@),
            out.within(final(graph)),
    ;

    /// The logistic function of `self`.
    fn sigmoid(&self, graph: &mut Graph<V>) -> (out: Self)
        requires
            old(graph).wf(),
            self.within(old(graph)),
        ensures
            final(graph).wf(),
            extends(old(graph)@, final(graph)@),
            out.within(final(graph)),
    ;

    /// `self` where it is positive, zero elsewhere.
    fn relu(&self, graph: &mut Graph<V>) -> (out: Self)
        requires
            old(graph).wf(),
            self.within(old(graph)),
        ensures
            final(graph).wf(),
            extends(old(graph)@, final(graph)@),
            out.within(final(graph)),
    ;

    /// `self` raised to `power`, by repeated multiplication.
    fn pow(&self, graph: &mut Graph<V>, power: usize) -> (out: Self)
        requires
            old(graph).wf(),
            self.within(old(graph)),
        ensures
            final(graph).wf(),
            extends(old(graph)@, final(graph)@),
            out.within(final(graph)),
    ;
}

/// `dep` is the `step`-th multiplication of a power of `base`, in a graph
/// that had `start` nodes before: a product whose right operand is `base`
/// and whose left operand is `base` at first, then the product before.
pub open spec fn is_power_step(
    dep: Option<Dependency>,
    base: Scalar,
    start: int,
    step: int,
) -> bool {
    match dep {
        Some(Dependency::Double { lhs, rhs, op }) => {
            &&& op == Operation::Mul
            &&& rhs == base
            &&& if step == 0 {
                lhs == base
            } else {
                lhs.id == start + step - 1
            }
        },
        _ => false,
    }
}

/// The number of nodes that a power adds to a graph: a leaf for the
/// zeroth, else one product less than the exponent.
pub open spec fn power_nodes(power: int) -> int {
    if power == 0 {
        1
    } else {
        power - 1
    }
}

/// In `nodes`, `out` is `base` raised to `power` by the nodes from position
/// `start` on: for the zeroth power a leaf that holds one, for the first
/// `base` itself, for a higher one the last of a chain of products.
pub open spec fn is_power<V: Number>(
    nodes: Seq<Data<V>>,
    start: int,
    base: Scalar,
    power: int,
    out: Scalar,
) -> bool {
    if power == 0 {
        &&& out.id == start
        &&& nodes[start].dep is None
        &&& is_one(nodes[start].val)
        &&& is_zero(nodes[start].grad)
    } else {
        &&& if power == 1 {
            out == base
        } else {
            out.id == start + power - 2
        }
        &&& forall|step: int|
            0 <= step < power - 1 ==> {
                &&& is_power_step((#[trigger] nodes[start + step]).dep, base, start, step)
                &&& computed(nodes, start + step)
            }
    }
}

impl<V: Number> Nonlinear<V> for Scalar {
    open spec fn within(&self, graph: &Graph<V>) -> bool {
        graph.contains(*self)
    }

    fn exp(&self, graph: &mut Graph<V>) -> (out: Self)
        ensures
            out.id == old(graph)@.len(),
            derived(
                old(graph)@,
                Dependency::Single { prev: *self, activation: Activation::Exp },
                final(graph)@,
            ),
    {
        self.activate(graph, Activation::Exp)
    }

    fn tanh(&self, graph: &mut Graph<V>) -> (out: Self)
        ensures
            out.id == old(graph)@.len(),
            derived(
                old(graph)@,
                Dependency::Single { prev: *self, activation: Activation::Tanh },
                final(graph)@,
            ),
    {
        self.activate(graph, Activation::Tanh)
    }

    fn sigmoid(&self, graph: &mut Graph<V>) -> (out: Self)
        ensures
            out.id == old(graph)@.len(),
            derived(
                old(graph)@,
                Dependency::Single { prev: *self, activation: Activation::Sigmoid },
                final(graph)@,
            ),
    {
        self.activate(graph, Activation::Sigmoid)
    }

    fn relu(&self, graph: &mut Graph<V>) -> (out: Self)
        ensures
            out.id == old(graph)@.len(),
            derived(
                old(graph)@,
                Dependency::Single { prev: *self, activation: Activation::ReLU },
                final(graph)@,
            ),
    {
        self.activate(graph, Activation::ReLU)
    }

    /// The zeroth power is a new leaf that holds one and does not depend on
    /// `self`. The first power is `self` itself, with no node added. A
    /// higher power is the last of a chain of products, each of the one
    /// before and `self`.
    fn pow(&self, graph: &mut Graph<V>, power: usize) -> (out: Self)
        ensures
            final(graph)@.len() == old(graph)@.len() + power_nodes(power as int),
            is_power(final(graph)@, old(graph)@.len() as int, *self, power as int, out),
    {
        if power == 0 {
            return Scalar::new(graph, V::one());
        }
        let ghost start = graph@.len() as int;
        let mut ans = *self;
        let mut done: usize = 1;
        while done < power
            invariant
                1 <= done <= power,
                graph.wf(),
                graph.contains(*self),
                graph.contains(ans),
                extends(old(graph)@, graph@),
                start == old(graph)@.len(),
                graph@.len() == start + done - 1,
                is_power(graph@, start, *self, done as int, ans),
            decreases power - done,
        {
            let ghost before = graph@;
            ans = crate::ops::op(graph, ans, *self, Operation::Mul);
            proof {
                assert forall|step: int| 0 <= step < done implies {
                    &&& is_power_step((#[trigger] graph@[start + step]).dep, *self, start, step)
                    &&& computed(graph@, start + step)
                } by {
                    if step < done - 1 {
                        assert(is_power_step(before[start + step].dep, *self, start, step));
                        lemma_computed_extends(before, graph@, start + step);
                    }
                }
            }
            done += 1;
        }
        ans
    }
}

/// A power that stands in a graph stands in every graph that extends it.
pub proof fn lemma_power_extends<V: Number>(
    before: Seq<Data<V>>,
    after: Seq<Data<V>>,
    start: int,
    base: Scalar,
    power: int,
    out: Scalar,
)
    requires
        acyclic(before),
        extends(before, after),
        0 <= start,
        0 <= power,
        start + power_nodes(power) <= before.len(),
        is_power(before, start, base, power, out),
    ensures
        is_power(after, start, base, power, out),
{
    if power == 0 {
        assert(after[start] == before[start]);
    } else {
        assert forall|step: int| 0 <= step < power - 1 implies {
            &&& is_power_step((#[trigger] after[start + step]).dep, base, start, step)
            &&& computed(after, start + step)
        } by {
            assert(after[start + step] == before[start + step]);
            assert(is_power_step(before[start + step].dep, base, start, step));
            lemma_computed_extends(before, after, start + step);
        }
    }
}

/// A graph that extends an extension of `first` extends `first`.
pub proof fn lemma_extends_twice<V>(
    first: Seq<Data<V>>,
    second: Seq<Data<V>>,
    third: Seq<Data<V>>,
)
    requires
        extends(first, second),
        extends(second, third),
    ensures
        extends(first, third),
{
    assert forall|i: int| 0 <= i < first.len() implies #[trigger] third[i] == first[i] by {
        assert(second[i] == first[i]);
    }
}

/// A node that was freshly computed in `before` is so in every graph that
/// extends `before`.
pub proof fn lemma_computed_extends<V: Number>(
    before: Seq<Data<V>>,
    after: Seq<Data<V>>,
    at: int,
)
    requires
        acyclic(before),
        extends(before, after),
        0 <= at < before.len(),
        computed(before, at),
    ensures
        computed(after, at),
{
    assert(after[at] == before[at]);
    assert(below(before[at].dep, at));
    match before[at].dep {
        None => {},
        Some(Dependency::Single { prev, .. }) => {
            assert(after[prev.id as int] == before[prev.id as int]);
        },
        Some(Dependency::Double { lhs, rhs, .. }) => {
            assert(after[lhs.id as int] == before[lhs.id as int]);
            assert(after[rhs.id as int] == before[rhs.id as int]);
        },
    }
}

impl<V: Number> Data<V> {
    /// Hands the gradient of `node` down to its operands, by the rule of
    /// its derivation. A leaf hands nothing down.
    pub fn backward(graph: &mut Graph<V>, node: Scalar)
        requires
            old(graph).wf(),
            old(graph).contains(node),
        ensures
            final(graph).wf(),
            same_nodes(old(graph)@, final(graph)@),
            propagated(old(graph)@, node, final(graph)@),
    {
        let g = graph.nodes[node.id].grad;
        let out = graph.nodes[node.id].val;
        let dep = graph.nodes[node.id].dep;
        match dep {
            None => {},
            Some(Dependency::Single { prev, activation }) => {
                let x = graph.nodes[prev.id].val;
                let delta = single_rule(activation, g, out, x);
                prev.accumulate(graph, delta);
            },
            Some(Dependency::Double { lhs, rhs, op }) => {
                let left = graph.nodes[lhs.id].val;
                let right = graph.nodes[rhs.id].val;
                let (to_lhs, to_rhs) = double_rule(op, g, left, right);
                lhs.accumulate(graph, to_lhs);
                let ghost mid = graph@;
                rhs.accumulate(graph, to_rhs);
                assert(accumulated(old(graph)@, lhs, to_lhs, mid) && accumulated(
                    mid,
                    rhs,
                    to_rhs,
                    graph@,
                ));
            },
        }
    }
}

impl Scalar {
    /// A new leaf of `graph` with the given value and a zero gradient.
    pub fn new<V: Number>(graph: &mut Graph<V>, value: V) -> (node: Scalar)
        requires
            old(graph).wf(),
        ensures
            final(graph).wf(),
            node.id == old(graph)@.len(),
            planted(old(graph)@, value, final(graph)@),
    {
        graph.push(Data { val: value, grad: V::zero(), dep: None })
    }

    /// A new node of `graph` whose value is the activation of this node's
    /// value and whose derivation names this node.
    pub fn activate<V: Number>(
        &self,
        graph: &mut Graph<V>,
        activation: Activation,
    ) -> (node: Scalar)
        requires
            old(graph).wf(),
            old(graph).contains(*self),
        ensures
            final(graph).wf(),
            node.id == old(graph)@.len(),
            derived(
                old(graph)@,
                Dependency::Single { prev: *self, activation },
                final(graph)@,
            ),
    {
        let val = activate(activation, graph.nodes[self.id].val);
        let dep = Some(Dependency::Single { prev: *self, activation });
        graph.push(Data { val, grad: V::zero(), dep })
    }

    /// Replaces the node's value: the point at which an optimizer updates a
    /// parameter. Nodes derived from this one keep the values they have.
    pub fn set_val<V: Number>(&self, graph: &mut Graph<V>, value: V)
        requires
            old(graph).wf(),
            old(graph).contains(*self),
        ensures
            final(graph).wf(),
            final(graph)@.len() == old(graph)@.len(),
            forall|i: int|
                0 <= i < old(graph)@.len() && i != self.id ==> #[trigger] final(graph)@[i]
                    == old(graph)@[i],
            final(graph)@[self.id as int].val == value,
            final(graph)@[self.id as int].grad == old(graph)@[self.id as int].grad,
            final(graph)@[self.id as int].dep == old(graph)@[self.id as int].dep,
    {
        graph.nodes[self.id].val = value;
        proof {
            assert forall|i: int| 0 <= i < graph@.len() implies below(
                #[trigger] graph@[i].dep,
                i,
            ) by {
                assert(below(old(graph)@[i].dep, i));
            }
        }
    }

    /// Replaces the node's gradient, as a caller does to reset it between
    /// two backward passes.
    pub fn set_grad<V: Number>(&self, graph: &mut Graph<V>, gradient: V)
        requires
            old(graph).wf(),
            old(graph).contains(*self),
        ensures
            final(graph).wf(),
            final(graph)@.len() == old(graph)@.len(),
            forall|i: int|
                0 <= i < old(graph)@.len() && i != self.id ==> #[trigger] final(graph)@[i]
                    == old(graph)@[i],
            final(graph)@[self.id as int].val == old(graph)@[self.id as int].val,
            final(graph)@[self.id as int].grad == gradient,
            final(graph)@[self.id as int].dep == old(graph)@[self.id as int].dep,
    {
        graph.nodes[self.id].grad = gradient;
        proof {
            assert forall|i: int| 0 <= i < graph@.len() implies below(
                #[trigger] graph@[i].dep,
                i,
            ) by {
                assert(below(old(graph)@[i].dep, i));
            }
        }
    }

    /// The position that identifies this node.
    pub fn hash(&self) -> (id: usize)
        ensures
            id == self.id,
    {
        self.id
    }

    /// Adds `delta` to the node's gradient. The value and the derivation
    /// stay as they are, and so does every other node.
    pub fn accumulate<V: Number>(&self, graph: &mut Graph<V>, delta: V)
        requires
            old(graph).wf(),
            old(graph).contains(*self),
        ensures
            final(graph).wf(),
            accumulated(old(graph)@, *self, delta, final(graph)@),
    {
        let sum = graph.nodes[self.id].grad.add(delta);
        graph.nodes[self.id].grad = sum;
        proof {
            assert forall|i: int| 0 <= i < graph@.len() implies below(
                #[trigger] graph@[i].dep,
                i,
            ) by {
                assert(below(old(graph)@[i].dep, i));
            }
        }
    }

    /// Visits `node` depth first: unless it was visited before, marks it,
    /// visits its dependencies and then pushes it on the stack.
    fn topological<V: Number>(
        graph: &Graph<V>,
        node: Scalar,
        visited: &mut HashSet<usize>,
        stack: &mut Vec<Scalar>,
    )
        requires
            graph.wf(),
            graph.contains(node),
            forall|s: Scalar| #[trigger] old(stack)@.contains(s) ==> old(visited)@.contains(s.id),
            forall|k: usize| #[trigger]
                old(visited)@.contains(k) ==> old(stack)@.contains(Scalar { id: k }) || k
                    > node.id,
        ensures
            final(stack)@ == visit(graph@, node, old(stack)@),
            forall|k: usize| #[trigger]
                final(visited)@.contains(k) <==> old(visited)@.contains(k)
                    || final(stack)@.contains(Scalar { id: k }),
        decreases node.id,
    {
        broadcast use vstd::std_specs::hash::group_hash_axioms;

        let ghost before = stack@;
        let ghost marked = visited@;
        if !visited.contains(&node.id) {
            assert(!before.contains(node));
            visited.insert(node.id);
            match graph.nodes[node.id].dep {
                None => {},
                Some(Dependency::Single { prev, .. }) => {
                    Self::topological(graph, prev, visited, stack);
                },
                Some(Dependency::Double { lhs, rhs, .. }) => {
                    Self::topological(graph, lhs, visited, stack);
                    let ghost mid = stack@;
                    proof {
                        assert forall|k: usize| #[trigger]
                            visited@.contains(k) implies mid.contains(Scalar { id: k }) || k
                            > rhs.id by {
                            if before.contains(Scalar { id: k }) {
                                lemma_visit_keeps(graph@, lhs, before, Scalar { id: k });
                            }
                        }
                    }
                    Self::topological(graph, rhs, visited, stack);
                    proof {
                        assert forall|k: usize|
                            mid.contains(Scalar { id: k }) implies stack@.contains(
                            Scalar { id: k },
                        ) by {
                            lemma_visit_keeps(graph@, rhs, mid, Scalar { id: k });
                        }
                    }
                },
            }
            let ghost under = stack@;
            stack.push(node);
            proof {
                assert forall|k: usize| #[trigger]
                    visited@.contains(k) <==> marked.contains(k) || stack@.contains(
                        Scalar { id: k },
                    ) by {
                    lemma_push_contains(under, node, Scalar { id: k });
                    if before.contains(Scalar { id: k }) {
                        assert(marked.contains(k));
                    }
                }
            }
        } else {
            assert(before.contains(Scalar { id: node.id }));
        }
    }

    /// The nodes that this node depends on, itself included, each once and
    /// every node after its dependencies: the left operand's before the
    /// right operand's, this node last.
    pub fn sequence<V: Number>(&self, graph: &Graph<V>) -> (order: Vec<Scalar>)
        requires
            graph.wf(),
            graph.contains(*self),
        ensures
            order@ == sequence(graph@, *self),
            is_topological(graph@, order@),
            order@.len() > 0,
            order@.last() == *self,
    {
        let mut visited: HashSet<usize> = HashSet::new();
        let mut stack: Vec<Scalar> = Vec::new();
        Self::topological(graph, *self, &mut visited, &mut stack);
        proof {
            lemma_sequence_topological(graph@, *self);
        }
        stack
    }

    /// Runs a backward pass from this node: adds one to its gradient, then
    /// lets every node it reaches hand its gradient down, each node before
    /// its dependencies. Gradients add up over repeated passes. Returns the
    /// nodes in the order in which they were met.
    pub fn backward<V: Number>(&self, graph: &mut Graph<V>) -> (order: Vec<Scalar>)
        requires
            old(graph).wf(),
            old(graph).contains(*self),
        ensures
            final(graph).wf(),
            same_nodes(old(graph)@, final(graph)@),
            order@ == sequence(old(graph)@, *self).reverse(),
            backpropagated(old(graph)@, *self, final(graph)@),
    {
        let stack = self.sequence(graph);
        let order = reversed(&stack);
        self.accumulate(graph, V::one());
        let ghost seeded = graph@;
        let mut i: usize = 0;
        while i < order.len()
            invariant
                i <= order.len(),
                graph.wf(),
                same_nodes(old(graph)@, graph@),
                order@ == sequence(old(graph)@, *self).reverse(),
                is_topological(old(graph)@, sequence(old(graph)@, *self)),
                swept(seeded, order@.take(i as int), graph@),
            decreases order.len() - i,
        {
            let ghost mid = graph@;
            let ghost from = sequence(old(graph)@, *self);
            assert(order@[i as int] == from[from.len() - 1 - i]);
            Data::backward(graph, order[i]);
            proof {
                let done = order@.take(i + 1);
                assert(done.drop_last() == order@.take(i as int));
                assert(done.last() == order@[i as int]);
                assert(propagated(mid, done.last(), graph@));
            }
            i += 1;
        }
        assert(order@.take(order.len() as int) == order@);
        order
    }

    /// The node's current value.
    pub fn val<V: Number>(&self, graph: &Graph<V>) -> (value: V)
        requires
            graph.contains(*self),
        ensures
            value == graph@[self.id as int].val,
    {
        graph.nodes[self.id].val
    }

    /// How the node was derived, or `None` for a leaf.
    pub fn dep<V: Number>(&self, graph: &Graph<V>) -> (dep: Option<Dependency>)
        requires
            graph.contains(*self),
        ensures
            dep == graph@[self.id as int].dep,
    {
        graph.nodes[self.id].dep
    }

    /// The node's accumulated gradient.
    pub fn grad<V: Number>(&self, graph: &Graph<V>) -> (gradient: V)
        requires
            graph.contains(*self),
        ensures
            gradient == graph@[self.id as int].grad,
    {
        graph.nodes[self.id].grad
    }
}

/// The items of `stack`, the last one first.
fn reversed(stack: &Vec<Scalar>) -> (order: Vec<Scalar>)
    ensures
        order@ == stack@.reverse(),
{
    let mut order: Vec<Scalar> = Vec::new();
    let mut i: usize = stack.len();
    while i > 0
        invariant
            i <= stack.len(),
            order.len() == stack.len() - i,
            forall|k: int| 0 <= k < order.len() ==> order[k] == stack[stack.len() - 1 - k],
        decreases i,
    {
        i -= 1;
        order.push(stack[i]);
    }
    assert(order@ =~= stack@.reverse());
    order
}

} // verus!
