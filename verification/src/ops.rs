//! Binary operators on nodes.

use crate::grad::{derived, planted, Data, Dependency, Graph, Scalar};
use crate::number::Number;
use crate::rules::apply;
use vstd::prelude::*;

verus! {

/// The binary operators a derived node can record.
#[derive(Debug, Clone, Copy, PartialEq, Eq, Structural)]
pub enum Operation {
    Add,
    Mul,
    Sub,
    Div,
}

impl Operation {
    /// The operator's sign.
    pub open spec fn spec_sign(self) -> Seq<char> {
        match self {
            Operation::Add => "+"@,
            Operation::Sub => "-"@,
            Operation::Mul => "*"@,
            Operation::Div => "/"@,
        }
    }

    /// The operator's sign, as it is printed.
    pub fn sign(&self) -> (sign: &'static str)
        ensures
            sign@ == self.spec_sign(),
    {
        match self {
            Operation::Add => "+",
            Operation::Sub => "-",
            Operation::Mul => "*",
            Operation::Div => "/",
        }
    }
}

/// A new node of `graph` whose value is `lhs op rhs` and whose derivation
/// names the two operands, which may be one and the same node.
pub fn op<V: Number>(
    graph: &mut Graph<V>,
    lhs: Scalar,
    rhs: Scalar,
    operation: Operation,
) -> (node: Scalar)
    requires
        old(graph).wf(),
        old(graph).contains(lhs),
        old(graph).contains(rhs),
    ensures
        final(graph).wf(),
        node.id == old(graph)@.len(),
        derived(old(graph)@, Dependency::Double { lhs, rhs, op: operation }, final(graph)@),
{
    let val = apply(operation, lhs.val(graph), rhs.val(graph));
    let dep = Some(Dependency::Double { lhs, rhs, op: operation });
    graph.push(Data { val, grad: V::zero(), dep })
}

/// `lhs op value`: wraps `value` in a new leaf, then applies `op` to `lhs`
/// and that leaf.
pub fn op_value<V: Number>(
    graph: &mut Graph<V>,
    lhs: Scalar,
    value: V,
    operation: Operation,
) -> (node: Scalar)
    requires
        old(graph).wf(),
        old(graph).contains(lhs),
    ensures
        final(graph).wf(),
        node.id == old(graph)@.len() + 1,
        exists|mid: Seq<Data<V>>| #[trigger]
            planted(old(graph)@, value, mid) && derived(
                mid,
                Dependency::Double {
                    lhs,
                    rhs: Scalar { id: old(graph)@.len() as usize },
                    op: operation,
                },
                final(graph)@,
            ),
{
    let rhs = Scalar::new(graph, value);
    self::op(graph, lhs, rhs, operation)
}

/// `value op rhs`: wraps `value` in a new leaf, then applies `op` to that
/// leaf and `rhs`.
pub fn value_op<V: Number>(
    graph: &mut Graph<V>,
    value: V,
    rhs: Scalar,
    operation: Operation,
) -> (node: Scalar)
    requires
        old(graph).wf(),
        old(graph).contains(rhs),
    ensures
        final(graph).wf(),
        node.id == old(graph)@.len() + 1,
        exists|mid: Seq<Data<V>>| #[trigger]
            planted(old(graph)@, value, mid) && derived(
                mid,
                Dependency::Double {
                    lhs: Scalar { id: old(graph)@.len() as usize },
                    rhs,
                    op: operation,
                },
                final(graph)@,
            ),
{
    let lhs = Scalar::new(graph, value);
    self::op(graph, lhs, rhs, operation)
}

impl Scalar {
    /// A new node that holds `self + rhs`.
    pub fn add<V: Number>(&self, graph: &mut Graph<V>, rhs: &Scalar) -> (node: Scalar)
        requires
            old(graph).wf(),
            old(graph).contains(*self),
            old(graph).contains(*rhs),
        ensures
            final(graph).wf(),
            node.id == old(graph)@.len(),
            derived(
                old(graph)@,
                Dependency::Double { lhs: *self, rhs: *rhs, op: Operation::Add },
                final(graph)@,
            ),
    {
        self::op(graph, *self, *rhs, Operation::Add)
    }

    /// A new node that holds `self - rhs`.
    pub fn sub<V: Number>(&self, graph: &mut Graph<V>, rhs: &Scalar) -> (node: Scalar)
        requires
            old(graph).wf(),
            old(graph).contains(*self),
            old(graph).contains(*rhs),
        ensures
            final(graph).wf(),
            node.id == old(graph)@.len(),
            derived(
                old(graph)@,
                Dependency::Double { lhs: *self, rhs: *rhs, op: Operation::Sub },
                final(graph)@,
            ),
    {
        self::op(graph, *self, *rhs, Operation::Sub)
    }

    /// A new node that holds `self * rhs`.
    pub fn mul<V: Number>(&self, graph: &mut Graph<V>, rhs: &Scalar) -> (node: Scalar)
        requires
            old(graph).wf(),
            old(graph).contains(*self),
            old(graph).contains(*rhs),
        ensures
            final(graph).wf(),
            node.id == old(graph)@.len(),
            derived(
                old(graph)@,
                Dependency::Double { lhs: *self, rhs: *rhs, op: Operation::Mul },
                final(graph)@,
            ),
    {
        self::op(graph, *self, *rhs, Operation::Mul)
    }

    /// A new node that holds `self / rhs`.
    pub fn div<V: Number>(&self, graph: &mut Graph<V>, rhs: &Scalar) -> (node: Scalar)
        requires
            old(graph).wf(),
            old(graph).contains(*self),
            old(graph).contains(*rhs),
        ensures
            final(graph).wf(),
            node.id == old(graph)@.len(),
            derived(
                old(graph)@,
                Dependency::Double { lhs: *self, rhs: *rhs, op: Operation::Div },
                final(graph)@,
            ),
    {
        self::op(graph, *self, *rhs, Operation::Div)
    }
}

} // verus!
