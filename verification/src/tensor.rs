//! Grids of nodes.

use crate::grad::{
    acyclic, backpropagated, backpropagated_each, computed, extends, is_power, joins,
    lemma_computed_extends, lemma_power_extends, met, planted, power_nodes, same_nodes,
    Activation, Data, Dependency, Graph, Nonlinear, Scalar,
};
use crate::number::{is_quotient, is_zero, Number};
use crate::ops::Operation;
use crate::order::lemma_visit_same_nodes;
use vstd::prelude::*;

verus! {

/// A grid of `rows` by `cols` node names. The grid holds names, not nodes:
/// two tensors may name the same nodes.
#[derive(Debug)]
pub struct Tensor2D {
    pub rows: usize,
    pub cols: usize,
    pub data: Vec<Vec<Scalar>>,
}

/// The shapes of two tensors that an operation could not combine.
#[derive(Debug, Clone, Copy, PartialEq, Eq, Structural)]
pub struct ShapeMismatch {
    pub lhs_rows: usize,
    pub lhs_cols: usize,
    pub rhs_rows: usize,
    pub rhs_cols: usize,
}

/// What a new tensor holds in each of its cells.
enum Recipe<'a, V> {
    /// A leaf with value zero.
    Zero,
    /// A leaf with the value at the same place in a grid of values.
    Values(&'a Vec<Vec<V>>),
    /// A leaf with one value.
    Constant(V),
    /// A leaf with the value at the cell's row-major position in a list.
    Samples(&'a Vec<V>),
    /// A leaf with the value at the cell's row-major position in a list,
    /// divided by one divisor.
    Scaled(&'a Vec<V>, V),
    /// The activation of the cell at the same place.
    Activate(&'a Tensor2D, Activation),
    /// The operator applied to the cells at the same place.
    Combine(&'a Tensor2D, &'a Tensor2D, Operation),
}

/// Facts about the row-major position `r * cols + c` of a cell.
pub proof fn lemma_row_major(rows: int, cols: int, r: int, c: int)
    by (nonlinear_arith)
    requires
        0 <= r < rows,
        0 <= c <= cols,
    ensures
        (r + 1) * cols == r * cols + cols,
        0 <= r * cols,
        0 <= r * cols + c <= rows * cols,
        r * cols + cols <= rows * cols,
{
}

/// The position at which the nodes of the cell in row `r`, column `c`
/// start, where the cells before it, row by row, took `size` nodes each
/// from position `start` on.
pub open spec fn block(start: int, cols: int, size: int, r: int, c: int) -> int {
    start + (r * cols + c) * size
}

/// Facts about the blocks of consecutive cells.
pub proof fn lemma_block(rows: int, cols: int, size: int, r: int, c: int)
    by (nonlinear_arith)
    requires
        0 <= r < rows,
        0 <= c < cols,
        0 <= size,
    ensures
        (r * cols + (c + 1)) * size == (r * cols + c) * size + size,
        (r * cols + c) * size + size <= (rows * cols + 0) * size,
        0 <= (r * cols + c) * size,
{
}

/// The first block starts at the start, a row's first block starts where
/// the row before ends, and the blocks of all cells end at the end.
pub proof fn lemma_block_rows(rows: int, cols: int, size: int, r: int)
    by (nonlinear_arith)
    ensures
        (0 * cols + 0) * size == 0,
        ((r + 1) * cols + 0) * size == (r * cols + cols) * size,
        (rows * cols + 0) * size == rows * cols * size,
{
}

/// The number of nodes that the inner product of two lines of `inner`
/// cells adds to a graph: `inner` products and the sums that fold them, or
/// one leaf where there is nothing to multiply.
pub open spec fn dot_nodes(inner: int) -> int {
    if inner == 0 {
        1
    } else {
        2 * inner - 1
    }
}

/// The position of the `k`-th product of an inner product that starts at
/// `start`, for `k` from one on.
pub open spec fn term_at(start: int, k: int) -> int {
    start + 2 * k - 1
}

/// The position of the sum of the first `k + 1` products of an inner
/// product that starts at `start`. For `k` zero that is the first product.
pub open spec fn sum_at(start: int, k: int) -> int {
    start + 2 * k
}

/// The names in `lines`, line after line.
pub open spec fn flat(lines: Seq<Vec<Scalar>>) -> Seq<Scalar>
    decreases lines.len(),
{
    if lines.len() == 0 {
        Seq::empty()
    } else {
        flat(lines.drop_last()) + lines.last()@
    }
}

/// The node `data` is a leaf that holds `value` and a zero gradient.
pub open spec fn is_leaf<V: Number>(data: Data<V>, value: V) -> bool {
    &&& data.dep is None
    &&& data.val == value
    &&& is_zero(data.grad)
}

/// Within one row, the block of an earlier cell ends where a later one
/// starts, or before.
pub proof fn lemma_block_row(cols: int, size: int, r: int, c: int, later: int)
    by (nonlinear_arith)
    requires
        0 <= r,
        0 <= c < later,
        0 <= size,
        0 <= cols,
    ensures
        (r * cols + c) * size + size <= (r * cols + later) * size,
        0 <= (r * cols + c) * size,
        (r * cols + 0) * size <= (r * cols + later) * size,
{
}

/// A tensor that lies below a position lies below every later one.
pub proof fn lemma_below_grows(tensor: &Tensor2D, len: int, more: int)
    requires
        tensor.below(len),
        len <= more,
    ensures
        tensor.below(more),
{
    assert forall|r: int, c: int| 0 <= r < tensor.rows && 0 <= c < tensor.cols implies (
    #[trigger] tensor.at(r, c)).id < more by {}
}

impl<'a, V: Number> Recipe<'a, V> {
    /// The recipe can fill a tensor of `rows` by `cols` cells in a graph of
    /// `len` nodes.
    spec fn fits(&self, rows: usize, cols: usize, len: int) -> bool {
        match self {
            Recipe::Zero => true,
            Recipe::Values(values) => {
                &&& values@.len() >= rows
                &&& forall|r: int| 0 <= r < rows ==> (#[trigger] values@[r])@.len() >= cols
            },
            Recipe::Constant(_) => true,
            Recipe::Samples(samples) => samples@.len() == rows * cols,
            Recipe::Scaled(samples, _) => samples@.len() == rows * cols,
            Recipe::Activate(input, _) => {
                &&& input.wf()
                &&& input.rows == rows
                &&& input.cols == cols
                &&& input.below(len)
            },
            Recipe::Combine(lhs, rhs, _) => {
                &&& lhs.wf()
                &&& lhs.rows == rows
                &&& lhs.cols == cols
                &&& lhs.below(len)
                &&& rhs.wf()
                &&& rhs.rows == rows
                &&& rhs.cols == cols
                &&& rhs.below(len)
            },
        }
    }

    /// The node at position `at` is what the recipe asks for in row `r`,
    /// column `c`.
    spec fn made(&self, nodes: Seq<Data<V>>, cols: int, r: int, c: int, at: int) -> bool {
        match self {
            Recipe::Zero => {
                &&& nodes[at].dep is None
                &&& is_zero(nodes[at].val)
                &&& is_zero(nodes[at].grad)
            },
            Recipe::Values(values) => is_leaf(nodes[at], values@[r]@[c]),
            Recipe::Constant(value) => is_leaf(nodes[at], *value),
            Recipe::Samples(samples) => is_leaf(nodes[at], samples@[r * cols + c]),
            Recipe::Scaled(samples, divisor) => {
                &&& nodes[at].dep is None
                &&& is_quotient(samples@[r * cols + c], *divisor, nodes[at].val)
                &&& is_zero(nodes[at].grad)
            },
            Recipe::Activate(input, activation) => {
                &&& nodes[at].dep == Some(
                    Dependency::Single { prev: input.at(r, c), activation: *activation },
                )
                &&& computed(nodes, at)
            },
            Recipe::Combine(lhs, rhs, op) => {
                &&& nodes[at].dep == Some(
                    Dependency::Double { lhs: lhs.at(r, c), rhs: rhs.at(r, c), op: *op },
                )
                &&& computed(nodes, at)
            },
        }
    }

    /// The node for row `r`, column `c` is made at its row-major position
    /// after `start`.
    spec fn placed(&self, nodes: Seq<Data<V>>, start: int, cols: int, r: int, c: int) -> bool {
        self.made(nodes, cols, r, c, start + r * cols + c)
    }

    /// What was made in a graph stays made when the graph grows.
    proof fn lemma_made_extends(
        &self,
        before: Seq<Data<V>>,
        after: Seq<Data<V>>,
        cols: int,
        r: int,
        c: int,
        at: int,
    )
        requires
            acyclic(before),
            extends(before, after),
            0 <= at < before.len(),
            self.made(before, cols, r, c, at),
        ensures
            self.made(after, cols, r, c, at),
    {
        assert(after[at] == before[at]);
        match self {
            Recipe::Activate(..) => {
                lemma_computed_extends(before, after, at);
            },
            Recipe::Combine(..) => {
                lemma_computed_extends(before, after, at);
            },
            _ => {},
        }
    }

    /// Appends the node for row `r`, column `c`.
    fn make(
        &self,
        graph: &mut Graph<V>,
        r: usize,
        c: usize,
        rows: Ghost<usize>,
        cols: usize,
    ) -> (node: Scalar)
        requires
            old(graph).wf(),
            self.fits(rows@, cols, old(graph)@.len() as int),
            r < rows@,
            c < cols,
        ensures
            final(graph).wf(),
            node.id == old(graph)@.len(),
            final(graph)@.len() == old(graph)@.len() + 1,
            extends(old(graph)@, final(graph)@),
            self.made(final(graph)@, cols as int, r as int, c as int, node.id as int),
    {
        match self {
            Recipe::Zero => Scalar::new(graph, V::zero()),
            Recipe::Values(values) => Scalar::new(graph, values[r][c]),
            Recipe::Constant(value) => Scalar::new(graph, *value),
            Recipe::Samples(samples) => {
                proof {
                    lemma_row_major(rows@ as int, cols as int, r as int, c as int + 1);
                    assert(samples@.len() == samples.len());
                }
                Scalar::new(graph, samples[r * cols + c])
            },
            Recipe::Scaled(samples, divisor) => {
                proof {
                    lemma_row_major(rows@ as int, cols as int, r as int, c as int + 1);
                    assert(samples@.len() == samples.len());
                }
                Scalar::new(graph, samples[r * cols + c].div(*divisor))
            },
            Recipe::Activate(input, activation) => {
                assert(input.at(r as int, c as int).id < graph@.len());
                input.data[r][c].activate(graph, *activation)
            },
            Recipe::Combine(lhs, rhs, op) => {
                assert(lhs.at(r as int, c as int).id < graph@.len());
                assert(rhs.at(r as int, c as int).id < graph@.len());
                crate::ops::op(graph, lhs.data[r][c], rhs.data[r][c], *op)
            },
        }
    }

    /// A tensor of `rows` by `cols` new nodes, one cell after the other,
    /// row by row.
    fn fill(&self, graph: &mut Graph<V>, rows: usize, cols: usize) -> (out: Tensor2D)
        requires
            old(graph).wf(),
            self.fits(rows, cols, old(graph)@.len() as int),
        ensures
            final(graph).wf(),
            out.wf(),
            out.rows == rows,
            out.cols == cols,
            out.row_major(old(graph)@.len() as int),
            out.within(final(graph)),
            extends(old(graph)@, final(graph)@),
            final(graph)@.len() == old(graph)@.len() + rows * cols,
            forall|r: int, c: int|
                0 <= r < rows && 0 <= c < cols ==> #[trigger] self.placed(
                    final(graph)@,
                    old(graph)@.len() as int,
                    cols as int,
                    r,
                    c,
                ),
    {
        let ghost start = graph@.len() as int;
        let mut data: Vec<Vec<Scalar>> = Vec::new();
        let mut r: usize = 0;
        while r < rows
            invariant
                r <= rows,
                graph.wf(),
                self.fits(rows, cols, start),
                extends(old(graph)@, graph@),
                start == old(graph)@.len(),
                graph@.len() == start + r * cols,
                data@.len() == r,
                forall|i: int| 0 <= i < r ==> (#[trigger] data@[i])@.len() == cols,
                forall|i: int, j: int|
                    0 <= i < r && 0 <= j < cols ==> (#[trigger] data@[i]@[j]).id == start + i
                        * cols + j,
                forall|i: int, j: int|
                    0 <= i < r && 0 <= j < cols ==> (#[trigger] data@[i]@[j]).id < graph@.len(),
                forall|i: int, j: int|
                    0 <= i < r && 0 <= j < cols ==> #[trigger] self.placed(
                        graph@,
                        start,
                        cols as int,
                        i,
                        j,
                    ),
            decreases rows - r,
        {
            let mut row: Vec<Scalar> = Vec::new();
            let mut c: usize = 0;
            while c < cols
                invariant
                    r < rows,
                    c <= cols,
                    graph.wf(),
                    self.fits(rows, cols, start),
                    extends(old(graph)@, graph@),
                    start == old(graph)@.len(),
                    graph@.len() == start + r * cols + c,
                    data@.len() == r,
                    forall|i: int| 0 <= i < r ==> (#[trigger] data@[i])@.len() == cols,
                    forall|i: int, j: int|
                        0 <= i < r && 0 <= j < cols ==> (#[trigger] data@[i]@[j]).id == start + i
                            * cols + j,
                    forall|i: int, j: int|
                        0 <= i < r && 0 <= j < cols ==> (#[trigger] data@[i]@[j]).id
                            < graph@.len(),
                    row@.len() == c,
                    forall|j: int| 0 <= j < c ==> (#[trigger] row@[j]).id == start + r * cols + j,
                    forall|j: int| 0 <= j < c ==> (#[trigger] row@[j]).id < graph@.len(),
                    forall|i: int, j: int|
                        (0 <= i < r && 0 <= j < cols) || (i == r && 0 <= j < c)
                            ==> #[trigger] self.placed(graph@, start, cols as int, i, j),
                decreases cols - c,
            {
                let ghost before = graph@;
                proof {
                    self.lemma_fits_grows(rows, cols, start, before.len() as int);
                }
                let node = self.make(graph, r, c, Ghost(rows), cols);
                proof {
                    assert forall|i: int, j: int|
                        (0 <= i < r && 0 <= j < cols) || (i == r && 0 <= j <= c)
                        implies #[trigger] self.placed(graph@, start, cols as int, i, j) by {
                        if i < r {
                            lemma_row_major(r as int, cols as int, i, j);
                        }
                        if i < r || j < c {
                            assert(self.placed(before, start, cols as int, i, j));
                            self.lemma_made_extends(
                                before,
                                graph@,
                                cols as int,
                                i,
                                j,
                                start + i * cols + j,
                            );
                        }
                    }
                }
                row.push(node);
                c += 1;
            }
            data.push(row);
            proof {
                lemma_row_major(rows as int, cols as int, r as int, 0);
            }
            r += 1;
        }
        Tensor2D { rows, cols, data }
    }

    /// A recipe that fits a graph fits every longer graph.
    proof fn lemma_fits_grows(&self, rows: usize, cols: usize, len: int, more: int)
        requires
            self.fits(rows, cols, len),
            len <= more,
        ensures
            self.fits(rows, cols, more),
    {
        match self {
            Recipe::Activate(input, _) => {
                assert forall|r: int, c: int|
                    0 <= r < input.rows && 0 <= c < input.cols implies (#[trigger] input.at(
                    r,
                    c,
                )).id < more by {}
            },
            Recipe::Combine(lhs, rhs, _) => {
                assert forall|r: int, c: int|
                    0 <= r < lhs.rows && 0 <= c < lhs.cols implies (#[trigger] lhs.at(r, c)).id
                    < more by {}
                assert forall|r: int, c: int|
                    0 <= r < rhs.rows && 0 <= c < rhs.cols implies (#[trigger] rhs.at(r, c)).id
                    < more by {}
            },
            _ => {},
        }
    }
}

impl Tensor2D {
    /// The name in row `r`, column `c`.
    pub open spec fn at(&self, r: int, c: int) -> Scalar {
        self.data@[r]@[c]
    }

    /// The invariant of a tensor: `rows` rows of `cols` names each.
    pub open spec fn wf(&self) -> bool {
        &&& self.data@.len() == self.rows
        &&& forall|r: int| 0 <= r < self.rows ==> (#[trigger] self.data@[r])@.len() == self.cols
    }

    /// Every cell names a node among the first `len` of a graph.
    pub open spec fn below(&self, len: int) -> bool {
        forall|r: int, c: int|
            0 <= r < self.rows && 0 <= c < self.cols ==> (#[trigger] self.at(r, c)).id < len
    }

    /// Every cell names a node of `graph`.
    pub open spec fn within<V: Number>(&self, graph: &Graph<V>) -> bool {
        self.below(graph@.len() as int)
    }

    /// The cells name consecutive nodes, row by row, the first cell the
    /// node at position `start`.
    pub open spec fn row_major(&self, start: int) -> bool {
        forall|r: int, c: int|
            0 <= r < self.rows && 0 <= c < self.cols ==> (#[trigger] self.at(r, c)).id == start
                + r * self.cols + c
    }

    /// The shapes of `self` and `rhs`, as an operation that cannot combine
    /// them reports them.
    pub open spec fn mismatch(&self, rhs: &Tensor2D) -> ShapeMismatch {
        ShapeMismatch {
            lhs_rows: self.rows,
            lhs_cols: self.cols,
            rhs_rows: rhs.rows,
            rhs_cols: rhs.cols,
        }
    }

    /// `out` is a tensor of new nodes on top of `before`, one for each cell
    /// of `self`, row by row: the activation of that cell.
    pub open spec fn activated<V: Number>(
        &self,
        activation: Activation,
        before: Seq<Data<V>>,
        out: Tensor2D,
        after: Seq<Data<V>>,
    ) -> bool {
        &&& out.wf()
        &&& out.rows == self.rows
        &&& out.cols == self.cols
        &&& out.row_major(before.len() as int)
        &&& out.below(after.len() as int)
        &&& extends(before, after)
        &&& after.len() == before.len() + self.rows * self.cols
        &&& forall|r: int, c: int|
            0 <= r < out.rows && 0 <= c < out.cols ==> {
                &&& after[(#[trigger] out.at(r, c)).id as int].dep == Some(
                    Dependency::Single { prev: self.at(r, c), activation },
                )
                &&& computed(after, out.at(r, c).id as int)
            }
    }

    /// `out` is a tensor of new nodes on top of `before`, one for each cell
    /// of `self`, row by row: the operator applied to that cell and to the
    /// cell of `rhs` at the same place.
    pub open spec fn combined<V: Number>(
        &self,
        rhs: &Tensor2D,
        op: Operation,
        before: Seq<Data<V>>,
        out: Tensor2D,
        after: Seq<Data<V>>,
    ) -> bool {
        &&& out.wf()
        &&& out.rows == self.rows
        &&& out.cols == self.cols
        &&& out.row_major(before.len() as int)
        &&& out.below(after.len() as int)
        &&& extends(before, after)
        &&& after.len() == before.len() + self.rows * self.cols
        &&& forall|r: int, c: int|
            0 <= r < out.rows && 0 <= c < out.cols ==> {
                &&& after[(#[trigger] out.at(r, c)).id as int].dep == Some(
                    Dependency::Double { lhs: self.at(r, c), rhs: rhs.at(r, c), op },
                )
                &&& computed(after, out.at(r, c).id as int)
            }
    }

    /// In `nodes`, `out` is the inner product of row `i` of `self` and
    /// column `j` of `rhs`, built from position `start` on: the products
    /// of the cells, folded from the left by sums, the first product
    /// standing for the first sum. Where the lines are empty, `out` is a
    /// leaf with value zero.
    pub open spec fn is_dot<V: Number>(
        &self,
        rhs: &Tensor2D,
        i: int,
        j: int,
        nodes: Seq<Data<V>>,
        start: int,
        out: Scalar,
    ) -> bool {
        if self.cols == 0 {
            &&& out.id == start
            &&& nodes[start].dep is None
            &&& is_zero(nodes[start].val)
            &&& is_zero(nodes[start].grad)
        } else {
            &&& out.id == sum_at(start, self.cols - 1)
            &&& nodes[start].dep == Some(
                Dependency::Double { lhs: self.at(i, 0), rhs: rhs.at(0, j), op: Operation::Mul },
            )
            &&& computed(nodes, start)
            &&& forall|k: int|
                1 <= k < self.cols ==> {
                    &&& nodes[#[trigger] term_at(start, k)].dep == Some(
                        Dependency::Double {
                            lhs: self.at(i, k),
                            rhs: rhs.at(k, j),
                            op: Operation::Mul,
                        },
                    )
                    &&& computed(nodes, term_at(start, k))
                    &&& joins(
                        nodes[sum_at(start, k)].dep,
                        sum_at(start, k - 1),
                        term_at(start, k),
                        Operation::Add,
                    )
                    &&& computed(nodes, sum_at(start, k))
                }
        }
    }

    /// An inner product that stands in a graph stands in every graph that
    /// extends it.
    pub proof fn lemma_dot_extends<V: Number>(
        &self,
        rhs: &Tensor2D,
        i: int,
        j: int,
        before: Seq<Data<V>>,
        after: Seq<Data<V>>,
        start: int,
        out: Scalar,
    )
        requires
            acyclic(before),
            extends(before, after),
            0 <= start,
            start + dot_nodes(self.cols as int) <= before.len(),
            self.is_dot(rhs, i, j, before, start, out),
        ensures
            self.is_dot(rhs, i, j, after, start, out),
    {
        assert(after[start] == before[start]);
        if self.cols > 0 {
            lemma_computed_extends(before, after, start);
            assert forall|k: int| 1 <= k < self.cols implies {
                &&& after[#[trigger] term_at(start, k)].dep == Some(
                    Dependency::Double {
                        lhs: self.at(i, k),
                        rhs: rhs.at(k, j),
                        op: Operation::Mul,
                    },
                )
                &&& computed(after, term_at(start, k))
                &&& joins(
                    after[sum_at(start, k)].dep,
                    sum_at(start, k - 1),
                    term_at(start, k),
                    Operation::Add,
                )
                &&& computed(after, sum_at(start, k))
            } by {
                assert(after[term_at(start, k)] == before[term_at(start, k)]);
                assert(after[sum_at(start, k)] == before[sum_at(start, k)]);
                lemma_computed_extends(before, after, term_at(start, k));
                lemma_computed_extends(before, after, sum_at(start, k));
            }
        }
    }

    /// `out` is the matrix product of `self` and `rhs` on top of `before`:
    /// a tensor of as many rows as `self` and as many columns as `rhs`,
    /// whose cell `(i, j)` is the inner product of row `i` of `self` and
    /// column `j` of `rhs`, the cells built one after the other, row by
    /// row, and no node besides.
    pub open spec fn multiplied<V: Number>(
        &self,
        rhs: &Tensor2D,
        before: Seq<Data<V>>,
        out: Tensor2D,
        after: Seq<Data<V>>,
    ) -> bool {
        &&& out.wf()
        &&& out.rows == self.rows
        &&& out.cols == rhs.cols
        &&& out.below(after.len() as int)
        &&& extends(before, after)
        &&& after.len() == before.len() + self.rows * rhs.cols * dot_nodes(self.cols as int)
        &&& forall|i: int, j: int|
            0 <= i < out.rows && 0 <= j < out.cols ==> self.is_dot(
                rhs,
                i,
                j,
                after,
                block(before.len() as int, rhs.cols as int, dot_nodes(self.cols as int), i, j),
                #[trigger] out.at(i, j),
            )
    }

    /// The inner product of row `i` of `self` and column `j` of `rhs`.
    pub fn dot<V: Number>(
        &self,
        graph: &mut Graph<V>,
        rhs: &Tensor2D,
        i: usize,
        j: usize,
    ) -> (out: Scalar)
        requires
            old(graph).wf(),
            self.wf(),
            self.within(old(graph)),
            rhs.wf(),
            rhs.within(old(graph)),
            self.cols == rhs.rows,
            i < self.rows,
            j < rhs.cols,
        ensures
            final(graph).wf(),
            final(graph).contains(out),
            extends(old(graph)@, final(graph)@),
            final(graph)@.len() == old(graph)@.len() + dot_nodes(self.cols as int),
            self.is_dot(rhs, i as int, j as int, final(graph)@, old(graph)@.len() as int, out),
    {
        if self.cols == 0 {
            return Scalar::new(graph, V::zero());
        }
        let ghost start = graph@.len() as int;
        assert(self.at(i as int, 0).id < graph@.len());
        assert(rhs.at(0, j as int).id < graph@.len());
        let mut sum = crate::ops::op(graph, self.data[i][0], rhs.data[0][j], Operation::Mul);
        let mut k: usize = 1;
        while k < self.cols
            invariant
                1 <= k <= self.cols,
                graph.wf(),
                self.wf(),
                rhs.wf(),
                self.cols == rhs.rows,
                i < self.rows,
                j < rhs.cols,
                self.below(start),
                rhs.below(start),
                extends(old(graph)@, graph@),
                start == old(graph)@.len(),
                graph@.len() == start + 2 * k - 1,
                sum.id == sum_at(start, k - 1),
                graph@[start].dep == Some(
                    Dependency::Double {
                        lhs: self.at(i as int, 0),
                        rhs: rhs.at(0, j as int),
                        op: Operation::Mul,
                    },
                ),
                computed(graph@, start),
                forall|n: int|
                    1 <= n < k ==> {
                        &&& graph@[#[trigger] term_at(start, n)].dep == Some(
                            Dependency::Double {
                                lhs: self.at(i as int, n),
                                rhs: rhs.at(n, j as int),
                                op: Operation::Mul,
                            },
                        )
                        &&& computed(graph@, term_at(start, n))
                        &&& joins(
                            graph@[sum_at(start, n)].dep,
                            sum_at(start, n - 1),
                            term_at(start, n),
                            Operation::Add,
                        )
                        &&& computed(graph@, sum_at(start, n))
                    },
            decreases self.cols - k,
        {
            let ghost before = graph@;
            assert(self.at(i as int, k as int).id < start);
            assert(rhs.at(k as int, j as int).id < start);
            let term = crate::ops::op(graph, self.data[i][k], rhs.data[k][j], Operation::Mul);
            let ghost mid = graph@;
            sum = crate::ops::op(graph, sum, term, Operation::Add);
            proof {
                lemma_computed_extends(before, graph@, start);
                lemma_computed_extends(mid, graph@, term_at(start, k as int));
                assert forall|n: int| 1 <= n < k + 1 implies {
                    &&& graph@[#[trigger] term_at(start, n)].dep == Some(
                        Dependency::Double {
                            lhs: self.at(i as int, n),
                            rhs: rhs.at(n, j as int),
                            op: Operation::Mul,
                        },
                    )
                    &&& computed(graph@, term_at(start, n))
                    &&& joins(
                        graph@[sum_at(start, n)].dep,
                        sum_at(start, n - 1),
                        term_at(start, n),
                        Operation::Add,
                    )
                    &&& computed(graph@, sum_at(start, n))
                } by {
                    if n < k {
                        assert(before[term_at(start, n)] == graph@[term_at(start, n)]);
                        assert(before[sum_at(start, n)] == graph@[sum_at(start, n)]);
                        lemma_computed_extends(before, graph@, term_at(start, n));
                        lemma_computed_extends(before, graph@, sum_at(start, n));
                    }
                }
            }
            k += 1;
        }
        sum
    }

    /// The matrix product of `self` and `rhs`: cell `(i, j)` is the inner
    /// product of row `i` of `self` and column `j` of `rhs`, and the cells
    /// are built one after the other, row by row. `self` must have as many
    /// columns as `rhs` has rows: where it has not, nothing is added and
    /// the shapes come back.
    pub fn mul<V: Number>(
        &self,
        graph: &mut Graph<V>,
        rhs: &Tensor2D,
    ) -> (result: Result<Tensor2D, ShapeMismatch>)
        requires
            old(graph).wf(),
            self.wf(),
            self.within(old(graph)),
            rhs.wf(),
            rhs.within(old(graph)),
        ensures
            final(graph).wf(),
            result is Ok <==> self.cols == rhs.rows,
            result matches Err(shapes) ==> shapes == self.mismatch(rhs) && final(graph)@
                == old(graph)@,
            result matches Ok(out) ==> self.multiplied(rhs, old(graph)@, out, final(graph)@),
    {
        if self.cols != rhs.rows {
            return Err(
                ShapeMismatch {
                    lhs_rows: self.rows,
                    lhs_cols: self.cols,
                    rhs_rows: rhs.rows,
                    rhs_cols: rhs.cols,
                },
            );
        }
        let rows = self.rows;
        let cols = rhs.cols;
        let ghost start = graph@.len() as int;
        let ghost size = dot_nodes(self.cols as int);
        let mut data: Vec<Vec<Scalar>> = Vec::new();
        let mut i: usize = 0;
        proof {
            lemma_block_rows(rows as int, cols as int, size, 0);
        }
        while i < rows
            invariant
                i <= rows,
                rows == self.rows,
                cols == rhs.cols,
                size == dot_nodes(self.cols as int),
                graph.wf(),
                self.wf(),
                rhs.wf(),
                self.cols == rhs.rows,
                self.below(start),
                rhs.below(start),
                extends(old(graph)@, graph@),
                start == old(graph)@.len(),
                graph@.len() == block(start, cols as int, size, i as int, 0),
                data@.len() == i,
                forall|r: int| 0 <= r < i ==> (#[trigger] data@[r])@.len() == cols,
                forall|r: int, c: int|
                    0 <= r < i && 0 <= c < cols ==> (#[trigger] data@[r]@[c]).id < graph@.len(),
                forall|r: int, c: int|
                    0 <= r < i && 0 <= c < cols ==> self.is_dot(
                        rhs,
                        r,
                        c,
                        graph@,
                        block(start, cols as int, size, r, c),
                        #[trigger] data@[r]@[c],
                    ),
            decreases rows - i,
        {
            let mut row: Vec<Scalar> = Vec::new();
            let mut j: usize = 0;
            while j < cols
                invariant
                    i < rows,
                    j <= cols,
                    rows == self.rows,
                    cols == rhs.cols,
                    size == dot_nodes(self.cols as int),
                    graph.wf(),
                    self.wf(),
                    rhs.wf(),
                    self.cols == rhs.rows,
                    self.below(start),
                    rhs.below(start),
                    extends(old(graph)@, graph@),
                    start == old(graph)@.len(),
                    graph@.len() == block(start, cols as int, size, i as int, j as int),
                    data@.len() == i,
                    forall|r: int| 0 <= r < i ==> (#[trigger] data@[r])@.len() == cols,
                    forall|r: int, c: int|
                        0 <= r < i && 0 <= c < cols ==> (#[trigger] data@[r]@[c]).id
                            < graph@.len(),
                    forall|r: int, c: int|
                        0 <= r < i && 0 <= c < cols ==> self.is_dot(
                            rhs,
                            r,
                            c,
                            graph@,
                            block(start, cols as int, size, r, c),
                            #[trigger] data@[r]@[c],
                        ),
                    row@.len() == j,
                    forall|c: int| 0 <= c < j ==> (#[trigger] row@[c]).id < graph@.len(),
                    forall|c: int|
                        0 <= c < j ==> self.is_dot(
                            rhs,
                            i as int,
                            c,
                            graph@,
                            block(start, cols as int, size, i as int, c),
                            #[trigger] row@[c],
                        ),
                decreases cols - j,
            {
                let ghost before = graph@;
                proof {
                    lemma_below_grows(self, start, before.len() as int);
                    lemma_below_grows(rhs, start, before.len() as int);
                    lemma_block(rows as int, cols as int, size, i as int, j as int);
                }
                let cell = self.dot(graph, rhs, i, j);
                proof {
                    assert forall|r: int, c: int| 0 <= r < i && 0 <= c < cols implies self.is_dot(
                        rhs,
                        r,
                        c,
                        graph@,
                        block(start, cols as int, size, r, c),
                        #[trigger] data@[r]@[c],
                    ) by {
                        lemma_block(i as int, cols as int, size, r, c);
                        self.lemma_dot_extends(
                            rhs,
                            r,
                            c,
                            before,
                            graph@,
                            block(start, cols as int, size, r, c),
                            data@[r]@[c],
                        );
                    }
                    assert forall|c: int| 0 <= c < j implies self.is_dot(
                        rhs,
                        i as int,
                        c,
                        graph@,
                        block(start, cols as int, size, i as int, c),
                        #[trigger] row@[c],
                    ) by {
                        lemma_block_row(cols as int, size, i as int, c, j as int);
                        self.lemma_dot_extends(
                            rhs,
                            i as int,
                            c,
                            before,
                            graph@,
                            block(start, cols as int, size, i as int, c),
                            row@[c],
                        );
                    }
                }
                row.push(cell);
                j += 1;
            }
            data.push(row);
            proof {
                lemma_block_rows(rows as int, cols as int, size, i as int);
            }
            i += 1;
        }
        proof {
            lemma_block_rows(rows as int, cols as int, size, 0);
        }
        Ok(Tensor2D { rows, cols, data })
    }

    /// The names of all cells, row by row.
    pub open spec fn cells(&self) -> Seq<Scalar> {
        flat(self.data@)
    }

    /// Some cell holds the name `node`.
    pub open spec fn names(&self, node: Scalar) -> bool {
        exists|r: int, c: int|
            0 <= r < self.rows && 0 <= c < self.cols && #[trigger] self.at(r, c) == node
    }

    /// The names of all cells, row by row.
    pub fn roots(&self) -> (roots: Vec<Scalar>)
        requires
            self.wf(),
        ensures
            roots@ == self.cells(),
            forall|k: int| 0 <= k < roots@.len() ==> self.names(#[trigger] roots@[k]),
    {
        let mut roots: Vec<Scalar> = Vec::new();
        let mut r: usize = 0;
        while r < self.rows
            invariant
                self.wf(),
                r <= self.rows,
                roots@ == flat(self.data@.take(r as int)),
                forall|k: int| 0 <= k < roots@.len() ==> self.names(#[trigger] roots@[k]),
            decreases self.rows - r,
        {
            let ghost lines = self.data@.take(r as int + 1);
            let ghost above = roots@;
            assert(lines.drop_last() == self.data@.take(r as int));
            assert(lines.last() == self.data@[r as int]);
            let mut c: usize = 0;
            while c < self.cols
                invariant
                    self.wf(),
                    r < self.rows,
                    c <= self.cols,
                    roots@ == above + self.data@[r as int]@.take(c as int),
                    forall|k: int| 0 <= k < roots@.len() ==> self.names(#[trigger] roots@[k]),
                decreases self.cols - c,
            {
                let ghost held = roots@;
                roots.push(self.data[r][c]);
                proof {
                    assert(self.data@[r as int]@.take(c as int + 1) == self.data@[r as int]@.take(
                        c as int,
                    ).push(self.data@[r as int]@[c as int]));
                    assert(roots@ == above + self.data@[r as int]@.take(c as int + 1));
                    assert forall|k: int| 0 <= k < roots@.len() implies self.names(
                        #[trigger] roots@[k],
                    ) by {
                        if k < held.len() {
                            assert(roots@[k] == held[k]);
                        } else {
                            assert(roots@[k] == self.at(r as int, c as int));
                        }
                    }
                }
                c += 1;
            }
            assert(self.data@[r as int]@.take(self.cols as int) == self.data@[r as int]@);
            r += 1;
        }
        assert(self.data@.take(self.rows as int) == self.data@);
        roots
    }

    /// Runs a backward pass from every cell in turn, row by row, each cell
    /// as a root of its own. Returns the nodes in the order in which the
    /// passes met them.
    pub fn backward<V: Number>(&self, graph: &mut Graph<V>) -> (nodes: Vec<Scalar>)
        requires
            old(graph).wf(),
            self.wf(),
            self.within(old(graph)),
        ensures
            final(graph).wf(),
            same_nodes(old(graph)@, final(graph)@),
            nodes@ == met(old(graph)@, self.cells()),
            backpropagated_each(old(graph)@, self.cells(), final(graph)@),
    {
        let roots = self.roots();
        proof {
            assert forall|n: int| 0 <= n < roots@.len() implies (#[trigger] roots@[n]).id
                < graph@.len() by {
                assert(self.names(roots@[n]));
            }
        }
        let mut nodes: Vec<Scalar> = Vec::new();
        let mut k: usize = 0;
        while k < roots.len()
            invariant
                k <= roots.len(),
                graph.wf(),
                same_nodes(old(graph)@, graph@),
                old(graph).wf(),
                forall|n: int| 0 <= n < roots@.len() ==> (#[trigger] roots@[n]).id < graph@.len(),
                nodes@ == met(old(graph)@, roots@.take(k as int)),
                backpropagated_each(old(graph)@, roots@.take(k as int), graph@),
            decreases roots.len() - k,
        {
            let ghost mid = graph@;
            let ghost done = roots@.take(k as int + 1);
            let mut order = roots[k].backward(graph);
            proof {
                assert(done.drop_last() == roots@.take(k as int));
                assert(done.last() == roots@[k as int]);
                lemma_visit_same_nodes(old(graph)@, mid, roots@[k as int], Seq::empty());
                assert(backpropagated(mid, done.last(), graph@));
            }
            nodes.append(&mut order);
            k += 1;
        }
        assert(roots@.take(roots.len() as int) == roots@);
        nodes
    }

    /// `out` is a tensor of `rows` by `cols` new leaves on top of `before`,
    /// row by row, each of which holds `value`.
    pub open spec fn filled<V: Number>(
        rows: usize,
        cols: usize,
        value: V,
        before: Seq<Data<V>>,
        out: Tensor2D,
        after: Seq<Data<V>>,
    ) -> bool {
        &&& out.wf()
        &&& out.rows == rows
        &&& out.cols == cols
        &&& out.row_major(before.len() as int)
        &&& out.below(after.len() as int)
        &&& extends(before, after)
        &&& after.len() == before.len() + rows * cols
        &&& forall|r: int, c: int|
            0 <= r < rows && 0 <= c < cols ==> is_leaf(
                after[(#[trigger] out.at(r, c)).id as int],
                value,
            )
    }

    /// A tensor of `rows` by `cols` new leaves, each of which holds
    /// `value`.
    pub fn full<V: Number>(
        graph: &mut Graph<V>,
        rows: usize,
        cols: usize,
        value: V,
    ) -> (out: Tensor2D)
        requires
            old(graph).wf(),
        ensures
            final(graph).wf(),
            Self::filled(rows, cols, value, old(graph)@, out, final(graph)@),
    {
        let recipe = Recipe::Constant(value);
        let out = recipe.fill(graph, rows, cols);
        proof {
            assert forall|r: int, c: int| 0 <= r < rows && 0 <= c < cols implies is_leaf(
                graph@[(#[trigger] out.at(r, c)).id as int],
                value,
            ) by {
                assert(recipe.placed(graph@, old(graph)@.len() as int, cols as int, r, c));
            }
        }
        out
    }

    /// `out` is a tensor of `rows` by `cols` new leaves on top of `before`,
    /// row by row, which hold the given samples in their order.
    pub open spec fn sampled<V: Number>(
        rows: usize,
        cols: usize,
        samples: Seq<V>,
        before: Seq<Data<V>>,
        out: Tensor2D,
        after: Seq<Data<V>>,
    ) -> bool {
        &&& out.wf()
        &&& out.rows == rows
        &&& out.cols == cols
        &&& out.row_major(before.len() as int)
        &&& out.below(after.len() as int)
        &&& extends(before, after)
        &&& after.len() == before.len() + rows * cols
        &&& forall|r: int, c: int|
            0 <= r < rows && 0 <= c < cols ==> is_leaf(
                after[(#[trigger] out.at(r, c)).id as int],
                samples[r * cols + c],
            )
    }

    /// `out` is a tensor of `rows` by `cols` new leaves on top of `before`,
    /// row by row, which hold the given samples in their order, each
    /// divided by `root`.
    pub open spec fn scaled<V: Number>(
        rows: usize,
        cols: usize,
        samples: Seq<V>,
        root: V,
        before: Seq<Data<V>>,
        out: Tensor2D,
        after: Seq<Data<V>>,
    ) -> bool {
        &&& out.wf()
        &&& out.rows == rows
        &&& out.cols == cols
        &&& out.row_major(before.len() as int)
        &&& out.below(after.len() as int)
        &&& extends(before, after)
        &&& after.len() == before.len() + rows * cols
        &&& forall|r: int, c: int|
            0 <= r < rows && 0 <= c < cols ==> {
                let leaf = after[(#[trigger] out.at(r, c)).id as int];
                &&& leaf.dep is None
                &&& is_quotient(samples[r * cols + c], root, leaf.val)
                &&& is_zero(leaf.grad)
            }
    }

    /// Whether `count` is the number of cells of `rows` rows by `cols`
    /// columns.
    fn counts(rows: usize, cols: usize, count: usize) -> (fits: bool)
        ensures
            fits <==> count == rows * cols,
    {
        match rows.checked_mul(cols) {
            Some(cells) => cells == count,
            None => false,
        }
    }

    /// A tensor of `rows` by `cols` new leaves that hold the given
    /// samples, row by row. The caller draws the samples, one for each
    /// cell; for a uniform start, evenly between minus one and one. With
    /// any other number of samples nothing is built.
    pub fn uniform<V: Number>(
        graph: &mut Graph<V>,
        rows: usize,
        cols: usize,
        samples: &Vec<V>,
    ) -> (result: Option<Tensor2D>)
        requires
            old(graph).wf(),
        ensures
            final(graph).wf(),
            result is Some <==> samples@.len() == rows * cols,
            result is None ==> final(graph)@ == old(graph)@,
            result matches Some(out) ==> Self::sampled(
                rows,
                cols,
                samples@,
                old(graph)@,
                out,
                final(graph)@,
            ),
    {
        if !Self::counts(rows, cols, samples.len()) {
            return None;
        }
        let recipe = Recipe::Samples(samples);
        let out = recipe.fill(graph, rows, cols);
        proof {
            assert forall|r: int, c: int| 0 <= r < rows && 0 <= c < cols implies is_leaf(
                graph@[(#[trigger] out.at(r, c)).id as int],
                samples@[r * cols + c],
            ) by {
                assert(recipe.placed(graph@, old(graph)@.len() as int, cols as int, r, c));
            }
        }
        Some(out)
    }

    /// A tensor of `rows` by `cols` new leaves that hold the given
    /// samples, row by row, each divided by `root`. The caller draws the
    /// samples, one for each cell, and hands in the square root of the
    /// number of rows. With any other number of samples nothing is built.
    pub fn xavier<V: Number>(
        graph: &mut Graph<V>,
        rows: usize,
        cols: usize,
        samples: &Vec<V>,
        root: V,
    ) -> (result: Option<Tensor2D>)
        requires
            old(graph).wf(),
        ensures
            final(graph).wf(),
            result is Some <==> samples@.len() == rows * cols,
            result is None ==> final(graph)@ == old(graph)@,
            result matches Some(out) ==> Self::scaled(
                rows,
                cols,
                samples@,
                root,
                old(graph)@,
                out,
                final(graph)@,
            ),
    {
        if !Self::counts(rows, cols, samples.len()) {
            return None;
        }
        let recipe = Recipe::Scaled(samples, root);
        let out = recipe.fill(graph, rows, cols);
        proof {
            assert forall|r: int, c: int| 0 <= r < rows && 0 <= c < cols implies {
                let leaf = graph@[(#[trigger] out.at(r, c)).id as int];
                &&& leaf.dep is None
                &&& is_quotient(samples@[r * cols + c], root, leaf.val)
                &&& is_zero(leaf.grad)
            } by {
                assert(recipe.placed(graph@, old(graph)@.len() as int, cols as int, r, c));
            }
        }
        Some(out)
    }

    /// `self op value`, cell by cell: wraps `value` in a new leaf for each
    /// cell, then applies `op` to each cell of `self` and its leaf.
    pub fn op_value<V: Number>(
        &self,
        graph: &mut Graph<V>,
        value: V,
        op: Operation,
    ) -> (out: Tensor2D)
        requires
            old(graph).wf(),
            self.wf(),
            self.within(old(graph)),
        ensures
            final(graph).wf(),
            exists|leaves: Tensor2D, mid: Seq<Data<V>>|
                Self::filled(self.rows, self.cols, value, old(graph)@, leaves, mid)
                    && #[trigger] self.combined(&leaves, op, mid, out, final(graph)@),
    {
        let leaves = Self::full(graph, self.rows, self.cols, value);
        let ghost mid = graph@;
        proof {
            lemma_below_grows(self, old(graph)@.len() as int, mid.len() as int);
        }
        match self.combine(graph, &leaves, op) {
            Ok(out) => {
                assert(self.combined(&leaves, op, mid, out, graph@));
                out
            },
            Err(_) => leaves,
        }
    }

    /// `value op rhs`, cell by cell: wraps `value` in a new leaf for each
    /// cell, then applies `op` to each leaf and its cell of `rhs`.
    pub fn value_op<V: Number>(
        graph: &mut Graph<V>,
        value: V,
        rhs: &Tensor2D,
        op: Operation,
    ) -> (out: Tensor2D)
        requires
            old(graph).wf(),
            rhs.wf(),
            rhs.within(old(graph)),
        ensures
            final(graph).wf(),
            exists|leaves: Tensor2D, mid: Seq<Data<V>>|
                Self::filled(rhs.rows, rhs.cols, value, old(graph)@, leaves, mid)
                    && #[trigger] leaves.combined(rhs, op, mid, out, final(graph)@),
    {
        let leaves = Self::full(graph, rhs.rows, rhs.cols, value);
        let ghost mid = graph@;
        proof {
            lemma_below_grows(rhs, old(graph)@.len() as int, mid.len() as int);
        }
        match leaves.combine(graph, rhs, op) {
            Ok(out) => {
                assert(leaves.combined(rhs, op, mid, out, graph@));
                out
            },
            Err(_) => leaves,
        }
    }

    /// `out` is `self` raised to `power` on top of `before`: a tensor of
    /// the shape of `self` whose every cell is the power of the cell at
    /// the same place, the powers built one after the other, row by row,
    /// and no node besides.
    pub open spec fn raised<V: Number>(
        &self,
        power: usize,
        before: Seq<Data<V>>,
        out: Tensor2D,
        after: Seq<Data<V>>,
    ) -> bool {
        &&& out.wf()
        &&& out.rows == self.rows
        &&& out.cols == self.cols
        &&& out.below(after.len() as int)
        &&& extends(before, after)
        &&& after.len() == before.len() + self.rows * self.cols * power_nodes(power as int)
        &&& forall|r: int, c: int|
            0 <= r < out.rows && 0 <= c < out.cols ==> is_power(
                after,
                block(before.len() as int, self.cols as int, power_nodes(power as int), r, c),
                self.at(r, c),
                power as int,
                #[trigger] out.at(r, c),
            )
    }

    /// `out` has the rows of `self` for columns and the columns of `self`
    /// for rows, and names the same nodes.
    pub open spec fn flips(&self, out: &Tensor2D) -> bool {
        &&& out.wf()
        &&& out.rows == self.cols
        &&& out.cols == self.rows
        &&& forall|r: int, c: int|
            0 <= r < self.rows && 0 <= c < self.cols ==> #[trigger] out.at(c, r) == self.at(r, c)
    }

    /// A tensor of the same shape that names the same nodes.
    pub fn copy(&self) -> (out: Tensor2D)
        requires
            self.wf(),
        ensures
            out.wf(),
            out.rows == self.rows,
            out.cols == self.cols,
            forall|r: int, c: int|
                0 <= r < self.rows && 0 <= c < self.cols ==> #[trigger] out.at(r, c) == self.at(
                    r,
                    c,
                ),
    {
        let mut data: Vec<Vec<Scalar>> = Vec::new();
        let mut r: usize = 0;
        while r < self.rows
            invariant
                self.wf(),
                r <= self.rows,
                data@.len() == r,
                forall|i: int| 0 <= i < r ==> (#[trigger] data@[i])@.len() == self.cols,
                forall|i: int, j: int|
                    0 <= i < r && 0 <= j < self.cols ==> #[trigger] data@[i]@[j] == self.at(i, j),
            decreases self.rows - r,
        {
            let mut line: Vec<Scalar> = Vec::new();
            let mut c: usize = 0;
            while c < self.cols
                invariant
                    self.wf(),
                    r < self.rows,
                    c <= self.cols,
                    line@.len() == c,
                    forall|j: int| 0 <= j < c ==> #[trigger] line@[j] == self.at(r as int, j),
                decreases self.cols - c,
            {
                line.push(self.data[r][c]);
                c += 1;
            }
            data.push(line);
            r += 1;
        }
        Tensor2D { rows: self.rows, cols: self.cols, data }
    }

    /// Every cell raised to `power`, each by a chain of products of its
    /// own, one cell after the other, row by row. For the first power the
    /// result names the cells of `self`.
    pub fn pow<V: Number>(&self, graph: &mut Graph<V>, power: usize) -> (out: Tensor2D)
        requires
            old(graph).wf(),
            self.wf(),
            self.within(old(graph)),
        ensures
            final(graph).wf(),
            self.raised(power, old(graph)@, out, final(graph)@),
    {
        let rows = self.rows;
        let cols = self.cols;
        let ghost start = graph@.len() as int;
        let ghost size = power_nodes(power as int);
        let mut data: Vec<Vec<Scalar>> = Vec::new();
        let mut r: usize = 0;
        proof {
            lemma_block_rows(rows as int, cols as int, size, 0);
        }
        while r < rows
            invariant
                r <= rows,
                rows == self.rows,
                cols == self.cols,
                size == power_nodes(power as int),
                graph.wf(),
                self.wf(),
                self.below(start),
                extends(old(graph)@, graph@),
                start == old(graph)@.len(),
                graph@.len() == block(start, cols as int, size, r as int, 0),
                data@.len() == r,
                forall|i: int| 0 <= i < r ==> (#[trigger] data@[i])@.len() == cols,
                forall|i: int, j: int|
                    0 <= i < r && 0 <= j < cols ==> (#[trigger] data@[i]@[j]).id < graph@.len(),
                forall|i: int, j: int|
                    0 <= i < r && 0 <= j < cols ==> is_power(
                        graph@,
                        block(start, cols as int, size, i, j),
                        self.at(i, j),
                        power as int,
                        #[trigger] data@[i]@[j],
                    ),
            decreases rows - r,
        {
            let mut row: Vec<Scalar> = Vec::new();
            let mut c: usize = 0;
            while c < cols
                invariant
                    r < rows,
                    c <= cols,
                    rows == self.rows,
                    cols == self.cols,
                    size == power_nodes(power as int),
                    graph.wf(),
                    self.wf(),
                    self.below(start),
                    extends(old(graph)@, graph@),
                    start == old(graph)@.len(),
                    graph@.len() == block(start, cols as int, size, r as int, c as int),
                    data@.len() == r,
                    forall|i: int| 0 <= i < r ==> (#[trigger] data@[i])@.len() == cols,
                    forall|i: int, j: int|
                        0 <= i < r && 0 <= j < cols ==> (#[trigger] data@[i]@[j]).id
                            < graph@.len(),
                    forall|i: int, j: int|
                        0 <= i < r && 0 <= j < cols ==> is_power(
                            graph@,
                            block(start, cols as int, size, i, j),
                            self.at(i, j),
                            power as int,
                            #[trigger] data@[i]@[j],
                        ),
                    row@.len() == c,
                    forall|j: int| 0 <= j < c ==> (#[trigger] row@[j]).id < graph@.len(),
                    forall|j: int|
                        0 <= j < c ==> is_power(
                            graph@,
                            block(start, cols as int, size, r as int, j),
                            self.at(r as int, j),
                            power as int,
                            #[trigger] row@[j],
                        ),
                decreases cols - c,
            {
                let ghost before = graph@;
                proof {
                    lemma_block(rows as int, cols as int, size, r as int, c as int);
                    assert(self.at(r as int, c as int).id < start);
                }
                let cell = self.data[r][c].pow(graph, power);
                proof {
                    assert forall|i: int, j: int| 0 <= i < r && 0 <= j < cols implies is_power(
                        graph@,
                        block(start, cols as int, size, i, j),
                        self.at(i, j),
                        power as int,
                        #[trigger] data@[i]@[j],
                    ) by {
                        lemma_block(r as int, cols as int, size, i, j);
                        if c > 0 {
                            lemma_block_row(cols as int, size, r as int, 0, c as int);
                        }
                        lemma_power_extends(
                            before,
                            graph@,
                            block(start, cols as int, size, i, j),
                            self.at(i, j),
                            power as int,
                            data@[i]@[j],
                        );
                    }
                    assert forall|j: int| 0 <= j < c implies is_power(
                        graph@,
                        block(start, cols as int, size, r as int, j),
                        self.at(r as int, j),
                        power as int,
                        #[trigger] row@[j],
                    ) by {
                        lemma_block_row(cols as int, size, r as int, j, c as int);
                        lemma_power_extends(
                            before,
                            graph@,
                            block(start, cols as int, size, r as int, j),
                            self.at(r as int, j),
                            power as int,
                            row@[j],
                        );
                    }
                }
                row.push(cell);
                c += 1;
            }
            data.push(row);
            proof {
                lemma_block_rows(rows as int, cols as int, size, r as int);
            }
            r += 1;
        }
        proof {
            lemma_block_rows(rows as int, cols as int, size, 0);
        }
        Tensor2D { rows, cols, data }
    }

    /// A tensor of `rows` by `cols` new leaves, each with value zero.
    pub fn zeros<V: Number>(graph: &mut Graph<V>, rows: usize, cols: usize) -> (out: Tensor2D)
        requires
            old(graph).wf(),
        ensures
            final(graph).wf(),
            out.wf(),
            out.rows == rows,
            out.cols == cols,
            out.row_major(old(graph)@.len() as int),
            out.within(final(graph)),
            extends(old(graph)@, final(graph)@),
            final(graph)@.len() == old(graph)@.len() + rows * cols,
            forall|r: int, c: int|
                0 <= r < rows && 0 <= c < cols ==> {
                    let leaf = final(graph)@[(#[trigger] out.at(r, c)).id as int];
                    leaf.dep is None && is_zero(leaf.val) && is_zero(leaf.grad)
                },
    {
        let recipe: Recipe<'_, V> = Recipe::Zero;
        let out = recipe.fill(graph, rows, cols);
        proof {
            assert forall|r: int, c: int| 0 <= r < rows && 0 <= c < cols implies {
                let leaf = graph@[(#[trigger] out.at(r, c)).id as int];
                leaf.dep is None && is_zero(leaf.val) && is_zero(leaf.grad)
            } by {
                assert(recipe.placed(graph@, old(graph)@.len() as int, cols as int, r, c));
            }
        }
        out
    }

    /// A tensor of new leaves that hold the given values. The tensor has
    /// as many rows as `values` and as many columns as the first row of
    /// `values`; what a longer row holds beyond that is left out.
    pub fn from<V: Number>(graph: &mut Graph<V>, values: Vec<Vec<V>>) -> (out: Tensor2D)
        requires
            old(graph).wf(),
            values@.len() > 0,
            forall|r: int|
                0 <= r < values@.len() ==> (#[trigger] values@[r])@.len() >= values@[0]@.len(),
        ensures
            final(graph).wf(),
            out.wf(),
            out.rows == values@.len(),
            out.cols == values@[0]@.len(),
            out.row_major(old(graph)@.len() as int),
            out.within(final(graph)),
            extends(old(graph)@, final(graph)@),
            final(graph)@.len() == old(graph)@.len() + out.rows * out.cols,
            forall|r: int, c: int|
                0 <= r < out.rows && 0 <= c < out.cols ==> is_leaf(
                    final(graph)@[(#[trigger] out.at(r, c)).id as int],
                    values@[r]@[c],
                ),
    {
        let rows = values.len();
        let cols = values[0].len();
        let recipe = Recipe::Values(&values);
        let out = recipe.fill(graph, rows, cols);
        proof {
            assert forall|r: int, c: int| 0 <= r < rows && 0 <= c < cols implies is_leaf(
                graph@[(#[trigger] out.at(r, c)).id as int],
                values@[r]@[c],
            ) by {
                assert(recipe.placed(graph@, old(graph)@.len() as int, cols as int, r, c));
            }
        }
        out
    }

    /// A tensor of one cell: a new leaf that holds `value`.
    pub fn scalar<V: Number>(graph: &mut Graph<V>, value: V) -> (out: Tensor2D)
        requires
            old(graph).wf(),
        ensures
            final(graph).wf(),
            out.wf(),
            out.rows == 1,
            out.cols == 1,
            out.at(0, 0).id == old(graph)@.len(),
            out.within(final(graph)),
            planted(old(graph)@, value, final(graph)@),
    {
        let node = Scalar::new(graph, value);
        let mut row: Vec<Scalar> = Vec::new();
        row.push(node);
        let mut data: Vec<Vec<Scalar>> = Vec::new();
        data.push(row);
        Tensor2D { rows: 1, cols: 1, data }
    }

    /// A tensor of one row of new leaves that hold the given values.
    pub fn row<V: Number>(graph: &mut Graph<V>, values: Vec<V>) -> (out: Tensor2D)
        requires
            old(graph).wf(),
        ensures
            final(graph).wf(),
            out.wf(),
            out.rows == 1,
            out.cols == values@.len(),
            out.row_major(old(graph)@.len() as int),
            out.within(final(graph)),
            extends(old(graph)@, final(graph)@),
            final(graph)@.len() == old(graph)@.len() + values@.len(),
            forall|c: int|
                0 <= c < out.cols ==> is_leaf(
                    final(graph)@[(#[trigger] out.at(0, c)).id as int],
                    values@[c],
                ),
    {
        let ghost held = values@;
        let mut grid: Vec<Vec<V>> = Vec::new();
        grid.push(values);
        let out = Self::from(graph, grid);
        proof {
            assert(grid@[0]@ == held);
            assert(out.rows * out.cols == held.len()) by (nonlinear_arith)
                requires
                    out.rows == 1,
                    out.cols == held.len(),
            ;
        }
        out
    }

    /// A tensor of one column of new leaves that hold the given values.
    pub fn col<V: Number>(graph: &mut Graph<V>, values: Vec<V>) -> (out: Tensor2D)
        requires
            old(graph).wf(),
        ensures
            final(graph).wf(),
            out.wf(),
            out.rows == values@.len(),
            out.cols == 1,
            out.within(final(graph)),
            extends(old(graph)@, final(graph)@),
            final(graph)@.len() == old(graph)@.len() + values@.len(),
            forall|r: int|
                0 <= r < out.rows ==> {
                    &&& (#[trigger] out.at(r, 0)).id == old(graph)@.len() + r
                    &&& is_leaf(final(graph)@[out.at(r, 0).id as int], values@[r])
                },
    {
        let flat = Self::row(graph, values);
        let out = flat.transpose();
        proof {
            assert forall|r: int| 0 <= r < out.rows implies {
                &&& (#[trigger] out.at(r, 0)).id == old(graph)@.len() + r
                &&& is_leaf(graph@[out.at(r, 0).id as int], values@[r])
            } by {
                assert(out.at(r, 0) == flat.at(0, r));
            }
        }
        out
    }

    /// The same nodes with rows and columns exchanged. No node is added:
    /// what happens to a cell of the result happens to the cell it names.
    pub fn transpose(&self) -> (out: Tensor2D)
        requires
            self.wf(),
        ensures
            self.flips(&out),
    {
        let mut data: Vec<Vec<Scalar>> = Vec::new();
        let mut c: usize = 0;
        while c < self.cols
            invariant
                self.wf(),
                c <= self.cols,
                data@.len() == c,
                forall|j: int| 0 <= j < c ==> (#[trigger] data@[j])@.len() == self.rows,
                forall|i: int, j: int|
                    0 <= i < self.rows && 0 <= j < c ==> #[trigger] data@[j]@[i] == self.at(i, j),
            decreases self.cols - c,
        {
            let mut line: Vec<Scalar> = Vec::new();
            let mut r: usize = 0;
            while r < self.rows
                invariant
                    self.wf(),
                    c < self.cols,
                    r <= self.rows,
                    line@.len() == r,
                    forall|i: int| 0 <= i < r ==> #[trigger] line@[i] == self.at(i, c as int),
                decreases self.rows - r,
            {
                line.push(self.data[r][c]);
                r += 1;
            }
            data.push(line);
            c += 1;
        }
        Tensor2D { rows: self.cols, cols: self.rows, data }
    }

    /// A tensor of new nodes, each the activation of the cell of `tensor`
    /// at the same place.
    pub fn nonlinear<V: Number>(
        tensor: &Self,
        graph: &mut Graph<V>,
        activation: Activation,
    ) -> (out: Tensor2D)
        requires
            old(graph).wf(),
            tensor.wf(),
            tensor.within(old(graph)),
        ensures
            final(graph).wf(),
            tensor.activated(activation, old(graph)@, out, final(graph)@),
    {
        let recipe = Recipe::Activate(tensor, activation);
        let out = recipe.fill(graph, tensor.rows, tensor.cols);
        proof {
            assert forall|r: int, c: int| 0 <= r < out.rows && 0 <= c < out.cols implies {
                &&& graph@[(#[trigger] out.at(r, c)).id as int].dep == Some(
                    Dependency::Single { prev: tensor.at(r, c), activation },
                )
                &&& computed(graph@, out.at(r, c).id as int)
            } by {
                assert(recipe.placed(graph@, old(graph)@.len() as int, out.cols as int, r, c));
            }
        }
        out
    }

    /// A tensor of new nodes, each the operator applied to the cells of
    /// `self` and `rhs` at the same place. The two shapes must be equal:
    /// where they are not, nothing is added and the shapes come back.
    pub fn combine<V: Number>(
        &self,
        graph: &mut Graph<V>,
        rhs: &Tensor2D,
        op: Operation,
    ) -> (result: Result<Tensor2D, ShapeMismatch>)
        requires
            old(graph).wf(),
            self.wf(),
            self.within(old(graph)),
            rhs.wf(),
            rhs.within(old(graph)),
        ensures
            final(graph).wf(),
            result is Ok <==> self.rows == rhs.rows && self.cols == rhs.cols,
            result matches Err(shapes) ==> shapes == self.mismatch(rhs) && final(graph)@
                == old(graph)@,
            result matches Ok(out) ==> self.combined(rhs, op, old(graph)@, out, final(graph)@),
    {
        if self.rows != rhs.rows || self.cols != rhs.cols {
            return Err(
                ShapeMismatch {
                    lhs_rows: self.rows,
                    lhs_cols: self.cols,
                    rhs_rows: rhs.rows,
                    rhs_cols: rhs.cols,
                },
            );
        }
        let recipe = Recipe::Combine(self, rhs, op);
        let out = recipe.fill(graph, self.rows, self.cols);
        proof {
            assert forall|r: int, c: int| 0 <= r < out.rows && 0 <= c < out.cols implies {
                &&& graph@[(#[trigger] out.at(r, c)).id as int].dep == Some(
                    Dependency::Double { lhs: self.at(r, c), rhs: rhs.at(r, c), op },
                )
                &&& computed(graph@, out.at(r, c).id as int)
            } by {
                assert(recipe.placed(graph@, old(graph)@.len() as int, out.cols as int, r, c));
            }
        }
        Ok(out)
    }

    /// The cell by cell sum of `self` and `rhs`, which must have one shape.
    pub fn add<V: Number>(
        &self,
        graph: &mut Graph<V>,
        rhs: &Tensor2D,
    ) -> (result: Result<Tensor2D, ShapeMismatch>)
        requires
            old(graph).wf(),
            self.wf(),
            self.within(old(graph)),
            rhs.wf(),
            rhs.within(old(graph)),
        ensures
            final(graph).wf(),
            result is Ok <==> self.rows == rhs.rows && self.cols == rhs.cols,
            result matches Err(shapes) ==> shapes == self.mismatch(rhs) && final(graph)@
                == old(graph)@,
            result matches Ok(out) ==> self.combined(
                rhs,
                Operation::Add,
                old(graph)@,
                out,
                final(graph)@,
            ),
    {
        self.combine(graph, rhs, Operation::Add)
    }

    /// The cell by cell difference of `self` and `rhs`, which must have one
    /// shape.
    pub fn sub<V: Number>(
        &self,
        graph: &mut Graph<V>,
        rhs: &Tensor2D,
    ) -> (result: Result<Tensor2D, ShapeMismatch>)
        requires
            old(graph).wf(),
            self.wf(),
            self.within(old(graph)),
            rhs.wf(),
            rhs.within(old(graph)),
        ensures
            final(graph).wf(),
            result is Ok <==> self.rows == rhs.rows && self.cols == rhs.cols,
            result matches Err(shapes) ==> shapes == self.mismatch(rhs) && final(graph)@
                == old(graph)@,
            result matches Ok(out) ==> self.combined(
                rhs,
                Operation::Sub,
                old(graph)@,
                out,
                final(graph)@,
            ),
    {
        self.combine(graph, rhs, Operation::Sub)
    }

    /// The hyperbolic tangent of every cell.
    pub fn tanh<V: Number>(&self, graph: &mut Graph<V>) -> (out: Tensor2D)
        requires
            old(graph).wf(),
            self.wf(),
            self.within(old(graph)),
        ensures
            final(graph).wf(),
            self.activated(Activation::Tanh, old(graph)@, out, final(graph)@),
    {
        Self::nonlinear(self, graph, Activation::Tanh)
    }

    /// The logistic function of every cell.
    pub fn sigmoid<V: Number>(&self, graph: &mut Graph<V>) -> (out: Tensor2D)
        requires
            old(graph).wf(),
            self.wf(),
            self.within(old(graph)),
        ensures
            final(graph).wf(),
            self.activated(Activation::Sigmoid, old(graph)@, out, final(graph)@),
    {
        Self::nonlinear(self, graph, Activation::Sigmoid)
    }

    /// Every cell where it is positive, zero elsewhere.
    pub fn relu<V: Number>(&self, graph: &mut Graph<V>) -> (out: Tensor2D)
        requires
            old(graph).wf(),
            self.wf(),
            self.within(old(graph)),
        ensures
            final(graph).wf(),
            self.activated(Activation::ReLU, old(graph)@, out, final(graph)@),
    {
        Self::nonlinear(self, graph, Activation::ReLU)
    }

    /// `e` raised to every cell.
    pub fn exp<V: Number>(&self, graph: &mut Graph<V>) -> (out: Tensor2D)
        requires
            old(graph).wf(),
            self.wf(),
            self.within(old(graph)),
        ensures
            final(graph).wf(),
            self.activated(Activation::Exp, old(graph)@, out, final(graph)@),
    {
        Self::nonlinear(self, graph, Activation::Exp)
    }
}

} // verus!
