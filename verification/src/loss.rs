//! The squared-error loss.

use crate::grad::{
    computed, extends, joins, lemma_computed_extends, lemma_extends_twice, planted, Data, Graph,
    Scalar,
};
use crate::number::{is_zero, Number};
use crate::ops::{op, Operation};
use crate::tensor::{lemma_below_grows, Tensor2D};
use vstd::prelude::*;

verus! {

/// The position of the node to which the `k`-th term of a tally is added:
/// `acc` for the first term, else the sum before, in a graph that had
/// `start` nodes when the tally began.
pub open spec fn tally_at(acc: Scalar, start: int, k: int) -> int {
    if k == 0 {
        acc.id as int
    } else {
        start + k - 1
    }
}

/// `out` is `acc` plus each of `terms` in turn, on top of `before`: one
/// new sum for each term, and `acc` itself where there is no term.
pub open spec fn tallied<V: Number>(
    before: Seq<Data<V>>,
    acc: Scalar,
    terms: Seq<Scalar>,
    out: Scalar,
    after: Seq<Data<V>>,
) -> bool {
    &&& extends(before, after)
    &&& after.len() == before.len() + terms.len()
    &&& out.id == tally_at(acc, before.len() as int, terms.len() as int)
    &&& forall|k: int|
        0 <= k < terms.len() ==> {
            &&& joins(
                after[before.len() + k].dep,
                tally_at(acc, before.len() as int, k),
                (#[trigger] terms[k]).id as int,
                Operation::Add,
            )
            &&& computed(after, before.len() + k)
        }
}

/// `out` is `acc` plus the squared error of `pred` against `target`, on top
/// of `before`: the difference of the two, cell by cell, then its second
/// power, then the tally of the squares, row by row.
pub open spec fn scored<V: Number>(
    pred: &Tensor2D,
    target: &Tensor2D,
    before: Seq<Data<V>>,
    acc: Scalar,
    out: Scalar,
    after: Seq<Data<V>>,
) -> bool {
    exists|error: Tensor2D, squares: Tensor2D, first: Seq<Data<V>>, second: Seq<Data<V>>|
        #![trigger pred.combined(target, Operation::Sub, before, error, first), error.raised(2, first, squares, second)]
        pred.combined(target, Operation::Sub, before, error, first) && error.raised(
            2,
            first,
            squares,
            second,
        ) && tallied(second, acc, squares.cells(), out, after)
}

/// `loss` is the sum of the squared errors of `preds` against `reals`,
/// pair by pair, on top of `before`. The sum starts from a new leaf with
/// value zero, which is the loss where there is no pair.
pub open spec fn is_mse<V: Number>(
    preds: Seq<Tensor2D>,
    reals: Seq<Tensor2D>,
    before: Seq<Data<V>>,
    loss: Scalar,
    after: Seq<Data<V>>,
) -> bool
    decreases preds.len(),
{
    if preds.len() == 0 {
        loss.id == before.len() && exists|zero: V|
            is_zero(zero) && #[trigger] planted(before, zero, after)
    } else {
        exists|mid: Seq<Data<V>>, acc: Scalar|
            is_mse(preds.drop_last(), reals.drop_last(), before, acc, mid) && #[trigger] scored(
                &preds.last(),
                &reals.last(),
                mid,
                acc,
                loss,
                after,
            )
    }
}

/// `acc` plus each of `terms` in turn.
pub fn tally<V: Number>(graph: &mut Graph<V>, acc: Scalar, terms: &Vec<Scalar>) -> (out: Scalar)
    requires
        old(graph).wf(),
        old(graph).contains(acc),
        forall|k: int| 0 <= k < terms@.len() ==> old(graph).contains(#[trigger] terms@[k]),
    ensures
        final(graph).wf(),
        final(graph).contains(out),
        tallied(old(graph)@, acc, terms@, out, final(graph)@),
{
    let ghost start = graph@.len() as int;
    let mut out = acc;
    let mut k: usize = 0;
    while k < terms.len()
        invariant
            k <= terms.len(),
            graph.wf(),
            graph.contains(out),
            start == old(graph)@.len(),
            acc.id < start,
            forall|i: int| 0 <= i < terms@.len() ==> (#[trigger] terms@[i]).id < start,
            extends(old(graph)@, graph@),
            graph@.len() == start + k,
            out.id == tally_at(acc, start, k as int),
            forall|i: int|
                0 <= i < k ==> {
                    &&& joins(
                        graph@[start + i].dep,
                        tally_at(acc, start, i),
                        (#[trigger] terms@[i]).id as int,
                        Operation::Add,
                    )
                    &&& computed(graph@, start + i)
                },
        decreases terms.len() - k,
    {
        let ghost mid = graph@;
        out = op(graph, out, terms[k], Operation::Add);
        proof {
            lemma_extends_twice(old(graph)@, mid, graph@);
            assert forall|i: int| 0 <= i < k + 1 implies {
                &&& joins(
                    graph@[start + i].dep,
                    tally_at(acc, start, i),
                    (#[trigger] terms@[i]).id as int,
                    Operation::Add,
                )
                &&& computed(graph@, start + i)
            } by {
                if i < k {
                    assert(terms@[i].id < start);
                    assert(graph@[start + i] == mid[start + i]);
                    lemma_computed_extends(mid, graph@, start + i);
                }
            }
        }
        k += 1;
    }
    out
}

/// The sum of the squared errors of the predictions against the real
/// values, over all cells of all pairs.
pub fn mse<V: Number>(
    graph: &mut Graph<V>,
    y_pred: &Vec<Tensor2D>,
    y_real: &Vec<Tensor2D>,
) -> (loss: Scalar)
    requires
        old(graph).wf(),
        y_pred@.len() == y_real@.len(),
        forall|k: int|
            0 <= k < y_pred@.len() ==> {
                &&& (#[trigger] y_pred@[k]).wf()
                &&& y_pred@[k].within(old(graph))
                &&& y_pred@[k].rows == y_real@[k].rows
                &&& y_pred@[k].cols == y_real@[k].cols
            },
        forall|k: int|
            0 <= k < y_real@.len() ==> (#[trigger] y_real@[k]).wf() && y_real@[k].within(
                old(graph),
            ),
    ensures
        final(graph).wf(),
        final(graph).contains(loss),
        extends(old(graph)@, final(graph)@),
        is_mse(y_pred@, y_real@, old(graph)@, loss, final(graph)@),
{
    let ghost start = graph@.len() as int;
    let zero = V::zero();
    let mut loss = Scalar::new(graph, zero);
    assert(planted(old(graph)@, zero, graph@));
    assert(y_pred@.take(0).len() == 0);
    let mut k: usize = 0;
    while k < y_pred.len()
        invariant
            k <= y_pred@.len(),
            y_pred@.len() == y_real@.len(),
            graph.wf(),
            graph.contains(loss),
            start == old(graph)@.len(),
            extends(old(graph)@, graph@),
            forall|i: int|
                0 <= i < y_pred@.len() ==> {
                    &&& (#[trigger] y_pred@[i]).wf()
                    &&& y_pred@[i].below(start)
                    &&& y_pred@[i].rows == y_real@[i].rows
                    &&& y_pred@[i].cols == y_real@[i].cols
                },
            forall|i: int| 0 <= i < y_real@.len() ==> (#[trigger] y_real@[i]).wf() && y_real@[i].below(
                start,
            ),
            is_mse(y_pred@.take(k as int), y_real@.take(k as int), old(graph)@, loss, graph@),
        decreases y_pred@.len() - k,
    {
        let ghost mid = graph@;
        let ghost acc = loss;
        let pred = &y_pred[k];
        let target = &y_real[k];
        proof {
            assert(y_pred@[k as int].below(start));
            assert(y_real@[k as int].below(start));
            lemma_below_grows(pred, start, mid.len() as int);
            lemma_below_grows(target, start, mid.len() as int);
        }
        let error = match pred.sub(graph, target) {
            Ok(error) => error,
            Err(_) => vstd::pervasive::unreached(),
        };
        let ghost first = graph@;
        let squares = error.pow(graph, 2);
        let ghost second = graph@;
        let terms = squares.roots();
        proof {
            lemma_extends_twice(mid, first, second);
            assert forall|i: int| 0 <= i < terms@.len() implies graph.contains(
                #[trigger] terms@[i],
            ) by {
                assert(squares.names(terms@[i]));
            }
        }
        loss = tally(graph, loss, &terms);
        proof {
            lemma_extends_twice(mid, second, graph@);
            lemma_extends_twice(old(graph)@, mid, graph@);
            let preds = y_pred@.take(k as int + 1);
            let reals = y_real@.take(k as int + 1);
            assert(preds.drop_last() == y_pred@.take(k as int));
            assert(reals.drop_last() == y_real@.take(k as int));
            assert(preds.last() == y_pred@[k as int]);
            assert(reals.last() == y_real@[k as int]);
            assert(pred.combined(target, Operation::Sub, mid, error, first) && error.raised(
                2,
                first,
                squares,
                second,
            ));
            assert(scored(&preds.last(), &reals.last(), mid, acc, loss, graph@));
        }
        k += 1;
    }
    proof {
        assert(y_pred@.take(y_pred@.len() as int) == y_pred@);
        assert(y_real@.take(y_real@.len() as int) == y_real@);
    }
    loss
}

} // verus!
