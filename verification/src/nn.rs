//! Neurons, layers and a multi-layer perceptron over tensors.

use crate::grad::{
    backpropagated, extends, lemma_extends_twice, propagated, same_nodes, swept, Activation, Data,
    Graph, Scalar,
};
use crate::number::Number;
use crate::ops::Operation;
use crate::order::sequence;
use crate::tensor::{lemma_below_grows, Tensor2D};
use vstd::prelude::*;

verus! {

/// One neuron: a row of weights, a bias and an activation.
pub struct Neuron {
    pub weights: Tensor2D,
    pub bias: Tensor2D,
    pub activation: Activation,
}

/// A layer: neurons that all read one input.
pub struct Layer {
    pub neurons: Vec<Neuron>,
}

/// A multi-layer perceptron: layers that each read what the layer before
/// gives. It remembers the order of its first backward pass.
pub struct MLP {
    pub layers: Vec<Layer>,
    pub topological: Option<Vec<Scalar>>,
}

impl Neuron {
    /// The invariant of a neuron: one row of weights and one bias.
    pub open spec fn wf(&self) -> bool {
        &&& self.weights.wf()
        &&& self.weights.rows == 1
        &&& self.bias.wf()
        &&& self.bias.rows == 1
        &&& self.bias.cols == 1
    }

    /// The neuron's parameters are nodes of a graph of `len` nodes.
    pub open spec fn below(&self, len: int) -> bool {
        self.weights.below(len) && self.bias.below(len)
    }

    /// The neuron can read `input`: one row of as many cells as there are
    /// weights.
    pub open spec fn fits(&self, input: &Tensor2D) -> bool {
        input.rows == 1 && input.cols == self.weights.cols
    }

    /// `out` is what the neuron gives for `input` on top of `before`: the
    /// product of `input` and the weights, transposed, then the sum of
    /// that and the bias, then the activation of that sum, the three built
    /// in this order.
    pub open spec fn forwarded<V: Number>(
        &self,
        input: &Tensor2D,
        before: Seq<Data<V>>,
        out: Tensor2D,
        after: Seq<Data<V>>,
    ) -> bool {
        exists|
            flipped: Tensor2D,
            product: Tensor2D,
            sum: Tensor2D,
            first: Seq<Data<V>>,
            second: Seq<Data<V>>,
        |
            #![trigger input.multiplied(&flipped, before, product, first), product.combined(&self.bias, Operation::Add, first, sum, second)]
            self.weights.flips(&flipped) && input.multiplied(&flipped, before, product, first)
                && product.combined(&self.bias, Operation::Add, first, sum, second)
                && sum.activated(self.activation, second, out, after)
    }

    /// What a neuron gives is one cell, on top of a graph that it left as
    /// it was.
    pub proof fn lemma_forwarded<V: Number>(
        &self,
        input: &Tensor2D,
        before: Seq<Data<V>>,
        out: Tensor2D,
        after: Seq<Data<V>>,
    )
        requires
            self.wf(),
            self.fits(input),
            self.forwarded(input, before, out, after),
        ensures
            out.wf(),
            out.rows == 1,
            out.cols == 1,
            out.below(after.len() as int),
            extends(before, after),
    {
        let (flipped, product, sum, first, second) = choose|
            flipped: Tensor2D,
            product: Tensor2D,
            sum: Tensor2D,
            first: Seq<Data<V>>,
            second: Seq<Data<V>>,
        |
            #![trigger input.multiplied(&flipped, before, product, first), product.combined(&self.bias, Operation::Add, first, sum, second)]
            self.weights.flips(&flipped) && input.multiplied(&flipped, before, product, first)
                && product.combined(&self.bias, Operation::Add, first, sum, second)
                && sum.activated(self.activation, second, out, after);
        lemma_extends_twice(before, first, second);
        lemma_extends_twice(before, second, after);
    }

    /// A neuron of the given parts.
    pub fn new(weights: Tensor2D, bias: Tensor2D, activation: Activation) -> (neuron: Neuron)
        ensures
            neuron.weights == weights,
            neuron.bias == bias,
            neuron.activation == activation,
    {
        Neuron { weights, bias, activation }
    }

    /// The activation of the weighted sum of `input` plus the bias, as a
    /// tensor of one cell.
    pub fn forward<V: Number>(&self, graph: &mut Graph<V>, input: &Tensor2D) -> (out: Tensor2D)
        requires
            old(graph).wf(),
            self.wf(),
            self.below(old(graph)@.len() as int),
            input.wf(),
            input.within(old(graph)),
            self.fits(input),
        ensures
            final(graph).wf(),
            self.forwarded(input, old(graph)@, out, final(graph)@),
    {
        let flipped = self.weights.transpose();
        proof {
            assert forall|r: int, c: int|
                0 <= r < flipped.rows && 0 <= c < flipped.cols implies (#[trigger] flipped.at(
                r,
                c,
            )).id < graph@.len() by {
                assert(flipped.at(r, c) == self.weights.at(c, r));
            }
        }
        let product = match input.mul(graph, &flipped) {
            Ok(product) => product,
            Err(_) => vstd::pervasive::unreached(),
        };
        let ghost first = graph@;
        proof {
            lemma_below_grows(&self.bias, old(graph)@.len() as int, first.len() as int);
        }
        let sum = match product.add(graph, &self.bias) {
            Ok(sum) => sum,
            Err(_) => vstd::pervasive::unreached(),
        };
        let ghost second = graph@;
        let out = Tensor2D::nonlinear(&sum, graph, self.activation);
        assert(input.multiplied(&flipped, old(graph)@, product, first) && product.combined(
            &self.bias,
            Operation::Add,
            first,
            sum,
            second,
        ));
        out
    }

    /// The names of the parameters: the weights, then the bias.
    pub fn params(&self) -> (params: Vec<Scalar>)
        requires
            self.weights.wf(),
            self.bias.wf(),
        ensures
            params@ == self.weights.cells() + self.bias.cells(),
    {
        let mut params = self.weights.roots();
        let mut bias = self.bias.roots();
        params.append(&mut bias);
        params
    }
}

/// `cells` are what `neurons` give for `input` one after the other on top
/// of `before`, the first neuron first: one cell for each neuron.
pub open spec fn passed<V: Number>(
    neurons: Seq<Neuron>,
    input: &Tensor2D,
    before: Seq<Data<V>>,
    cells: Seq<Scalar>,
    after: Seq<Data<V>>,
) -> bool
    decreases neurons.len(),
{
    if neurons.len() == 0 {
        cells.len() == 0 && after == before
    } else {
        &&& cells.len() == neurons.len()
        &&& exists|mid: Seq<Data<V>>, out: Tensor2D|
            passed(neurons.drop_last(), input, before, cells.drop_last(), mid)
                && #[trigger] neurons.last().forwarded(input, mid, out, after) && out.at(0, 0)
                == cells.last()
    }
}

/// The parameters of `neurons`, neuron after neuron.
pub open spec fn neuron_params(neurons: Seq<Neuron>) -> Seq<Scalar>
    decreases neurons.len(),
{
    if neurons.len() == 0 {
        Seq::empty()
    } else {
        neuron_params(neurons.drop_last()) + (neurons.last().weights.cells()
            + neurons.last().bias.cells())
    }
}

/// The parameters of `layers`, layer after layer.
pub open spec fn layer_params(layers: Seq<Layer>) -> Seq<Scalar>
    decreases layers.len(),
{
    if layers.len() == 0 {
        Seq::empty()
    } else {
        layer_params(layers.drop_last()) + neuron_params(layers.last().neurons@)
    }
}

impl Layer {
    /// The invariant of a layer: that of each of its neurons.
    pub open spec fn wf(&self) -> bool {
        forall|k: int| 0 <= k < self.neurons@.len() ==> (#[trigger] self.neurons@[k]).wf()
    }

    /// The layer's parameters are nodes of a graph of `len` nodes.
    pub open spec fn below(&self, len: int) -> bool {
        forall|k: int| 0 <= k < self.neurons@.len() ==> (#[trigger] self.neurons@[k]).below(len)
    }

    /// Every neuron of the layer can read `input`.
    pub open spec fn fits(&self, input: &Tensor2D) -> bool {
        forall|k: int| 0 <= k < self.neurons@.len() ==> (#[trigger] self.neurons@[k]).fits(input)
    }

    /// `out` is what the layer gives for `input` on top of `before`: one
    /// row with one cell for each neuron, which names what that neuron
    /// gives, the neurons taken in turn.
    pub open spec fn forwarded<V: Number>(
        &self,
        input: &Tensor2D,
        before: Seq<Data<V>>,
        out: Tensor2D,
        after: Seq<Data<V>>,
    ) -> bool {
        &&& out.wf()
        &&& out.rows == 1
        &&& out.cols == self.neurons@.len()
        &&& out.below(after.len() as int)
        &&& extends(before, after)
        &&& passed(self.neurons@, input, before, out.data@[0]@, after)
    }

    /// A layer of the given neurons.
    pub fn new(neurons: Vec<Neuron>) -> (layer: Layer)
        ensures
            layer.neurons == neurons,
    {
        Layer { neurons }
    }

    /// One row that holds, for each neuron in turn, what it gives for
    /// `input`.
    pub fn forward<V: Number>(&self, graph: &mut Graph<V>, input: &Tensor2D) -> (out: Tensor2D)
        requires
            old(graph).wf(),
            self.wf(),
            self.below(old(graph)@.len() as int),
            input.wf(),
            input.within(old(graph)),
            self.fits(input),
        ensures
            final(graph).wf(),
            self.forwarded(input, old(graph)@, out, final(graph)@),
    {
        let ghost start = graph@.len() as int;
        let mut row: Vec<Scalar> = Vec::new();
        let mut k: usize = 0;
        while k < self.neurons.len()
            invariant
                k <= self.neurons@.len(),
                graph.wf(),
                self.wf(),
                self.below(start),
                input.wf(),
                input.below(start),
                self.fits(input),
                start == old(graph)@.len(),
                extends(old(graph)@, graph@),
                row@.len() == k,
                forall|i: int| 0 <= i < k ==> (#[trigger] row@[i]).id < graph@.len(),
                passed(self.neurons@.take(k as int), input, old(graph)@, row@, graph@),
            decreases self.neurons@.len() - k,
        {
            let ghost mid = graph@;
            let ghost held = row@;
            let neuron = &self.neurons[k];
            proof {
                assert(self.neurons@[k as int].below(start));
                lemma_below_grows(&neuron.weights, start, mid.len() as int);
                lemma_below_grows(&neuron.bias, start, mid.len() as int);
                lemma_below_grows(input, start, mid.len() as int);
            }
            let out = neuron.forward(graph, input);
            proof {
                neuron.lemma_forwarded(input, mid, out, graph@);
                lemma_extends_twice(old(graph)@, mid, graph@);
                assert(out.at(0, 0).id < graph@.len());
            }
            row.push(out.data[0][0]);
            proof {
                let done = self.neurons@.take(k as int + 1);
                assert(done.drop_last() == self.neurons@.take(k as int));
                assert(done.last() == self.neurons@[k as int]);
                assert(row@.drop_last() == held);
                assert(done.last().forwarded(input, mid, out, graph@));
            }
            k += 1;
        }
        assert(self.neurons@.take(self.neurons@.len() as int) == self.neurons@);
        let cols = row.len();
        let mut data: Vec<Vec<Scalar>> = Vec::new();
        data.push(row);
        Tensor2D { rows: 1, cols, data }
    }

    /// The names of the parameters, neuron after neuron.
    pub fn params(&self) -> (params: Vec<Scalar>)
        requires
            forall|k: int|
                0 <= k < self.neurons@.len() ==> (#[trigger] self.neurons@[k]).weights.wf()
                    && self.neurons@[k].bias.wf(),
        ensures
            params@ == neuron_params(self.neurons@),
    {
        let mut params: Vec<Scalar> = Vec::new();
        let mut k: usize = 0;
        while k < self.neurons.len()
            invariant
                k <= self.neurons@.len(),
                forall|i: int|
                    0 <= i < self.neurons@.len() ==> (#[trigger] self.neurons@[i]).weights.wf()
                        && self.neurons@[i].bias.wf(),
                params@ == neuron_params(self.neurons@.take(k as int)),
            decreases self.neurons@.len() - k,
        {
            let mut more = self.neurons[k].params();
            proof {
                let done = self.neurons@.take(k as int + 1);
                assert(done.drop_last() == self.neurons@.take(k as int));
                assert(done.last() == self.neurons@[k as int]);
            }
            params.append(&mut more);
            k += 1;
        }
        assert(self.neurons@.take(self.neurons@.len() as int) == self.neurons@);
        params
    }
}

/// `out` names the cells of `input`, in the same shape.
pub open spec fn same_cells(input: &Tensor2D, out: &Tensor2D) -> bool {
    &&& out.wf()
    &&& out.rows == input.rows
    &&& out.cols == input.cols
    &&& forall|r: int, c: int|
        0 <= r < input.rows && 0 <= c < input.cols ==> #[trigger] out.at(r, c) == input.at(r, c)
}

/// `out` is what `layers` give for `input` on top of `before`, each layer
/// reading what the layer before it gives and the first one `input`. With
/// no layer, `out` names the cells of `input`.
pub open spec fn relayed<V: Number>(
    layers: Seq<Layer>,
    input: &Tensor2D,
    before: Seq<Data<V>>,
    out: Tensor2D,
    after: Seq<Data<V>>,
) -> bool
    decreases layers.len(),
{
    if layers.len() == 0 {
        same_cells(input, &out) && after == before
    } else {
        exists|mid: Seq<Data<V>>, between: Tensor2D|
            relayed(layers.drop_last(), input, before, between, mid)
                && #[trigger] layers.last().forwarded(&between, mid, out, after)
    }
}

impl MLP {
    /// The order that the first backward pass left, if there was one.
    pub open spec fn order(&self) -> Option<Seq<Scalar>> {
        match self.topological {
            Some(order) => Some(order@),
            None => None,
        }
    }

    /// The number of cells that layer `k` reads, for an input of `width`
    /// cells: the number of neurons of the layer before, or `width` for
    /// the first layer.
    pub open spec fn width(&self, k: int, width: int) -> int {
        if k == 0 {
            width
        } else {
            self.layers@[k - 1].neurons@.len() as int
        }
    }

    /// The layers are well formed, and each can read what the one before
    /// gives, the first one `input`.
    pub open spec fn fits(&self, input: &Tensor2D) -> bool {
        &&& input.rows == 1
        &&& forall|k: int|
            0 <= k < self.layers@.len() ==> {
                &&& (#[trigger] self.layers@[k]).wf()
                &&& forall|n: int|
                    0 <= n < self.layers@[k].neurons@.len() ==> (
                    #[trigger] self.layers@[k].neurons@[n]).weights.cols == self.width(
                        k,
                        input.cols as int,
                    )
            }
    }

    /// The parameters are nodes of a graph of `len` nodes.
    pub open spec fn below(&self, len: int) -> bool {
        forall|k: int| 0 <= k < self.layers@.len() ==> (#[trigger] self.layers@[k]).below(len)
    }

    /// A perceptron of the given layers, with no backward pass behind it.
    pub fn new(layers: Vec<Layer>) -> (mlp: MLP)
        ensures
            mlp.layers == layers,
            mlp.order() is None,
    {
        MLP { layers, topological: None }
    }

    /// What the last layer gives when the first reads `input` and each
    /// other layer what the one before it gives.
    pub fn forward<V: Number>(&self, graph: &mut Graph<V>, input: &Tensor2D) -> (out: Tensor2D)
        requires
            old(graph).wf(),
            self.below(old(graph)@.len() as int),
            input.wf(),
            input.within(old(graph)),
            self.fits(input),
        ensures
            final(graph).wf(),
            out.wf(),
            out.within(final(graph)),
            extends(old(graph)@, final(graph)@),
            relayed(self.layers@, input, old(graph)@, out, final(graph)@),
    {
        let ghost start = graph@.len() as int;
        let mut output = input.copy();
        proof {
            assert forall|r: int, c: int|
                0 <= r < output.rows && 0 <= c < output.cols implies (#[trigger] output.at(
                r,
                c,
            )).id < graph@.len() by {
                assert(output.at(r, c) == input.at(r, c));
            }
        }
        let mut k: usize = 0;
        while k < self.layers.len()
            invariant
                k <= self.layers@.len(),
                graph.wf(),
                self.below(start),
                self.fits(input),
                start == old(graph)@.len(),
                extends(old(graph)@, graph@),
                output.wf(),
                output.within(graph),
                output.rows == 1,
                output.cols == self.width(k as int, input.cols as int),
                relayed(self.layers@.take(k as int), input, old(graph)@, output, graph@),
            decreases self.layers@.len() - k,
        {
            let ghost mid = graph@;
            let ghost between = output;
            let layer = &self.layers[k];
            proof {
                assert(self.layers@[k as int].wf());
                assert(self.layers@[k as int].below(start));
                assert forall|n: int| 0 <= n < layer.neurons@.len() implies (
                #[trigger] layer.neurons@[n]).below(mid.len() as int) by {
                    lemma_below_grows(&layer.neurons@[n].weights, start, mid.len() as int);
                    lemma_below_grows(&layer.neurons@[n].bias, start, mid.len() as int);
                }
                assert forall|n: int| 0 <= n < layer.neurons@.len() implies (
                #[trigger] layer.neurons@[n]).fits(&output) by {
                    assert(self.layers@[k as int].neurons@[n].weights.cols == self.width(
                        k as int,
                        input.cols as int,
                    ));
                }
            }
            output = layer.forward(graph, &output);
            proof {
                lemma_extends_twice(old(graph)@, mid, graph@);
                let done = self.layers@.take(k as int + 1);
                assert(done.drop_last() == self.layers@.take(k as int));
                assert(done.last() == self.layers@[k as int]);
                assert(done.last().forwarded(&between, mid, output, graph@));
            }
            k += 1;
        }
        assert(self.layers@.take(self.layers@.len() as int) == self.layers@);
        output
    }

    /// The names of the parameters, layer after layer.
    pub fn params(&self) -> (params: Vec<Scalar>)
        requires
            forall|k: int, n: int|
                0 <= k < self.layers@.len() && 0 <= n < self.layers@[k].neurons@.len() ==> (
                #[trigger] self.layers@[k].neurons@[n]).weights.wf()
                    && self.layers@[k].neurons@[n].bias.wf(),
        ensures
            params@ == layer_params(self.layers@),
    {
        let mut params: Vec<Scalar> = Vec::new();
        let mut k: usize = 0;
        while k < self.layers.len()
            invariant
                k <= self.layers@.len(),
                forall|i: int, n: int|
                    0 <= i < self.layers@.len() && 0 <= n < self.layers@[i].neurons@.len() ==> (
                    #[trigger] self.layers@[i].neurons@[n]).weights.wf()
                        && self.layers@[i].neurons@[n].bias.wf(),
                params@ == layer_params(self.layers@.take(k as int)),
            decreases self.layers@.len() - k,
        {
            let mut more = self.layers[k].params();
            proof {
                let done = self.layers@.take(k as int + 1);
                assert(done.drop_last() == self.layers@.take(k as int));
                assert(done.last() == self.layers@[k as int]);
            }
            params.append(&mut more);
            k += 1;
        }
        assert(self.layers@.take(self.layers@.len() as int) == self.layers@);
        params
    }

    /// The first call runs a backward pass from `loss` and remembers the
    /// order in which it met the nodes. Every later call lets the nodes of
    /// that order hand their gradients down once more, in that order,
    /// without a new seed.
    pub fn backward<V: Number>(&mut self, graph: &mut Graph<V>, loss: &Scalar)
        requires
            old(graph).wf(),
            old(graph).contains(*loss),
            old(self).order() matches Some(order) ==> forall|k: int|
                0 <= k < order.len() ==> (#[trigger] order[k]).id < old(graph)@.len(),
        ensures
            final(graph).wf(),
            same_nodes(old(graph)@, final(graph)@),
            final(self).layers == old(self).layers,
            old(self).order() is None ==> final(self).order() == Some(
                sequence(old(graph)@, *loss).reverse(),
            ) && backpropagated(old(graph)@, *loss, final(graph)@),
            old(self).order() matches Some(order) ==> final(self).order() == Some(order)
                && swept(old(graph)@, order, final(graph)@),
    {
        if self.topological.is_some() {
            let order = self.topological.as_ref().unwrap();
            assert(old(self).order() == Some(order@));
            assert forall|i: int| 0 <= i < order@.len() implies (#[trigger] order@[i]).id
                < graph@.len() by {
                let held = old(self).order()->0;
                assert(held[i].id < old(graph)@.len());
            }
            let mut k: usize = 0;
            while k < order.len()
                invariant
                    k <= order.len(),
                    graph.wf(),
                    same_nodes(old(graph)@, graph@),
                    forall|i: int| 0 <= i < order@.len() ==> (#[trigger] order@[i]).id < graph@.len(),
                    swept(old(graph)@, order@.take(k as int), graph@),
                decreases order.len() - k,
            {
                let ghost mid = graph@;
                Data::backward(graph, order[k]);
                proof {
                    let done = order@.take(k as int + 1);
                    assert(done.drop_last() == order@.take(k as int));
                    assert(done.last() == order@[k as int]);
                    assert(propagated(mid, done.last(), graph@));
                }
                k += 1;
            }
            assert(order@.take(order.len() as int) == order@);
        } else {
            self.topological = Some(loss.backward(graph));
        }
    }
}

} // verus!
