//! The network model: a stack of fully connected layers.
//!
//! The input stage is not materialized: a network of shape
//! `[s0, s1, ..., sL]` holds `L` layers, where layer `i` has `s(i+1)`
//! neurons, each with `s(i)` incoming weights, one per neuron of the
//! previous stage (position is significant). The shape invariant is
//! [`Network::wf`]; the mathematical model of the parameters is
//! [`Network::model`], and the forward pass is pinned to [`spec_pulse`].

use vstd::prelude::*;

use crate::neur::parse_neur_file;
use crate::neur::spec_parse_neur;
use crate::neur::spec_render_neur;
use crate::neur::write_neur_file;
use crate::neur::NeurError;
use crate::neur::spec_layers_view;
use crate::neur::spec_rows_view;
use crate::scalar::copy_scalars;
use crate::scalar::ScalarOps;
use crate::scalar::ScalarSampler;

verus! {

/// The mathematical value of one layer: its weight rows and its biases.
pub type LayerModel = (Seq<Seq<u64>>, Seq<u64>);

/// The mathematical value of a network's parameters, layer by layer.
pub type Model = Seq<LayerModel>;

/// One stage of neurons: `weights[n][j]` is the weight of the connection
/// from neuron `j` of the previous stage to neuron `n` of this one, and
/// `biases[n]` is neuron `n`'s bias.
pub struct Layer {
    pub weights: Vec<Vec<u64>>,
    pub biases: Vec<u64>,
}

/// A feed-forward network: its shape and its layers, together with the
/// parameter ranges it was constructed with (training re-randomizes from
/// these same ranges when it meets a non-finite cost).
pub struct Network {
    pub shape: Vec<usize>,
    pub layers: Vec<Layer>,
    pub weights_range: (u64, u64),
    pub biases_range: (u64, u64),
}

/// The left fold that sums the first `k` weighted inputs:
/// `0, then sum + input[j] * w[j]` for `j` rising.
pub open spec fn spec_weighted_sum<O: ScalarOps>(input: Seq<u64>, w: Seq<u64>, k: int) -> u64
    decreases k,
{
    if k <= 0 {
        O::spec_of_count(0)
    } else {
        O::spec_add(
            spec_weighted_sum::<O>(input, w, k - 1),
            O::spec_mul(input[k - 1], w[k - 1]),
        )
    }
}

/// One layer's output: per neuron, the activation of its weighted input
/// sum plus its bias. The sum runs over every supplied input position.
pub open spec fn spec_layer_pulse<O: ScalarOps>(lm: LayerModel, input: Seq<u64>) -> Seq<u64> {
    Seq::new(
        lm.1.len(),
        |n: int|
            O::spec_activation(
                O::spec_add(spec_weighted_sum::<O>(input, lm.0[n], input.len() as int), lm.1[n]),
            ),
    )
}

/// The model after overwriting one weight: in layer `l`, the weight of
/// connection `w` into neuron `n` becomes `v`.
pub open spec fn model_set_weight(m: Model, l: int, n: int, w: int, v: u64) -> Model {
    m.update(l, (m[l].0.update(n, m[l].0[n].update(w, v)), m[l].1))
}

/// The model after overwriting one bias: in layer `l`, the bias of neuron
/// `n` becomes `v`.
pub open spec fn model_set_bias(m: Model, l: int, n: int, v: u64) -> Model {
    m.update(l, (m[l].0, m[l].1.update(n, v)))
}

/// The forward pass: each layer's output becomes the next layer's input.
pub open spec fn spec_pulse<O: ScalarOps>(m: Model, input: Seq<u64>) -> Seq<u64>
    decreases m.len(),
{
    if m.len() == 0 {
        input
    } else {
        spec_pulse::<O>(m.drop_first(), spec_layer_pulse::<O>(m[0], input))
    }
}

impl Layer {
    /// The weight rows, as a sequence of sequences.
    pub open spec fn ws(&self) -> Seq<Seq<u64>> {
        Seq::new(self.weights@.len(), |n: int| self.weights@[n]@)
    }

    /// The biases, as a sequence.
    pub open spec fn bs(&self) -> Seq<u64> {
        self.biases@
    }

    /// The layer's mathematical value.
    pub open spec fn model(&self) -> LayerModel {
        (self.ws(), self.bs())
    }

    /// Well-formedness against the two adjacent widths of the shape:
    /// `size` neurons, each with exactly `prev` incoming weights.
    pub open spec fn wf(&self, size: nat, prev: nat) -> bool {
        &&& self.bs().len() == size
        &&& self.ws().len() == size
        &&& forall|n: int| 0 <= n < size ==> (#[trigger] self.ws()[n]).len() == prev
    }

    /// Builds a layer with every weight set to the scalar for one and
    /// every bias set to the scalar for zero.
    pub fn new<O: ScalarOps>(layer_size: usize, prev_layer_size: usize) -> (r: Layer)
        ensures
            r.wf(layer_size as nat, prev_layer_size as nat),
            r.bs() == Seq::new(layer_size as nat, |n: int| O::spec_of_count(0)),
            r.ws() == Seq::new(
                layer_size as nat,
                |n: int| Seq::new(prev_layer_size as nat, |j: int| O::spec_of_count(1)),
            ),
    {
        let mut weights: Vec<Vec<u64>> = Vec::new();
        let mut biases: Vec<u64> = Vec::new();
        let mut n: usize = 0;
        while n < layer_size
            invariant
                0 <= n <= layer_size,
                weights@.len() == n,
                biases@.len() == n,
                forall|i: int| 0 <= i < n ==> (#[trigger] weights@[i])@ == Seq::new(
                    prev_layer_size as nat,
                    |j: int| O::spec_of_count(1),
                ),
                forall|i: int| 0 <= i < n ==> #[trigger] biases@[i] == O::spec_of_count(0),
            decreases layer_size - n,
        {
            let mut row: Vec<u64> = Vec::new();
            let mut j: usize = 0;
            while j < prev_layer_size
                invariant
                    0 <= j <= prev_layer_size,
                    row@.len() == j,
                    forall|k: int| 0 <= k < j ==> #[trigger] row@[k] == O::spec_of_count(1),
                decreases prev_layer_size - j,
            {
                row.push(O::of_count(1));
                j += 1;
            }
            proof {
                assert(row@ =~= Seq::new(prev_layer_size as nat, |j: int| O::spec_of_count(1)));
            }
            weights.push(row);
            biases.push(O::of_count(0));
            n += 1;
        }
        let r = Layer { weights, biases };
        proof {
            assert(r.bs() =~= Seq::new(layer_size as nat, |n: int| O::spec_of_count(0)));
            assert(r.ws() =~= Seq::new(
                layer_size as nat,
                |n: int| Seq::new(prev_layer_size as nat, |j: int| O::spec_of_count(1)),
            ));
        }
        r
    }

    /// The layer's output for the given input vector. The weighted sum of
    /// each neuron runs over every supplied input position, so each weight
    /// row must be as long as the input.
    pub fn pulse<O: ScalarOps>(&self, input: Vec<u64>) -> (r: Vec<u64>)
        requires
            self.ws().len() == self.bs().len(),
            forall|n: int| 0 <= n < self.ws().len() ==> (#[trigger] self.ws()[n]).len()
                == input@.len(),
        ensures
            r@ == spec_layer_pulse::<O>(self.model(), input@),
            r@.len() == self.bs().len(),
    {
        let mut output_buf: Vec<u64> = Vec::new();
        let mut n: usize = 0;
        while n < self.biases.len()
            invariant
                self.ws().len() == self.bs().len(),
                forall|i: int| 0 <= i < self.ws().len() ==> (#[trigger] self.ws()[i]).len()
                    == input@.len(),
                0 <= n <= self.bs().len(),
                output_buf@.len() == n,
                forall|k: int| 0 <= k < n ==> #[trigger] output_buf@[k] == spec_layer_pulse::<O>(
                    self.model(),
                    input@,
                )[k],
            decreases self.bs().len() - n,
        {
            let mut sum: u64 = O::of_count(0);
            let mut j: usize = 0;
            while j < input.len()
                invariant
                    self.ws().len() == self.bs().len(),
                    forall|i: int| 0 <= i < self.ws().len() ==> (#[trigger] self.ws()[i]).len()
                        == input@.len(),
                    n < self.bs().len(),
                    0 <= j <= input@.len(),
                    sum == spec_weighted_sum::<O>(input@, self.ws()[n as int], j as int),
                decreases input@.len() - j,
            {
                sum = O::add(sum, O::mul(input[j], self.weights[n][j]));
                j += 1;
            }
            output_buf.push(O::activation(O::add(sum, self.biases[n])));
            n += 1;
        }
        proof {
            assert(output_buf@ =~= spec_layer_pulse::<O>(self.model(), input@));
        }
        output_buf
    }

    /// Overwrites one weight; the indices must address an existing
    /// connection.
    pub fn set_weight(&mut self, neuron: usize, prev_layer_neuron: usize, weight: u64)
        requires
            neuron < old(self).ws().len(),
            prev_layer_neuron < old(self).ws()[neuron as int].len(),
        ensures
            final(self).bs() == old(self).bs(),
            final(self).ws() == old(self).ws().update(
                neuron as int,
                old(self).ws()[neuron as int].update(prev_layer_neuron as int, weight),
            ),
    {
        let mut row: Vec<u64> = Vec::new();
        self.weights.set_and_swap(neuron, &mut row);
        row.set(prev_layer_neuron, weight);
        self.weights.set_and_swap(neuron, &mut row);
        proof {
            assert(self.ws() =~= old(self).ws().update(
                neuron as int,
                old(self).ws()[neuron as int].update(prev_layer_neuron as int, weight),
            ));
        }
    }

    /// The weight of the given connection, or `None` when either index is
    /// out of range.
    pub fn get_weight(&self, neuron: usize, prev_layer_neuron: usize) -> (r: Option<u64>)
        ensures
            r == if neuron < self.ws().len() && prev_layer_neuron < self.ws()[
                neuron as int
            ].len() {
                Some(self.ws()[neuron as int][prev_layer_neuron as int])
            } else {
                Option::<u64>::None
            },
    {
        if neuron < self.weights.len() && prev_layer_neuron < self.weights[neuron].len() {
            Some(self.weights[neuron][prev_layer_neuron])
        } else {
            None
        }
    }

    /// Overwrites one bias; the index must address an existing neuron.
    pub fn set_bias(&mut self, neuron: usize, bias: u64)
        requires
            neuron < old(self).bs().len(),
        ensures
            final(self).ws() == old(self).ws(),
            final(self).bs() == old(self).bs().update(neuron as int, bias),
    {
        self.biases.set(neuron, bias);
        proof {
            assert(self.ws() =~= old(self).ws());
        }
    }

    /// The bias of the given neuron, or `None` when the index is out of
    /// range.
    pub fn get_bias(&self, neuron: usize) -> (r: Option<u64>)
        ensures
            r == if neuron < self.bs().len() {
                Some(self.bs()[neuron as int])
            } else {
                Option::<u64>::None
            },
    {
        if neuron < self.biases.len() {
            Some(self.biases[neuron])
        } else {
            None
        }
    }

    /// Redraws every weight and bias from the given ranges. The draws are
    /// random, so only the dimensions are promised.
    pub fn randomize<S: ScalarSampler>(
        &mut self,
        weights_range: (u64, u64),
        biases_range: (u64, u64),
        sampler: &mut S,
    )
        ensures
            final(self).bs().len() == old(self).bs().len(),
            final(self).ws().len() == old(self).ws().len(),
            forall|n: int| 0 <= n < final(self).ws().len() ==> (#[trigger] final(self).ws()[n]).len()
                == old(self).ws()[n].len(),
    {
        let mut n: usize = 0;
        while n < self.weights.len()
            invariant
                0 <= n <= self.ws().len(),
                self.bs().len() == old(self).bs().len(),
                self.ws().len() == old(self).ws().len(),
                forall|i: int| 0 <= i < self.ws().len() ==> (#[trigger] self.ws()[i]).len() == old(
                    self,
                ).ws()[i].len(),
            decreases self.ws().len() - n,
        {
            let row_len: usize = self.weights[n].len();
            proof {
                assert(row_len == self.ws()[n as int].len());
            }
            let mut row: Vec<u64> = Vec::new();
            let mut j: usize = 0;
            while j < row_len
                invariant
                    0 <= j <= row_len,
                    row@.len() == j,
                    n < self.ws().len(),
                    row_len == self.ws()[n as int].len(),
                    self.bs().len() == old(self).bs().len(),
                    self.ws().len() == old(self).ws().len(),
                    forall|i: int| 0 <= i < self.ws().len() ==> (#[trigger] self.ws()[i]).len()
                        == old(self).ws()[i].len(),
                decreases row_len - j,
            {
                row.push(sampler.sample_range(weights_range.0, weights_range.1));
                j += 1;
            }
            let ghost prev_ws = self.ws();
            self.weights.set(n, row);
            proof {
                assert forall|i: int|
                    0 <= i < self.ws().len() implies (#[trigger] self.ws()[i]).len() == old(
                    self,
                ).ws()[i].len() by {
                    if i == n as int {
                        assert(self.ws()[i] == row@);
                    } else {
                        assert(self.ws()[i] == prev_ws[i]);
                    }
                }
            }
            n += 1;
        }
        let mut n: usize = 0;
        while n < self.biases.len()
            invariant
                0 <= n <= self.bs().len(),
                self.bs().len() == old(self).bs().len(),
                self.ws().len() == old(self).ws().len(),
                forall|i: int| 0 <= i < self.ws().len() ==> (#[trigger] self.ws()[i]).len() == old(
                    self,
                ).ws()[i].len(),
            decreases self.bs().len() - n,
        {
            let b: u64 = sampler.sample_range(biases_range.0, biases_range.1);
            self.biases.set(n, b);
            n += 1;
        }
    }

    /// The number of neurons in this layer.
    pub fn len(&self) -> (r: usize)
        ensures
            r == self.bs().len(),
    {
        self.biases.len()
    }

    /// The number of neurons in the previous stage, read off the first
    /// weight row; the layer must hold at least one neuron.
    pub fn prev_layer_len(&self) -> (r: usize)
        requires
            self.ws().len() > 0,
        ensures
            r == self.ws()[0].len(),
    {
        self.weights[0].len()
    }
}

impl Network {
    /// The parameters' mathematical value, layer by layer.
    pub open spec fn model(&self) -> Model {
        Seq::new(self.layers@.len(), |i: int| self.layers@[i].model())
    }

    /// The shape invariant: `len(shape) - 1` layers, every width positive,
    /// and layer `i` well-formed against widths `shape[i + 1]` and
    /// `shape[i]`.
    pub open spec fn wf(&self) -> bool {
        &&& self.shape@.len() >= 1
        &&& self.layers@.len() == self.shape@.len() - 1
        &&& forall|i: int| 0 <= i < self.shape@.len() ==> #[trigger] self.shape@[i] >= 1
        &&& forall|i: int| 0 <= i < self.layers@.len() ==> (#[trigger] self.layers@[i]).wf(
            self.shape@[i + 1] as nat,
            self.shape@[i] as nat,
        )
    }

    /// The width of the output stage.
    pub open spec fn spec_output_len(&self) -> nat {
        self.shape@[self.shape@.len() - 1] as nat
    }

    /// Builds a network of the given shape and draws every weight and
    /// bias from the given ranges.
    pub fn new<O: ScalarOps, S: ScalarSampler>(
        shape: Vec<usize>,
        weights_range: (u64, u64),
        biases_range: (u64, u64),
        sampler: &mut S,
    ) -> (r: Network)
        requires
            shape@.len() >= 1,
            forall|i: int| 0 <= i < shape@.len() ==> #[trigger] shape@[i] >= 1,
        ensures
            r.wf(),
            r.shape@ == shape@,
            r.weights_range == weights_range,
            r.biases_range == biases_range,
    {
        let mut layers: Vec<Layer> = Vec::new();
        let mut i: usize = 1;
        while i < shape.len()
            invariant
                forall|k: int| 0 <= k < shape@.len() ==> #[trigger] shape@[k] >= 1,
                1 <= i <= shape@.len(),
                layers@.len() == i - 1,
                forall|k: int| 0 <= k < i - 1 ==> (#[trigger] layers@[k]).wf(
                    shape@[k + 1] as nat,
                    shape@[k] as nat,
                ),
            decreases shape@.len() - i,
        {
            let mut layer = Layer::new::<O>(shape[i], shape[i - 1]);
            layer.randomize(weights_range, biases_range, sampler);
            layers.push(layer);
            i += 1;
        }
        Network { shape, layers, weights_range, biases_range }
    }

    /// The forward pass: evaluates the layers in order on the input
    /// vector, which must be exactly as wide as the input stage. (The
    /// per-neuron sum consumes every supplied input position, so a longer
    /// input would address weights past the end of a row; such inputs are
    /// rejected outright.)
    pub fn pulse<O: ScalarOps>(&self, input: Vec<u64>) -> (r: Vec<u64>)
        requires
            self.wf(),
            input@.len() == self.shape@[0],
        ensures
            r@ == spec_pulse::<O>(self.model(), input@),
            r@.len() == self.spec_output_len(),
    {
        let mut layer_output = input;
        let ghost input0 = layer_output@;
        proof {
            assert(self.model().skip(0) =~= self.model());
        }
        let mut i: usize = 0;
        while i < self.layers.len()
            invariant
                self.wf(),
                0 <= i <= self.layers@.len(),
                layer_output@.len() == self.shape@[i as int],
                spec_pulse::<O>(self.model().skip(i as int), layer_output@) == spec_pulse::<O>(
                    self.model(),
                    input0,
                ),
            decreases self.layers@.len() - i,
        {
            proof {
                assert(self.model().skip(i as int).len() > 0);
                assert(self.model().skip(i as int)[0] == self.model()[i as int]);
                assert(self.model().skip(i as int).drop_first() =~= self.model().skip(i as int + 1));
            }
            layer_output = self.layers[i].pulse::<O>(layer_output);
            i += 1;
        }
        proof {
            assert(self.model().skip(self.layers@.len() as int) =~= Seq::<LayerModel>::empty());
        }
        layer_output
    }

    /// Overwrites one weight; the input stage is not a layer, so layer 0
    /// is the first materialized layer. The indices must address an
    /// existing connection.
    pub fn set_weight(&mut self, layer: usize, neuron: usize, prev_layer_neuron: usize, weight: u64)
        requires
            layer < old(self).model().len(),
            neuron < old(self).model()[layer as int].0.len(),
            prev_layer_neuron < old(self).model()[layer as int].0[neuron as int].len(),
            neuron < old(self).model()[layer as int].1.len(),
        ensures
            final(self).shape@ == old(self).shape@,
            final(self).weights_range == old(self).weights_range,
            final(self).biases_range == old(self).biases_range,
            final(self).model() == model_set_weight(
                old(self).model(),
                layer as int,
                neuron as int,
                prev_layer_neuron as int,
                weight,
            ),
            old(self).wf() ==> final(self).wf(),
    {
        let mut l: Layer = Layer { weights: Vec::new(), biases: Vec::new() };
        self.layers.set_and_swap(layer, &mut l);
        l.set_weight(neuron, prev_layer_neuron, weight);
        self.layers.set_and_swap(layer, &mut l);
        proof {
            assert(self.model() =~= model_set_weight(
                old(self).model(),
                layer as int,
                neuron as int,
                prev_layer_neuron as int,
                weight,
            ));
        }
    }

    /// The weight of the given connection, or `None` when any index is
    /// out of range.
    pub fn get_weight(&self, layer: usize, neuron: usize, prev_layer_neuron: usize) -> (r: Option<
        u64,
    >)
        ensures
            r == if layer < self.model().len() && neuron < self.model()[layer as int].0.len()
                && prev_layer_neuron < self.model()[layer as int].0[neuron as int].len() {
                Some(self.model()[layer as int].0[neuron as int][prev_layer_neuron as int])
            } else {
                Option::<u64>::None
            },
    {
        if layer < self.layers.len() {
            self.layers[layer].get_weight(neuron, prev_layer_neuron)
        } else {
            None
        }
    }

    /// Overwrites one bias; the indices must address an existing neuron.
    pub fn set_bias(&mut self, layer: usize, neuron: usize, bias: u64)
        requires
            layer < old(self).model().len(),
            neuron < old(self).model()[layer as int].1.len(),
        ensures
            final(self).shape@ == old(self).shape@,
            final(self).weights_range == old(self).weights_range,
            final(self).biases_range == old(self).biases_range,
            final(self).model() == model_set_bias(
                old(self).model(),
                layer as int,
                neuron as int,
                bias,
            ),
            old(self).wf() ==> final(self).wf(),
    {
        let mut l: Layer = Layer { weights: Vec::new(), biases: Vec::new() };
        self.layers.set_and_swap(layer, &mut l);
        l.set_bias(neuron, bias);
        self.layers.set_and_swap(layer, &mut l);
        proof {
            assert(self.model() =~= model_set_bias(
                old(self).model(),
                layer as int,
                neuron as int,
                bias,
            ));
        }
    }

    /// The bias of the given neuron, or `None` when either index is out
    /// of range.
    pub fn get_bias(&self, layer: usize, neuron: usize) -> (r: Option<u64>)
        ensures
            r == if layer < self.model().len() && neuron < self.model()[layer as int].1.len() {
                Some(self.model()[layer as int].1[neuron as int])
            } else {
                Option::<u64>::None
            },
    {
        if layer < self.layers.len() {
            self.layers[layer].get_bias(neuron)
        } else {
            None
        }
    }

    /// The shape the network was built with.
    pub fn get_shape(&self) -> (r: &Vec<usize>)
        ensures
            r@ == self.shape@,
    {
        &self.shape
    }

    /// Read access to the layers.
    pub fn get_layers(&self) -> (r: &Vec<Layer>)
        ensures
            r@ == self.layers@,
    {
        &self.layers
    }

    /// Redraws every weight and bias from the given ranges. The draws are
    /// random, so only the preservation of the dimensions is promised.
    pub fn randomize<S: ScalarSampler>(
        &mut self,
        weights_range: (u64, u64),
        biases_range: (u64, u64),
        sampler: &mut S,
    )
        ensures
            final(self).shape@ == old(self).shape@,
            final(self).weights_range == old(self).weights_range,
            final(self).biases_range == old(self).biases_range,
            final(self).layers@.len() == old(self).layers@.len(),
            forall|i: int| 0 <= i < final(self).layers@.len() ==> (
            #[trigger] final(self).layers@[i]).bs().len() == old(self).layers@[i].bs().len(),
            forall|i: int| 0 <= i < final(self).layers@.len() ==> (
            #[trigger] final(self).layers@[i]).ws().len() == old(self).layers@[i].ws().len(),
            forall|i: int, n: int|
                0 <= i < final(self).layers@.len() && 0 <= n < final(self).layers@[i].ws().len()
                ==> (#[trigger] final(self).layers@[i].ws()[n]).len()
                    == old(self).layers@[i].ws()[n].len(),
            old(self).wf() ==> final(self).wf(),
    {
        let mut i: usize = 0;
        while i < self.layers.len()
            invariant
                0 <= i <= self.layers@.len(),
                self.shape@ == old(self).shape@,
                self.weights_range == old(self).weights_range,
                self.biases_range == old(self).biases_range,
                self.layers@.len() == old(self).layers@.len(),
                forall|k: int| 0 <= k < self.layers@.len() ==> (
                #[trigger] self.layers@[k]).bs().len() == old(self).layers@[k].bs().len(),
                forall|k: int| 0 <= k < self.layers@.len() ==> (
                #[trigger] self.layers@[k]).ws().len() == old(self).layers@[k].ws().len(),
                forall|k: int, n: int|
                    0 <= k < self.layers@.len() && 0 <= n < self.layers@[k].ws().len() ==> (
                    #[trigger] self.layers@[k].ws()[n]).len() == old(self).layers@[k].ws()[n].len(),
            decreases self.layers@.len() - i,
        {
            let mut l: Layer = Layer { weights: Vec::new(), biases: Vec::new() };
            self.layers.set_and_swap(i, &mut l);
            l.randomize(weights_range, biases_range, sampler);
            self.layers.set_and_swap(i, &mut l);
            i += 1;
        }
    }

    /// The derivative of the activation at `x`: the supplied analytic
    /// derivative where there is one, otherwise the central difference
    /// over an increment of one ten-thousandth (built here from exact
    /// counts, so that the increment is the double nearest to it).
    pub fn get_activation_der<O: ScalarOps>(&self, x: u64) -> (r: u64)
        ensures
            r == spec_activation_der::<O>(x),
    {
        if O::has_derivative() {
            O::derivative(x)
        } else {
            let h: u64 = O::div(O::of_count(1), O::of_count(10000));
            let half: u64 = O::div(h, O::of_count(2));
            O::div(
                O::sub(O::activation(O::add(x, half)), O::activation(O::sub(x, half))),
                h,
            )
        }
    }
}

/// The value [`Network::get_activation_der`] returns: the analytic
/// derivative where the implementation supplies one, else the central
/// difference `(f(x + h/2) - f(x - h/2)) / h` with `h` one ten-thousandth.
pub open spec fn spec_activation_der<O: ScalarOps>(x: u64) -> u64 {
    if O::provides_derivative() {
        O::spec_derivative(x)
    } else {
        let h = O::spec_div(O::spec_of_count(1), O::spec_of_count(10000));
        let half = O::spec_div(h, O::spec_of_count(2));
        O::spec_div(
            O::spec_sub(
                O::spec_activation(O::spec_add(x, half)),
                O::spec_activation(O::spec_sub(x, half)),
            ),
            h,
        )
    }
}

/// Whether a parsed document's three sections fit each other: positive
/// widths, one weights layer and one bias layer per stage after the
/// first, each with the widths the shape declares.
pub open spec fn spec_consistent(
    shape: Seq<usize>,
    weights: Seq<Seq<Seq<u64>>>,
    biases: Seq<Seq<u64>>,
) -> bool {
    &&& shape.len() >= 1
    &&& forall|i: int| 0 <= i < shape.len() ==> #[trigger] shape[i] >= 1
    &&& weights.len() == shape.len() - 1
    &&& biases.len() == shape.len() - 1
    &&& forall|l: int| 0 <= l < weights.len() ==> (#[trigger] weights[l]).len() == shape[l + 1]
    &&& forall|l: int| 0 <= l < biases.len() ==> (#[trigger] biases[l]).len() == shape[l + 1]
    &&& forall|l: int, n: int|
        0 <= l < weights.len() && 0 <= n < weights[l].len() ==> (
        #[trigger] weights[l][n]).len() == shape[l]
}

/// What loading a document yields: the parsed sections when they fit
/// each other, the parse error or the mismatch otherwise.
pub open spec fn spec_load_result<O: ScalarOps>(s: Seq<u8>) -> Result<
    (Seq<usize>, Seq<Seq<Seq<u64>>>, Seq<Seq<u64>>),
    NeurError,
> {
    match spec_parse_neur::<O>(s) {
        Ok(t) => if spec_consistent(t.0, t.1, t.2) {
            Ok(t)
        } else {
            Err(NeurError::Inconsistent)
        },
        Err(e) => Err(e),
    }
}

impl Network {
    /// The weight rows of every layer, in order.
    pub open spec fn spec_weights(&self) -> Seq<Seq<Seq<u64>>> {
        Seq::new(self.model().len(), |l: int| self.model()[l].0)
    }

    /// The biases of every layer, in order.
    pub open spec fn spec_biases(&self) -> Seq<Seq<u64>> {
        Seq::new(self.model().len(), |l: int| self.model()[l].1)
    }

    /// Encodes the network's shape, weights and biases in the canonical
    /// text form.
    #[verifier::loop_isolation(false)]
    pub fn save<O: ScalarOps>(&self) -> (r: Vec<u8>)
        requires
            self.wf(),
        ensures
            r@ == spec_render_neur::<O>(self.shape@, self.spec_weights(), self.spec_biases()),
    {
        let mut weights: Vec<Vec<Vec<u64>>> = Vec::new();
        let mut biases: Vec<Vec<u64>> = Vec::new();
        let mut l: usize = 0;
        while l < self.layers.len()
            invariant
                self.wf(),
                0 <= l <= self.layers@.len(),
                weights@.len() == l,
                biases@.len() == l,
                forall|k: int| 0 <= k < l ==> spec_rows_view((#[trigger] weights@[k])@)
                    == self.model()[k].0,
                forall|k: int| 0 <= k < l ==> (#[trigger] biases@[k])@ == self.model()[k].1,
            decreases self.layers@.len() - l,
        {
            let layer: &Layer = &self.layers[l];
            let mut rows: Vec<Vec<u64>> = Vec::new();
            let mut n: usize = 0;
            while n < layer.weights.len()
                invariant
                    0 <= n <= layer.weights@.len(),
                    rows@.len() == n,
                    forall|k: int| 0 <= k < n ==> (#[trigger] rows@[k])@ == layer.ws()[k],
                decreases layer.weights@.len() - n,
            {
                rows.push(copy_scalars(&layer.weights[n]));
                n += 1;
            }
            proof {
                assert(spec_rows_view(rows@) =~= self.model()[l as int].0);
            }
            weights.push(rows);
            biases.push(copy_scalars(&layer.biases));
            l += 1;
        }
        proof {
            assert(spec_layers_view(weights@) =~= self.spec_weights());
            assert(spec_rows_view(biases@) =~= self.spec_biases());
        }
        write_neur_file::<O>(&self.shape, &weights, &biases)
    }

    /// Decodes a network from the bytes of a parameter document: the
    /// parsed shape and parameters, rebuilt as a well-formed network
    /// whose construction ranges are the zero scalar, as a freshly
    /// loaded network has drawn nothing. Every error is unrecoverable
    /// for the caller.
    #[verifier::loop_isolation(false)]
    pub fn load<O: ScalarOps>(data: &Vec<u8>) -> (r: Result<Network, NeurError>)
        ensures
            match r {
                Ok(net) => {
                    &&& spec_load_result::<O>(data@) == Ok::<_, NeurError>(
                        (net.shape@, net.spec_weights(), net.spec_biases()),
                    )
                    &&& net.wf()
                    &&& net.weights_range == (O::spec_of_count(0), O::spec_of_count(0))
                    &&& net.biases_range == (O::spec_of_count(0), O::spec_of_count(0))
                },
                Err(e) => spec_load_result::<O>(data@) == Err::<
                    (Seq<usize>, Seq<Seq<Seq<u64>>>, Seq<Seq<u64>>),
                    _,
                >(e),
            },
    {
        let parsed = match parse_neur_file::<O>(data) {
            Ok(t) => t,
            Err(e) => {
                return Err(e);
            },
        };
        let (shape, mut weights, mut biases): (Vec<usize>, Vec<Vec<Vec<u64>>>, Vec<Vec<u64>>) =
            parsed;
        let ghost w0 = spec_layers_view(weights@);
        let ghost b0 = spec_rows_view(biases@);
        if shape.len() < 1 || weights.len() != shape.len() - 1 || biases.len() != shape.len() - 1 {
            return Err(NeurError::Inconsistent);
        }
        let mut i: usize = 0;
        while i < shape.len()
            invariant
                0 <= i <= shape@.len(),
                forall|k: int| 0 <= k < i ==> #[trigger] shape@[k] >= 1,
            decreases shape@.len() - i,
        {
            if shape[i] == 0 {
                return Err(NeurError::Inconsistent);
            }
            i += 1;
        }
        let mut l: usize = 0;
        while l < weights.len()
            invariant
                0 <= l <= weights@.len(),
                weights@.len() == shape@.len() - 1,
                biases@.len() == shape@.len() - 1,
                w0 == spec_layers_view(weights@),
                b0 == spec_rows_view(biases@),
                forall|k: int| 0 <= k < l ==> (#[trigger] w0[k]).len() == shape@[k + 1],
                forall|k: int| 0 <= k < l ==> (#[trigger] b0[k]).len() == shape@[k + 1],
                forall|k: int, n: int|
                    0 <= k < l && 0 <= n < w0[k].len() ==> (#[trigger] w0[k][n]).len()
                        == shape@[k],
            decreases weights@.len() - l,
        {
            if weights[l].len() != shape[l + 1] || biases[l].len() != shape[l + 1] {
                proof {
                    assert(w0[l as int].len() == weights@[l as int]@.len());
                    assert(b0[l as int].len() == biases@[l as int]@.len());
                    assert(!spec_consistent(shape@, w0, b0));
                }
                return Err(NeurError::Inconsistent);
            }
            let mut n: usize = 0;
            while n < weights[l].len()
                invariant
                    0 <= l < weights@.len(),
                    0 <= n <= weights@[l as int]@.len(),
                    w0 == spec_layers_view(weights@),
                    forall|k: int| 0 <= k < n ==> (#[trigger] w0[l as int][k]).len()
                        == shape@[l as int],
                decreases weights@[l as int]@.len() - n,
            {
                if weights[l][n].len() != shape[l] {
                    proof {
                        assert(w0[l as int] == spec_rows_view(weights@[l as int]@));
                        assert(w0[l as int][n as int] == weights@[l as int]@[n as int]@);
                        assert(!spec_consistent(shape@, w0, b0));
                    }
                    return Err(NeurError::Inconsistent);
                }
                n += 1;
            }
            l += 1;
        }
        proof {
            assert(spec_consistent(shape@, w0, b0));
        }
        let depth: usize = shape.len() - 1;
        let mut layers: Vec<Layer> = Vec::new();
        let mut l: usize = 0;
        while l < depth
            invariant
                0 <= l <= depth,
                depth == shape@.len() - 1,
                w0.len() == depth,
                b0.len() == depth,
                layers@.len() == l,
                spec_layers_view(weights@) == w0.skip(l as int),
                spec_rows_view(biases@) == b0.skip(l as int),
                weights@.len() == depth - l,
                biases@.len() == depth - l,
                forall|k: int| 0 <= k < l ==> (#[trigger] layers@[k]).ws() == w0[k] && layers@[k].bs()
                    == b0[k],
            decreases depth - l,
        {
            let ghost w_before = weights@;
            let ghost b_before = biases@;
            let wrow: Vec<Vec<u64>> = weights.remove(0);
            let brow: Vec<u64> = biases.remove(0);
            proof {
                assert(weights@ =~= w_before.drop_first());
                assert(biases@ =~= b_before.drop_first());
                assert forall|k: int|
                    0 <= k < spec_layers_view(weights@).len() implies #[trigger] spec_layers_view(
                    weights@,
                )[k] == w0.skip(l as int + 1)[k] by {
                    assert(weights@[k] == w_before[k + 1]);
                    assert(spec_layers_view(w_before)[k + 1] == spec_rows_view(w_before[k + 1]@));
                    assert(w0.skip(l as int)[k + 1] == w0[l as int + 1 + k]);
                    assert(w0.skip(l as int + 1)[k] == w0[l as int + 1 + k]);
                }
                assert(spec_layers_view(weights@) =~= w0.skip(l as int + 1));
                assert forall|k: int|
                    0 <= k < spec_rows_view(biases@).len() implies #[trigger] spec_rows_view(
                    biases@,
                )[k] == b0.skip(l as int + 1)[k] by {
                    assert(biases@[k] == b_before[k + 1]);
                    assert(spec_rows_view(b_before)[k + 1] == b_before[k + 1]@);
                    assert(b0.skip(l as int)[k + 1] == b0[l as int + 1 + k]);
                    assert(b0.skip(l as int + 1)[k] == b0[l as int + 1 + k]);
                }
                assert(spec_rows_view(biases@) =~= b0.skip(l as int + 1));
                assert(spec_layers_view(w_before)[0] == spec_rows_view(w_before[0]@));
                assert(w0.skip(l as int)[0] == w0[l as int]);
                assert(spec_rows_view(wrow@) == w0[l as int]);
            }
            let layer = Layer { weights: wrow, biases: brow };
            proof {
                assert(layer.ws() =~= w0[l as int]);
                assert(spec_rows_view(b_before)[0] == b_before[0]@);
                assert(b0.skip(l as int)[0] == b0[l as int]);
                assert(layer.bs() == b0[l as int]);
            }
            layers.push(layer);
            l += 1;
        }
        let net = Network {
            shape,
            layers,
            weights_range: (O::of_count(0), O::of_count(0)),
            biases_range: (O::of_count(0), O::of_count(0)),
        };
        proof {
            assert(net.spec_weights() =~= w0);
            assert(net.spec_biases() =~= b0);
            assert(net.wf());
        }
        Ok(net)
    }
}

} // verus!
