//! Cost evaluation and the coordinate-wise finite-difference training.
//!
//! Training perturbs one parameter at a time: it raises the parameter by
//! `rate`, measures the change of one cost component against the cost
//! before the perturbation, overwrites the parameter with
//! `original - delta * rate` (the measured change is not divided by the
//! perturbation, so the effective step is `rate`-squared scaled), and
//! re-measures the cost before moving on. The order — output index, then
//! layer, then neuron, then connection, with the bias after a neuron's
//! connections — is part of the contract: [`spec_train_point`] replays it
//! exactly.

use vstd::prelude::*;

use crate::data::spec_examples;
use crate::data::NetworkFood;
use crate::network::model_set_bias;
use crate::network::model_set_weight;
use crate::network::spec_pulse;
use crate::network::Model;
use crate::network::Network;
use crate::scalar::all_finite;
use crate::scalar::spec_all_finite;
use crate::scalar::spec_is_finite;
use crate::scalar::is_finite;
use crate::scalar::ScalarOps;
use crate::scalar::ScalarSampler;

verus! {

/// The cost vector of a model on one example: per output neuron, the
/// squared difference between the forward pass and the expected output.
pub open spec fn spec_cost<O: ScalarOps>(m: Model, input: Seq<u64>, expected: Seq<u64>) -> Seq<
    u64,
> {
    Seq::new(
        spec_pulse::<O>(m, input).len(),
        |i: int|
            {
                let c = O::spec_sub(spec_pulse::<O>(m, input)[i], expected[i]);
                O::spec_mul(c, c)
            },
    )
}

/// A vector of `n` zero scalars.
pub open spec fn spec_zero_vec<O: ScalarOps>(n: nat) -> Seq<u64> {
    Seq::new(n, |i: int| O::spec_of_count(0))
}

/// Component-wise sum of two cost vectors, at the length of the first.
pub open spec fn spec_add_costs<O: ScalarOps>(acc: Seq<u64>, c: Seq<u64>) -> Seq<u64> {
    Seq::new(acc.len(), |i: int| O::spec_add(acc[i], c[i]))
}

/// The running cost totals over the first `k` examples of `data`.
pub open spec fn spec_cost_totals<O: ScalarOps>(
    m: Model,
    outlen: nat,
    data: Seq<(Seq<u64>, Seq<u64>)>,
    k: int,
) -> Seq<u64>
    decreases k,
{
    if k <= 0 {
        spec_zero_vec::<O>(outlen)
    } else {
        spec_add_costs::<O>(
            spec_cost_totals::<O>(m, outlen, data, k - 1),
            spec_cost::<O>(m, data[k - 1].0, data[k - 1].1),
        )
    }
}

/// The average cost vector over `data`: the totals of every example,
/// divided component-wise by the number of examples.
pub open spec fn spec_average_cost<O: ScalarOps>(
    m: Model,
    outlen: nat,
    data: Seq<(Seq<u64>, Seq<u64>)>,
) -> Seq<u64> {
    Seq::new(
        outlen,
        |i: int|
            O::spec_div(
                spec_cost_totals::<O>(m, outlen, data, data.len() as int)[i],
                O::spec_of_count(data.len() as usize),
            ),
    )
}

/// One weight update: perturb the weight upward by `rate`, measure cost
/// component `o` against `init`, overwrite the perturbed weight with
/// `original - delta * rate`, and re-measure the full cost vector.
pub open spec fn spec_weight_step<O: ScalarOps>(
    m: Model,
    pt: (Seq<u64>, Seq<u64>),
    o: int,
    l: int,
    n: int,
    w: int,
    rate: u64,
    init: Seq<u64>,
) -> (Model, Seq<u64>) {
    let cur = m[l].0[n][w];
    let m_up = model_set_weight(m, l, n, w, O::spec_add(cur, rate));
    let new_cost = spec_cost::<O>(m_up, pt.0, pt.1);
    let der = O::spec_sub(new_cost[o], init[o]);
    let m_next = model_set_weight(m_up, l, n, w, O::spec_sub(cur, O::spec_mul(der, rate)));
    (m_next, spec_cost::<O>(m_next, pt.0, pt.1))
}

/// The weight updates of the first `k` connections of neuron `n`.
pub open spec fn spec_weights_fold<O: ScalarOps>(
    m: Model,
    pt: (Seq<u64>, Seq<u64>),
    o: int,
    l: int,
    n: int,
    rate: u64,
    init: Seq<u64>,
    k: int,
) -> (Model, Seq<u64>)
    decreases k,
{
    if k <= 0 {
        (m, init)
    } else {
        let prev = spec_weights_fold::<O>(m, pt, o, l, n, rate, init, k - 1);
        spec_weight_step::<O>(prev.0, pt, o, l, n, k - 1, rate, prev.1)
    }
}

/// One bias update, of the same perturb/measure/overwrite/re-measure form
/// as [`spec_weight_step`].
pub open spec fn spec_bias_step<O: ScalarOps>(
    m: Model,
    pt: (Seq<u64>, Seq<u64>),
    o: int,
    l: int,
    n: int,
    rate: u64,
    init: Seq<u64>,
) -> (Model, Seq<u64>) {
    let cur = m[l].1[n];
    let m_up = model_set_bias(m, l, n, O::spec_add(cur, rate));
    let new_cost = spec_cost::<O>(m_up, pt.0, pt.1);
    let der = O::spec_sub(new_cost[o], init[o]);
    let m_next = model_set_bias(m_up, l, n, O::spec_sub(cur, O::spec_mul(der, rate)));
    (m_next, spec_cost::<O>(m_next, pt.0, pt.1))
}

/// One neuron's updates: every incoming connection in order, then the
/// neuron's bias.
pub open spec fn spec_neuron_step<O: ScalarOps>(
    shape: Seq<usize>,
    m: Model,
    pt: (Seq<u64>, Seq<u64>),
    o: int,
    l: int,
    n: int,
    rate: u64,
    init: Seq<u64>,
) -> (Model, Seq<u64>) {
    let after_w = spec_weights_fold::<O>(m, pt, o, l, n, rate, init, shape[l] as int);
    spec_bias_step::<O>(after_w.0, pt, o, l, n, rate, after_w.1)
}

/// The updates of the first `k` neurons of layer `l`.
pub open spec fn spec_neurons_fold<O: ScalarOps>(
    shape: Seq<usize>,
    m: Model,
    pt: (Seq<u64>, Seq<u64>),
    o: int,
    l: int,
    rate: u64,
    init: Seq<u64>,
    k: int,
) -> (Model, Seq<u64>)
    decreases k,
{
    if k <= 0 {
        (m, init)
    } else {
        let prev = spec_neurons_fold::<O>(shape, m, pt, o, l, rate, init, k - 1);
        spec_neuron_step::<O>(shape, prev.0, pt, o, l, k - 1, rate, prev.1)
    }
}

/// The updates of the first `k` layers, for output index `o`; layer `l`
/// holds `shape[l + 1]` neurons.
pub open spec fn spec_layers_fold<O: ScalarOps>(
    shape: Seq<usize>,
    m: Model,
    pt: (Seq<u64>, Seq<u64>),
    o: int,
    rate: u64,
    init: Seq<u64>,
    k: int,
) -> (Model, Seq<u64>)
    decreases k,
{
    if k <= 0 {
        (m, init)
    } else {
        let prev = spec_layers_fold::<O>(shape, m, pt, o, rate, init, k - 1);
        spec_neurons_fold::<O>(shape, prev.0, pt, o, k - 1, rate, prev.1, shape[k] as int)
    }
}

/// The sweeps for the first `k` output indices, each over every layer.
pub open spec fn spec_outputs_fold<O: ScalarOps>(
    shape: Seq<usize>,
    m: Model,
    pt: (Seq<u64>, Seq<u64>),
    rate: u64,
    init: Seq<u64>,
    k: int,
) -> (Model, Seq<u64>)
    decreases k,
{
    if k <= 0 {
        (m, init)
    } else {
        let prev = spec_outputs_fold::<O>(shape, m, pt, rate, init, k - 1);
        spec_layers_fold::<O>(shape, prev.0, pt, k - 1, rate, prev.1, (shape.len() - 1) as int)
    }
}

/// The whole pass of one training example: one sweep per output index,
/// starting from the cost vector `init`. The first component is the model
/// after the pass.
pub open spec fn spec_train_point<O: ScalarOps>(
    shape: Seq<usize>,
    m: Model,
    pt: (Seq<u64>, Seq<u64>),
    rate: u64,
    init: Seq<u64>,
) -> (Model, Seq<u64>) {
    spec_outputs_fold::<O>(shape, m, pt, rate, init, shape[shape.len() - 1] as int)
}

/// Whether a model has one layer per stage after the first, with the
/// widths the shape declares.
pub open spec fn spec_model_fits(shape: Seq<usize>, m: Model) -> bool {
    &&& m.len() == shape.len() - 1
    &&& forall|l: int| 0 <= l < m.len() ==> (#[trigger] m[l]).1.len() == shape[l + 1]
    &&& forall|l: int| 0 <= l < m.len() ==> (#[trigger] m[l]).0.len() == shape[l + 1]
    &&& forall|l: int, n: int|
        0 <= l < m.len() && 0 <= n < m[l].0.len() ==> (#[trigger] m[l].0[n]).len() == shape[l]
}

/// How one training example may change the model. The inclusion draw is
/// random, so three outcomes are possible: the example is skipped; it is
/// included and its pass runs against the cost measured on the model; or
/// that cost has a non-finite component, every parameter is re-drawn,
/// and the pass runs on the re-drawn model — still against the stale
/// cost, which was measured before the recovery.
pub open spec fn spec_train_example_rel<O: ScalarOps>(
    shape: Seq<usize>,
    m: Model,
    pt: (Seq<u64>, Seq<u64>),
    rate: u64,
    m2: Model,
) -> bool {
    ||| m2 == m
    ||| (spec_all_finite(spec_cost::<O>(m, pt.0, pt.1)) && m2 == spec_train_point::<O>(
        shape,
        m,
        pt,
        rate,
        spec_cost::<O>(m, pt.0, pt.1),
    ).0)
    ||| (!spec_all_finite(spec_cost::<O>(m, pt.0, pt.1)) && exists|mr: Model|
        spec_model_fits(shape, mr) && m2 == spec_train_point::<O>(
            shape,
            mr,
            pt,
            rate,
            spec_cost::<O>(m, pt.0, pt.1),
        ).0)
}

/// How one pass over the training examples may change the model: each
/// example, in order, relates the model to the next one.
pub open spec fn spec_train_rel<O: ScalarOps>(
    shape: Seq<usize>,
    m: Model,
    data: Seq<(Seq<u64>, Seq<u64>)>,
    rate: u64,
    m_end: Model,
) -> bool
    decreases data.len(),
{
    if data.len() == 0 {
        m_end == m
    } else {
        exists|mid: Model|
            #[trigger] spec_train_example_rel::<O>(shape, m, data[0], rate, mid)
                && spec_train_rel::<O>(shape, mid, data.drop_first(), rate, m_end)
    }
}

/// Extending a pass by one more example extends the relation.
proof fn lemma_train_rel_snoc<O: ScalarOps>(
    shape: Seq<usize>,
    m0: Model,
    data: Seq<(Seq<u64>, Seq<u64>)>,
    rate: u64,
    i: int,
    m1: Model,
    m2: Model,
)
    requires
        0 <= i < data.len(),
        spec_train_rel::<O>(shape, m0, data.take(i), rate, m1),
        spec_train_example_rel::<O>(shape, m1, data[i], rate, m2),
    ensures
        spec_train_rel::<O>(shape, m0, data.take(i + 1), rate, m2),
    decreases i,
{
    if i == 0 {
        assert(m1 == m0);
        assert(data.take(1)[0] == data[0]);
        assert(data.take(1).drop_first() =~= Seq::<(Seq<u64>, Seq<u64>)>::empty());
        assert(spec_train_rel::<O>(shape, m2, data.take(1).drop_first(), rate, m2));
        assert(spec_train_example_rel::<O>(shape, m0, data.take(1)[0], rate, m2));
    } else {
        let mid = choose|mid: Model|
            #[trigger] spec_train_example_rel::<O>(shape, m0, data.take(i)[0], rate, mid)
                && spec_train_rel::<O>(shape, mid, data.take(i).drop_first(), rate, m1);
        assert(data.take(i)[0] == data[0]);
        assert(data.take(i).drop_first() =~= data.drop_first().take(i - 1));
        assert(data.drop_first()[i - 1] == data[i]);
        lemma_train_rel_snoc::<O>(shape, mid, data.drop_first(), rate, i - 1, m1, m2);
        assert(data.take(i + 1)[0] == data[0]);
        assert(data.take(i + 1).drop_first() =~= data.drop_first().take(i));
        assert(spec_train_example_rel::<O>(shape, m0, data.take(i + 1)[0], rate, mid));
        assert(spec_train_rel::<O>(shape, mid, data.take(i + 1).drop_first(), rate, m2));
    }
}

/// Whether iteration `i` is a reporting iteration: a report interval is
/// set and divides the index.
pub open spec fn spec_reporting_at(i: int, interval: Option<usize>) -> bool {
    match interval {
        Some(g) => i % (g as int) == 0,
        None => false,
    }
}

/// How one iteration of the training loop may change the model: a
/// training pass, and — at a reporting iteration whose reported average
/// cost has a non-finite first component — a recovery that replaces the
/// model by some re-drawn one of the right dimensions.
pub open spec fn spec_loop_iter_rel<O: ScalarOps>(
    shape: Seq<usize>,
    m: Model,
    training: Seq<(Seq<u64>, Seq<u64>)>,
    testing: Seq<(Seq<u64>, Seq<u64>)>,
    rate: u64,
    outlen: nat,
    reporting: bool,
    m_end: Model,
) -> bool {
    exists|mid: Model|
        #[trigger] spec_train_rel::<O>(shape, m, training, rate, mid) && if reporting {
            if spec_is_finite(spec_average_cost::<O>(mid, outlen, testing)[0]) {
                m_end == mid
            } else {
                spec_model_fits(shape, m_end)
            }
        } else {
            m_end == mid
        }
}

/// How `k` iterations of the training loop may change the model, in
/// order.
pub open spec fn spec_train_loop_rel<O: ScalarOps>(
    shape: Seq<usize>,
    m: Model,
    training: Seq<(Seq<u64>, Seq<u64>)>,
    testing: Seq<(Seq<u64>, Seq<u64>)>,
    rate: u64,
    outlen: nat,
    k: nat,
    interval: Option<usize>,
    m_end: Model,
) -> bool
    decreases k,
{
    if k == 0 {
        m_end == m
    } else {
        exists|mid: Model|
            spec_train_loop_rel::<O>(
                shape,
                m,
                training,
                testing,
                rate,
                outlen,
                (k - 1) as nat,
                interval,
                mid,
            ) && #[trigger] spec_loop_iter_rel::<O>(
                shape,
                mid,
                training,
                testing,
                rate,
                outlen,
                spec_reporting_at(k - 1, interval),
                m_end,
            )
    }
}

/// One more iteration extends the loop relation.
proof fn lemma_train_loop_rel_snoc<O: ScalarOps>(
    shape: Seq<usize>,
    m0: Model,
    training: Seq<(Seq<u64>, Seq<u64>)>,
    testing: Seq<(Seq<u64>, Seq<u64>)>,
    rate: u64,
    outlen: nat,
    k: nat,
    interval: Option<usize>,
    mid: Model,
    m_end: Model,
)
    requires
        spec_train_loop_rel::<O>(shape, m0, training, testing, rate, outlen, k, interval, mid),
        spec_loop_iter_rel::<O>(
            shape,
            mid,
            training,
            testing,
            rate,
            outlen,
            spec_reporting_at(k as int, interval),
            m_end,
        ),
    ensures
        spec_train_loop_rel::<O>(
            shape,
            m0,
            training,
            testing,
            rate,
            outlen,
            (k + 1) as nat,
            interval,
            m_end,
        ),
{
    let k1: nat = (k + 1) as nat;
    assert((k1 - 1) as nat == k);
    assert(k1 - 1 == k as int);
    assert(spec_train_loop_rel::<O>(
        shape,
        m0,
        training,
        testing,
        rate,
        outlen,
        (k1 - 1) as nat,
        interval,
        mid,
    ));
    assert(spec_loop_iter_rel::<O>(
        shape,
        mid,
        training,
        testing,
        rate,
        outlen,
        spec_reporting_at(k1 - 1, interval),
        m_end,
    ));
}

impl Network {
    /// The cost vector of the network on one example: per output neuron,
    /// the squared difference between the forward pass on the example's
    /// input and its expected output. The example must match the
    /// network's input and output widths.
    pub fn test_point<O: ScalarOps>(&self, point: &(Vec<u64>, Vec<u64>)) -> (r: Vec<u64>)
        requires
            self.wf(),
            point.0@.len() == self.shape@[0],
            point.1@.len() == self.spec_output_len(),
        ensures
            r@ == spec_cost::<O>(self.model(), point.0@, point.1@),
            r@.len() == self.spec_output_len(),
    {
        let input: Vec<u64> = crate::scalar::copy_scalars(&point.0);
        let outputs: Vec<u64> = self.pulse::<O>(input);
        let mut cost_vec: Vec<u64> = Vec::new();
        let mut i: usize = 0;
        while i < outputs.len()
            invariant
                outputs@ == spec_pulse::<O>(self.model(), point.0@),
                0 <= i <= outputs@.len(),
                cost_vec@.len() == i,
                forall|k: int| 0 <= k < i ==> #[trigger] cost_vec@[k] == spec_cost::<O>(
                    self.model(),
                    point.0@,
                    point.1@,
                )[k],
                point.1@.len() == outputs@.len(),
            decreases outputs@.len() - i,
        {
            let c: u64 = O::sub(outputs[i], point.1[i]);
            cost_vec.push(O::mul(c, c));
            i += 1;
        }
        proof {
            assert(cost_vec@ =~= spec_cost::<O>(self.model(), point.0@, point.1@));
        }
        cost_vec
    }

    /// The average cost vector over the testing examples of the given
    /// source: the component-wise totals of every example's cost, divided
    /// by the number of testing examples.
    pub fn test<O: ScalarOps, F: NetworkFood>(&self, food: &F) -> (r: Vec<u64>)
        requires
            self.wf(),
            forall|i: int| 0 <= i < food.spec_testing().len() ==> (
            #[trigger] food.spec_testing()[i]).0.len() == self.shape@[0]
                && food.spec_testing()[i].1.len() == self.spec_output_len(),
        ensures
            r@ == spec_average_cost::<O>(
                self.model(),
                self.spec_output_len(),
                food.spec_testing(),
            ),
            r@.len() == self.spec_output_len(),
    {
        let testing_data: &Vec<(Vec<u64>, Vec<u64>)> = food.grab_testing_data();
        let ghost data = food.spec_testing();
        let outlen: usize = self.shape[self.shape.len() - 1];
        let mut cost_totals: Vec<u64> = Vec::new();
        let mut i: usize = 0;
        while i < outlen
            invariant
                0 <= i <= outlen,
                cost_totals@.len() == i,
                forall|k: int| 0 <= k < i ==> #[trigger] cost_totals@[k] == O::spec_of_count(0),
            decreases outlen - i,
        {
            cost_totals.push(O::of_count(0));
            i += 1;
        }
        proof {
            assert(cost_totals@ =~= spec_zero_vec::<O>(self.spec_output_len()));
        }
        let mut d: usize = 0;
        while d < testing_data.len()
            invariant
                self.wf(),
                outlen == self.spec_output_len(),
                data == food.spec_testing(),
                spec_examples(testing_data@) == data,
                forall|k: int| 0 <= k < data.len() ==> (#[trigger] data[k]).0.len()
                    == self.shape@[0] && data[k].1.len() == self.spec_output_len(),
                0 <= d <= testing_data@.len(),
                data.len() == testing_data@.len(),
                cost_totals@ == spec_cost_totals::<O>(
                    self.model(),
                    self.spec_output_len(),
                    data,
                    d as int,
                ),
                cost_totals@.len() == outlen,
            decreases testing_data@.len() - d,
        {
            proof {
                assert(data[d as int] == (testing_data@[d as int].0@, testing_data@[d as int].1@));
            }
            let point_cost: Vec<u64> = self.test_point::<O>(&testing_data[d]);
            let ghost prev_totals = cost_totals@;
            let mut k: usize = 0;
            while k < outlen
                invariant
                    0 <= k <= outlen,
                    point_cost@.len() == outlen,
                    cost_totals@.len() == outlen,
                    forall|j: int| 0 <= j < k ==> #[trigger] cost_totals@[j] == O::spec_add(
                        prev_totals[j],
                        point_cost@[j],
                    ),
                    forall|j: int| k <= j < outlen ==> #[trigger] cost_totals@[j]
                        == prev_totals[j],
                decreases outlen - k,
            {
                let t: u64 = O::add(cost_totals[k], point_cost[k]);
                cost_totals.set(k, t);
                k += 1;
            }
            proof {
                assert(cost_totals@ =~= spec_add_costs::<O>(prev_totals, point_cost@));
                assert(cost_totals@ =~= spec_cost_totals::<O>(
                    self.model(),
                    self.spec_output_len(),
                    data,
                    d as int + 1,
                ));
            }
            d += 1;
        }
        let count: u64 = O::of_count(testing_data.len());
        let ghost totals = cost_totals@;
        let mut k: usize = 0;
        while k < outlen
            invariant
                0 <= k <= outlen,
                cost_totals@.len() == outlen,
                totals.len() == outlen,
                count == O::spec_of_count(testing_data@.len() as usize),
                forall|j: int| 0 <= j < k ==> #[trigger] cost_totals@[j] == O::spec_div(
                    totals[j],
                    count,
                ),
                forall|j: int| k <= j < outlen ==> #[trigger] cost_totals@[j] == totals[j],
            decreases outlen - k,
        {
            let t: u64 = O::div(cost_totals[k], count);
            cost_totals.set(k, t);
            k += 1;
        }
        proof {
            assert(cost_totals@ =~= spec_average_cost::<O>(
                self.model(),
                self.spec_output_len(),
                data,
            ));
        }
        cost_totals
    }

    /// The whole coordinate-wise pass of one training example, starting
    /// from the supplied cost vector (training hands in the cost it
    /// measured before the pass). The result is exactly
    /// [`spec_train_point`] of the old model.
    #[verifier::loop_isolation(false)]
    pub fn train_point<O: ScalarOps>(
        &mut self,
        point: &(Vec<u64>, Vec<u64>),
        rate: u64,
        initial_cost: Vec<u64>,
    )
        requires
            old(self).wf(),
            point.0@.len() == old(self).shape@[0],
            point.1@.len() == old(self).spec_output_len(),
            initial_cost@.len() == old(self).spec_output_len(),
        ensures
            final(self).wf(),
            final(self).shape@ == old(self).shape@,
            final(self).weights_range == old(self).weights_range,
            final(self).biases_range == old(self).biases_range,
            final(self).model() == spec_train_point::<O>(
                old(self).shape@,
                old(self).model(),
                (point.0@, point.1@),
                rate,
                initial_cost@,
            ).0,
    {
        let ghost shape0 = self.shape@;
        let ghost m0 = self.model();
        let ghost init0 = initial_cost@;
        let ghost pt = (point.0@, point.1@);
        let outputs_len: usize = self.shape[self.shape.len() - 1];
        let depth: usize = self.shape.len() - 1;
        let mut initial: Vec<u64> = initial_cost;
        let mut o: usize = 0;
        while o < outputs_len
            invariant
                0 <= o <= outputs_len,
                self.wf(),
                self.shape@ == shape0,
                self.weights_range == old(self).weights_range,
                self.biases_range == old(self).biases_range,
                initial@.len() == self.spec_output_len(),
                self.model() == spec_outputs_fold::<O>(shape0, m0, pt, rate, init0, o as int).0,
                initial@ == spec_outputs_fold::<O>(shape0, m0, pt, rate, init0, o as int).1,
            decreases outputs_len - o,
        {
            let ghost m_o = self.model();
            let ghost init_o = initial@;
            let mut l: usize = 0;
            while l < depth
                invariant
                    0 <= l <= depth,
                    self.wf(),
                    self.shape@ == shape0,
                    self.weights_range == old(self).weights_range,
                    self.biases_range == old(self).biases_range,
                    initial@.len() == self.spec_output_len(),
                    o < outputs_len,
                    self.model() == spec_layers_fold::<O>(
                        shape0,
                        m_o,
                        pt,
                        o as int,
                        rate,
                        init_o,
                        l as int,
                    ).0,
                    initial@ == spec_layers_fold::<O>(
                        shape0,
                        m_o,
                        pt,
                        o as int,
                        rate,
                        init_o,
                        l as int,
                    ).1,
                decreases depth - l,
            {
                let ghost m_l = self.model();
                let ghost init_l = initial@;
                let neurons: usize = self.shape[l + 1];
                let mut n: usize = 0;
                while n < neurons
                    invariant
                        0 <= n <= neurons,
                        self.wf(),
                        self.shape@ == shape0,
                        self.weights_range == old(self).weights_range,
                        self.biases_range == old(self).biases_range,
                        initial@.len() == self.spec_output_len(),
                        o < outputs_len,
                        l < depth,
                        neurons == shape0[l as int + 1],
                        self.model() == spec_neurons_fold::<O>(
                            shape0,
                            m_l,
                            pt,
                            o as int,
                            l as int,
                            rate,
                            init_l,
                            n as int,
                        ).0,
                        initial@ == spec_neurons_fold::<O>(
                            shape0,
                            m_l,
                            pt,
                            o as int,
                            l as int,
                            rate,
                            init_l,
                            n as int,
                        ).1,
                    decreases neurons - n,
                {
                    let ghost m_n = self.model();
                    let ghost init_n = initial@;
                    let conns: usize = self.shape[l];
                    let mut w: usize = 0;
                    while w < conns
                        invariant
                            0 <= w <= conns,
                            self.wf(),
                            self.shape@ == shape0,
                            self.weights_range == old(self).weights_range,
                            self.biases_range == old(self).biases_range,
                            initial@.len() == self.spec_output_len(),
                            o < outputs_len,
                            l < depth,
                            n < neurons,
                            neurons == shape0[l as int + 1],
                            conns == shape0[l as int],
                            self.model() == spec_weights_fold::<O>(
                                m_n,
                                pt,
                                o as int,
                                l as int,
                                n as int,
                                rate,
                                init_n,
                                w as int,
                            ).0,
                            initial@ == spec_weights_fold::<O>(
                                m_n,
                                pt,
                                o as int,
                                l as int,
                                n as int,
                                rate,
                                init_n,
                                w as int,
                            ).1,
                        decreases conns - w,
                    {
                        let ghost prev = spec_weights_fold::<O>(
                            m_n,
                            pt,
                            o as int,
                            l as int,
                            n as int,
                            rate,
                            init_n,
                            w as int,
                        );
                        let cw_opt: Option<u64> = self.get_weight(l, n, w);
                        let current_weight: u64 = cw_opt.unwrap();
                        self.set_weight(l, n, w, O::add(current_weight, rate));
                        let new_cost: Vec<u64> = self.test_point::<O>(point);
                        let der: u64 = O::sub(new_cost[o], initial[o]);
                        self.set_weight(l, n, w, O::sub(current_weight, O::mul(der, rate)));
                        initial = self.test_point::<O>(point);
                        proof {
                            let stepped = spec_weight_step::<O>(
                                prev.0,
                                pt,
                                o as int,
                                l as int,
                                n as int,
                                w as int,
                                rate,
                                prev.1,
                            );
                            assert(self.model() == stepped.0);
                            assert(initial@ == stepped.1);
                            assert(spec_weights_fold::<O>(
                                m_n,
                                pt,
                                o as int,
                                l as int,
                                n as int,
                                rate,
                                init_n,
                                w as int + 1,
                            ) == stepped);
                        }
                        w += 1;
                    }
                    let ghost after_w = spec_weights_fold::<O>(
                        m_n,
                        pt,
                        o as int,
                        l as int,
                        n as int,
                        rate,
                        init_n,
                        conns as int,
                    );
                    let cb_opt: Option<u64> = self.get_bias(l, n);
                    let current_bias: u64 = cb_opt.unwrap();
                    self.set_bias(l, n, O::add(current_bias, rate));
                    let new_cost: Vec<u64> = self.test_point::<O>(point);
                    let der: u64 = O::sub(new_cost[o], initial[o]);
                    self.set_bias(l, n, O::sub(current_bias, O::mul(der, rate)));
                    initial = self.test_point::<O>(point);
                    proof {
                        let stepped = spec_bias_step::<O>(
                            after_w.0,
                            pt,
                            o as int,
                            l as int,
                            n as int,
                            rate,
                            after_w.1,
                        );
                        assert(self.model() == stepped.0);
                        assert(initial@ == stepped.1);
                        assert(spec_neuron_step::<O>(
                            shape0,
                            m_n,
                            pt,
                            o as int,
                            l as int,
                            n as int,
                            rate,
                            init_n,
                        ) == stepped);
                        assert(spec_neurons_fold::<O>(
                            shape0,
                            m_l,
                            pt,
                            o as int,
                            l as int,
                            rate,
                            init_l,
                            n as int + 1,
                        ) == spec_neuron_step::<O>(
                            shape0,
                            spec_neurons_fold::<O>(
                                shape0,
                                m_l,
                                pt,
                                o as int,
                                l as int,
                                rate,
                                init_l,
                                n as int,
                            ).0,
                            pt,
                            o as int,
                            l as int,
                            n as int,
                            rate,
                            spec_neurons_fold::<O>(
                                shape0,
                                m_l,
                                pt,
                                o as int,
                                l as int,
                                rate,
                                init_l,
                                n as int,
                            ).1,
                        ));
                    }
                    n += 1;
                }
                proof {
                    assert(spec_layers_fold::<O>(
                        shape0,
                        m_o,
                        pt,
                        o as int,
                        rate,
                        init_o,
                        l as int + 1,
                    ) == spec_neurons_fold::<O>(
                        shape0,
                        spec_layers_fold::<O>(shape0, m_o, pt, o as int, rate, init_o, l as int).0,
                        pt,
                        o as int,
                        l as int,
                        rate,
                        spec_layers_fold::<O>(shape0, m_o, pt, o as int, rate, init_o, l as int).1,
                        shape0[l as int + 1] as int,
                    ));
                }
                l += 1;
            }
            proof {
                assert(spec_outputs_fold::<O>(shape0, m0, pt, rate, init0, o as int + 1)
                    == spec_layers_fold::<O>(
                    shape0,
                    spec_outputs_fold::<O>(shape0, m0, pt, rate, init0, o as int).0,
                    pt,
                    o as int,
                    rate,
                    spec_outputs_fold::<O>(shape0, m0, pt, rate, init0, o as int).1,
                    (shape0.len() - 1) as int,
                ));
            }
            o += 1;
        }
    }

    /// One training pass over the training examples of the given source.
    /// Each example is included with probability `used_data_fraction`
    /// (a unit draw below the fraction includes it). For an included
    /// example, the cost is measured first; if any component is
    /// non-finite, every parameter is re-randomized from the construction
    /// ranges before the pass, which then runs with the cost measured
    /// before the recovery. The draws are random, so what is promised is
    /// the pass relation: example by example, in order, the model either
    /// stays (excluded), or moves by exactly the coordinate-wise pass —
    /// on itself, or on some re-drawn model after a non-finite cost.
    pub fn train<O: ScalarOps, S: ScalarSampler, F: NetworkFood>(
        &mut self,
        food: &F,
        rate: u64,
        used_data_fraction: u64,
        sampler: &mut S,
    )
        requires
            old(self).wf(),
            forall|i: int| 0 <= i < food.spec_training().len() ==> (
            #[trigger] food.spec_training()[i]).0.len() == old(self).shape@[0]
                && food.spec_training()[i].1.len() == old(self).spec_output_len(),
        ensures
            final(self).wf(),
            final(self).shape@ == old(self).shape@,
            final(self).weights_range == old(self).weights_range,
            final(self).biases_range == old(self).biases_range,
            spec_train_rel::<O>(
                old(self).shape@,
                old(self).model(),
                food.spec_training(),
                rate,
                final(self).model(),
            ),
    {
        let training_data: &Vec<(Vec<u64>, Vec<u64>)> = food.grab_training_data();
        let ghost data = food.spec_training();
        let ghost shape0 = self.shape@;
        let ghost m0 = self.model();
        proof {
            assert(data.take(0) =~= Seq::<(Seq<u64>, Seq<u64>)>::empty());
        }
        let mut i: usize = 0;
        while i < training_data.len()
            invariant
                self.wf(),
                self.shape@ == old(self).shape@,
                self.weights_range == old(self).weights_range,
                self.biases_range == old(self).biases_range,
                shape0 == old(self).shape@,
                m0 == old(self).model(),
                0 <= i <= training_data@.len(),
                data == food.spec_training(),
                spec_examples(training_data@) == data,
                data.len() == training_data@.len(),
                forall|k: int| 0 <= k < data.len() ==> (#[trigger] data[k]).0.len()
                    == self.shape@[0] && data[k].1.len() == self.spec_output_len(),
                spec_train_rel::<O>(shape0, m0, data.take(i as int), rate, self.model()),
            decreases training_data@.len() - i,
        {
            let ghost m_before = self.model();
            let draw: u64 = sampler.sample_unit();
            if O::lt(draw, used_data_fraction) {
                proof {
                    assert(data[i as int] == (
                        training_data@[i as int].0@,
                        training_data@[i as int].1@,
                    ));
                }
                let initial_cost: Vec<u64> = self.test_point::<O>(&training_data[i]);
                if !all_finite(&initial_cost) {
                    let wr: (u64, u64) = self.weights_range;
                    let br: (u64, u64) = self.biases_range;
                    self.randomize(wr, br, sampler);
                }
                let ghost m_pass = self.model();
                proof {
                    assert(spec_model_fits(shape0, m_pass)) by {
                        assert forall|l: int, n: int|
                            0 <= l < m_pass.len() && 0 <= n < m_pass[l].0.len() implies (
                        #[trigger] m_pass[l].0[n]).len() == shape0[l] by {
                            assert(m_pass[l].0[n] == self.layers@[l].ws()[n]);
                        }
                    }
                }
                self.train_point::<O>(&training_data[i], rate, initial_cost);
                proof {
                    assert(spec_train_example_rel::<O>(
                        shape0,
                        m_before,
                        data[i as int],
                        rate,
                        self.model(),
                    ));
                }
            }
            proof {
                assert(spec_train_example_rel::<O>(
                    shape0,
                    m_before,
                    data[i as int],
                    rate,
                    self.model(),
                ));
                lemma_train_rel_snoc::<O>(
                    shape0,
                    m0,
                    data,
                    rate,
                    i as int,
                    m_before,
                    self.model(),
                );
            }
            i += 1;
        }
        proof {
            assert(data.take(data.len() as int) =~= data);
        }
    }

    /// Runs [`Network::train`] `iterations` times. When a report interval
    /// is given, the average testing cost is collected before the first
    /// iteration and at every iteration whose index is a multiple of the
    /// interval, and — as the recovery rule — whenever a collected cost
    /// vector's first component is non-finite, every parameter is
    /// re-randomized from the construction ranges. The collected vectors
    /// are returned, in order, for the caller to report.
    pub fn train_loop<O: ScalarOps, S: ScalarSampler, F: NetworkFood>(
        &mut self,
        food: &F,
        rate: u64,
        used_data_fraction: u64,
        iterations: usize,
        iteration_per_cost_print: Option<usize>,
        sampler: &mut S,
    ) -> (reports: Vec<Vec<u64>>)
        requires
            old(self).wf(),
            forall|i: int| 0 <= i < food.spec_training().len() ==> (
            #[trigger] food.spec_training()[i]).0.len() == old(self).shape@[0]
                && food.spec_training()[i].1.len() == old(self).spec_output_len(),
            forall|i: int| 0 <= i < food.spec_testing().len() ==> (
            #[trigger] food.spec_testing()[i]).0.len() == old(self).shape@[0]
                && food.spec_testing()[i].1.len() == old(self).spec_output_len(),
            iteration_per_cost_print matches Some(g) ==> g > 0,
        ensures
            final(self).wf(),
            final(self).shape@ == old(self).shape@,
            final(self).weights_range == old(self).weights_range,
            final(self).biases_range == old(self).biases_range,
            forall|i: int| 0 <= i < reports@.len() ==> (#[trigger] reports@[i])@.len() == old(
                self,
            ).spec_output_len(),
            iteration_per_cost_print is None ==> reports@.len() == 0,
            iteration_per_cost_print is Some ==> reports@.len() >= 1 && reports@[0]@
                == spec_average_cost::<O>(
                old(self).model(),
                old(self).spec_output_len(),
                food.spec_testing(),
            ),
            spec_train_loop_rel::<O>(
                old(self).shape@,
                old(self).model(),
                food.spec_training(),
                food.spec_testing(),
                rate,
                old(self).spec_output_len(),
                iterations as nat,
                iteration_per_cost_print,
                final(self).model(),
            ),
    {
        let ghost outlen = old(self).spec_output_len();
        let ghost shape0 = old(self).shape@;
        let ghost m0 = old(self).model();
        let ghost training0 = food.spec_training();
        let ghost testing0 = food.spec_testing();
        let mut reports: Vec<Vec<u64>> = Vec::new();
        if iteration_per_cost_print.is_some() {
            let initial_report: Vec<u64> = self.test::<O, F>(food);
            reports.push(initial_report);
        }
        let mut i: usize = 0;
        while i < iterations
            invariant
                self.wf(),
                self.shape@ == old(self).shape@,
                self.weights_range == old(self).weights_range,
                self.biases_range == old(self).biases_range,
                forall|k: int| 0 <= k < food.spec_training().len() ==> (
                #[trigger] food.spec_training()[k]).0.len() == self.shape@[0]
                    && food.spec_training()[k].1.len() == self.spec_output_len(),
                forall|k: int| 0 <= k < food.spec_testing().len() ==> (
                #[trigger] food.spec_testing()[k]).0.len() == self.shape@[0]
                    && food.spec_testing()[k].1.len() == self.spec_output_len(),
                iteration_per_cost_print matches Some(g) ==> g > 0,
                outlen == self.spec_output_len(),
                forall|k: int| 0 <= k < reports@.len() ==> (#[trigger] reports@[k])@.len()
                    == outlen,
                iteration_per_cost_print is None ==> reports@.len() == 0,
                iteration_per_cost_print is Some ==> reports@.len() >= 1 && reports@[0]@
                    == spec_average_cost::<O>(old(self).model(), outlen, food.spec_testing()),
                0 <= i <= iterations,
                shape0 == old(self).shape@,
                m0 == old(self).model(),
                training0 == food.spec_training(),
                testing0 == food.spec_testing(),
                spec_train_loop_rel::<O>(
                    shape0,
                    m0,
                    training0,
                    testing0,
                    rate,
                    outlen,
                    i as nat,
                    iteration_per_cost_print,
                    self.model(),
                ),
            decreases iterations - i,
        {
            let ghost m_start = self.model();
            self.train::<O, S, F>(food, rate, used_data_fraction, sampler);
            let ghost m_mid = self.model();
            if let Some(gens) = iteration_per_cost_print {
                if i % gens == 0 {
                    let test_results: Vec<u64> = self.test::<O, F>(food);
                    if !is_finite(test_results[0]) {
                        let wr: (u64, u64) = self.weights_range;
                        let br: (u64, u64) = self.biases_range;
                        self.randomize(wr, br, sampler);
                        proof {
                            let m_new = self.model();
                            assert(spec_model_fits(shape0, m_new)) by {
                                assert forall|l: int, n: int|
                                    0 <= l < m_new.len() && 0 <= n < m_new[l].0.len() implies (
                                #[trigger] m_new[l].0[n]).len() == shape0[l] by {
                                    assert(m_new[l].0[n] == self.layers@[l].ws()[n]);
                                }
                            }
                        }
                    }
                    reports.push(test_results);
                }
            }
            proof {
                assert(spec_train_rel::<O>(shape0, m_start, training0, rate, m_mid));
                assert(spec_loop_iter_rel::<O>(
                    shape0,
                    m_start,
                    training0,
                    testing0,
                    rate,
                    outlen,
                    spec_reporting_at(i as int, iteration_per_cost_print),
                    self.model(),
                ));
                lemma_train_loop_rel_snoc::<O>(
                    shape0,
                    m0,
                    training0,
                    testing0,
                    rate,
                    outlen,
                    i as nat,
                    iteration_per_cost_print,
                    m_start,
                    self.model(),
                );
                assert((i as nat + 1) as nat == (i + 1) as nat);
            }
            i += 1;
        }
        reports
    }
}

} // verus!
