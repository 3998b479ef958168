//! Behavioral tests of the network model and the training engine, run
//! with a native double-precision scalar implementation.

use neurnet::DataSet;
use neurnet::Layer;
use neurnet::Network;
use neurnet::NetworkFood;
use neurnet::ScalarOps;
use neurnet::ScalarSampler;

/// Double-precision scalars with the identity activation.
struct IdentityOps;

impl ScalarOps for IdentityOps {
    fn add(a: u64, b: u64) -> u64 {
        (f64::from_bits(a) + f64::from_bits(b)).to_bits()
    }
    fn sub(a: u64, b: u64) -> u64 {
        (f64::from_bits(a) - f64::from_bits(b)).to_bits()
    }
    fn mul(a: u64, b: u64) -> u64 {
        (f64::from_bits(a) * f64::from_bits(b)).to_bits()
    }
    fn div(a: u64, b: u64) -> u64 {
        (f64::from_bits(a) / f64::from_bits(b)).to_bits()
    }
    fn lt(a: u64, b: u64) -> bool {
        f64::from_bits(a) < f64::from_bits(b)
    }
    fn of_count(n: usize) -> u64 {
        (n as f64).to_bits()
    }
    fn activation(x: u64) -> u64 {
        x
    }
    fn has_derivative() -> bool {
        false
    }
    fn derivative(x: u64) -> u64 {
        x
    }
    fn render(x: u64) -> Vec<u8> {
        f64::from_bits(x).to_string().into_bytes()
    }
    fn parse(s: &[u8]) -> Option<u64> {
        std::str::from_utf8(s).ok()?.parse::<f64>().ok().map(|f| f.to_bits())
    }
}

/// Double-precision scalars with a squaring activation and its analytic
/// derivative.
struct SquareOps;

impl ScalarOps for SquareOps {
    fn add(a: u64, b: u64) -> u64 {
        (f64::from_bits(a) + f64::from_bits(b)).to_bits()
    }
    fn sub(a: u64, b: u64) -> u64 {
        (f64::from_bits(a) - f64::from_bits(b)).to_bits()
    }
    fn mul(a: u64, b: u64) -> u64 {
        (f64::from_bits(a) * f64::from_bits(b)).to_bits()
    }
    fn div(a: u64, b: u64) -> u64 {
        (f64::from_bits(a) / f64::from_bits(b)).to_bits()
    }
    fn lt(a: u64, b: u64) -> bool {
        f64::from_bits(a) < f64::from_bits(b)
    }
    fn of_count(n: usize) -> u64 {
        (n as f64).to_bits()
    }
    fn activation(x: u64) -> u64 {
        let v = f64::from_bits(x);
        (v * v).to_bits()
    }
    fn has_derivative() -> bool {
        true
    }
    fn derivative(x: u64) -> u64 {
        (2.0 * f64::from_bits(x)).to_bits()
    }
    fn render(x: u64) -> Vec<u8> {
        f64::from_bits(x).to_string().into_bytes()
    }
    fn parse(s: &[u8]) -> Option<u64> {
        std::str::from_utf8(s).ok()?.parse::<f64>().ok().map(|f| f.to_bits())
    }
}

/// A small deterministic generator of unit-interval draws.
struct Lcg(u64);

impl ScalarSampler for Lcg {
    fn sample_unit(&mut self) -> u64 {
        self.0 = self.0.wrapping_mul(6364136223846793005).wrapping_add(1442695040888963407);
        let u = (self.0 >> 11) as f64 / (1u64 << 53) as f64;
        u.to_bits()
    }
    fn sample_range(&mut self, lo: u64, hi: u64) -> u64 {
        let u = f64::from_bits(self.sample_unit());
        let lo = f64::from_bits(lo);
        let hi = f64::from_bits(hi);
        (lo + u * (hi - lo)).to_bits()
    }
}

fn bits(v: f64) -> u64 {
    v.to_bits()
}

fn vals(v: &[u64]) -> Vec<f64> {
    v.iter().map(|x| f64::from_bits(*x)).collect()
}

fn one_one_network(weight: f64, bias: f64) -> Network {
    Network {
        shape: vec![1, 1],
        layers: vec![Layer { weights: vec![vec![bits(weight)]], biases: vec![bits(bias)] }],
        weights_range: (bits(-2.0), bits(2.0)),
        biases_range: (bits(-5.0), bits(5.0)),
    }
}

#[test]
fn shape_invariant_after_construction() {
    let mut sampler = Lcg(7);
    let nn = Network::new::<IdentityOps, Lcg>(
        vec![2, 5, 3],
        (bits(-2.0), bits(2.0)),
        (bits(-5.0), bits(5.0)),
        &mut sampler,
    );
    assert_eq!(nn.get_shape(), &vec![2, 5, 3]);
    let layers = nn.get_layers();
    assert_eq!(layers.len(), 2);
    assert_eq!(layers[0].len(), 5);
    assert_eq!(layers[0].prev_layer_len(), 2);
    assert_eq!(layers[1].len(), 3);
    assert_eq!(layers[1].prev_layer_len(), 5);
}

#[test]
fn shape_invariant_after_randomize() {
    let mut sampler = Lcg(99);
    let mut nn = Network::new::<IdentityOps, Lcg>(
        vec![3, 4, 2],
        (bits(-2.0), bits(2.0)),
        (bits(-5.0), bits(5.0)),
        &mut sampler,
    );
    nn.randomize((bits(-1.0), bits(1.0)), (bits(-1.0), bits(1.0)), &mut sampler);
    let layers = nn.get_layers();
    assert_eq!(layers.len(), 2);
    assert_eq!(layers[0].len(), 4);
    assert_eq!(layers[0].prev_layer_len(), 3);
    assert_eq!(layers[1].len(), 2);
    assert_eq!(layers[1].prev_layer_len(), 4);
}

#[test]
fn pulse_identity_single_neuron() {
    let nn = one_one_network(1.0, 0.0);
    let out = nn.pulse::<IdentityOps>(vec![bits(1.0)]);
    assert_eq!(vals(&out), vec![1.0]);
}

#[test]
fn pulse_is_deterministic() {
    let mut sampler = Lcg(1234);
    let nn = Network::new::<IdentityOps, Lcg>(
        vec![2, 4, 2],
        (bits(-2.0), bits(2.0)),
        (bits(-5.0), bits(5.0)),
        &mut sampler,
    );
    let a = nn.pulse::<IdentityOps>(vec![bits(0.5), bits(-1.25)]);
    let b = nn.pulse::<IdentityOps>(vec![bits(0.5), bits(-1.25)]);
    assert_eq!(a, b);
}

#[test]
fn pulse_weighted_sum_and_bias() {
    let nn = Network {
        shape: vec![2, 1],
        layers: vec![Layer {
            weights: vec![vec![bits(2.0), bits(3.0)]],
            biases: vec![bits(0.5)],
        }],
        weights_range: (bits(0.0), bits(0.0)),
        biases_range: (bits(0.0), bits(0.0)),
    };
    let out = nn.pulse::<IdentityOps>(vec![bits(1.0), bits(2.0)]);
    assert_eq!(vals(&out), vec![1.0 * 2.0 + 2.0 * 3.0 + 0.5]);
}

#[test]
fn pulse_applies_activation() {
    let nn = one_one_network(1.0, 1.0);
    let out = nn.pulse::<SquareOps>(vec![bits(2.0)]);
    assert_eq!(vals(&out), vec![9.0]);
}

#[test]
fn cost_of_perfect_example_is_zero() {
    let nn = one_one_network(1.0, 0.0);
    let cost = nn.test_point::<IdentityOps>(&(vec![bits(1.0)], vec![bits(1.0)]));
    assert_eq!(vals(&cost), vec![0.0]);
}

#[test]
fn cost_is_squared_error_and_non_negative() {
    let nn = one_one_network(1.0, 0.0);
    let cost = nn.test_point::<IdentityOps>(&(vec![bits(2.0)], vec![bits(-1.0)]));
    assert_eq!(vals(&cost), vec![9.0]);
    let cost2 = nn.test_point::<IdentityOps>(&(vec![bits(-3.0)], vec![bits(1.0)]));
    assert!(vals(&cost2)[0] >= 0.0);
    let cost3 = nn.test_point::<IdentityOps>(&(vec![bits(0.25)], vec![bits(0.75)]));
    assert!(vals(&cost3)[0] >= 0.0);
    assert_eq!(vals(&cost3), vec![0.25]);
}

#[test]
fn average_cost_over_testing_data() {
    let nn = one_one_network(1.0, 0.0);
    let ds = DataSet::new(
        vec![],
        vec![
            (vec![bits(1.0)], vec![bits(1.0)]),
            (vec![bits(2.0)], vec![bits(0.0)]),
        ],
    );
    let avg = nn.test::<IdentityOps, DataSet>(&ds);
    assert_eq!(vals(&avg), vec![(0.0 + 4.0) / 2.0]);
}

#[test]
fn parameter_getters_and_setters() {
    let mut nn = one_one_network(1.0, 0.0);
    assert_eq!(nn.get_weight(0, 0, 0), Some(bits(1.0)));
    assert_eq!(nn.get_bias(0, 0), Some(bits(0.0)));
    nn.set_weight(0, 0, 0, bits(0.25));
    nn.set_bias(0, 0, bits(-0.5));
    assert_eq!(nn.get_weight(0, 0, 0), Some(bits(0.25)));
    assert_eq!(nn.get_bias(0, 0), Some(bits(-0.5)));
    assert_eq!(nn.get_weight(1, 0, 0), None);
    assert_eq!(nn.get_weight(0, 1, 0), None);
    assert_eq!(nn.get_weight(0, 0, 1), None);
    assert_eq!(nn.get_bias(0, 7), None);
}

#[test]
fn activation_derivative_numeric_when_absent() {
    let nn = one_one_network(1.0, 0.0);
    let d = f64::from_bits(nn.get_activation_der::<IdentityOps>(bits(3.0)));
    assert!((d - 1.0).abs() < 1e-6);
}

#[test]
fn activation_derivative_analytic_when_supplied() {
    let nn = one_one_network(1.0, 0.0);
    let d = f64::from_bits(nn.get_activation_der::<SquareOps>(bits(3.0)));
    assert_eq!(d, 6.0);
}

#[test]
fn train_step_reduces_error_on_simple_target() {
    let mut nn = one_one_network(0.0, 0.0);
    let ds = DataSet::new(
        vec![(vec![bits(1.0)], vec![bits(1.0)])],
        vec![(vec![bits(1.0)], vec![bits(1.0)])],
    );
    let mut sampler = Lcg(5);
    let before = vals(&nn.test::<IdentityOps, DataSet>(&ds))[0];
    for _ in 0..1000 {
        nn.train::<IdentityOps, Lcg, DataSet>(&ds, bits(0.05), bits(1.0), &mut sampler);
    }
    let after = vals(&nn.test::<IdentityOps, DataSet>(&ds))[0];
    assert!(after <= before);
    assert!(after < 0.01);
}

#[test]
fn train_loop_collects_reports() {
    let mut nn = one_one_network(0.0, 0.0);
    let ds = DataSet::new(
        vec![(vec![bits(2.0)], vec![bits(1.0)])],
        vec![(vec![bits(2.0)], vec![bits(1.0)])],
    );
    let mut sampler = Lcg(5);
    let reports = nn.train_loop::<IdentityOps, Lcg, DataSet>(
        &ds,
        bits(0.01),
        bits(1.0),
        20,
        Some(10),
        &mut sampler,
    );
    // One initial report, then one at iterations 0 and 10.
    assert_eq!(reports.len(), 3);
    for r in &reports {
        assert_eq!(r.len(), 1);
    }
    let first = vals(&reports[0])[0];
    let last = vals(&reports[reports.len() - 1])[0];
    assert!(last <= first);
}

#[test]
fn train_with_zero_fraction_changes_nothing() {
    let mut nn = one_one_network(0.75, 0.25);
    let ds = DataSet::new(
        vec![(vec![bits(1.0)], vec![bits(1.0)])],
        vec![(vec![bits(1.0)], vec![bits(1.0)])],
    );
    let mut sampler = Lcg(5);
    nn.train::<IdentityOps, Lcg, DataSet>(&ds, bits(0.05), bits(0.0), &mut sampler);
    assert_eq!(nn.get_weight(0, 0, 0), Some(bits(0.75)));
    assert_eq!(nn.get_bias(0, 0), Some(bits(0.25)));
}

#[test]
fn dataset_push_and_generate() {
    let mut ds = DataSet::empty();
    assert_eq!(ds.grab_training_data().len(), 0);
    assert_eq!(ds.grab_testing_data().len(), 0);
    ds.push_training_point((vec![bits(1.0)], vec![bits(2.0)]));
    ds.push_testing_point((vec![bits(3.0)], vec![bits(4.0)]));
    assert_eq!(ds.grab_training_data().len(), 1);
    assert_eq!(ds.grab_testing_data().len(), 1);
    assert_eq!(vals(&ds.grab_training_data()[0].1), vec![2.0]);

    let gen = DataSet::gen_from_fn(
        |x: Vec<u64>| vec![(0.5 * f64::from_bits(x[0])).to_bits()],
        vec![vec![bits(2.0)], vec![bits(4.0)]],
        vec![vec![bits(6.0)]],
    );
    let training = gen.grab_training_data();
    assert_eq!(training.len(), 2);
    assert_eq!(vals(&training[0].0), vec![2.0]);
    assert_eq!(vals(&training[0].1), vec![1.0]);
    assert_eq!(vals(&training[1].1), vec![2.0]);
    let testing = gen.grab_testing_data();
    assert_eq!(testing.len(), 1);
    assert_eq!(vals(&testing[0].1), vec![3.0]);
}

#[test]
fn average_cost_of_empty_testing_set_is_undefined_number() {
    let nn = one_one_network(1.0, 0.0);
    let ds = DataSet::empty();
    let avg = nn.test::<IdentityOps, DataSet>(&ds);
    // Zero totals divided by a zero count: every component is NaN.
    assert_eq!(avg.len(), 1);
    assert!(vals(&avg)[0].is_nan());
}

#[test]
fn layer_pulse_matches_network_pulse() {
    let layer = Layer { weights: vec![vec![bits(2.0), bits(3.0)]], biases: vec![bits(0.5)] };
    let out = layer.pulse::<IdentityOps>(vec![bits(1.0), bits(2.0)]);
    assert_eq!(vals(&out), vec![8.5]);
    let layer2 = Layer::new::<IdentityOps>(2, 3);
    assert_eq!(layer2.len(), 2);
    assert_eq!(layer2.prev_layer_len(), 3);
    assert_eq!(layer2.get_weight(0, 0), Some(bits(1.0)));
    assert_eq!(layer2.get_bias(1), Some(bits(0.0)));
    assert_eq!(layer2.get_weight(2, 0), None);
    assert_eq!(layer2.get_bias(2), None);
}
