//! Round-trip and layout tests of the two persistence formats, run with
//! a native double-precision scalar implementation.

use neurnet::files::read_dset_file;
use neurnet::files::write_dset_file;
use neurnet::neur::parse_neur_file;
use neurnet::neur::write_neur_file;
use neurnet::neur::NeurError;
use neurnet::DataSet;
use neurnet::Layer;
use neurnet::Network;
use neurnet::NetworkFood;
use neurnet::ScalarOps;

/// Double-precision scalars with the identity activation.
struct PlainOps;

impl ScalarOps for PlainOps {
    fn add(a: u64, b: u64) -> u64 {
        (f64::from_bits(a) + f64::from_bits(b)).to_bits()
    }
    fn sub(a: u64, b: u64) -> u64 {
        (f64::from_bits(a) - f64::from_bits(b)).to_bits()
    }
    fn mul(a: u64, b: u64) -> u64 {
        (f64::from_bits(a) * f64::from_bits(b)).to_bits()
    }
    fn div(a: u64, b: u64) -> u64 {
        (f64::from_bits(a) / f64::from_bits(b)).to_bits()
    }
    fn lt(a: u64, b: u64) -> bool {
        f64::from_bits(a) < f64::from_bits(b)
    }
    fn of_count(n: usize) -> u64 {
        (n as f64).to_bits()
    }
    fn activation(x: u64) -> u64 {
        x
    }
    fn has_derivative() -> bool {
        false
    }
    fn derivative(x: u64) -> u64 {
        x
    }
    fn render(x: u64) -> Vec<u8> {
        f64::from_bits(x).to_string().into_bytes()
    }
    fn parse(s: &[u8]) -> Option<u64> {
        std::str::from_utf8(s).ok()?.parse::<f64>().ok().map(|f| f.to_bits())
    }
}

fn b(v: f64) -> u64 {
    v.to_bits()
}

fn fv(v: &[u64]) -> Vec<f64> {
    v.iter().map(|x| f64::from_bits(*x)).collect()
}

#[test]
fn neur_round_trip_one_two_one() {
    let nn = Network {
        shape: vec![1, 2, 1],
        layers: vec![
            Layer {
                weights: vec![vec![b(0.5)], vec![b(0.5)]],
                biases: vec![b(0.0), b(0.0)],
            },
            Layer { weights: vec![vec![b(0.5), b(0.5)]], biases: vec![b(0.0)] },
        ],
        weights_range: (b(0.0), b(0.0)),
        biases_range: (b(0.0), b(0.0)),
    };
    let text = nn.save::<PlainOps>();
    assert_eq!(
        String::from_utf8(text.clone()).unwrap(),
        "[1,2,1],[[[0.5],[0.5]],[[0.5,0.5]]],[[0,0],[0]]"
    );
    let loaded = Network::load::<PlainOps>(&text).unwrap();
    assert_eq!(loaded.get_shape(), &vec![1, 2, 1]);
    for l in 0..2 {
        let layer = &loaded.get_layers()[l];
        for n in 0..layer.len() {
            assert_eq!(loaded.get_bias(l, n), Some(b(0.0)));
            for w in 0..layer.prev_layer_len() {
                assert_eq!(loaded.get_weight(l, n, w), Some(b(0.5)));
            }
        }
    }
}

#[test]
fn neur_round_trip_arbitrary_values() {
    let nn = Network {
        shape: vec![2, 2],
        layers: vec![Layer {
            weights: vec![vec![b(1.25), b(-3.5)], vec![b(0.1), b(1e-7)]],
            biases: vec![b(-0.75), b(42.0)],
        }],
        weights_range: (b(0.0), b(0.0)),
        biases_range: (b(0.0), b(0.0)),
    };
    let text = nn.save::<PlainOps>();
    let loaded = Network::load::<PlainOps>(&text).unwrap();
    assert_eq!(loaded.get_shape(), &vec![2, 2]);
    assert_eq!(loaded.get_weight(0, 0, 0), Some(b(1.25)));
    assert_eq!(loaded.get_weight(0, 0, 1), Some(b(-3.5)));
    assert_eq!(loaded.get_weight(0, 1, 0), Some(b(0.1)));
    assert_eq!(loaded.get_weight(0, 1, 1), Some(b(1e-7)));
    assert_eq!(loaded.get_bias(0, 0), Some(b(-0.75)));
    assert_eq!(loaded.get_bias(0, 1), Some(b(42.0)));
}

#[test]
fn neur_parse_tolerates_whitespace_and_trailing_comma() {
    let text = b"[1, 1],\n[[[2.5]]],\n[[0.5]],".to_vec();
    let parsed = parse_neur_file::<PlainOps>(&text).unwrap();
    assert_eq!(parsed.0, vec![1, 1]);
    assert_eq!(fv(&parsed.1[0][0]), vec![2.5]);
    assert_eq!(fv(&parsed.2[0]), vec![0.5]);
}

#[test]
fn neur_parse_empty_document() {
    assert_eq!(parse_neur_file::<PlainOps>(&b" \n ".to_vec()), Err(NeurError::Empty));
    assert_eq!(parse_neur_file::<PlainOps>(&Vec::new()), Err(NeurError::Empty));
}

#[test]
fn neur_parse_missing_sections() {
    assert_eq!(
        parse_neur_file::<PlainOps>(&b"[1],[[[1.0]]]".to_vec()),
        Err(NeurError::MissingSections)
    );
}

#[test]
fn neur_parse_bad_integer() {
    assert_eq!(
        parse_neur_file::<PlainOps>(&b"[one],[[[1.0]]],[[0.0]]".to_vec()),
        Err(NeurError::BadInteger)
    );
}

#[test]
fn neur_parse_bad_scalar() {
    assert_eq!(
        parse_neur_file::<PlainOps>(&b"[1,1],[[[nope]]],[[0.0]]".to_vec()),
        Err(NeurError::BadScalar)
    );
    assert_eq!(
        parse_neur_file::<PlainOps>(&b"[1,1],[[[1.0]]],[[nope]]".to_vec()),
        Err(NeurError::BadScalar)
    );
}

#[test]
fn neur_load_rejects_mismatched_sections() {
    assert_eq!(
        Network::load::<PlainOps>(&b"[1,1],[],[]".to_vec()).err(),
        Some(NeurError::Inconsistent)
    );
    assert_eq!(
        Network::load::<PlainOps>(&b"[1,0],[[[1.0]]],[[0.0]]".to_vec()).err(),
        Some(NeurError::Inconsistent)
    );
}

#[test]
fn neur_write_free_function_matches_save() {
    let shape = vec![1usize, 1usize];
    let weights = vec![vec![vec![b(2.0)]]];
    let biases = vec![vec![b(3.0)]];
    let text = write_neur_file::<PlainOps>(&shape, &weights, &biases);
    assert_eq!(String::from_utf8(text).unwrap(), "[1,1],[[[2]]],[[3]]");
}

#[test]
fn dset_layout_exact_bytes() {
    let training = vec![(vec![b(1.0)], vec![b(2.0)])];
    let testing: Vec<(Vec<u64>, Vec<u64>)> = vec![];
    let bytes = write_dset_file(1, 0, 1, 1, &training, &testing);
    let mut expected: Vec<u8> = Vec::new();
    expected.extend_from_slice(&1u32.to_be_bytes());
    expected.extend_from_slice(&0u32.to_be_bytes());
    expected.extend_from_slice(&1u32.to_be_bytes());
    expected.extend_from_slice(&1u32.to_be_bytes());
    expected.extend_from_slice(&1.0f64.to_be_bytes());
    expected.extend_from_slice(&2.0f64.to_be_bytes());
    assert_eq!(bytes, expected);
}

#[test]
fn dset_header_decodes_declared_records() {
    let mut bytes: Vec<u8> = Vec::new();
    bytes.extend_from_slice(&1u32.to_be_bytes());
    bytes.extend_from_slice(&0u32.to_be_bytes());
    bytes.extend_from_slice(&1u32.to_be_bytes());
    bytes.extend_from_slice(&1u32.to_be_bytes());
    bytes.extend_from_slice(&1.0f64.to_be_bytes());
    bytes.extend_from_slice(&2.0f64.to_be_bytes());
    let ds = DataSet::load(&bytes).unwrap();
    let training = ds.grab_training_data();
    assert_eq!(training.len(), 1);
    assert_eq!(fv(&training[0].0), vec![1.0]);
    assert_eq!(fv(&training[0].1), vec![2.0]);
    assert_eq!(ds.grab_testing_data().len(), 0);
}

#[test]
fn dset_round_trip_preserves_order() {
    let ds = DataSet::new(
        vec![
            (vec![b(1.0), b(2.0)], vec![b(3.0)]),
            (vec![b(-4.0), b(5.5)], vec![b(0.25)]),
        ],
        vec![(vec![b(9.0), b(8.0)], vec![b(7.0)])],
    );
    let bytes = ds.save().unwrap();
    let loaded = DataSet::load(&bytes).unwrap();
    assert_eq!(loaded.grab_training_data(), ds.grab_training_data());
    assert_eq!(loaded.grab_testing_data(), ds.grab_testing_data());
}

#[test]
fn dset_save_requires_training_example() {
    let ds = DataSet::empty();
    assert!(ds.save().is_none());
}

#[test]
fn dset_load_rejects_truncated_stream() {
    assert!(DataSet::load(&vec![0u8; 10]).is_none());
    let mut bytes: Vec<u8> = Vec::new();
    bytes.extend_from_slice(&2u32.to_be_bytes());
    bytes.extend_from_slice(&0u32.to_be_bytes());
    bytes.extend_from_slice(&1u32.to_be_bytes());
    bytes.extend_from_slice(&1u32.to_be_bytes());
    bytes.extend_from_slice(&1.0f64.to_be_bytes());
    bytes.extend_from_slice(&2.0f64.to_be_bytes());
    // The header declares two records but only one is present.
    assert!(DataSet::load(&bytes).is_none());
    assert!(read_dset_file(&bytes).is_none());
}

#[test]
fn dset_ignores_trailing_bytes() {
    let training = vec![(vec![b(1.0)], vec![b(2.0)])];
    let testing: Vec<(Vec<u64>, Vec<u64>)> = vec![];
    let mut bytes = write_dset_file(1, 0, 1, 1, &training, &testing);
    bytes.push(0xFF);
    let ds = DataSet::load(&bytes).unwrap();
    assert_eq!(ds.grab_training_data().len(), 1);
}

#[test]
fn neur_parse_strips_whitespace_inside_literals() {
    // Whitespace is removed before anything is read, so a literal may
    // even be split by spaces.
    let text = b"[1,1],[[[0 . 5]]],[[0\n.5]]".to_vec();
    let parsed = parse_neur_file::<PlainOps>(&text).unwrap();
    assert_eq!(fv(&parsed.1[0][0]), vec![0.5]);
    assert_eq!(fv(&parsed.2[0]), vec![0.5]);
}

#[test]
fn neur_parse_tolerates_inner_trailing_comma() {
    let text = b"[1,1,],[[[2.5,]]],[[0.5,]]".to_vec();
    let parsed = parse_neur_file::<PlainOps>(&text).unwrap();
    assert_eq!(parsed.0, vec![1, 1]);
    assert_eq!(fv(&parsed.1[0][0]), vec![2.5]);
    assert_eq!(fv(&parsed.2[0]), vec![0.5]);
}

#[test]
fn neur_parse_rejects_oversized_integer() {
    assert_eq!(
        parse_neur_file::<PlainOps>(&b"[99999999999999999999999],[[[1.0]]],[[0.0]]".to_vec()),
        Err(NeurError::BadInteger)
    );
}
