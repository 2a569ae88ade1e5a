//! The save codec: exact round trips and rejection of malformed payloads.

use neuroevolution::brain::NeuralNetwork;
use neuroevolution::codec::{deserialize, serialize};
use neuroevolution::errors::SaveError;

fn draws(n: usize) -> Vec<u32> {
    (0..n).map(|_| (rand::random::<f32>() * 2.0 - 1.0).to_bits()).collect()
}

fn total_params(sizes: &[usize]) -> usize {
    let mut total = 0;
    for k in 0..sizes.len() - 1 {
        total += sizes[k] * sizes[k + 1] + sizes[k + 1];
    }
    total
}

fn flat_params(net: &NeuralNetwork) -> Vec<u32> {
    let mut out = Vec::new();
    for level in &net.levels {
        for i in 0..level.weights.len() {
            for j in 0..level.outputs.len() {
                out.push(level.weights[i][j]);
            }
        }
        for j in 0..level.biases.len() {
            out.push(level.biases[j]);
        }
    }
    out
}

fn token_line(v: u64) -> String {
    format!("{:020}\n", v)
}

fn payload(tokens: &[u64]) -> Vec<u8> {
    let mut text = String::new();
    for &t in tokens {
        text.push_str(&token_line(t));
    }
    text.into_bytes()
}

#[test]
fn round_trip_reproduces_network_exactly() {
    let sizes = vec![3usize, 6, 1];
    let mut net = NeuralNetwork::new(&sizes, &draws(total_params(&sizes))).unwrap();
    // Give the caches non-trivial content so the round trip covers them.
    let inputs = vec![0.25f32.to_bits(), (-0.75f32).to_bits(), 0.5f32.to_bits()];
    let sums = vec![vec![0u32; 6], vec![0u32; 1]];
    let _ = net.feed_forward(inputs, &sums);
    let text = serialize(&net);
    let back = deserialize(&text).unwrap();
    assert_eq!(flat_params(&back), flat_params(&net));
    assert_eq!(back.levels.len(), net.levels.len());
    for k in 0..net.levels.len() {
        assert_eq!(back.levels[k].inputs, net.levels[k].inputs);
        assert_eq!(back.levels[k].outputs, net.levels[k].outputs);
        assert_eq!(back.levels[k].biases, net.levels[k].biases);
        assert_eq!(back.levels[k].weights, net.levels[k].weights);
    }
    // Re-serializing the reconstruction gives the identical text.
    assert_eq!(serialize(&back), text);
}

#[test]
fn handcrafted_single_level_payload_decodes() {
    // One level of one input and one output: count, then (in, out), then
    // the cached input, cached output, bias and weight patterns.
    let weight = 0.5f32.to_bits() as u64;
    let bias = 0.25f32.to_bits() as u64;
    let tokens = vec![1u64, 1, 1, 0, 0, bias, weight];
    let net = deserialize(&payload(&tokens)).unwrap();
    assert_eq!(net.levels.len(), 1);
    assert_eq!(f32::from_bits(net.levels[0].weights[0][0]), 0.5);
    assert_eq!(f32::from_bits(net.levels[0].biases[0]), 0.25);
}

#[test]
fn unparseable_text_is_malformed() {
    let junk = b"not a save".to_vec();
    assert!(matches!(deserialize(&junk), Err(SaveError::MalformedSaveData)));
    let empty: Vec<u8> = Vec::new();
    assert!(matches!(deserialize(&empty), Err(SaveError::MalformedSaveData)));
}

#[test]
fn truncated_payload_is_malformed() {
    let sizes = vec![2usize, 1];
    let net = NeuralNetwork::new(&sizes, &draws(total_params(&sizes))).unwrap();
    let mut text = serialize(&net);
    text.truncate(text.len() - 5);
    assert!(matches!(deserialize(&text), Err(SaveError::MalformedSaveData)));
}

#[test]
fn ragged_shape_is_malformed() {
    // Claims one level of two inputs and one output but carries too few
    // parameter tokens.
    let tokens = vec![1u64, 2, 1, 0, 0, 0];
    assert!(matches!(deserialize(&payload(&tokens)), Err(SaveError::MalformedSaveData)));
}

#[test]
fn broken_chain_is_malformed() {
    // Two levels whose counts do not chain: the first produces one value,
    // the second claims three inputs.
    let tokens = vec![
        2u64,
        1, 1, 0, 0, 0, 0,
        3, 1, 0, 0, 0, 0, 0, 0, 0,
    ];
    assert!(matches!(deserialize(&payload(&tokens)), Err(SaveError::MalformedSaveData)));
}

#[test]
fn zero_level_count_is_malformed() {
    let tokens = vec![0u64];
    assert!(matches!(deserialize(&payload(&tokens)), Err(SaveError::MalformedSaveData)));
}

#[test]
fn zero_sized_layer_is_malformed() {
    let tokens = vec![1u64, 0, 1];
    assert!(matches!(deserialize(&payload(&tokens)), Err(SaveError::MalformedSaveData)));
}

#[test]
fn out_of_range_parameter_is_malformed() {
    // The weight token exceeds any 32-bit pattern.
    let tokens = vec![1u64, 1, 1, 0, 0, 0, 0x1_0000_0000];
    assert!(matches!(deserialize(&payload(&tokens)), Err(SaveError::MalformedSaveData)));
}

#[test]
fn trailing_tokens_are_malformed() {
    let sizes = vec![2usize, 1];
    let net = NeuralNetwork::new(&sizes, &draws(total_params(&sizes))).unwrap();
    let mut text = serialize(&net);
    text.extend_from_slice(token_line(7).as_bytes());
    assert!(matches!(deserialize(&text), Err(SaveError::MalformedSaveData)));
}

#[test]
fn non_digit_token_is_malformed() {
    let sizes = vec![2usize, 1];
    let net = NeuralNetwork::new(&sizes, &draws(total_params(&sizes))).unwrap();
    let mut text = serialize(&net);
    text[0] = b'x';
    assert!(matches!(deserialize(&text), Err(SaveError::MalformedSaveData)));
}
