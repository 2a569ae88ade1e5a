//! Behavior of levels, networks, the ledger and spawning, driven the way a
//! host drives them: the test computes the floating-point sums, draws and
//! interpolations and hands the library their bit patterns.

use neuroevolution::bits::{step_activation, ONE_BITS, ZERO_BITS};
use neuroevolution::brain::{triggers_jump, NeuralNetwork};
use neuroevolution::errors::TopologyError;
use neuroevolution::evolution::{spawn_from_seed, spawn_fresh};
use neuroevolution::generation::Generation;
use neuroevolution::level::Level;

fn draw_unit() -> u32 {
    (rand::random::<f32>() * 2.0 - 1.0).to_bits()
}

fn draws(n: usize) -> Vec<u32> {
    (0..n).map(|_| draw_unit()).collect()
}

fn total_params(sizes: &[usize]) -> usize {
    let mut total = 0;
    for k in 0..sizes.len() - 1 {
        total += sizes[k] * sizes[k + 1] + sizes[k + 1];
    }
    total
}

fn level_sums(level: &Level, inputs: &[u32]) -> Vec<u32> {
    let mut sums = Vec::new();
    for j in 0..level.outputs.len() {
        let mut s = 0.0f32;
        for i in 0..inputs.len() {
            s += f32::from_bits(inputs[i]) * f32::from_bits(level.weights[i][j]);
        }
        sums.push(s.to_bits());
    }
    sums
}

fn network_sums(net: &NeuralNetwork, inputs: &[u32]) -> Vec<Vec<u32>> {
    let mut current = inputs.to_vec();
    let mut all = Vec::new();
    for level in &net.levels {
        let sums = level_sums(level, &current);
        let mut outs = Vec::new();
        for j in 0..sums.len() {
            let s = f32::from_bits(sums[j]);
            let b = f32::from_bits(level.biases[j]);
            outs.push(if s > b { ONE_BITS } else { ZERO_BITS });
        }
        all.push(sums);
        current = outs;
    }
    all
}

fn lerp(v0: f32, v1: f32, t: f32) -> f32 {
    (1.0 - t) * v0 + t * v1
}

fn flat_params(net: &NeuralNetwork) -> Vec<u32> {
    let mut out = Vec::new();
    for level in &net.levels {
        for i in 0..level.weights.len() {
            for j in 0..level.outputs.len() {
                out.push(level.weights[i][j]);
            }
        }
        for j in 0..level.biases.len() {
            out.push(level.biases[j]);
        }
    }
    out
}

fn interpolated_params(net: &NeuralNetwork, amount: f32, fresh: &[u32]) -> Vec<u32> {
    let current = flat_params(net);
    let mut out = Vec::new();
    for k in 0..current.len() {
        out.push(lerp(f32::from_bits(current[k]), f32::from_bits(fresh[k]), amount).to_bits());
    }
    out
}

#[test]
fn level_new_shapes_and_unit_range() {
    let params = draws(4 * 3 + 3);
    let level = Level::new(4, 3, &params).unwrap();
    assert_eq!(level.weights.len(), 4);
    for row in &level.weights {
        assert_eq!(row.len(), 3);
    }
    assert_eq!(level.biases.len(), 3);
    assert_eq!(level.inputs.len(), 4);
    assert_eq!(level.outputs.len(), 3);
    for i in 0..4 {
        for j in 0..3 {
            let w = f32::from_bits(level.weights[i][j]);
            assert!((-1.0..=1.0).contains(&w));
            assert_eq!(level.weights[i][j], params[i * 3 + j]);
        }
    }
    for j in 0..3 {
        let b = f32::from_bits(level.biases[j]);
        assert!((-1.0..=1.0).contains(&b));
        assert_eq!(level.biases[j], params[12 + j]);
    }
    for &v in level.inputs.iter().chain(level.outputs.iter()) {
        assert_eq!(v, ZERO_BITS);
    }
}

#[test]
fn level_new_rejects_degenerate_shape() {
    assert!(matches!(Level::new(0, 3, &draws(3)), Err(TopologyError)));
    assert!(matches!(Level::new(3, 0, &Vec::new()), Err(TopologyError)));
}

#[test]
fn feed_forward_output_length_matches() {
    let params = draws(total_params(&[5, 2]));
    let mut level = Level::new(5, 2, &params).unwrap();
    let inputs = vec![0.3f32.to_bits(), 0.1f32.to_bits(), 0.9f32.to_bits(), 0u32, 0.5f32.to_bits()];
    let sums = level_sums(&level, &inputs);
    let out = level.feed_forward(inputs.clone(), &sums);
    assert_eq!(out.len(), 2);
    assert_eq!(level.inputs, inputs);
    assert_eq!(level.outputs, out);
}

#[test]
fn step_tie_resolves_low() {
    // One weight of exactly 1.0 and a bias of exactly 0.5: the input 0.5
    // gives the sum 0.5, which does not strictly exceed the bias, so the
    // output must be zero.
    let params = vec![1.0f32.to_bits(), 0.5f32.to_bits()];
    let mut level = Level::new(1, 1, &params).unwrap();
    let inputs = vec![0.5f32.to_bits()];
    let sums = level_sums(&level, &inputs);
    assert_eq!(f32::from_bits(sums[0]), 0.5);
    let out = level.feed_forward(inputs, &sums);
    assert_eq!(out, vec![ZERO_BITS]);
    assert_eq!(f32::from_bits(out[0]), 0.0);
}

#[test]
fn step_fires_above_bias() {
    let params = vec![1.0f32.to_bits(), 0.5f32.to_bits()];
    let mut level = Level::new(1, 1, &params).unwrap();
    let inputs = vec![0.75f32.to_bits()];
    let sums = level_sums(&level, &inputs);
    let out = level.feed_forward(inputs, &sums);
    assert_eq!(out, vec![ONE_BITS]);
    assert_eq!(f32::from_bits(out[0]), 1.0);
}

#[test]
fn mutate_zero_is_identity() {
    let sizes = vec![3usize, 6, 1];
    let mut net = NeuralNetwork::new(&sizes, &draws(total_params(&sizes))).unwrap();
    let before = flat_params(&net);
    let fresh = draws(before.len());
    let params = interpolated_params(&net, 0.0, &fresh);
    net.mutate(&params);
    assert_eq!(flat_params(&net), before);
}

#[test]
fn mutate_one_installs_fresh_draws() {
    let sizes = vec![3usize, 6, 1];
    let mut net = NeuralNetwork::new(&sizes, &draws(total_params(&sizes))).unwrap();
    let fresh = draws(flat_params(&net).len());
    let params = interpolated_params(&net, 1.0, &fresh);
    net.mutate(&params);
    let after = flat_params(&net);
    for k in 0..after.len() {
        assert_eq!(f32::from_bits(after[k]), f32::from_bits(fresh[k]));
    }
}

#[test]
fn network_composition_three_six_one() {
    let sizes = vec![3usize, 6, 1];
    let mut net = NeuralNetwork::new(&sizes, &draws(total_params(&sizes))).unwrap();
    assert_eq!(net.levels.len(), 2);
    assert_eq!(net.levels[0].weights.len(), 3);
    assert_eq!(net.levels[0].outputs.len(), 6);
    assert_eq!(net.levels[1].weights.len(), 6);
    assert_eq!(net.levels[1].outputs.len(), 1);
    let inputs = vec![0.25f32.to_bits(), (-0.5f32).to_bits(), 0.75f32.to_bits()];
    let sums = network_sums(&net, &inputs);
    let out = net.feed_forward(inputs, &sums);
    assert_eq!(out.len(), 1);
    let v = f32::from_bits(out[0]);
    assert!(v == 0.0 || v == 1.0);
    assert_eq!(triggers_jump(&out), out[0] == ONE_BITS);
}

#[test]
fn network_new_rejects_short_size_list() {
    assert!(NeuralNetwork::new(&vec![3usize], &Vec::new()).is_err());
    assert!(NeuralNetwork::new(&Vec::new(), &Vec::new()).is_err());
}

#[test]
fn network_new_rejects_zero_layer() {
    let sizes = vec![3usize, 0, 1];
    assert!(matches!(NeuralNetwork::new(&sizes, &Vec::new()), Err(TopologyError)));
}

#[test]
fn ledger_records_and_concludes() {
    let sizes = vec![2usize, 2];
    let mut generation = Generation::new();
    assert_eq!(generation.generation_number, 0);
    let first = NeuralNetwork::new(&sizes, &draws(total_params(&sizes))).unwrap();
    let second = NeuralNetwork::new(&sizes, &draws(total_params(&sizes))).unwrap();
    let second_params = flat_params(&second);
    generation.record_death(first);
    generation.record_death(second);
    assert_eq!(generation.neural_networks.len(), 2);
    let champion = generation.conclude_round().unwrap();
    assert_eq!(flat_params(&champion), second_params);
    assert_eq!(generation.neural_networks.len(), 0);
    assert_eq!(generation.generation_number, 1);
}

#[test]
fn conclude_round_with_empty_ledger() {
    let mut generation = Generation::new();
    assert!(generation.conclude_round().is_none());
    assert_eq!(generation.generation_number, 1);
    assert_eq!(generation.neural_networks.len(), 0);
}

#[test]
fn spawn_from_seed_elite_is_bit_identical() {
    let sizes = vec![3usize, 6, 1];
    let seed = NeuralNetwork::new(&sizes, &draws(total_params(&sizes))).unwrap();
    let seed_params = flat_params(&seed);
    let count = 5;
    let mut mutation_params: Vec<Vec<u32>> = Vec::new();
    for _ in 1..count {
        let fresh = draws(seed_params.len());
        mutation_params.push(interpolated_params(&seed, 0.10, &fresh));
    }
    let offspring = spawn_from_seed(&seed, count, &mutation_params);
    assert_eq!(offspring.len(), count);
    assert_eq!(flat_params(&offspring[0]), seed_params);
    for s in 1..count {
        assert_eq!(offspring[s].levels.len(), seed.levels.len());
        for k in 0..seed.levels.len() {
            assert_eq!(offspring[s].levels[k].weights.len(), seed.levels[k].weights.len());
            assert_eq!(offspring[s].levels[k].biases.len(), seed.levels[k].biases.len());
        }
        assert_ne!(flat_params(&offspring[s]), seed_params);
    }
}

#[test]
fn spawn_fresh_networks_are_distinct() {
    let sizes = vec![3usize, 6, 1];
    let count = 5;
    let per_net: Vec<Vec<u32>> = (0..count).map(|_| draws(total_params(&sizes))).collect();
    let nets = spawn_fresh(&sizes, count, &per_net).unwrap();
    assert_eq!(nets.len(), count);
    for a in 0..count {
        assert_eq!(nets[a].levels.len(), 2);
        for b in (a + 1)..count {
            assert_ne!(flat_params(&nets[a]), flat_params(&nets[b]));
        }
    }
}

#[test]
fn spawn_fresh_rejects_degenerate_sizes() {
    let sizes = vec![3usize];
    let per_net = vec![Vec::new()];
    assert!(spawn_fresh(&sizes, 1, &per_net).is_err());
}

#[test]
fn duplicate_is_deep_and_exact() {
    let sizes = vec![2usize, 3, 1];
    let net = NeuralNetwork::new(&sizes, &draws(total_params(&sizes))).unwrap();
    let copy = net.duplicate();
    assert_eq!(flat_params(&copy), flat_params(&net));
    assert_eq!(copy.levels.len(), net.levels.len());
    for k in 0..net.levels.len() {
        assert_eq!(copy.levels[k].inputs, net.levels[k].inputs);
        assert_eq!(copy.levels[k].outputs, net.levels[k].outputs);
    }
}

#[test]
fn step_activation_matches_float_comparison() {
    let mut patterns: Vec<u32> = vec![
        0.0f32.to_bits(),
        (-0.0f32).to_bits(),
        1.0f32.to_bits(),
        (-1.0f32).to_bits(),
        0.5f32.to_bits(),
        f32::INFINITY.to_bits(),
        f32::NEG_INFINITY.to_bits(),
        f32::NAN.to_bits(),
        f32::MIN_POSITIVE.to_bits(),
        1u32,  // smallest positive subnormal
        0x8000_0001, // smallest negative subnormal
    ];
    for _ in 0..200 {
        patterns.push(rand::random::<u32>());
    }
    for &a in &patterns {
        for &b in &patterns {
            let expected = if f32::from_bits(a) > f32::from_bits(b) { ONE_BITS } else { ZERO_BITS };
            assert_eq!(
                step_activation(a, b),
                expected,
                "bit-level step disagrees with the float order on {a:#x} vs {b:#x}",
            );
        }
    }
}
