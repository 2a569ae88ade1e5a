//! Spawning the next generation.
//!
//! Reproduction is asexual: when a champion exists, offspring slot 0 is the
//! champion verbatim and every later slot is a deep copy with
//! host-interpolated parameters installed; with no champion, every slot is
//! a brand-new network built from independent fresh draws.

use vstd::prelude::*;

use crate::bits::{unit_interval_bits, ZERO_BITS};
use crate::brain::{
    net_param_count, net_params_before, sizes_ok, total_params, params_before, NeuralNetwork,
};
use crate::errors::TopologyError;

verus! {

/// Spawns `count` offspring of a champion. Slot 0 is the champion,
/// bit-identical; slot `s >= 1` is a deep copy whose parameters are
/// replaced by `mutation_params[s - 1]`, one independent host-interpolated
/// vector per offspring, so every offspring shares the champion's topology.
pub fn spawn_from_seed(seed: &NeuralNetwork, count: usize, mutation_params: &Vec<Vec<u32>>) -> (offspring: Vec<
    NeuralNetwork,
>)
    requires
        seed.wf(),
        count >= 1,
        mutation_params@.len() == count - 1,
        forall|s: int|
            0 <= s < count - 1 ==> (#[trigger] mutation_params@[s])@.len() == net_param_count(
                seed@,
            ),
    ensures
        offspring@.len() == count,
        offspring@[0]@ == seed@,
        forall|s: int| 0 <= s < count ==> (#[trigger] offspring@[s]).wf(),
        forall|s: int|
            0 <= s < count ==> (#[trigger] offspring@[s])@.len() == seed@.len(),
        forall|s: int, k: int|
            0 <= s < count && 0 <= k < seed@.len() ==> (#[trigger] offspring@[s]@[k]).same_shape(
                seed@[k],
            ),
        forall|s: int, k: int|
            1 <= s < count && 0 <= k < seed@.len() ==> (#[trigger] offspring@[s]@[k]).inputs
                == seed@[k].inputs && offspring@[s]@[k].outputs == seed@[k].outputs,
        forall|s: int, k: int|
            1 <= s < count && 0 <= k < seed@.len()
                ==> (#[trigger] offspring@[s]@[k]).params_installed(
                mutation_params@[s - 1]@.subrange(
                    net_params_before(seed@, k),
                    net_params_before(seed@, k + 1),
                ),
            ),
{
    let mut offspring: Vec<NeuralNetwork> = Vec::new();
    let mut s: usize = 0;
    while s < count
        invariant
            s <= count,
            seed.wf(),
            count >= 1,
            mutation_params@.len() == count - 1,
            forall|t: int|
                0 <= t < count - 1 ==> (#[trigger] mutation_params@[t])@.len() == net_param_count(
                    seed@,
                ),
            offspring@.len() == s,
            s >= 1 ==> offspring@[0]@ == seed@,
            forall|t: int| 0 <= t < s ==> (#[trigger] offspring@[t]).wf(),
            forall|t: int| 0 <= t < s ==> (#[trigger] offspring@[t])@.len() == seed@.len(),
            forall|t: int, k: int|
                0 <= t < s && 0 <= k < seed@.len() ==> (#[trigger] offspring@[t]@[k]).same_shape(
                    seed@[k],
                ),
            forall|t: int, k: int|
                1 <= t < s && 0 <= k < seed@.len() ==> (#[trigger] offspring@[t]@[k]).inputs
                    == seed@[k].inputs && offspring@[t]@[k].outputs == seed@[k].outputs,
            forall|t: int, k: int|
                1 <= t < s && 0 <= k < seed@.len()
                    ==> (#[trigger] offspring@[t]@[k]).params_installed(
                    mutation_params@[t - 1]@.subrange(
                        net_params_before(seed@, k),
                        net_params_before(seed@, k + 1),
                    ),
                ),
        decreases count - s,
    {
        let mut child = seed.duplicate();
        if s != 0 {
            child.mutate(&mutation_params[s - 1]);
        }
        offspring.push(child);
        s = s + 1;
    }
    offspring
}

/// Spawns `count` brand-new networks over the given layer sizes, network
/// `s` built from the independent fresh draws `draws[s]`. Fails exactly on
/// a degenerate layer-size list.
pub fn spawn_fresh(neurons_count: &Vec<usize>, count: usize, draws: &Vec<Vec<u32>>) -> (r: Result<
    Vec<NeuralNetwork>,
    TopologyError,
>)
    requires
        count >= 1,
        draws@.len() == count,
        sizes_ok(neurons_count@) ==> forall|s: int|
            0 <= s < count ==> (#[trigger] draws@[s])@.len() == total_params(neurons_count@),
        forall|s: int, t: int|
            0 <= s < count && 0 <= t < draws@[s]@.len() ==> unit_interval_bits(
                #[trigger] draws@[s]@[t],
            ),
    ensures
        match r {
            Ok(nets) => {
                &&& sizes_ok(neurons_count@)
                &&& nets@.len() == count
                &&& forall|s: int| 0 <= s < count ==> (#[trigger] nets@[s]).wf()
                &&& forall|s: int|
                    0 <= s < count ==> (#[trigger] nets@[s])@.len() == neurons_count@.len() - 1
                &&& forall|s: int, k: int|
                    0 <= s < count && 0 <= k < neurons_count@.len() - 1 ==> (
                    #[trigger] nets@[s]@[k]).input_count() == neurons_count@[k]
                        && nets@[s]@[k].output_count() == neurons_count@[k + 1]
                &&& forall|s: int, k: int|
                    0 <= s < count && 0 <= k < neurons_count@.len() - 1 ==> (
                    #[trigger] nets@[s]@[k]).params_installed(
                        draws@[s]@.subrange(
                            params_before(neurons_count@, k),
                            params_before(neurons_count@, k + 1),
                        ),
                    )
                &&& forall|s: int, k: int, i: int|
                    0 <= s < count && 0 <= k < neurons_count@.len() - 1 && 0 <= i
                        < nets@[s]@[k].input_count() ==> #[trigger] nets@[s]@[k].inputs[i]
                        == ZERO_BITS
                &&& forall|s: int, k: int, j: int|
                    0 <= s < count && 0 <= k < neurons_count@.len() - 1 && 0 <= j
                        < nets@[s]@[k].output_count() ==> #[trigger] nets@[s]@[k].outputs[j]
                        == ZERO_BITS
            },
            Err(e) => {
                &&& !sizes_ok(neurons_count@)
                &&& e == TopologyError
            },
        },
{
    let mut nets: Vec<NeuralNetwork> = Vec::new();
    let mut s: usize = 0;
    while s < count
        invariant
            s <= count,
            count >= 1,
            draws@.len() == count,
            sizes_ok(neurons_count@) ==> forall|t: int|
                0 <= t < count ==> (#[trigger] draws@[t])@.len() == total_params(neurons_count@),
            forall|u: int, t: int|
                0 <= u < count && 0 <= t < draws@[u]@.len() ==> unit_interval_bits(
                    #[trigger] draws@[u]@[t],
                ),
            s >= 1 ==> sizes_ok(neurons_count@),
            nets@.len() == s,
            forall|t: int| 0 <= t < s ==> (#[trigger] nets@[t]).wf(),
            forall|t: int|
                0 <= t < s ==> (#[trigger] nets@[t])@.len() == neurons_count@.len() - 1,
            forall|t: int, k: int|
                0 <= t < s && 0 <= k < neurons_count@.len() - 1 ==> (
                #[trigger] nets@[t]@[k]).input_count() == neurons_count@[k]
                    && nets@[t]@[k].output_count() == neurons_count@[k + 1],
            forall|t: int, k: int|
                0 <= t < s && 0 <= k < neurons_count@.len() - 1 ==> (
                #[trigger] nets@[t]@[k]).params_installed(
                    draws@[t]@.subrange(
                        params_before(neurons_count@, k),
                        params_before(neurons_count@, k + 1),
                    ),
                ),
            forall|t: int, k: int, i: int|
                0 <= t < s && 0 <= k < neurons_count@.len() - 1 && 0 <= i
                    < nets@[t]@[k].input_count() ==> #[trigger] nets@[t]@[k].inputs[i]
                    == ZERO_BITS,
            forall|t: int, k: int, j: int|
                0 <= t < s && 0 <= k < neurons_count@.len() - 1 && 0 <= j
                    < nets@[t]@[k].output_count() ==> #[trigger] nets@[t]@[k].outputs[j]
                    == ZERO_BITS,
        decreases count - s,
    {
        let net = match NeuralNetwork::new(neurons_count, &draws[s]) {
            Ok(net) => net,
            Err(e) => {
                return Err(e);
            },
        };
        nets.push(net);
        s = s + 1;
    }
    Ok(nets)
}

} // verus!
