//! The network: an ordered stack of levels.
//!
//! Level `k` feeds level `k + 1`, so adjacent counts must agree; the stack
//! is built once from an explicit layer-size list and its topology never
//! changes afterwards. Forward inference threads each level's output into
//! the next level's input; mutation installs host-interpolated parameters
//! level by level.

use vstd::prelude::*;

use crate::bits::{step_bits, unit_interval_bits, ONE_BITS, ZERO_BITS};
use crate::errors::TopologyError;
use crate::level::{Level, LevelRep};

verus! {

/// Sum of the first `k` entries of a sequence of counts.
pub open spec fn sum_prefix(counts: Seq<int>, k: int) -> int
    decreases k,
{
    if k <= 0 {
        0
    } else {
        sum_prefix(counts, k - 1) + counts[k - 1]
    }
}

/// A prefix sum of non-negative counts never shrinks.
pub proof fn lemma_sum_prefix_mono(counts: Seq<int>, a: int, b: int)
    requires
        0 <= a <= b <= counts.len(),
        forall|i: int| 0 <= i < counts.len() ==> counts[i] >= 0,
    ensures
        sum_prefix(counts, a) <= sum_prefix(counts, b),
    decreases b - a,
{
    if a < b {
        lemma_sum_prefix_mono(counts, a, b - 1);
    }
}

/// Parameter count of a level of the given shape: one weight per
/// (input, output) pair and one bias per output.
pub open spec fn shape_params(input_count: int, output_count: int) -> int {
    input_count * output_count + output_count
}

/// The per-level parameter counts of a network.
pub open spec fn level_param_counts(levels: Seq<LevelRep>) -> Seq<int> {
    levels.map_values(|l: LevelRep| l.param_count())
}

/// Parameters consumed by levels `0 .. k` of a network, in the flat
/// row-major order that `mutate` installs.
pub open spec fn net_params_before(levels: Seq<LevelRep>, k: int) -> int {
    sum_prefix(level_param_counts(levels), k)
}

/// Total parameter count of a network.
pub open spec fn net_param_count(levels: Seq<LevelRep>) -> int {
    net_params_before(levels, levels.len() as int)
}

/// The per-level parameter counts a layer-size list prescribes.
pub open spec fn size_param_counts(sizes: Seq<usize>) -> Seq<int> {
    if sizes.len() == 0 {
        Seq::empty()
    } else {
        Seq::new((sizes.len() - 1) as nat, |k: int| shape_params(sizes[k] as int, sizes[k + 1] as int))
    }
}

/// Parameters consumed by the first `k` levels a layer-size list
/// prescribes.
pub open spec fn params_before(sizes: Seq<usize>, k: int) -> int {
    sum_prefix(size_param_counts(sizes), k)
}

/// Total parameter count a layer-size list prescribes.
pub open spec fn total_params(sizes: Seq<usize>) -> int {
    if sizes.len() < 2 {
        0
    } else {
        params_before(sizes, sizes.len() - 1)
    }
}

/// A usable layer-size list: at least an input and an output layer, and no
/// zero-sized layer.
pub open spec fn sizes_ok(sizes: Seq<usize>) -> bool {
    &&& sizes.len() >= 2
    &&& forall|k: int| 0 <= k < sizes.len() ==> #[trigger] sizes[k] >= 1
}

/// Well-formedness of a level stack: non-empty, each level well formed, and
/// each level's output count feeding the next level's input count.
pub open spec fn net_wf(levels: Seq<LevelRep>) -> bool {
    &&& levels.len() >= 1
    &&& forall|k: int| 0 <= k < levels.len() ==> (#[trigger] levels[k]).wf()
    &&& forall|k: int|
        0 <= k < levels.len() - 1 ==> (#[trigger] levels[k]).output_count() == levels[k
            + 1].input_count()
}

/// An agent's genome and inference engine.
pub struct NeuralNetwork {
    /// The level stack, from the sensory layer to the action layer.
    pub levels: Vec<Level>,
}

impl View for NeuralNetwork {
    type V = Seq<LevelRep>;

    open spec fn view(&self) -> Seq<LevelRep> {
        self.levels@.map_values(|l: Level| l@)
    }
}

/// A copy of `src[start .. start + count]`.
pub(crate) fn copy_range(src: &Vec<u32>, start: usize, count: usize) -> (v: Vec<u32>)
    requires
        start + count <= src@.len(),
    ensures
        v@ == src@.subrange(start as int, start as int + count as int),
{
    let src_len = src.len();
    let mut v: Vec<u32> = Vec::new();
    let mut k: usize = 0;
    while k < count
        invariant
            k <= count,
            start + count <= src@.len(),
            src@.len() == src_len,
            v@.len() == k,
            forall|i: int| 0 <= i < k ==> v@[i] == src@[start + i],
        decreases count - k,
    {
        v.push(src[start + k]);
        k = k + 1;
    }
    proof {
        assert(v@ =~= src@.subrange(start as int, start as int + count as int));
    }
    v
}

impl NeuralNetwork {
    /// Well-formedness of the whole stack.
    pub open spec fn wf(&self) -> bool {
        net_wf(self@)
    }

    /// Builds `neurons_count.len() - 1` levels, level `k` spanning
    /// `neurons_count[k]` inputs and `neurons_count[k + 1]` outputs, with
    /// the flat parameter vector split across the levels in order. Fails
    /// exactly on a degenerate layer-size list: fewer than two entries, or
    /// a zero entry.
    pub fn new(neurons_count: &Vec<usize>, params: &Vec<u32>) -> (r: Result<
        NeuralNetwork,
        TopologyError,
    >)
        requires
            sizes_ok(neurons_count@) ==> params@.len() == total_params(neurons_count@),
            forall|k: int| 0 <= k < params@.len() ==> unit_interval_bits(#[trigger] params@[k]),
        ensures
            match r {
                Ok(n) => {
                    &&& sizes_ok(neurons_count@)
                    &&& n.wf()
                    &&& n@.len() == neurons_count@.len() - 1
                    &&& forall|k: int|
                        0 <= k < n@.len() ==> (#[trigger] n@[k]).input_count()
                            == neurons_count@[k] && n@[k].output_count() == neurons_count@[k + 1]
                    &&& forall|k: int|
                        0 <= k < n@.len() ==> (#[trigger] n@[k]).params_installed(
                            params@.subrange(
                                params_before(neurons_count@, k),
                                params_before(neurons_count@, k + 1),
                            ),
                        )
                    &&& forall|k: int, i: int|
                        0 <= k < n@.len() && 0 <= i < n@[k].input_count()
                            ==> #[trigger] n@[k].inputs[i] == ZERO_BITS
                    &&& forall|k: int, j: int|
                        0 <= k < n@.len() && 0 <= j < n@[k].output_count()
                            ==> #[trigger] n@[k].outputs[j] == ZERO_BITS
                },
                Err(e) => {
                    &&& !sizes_ok(neurons_count@)
                    &&& e == TopologyError
                },
            },
    {
        let layer_count = neurons_count.len();
        if layer_count < 2 {
            return Err(TopologyError);
        }
        let mut s: usize = 0;
        while s < layer_count
            invariant
                s <= layer_count,
                layer_count == neurons_count@.len(),
                forall|k: int| 0 <= k < s ==> #[trigger] neurons_count@[k] >= 1,
            decreases layer_count - s,
        {
            if neurons_count[s] == 0 {
                return Err(TopologyError);
            }
            s = s + 1;
        }
        let ghost sizes = neurons_count@;
        let ghost counts = size_param_counts(sizes);
        let params_len = params.len();
        let level_count = layer_count - 1;
        let mut levels: Vec<Level> = Vec::new();
        let mut offset: usize = 0;
        let mut k: usize = 0;
        while k < level_count
            invariant
                k <= level_count,
                level_count == sizes.len() - 1,
                sizes == neurons_count@,
                counts == size_param_counts(sizes),
                sizes_ok(sizes),
                params@.len() == total_params(sizes),
                params@.len() == params_len,
                forall|t: int|
                    0 <= t < params@.len() ==> unit_interval_bits(#[trigger] params@[t]),
                offset == params_before(sizes, k as int),
                levels@.len() == k,
                forall|t: int|
                    0 <= t < k ==> (#[trigger] levels@[t]@).wf(),
                forall|t: int|
                    0 <= t < k ==> (#[trigger] levels@[t]@).input_count() == sizes[t]
                        && levels@[t]@.output_count() == sizes[t + 1],
                forall|t: int|
                    0 <= t < k ==> (#[trigger] levels@[t]@).params_installed(
                        params@.subrange(params_before(sizes, t), params_before(sizes, t + 1)),
                    ),
                forall|t: int, i: int|
                    0 <= t < k && 0 <= i < levels@[t]@.input_count()
                        ==> #[trigger] levels@[t]@.inputs[i] == ZERO_BITS,
                forall|t: int, j: int|
                    0 <= t < k && 0 <= j < levels@[t]@.output_count()
                        ==> #[trigger] levels@[t]@.outputs[j] == ZERO_BITS,
            decreases level_count - k,
        {
            let input_count = neurons_count[k];
            let output_count = neurons_count[k + 1];
            proof {
                assert(counts[k as int] == shape_params(input_count as int, output_count as int));
                assert(forall|i: int| 0 <= i < counts.len() ==> #[trigger] counts[i] >= 0)
                    by {
                    assert forall|i: int| 0 <= i < counts.len() implies #[trigger] counts[i]
                        >= 0 by {
                        assert(counts[i] == shape_params(sizes[i] as int, sizes[i + 1] as int));
                        assert(sizes[i] as int * (sizes[i + 1] as int) >= 0) by (nonlinear_arith)
                            requires
                                sizes[i] as int >= 0,
                                sizes[i + 1] as int >= 0,
                        ;
                    }
                }
                assert(sum_prefix(counts, k + 1) == sum_prefix(counts, k as int) + counts[k as int]);
                lemma_sum_prefix_mono(counts, k + 1, sizes.len() - 1);
                assert(params_before(sizes, k + 1) <= total_params(sizes));
                assert(offset + counts[k as int] == params_before(sizes, k + 1));
                assert(offset + (input_count * output_count + output_count) <= params_len);
            }
            let chunk_len = input_count * output_count + output_count;
            let chunk = copy_range(params, offset, chunk_len);
            let level = match Level::new(input_count, output_count, &chunk) {
                Ok(level) => level,
                Err(e) => {
                    return Err(e);
                },
            };
            levels.push(level);
            offset = offset + chunk_len;
            k = k + 1;
        }
        let net = NeuralNetwork { levels };
        proof {
            assert(net.wf());
        }
        Ok(net)
    }

    /// Threads the inputs through every level in order: level 0 consumes
    /// the given inputs, level `k + 1` consumes level `k`'s freshly stored
    /// outputs, and the final level's output vector is returned. `sums[k]`
    /// carries the host-computed affine sums for level `k`.
    pub fn feed_forward(&mut self, given_inputs: Vec<u32>, sums: &Vec<Vec<u32>>) -> (r: Vec<u32>)
        requires
            old(self).wf(),
            given_inputs@.len() == old(self)@[0].input_count(),
            sums@.len() == old(self)@.len(),
            forall|k: int|
                0 <= k < old(self)@.len() ==> (#[trigger] sums@[k])@.len() == old(self)@[k].output_count(),
        ensures
            final(self).wf(),
            final(self)@.len() == old(self)@.len(),
            forall|k: int|
                0 <= k < old(self)@.len() ==> (#[trigger] final(self)@[k]).same_shape(
                    old(self)@[k],
                ) && final(self)@[k].weights == old(self)@[k].weights && final(self)@[k].biases
                    == old(self)@[k].biases,
            final(self)@[0].inputs == given_inputs@,
            forall|k: int|
                1 <= k < old(self)@.len() ==> (#[trigger] final(self)@[k]).inputs == final(self)@[k - 1].outputs,
            forall|k: int, j: int|
                0 <= k < old(self)@.len() && 0 <= j < old(self)@[k].output_count()
                    ==> #[trigger] final(self)@[k].outputs[j] == step_bits(
                    sums@[k]@[j],
                    old(self)@[k].biases[j],
                ),
            r@ == final(self)@[old(self)@.len() - 1].outputs,
            r@.len() == old(self)@[old(self)@.len() - 1].output_count(),
            forall|j: int| 0 <= j < r@.len() ==> r@[j] == ZERO_BITS || #[trigger] r@[j] == ONE_BITS,
    {
        let level_count = self.levels.len();
        let mut current = given_inputs;
        let mut k: usize = 0;
        while k < level_count
            invariant
                1 <= level_count == self@.len() == old(self)@.len(),
                k <= level_count,
                sums@.len() == level_count,
                net_wf(old(self)@),
                forall|t: int|
                    0 <= t < level_count ==> (#[trigger] sums@[t])@.len() == old(self)@[t].output_count(),
                forall|t: int| k <= t < level_count ==> #[trigger] self@[t] == old(self)@[t],
                forall|t: int|
                    0 <= t < k ==> (#[trigger] self@[t]).same_shape(old(self)@[t]) && self@[t].wf()
                        && self@[t].weights == old(self)@[t].weights && self@[t].biases == old(self)@[t].biases,
                k >= 1 ==> self@[0].inputs == given_inputs@,
                forall|t: int|
                    1 <= t < k ==> (#[trigger] self@[t]).inputs == self@[t - 1].outputs,
                forall|t: int, j: int|
                    0 <= t < k && 0 <= j < old(self)@[t].output_count()
                        ==> #[trigger] self@[t].outputs[j] == step_bits(
                        sums@[t]@[j],
                        old(self)@[t].biases[j],
                    ),
                forall|t: int|
                    0 <= t < k ==> (#[trigger] self@[t]).outputs.len() == old(self)@[t].output_count(),
                k == 0 ==> current@ == given_inputs@,
                k >= 1 ==> current@ == self@[k - 1].outputs,
                k < level_count ==> current@.len() == old(self)@[k as int].input_count(),
            decreases level_count - k,
        {
            let ghost pre = self@;
            proof {
                assert(pre[k as int] == old(self)@[k as int]);
                assert(pre[k as int].wf());
            }
            let level_sums = &sums[k];
            let level = &mut self.levels[k];
            let next = level.feed_forward(current, level_sums);
            proof {
                assert(self@ =~= pre.update(k as int, final(level)@));
                if k + 1 < level_count {
                    assert(old(self)@[k as int].output_count() == old(self)@[k
                        + 1].input_count());
                }
            }
            current = next;
            k = k + 1;
        }
        proof {
            assert forall|t: int| 0 <= t < level_count - 1 implies (#[trigger] self@[t]).output_count()
                == self@[t + 1].input_count() by {
                assert(self@[t].same_shape(old(self)@[t]));
                assert(self@[t + 1].same_shape(old(self)@[t + 1]));
            }
            assert(self.wf());
        }
        current
    }

    /// Installs the flat parameter vector across the levels in order,
    /// preserving every shape and every cached input and output vector.
    /// The host supplies the parameters already interpolated toward its
    /// fresh draws by the mutation amount.
    pub fn mutate(&mut self, params: &Vec<u32>)
        requires
            old(self).wf(),
            params@.len() == net_param_count(old(self)@),
        ensures
            final(self).wf(),
            final(self)@.len() == old(self)@.len(),
            forall|k: int|
                0 <= k < old(self)@.len() ==> (#[trigger] final(self)@[k]).same_shape(
                    old(self)@[k],
                ) && final(self)@[k].inputs == old(self)@[k].inputs && final(self)@[k].outputs
                    == old(self)@[k].outputs,
            forall|k: int|
                0 <= k < old(self)@.len() ==> (#[trigger] final(self)@[k]).params_installed(
                    params@.subrange(
                        net_params_before(old(self)@, k),
                        net_params_before(old(self)@, k + 1),
                    ),
                ),
    {
        let level_count = self.levels.len();
        let params_len = params.len();
        let ghost orig = self@;
        let ghost counts = level_param_counts(orig);
        proof {
            assert(forall|i: int| 0 <= i < counts.len() ==> #[trigger] counts[i] >= 0) by {
                assert forall|i: int| 0 <= i < counts.len() implies #[trigger] counts[i] >= 0 by {
                    assert(counts[i] == orig[i].param_count());
                    assert(orig[i].input_count() * orig[i].output_count() >= 0)
                        by (nonlinear_arith);
                }
            }
        }
        let mut offset: usize = 0;
        let mut k: usize = 0;
        while k < level_count
            invariant
                k <= level_count,
                level_count == orig.len() == self@.len(),
                net_wf(orig),
                counts == level_param_counts(orig),
                forall|i: int| 0 <= i < counts.len() ==> #[trigger] counts[i] >= 0,
                params@.len() == net_param_count(orig),
                params@.len() == params_len,
                offset == net_params_before(orig, k as int),
                forall|t: int| k <= t < level_count ==> #[trigger] self@[t] == orig[t],
                forall|t: int|
                    0 <= t < k ==> (#[trigger] self@[t]).wf() && self@[t].same_shape(orig[t])
                        && self@[t].inputs == orig[t].inputs && self@[t].outputs == orig[t].outputs,
                forall|t: int|
                    0 <= t < k ==> (#[trigger] self@[t]).params_installed(
                        params@.subrange(
                            net_params_before(orig, t),
                            net_params_before(orig, t + 1),
                        ),
                    ),
            decreases level_count - k,
        {
            let ghost pre = self@;
            let input_count = self.levels[k].inputs.len();
            let output_count = self.levels[k].outputs.len();
            proof {
                assert(pre[k as int] == orig[k as int]);
                assert(orig[k as int].wf());
                assert(sum_prefix(counts, k + 1) == sum_prefix(counts, k as int)
                    + counts[k as int]);
                lemma_sum_prefix_mono(counts, k + 1, counts.len() as int);
                assert(counts[k as int] == orig[k as int].param_count());
                assert(orig[k as int].param_count() == input_count * output_count
                    + output_count);
                assert(offset + (input_count * output_count + output_count) <= params_len);
            }
            let chunk_len = input_count * output_count + output_count;
            let chunk = copy_range(params, offset, chunk_len);
            let level = &mut self.levels[k];
            level.mutate(&chunk);
            proof {
                assert(self@ =~= pre.update(k as int, final(level)@));
            }
            offset = offset + chunk_len;
            k = k + 1;
        }
        proof {
            assert forall|t: int|
                0 <= t < level_count - 1 implies (#[trigger] self@[t]).output_count() == self@[t
                + 1].input_count() by {
                assert(self@[t].same_shape(orig[t]));
                assert(self@[t + 1].same_shape(orig[t + 1]));
            }
            assert(self.wf());
        }
    }

    /// A deep copy: an offspring genome shares nothing with its parent and
    /// carries bit-identical parameters and caches.
    pub fn duplicate(&self) -> (c: NeuralNetwork)
        ensures
            c@ == self@,
    {
        let level_count = self.levels.len();
        let mut levels: Vec<Level> = Vec::new();
        let mut k: usize = 0;
        while k < level_count
            invariant
                k <= level_count,
                level_count == self@.len(),
                levels@.len() == k,
                forall|t: int| 0 <= t < k ==> #[trigger] levels@[t]@ == self@[t],
            decreases level_count - k,
        {
            let src = &self.levels[k];
            let inputs = copy_range(&src.inputs, 0, src.inputs.len());
            let outputs = copy_range(&src.outputs, 0, src.outputs.len());
            let biases = copy_range(&src.biases, 0, src.biases.len());
            let row_count = src.weights.len();
            let mut weights: Vec<Vec<u32>> = Vec::new();
            let mut i: usize = 0;
            while i < row_count
                invariant
                    i <= row_count,
                    row_count == src.weights@.len(),
                    weights@.len() == i,
                    forall|t: int| 0 <= t < i ==> #[trigger] weights@[t]@ == src.weights@[t]@,
                decreases row_count - i,
            {
                let row = &src.weights[i];
                weights.push(copy_range(row, 0, row.len()));
                i = i + 1;
            }
            let copy = Level { inputs, outputs, biases, weights };
            proof {
                assert(copy@.weights =~= src@.weights);
                assert(copy@.inputs =~= src@.inputs);
                assert(copy@.outputs =~= src@.outputs);
                assert(copy@.biases =~= src@.biases);
                assert(copy@ =~= src@);
            }
            levels.push(copy);
            k = k + 1;
        }
        let net = NeuralNetwork { levels };
        proof {
            assert(net@ =~= self@);
        }
        net
    }
}

/// Whether a network's output vector commands the upward impulse: the
/// action fires exactly when the first output is the pattern of one.
pub fn triggers_jump(outputs: &Vec<u32>) -> (r: bool)
    requires
        outputs@.len() >= 1,
    ensures
        r == (outputs@[0] == ONE_BITS),
{
    outputs[0] == ONE_BITS
}

} // verus!
