//! One affine layer with a hard step activation.
//!
//! A level holds one weight per (input, output) pair and one bias per
//! output, all as single-precision bit patterns, together with the last
//! forward-pass input and output vectors. The host owns the floating-point
//! work: it computes the affine sums and the interpolated replacement
//! parameters and passes their bit patterns in; the level performs every
//! structural step and the exact activation comparison.

use vstd::prelude::*;

use crate::bits::{step_activation, step_bits, unit_interval_bits, ZERO_BITS};
use crate::errors::TopologyError;

verus! {

/// The mathematical content of a level: the four parameter sequences.
#[verifier::ext_equal]
pub ghost struct LevelRep {
    pub inputs: Seq<u32>,
    pub outputs: Seq<u32>,
    pub biases: Seq<u32>,
    pub weights: Seq<Seq<u32>>,
}

impl LevelRep {
    /// Number of inputs the level consumes.
    pub open spec fn input_count(self) -> nat {
        self.inputs.len()
    }

    /// Number of outputs the level produces.
    pub open spec fn output_count(self) -> nat {
        self.outputs.len()
    }

    /// Shape consistency: a weight row per input, a weight per output in
    /// each row, a bias per output, and nothing degenerate.
    pub open spec fn wf(self) -> bool {
        &&& self.input_count() >= 1
        &&& self.output_count() >= 1
        &&& self.weights.len() == self.input_count()
        &&& self.biases.len() == self.output_count()
        &&& forall|i: int|
            0 <= i < self.weights.len() ==> (#[trigger] self.weights[i]).len()
                == self.output_count()
    }

    /// How many parameters (weights, then biases) the level carries.
    pub open spec fn param_count(self) -> int {
        self.input_count() * self.output_count() + self.output_count() as int
    }

    /// Two levels of the same shape.
    pub open spec fn same_shape(self, other: LevelRep) -> bool {
        self.input_count() == other.input_count() && self.output_count() == other.output_count()
    }

    /// The weights hold `params` row-major and the biases hold its tail:
    /// weight `(i, j)` is `params[i * output_count + j]` and bias `j` is
    /// `params[input_count * output_count + j]`.
    pub open spec fn params_installed(self, params: Seq<u32>) -> bool {
        &&& forall|i: int, j: int|
            0 <= i < self.input_count() && 0 <= j < self.output_count()
                ==> #[trigger] self.weights[i][j] == params[i * self.output_count() + j]
        &&& forall|j: int|
            0 <= j < self.output_count() ==> #[trigger] self.biases[j] == params[self.input_count()
                * self.output_count() + j]
    }
}

/// One affine layer plus step activation.
pub struct Level {
    /// Last forward-pass input, cached for diagnostics and persistence.
    pub inputs: Vec<u32>,
    /// Last forward-pass output; each entry the pattern of zero or one.
    pub outputs: Vec<u32>,
    /// One threshold per output neuron.
    pub biases: Vec<u32>,
    /// `weights[i][j]` weighs input `i` in output `j`.
    pub weights: Vec<Vec<u32>>,
}

impl View for Level {
    type V = LevelRep;

    open spec fn view(&self) -> LevelRep {
        LevelRep {
            inputs: self.inputs@,
            outputs: self.outputs@,
            biases: self.biases@,
            weights: self.weights@.map_values(|row: Vec<u32>| row@),
        }
    }
}

/// A vector of `n` copies of the zero pattern.
fn zero_vec(n: usize) -> (v: Vec<u32>)
    ensures
        v@.len() == n,
        forall|i: int| 0 <= i < n ==> v@[i] == ZERO_BITS,
{
    let mut v: Vec<u32> = Vec::new();
    let mut k: usize = 0;
    while k < n
        invariant
            k <= n,
            v@.len() == k,
            forall|i: int| 0 <= i < k ==> v@[i] == ZERO_BITS,
        decreases n - k,
    {
        v.push(ZERO_BITS);
        k = k + 1;
    }
    v
}

impl Level {
    /// Builds a level of the requested shape with zeroed input and output
    /// caches and the given parameters installed. Fails exactly on a
    /// degenerate shape: a zero input or output count.
    ///
    /// `params` are the host's fresh uniform draws from [-1, 1], weights
    /// row-major followed by biases.
    pub fn new(input_count: usize, output_count: usize, params: &Vec<u32>) -> (r: Result<
        Level,
        TopologyError,
    >)
        requires
            params@.len() == input_count * output_count + output_count,
            forall|k: int| 0 <= k < params@.len() ==> unit_interval_bits(#[trigger] params@[k]),
        ensures
            match r {
                Ok(level) => {
                    &&& input_count >= 1
                    &&& output_count >= 1
                    &&& level@.wf()
                    &&& level@.input_count() == input_count
                    &&& level@.output_count() == output_count
                    &&& level@.params_installed(params@)
                    &&& forall|i: int| 0 <= i < input_count ==> level@.inputs[i] == ZERO_BITS
                    &&& forall|j: int| 0 <= j < output_count ==> level@.outputs[j] == ZERO_BITS
                },
                Err(e) => {
                    &&& input_count == 0 || output_count == 0
                    &&& e == TopologyError
                },
            },
    {
        if input_count == 0 || output_count == 0 {
            return Err(TopologyError);
        }
        let mut level = Level {
            inputs: zero_vec(input_count),
            outputs: zero_vec(output_count),
            biases: zero_vec(output_count),
            weights: zero_weights(input_count, output_count),
        };
        level.mutate(params);
        Ok(level)
    }

    /// Replaces every weight and bias with the given parameters, row-major
    /// weights first, biases after, leaving the shape and the cached input
    /// and output vectors untouched.
    ///
    /// The host computes each replacement as the interpolation
    /// `(1 - amount) * v + amount * r` of the old value `v` toward a fresh
    /// uniform draw `r`, so an amount of zero hands back the old patterns
    /// and an amount of one hands in the draws themselves.
    pub fn mutate(&mut self, params: &Vec<u32>)
        requires
            old(self)@.wf(),
            params@.len() == old(self)@.param_count(),
        ensures
            final(self)@.wf(),
            final(self)@.same_shape(old(self)@),
            final(self)@.inputs == old(self)@.inputs,
            final(self)@.outputs == old(self)@.outputs,
            final(self)@.params_installed(params@),
    {
        let input_count = self.weights.len();
        let output_count = self.outputs.len();
        let total = params.len();
        let mut new_weights: Vec<Vec<u32>> = Vec::new();
        let mut idx: usize = 0;
        let mut i: usize = 0;
        while i < input_count
            invariant
                i <= input_count,
                input_count == old(self)@.input_count(),
                output_count == old(self)@.output_count(),
                params@.len() == input_count * output_count + output_count,
                params@.len() == total,
                idx == i * output_count,
                new_weights@.len() == i,
                forall|a: int, b: int|
                    0 <= a < i && 0 <= b < output_count
                        ==> #[trigger] new_weights@[a]@[b] == params@[a * output_count + b],
                forall|a: int|
                    0 <= a < i ==> (#[trigger] new_weights@[a])@.len() == output_count,
            decreases input_count - i,
        {
            proof {
                assert(i * output_count + output_count == (i + 1) * output_count)
                    by (nonlinear_arith);
                assert((i + 1) * output_count <= input_count * output_count) by (nonlinear_arith)
                    requires
                        i + 1 <= input_count,
                        output_count >= 0,
                ;
            }
            let mut row: Vec<u32> = Vec::new();
            let mut j: usize = 0;
            while j < output_count
                invariant
                    j <= output_count,
                    idx == i * output_count + j,
                    i * output_count + output_count <= params@.len(),
                    params@.len() == total,
                    row@.len() == j,
                    forall|b: int| 0 <= b < j ==> row@[b] == params@[i * output_count + b],
                decreases output_count - j,
            {
                row.push(params[idx]);
                idx = idx + 1;
                j = j + 1;
            }
            new_weights.push(row);
            i = i + 1;
        }
        let mut new_biases: Vec<u32> = Vec::new();
        let mut j: usize = 0;
        while j < output_count
            invariant
                j <= output_count,
                idx == input_count * output_count + j,
                params@.len() == input_count * output_count + output_count,
                params@.len() == total,
                new_biases@.len() == j,
                forall|b: int|
                    0 <= b < j ==> new_biases@[b] == params@[input_count * output_count + b],
            decreases output_count - j,
        {
            new_biases.push(params[idx]);
            idx = idx + 1;
            j = j + 1;
        }
        self.weights = new_weights;
        self.biases = new_biases;
    }

    /// Runs the step activation for one forward pass: caches the given
    /// inputs, and sets output `j` to one exactly when `sums[j]` strictly
    /// exceeds bias `j` (a tie gives zero). Returns the fresh output vector
    /// by value.
    ///
    /// `sums[j]` is the host-computed affine sum of the given inputs
    /// weighed by column `j` of the weights; the contract holds for
    /// whatever patterns the host hands in.
    pub fn feed_forward(&mut self, given_inputs: Vec<u32>, sums: &Vec<u32>) -> (r: Vec<u32>)
        requires
            old(self)@.wf(),
            given_inputs@.len() == old(self)@.input_count(),
            sums@.len() == old(self)@.output_count(),
        ensures
            final(self)@.wf(),
            final(self)@.same_shape(old(self)@),
            final(self)@.weights == old(self)@.weights,
            final(self)@.biases == old(self)@.biases,
            final(self)@.inputs == given_inputs@,
            final(self)@.outputs.len() == old(self)@.output_count(),
            forall|j: int|
                0 <= j < old(self)@.output_count() ==> final(self)@.outputs[j] == step_bits(
                    sums@[j],
                    old(self)@.biases[j],
                ),
            r@ == final(self)@.outputs,
    {
        let output_count = self.outputs.len();
        let mut fresh: Vec<u32> = Vec::new();
        let mut returned: Vec<u32> = Vec::new();
        let mut j: usize = 0;
        while j < output_count
            invariant
                j <= output_count,
                output_count == self@.output_count(),
                self@ == old(self)@,
                self@.wf(),
                sums@.len() == output_count,
                fresh@.len() == j,
                returned@ == fresh@,
                forall|b: int|
                    0 <= b < j ==> fresh@[b] == step_bits(sums@[b], self@.biases[b]),
            decreases output_count - j,
        {
            let out = step_activation(sums[j], self.biases[j]);
            fresh.push(out);
            returned.push(out);
            j = j + 1;
        }
        self.inputs = given_inputs;
        self.outputs = fresh;
        returned
    }
}

/// An `input_count` by `output_count` grid of zero patterns.
fn zero_weights(input_count: usize, output_count: usize) -> (w: Vec<Vec<u32>>)
    ensures
        w@.len() == input_count,
        forall|i: int| 0 <= i < input_count ==> (#[trigger] w@[i])@.len() == output_count,
{
    let mut w: Vec<Vec<u32>> = Vec::new();
    let mut i: usize = 0;
    while i < input_count
        invariant
            i <= input_count,
            w@.len() == i,
            forall|a: int| 0 <= a < i ==> (#[trigger] w@[a])@.len() == output_count,
        decreases input_count - i,
    {
        w.push(zero_vec(output_count));
        i = i + 1;
    }
    w
}

} // verus!
