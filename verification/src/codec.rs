//! The save codec.
//!
//! A network is persisted as a flat token sequence rendered through the
//! token layer: first the level count, then for each level its input and
//! output counts followed by the cached inputs, cached outputs, biases and
//! row-major weights, every parameter as its 32-bit pattern widened to a
//! token. Decoding validates every shape — counts at least one, adjacent
//! levels chained, exact token counts, parameter tokens in 32-bit range —
//! and rejects everything else as malformed; encoding then decoding
//! reproduces the network exactly.

use vstd::prelude::*;
use vstd::arithmetic::div_mod::lemma_fundamental_div_mod_converse;

use crate::brain::{copy_range, net_wf, NeuralNetwork};
use crate::errors::SaveError;
use crate::level::{Level, LevelRep};
use crate::tokens::{render, render_tokens, scan, scan_tokens};

verus! {

/// Tokens one level occupies: its two counts, then the four parameter
/// blocks.
pub open spec fn level_token_count(l: LevelRep) -> int {
    let inp = l.input_count() as int;
    let out = l.output_count() as int;
    2 + inp + 2 * out + inp * out
}

/// The `t`-th token of one level: input count, output count, cached
/// inputs, cached outputs, biases, then the weights row-major.
pub open spec fn level_token_at(l: LevelRep, t: int) -> u64 {
    let inp = l.input_count() as int;
    let out = l.output_count() as int;
    if t == 0 {
        inp as u64
    } else if t == 1 {
        out as u64
    } else if t < 2 + inp {
        l.inputs[t - 2] as u64
    } else if t < 2 + inp + out {
        l.outputs[t - 2 - inp] as u64
    } else if t < 2 + inp + 2 * out {
        l.biases[t - 2 - inp - out] as u64
    } else {
        l.weights[(t - 2 - inp - 2 * out) / out][(t - 2 - inp - 2 * out) % out] as u64
    }
}

/// One level's token run.
pub open spec fn level_tokens(l: LevelRep) -> Seq<u64> {
    Seq::new(level_token_count(l) as nat, |t: int| level_token_at(l, t))
}

/// The token runs of a level stack, in order.
pub open spec fn levels_tokens(ls: Seq<LevelRep>) -> Seq<u64>
    decreases ls.len(),
{
    if ls.len() == 0 {
        Seq::empty()
    } else {
        level_tokens(ls[0]) + levels_tokens(ls.skip(1))
    }
}

/// The whole token sequence of a network: the level count, then the
/// levels.
pub open spec fn net_tokens(ls: Seq<LevelRep>) -> Seq<u64> {
    seq![ls.len() as u64] + levels_tokens(ls)
}

/// The byte text a network serializes to.
pub open spec fn spec_serialize(ls: Seq<LevelRep>) -> Seq<u8> {
    render(net_tokens(ls))
}

/// Whether `n` tokens from `pos` all fit a 32-bit parameter.
pub open spec fn vals_ok(toks: Seq<u64>, pos: int, n: int) -> bool {
    forall|i: int| 0 <= i < n ==> #[trigger] toks[pos + i] <= u32::MAX
}

/// `n` tokens from `pos`, each narrowed to its 32-bit pattern.
pub open spec fn take_vals(toks: Seq<u64>, pos: int, n: int) -> Seq<u32> {
    Seq::new(n as nat, |i: int| toks[pos + i] as u32)
}

/// A weight grid read row-major from `inp * out` tokens at `pos`.
pub open spec fn unflatten(toks: Seq<u64>, pos: int, inp: int, out: int) -> Seq<Seq<u32>> {
    Seq::new(inp as nat, |i: int| take_vals(toks, pos + i * out, out))
}

/// Decodes `remaining` levels from `pos`, requiring the first decoded
/// level's input count to match `prev_out` when one is given, and the
/// tokens to end exactly where the last level does.
pub open spec fn decode_levels(toks: Seq<u64>, pos: int, remaining: int, prev_out: Option<int>) -> Option<
    Seq<LevelRep>,
>
    decreases remaining,
{
    if remaining <= 0 {
        if pos == toks.len() {
            Some(Seq::empty())
        } else {
            None
        }
    } else if pos + 2 > toks.len() {
        None
    } else {
        let inp = toks[pos] as int;
        let out = toks[pos + 1] as int;
        if inp < 1 || out < 1 {
            None
        } else if match prev_out {
            Some(p) => p != inp,
            None => false,
        } {
            None
        } else if pos + 2 + inp + 2 * out + inp * out > toks.len() {
            None
        } else if !vals_ok(toks, pos + 2, inp + 2 * out + inp * out) {
            None
        } else {
            let level = LevelRep {
                inputs: take_vals(toks, pos + 2, inp),
                outputs: take_vals(toks, pos + 2 + inp, out),
                biases: take_vals(toks, pos + 2 + inp + out, out),
                weights: unflatten(toks, pos + 2 + inp + 2 * out, inp, out),
            };
            match decode_levels(toks, pos + 2 + inp + 2 * out + inp * out, remaining - 1, Some(out)) {
                Some(rest) => Some(seq![level] + rest),
                None => None,
            }
        }
    }
}

/// Decodes a whole token sequence into a level stack.
pub open spec fn decode_net(toks: Seq<u64>) -> Option<Seq<LevelRep>> {
    if toks.len() < 1 {
        None
    } else if toks[0] < 1 {
        None
    } else {
        decode_levels(toks, 1, toks[0] as int, None)
    }
}

/// What a byte text deserializes to, if anything.
pub open spec fn spec_deserialize(s: Seq<u8>) -> Option<Seq<LevelRep>> {
    match scan(s) {
        Some(toks) => decode_net(toks),
        None => None,
    }
}

/// A level stack whose counts are representable in a token.
pub open spec fn rep_bounded(ls: Seq<LevelRep>) -> bool {
    &&& ls.len() <= u64::MAX
    &&& forall|k: int|
        0 <= k < ls.len() ==> (#[trigger] ls[k]).input_count() <= u64::MAX
            && ls[k].output_count() <= u64::MAX
}

/// Whatever decoding yields is well formed: exactly `remaining` levels,
/// each internally consistent, adjacent levels chained, and the first
/// level's input count matching `prev_out` when one was demanded.
pub proof fn lemma_decode_levels_wf(
    toks: Seq<u64>,
    pos: int,
    remaining: int,
    prev_out: Option<int>,
    ls: Seq<LevelRep>,
)
    requires
        remaining >= 0,
        decode_levels(toks, pos, remaining, prev_out) == Some(ls),
    ensures
        ls.len() == remaining,
        forall|k: int| 0 <= k < ls.len() ==> (#[trigger] ls[k]).wf(),
        forall|k: int|
            0 <= k < ls.len() - 1 ==> (#[trigger] ls[k]).output_count() == ls[k + 1].input_count(),
        remaining > 0 ==> match prev_out {
            Some(p) => ls[0].input_count() == p,
            None => true,
        },
    decreases remaining,
{
    if remaining == 0 {
        assert(ls =~= Seq::<LevelRep>::empty());
    } else {
        let inp = toks[pos] as int;
        let out = toks[pos + 1] as int;
        let level = LevelRep {
            inputs: take_vals(toks, pos + 2, inp),
            outputs: take_vals(toks, pos + 2 + inp, out),
            biases: take_vals(toks, pos + 2 + inp + out, out),
            weights: unflatten(toks, pos + 2 + inp + 2 * out, inp, out),
        };
        let rest = decode_levels(
            toks,
            pos + 2 + inp + 2 * out + inp * out,
            remaining - 1,
            Some(out),
        );
        lemma_decode_levels_wf(
            toks,
            pos + 2 + inp + 2 * out + inp * out,
            remaining - 1,
            Some(out),
            rest.unwrap(),
        );
        assert(level.wf());
        assert(ls == seq![level] + rest.unwrap());
        assert(ls[0] == level);
        assert forall|k: int| 0 <= k < ls.len() implies (#[trigger] ls[k]).wf() by {
            if k >= 1 {
                assert(ls[k] == rest.unwrap()[k - 1]);
            }
        }
        assert forall|k: int|
            0 <= k < ls.len() - 1 implies (#[trigger] ls[k]).output_count() == ls[k
            + 1].input_count() by {
            if k == 0 {
                assert(ls[1] == rest.unwrap()[0]);
            } else {
                assert(ls[k] == rest.unwrap()[k - 1]);
                assert(ls[k + 1] == rest.unwrap()[k]);
            }
        }
    }
}

/// Decoding inverts encoding: the token run of any well-formed, bounded
/// level suffix decodes back to exactly that suffix.
proof fn lemma_decode_encode(
    ls: Seq<LevelRep>,
    toks: Seq<u64>,
    pos: int,
    k: int,
    prev_out: Option<int>,
)
    requires
        0 <= k <= ls.len(),
        0 <= pos <= toks.len(),
        forall|t: int| k <= t < ls.len() ==> (#[trigger] ls[t]).wf(),
        forall|t: int|
            k <= t < ls.len() - 1 ==> (#[trigger] ls[t]).output_count() == ls[t + 1].input_count(),
        forall|t: int|
            k <= t < ls.len() ==> (#[trigger] ls[t]).input_count() <= u64::MAX
                && ls[t].output_count() <= u64::MAX,
        toks.skip(pos) == levels_tokens(ls.skip(k)),
        k < ls.len() ==> match prev_out {
            Some(p) => p == ls[k].input_count(),
            None => true,
        },
    ensures
        decode_levels(toks, pos, ls.len() - k, prev_out) == Some(ls.skip(k)),
    decreases ls.len() - k,
{
    if k == ls.len() {
        assert(ls.skip(k) =~= Seq::<LevelRep>::empty());
        assert(levels_tokens(ls.skip(k)) =~= Seq::<u64>::empty());
        assert(toks.skip(pos).len() == 0);
        assert(pos == toks.len());
    } else {
        let l = ls[k];
        let inp = l.input_count() as int;
        let out = l.output_count() as int;
        let count = level_token_count(l);
        assert(inp * out >= 0) by (nonlinear_arith)
            requires
                inp >= 0,
                out >= 0,
        ;
        assert(ls.skip(k)[0] == l);
        assert(ls.skip(k).skip(1) =~= ls.skip(k + 1));
        assert(levels_tokens(ls.skip(k)) == level_tokens(l) + levels_tokens(ls.skip(k + 1)));
        assert(toks.skip(pos).len() == toks.len() - pos);
        assert(toks.len() - pos == count + levels_tokens(ls.skip(k + 1)).len());
        assert forall|i: int| 0 <= i < count implies toks[pos + i] == level_token_at(l, i) by {
            assert(toks.skip(pos)[i] == toks[pos + i]);
            assert(toks.skip(pos)[i] == (level_tokens(l) + levels_tokens(ls.skip(k + 1)))[i]);
            assert(level_tokens(l)[i] == level_token_at(l, i));
        }
        assert(toks[pos + 0] == level_token_at(l, 0));
        assert(toks[pos + 1] == level_token_at(l, 1));
        assert(toks[pos] == inp as u64);
        assert(toks[pos + 1] == out as u64);
        assert(toks[pos] as int == inp);
        assert(toks[pos + 1] as int == out);
        assert(pos + 2 + inp + 2 * out + inp * out <= toks.len());
        assert forall|i: int|
            0 <= i < inp + 2 * out + inp * out implies #[trigger] toks[pos + 2 + i]
            <= u32::MAX by {
            assert(toks[pos + (2 + i)] == level_token_at(l, 2 + i));
        }
        assert(vals_ok(toks, pos + 2, inp + 2 * out + inp * out));
        let level = LevelRep {
            inputs: take_vals(toks, pos + 2, inp),
            outputs: take_vals(toks, pos + 2 + inp, out),
            biases: take_vals(toks, pos + 2 + inp + out, out),
            weights: unflatten(toks, pos + 2 + inp + 2 * out, inp, out),
        };
        assert forall|i: int| 0 <= i < inp implies level.inputs[i] == l.inputs[i] by {
            assert(toks[pos + (2 + i)] == level_token_at(l, 2 + i));
        }
        assert(level.inputs =~= l.inputs);
        assert forall|i: int| 0 <= i < out implies level.outputs[i] == l.outputs[i] by {
            assert(toks[pos + (2 + inp + i)] == level_token_at(l, 2 + inp + i));
        }
        assert(level.outputs =~= l.outputs);
        assert forall|i: int| 0 <= i < out implies level.biases[i] == l.biases[i] by {
            assert(toks[pos + (2 + inp + out + i)] == level_token_at(l, 2 + inp + out + i));
        }
        assert(level.biases =~= l.biases);
        assert forall|i: int, j: int|
            0 <= i < inp && 0 <= j < out implies level.weights[i][j] == l.weights[i][j] by {
            let w = i * out + j;
            assert(0 <= i * out + j && i * out + j + 1 <= inp * out) by (nonlinear_arith)
                requires
                    0 <= i < inp,
                    0 <= j < out,
            ;
            lemma_fundamental_div_mod_converse(w, out, i, j);
            assert(toks[pos + (2 + inp + 2 * out + w)] == level_token_at(l, 2 + inp + 2 * out + w));
            assert(level_token_at(l, 2 + inp + 2 * out + w) == l.weights[i][j] as u64);
            assert(level.weights[i] == take_vals(toks, pos + 2 + inp + 2 * out + i * out, out));
            assert(level.weights[i][j] == toks[pos + 2 + inp + 2 * out + i * out + j] as u32);
            assert(pos + 2 + inp + 2 * out + i * out + j == pos + (2 + inp + 2 * out + w));
        }
        assert forall|i: int| 0 <= i < inp implies level.weights[i] == l.weights[i] by {
            assert(level.weights[i] =~= l.weights[i]);
        }
        assert(level.weights =~= l.weights);
        assert(level =~= l);
        let pos2 = pos + 2 + inp + 2 * out + inp * out;
        assert(toks.skip(pos2) =~= levels_tokens(ls.skip(k + 1))) by {
            assert(toks.skip(pos2).len() == levels_tokens(ls.skip(k + 1)).len());
            assert forall|i: int|
                0 <= i < toks.skip(pos2).len() implies toks.skip(pos2)[i] == levels_tokens(
                ls.skip(k + 1),
            )[i] by {
                assert(toks.skip(pos2)[i] == toks[pos2 + i]);
                assert(toks[pos2 + i] == toks.skip(pos)[count + i]);
                assert(toks.skip(pos)[count + i] == (level_tokens(l) + levels_tokens(
                    ls.skip(k + 1),
                ))[count + i]);
            }
        }
        if k + 1 < ls.len() {
            assert(ls[k].output_count() == ls[k + 1].input_count());
        }
        lemma_decode_encode(ls, toks, pos2, k + 1, Some(out));
        assert(decode_levels(toks, pos, ls.len() - k, prev_out) == Some(
            seq![level] + ls.skip(k + 1),
        ));
        assert(seq![level] + ls.skip(k + 1) =~= ls.skip(k));
    }
}

/// The round trip: every well-formed, representable level stack is
/// reproduced exactly by deserializing its serialization.
pub proof fn lemma_round_trip(ls: Seq<LevelRep>)
    requires
        net_wf(ls),
        rep_bounded(ls),
    ensures
        spec_deserialize(spec_serialize(ls)) == Some(ls),
{
    let toks = net_tokens(ls);
    crate::tokens::lemma_scan_render(toks);
    assert(toks[0] == ls.len() as u64);
    assert(toks[0] as int == ls.len());
    assert(toks.skip(1) =~= levels_tokens(ls));
    assert(ls.skip(0) =~= ls);
    lemma_decode_encode(ls, toks, 1, 0, None);
    assert(decode_net(toks) == Some(ls));
}

/// Serialization is injective on well-formed, representable stacks: equal
/// texts mean equal networks.
pub proof fn lemma_encoding_injective(a: Seq<LevelRep>, b: Seq<LevelRep>)
    requires
        net_wf(a),
        rep_bounded(a),
        net_wf(b),
        rep_bounded(b),
        spec_serialize(a) == spec_serialize(b),
    ensures
        a == b,
{
    lemma_round_trip(a);
    lemma_round_trip(b);
}

/// Serializes a well-formed network into its durable text.
pub fn serialize(net: &NeuralNetwork) -> (out: Vec<u8>)
    requires
        net.wf(),
    ensures
        out@ == spec_serialize(net@),
{
    let level_count = net.levels.len();
    let mut toks: Vec<u64> = Vec::new();
    toks.push(level_count as u64);
    proof {
        assert(net@.skip(0) =~= net@);
        assert(toks@ =~= seq![net@.len() as u64]);
        assert(toks@ + levels_tokens(net@.skip(0)) =~= net_tokens(net@));
    }
    let mut k: usize = 0;
    while k < level_count
        invariant
            k <= level_count,
            level_count == net@.len(),
            net.wf(),
            toks@ + levels_tokens(net@.skip(k as int)) == net_tokens(net@),
        decreases level_count - k,
    {
        let ghost l = net@[k as int];
        let ghost base = toks@;
        let level = &net.levels[k];
        let inp = level.inputs.len();
        let out_count = level.outputs.len();
        proof {
            assert(l.wf());
            assert(level@ == l);
            assert(inp == l.input_count());
            assert(out_count == l.output_count());
            assert(inp * out_count >= 0) by (nonlinear_arith)
                requires
                    inp >= 0,
                    out_count >= 0,
            ;
        }
        toks.push(inp as u64);
        proof {
            assert(level_token_at(l, 0) == inp as u64);
            assert(toks@ =~= base + level_tokens(l).take(1));
        }
        toks.push(out_count as u64);
        proof {
            assert(level_token_at(l, 1) == out_count as u64);
            assert(level_tokens(l).take(1).push(out_count as u64) =~= level_tokens(l).take(2));
            assert(toks@ =~= base + level_tokens(l).take(2));
        }
        let mut i: usize = 0;
        while i < inp
            invariant
                i <= inp,
                level@ == l,
                l.wf(),
                inp == l.input_count(),
                out_count == l.output_count(),
                toks@ == base + level_tokens(l).take(2 + i as int),
            decreases inp - i,
        {
            toks.push(level.inputs[i] as u64);
            proof {
                assert(level_token_at(l, 2 + i as int) == l.inputs[i as int] as u64);
                assert(toks@ =~= base + level_tokens(l).take(2 + i + 1));
            }
            i = i + 1;
        }
        let mut j: usize = 0;
        while j < out_count
            invariant
                j <= out_count,
                level@ == l,
                l.wf(),
                inp == l.input_count(),
                out_count == l.output_count(),
                toks@ == base + level_tokens(l).take(2 + inp + j as int),
            decreases out_count - j,
        {
            toks.push(level.outputs[j] as u64);
            proof {
                assert(level_token_at(l, 2 + inp + j as int) == l.outputs[j as int] as u64);
                assert(toks@ =~= base + level_tokens(l).take(2 + inp + j + 1));
            }
            j = j + 1;
        }
        let mut b: usize = 0;
        while b < out_count
            invariant
                b <= out_count,
                level@ == l,
                l.wf(),
                inp == l.input_count(),
                out_count == l.output_count(),
                toks@ == base + level_tokens(l).take(2 + inp + out_count + b as int),
            decreases out_count - b,
        {
            toks.push(level.biases[b] as u64);
            proof {
                assert(level_token_at(l, 2 + inp + out_count + b as int) == l.biases[b as int]
                    as u64);
                assert(toks@ =~= base + level_tokens(l).take(2 + inp + out_count + b + 1));
            }
            b = b + 1;
        }
        let mut wi: usize = 0;
        while wi < inp
            invariant
                wi <= inp,
                level@ == l,
                l.wf(),
                inp == l.input_count(),
                out_count == l.output_count(),
                toks@ == base + level_tokens(l).take(2 + inp + 2 * out_count + wi * out_count),
            decreases inp - wi,
        {
            let mut wj: usize = 0;
            while wj < out_count
                invariant
                    wi < inp,
                    wj <= out_count,
                    level@ == l,
                    l.wf(),
                    inp == l.input_count(),
                    out_count == l.output_count(),
                    toks@ == base + level_tokens(l).take(
                        2 + inp + 2 * out_count + wi * out_count + wj as int,
                    ),
                decreases out_count - wj,
            {
                proof {
                    assert(level@.weights[wi as int] == level.weights@[wi as int]@);
                    assert(l.weights[wi as int].len() == l.output_count());
                }
                toks.push(level.weights[wi][wj] as u64);
                proof {
                    let w = wi * out_count + wj as int;
                    assert(0 <= wi * out_count + wj && wi * out_count + wj + 1 <= inp * out_count)
                        by (nonlinear_arith)
                        requires
                            0 <= wi < inp,
                            0 <= wj < out_count,
                    ;
                    lemma_fundamental_div_mod_converse(w, out_count as int, wi as int, wj as int);
                    assert(level_token_at(l, 2 + inp + 2 * out_count + w) == l.weights[wi as int][wj as int] as u64);
                    assert(toks@ =~= base + level_tokens(l).take(
                        2 + inp + 2 * out_count + wi * out_count + wj + 1,
                    ));
                }
                wj = wj + 1;
            }
            proof {
                assert(wi * out_count + out_count == (wi + 1) * out_count) by (nonlinear_arith);
            }
            wi = wi + 1;
        }
        proof {
            assert(level_tokens(l).take(level_token_count(l)) =~= level_tokens(l));
            assert(toks@ =~= base + level_tokens(l));
            assert(net@.skip(k as int)[0] == l);
            assert(net@.skip(k as int).skip(1) =~= net@.skip(k + 1));
            assert(levels_tokens(net@.skip(k as int)) == level_tokens(l) + levels_tokens(
                net@.skip(k + 1),
            ));
            assert(toks@ + levels_tokens(net@.skip(k + 1)) =~= net_tokens(net@));
        }
        k = k + 1;
    }
    proof {
        assert(net@.skip(level_count as int) =~= Seq::<LevelRep>::empty());
        assert(levels_tokens(net@.skip(level_count as int)) =~= Seq::<u64>::empty());
        assert(toks@ =~= net_tokens(net@));
    }
    render_tokens(&toks)
}

/// How a partial decode combines with the levels already decoded.
pub open spec fn decode_join(prefix: Seq<LevelRep>, rest: Option<Seq<LevelRep>>) -> Option<
    Seq<LevelRep>,
> {
    match rest {
        Some(ls) => Some(prefix + ls),
        None => None,
    }
}

/// The chaining demand carried between decoded levels.
pub open spec fn prev_view(p: Option<u64>) -> Option<int> {
    match p {
        Some(x) => Some(x as int),
        None => None,
    }
}

/// Reads `n` parameter tokens from `start`, each required to fit its
/// 32-bit pattern.
fn read_vals(toks: &Vec<u64>, start: usize, n: usize) -> (r: Option<Vec<u32>>)
    requires
        start + n <= toks@.len(),
    ensures
        match r {
            Some(v) => vals_ok(toks@, start as int, n as int) && v@ == take_vals(
                toks@,
                start as int,
                n as int,
            ),
            None => !vals_ok(toks@, start as int, n as int),
        },
{
    let tlen = toks.len();
    let mut v: Vec<u32> = Vec::new();
    let mut j: usize = 0;
    while j < n
        invariant
            j <= n,
            start + n <= toks@.len(),
            toks@.len() == tlen,
            v@.len() == j,
            forall|t: int|
                0 <= t < j ==> #[trigger] toks@[start + t] <= u32::MAX && v@[t] == toks@[start + t]
                    as u32,
        decreases n - j,
    {
        let x = toks[start + j];
        if x > 0xFFFF_FFFF {
            proof {
                assert(toks@[start as int + j as int] > u32::MAX);
            }
            return None;
        }
        v.push(x as u32);
        j = j + 1;
    }
    proof {
        assert(v@ =~= take_vals(toks@, start as int, n as int));
    }
    Some(v)
}

/// Decodes a token sequence into a network, validating every shape.
fn decode_net_exec(toks: &Vec<u64>) -> (r: Option<NeuralNetwork>)
    ensures
        match r {
            Some(n) => n.wf() && decode_net(toks@) == Some(n@),
            None => decode_net(toks@) is None,
        },
{
    let tlen = toks.len();
    if tlen < 1 {
        return None;
    }
    let n_levels = toks[0];
    if n_levels < 1 {
        return None;
    }
    let mut levels: Vec<Level> = Vec::new();
    let mut pos: usize = 1;
    let mut remaining: u64 = n_levels;
    let mut prev_out: Option<u64> = None;
    proof {
        match decode_levels(toks@, 1, n_levels as int, None) {
            Some(ls) => {
                assert(Seq::<LevelRep>::empty() + ls =~= ls);
            },
            None => {},
        }
        assert(decode_net(toks@) == decode_join(
            levels@.map_values(|lv: Level| lv@),
            decode_levels(toks@, pos as int, remaining as int, prev_view(prev_out)),
        ));
    }
    while remaining > 0
        invariant
            toks@.len() == tlen,
            1 <= pos <= tlen,
            levels@.len() + remaining == n_levels,
            decode_net(toks@) == decode_join(
                levels@.map_values(|lv: Level| lv@),
                decode_levels(toks@, pos as int, remaining as int, prev_view(prev_out)),
            ),
        decreases remaining,
    {
        if tlen - pos < 2 {
            return None;
        }
        let inp64 = toks[pos];
        let out64 = toks[pos + 1];
        if inp64 < 1 || out64 < 1 {
            return None;
        }
        let chain_broken: bool = match prev_out {
            Some(p) => p != inp64,
            None => false,
        };
        if chain_broken {
            return None;
        }
        let avail = tlen - pos - 2;
        proof {
            assert(inp64 * out64 >= 0) by (nonlinear_arith)
                requires
                    inp64 >= 0,
                    out64 >= 0,
            ;
        }
        if inp64 > avail as u64 || out64 > avail as u64 {
            return None;
        }
        let a128 = avail as u128;
        proof {
            assert((inp64 as u128) * (out64 as u128) + (inp64 as u128) + 2 * (out64 as u128)
                <= a128 * a128 + 3 * a128) by (nonlinear_arith)
                requires
                    1 <= inp64 as u128 <= a128,
                    1 <= out64 as u128 <= a128,
            ;
            assert(a128 <= 0xFFFF_FFFF_FFFF_FFFC);
            assert(a128 * a128 + 3 * a128 < 0xFFFF_FFFF_FFFF_FFFF_FFFF_FFFF_FFFF_FFFF)
                by (nonlinear_arith)
                requires
                    a128 <= 0xFFFF_FFFF_FFFF_FFFC,
            ;
        }
        let need: u128 = (inp64 as u128) * (out64 as u128) + (inp64 as u128) + 2 * (out64
            as u128);
        if need > avail as u128 {
            proof {
                assert(pos + 2 + inp64 + 2 * out64 + inp64 * out64 > tlen);
            }
            return None;
        }
        let body_len = need as usize;
        let inp = inp64 as usize;
        let out = out64 as usize;
        proof {
            assert(inp64 * out64 >= 0) by (nonlinear_arith)
                requires
                    inp64 >= 0,
                    out64 >= 0,
            ;
            assert(pos + 2 + body_len <= tlen);
        }
        let body = match read_vals(toks, pos + 2, body_len) {
            Some(v) => v,
            None => {
                return None;
            },
        };
        let inputs = copy_range(&body, 0, inp);
        let outputs = copy_range(&body, inp, out);
        let biases = copy_range(&body, inp + out, out);
        let mut weights: Vec<Vec<u32>> = Vec::new();
        let mut wbase: usize = inp + 2 * out;
        let mut wi: usize = 0;
        let ghost wpos = pos + 2 + inp + 2 * out;
        while wi < inp
            invariant
                wi <= inp,
                wbase == inp + 2 * out + wi * out,
                inp + 2 * out + inp * out == body_len,
                pos + 2 + body_len <= tlen,
                toks@.len() == tlen,
                body@ == take_vals(toks@, pos + 2, body_len as int),
                wpos == pos + 2 + inp + 2 * out,
                weights@.len() == wi,
                forall|t: int|
                    0 <= t < wi ==> (#[trigger] weights@[t])@ == take_vals(
                        toks@,
                        wpos + t * out,
                        out as int,
                    ),
            decreases inp - wi,
        {
            proof {
                assert(wi * out + out == (wi + 1) * out) by (nonlinear_arith);
                assert((wi + 1) * out <= inp * out) by (nonlinear_arith)
                    requires
                        wi + 1 <= inp,
                        out >= 0,
                ;
                assert(0 <= wi * out) by (nonlinear_arith)
                    requires
                        wi >= 0,
                        out >= 0,
                ;
            }
            let row = copy_range(&body, wbase, out);
            proof {
                assert(row@ =~= take_vals(toks@, wpos + wi * out, out as int));
            }
            weights.push(row);
            wbase = wbase + out;
            wi = wi + 1;
        }
        let level = Level { inputs, outputs, biases, weights };
        let ghost lrep = LevelRep {
            inputs: take_vals(toks@, pos + 2, inp as int),
            outputs: take_vals(toks@, pos + 2 + inp, out as int),
            biases: take_vals(toks@, pos + 2 + inp + out, out as int),
            weights: unflatten(toks@, pos + 2 + inp + 2 * out, inp as int, out as int),
        };
        proof {
            assert(level@.inputs =~= lrep.inputs);
            assert(level@.outputs =~= lrep.outputs);
            assert(level@.biases =~= lrep.biases);
            assert forall|t: int| 0 <= t < inp implies level@.weights[t] == lrep.weights[t] by {
                assert(level@.weights[t] == weights@[t]@);
                assert(lrep.weights[t] == take_vals(toks@, wpos + t * out, out as int));
            }
            assert(level@.weights =~= lrep.weights);
            assert(level@ =~= lrep);
        }
        let ghost pre_levels = levels@.map_values(|lv: Level| lv@);
        let ghost rest_opt = decode_levels(
            toks@,
            pos + 2 + body_len,
            remaining - 1,
            Some(out64 as int),
        );
        proof {
            assert(decode_levels(toks@, pos as int, remaining as int, prev_view(prev_out))
                == match rest_opt {
                Some(rest) => Some(seq![lrep] + rest),
                None => None::<Seq<LevelRep>>,
            });
            match rest_opt {
                Some(rest) => {
                    assert(pre_levels + (seq![lrep] + rest) =~= pre_levels.push(lrep) + rest);
                },
                None => {},
            }
        }
        levels.push(level);
        pos = pos + 2 + body_len;
        remaining = remaining - 1;
        prev_out = Some(out64);
        proof {
            assert(levels@.map_values(|lv: Level| lv@) =~= pre_levels.push(lrep));
        }
    }
    if pos != tlen {
        return None;
    }
    let net = NeuralNetwork { levels };
    proof {
        assert(decode_levels(toks@, pos as int, 0, prev_view(prev_out)) == Some(
            Seq::<LevelRep>::empty(),
        ));
        assert(net@ + Seq::<LevelRep>::empty() =~= net@);
        assert(decode_net(toks@) == Some(net@));
        lemma_decode_levels_wf(toks@, 1, n_levels as int, None, net@);
        assert(net.wf());
    }
    Some(net)
}

/// Reconstructs a network from its durable text. Succeeds exactly on the
/// texts that a well-formed network serializes to; everything else — an
/// unparseable text, a ragged or inconsistent shape, an out-of-range
/// parameter — is malformed save data.
pub fn deserialize(data: &Vec<u8>) -> (r: Result<NeuralNetwork, SaveError>)
    ensures
        match r {
            Ok(n) => n.wf() && spec_deserialize(data@) == Some(n@),
            Err(e) => e == SaveError::MalformedSaveData && spec_deserialize(data@) is None,
        },
{
    let toks = match scan_tokens(data) {
        Some(t) => t,
        None => {
            return Err(SaveError::MalformedSaveData);
        },
    };
    match decode_net_exec(&toks) {
        Some(n) => Ok(n),
        None => Err(SaveError::MalformedSaveData),
    }
}

} // verus!
