//! The token layer of the save format.
//!
//! A save artifact is a line-oriented text: every value is one line of
//! exactly twenty decimal digits (zero-padded) followed by a newline, so
//! any unsigned 64-bit value round-trips exactly. Rendering and scanning
//! are inverse to one another, and the scanner rejects everything the
//! renderer cannot have produced.

use vstd::prelude::*;
use vstd::arithmetic::div_mod::{
    lemma_div_denominator, lemma_fundamental_div_mod, lemma_fundamental_div_mod_converse,
};

verus! {

/// The newline byte ending each token line.
pub const NEWLINE: u8 = 10;

/// Ten to the `k`-th power.
pub open spec fn pow10(k: nat) -> int
    decreases k,
{
    if k == 0 {
        1
    } else {
        10 * pow10((k - 1) as nat)
    }
}

/// The `k`-th least significant decimal digit of `v`.
pub open spec fn digit_at(v: u64, k: nat) -> int {
    (v as int / pow10(k)) % 10
}

/// The ASCII digit for a value below ten.
pub open spec fn digit_byte(d: int) -> u8 {
    (48 + d) as u8
}

/// Whether the byte is an ASCII decimal digit.
pub open spec fn is_digit(c: u8) -> bool {
    48 <= c <= 57
}

/// One token line: the twenty digits of `v`, most significant first, then
/// the newline.
pub open spec fn token_bytes(v: u64) -> Seq<u8> {
    Seq::new(
        21,
        |i: int|
            if i == 20 {
                NEWLINE
            } else {
                digit_byte(digit_at(v, (19 - i) as nat))
            },
    )
}

/// The value of the first `n` digit bytes of a token line, accumulated
/// most significant first.
pub open spec fn chunk_acc(s: Seq<u8>, n: int) -> int
    decreases n,
{
    if n <= 0 {
        0
    } else {
        chunk_acc(s, n - 1) * 10 + (s[n - 1] - 48)
    }
}

/// Whether a 21-byte slice is a valid token line: twenty digits whose
/// value fits an unsigned 64-bit integer, then the newline.
pub open spec fn chunk_ok(s: Seq<u8>) -> bool {
    &&& s.len() == 21
    &&& forall|i: int| 0 <= i < 20 ==> is_digit(#[trigger] s[i])
    &&& s[20] == NEWLINE
    &&& chunk_acc(s, 20) <= u64::MAX
}

/// The byte text of a token sequence: the token lines in order.
pub open spec fn render(ts: Seq<u64>) -> Seq<u8>
    decreases ts.len(),
{
    if ts.len() == 0 {
        Seq::empty()
    } else {
        token_bytes(ts[0]) + render(ts.skip(1))
    }
}

/// The token sequence a byte text encodes, if it is a whole number of
/// valid token lines.
pub open spec fn scan(s: Seq<u8>) -> Option<Seq<u64>>
    decreases s.len(),
{
    if s.len() == 0 {
        Some(Seq::empty())
    } else if s.len() < 21 || !chunk_ok(s.take(21)) {
        None
    } else {
        match scan(s.skip(21)) {
            Some(rest) => Some(seq![chunk_acc(s.take(21), 20) as u64] + rest),
            None => None,
        }
    }
}

/// Rendering one more token appends its line.
pub proof fn lemma_render_push(ts: Seq<u64>, v: u64)
    ensures
        render(ts.push(v)) == render(ts) + token_bytes(v),
    decreases ts.len(),
{
    if ts.len() == 0 {
        assert(ts.push(v).skip(1) =~= Seq::<u64>::empty());
        assert(ts.push(v)[0] == v);
        assert(render(ts) =~= Seq::<u8>::empty());
        assert(render(Seq::<u64>::empty()) =~= Seq::<u8>::empty());
        assert(render(ts.push(v)) =~= render(ts) + token_bytes(v));
    } else {
        assert(ts.push(v).skip(1) =~= ts.skip(1).push(v));
        lemma_render_push(ts.skip(1), v);
        assert(render(ts.push(v)) =~= render(ts) + token_bytes(v));
    }
}

/// `pow10` is positive.
pub proof fn lemma_pow10_pos(k: nat)
    ensures
        pow10(k) >= 1,
    decreases k,
{
    if k > 0 {
        lemma_pow10_pos((k - 1) as nat);
    }
}

/// `pow10` grows with its exponent.
pub proof fn lemma_pow10_mono(a: nat, b: nat)
    requires
        a <= b,
    ensures
        pow10(a) <= pow10(b),
    decreases b,
{
    if a < b {
        lemma_pow10_mono(a, (b - 1) as nat);
        lemma_pow10_pos((b - 1) as nat);
    }
}

/// Every unsigned 64-bit value has at most twenty decimal digits.
pub proof fn lemma_pow10_20_large()
    ensures
        pow10(20) > u64::MAX,
{
    reveal_with_fuel(pow10, 21);
}

/// The first `n` digits of a token line accumulate to the value's top `n`
/// digits.
proof fn lemma_chunk_acc_of_token(v: u64, n: int)
    requires
        0 <= n <= 20,
    ensures
        chunk_acc(token_bytes(v), n) == v as int / pow10((20 - n) as nat),
    decreases n,
{
    lemma_pow10_pos((20 - n) as nat);
    if n == 0 {
        lemma_pow10_20_large();
        assert(v as int / pow10(20) == 0) by {
            lemma_fundamental_div_mod_converse(v as int, pow10(20), 0, v as int);
        }
    } else {
        lemma_chunk_acc_of_token(v, n - 1);
        let p = pow10((20 - n) as nat);
        assert(pow10((21 - n) as nat) == 10 * p);
        lemma_pow10_pos((21 - n) as nat);
        let q = v as int / p;
        assert(token_bytes(v)[n - 1] == digit_byte(digit_at(v, (20 - n) as nat)));
        assert(digit_at(v, (20 - n) as nat) == q % 10);
        assert(q % 10 >= 0 && q % 10 <= 9);
        assert(token_bytes(v)[n - 1] - 48 == q % 10);
        assert(v as int / (10 * p) == (v as int / p) / 10) by {
            lemma_div_denominator(v as int, p, 10);
            assert(p * 10 == 10 * p) by (nonlinear_arith);
        }
        assert(chunk_acc(token_bytes(v), n) == (q / 10) * 10 + q % 10);
        assert((q / 10) * 10 + q % 10 == q) by {
            lemma_fundamental_div_mod(q, 10);
            assert(10 * (q / 10) == (q / 10) * 10) by (nonlinear_arith);
        }
    }
}

/// A rendered token line is a valid chunk and scans back to its value.
proof fn lemma_token_bytes_ok(v: u64)
    ensures
        chunk_ok(token_bytes(v)),
        chunk_acc(token_bytes(v), 20) == v,
{
    assert forall|i: int| 0 <= i < 20 implies is_digit(#[trigger] token_bytes(v)[i]) by {
        lemma_pow10_pos((19 - i) as nat);
        let d = digit_at(v, (19 - i) as nat);
        assert(0 <= d <= 9);
    }
    lemma_chunk_acc_of_token(v, 20);
    assert(pow10(0) == 1);
}

/// Scanning inverts rendering: the text of any token sequence scans back
/// to exactly that sequence.
pub proof fn lemma_scan_render(ts: Seq<u64>)
    ensures
        scan(render(ts)) == Some(ts),
    decreases ts.len(),
{
    if ts.len() == 0 {
        assert(scan(render(ts)) =~= Some(ts));
    } else {
        let s = render(ts);
        assert(s.len() == 21 + render(ts.skip(1)).len());
        assert(s.take(21) =~= token_bytes(ts[0]));
        assert(s.skip(21) =~= render(ts.skip(1)));
        lemma_token_bytes_ok(ts[0]);
        lemma_scan_render(ts.skip(1));
        assert(chunk_acc(s.take(21), 20) as u64 == ts[0]);
        assert(seq![ts[0]] + ts.skip(1) =~= ts);
    }
}

/// How a partial scan combines with the tokens already scanned.
pub open spec fn scan_join(prefix: Seq<u64>, rest: Option<Seq<u64>>) -> Option<Seq<u64>> {
    match rest {
        Some(ts) => Some(prefix + ts),
        None => None,
    }
}

/// Renders every token as its line, in order.
pub fn render_tokens(toks: &Vec<u64>) -> (out: Vec<u8>)
    ensures
        out@ == render(toks@),
{
    let token_count = toks.len();
    let mut out: Vec<u8> = Vec::new();
    let mut k: usize = 0;
    while k < token_count
        invariant
            k <= token_count,
            token_count == toks@.len(),
            out@ == render(toks@.take(k as int)),
        decreases token_count - k,
    {
        let v = toks[k];
        let mut digits: Vec<u8> = Vec::new();
        let mut w: u64 = v;
        let mut j: usize = 0;
        while j < 20
            invariant
                j <= 20,
                digits@.len() == j,
                w == v as int / pow10(j as nat),
                forall|t: int| 0 <= t < j ==> digits@[t] == digit_byte(digit_at(v, t as nat)),
            decreases 20 - j,
        {
            proof {
                lemma_pow10_pos(j as nat);
                assert(w % 10 == digit_at(v, j as nat));
                assert(0 <= w % 10 <= 9);
                assert(v as int / (10 * pow10(j as nat)) == (v as int / pow10(j as nat)) / 10)
                    by {
                    lemma_div_denominator(v as int, pow10(j as nat), 10);
                    assert(pow10(j as nat) * 10 == 10 * pow10(j as nat)) by (nonlinear_arith);
                }
                assert(pow10((j + 1) as nat) == 10 * pow10(j as nat));
            }
            let d = (w % 10) as u8;
            digits.push(48 + d);
            w = w / 10;
            j = j + 1;
        }
        let mut i: usize = 0;
        while i < 20
            invariant
                i <= 20,
                digits@.len() == 20,
                forall|t: int| 0 <= t < 20 ==> digits@[t] == digit_byte(digit_at(v, t as nat)),
                out@ == render(toks@.take(k as int)) + token_bytes(v).take(i as int),
            decreases 20 - i,
        {
            out.push(digits[19 - i]);
            proof {
                assert(token_bytes(v)[i as int] == digit_byte(digit_at(v, (19 - i) as nat)));
                assert(out@ =~= render(toks@.take(k as int)) + token_bytes(v).take(i + 1));
            }
            i = i + 1;
        }
        out.push(NEWLINE);
        proof {
            assert(token_bytes(v).take(20).push(NEWLINE) =~= token_bytes(v));
            assert(out@ =~= render(toks@.take(k as int)) + token_bytes(v));
            lemma_render_push(toks@.take(k as int), v);
            assert(toks@.take(k as int).push(v) =~= toks@.take(k + 1));
        }
        k = k + 1;
    }
    proof {
        assert(toks@.take(token_count as int) =~= toks@);
    }
    out
}

/// Scans a byte text back into its tokens; yields nothing unless the text
/// is a whole number of valid token lines.
pub fn scan_tokens(s: &Vec<u8>) -> (r: Option<Vec<u64>>)
    ensures
        match r {
            Some(toks) => scan(s@) == Some(toks@),
            None => scan(s@) is None,
        },
{
    let len = s.len();
    let mut acc: Vec<u64> = Vec::new();
    let mut pos: usize = 0;
    proof {
        assert(s@.skip(0) =~= s@);
        match scan(s@) {
            Some(ts) => {
                assert(Seq::<u64>::empty() + ts =~= ts);
            },
            None => {},
        }
    }
    while pos < len
        invariant
            pos <= len,
            len == s@.len(),
            scan(s@) == scan_join(acc@, scan(s@.skip(pos as int))),
        decreases len - pos,
    {
        let ghost tail = s@.skip(pos as int);
        if len - pos < 21 {
            proof {
                assert(tail.len() == len - pos);
                assert(scan(tail) is None);
            }
            return None;
        }
        proof {
            assert(tail.take(21) =~= s@.subrange(pos as int, pos + 21));
        }
        let mut value: u128 = 0;
        let mut j: usize = 0;
        let mut bad: bool = false;
        while j < 20
            invariant
                j <= 20,
                pos + 21 <= len,
                len == s@.len(),
                tail == s@.skip(pos as int),
                !bad ==> forall|t: int| 0 <= t < j ==> is_digit(#[trigger] tail.take(21)[t]),
                !bad ==> value == chunk_acc(tail.take(21), j as int),
                !bad ==> (value as int) < pow10(j as nat),
                bad ==> !chunk_ok(tail.take(21)),
            decreases 20 - j,
        {
            let c = s[pos + j];
            proof {
                assert(tail.take(21)[j as int] == s@[pos + j]);
            }
            if c < 48 || c > 57 {
                bad = true;
            } else if !bad {
                proof {
                    assert(pow10((j + 1) as nat) == 10 * pow10(j as nat));
                    lemma_pow10_mono((j + 1) as nat, 20);
                    reveal_with_fuel(pow10, 21);
                    assert(pow10(20) == 100000000000000000000);
                    assert((value as int) * 10 + (c - 48) < pow10((j + 1) as nat));
                }
                value = value * 10 + ((c - 48) as u128);
            }
            j = j + 1;
        }
        if bad {
            proof {
                assert(scan(tail) is None);
            }
            return None;
        }
        let nl = s[pos + 20];
        proof {
            assert(tail.take(21)[20] == s@[pos + 20]);
        }
        if nl != NEWLINE {
            proof {
                assert(!chunk_ok(tail.take(21)));
                assert(scan(tail) is None);
            }
            return None;
        }
        if value > 0xFFFF_FFFF_FFFF_FFFF {
            proof {
                assert(!chunk_ok(tail.take(21)));
                assert(scan(tail) is None);
            }
            return None;
        }
        let token = value as u64;
        proof {
            assert(chunk_ok(tail.take(21)));
            assert(tail.len() >= 21);
            assert(tail.skip(21) =~= s@.skip(pos + 21));
            assert(scan(tail) == match scan(s@.skip(pos + 21)) {
                Some(rest) => Some(seq![token] + rest),
                None => None::<Seq<u64>>,
            });
        }
        let ghost pre_acc = acc@;
        acc.push(token);
        pos = pos + 21;
        proof {
            match scan(s@.skip(pos as int)) {
                Some(rest) => {
                    assert(pre_acc + (seq![token] + rest) =~= pre_acc.push(token) + rest);
                },
                None => {},
            }
        }
    }
    proof {
        assert(s@.skip(len as int) =~= Seq::<u8>::empty());
        assert(scan(s@) == Some(acc@ + Seq::<u64>::empty()));
        assert(acc@ + Seq::<u64>::empty() =~= acc@);
    }
    Some(acc)
}

} // verus!
