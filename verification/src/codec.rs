use crate::alphabet::valid_symbols;
use crate::config::{Config, PaddingMode};
use crate::errors::CodecError;
use vstd::prelude::*;

verus! {

// ---------------------------------------------------------------------------
// The mathematical model of the codec.
//
// An input of `n` bytes is cut into 3-byte groups; each group yields four
// 6-bit values, a trailing group of 1 or 2 bytes yields 2 or 3 values.  The
// value at position `i` of the output depends only on the bytes of group
// `i / 4`, which is what every function below leans on.
// ---------------------------------------------------------------------------

/// How many 6-bit symbol values the encoding of `n` input bytes holds,
/// before any padding.
pub open spec fn sextet_count(n: nat) -> nat {
    4 * (n / 3) + (if n % 3 == 0 { 0nat } else { n % 3 + 1 })
}

/// How many pad bytes canonical padding appends after `n` input bytes.
pub open spec fn pad_count(n: nat) -> nat {
    if n % 3 == 0 { 0nat } else { (3 - n % 3) as nat }
}

/// The `i`-th 6-bit value of the encoding of `s`, for `0 <= i < sextet_count`.
pub open spec fn sextet_at(s: Seq<u8>, i: int) -> u8 {
    let g = i / 4;
    let r = i % 4;
    if r == 0 {
        s[3 * g] >> 2u8
    } else if r == 1 {
        ((s[3 * g] & 0x03) << 4u8) | (if 3 * g + 1 < s.len() {
            s[3 * g + 1] >> 4u8
        } else {
            0u8
        })
    } else if r == 2 {
        ((s[3 * g + 1] & 0x0f) << 2u8) | (if 3 * g + 2 < s.len() {
            s[3 * g + 2] >> 6u8
        } else {
            0u8
        })
    } else {
        s[3 * g + 2] & 0x3f
    }
}

/// The symbol bytes (no padding) that an alphabet `alpha` assigns to `s`.
pub open spec fn encode_symbols(alpha: Seq<u8>, s: Seq<u8>) -> Seq<u8> {
    Seq::new(sextet_count(s.len()), |i: int| alpha[sextet_at(s, i) as int])
}

/// The full encoding of `s`: symbols, then padding when `use_pad` is set.
pub open spec fn encode_bytes(alpha: Seq<u8>, pad: u8, use_pad: bool, s: Seq<u8>) -> Seq<u8> {
    encode_symbols(alpha, s) + (if use_pad {
        Seq::new(pad_count(s.len()), |i: int| pad)
    } else {
        Seq::<u8>::empty()
    })
}

/// How many bytes decoding `d` data symbols yields, for `d % 4 != 1`.
pub open spec fn decoded_count(d: nat) -> nat {
    3 * (d / 4) + (if d % 4 == 2 { 1nat } else if d % 4 == 3 { 2nat } else { 0nat })
}

/// The `j`-th decoded byte of a sequence `vals` of 6-bit values.
pub open spec fn byte_at(vals: Seq<u8>, j: int) -> u8 {
    let g = j / 3;
    let r = j % 3;
    if r == 0 {
        (vals[4 * g] << 2u8) | (vals[4 * g + 1] >> 4u8)
    } else if r == 1 {
        ((vals[4 * g + 1] & 0x0f) << 4u8) | (vals[4 * g + 2] >> 2u8)
    } else {
        ((vals[4 * g + 2] & 0x03) << 6u8) | vals[4 * g + 3]
    }
}

/// The bytes decoded from a sequence of 6-bit values.
pub open spec fn decode_values(vals: Seq<u8>) -> Seq<u8> {
    Seq::new(decoded_count(vals.len()), |j: int| byte_at(vals, j))
}

// ---------------------------------------------------------------------------
// Facts about the group structure.
// ---------------------------------------------------------------------------

/// Every 6-bit value is below 64, so it always indexes into an alphabet.
pub proof fn lemma_sextet_bound(s: Seq<u8>, i: int)
    requires
        0 <= i < sextet_count(s.len()),
    ensures
        sextet_at(s, i) < 64,
        i % 4 == 3 ==> 3 * (i / 4) + 2 < s.len(),
        i % 4 == 2 ==> 3 * (i / 4) + 1 < s.len(),
        i % 4 <= 1 ==> 3 * (i / 4) < s.len(),
{
    let g = i / 4;
    let r = i % 4;
    let n = s.len() as int;
    assert(i == 4 * g + r && 0 <= r < 4) by (nonlinear_arith)
        requires
            g == i / 4,
            r == i % 4,
            i >= 0,
    ;
    assert(4 * g + r < 4 * (n / 3) + (if n % 3 == 0 { 0int } else { n % 3 + 1 }));
    assert(n == 3 * (n / 3) + n % 3 && 0 <= n % 3 < 3) by (nonlinear_arith)
        requires
            n >= 0,
    ;
    // From i < sextet_count: the bytes this sextet reads are in range.
    if r == 3 {
        assert(3 * g + 2 < n) by (nonlinear_arith)
            requires
                4 * g + 3 < 4 * (n / 3) + (if n % 3 == 0 { 0int } else { n % 3 + 1 }),
                n == 3 * (n / 3) + n % 3,
                0 <= n % 3 < 3,
                g >= 0,
        ;
    } else if r == 2 {
        assert(3 * g + 1 < n) by (nonlinear_arith)
            requires
                4 * g + 2 < 4 * (n / 3) + (if n % 3 == 0 { 0int } else { n % 3 + 1 }),
                n == 3 * (n / 3) + n % 3,
                0 <= n % 3 < 3,
                g >= 0,
        ;
    } else {
        assert(3 * g < n) by (nonlinear_arith)
            requires
                4 * g + r < 4 * (n / 3) + (if n % 3 == 0 { 0int } else { n % 3 + 1 }),
                n == 3 * (n / 3) + n % 3,
                0 <= n % 3 < 3,
                g >= 0,
                0 <= r <= 1,
        ;
    }
    if r == 0 {
        let a = s[3 * g];
        assert(a >> 2u8 < 64) by (bit_vector);
    } else if r == 1 {
        let a = s[3 * g];
        let b = if 3 * g + 1 < s.len() { s[3 * g + 1] } else { 0u8 };
        assert(((a & 0x03) << 4u8) | (b >> 4u8) < 64) by (bit_vector);
        assert(((a & 0x03) << 4u8) | 0u8 < 64) by (bit_vector);
    } else if r == 2 {
        let b = s[3 * g + 1];
        let c = if 3 * g + 2 < s.len() { s[3 * g + 2] } else { 0u8 };
        assert(((b & 0x0f) << 2u8) | (c >> 6u8) < 64) by (bit_vector);
        assert(((b & 0x0f) << 2u8) | 0u8 < 64) by (bit_vector);
    } else {
        let c = s[3 * g + 2];
        assert(c & 0x3f < 64) by (bit_vector);
    }
}

/// Recovering the first byte of a group from its first two 6-bit values.
pub proof fn lemma_unpack_first(a: u8, b: u8)
    by (bit_vector)
    ensures
        ((a >> 2u8) << 2u8) | ((((a & 0x03) << 4u8) | (b >> 4u8)) >> 4u8) == a,
{
}

/// Recovering the second byte of a group from its middle 6-bit values.
pub proof fn lemma_unpack_second(a: u8, b: u8, c: u8)
    by (bit_vector)
    ensures
        (((((a & 0x03) << 4u8) | (b >> 4u8)) & 0x0f) << 4u8) | ((((b & 0x0f) << 2u8) | (c
            >> 6u8)) >> 2u8) == b,
{
}

/// Recovering the third byte of a group from its last two 6-bit values.
pub proof fn lemma_unpack_third(b: u8, c: u8)
    by (bit_vector)
    ensures
        (((((b & 0x0f) << 2u8) | (c >> 6u8)) & 0x03) << 6u8) | (c & 0x3f) == c,
{
}

// ---------------------------------------------------------------------------
// The decode model: which inputs are accepted, which error each rejected
// input earns, and what the accepted ones decode to.
// ---------------------------------------------------------------------------

/// The position of symbol `b` in `alpha`; meaningful only when present.
pub open spec fn sym_index(alpha: Seq<u8>, b: u8) -> int {
    choose|i: int| 0 <= i < alpha.len() && alpha[i] == b
}

/// For a valid symbol set, `sym_index` is the unique inverse of indexing.
pub proof fn lemma_sym_index(alpha: Seq<u8>, pad: u8, b: u8)
    requires
        valid_symbols(alpha, pad),
        alpha.contains(b),
    ensures
        0 <= sym_index(alpha, b) < 64,
        alpha[sym_index(alpha, b)] == b,
        forall|i: int| 0 <= i < 64 && alpha[i] == b ==> sym_index(alpha, b) == i,
{
    let w = choose|i: int| 0 <= i < alpha.len() && alpha[i] == b;
    assert(0 <= w < alpha.len() && alpha[w] == b);
    assert forall|i: int| 0 <= i < 64 && alpha[i] == b implies sym_index(alpha, b) == i by {
        if i != w {
            assert(alpha[i] != alpha[w]);
        }
    }
}

/// Every byte of `t` is a symbol of `alpha` or the pad byte.
pub open spec fn chars_ok(alpha: Seq<u8>, pad: u8, t: Seq<u8>) -> bool {
    forall|i: int| 0 <= i < t.len() ==> alpha.contains(t[i]) || t[i] == pad
}

/// The length of the maximal trailing run of pad bytes in `t`.
pub open spec fn pad_run(pad: u8, t: Seq<u8>) -> nat
    decreases t.len(),
{
    if t.len() == 0 || t[t.len() - 1] != pad {
        0
    } else {
        1 + pad_run(pad, t.drop_last())
    }
}

/// `pad_run` is what it says: counting pads backwards from the end.
pub proof fn lemma_pad_run_value(pad: u8, t: Seq<u8>, p: int)
    requires
        0 <= p <= t.len(),
        forall|k: int| t.len() - p <= k < t.len() ==> t[k] == pad,
        p < t.len() ==> t[t.len() - p - 1] != pad,
    ensures
        pad_run(pad, t) == p,
    decreases p,
{
    if p == 0 {
        assert(t.len() == 0 || t[t.len() - 1] != pad);
    } else {
        assert(t[t.len() - 1] == pad);
        lemma_pad_run_value(pad, t.drop_last(), p - 1);
    }
}

/// The trailing pad run never exceeds the input length.
pub proof fn lemma_pad_run_le(pad: u8, t: Seq<u8>)
    ensures
        pad_run(pad, t) <= t.len(),
    decreases t.len(),
{
    if t.len() == 0 || t[t.len() - 1] != pad {
    } else {
        lemma_pad_run_le(pad, t.drop_last());
    }
}

/// Pad bytes may only form the very tail of the input, and only in the
/// counts that complete a final group of 2 or 3 data symbols.
pub open spec fn placement_ok(pad: u8, t: Seq<u8>, d: int, p: int) -> bool {
    &&& (forall|i: int| 0 <= i < d ==> t[i] != pad)
    &&& (p == 0 || (d % 4 == 2 && 1 <= p <= 2) || (d % 4 == 3 && p == 1))
}

/// The 6-bit values of a run of data symbols.
pub open spec fn data_values(alpha: Seq<u8>, data: Seq<u8>) -> Seq<u8> {
    Seq::new(data.len(), |i: int| sym_index(alpha, data[i]) as u8)
}

/// Whether the unused low bits of the final 6-bit value are nonzero.
pub open spec fn trailing_bits_bad(alpha: Seq<u8>, data: Seq<u8>) -> bool {
    let d = data.len() as int;
    if d % 4 == 2 {
        (sym_index(alpha, data[d - 1]) as u8) & 0x0f != 0
    } else if d % 4 == 3 {
        (sym_index(alpha, data[d - 1]) as u8) & 0x03 != 0
    } else {
        false
    }
}

/// The full decode relation: the checks run in this order, and an input
/// passing them all decodes to the bytes of its data symbols.
pub open spec fn decode_spec(alpha: Seq<u8>, pad: u8, cfg: Config, t: Seq<u8>) -> Result<
    Seq<u8>,
    CodecError,
> {
    let p = pad_run(pad, t) as int;
    let d = t.len() - p;
    let data = t.take(d);
    if !chars_ok(alpha, pad, t) {
        Err(CodecError::InvalidCharacter)
    } else if !placement_ok(pad, t, d, p) {
        Err(CodecError::InvalidPadding)
    } else if d % 4 == 1 {
        Err(CodecError::InvalidLength)
    } else if cfg.decode_padding_mode == PaddingMode::RequireNone && p > 0 {
        Err(CodecError::InvalidPadding)
    } else if cfg.decode_padding_mode == PaddingMode::RequireCanonical && (d + p) % 4 != 0 {
        Err(CodecError::InvalidPadding)
    } else if !cfg.decode_allow_trailing_bits && trailing_bits_bad(alpha, data) {
        Err(CodecError::InvalidTrailingBits)
    } else {
        Ok(decode_values(data_values(alpha, data)))
    }
}

/// The length law: with padding the output length is `4 * ceil(n / 3)`,
/// without it the symbol count itself.
pub proof fn lemma_encoded_len(n: nat)
    ensures
        sextet_count(n) + pad_count(n) == 4 * ((n + 2) / 3),
        n % 3 == 0 ==> sextet_count(n) == 4 * (n / 3),
        sextet_count(n) % 4 == (if n % 3 == 0 { 0int } else { n % 3 + 1int }),
        sextet_count(n) % 4 != 1,
        pad_count(n) == (if sextet_count(n) % 4 == 0 { 0int } else { 4int - sextet_count(n) % 4 }),
{
    let q = n / 3;
    let r = n % 3;
    assert(n == 3 * q + r && 0 <= r < 3) by (nonlinear_arith)
        requires
            q == n / 3,
            r == n % 3,
    ;
    assert((n + 2) / 3 == q + (if r == 0 { 0int } else { 1int })) by (nonlinear_arith)
        requires
            n == 3 * q + r,
            0 <= r < 3,
            q >= 0,
    ;
    assert((4 * q) % 4 == 0 && (4 * q + 3) % 4 == 3 && (4 * q + 4) % 4 == 0) by (nonlinear_arith)
        requires
            q >= 0,
    ;
}


/// Decoding grows by exactly three bytes when one complete group of four
/// values is appended to the data symbols.
pub proof fn lemma_decode_extend_quad(
    alpha: Seq<u8>,
    s: Seq<u8>,
    w0: u8,
    w1: u8,
    w2: u8,
    w3: u8,
    b0: u8,
    b1: u8,
    b2: u8,
)
    requires
        s.len() % 4 == 0,
        s.len() >= 4,
        w0 == sym_index(alpha, s[s.len() - 4]) as u8,
        w1 == sym_index(alpha, s[s.len() - 3]) as u8,
        w2 == sym_index(alpha, s[s.len() - 2]) as u8,
        w3 == sym_index(alpha, s[s.len() - 1]) as u8,
        b0 == (w0 << 2u8) | (w1 >> 4u8),
        b1 == ((w1 & 0x0f) << 4u8) | (w2 >> 2u8),
        b2 == ((w2 & 0x03) << 6u8) | w3,
    ensures
        decode_values(data_values(alpha, s)) == decode_values(
            data_values(alpha, s.take(s.len() - 4)),
        ) + seq![b0, b1, b2],
{
    let n = s.len() as int;
    let qq = (n - 4) / 4;
    assert((n - 4) % 4 == 0 && 4 * qq == n - 4 && n / 4 == qq + 1 && qq >= 0) by (nonlinear_arith)
        requires
            n % 4 == 0,
            n >= 4,
            qq == (n - 4) / 4,
    ;
    let valsnew = data_values(alpha, s);
    let valsold = data_values(alpha, s.take(n - 4));
    assert(decoded_count(n as nat) == 3 * qq + 3 && decoded_count((n - 4) as nat) == 3 * qq)
        by (nonlinear_arith)
        requires
            4 * qq == n - 4,
            qq >= 0,
            n % 4 == 0,
            (n - 4) % 4 == 0,
            decoded_count(n as nat) == 3 * (n / 4) + (if n % 4 == 2 {
                1nat
            } else if n % 4 == 3 {
                2nat
            } else {
                0nat
            }),
            decoded_count((n - 4) as nat) == 3 * ((n - 4) / 4) + (if (n - 4) % 4 == 2 {
                1nat
            } else if (n - 4) % 4 == 3 {
                2nat
            } else {
                0nat
            }),
            n / 4 == qq + 1,
    ;
    assert(forall|k: int| 0 <= k < n - 4 ==> valsnew[k] == valsold[k]);
    assert forall|j: int| 0 <= j < 3 * qq implies byte_at(valsnew, j) == byte_at(valsold, j) by {
        let gg = j / 3;
        assert(j == 3 * gg + j % 3 && 0 <= j % 3 < 3 && gg < qq && 4 * gg + 3 < 4 * qq)
            by (nonlinear_arith)
            requires
                gg == j / 3,
                0 <= j < 3 * qq,
        ;
    }
    assert((3 * qq) / 3 == qq && (3 * qq) % 3 == 0 && (3 * qq + 1) / 3 == qq && (3 * qq + 1) % 3
        == 1 && (3 * qq + 2) / 3 == qq && (3 * qq + 2) % 3 == 2) by (nonlinear_arith)
        requires
            qq >= 0,
    ;
    assert(valsnew[4 * qq] == w0 && valsnew[4 * qq + 1] == w1 && valsnew[4 * qq + 2] == w2
        && valsnew[4 * qq + 3] == w3);
    assert(byte_at(valsnew, 3 * qq) == b0);
    assert(byte_at(valsnew, 3 * qq + 1) == b1);
    assert(byte_at(valsnew, 3 * qq + 2) == b2);
    assert(decode_values(valsnew) =~= decode_values(valsold) + seq![b0, b1, b2]);
}

/// Decoding grows by one byte when a final group of two values ends the
/// data symbols.
pub proof fn lemma_decode_tail2(alpha: Seq<u8>, s: Seq<u8>, w0: u8, w1: u8, b0: u8)
    requires
        s.len() % 4 == 2,
        w0 == sym_index(alpha, s[s.len() - 2]) as u8,
        w1 == sym_index(alpha, s[s.len() - 1]) as u8,
        b0 == (w0 << 2u8) | (w1 >> 4u8),
    ensures
        decode_values(data_values(alpha, s)) == decode_values(
            data_values(alpha, s.take(s.len() - 2)),
        ) + seq![b0],
{
    let n = s.len() as int;
    let qq = (n - 2) / 4;
    assert((n - 2) % 4 == 0 && 4 * qq == n - 2 && n / 4 == qq && qq >= 0) by (nonlinear_arith)
        requires
            n % 4 == 2,
            n >= 2,
            qq == (n - 2) / 4,
    ;
    let valsnew = data_values(alpha, s);
    let valsold = data_values(alpha, s.take(n - 2));
    assert(decoded_count(n as nat) == 3 * qq + 1 && decoded_count((n - 2) as nat) == 3 * qq)
        by (nonlinear_arith)
        requires
            4 * qq == n - 2,
            qq >= 0,
            n % 4 == 2,
            (n - 2) % 4 == 0,
            decoded_count(n as nat) == 3 * (n / 4) + (if n % 4 == 2 {
                1nat
            } else if n % 4 == 3 {
                2nat
            } else {
                0nat
            }),
            decoded_count((n - 2) as nat) == 3 * ((n - 2) / 4) + (if (n - 2) % 4 == 2 {
                1nat
            } else if (n - 2) % 4 == 3 {
                2nat
            } else {
                0nat
            }),
            n / 4 == qq,
    ;
    assert(forall|k: int| 0 <= k < n - 2 ==> valsnew[k] == valsold[k]);
    assert forall|j: int| 0 <= j < 3 * qq implies byte_at(valsnew, j) == byte_at(valsold, j) by {
        let gg = j / 3;
        assert(j == 3 * gg + j % 3 && 0 <= j % 3 < 3 && gg < qq && 4 * gg + 3 < 4 * qq)
            by (nonlinear_arith)
            requires
                gg == j / 3,
                0 <= j < 3 * qq,
        ;
    }
    assert((3 * qq) / 3 == qq && (3 * qq) % 3 == 0) by (nonlinear_arith)
        requires
            qq >= 0,
    ;
    assert(valsnew[4 * qq] == w0 && valsnew[4 * qq + 1] == w1);
    assert(byte_at(valsnew, 3 * qq) == b0);
    assert(decode_values(valsnew) =~= decode_values(valsold) + seq![b0]);
}

/// Decoding grows by two bytes when a final group of three values ends
/// the data symbols.
pub proof fn lemma_decode_tail3(alpha: Seq<u8>, s: Seq<u8>, w0: u8, w1: u8, w2: u8, b0: u8, b1: u8)
    requires
        s.len() % 4 == 3,
        w0 == sym_index(alpha, s[s.len() - 3]) as u8,
        w1 == sym_index(alpha, s[s.len() - 2]) as u8,
        w2 == sym_index(alpha, s[s.len() - 1]) as u8,
        b0 == (w0 << 2u8) | (w1 >> 4u8),
        b1 == ((w1 & 0x0f) << 4u8) | (w2 >> 2u8),
    ensures
        decode_values(data_values(alpha, s)) == decode_values(
            data_values(alpha, s.take(s.len() - 3)),
        ) + seq![b0, b1],
{
    let n = s.len() as int;
    let qq = (n - 3) / 4;
    assert((n - 3) % 4 == 0 && 4 * qq == n - 3 && n / 4 == qq && qq >= 0) by (nonlinear_arith)
        requires
            n % 4 == 3,
            n >= 3,
            qq == (n - 3) / 4,
    ;
    let valsnew = data_values(alpha, s);
    let valsold = data_values(alpha, s.take(n - 3));
    assert(decoded_count(n as nat) == 3 * qq + 2 && decoded_count((n - 3) as nat) == 3 * qq)
        by (nonlinear_arith)
        requires
            4 * qq == n - 3,
            qq >= 0,
            n % 4 == 3,
            (n - 3) % 4 == 0,
            decoded_count(n as nat) == 3 * (n / 4) + (if n % 4 == 2 {
                1nat
            } else if n % 4 == 3 {
                2nat
            } else {
                0nat
            }),
            decoded_count((n - 3) as nat) == 3 * ((n - 3) / 4) + (if (n - 3) % 4 == 2 {
                1nat
            } else if (n - 3) % 4 == 3 {
                2nat
            } else {
                0nat
            }),
            n / 4 == qq,
    ;
    assert(forall|k: int| 0 <= k < n - 3 ==> valsnew[k] == valsold[k]);
    assert forall|j: int| 0 <= j < 3 * qq implies byte_at(valsnew, j) == byte_at(valsold, j) by {
        let gg = j / 3;
        assert(j == 3 * gg + j % 3 && 0 <= j % 3 < 3 && gg < qq && 4 * gg + 3 < 4 * qq)
            by (nonlinear_arith)
            requires
                gg == j / 3,
                0 <= j < 3 * qq,
        ;
    }
    assert((3 * qq) / 3 == qq && (3 * qq) % 3 == 0 && (3 * qq + 1) / 3 == qq && (3 * qq + 1) % 3
        == 1) by (nonlinear_arith)
        requires
            qq >= 0,
    ;
    assert(valsnew[4 * qq] == w0 && valsnew[4 * qq + 1] == w1 && valsnew[4 * qq + 2] == w2);
    assert(byte_at(valsnew, 3 * qq) == b0);
    assert(byte_at(valsnew, 3 * qq + 1) == b1);
    assert(decode_values(valsnew) =~= decode_values(valsold) + seq![b0, b1]);
}

// ---------------------------------------------------------------------------
// The round-trip law.
// ---------------------------------------------------------------------------

/// Decoding `t` under the given policy succeeds and yields exactly `x`.
pub open spec fn decodes_to(alpha: Seq<u8>, pad: u8, cfg: Config, t: Seq<u8>, x: Seq<u8>) -> bool {
    decode_spec(alpha, pad, cfg, t) == Ok::<Seq<u8>, CodecError>(x)
}

/// The byte at `j` of the decoding of the values of `x`'s encoding is `x[j]`.
proof fn lemma_byte_roundtrip(alpha: Seq<u8>, pad: u8, x: Seq<u8>, vals: Seq<u8>, j: int)
    requires
        valid_symbols(alpha, pad),
        vals.len() == sextet_count(x.len()),
        forall|i: int| 0 <= i < vals.len() ==> vals[i] == sextet_at(x, i),
        0 <= j < x.len(),
    ensures
        byte_at(vals, j) == x[j],
{
    let n = x.len() as int;
    let sc = sextet_count(x.len()) as int;
    let g = j / 3;
    let r = j % 3;
    let nq = n / 3;
    assert(j == 3 * g + r && 0 <= r < 3 && n == 3 * nq + n % 3 && 0 <= n % 3 < 3)
        by (nonlinear_arith)
        requires
            g == j / 3,
            r == j % 3,
            nq == n / 3,
            0 <= j,
            0 <= n,
    ;
    assert(sc == 4 * nq + (if n % 3 == 0 { 0int } else { n % 3 + 1 }));
    assert((4 * g) / 4 == g && (4 * g) % 4 == 0 && (4 * g + 1) / 4 == g && (4 * g + 1) % 4 == 1
        && (4 * g + 2) / 4 == g && (4 * g + 2) % 4 == 2 && (4 * g + 3) / 4 == g && (4 * g + 3) % 4
        == 3) by (nonlinear_arith)
        requires
            g >= 0,
    ;
    let a = x[3 * g];
    if r == 0 {
        assert(4 * g + 1 < sc) by (nonlinear_arith)
            requires
                3 * g < n,
                n == 3 * nq + n % 3,
                0 <= n % 3 < 3,
                g >= 0,
                sc == 4 * nq + (if n % 3 == 0 { 0int } else { n % 3 + 1 }),
        ;
        let b = if 3 * g + 1 < n { x[3 * g + 1] } else { 0u8 };
        assert(vals[4 * g] == a >> 2u8);
        assert((0u8 >> 4u8) == 0u8) by (bit_vector);
        assert(vals[4 * g + 1] == ((a & 0x03) << 4u8) | (b >> 4u8));
        lemma_unpack_first(a, b);
    } else if r == 1 {
        assert(4 * g + 2 < sc) by (nonlinear_arith)
            requires
                3 * g + 1 < n,
                n == 3 * nq + n % 3,
                0 <= n % 3 < 3,
                g >= 0,
                sc == 4 * nq + (if n % 3 == 0 { 0int } else { n % 3 + 1 }),
        ;
        let b = x[3 * g + 1];
        let c = if 3 * g + 2 < n { x[3 * g + 2] } else { 0u8 };
        assert((0u8 >> 6u8) == 0u8) by (bit_vector);
        assert(vals[4 * g + 1] == ((a & 0x03) << 4u8) | (b >> 4u8));
        assert(vals[4 * g + 2] == ((b & 0x0f) << 2u8) | (c >> 6u8));
        lemma_unpack_second(a, b, c);
    } else {
        assert(4 * g + 3 < sc) by (nonlinear_arith)
            requires
                3 * g + 2 < n,
                n == 3 * nq + n % 3,
                0 <= n % 3 < 3,
                g >= 0,
                sc == 4 * nq + (if n % 3 == 0 { 0int } else { n % 3 + 1 }),
        ;
        let b = x[3 * g + 1];
        let c = x[3 * g + 2];
        assert(vals[4 * g + 2] == ((b & 0x0f) << 2u8) | (c >> 6u8));
        assert(vals[4 * g + 3] == c & 0x3f);
        lemma_unpack_third(b, c);
    }
}

/// Round trip: decoding an encoding returns the original bytes, under any
/// alphabet and any configuration whose decode strictness does not outlaw
/// the padding the encode side emits.
///
/// With mode `RequireNone` the encode side must not pad (or the input must
/// encode without padding anyway); with `RequireCanonical` it must pad (or
/// need no padding).  `Indifferent` accepts both.
pub proof fn lemma_round_trip(alpha: Seq<u8>, pad: u8, cfg: Config, x: Seq<u8>)
    requires
        valid_symbols(alpha, pad),
        cfg.decode_padding_mode == PaddingMode::RequireNone ==> !cfg.encode_padding || x.len() % 3
            == 0,
        cfg.decode_padding_mode == PaddingMode::RequireCanonical ==> cfg.encode_padding || x.len()
            % 3 == 0,
    ensures
        decodes_to(alpha, pad, cfg, encode_bytes(alpha, pad, cfg.encode_padding, x), x),
{
    let use_pad = cfg.encode_padding;
    let n = x.len();
    let sc = sextet_count(n) as int;
    let e = encode_bytes(alpha, pad, use_pad, x);
    let p0: int = if use_pad { pad_count(n) as int } else { 0 };
    lemma_encoded_len(n);
    assert(e.len() == sc + p0);
    // Every symbol byte is a symbol, hence not the pad byte.
    assert forall|i: int| 0 <= i < sc implies alpha.contains(e[i]) && e[i] != pad by {
        lemma_sextet_bound(x, i);
        assert(e[i] == alpha[sextet_at(x, i) as int]);
        assert(alpha.contains(e[i]));
    }
    assert(forall|i: int| sc <= i < e.len() ==> e[i] == pad);
    assert(chars_ok(alpha, pad, e));
    // The trailing pad run is exactly the appended padding.
    lemma_pad_run_value(pad, e, p0);
    let d = e.len() - p0;
    assert(d == sc);
    // Placement: `sc % 4` is 0, 2 or 3, and the pad count fits it.
    assert(placement_ok(pad, e, d, p0));
    assert(d % 4 != 1);
    // Padding-mode checks pass under the compatibility assumptions.
    if cfg.decode_padding_mode == PaddingMode::RequireCanonical {
        if use_pad {
            assert((4 * ((n + 2) / 3)) % 4 == 0) by (nonlinear_arith);
            assert((d + p0) % 4 == 0);
        } else {
            assert(n % 3 == 0);
            assert((d + p0) % 4 == 0);
        }
    }
    if cfg.decode_padding_mode == PaddingMode::RequireNone {
        assert(p0 == 0);
    }
    // The data values are exactly the 6-bit groups of `x`.
    let data = e.take(d);
    let vals = data_values(alpha, data);
    assert forall|i: int| 0 <= i < sc implies vals[i] == sextet_at(x, i) by {
        lemma_sextet_bound(x, i);
        assert(data[i] == alpha[sextet_at(x, i) as int]);
        assert(alpha.contains(data[i]));
        lemma_sym_index(alpha, pad, data[i]);
    }
    // The unused bits of the final value are zero.
    assert(!trailing_bits_bad(alpha, data)) by {
        let nq = n as int / 3;
        assert(n as int == 3 * nq + n as int % 3 && 0 <= n as int % 3 < 3) by (nonlinear_arith)
            requires
                nq == n as int / 3,
        ;
        if d % 4 == 2 {
            assert(n % 3 == 1);
            assert((sc - 1) / 4 == nq && (sc - 1) % 4 == 1) by (nonlinear_arith)
                requires
                    sc == 4 * nq + 2,
                    nq >= 0,
            ;
            assert(3 * nq + 1 == n);
            let a = x[3 * nq];
            assert(vals[sc - 1] == sextet_at(x, sc - 1));
            assert(sextet_at(x, sc - 1) == ((a & 0x03) << 4u8) | 0u8);
            assert((((a & 0x03) << 4u8) | 0u8) & 0x0f == 0) by (bit_vector);
            assert(sym_index(alpha, data[d - 1]) as u8 == vals[d - 1]);
        } else if d % 4 == 3 {
            assert(n % 3 == 2);
            assert((sc - 1) / 4 == nq && (sc - 1) % 4 == 2) by (nonlinear_arith)
                requires
                    sc == 4 * nq + 3,
                    nq >= 0,
            ;
            assert(3 * nq + 2 == n);
            let b = x[3 * nq + 1];
            assert(vals[sc - 1] == sextet_at(x, sc - 1));
            assert(sextet_at(x, sc - 1) == ((b & 0x0f) << 2u8) | 0u8);
            assert((((b & 0x0f) << 2u8) | 0u8) & 0x03 == 0) by (bit_vector);
            assert(sym_index(alpha, data[d - 1]) as u8 == vals[d - 1]);
        }
    }
    // Decoding the values gives `x` back.
    assert(decoded_count(vals.len()) == n) by {
        let nq = n as int / 3;
        assert(n as int == 3 * nq + n as int % 3 && 0 <= n as int % 3 < 3) by (nonlinear_arith)
            requires
                nq == n as int / 3,
        ;
        assert(sc / 4 == nq && sc % 4 == (if n % 3 == 0 { 0int } else { n as int % 3 + 1 }))
            by (nonlinear_arith)
            requires
                sc == 4 * nq + (if n % 3 == 0 { 0int } else { n as int % 3 + 1 }),
                0 <= n as int % 3 < 3,
                nq >= 0,
        ;
    }
    assert forall|j: int| 0 <= j < n implies decode_values(vals)[j] == x[j] by {
        lemma_byte_roundtrip(alpha, pad, x, vals, j);
    }
    assert(decode_values(data_values(alpha, data)) =~= x);
}


/// `cfg` with its encode-padding switch replaced.
pub open spec fn cfg_with_encode_padding(cfg: Config, b: bool) -> Config {
    Config {
        encode_padding: b,
        decode_allow_trailing_bits: cfg.decode_allow_trailing_bits,
        decode_padding_mode: cfg.decode_padding_mode,
    }
}

/// Padding invariance: with mode `Indifferent`, both the padded and the
/// unpadded encoding of the same input decode to that input.
pub proof fn lemma_padding_invariance(alpha: Seq<u8>, pad: u8, cfg: Config, x: Seq<u8>)
    requires
        valid_symbols(alpha, pad),
        cfg.decode_padding_mode == PaddingMode::Indifferent,
    ensures
        decodes_to(alpha, pad, cfg, encode_bytes(alpha, pad, true, x), x),
        decodes_to(alpha, pad, cfg, encode_bytes(alpha, pad, false, x), x),
{
    let cfg_on = cfg_with_encode_padding(cfg, true);
    let cfg_off = cfg_with_encode_padding(cfg, false);
    lemma_round_trip(alpha, pad, cfg_on, x);
    lemma_round_trip(alpha, pad, cfg_off, x);
    let e_on = encode_bytes(alpha, pad, true, x);
    let e_off = encode_bytes(alpha, pad, false, x);
    assert(decode_spec(alpha, pad, cfg, e_on) == decode_spec(alpha, pad, cfg_on, e_on));
    assert(decode_spec(alpha, pad, cfg, e_off) == decode_spec(alpha, pad, cfg_off, e_off));
}


// ---------------------------------------------------------------------------
// Locality of the group structure, for streaming.
// ---------------------------------------------------------------------------

/// A value inside the complete groups of a prefix is unchanged by what
/// follows the prefix.
pub proof fn lemma_sextet_prefix(s: Seq<u8>, t: Seq<u8>, i: int)
    requires
        s.len() <= t.len(),
        s == t.take(s.len() as int),
        0 <= i < 4 * (s.len() / 3),
    ensures
        sextet_at(t, i) == sextet_at(s, i),
{
    let g = i / 4;
    let r = i % 4;
    assert(i == 4 * g + r && 0 <= r < 4 && 3 * g + 2 < 3 * (s.len() / 3)) by (nonlinear_arith)
        requires
            g == i / 4,
            r == i % 4,
            0 <= i < 4 * (s.len() / 3),
    ;
    assert(3 * (s.len() / 3) <= s.len()) by (nonlinear_arith);
    assert(t[3 * g] == s[3 * g]);
    assert(t[3 * g + 1] == s[3 * g + 1]);
    assert(t[3 * g + 2] == s[3 * g + 2]);
}

/// A value past the complete groups of a length-`3 * h` head depends only
/// on the tail after that head.
pub proof fn lemma_sextet_shift(h: Seq<u8>, t: Seq<u8>, i: int)
    requires
        h.len() % 3 == 0,
        4 * (h.len() / 3) <= i,
        0 <= i < sextet_count(h.len() + t.len()),
    ensures
        sextet_at(h + t, i) == sextet_at(t, i - 4 * (h.len() / 3)),
{
    let s = h + t;
    let hg = h.len() as int / 3;
    assert(h.len() == 3 * hg) by (nonlinear_arith)
        requires
            hg == h.len() as int / 3,
            h.len() % 3 == 0,
    ;
    let j = i - 4 * hg;
    let g = i / 4;
    let r = i % 4;
    assert(g >= hg && j / 4 == g - hg && j % 4 == r && i == 4 * g + r && 0 <= r < 4)
        by (nonlinear_arith)
        requires
            g == i / 4,
            r == i % 4,
            j == i - 4 * hg,
            4 * hg <= i,
            hg >= 0,
    ;
    let gt = g - hg;
    lemma_sextet_bound(s, i);
    // Each byte the value reads sits past the head, at the shifted spot.
    assert(3 * g - 3 * hg == 3 * gt);
    if r == 0 {
        assert(s[3 * g] == t[3 * gt]);
        assert(3 * g + 1 < s.len() <==> 3 * gt + 1 < t.len());
        if 3 * g + 1 < s.len() {
            assert(s[3 * g + 1] == t[3 * gt + 1]);
        }
    } else if r == 1 {
        assert(s[3 * g] == t[3 * gt]);
        assert(3 * g + 1 < s.len() <==> 3 * gt + 1 < t.len());
        if 3 * g + 1 < s.len() {
            assert(s[3 * g + 1] == t[3 * gt + 1]);
        }
    } else if r == 2 {
        assert(s[3 * g + 1] == t[3 * gt + 1]);
        assert(3 * g + 2 < s.len() <==> 3 * gt + 2 < t.len());
        if 3 * g + 2 < s.len() {
            assert(s[3 * g + 2] == t[3 * gt + 2]);
        }
    } else {
        assert(s[3 * g + 2] == t[3 * gt + 2]);
    }
}

/// A byte that is not the pad byte caps the trailing pad run.
pub proof fn lemma_pad_run_cap(pad: u8, t: Seq<u8>, j: int)
    requires
        0 <= j < t.len(),
        t[j] != pad,
    ensures
        pad_run(pad, t) < t.len() - j,
    decreases t.len(),
{
    if t.len() == 0 || t[t.len() - 1] != pad {
    } else {
        lemma_pad_run_cap(pad, t.drop_last(), j);
    }
}


} // verus!
