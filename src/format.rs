//! The Rice wire format: each value is a unary quotient, a zero terminator
//! and a `k`-bit remainder. A stream ends in one-bits up to its last byte,
//! which read as an unterminated quotient and so decode to nothing.

use vstd::prelude::*;
use vstd::arithmetic::power2::{pow2, lemma2_to64, lemma_pow2_pos};
use vstd::arithmetic::div_mod::{lemma_fundamental_div_mod, lemma_small_mod};
use crate::bitstream::{
    bits_of,
    bits_value,
    lemma_bits_of_len,
    lemma_bits_value_of,
    lemma_stream_bits_len,
    lemma_stream_bits_prefix,
    ones,
    padded,
    stream_bits,
};

verus! {

/// Largest supported Rice parameter.
pub const MAX_K: u8 = 31;

/// Largest number of values that a one-byte count prefix can announce.
pub const MAX_COUNTED: usize = 255;

/// The codeword of `v`: `v >> k` one-bits, a zero-bit, then the low `k` bits of `v`.
pub open spec fn codeword(v: u32, k: nat) -> Seq<bool> {
    ones(v as nat / pow2(k)) + seq![false] + bits_of(v as nat % pow2(k), k)
}

/// The codewords of `vals`, in order.
pub open spec fn codes(vals: Seq<u32>, k: nat) -> Seq<bool>
    decreases vals.len(),
{
    if vals.len() == 0 {
        Seq::empty()
    } else {
        codeword(vals[0], k) + codes(vals.drop_first(), k)
    }
}

/// Number of consecutive one-bits from `pos`.
pub open spec fn ones_run(bits: Seq<bool>, pos: int) -> nat
    decreases bits.len() - pos,
{
    if 0 <= pos < bits.len() && bits[pos] {
        1 + ones_run(bits, pos + 1)
    } else {
        0
    }
}

/// What is left of a decoding budget after one more value.
pub open spec fn spend(limit: Option<nat>) -> Option<nat> {
    match limit {
        Some(n) => Some((n - 1) as nat),
        None => None,
    }
}

/// Decodes from bit `pos` until the stream holds no complete codeword, or
/// until `limit` values (where given) are out. Each value is
/// `(quotient << k) + remainder`, cut to 32 bits. The second component is the
/// bit position at which reading stopped.
pub open spec fn decode_bits(bits: Seq<bool>, pos: int, k: nat, limit: Option<nat>) -> (Seq<u32>, int)
    decreases bits.len() - pos,
{
    if limit == Some(0nat) || pos < 0 {
        (Seq::empty(), pos)
    } else {
        let q = ones_run(bits, pos);
        let start = pos + q + 1;
        if start + k > bits.len() {
            (Seq::empty(), bits.len() as int)
        } else {
            let v = ((q * pow2(k) + bits_value(bits, start, k)) % 0x1_0000_0000) as u32;
            let rest = decode_bits(bits, start + k, k, spend(limit));
            (seq![v] + rest.0, rest.1)
        }
    }
}

/// The values of a stream without a count prefix.
pub open spec fn decoded(bits: Seq<bool>, k: nat) -> Seq<u32> {
    decode_bits(bits, 0, k, None).0
}

/// Decoding of a stream whose first byte counts the values that follow: the
/// values, and the bit position at which reading stopped.
pub open spec fn decode_counted(bytes: Seq<u8>, k: nat) -> (Seq<u32>, int) {
    if bytes.len() == 0 {
        (Seq::empty(), 0)
    } else {
        decode_bits(stream_bits(bytes), 8, k, Some(bytes[0] as nat))
    }
}

/// Bytes that a reader stopping at bit `end` has touched.
pub open spec fn bytes_touched(end: int) -> int {
    (end + 7) / 8
}

pub proof fn lemma_codeword_len(v: u32, k: nat)
    ensures
        codeword(v, k).len() == v as nat / pow2(k) + 1 + k,
{
    lemma_pow2_pos(k);
    lemma_bits_of_len(v as nat % pow2(k), k);
}

/// The codewords of `s` followed by `v` are those of `s`, then that of `v`.
pub proof fn lemma_codes_push(s: Seq<u32>, v: u32, k: nat)
    ensures
        codes(s.push(v), k) == codes(s, k) + codeword(v, k),
    decreases s.len(),
{
    if s.len() == 0 {
        assert(s.push(v).drop_first() =~= Seq::<u32>::empty());
        assert(s.push(v)[0] == v);
        assert(codes(Seq::<u32>::empty(), k) == Seq::<bool>::empty());
        assert(codes(s.push(v), k) =~= codes(s, k) + codeword(v, k));
    } else {
        assert(s.push(v).drop_first() =~= s.drop_first().push(v));
        lemma_codes_push(s.drop_first(), v, k);
        assert(codes(s.push(v), k) =~= codes(s, k) + codeword(v, k));
    }
}

/// The codewords of a concatenation are the concatenation of the codewords.
pub proof fn lemma_codes_append(a: Seq<u32>, b: Seq<u32>, k: nat)
    ensures
        codes(a + b, k) == codes(a, k) + codes(b, k),
    decreases a.len(),
{
    if a.len() == 0 {
        assert(a + b =~= b);
        assert(codes(a + b, k) =~= codes(a, k) + codes(b, k));
    } else {
        assert((a + b).drop_first() =~= a.drop_first() + b);
        lemma_codes_append(a.drop_first(), b, k);
        assert(codes(a + b, k) =~= codes(a, k) + codes(b, k));
    }
}

/// A run of exactly `q` one-bits from `pos`.
pub proof fn lemma_ones_run(bits: Seq<bool>, pos: int, q: nat)
    requires
        0 <= pos,
        pos + q <= bits.len(),
        forall|i: int| pos <= i < pos + q ==> bits[i],
        pos + q < bits.len() ==> !bits[pos + q],
    ensures
        ones_run(bits, pos) == q,
    decreases q,
{
    if q > 0 {
        lemma_ones_run(bits, pos + 1, (q - 1) as nat);
    }
}

/// Where the codeword of `v` stands at `pos`, decoding yields `v` and goes on after it.
pub proof fn lemma_decode_codeword(bits: Seq<bool>, pos: int, v: u32, k: nat, limit: Option<nat>)
    requires
        0 <= pos,
        pos + codeword(v, k).len() <= bits.len(),
        bits.subrange(pos, pos + codeword(v, k).len()) == codeword(v, k),
        limit != Some(0nat),
    ensures
        decode_bits(bits, pos, k, limit).0 == seq![v] + decode_bits(
            bits,
            pos + codeword(v, k).len(),
            k,
            spend(limit),
        ).0,
        decode_bits(bits, pos, k, limit).1 == decode_bits(
            bits,
            pos + codeword(v, k).len(),
            k,
            spend(limit),
        ).1,
{
    let cw = codeword(v, k);
    let q = v as nat / pow2(k);
    let r = v as nat % pow2(k);
    lemma_codeword_len(v, k);
    lemma_pow2_pos(k);
    lemma_bits_of_len(r, k);
    assert forall|i: int| pos <= i < pos + q implies bits[i] by {
        assert(bits[i] == cw[i - pos]);
    }
    assert(bits[pos + q] == cw[q as int]);
    lemma_ones_run(bits, pos, q);
    let start = pos + q + 1;
    assert forall|i: int| 0 <= i < k implies bits.subrange(start, start + k)[i] == bits_of(r, k)[i] by {
        assert(bits[start + i] == bits.subrange(pos, pos + cw.len())[q + 1 + i]);
        assert(cw[q + 1 + i] == bits_of(r, k)[i]);
    }
    assert(bits.subrange(start, start + k) =~= bits_of(r, k));
    lemma_bits_value_of(bits, start, r, k);
    lemma_fundamental_div_mod(v as int, pow2(k) as int);
    lemma2_to64();
    lemma_small_mod(v as nat, 0x1_0000_0000);
    assert(q * pow2(k) + r == v);
}

/// Where the codewords of `vals` stand at `pos`, decoding yields `vals` and goes
/// on after them.
pub proof fn lemma_decode_codes(bits: Seq<bool>, pos: int, vals: Seq<u32>, k: nat, limit: Option<nat>)
    requires
        0 <= pos,
        pos + codes(vals, k).len() <= bits.len(),
        bits.subrange(pos, pos + codes(vals, k).len()) == codes(vals, k),
        match limit {
            Some(n) => n >= vals.len(),
            None => true,
        },
    ensures
        ({
            let after = decode_bits(
                bits,
                pos + codes(vals, k).len(),
                k,
                match limit {
                    Some(n) => Some((n - vals.len()) as nat),
                    None => None,
                },
            );
            decode_bits(bits, pos, k, limit).0 == vals + after.0 && decode_bits(
                bits,
                pos,
                k,
                limit,
            ).1 == after.1
        }),
    decreases vals.len(),
{
    if vals.len() == 0 {
        assert(vals + decode_bits(bits, pos, k, limit).0 =~= decode_bits(bits, pos, k, limit).0);
        match limit {
            Some(n) => {
                assert((n - vals.len()) as nat == n);
            },
            None => {},
        }
    } else {
        let v = vals[0];
        let tail = vals.drop_first();
        let cw = codeword(v, k);
        assert(codes(vals, k) == cw + codes(tail, k));
        assert(bits.subrange(pos, pos + cw.len()) =~= cw);
        lemma_decode_codeword(bits, pos, v, k, limit);
        let p2 = pos + cw.len();
        let ct = codes(tail, k);
        assert forall|i: int| 0 <= i < ct.len() implies bits.subrange(p2, p2 + ct.len())[i] == ct[i] by {
            assert(bits[p2 + i] == bits.subrange(pos, pos + codes(vals, k).len())[cw.len() + i]);
        }
        assert(bits.subrange(p2, p2 + ct.len()) =~= ct);
        lemma_decode_codes(bits, p2, tail, k, spend(limit));
        match limit {
            Some(n) => {
                assert((((n - 1) as nat) - tail.len()) as nat == (n - vals.len()) as nat);
            },
            None => {},
        }
        assert(vals =~= seq![v] + tail);
        assert(seq![v] + (tail + decode_bits(bits, p2 + codes(tail, k).len(), k, match limit {
            Some(n) => Some((n - vals.len()) as nat),
            None => None,
        }).0) =~= vals + decode_bits(bits, p2 + codes(tail, k).len(), k, match limit {
            Some(n) => Some((n - vals.len()) as nat),
            None => None,
        }).0);
    }
}

/// A stream that ends in fewer one-bits than make a codeword decodes to nothing more.
pub proof fn lemma_decode_ones_tail(bits: Seq<bool>, pos: int, k: nat, limit: Option<nat>)
    requires
        0 <= pos <= bits.len(),
        forall|i: int| pos <= i < bits.len() ==> bits[i],
    ensures
        decode_bits(bits, pos, k, limit).0 == Seq::<u32>::empty(),
{
    lemma_ones_run(bits, pos, (bits.len() - pos) as nat);
}

/// Without a limit, decoding reads to the end of the stream.
pub proof fn lemma_decode_reads_all(bits: Seq<bool>, pos: int, k: nat)
    requires
        0 <= pos <= bits.len(),
    ensures
        decode_bits(bits, pos, k, None).1 == bits.len(),
    decreases bits.len() - pos,
{
    let q = ones_run(bits, pos);
    let start = pos + q + 1;
    if start + k <= bits.len() {
        lemma_decode_reads_all(bits, start + k, k);
    }
}

/// Cutting the quotient to 32 bits before the shift gives the same 32-bit value.
pub proof fn lemma_wrapped_value(q: nat, qe: nat, k: nat, r: nat)
    requires
        qe == q % 0x1_0000_0000,
    ensures
        (qe * pow2(k) + r) % 0x1_0000_0000 == (q * pow2(k) + r) % 0x1_0000_0000,
{
    let m: int = 0x1_0000_0000;
    let a = q as int / m;
    lemma_fundamental_div_mod(q as int, m);
    assert(q * pow2(k) + r == m * (a * pow2(k)) + (qe * pow2(k) + r)) by (nonlinear_arith)
        requires
            q == m * a + qe,
    ;
    vstd::arithmetic::div_mod::lemma_mod_multiples_vanish(a * pow2(k), (qe * pow2(k) + r) as int, m);
}

/// A proper prefix of a codeword at the end of a stream decodes to nothing.
pub proof fn lemma_decode_partial(bits: Seq<bool>, pos: int, v: u32, k: nat)
    requires
        0 <= pos <= bits.len(),
        bits.len() - pos < codeword(v, k).len(),
        forall|j: int| 0 <= j < bits.len() - pos ==> bits[pos + j] == codeword(v, k)[j],
    ensures
        decode_bits(bits, pos, k, None).0 == Seq::<u32>::empty(),
{
    let cw = codeword(v, k);
    let q = v as nat / pow2(k);
    let len = bits.len() - pos;
    lemma_pow2_pos(k);
    lemma_codeword_len(v, k);
    if len <= q {
        assert forall|i: int| pos <= i < bits.len() implies bits[i] by {
            assert(bits[pos + (i - pos)] == cw[i - pos]);
        }
        lemma_ones_run(bits, pos, len as nat);
    } else {
        assert forall|i: int| pos <= i < pos + q implies bits[i] by {
            assert(bits[pos + (i - pos)] == cw[i - pos]);
        }
        let pre = ones(q) + seq![false];
        assert(ones(q).len() == q);
        assert(pre.len() == q + 1);
        assert(pre[q as int] == false);
        assert(cw == pre + bits_of(v as nat % pow2(k), k));
        assert(cw[q as int] == pre[q as int]);
        assert(bits[pos + q] == cw[q as int]);
        lemma_ones_run(bits, pos, q);
    }
}

/// Round trip: the bytes that encoding `values` produces (codewords padded
/// with one-bits to a whole byte) decode to exactly `values`.
pub proof fn lemma_round_trip(values: Seq<u32>, k: nat, bytes: Seq<u8>)
    requires
        stream_bits(bytes) == padded(codes(values, k)),
    ensures
        decoded(stream_bits(bytes), k) == values,
{
    let bits = stream_bits(bytes);
    let c = codes(values, k);
    assert(bits.subrange(0, c.len() as int) =~= c);
    lemma_decode_codes(bits, 0, values, k, None);
    lemma_decode_ones_tail(bits, c.len() as int, k, None);
    assert(values + Seq::<u32>::empty() =~= values);
}

/// Round trip with a count prefix: bytes that hold a count byte, then the
/// codewords of `values`, padded, decode to exactly `values`.
pub proof fn lemma_round_trip_counted(values: Seq<u32>, k: nat, bytes: Seq<u8>)
    requires
        values.len() <= MAX_COUNTED,
        stream_bits(bytes) == padded(bits_of(values.len(), 8) + codes(values, k)),
    ensures
        bytes.len() >= 1,
        bytes[0] == values.len(),
        decode_counted(bytes, k).0 == values,
{
    let bits = stream_bits(bytes);
    let c = codes(values, k);
    lemma_bits_of_len(values.len(), 8);
    lemma_stream_bits_len(bytes);
    lemma2_to64();
    lemma_stream_bits_prefix(bytes, 1);
    let first = bytes.subrange(0, 1);
    assert(first.drop_last() =~= Seq::<u8>::empty());
    assert(first.last() == bytes[0]);
    assert(stream_bits(Seq::<u8>::empty()) == Seq::<bool>::empty());
    assert(stream_bits(first) == stream_bits(first.drop_last()) + bits_of(first.last() as nat, 8));
    assert(stream_bits(first) =~= bits_of(bytes[0] as nat, 8));
    assert(bits.subrange(0, 8) =~= bits_of(values.len(), 8));
    lemma_bits_value_of(bits, 0, bytes[0] as nat, 8);
    lemma_bits_value_of(bits, 0, values.len(), 8);
    assert(bits.subrange(8, 8 + c.len() as int) =~= c);
    lemma_decode_codes(bits, 8, values, k, Some(values.len()));
    assert(values + Seq::<u32>::empty() =~= values);
}

/// With `k == 0` a codeword is the value in unary alone.
pub proof fn lemma_unary_when_k_zero(v: u32)
    ensures
        codeword(v, 0) == ones(v as nat) + seq![false],
{
    lemma2_to64();
    assert(codeword(v, 0) =~= ones(v as nat) + seq![false]);
}

/// Truncation: the first `m` bytes of an encoding of `values` decode to the
/// values whose codewords end within them, here the first `i`, and nothing else.
pub proof fn lemma_truncated(values: Seq<u32>, k: nat, bytes: Seq<u8>, m: int, i: int)
    requires
        stream_bits(bytes) == padded(codes(values, k)),
        0 <= m <= bytes.len(),
        0 <= i <= values.len(),
        codes(values.take(i), k).len() <= 8 * m,
        i < values.len() ==> 8 * m < codes(values.take(i + 1), k).len(),
    ensures
        decoded(stream_bits(bytes.take(m)), k) == values.take(i),
{
    let bits = stream_bits(bytes);
    let cut = stream_bits(bytes.take(m));
    let c = codes(values, k);
    let a = codes(values.take(i), k);
    lemma_stream_bits_prefix(bytes, m);
    lemma_stream_bits_len(bytes);
    assert(bytes.take(m) =~= bytes.subrange(0, m));
    assert(cut == bits.subrange(0, 8 * m));
    assert(values =~= values.take(i) + values.skip(i));
    lemma_codes_append(values.take(i), values.skip(i), k);
    assert(cut.subrange(0, a.len() as int) =~= a);
    lemma_decode_codes(cut, 0, values.take(i), k, None);
    if i == values.len() {
        assert forall|j: int| a.len() <= j < cut.len() implies cut[j] by {
            assert(values.take(i) =~= values);
            assert(cut[j] == bits[j]);
        }
        lemma_decode_ones_tail(cut, a.len() as int, k, None);
    } else {
        let v = values[i];
        let rest = values.skip(i);
        assert(rest[0] == v);
        assert(codes(rest, k) == codeword(v, k) + codes(rest.drop_first(), k));
        assert(values.take(i + 1) =~= values.take(i).push(v));
        lemma_codes_push(values.take(i), v, k);
        assert forall|j: int| 0 <= j < cut.len() - a.len() implies cut[a.len() + j] == codeword(
            v,
            k,
        )[j] by {
            assert(cut[a.len() + j] == bits[a.len() + j]);
            assert(bits[a.len() + j] == c[a.len() + j]);
        }
        lemma_decode_partial(cut, a.len() as int, v, k);
    }
    assert(values.take(i) + Seq::<u32>::empty() =~= values.take(i));
}

} // verus!
