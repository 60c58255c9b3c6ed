//! Bit-level model of an encoded stream: bit strings, bytes as bits, and
//! the values that runs of bits stand for.

use vstd::prelude::*;
use vstd::arithmetic::power2::{pow2, lemma2_to64, lemma_pow2_pos, lemma_pow2_unfold};
use vstd::arithmetic::div_mod::{
    lemma_div_denominator,
    lemma_fundamental_div_mod_converse,
    lemma_mod_breakdown,
};

verus! {

/// The low `n` bits of `v`, most significant first.
pub open spec fn bits_of(v: nat, n: nat) -> Seq<bool>
    decreases n,
{
    if n == 0 {
        Seq::empty()
    } else {
        bits_of(v / 2, (n - 1) as nat).push(v % 2 == 1)
    }
}

/// A run of `n` one-bits.
pub open spec fn ones(n: nat) -> Seq<bool> {
    Seq::new(n, |i: int| true)
}

/// The number read from the `n` bits of `bits` that start at `pos`,
/// most significant first.
pub open spec fn bits_value(bits: Seq<bool>, pos: int, n: nat) -> nat
    decreases n,
{
    if n == 0 {
        0
    } else {
        2 * bits_value(bits, pos, (n - 1) as nat) + if bits[pos + n - 1] {
            1nat
        } else {
            0nat
        }
    }
}

/// The bits of a byte sequence: the bytes in order, each most significant bit first.
pub open spec fn stream_bits(bytes: Seq<u8>) -> Seq<bool>
    decreases bytes.len(),
{
    if bytes.len() == 0 {
        Seq::empty()
    } else {
        stream_bits(bytes.drop_last()) + bits_of(bytes.last() as nat, 8)
    }
}

/// Number of one-bits that bring a string of `n` bits to a whole number of bytes.
pub open spec fn pad_len(n: nat) -> nat {
    ((8 - n % 8) % 8) as nat
}

/// `bits` followed by the one-bits that complete its last byte.
pub open spec fn padded(bits: Seq<bool>) -> Seq<bool> {
    bits + ones(pad_len(bits.len()))
}

pub proof fn lemma_bits_of_len(v: nat, n: nat)
    ensures
        bits_of(v, n).len() == n,
    decreases n,
{
    if n > 0 {
        lemma_bits_of_len(v / 2, (n - 1) as nat);
    }
}

/// The `a + b` low bits of `v` are its bits above position `b`, then its `b` lowest bits.
pub proof fn lemma_bits_of_split(v: nat, a: nat, b: nat)
    ensures
        bits_of(v, a + b) == bits_of(v / pow2(b), a) + bits_of(v % pow2(b), b),
    decreases b,
{
    if b == 0 {
        lemma2_to64();
        assert(bits_of(v, a + b) =~= bits_of(v / pow2(b), a) + bits_of(v % pow2(b), b));
    } else {
        let b1 = (b - 1) as nat;
        lemma_bits_of_split(v / 2, a, b1);
        lemma_pow2_unfold(b);
        lemma_pow2_pos(b1);
        lemma_div_denominator(v as int, 2, pow2(b1) as int);
        lemma_mod_breakdown(v as int, 2, pow2(b1) as int);
        let low = v % pow2(b);
        assert(low == 2 * ((v / 2) % pow2(b1)) + v % 2);
        assert(low / 2 == (v / 2) % pow2(b1));
        assert(low % 2 == v % 2);
        assert(bits_of(v, a + b) == bits_of(v / 2, (a + b1) as nat).push(v % 2 == 1));
        assert(bits_of(low, b) == bits_of(low / 2, b1).push(low % 2 == 1));
        assert(bits_of(v, a + b) =~= bits_of(v / pow2(b), a) + bits_of(v % pow2(b), b));
    }
}

/// Appending `n` bits of `x` to the bits of `h` gives the bits of `h * 2^n + x`.
pub proof fn lemma_bits_of_append(h: nat, m: nat, x: nat, n: nat)
    requires
        x < pow2(n),
    ensures
        bits_of(h * pow2(n) + x, m + n) == bits_of(h, m) + bits_of(x, n),
{
    lemma_pow2_pos(n);
    lemma_fundamental_div_mod_converse(
        (h * pow2(n) + x) as int,
        pow2(n) as int,
        h as int,
        x as int,
    );
    lemma_bits_of_split(h * pow2(n) + x, m, n);
}

/// `2^n - 1` is a run of `n` one-bits.
pub proof fn lemma_bits_of_all_ones(n: nat)
    ensures
        pow2(n) >= 1,
        bits_of((pow2(n) - 1) as nat, n) == ones(n),
    decreases n,
{
    lemma_pow2_pos(n);
    if n == 0 {
        assert(bits_of((pow2(n) - 1) as nat, n) =~= ones(n));
    } else {
        let n1 = (n - 1) as nat;
        lemma_bits_of_all_ones(n1);
        lemma_pow2_unfold(n);
        let v = (pow2(n) - 1) as nat;
        assert(v / 2 == pow2(n1) - 1);
        assert(v % 2 == 1);
        assert(bits_of(v, n) =~= ones(n));
    }
}

/// Reading back `n` bits that hold `v < 2^n` gives `v`.
pub proof fn lemma_bits_value_of(bits: Seq<bool>, pos: int, v: nat, n: nat)
    requires
        0 <= pos,
        pos + n <= bits.len(),
        v < pow2(n),
        bits.subrange(pos, pos + n) == bits_of(v, n),
    ensures
        bits_value(bits, pos, n) == v,
    decreases n,
{
    if n == 0 {
        lemma2_to64();
    } else {
        let n1 = (n - 1) as nat;
        lemma_pow2_unfold(n);
        lemma_bits_of_len(v / 2, n1);
        assert(bits.subrange(pos, pos + n1) =~= bits_of(v, n).drop_last());
        assert(bits_of(v, n).drop_last() =~= bits_of(v / 2, n1));
        lemma_bits_value_of(bits, pos, v / 2, n1);
        assert(bits[pos + n - 1] == bits.subrange(pos, pos + n)[n - 1]);
        assert(bits_of(v, n)[n - 1] == (v % 2 == 1));
    }
}

/// The number read from `n` bits is below `2^n`.
pub proof fn lemma_bits_value_bound(bits: Seq<bool>, pos: int, n: nat)
    ensures
        bits_value(bits, pos, n) < pow2(n),
    decreases n,
{
    if n == 0 {
        lemma2_to64();
    } else {
        lemma_bits_value_bound(bits, pos, (n - 1) as nat);
        lemma_pow2_unfold(n);
    }
}

pub proof fn lemma_stream_bits_len(bytes: Seq<u8>)
    ensures
        stream_bits(bytes).len() == 8 * bytes.len(),
    decreases bytes.len(),
{
    if bytes.len() > 0 {
        lemma_stream_bits_len(bytes.drop_last());
        lemma_bits_of_len(bytes.last() as nat, 8);
    }
}

/// Pushing a byte appends its eight bits.
pub proof fn lemma_stream_bits_push(bytes: Seq<u8>, b: u8)
    ensures
        stream_bits(bytes.push(b)) == stream_bits(bytes) + bits_of(b as nat, 8),
{
    assert(bytes.push(b).drop_last() =~= bytes);
}

/// Bit `j` of the `n` low bits of `v` (most significant first) is bit `n - 1 - j` of `v`.
pub proof fn lemma_bits_of_index(v: nat, n: nat, j: int)
    requires
        0 <= j < n,
    ensures
        bits_of(v, n).len() == n,
        bits_of(v, n)[j] == ((v / pow2((n - 1 - j) as nat)) % 2 == 1),
    decreases n,
{
    lemma_bits_of_len(v, n);
    let n1 = (n - 1) as nat;
    lemma_bits_of_len(v / 2, n1);
    if j == n - 1 {
        lemma2_to64();
    } else {
        lemma_bits_of_index(v / 2, n1, j);
        let e = (n1 - 1 - j) as nat;
        lemma_pow2_pos(e);
        lemma_pow2_unfold(e + 1);
        lemma_div_denominator(v as int, 2, pow2(e) as int);
        assert((n - 1 - j) as nat == e + 1);
    }
}

/// Bit `8 * i + j` of a byte stream is bit `j` of byte `i`.
pub proof fn lemma_stream_bits_index(bytes: Seq<u8>, i: int, j: int)
    requires
        0 <= i < bytes.len(),
        0 <= j < 8,
    ensures
        stream_bits(bytes).len() == 8 * bytes.len(),
        stream_bits(bytes)[8 * i + j] == bits_of(bytes[i] as nat, 8)[j],
    decreases bytes.len(),
{
    lemma_stream_bits_len(bytes);
    let init = bytes.drop_last();
    lemma_stream_bits_len(init);
    lemma_bits_of_len(bytes.last() as nat, 8);
    if i < bytes.len() - 1 {
        lemma_stream_bits_index(init, i, j);
    }
}

/// The bits of the first `m` bytes are the first `8 * m` bits.
pub proof fn lemma_stream_bits_prefix(bytes: Seq<u8>, m: int)
    requires
        0 <= m <= bytes.len(),
    ensures
        stream_bits(bytes.subrange(0, m)) == stream_bits(bytes).subrange(0, 8 * m),
{
    let pre = bytes.subrange(0, m);
    lemma_stream_bits_len(pre);
    lemma_stream_bits_len(bytes);
    assert forall|p: int| 0 <= p < 8 * m implies stream_bits(pre)[p] == stream_bits(bytes)[p] by {
        let i = p / 8;
        let j = p % 8;
        lemma_stream_bits_index(pre, i, j);
        lemma_stream_bits_index(bytes, i, j);
    }
    assert(stream_bits(pre) =~= stream_bits(bytes).subrange(0, 8 * m));
}

} // verus!
