//! The Rice coder: a bit writer that packs codewords into bytes, and a bit
//! reader that turns bytes back into values.

use vstd::prelude::*;
use vstd::arithmetic::power2::{pow2, lemma2_to64, lemma_pow2_adds, lemma_pow2_pos};
use vstd::arithmetic::mul::lemma_mul_strict_inequality;
use vstd::arithmetic::div_mod::lemma_multiply_divide_lt;
use vstd::bits::{
    lemma_u32_low_bits_mask_is_mod,
    lemma_u32_shl_is_mul,
    lemma_u32_shr_is_div,
    lemma_u64_low_bits_mask_is_mod,
    lemma_u64_shl_is_mul,
    lemma_u64_shr_is_div,
    low_bits_mask,
};
use crate::bitstream::{
    bits_of,
    bits_value,
    lemma_bits_of_all_ones,
    lemma_bits_of_append,
    lemma_bits_of_index,
    lemma_bits_of_len,
    lemma_bits_of_split,
    lemma_bits_value_bound,
    lemma_stream_bits_index,
    lemma_stream_bits_len,
    lemma_stream_bits_push,
    ones,
    pad_len,
    padded,
    stream_bits,
};
use crate::format::{
    bytes_touched,
    codes,
    codeword,
    decode_bits,
    decode_counted,
    decoded,
    lemma_codes_push,
    lemma_wrapped_value,
    ones_run,
    spend,
    MAX_COUNTED,
    MAX_K,
};

verus! {

/// Why a coder could not be made or a batch could not be framed.
#[derive(Debug, Clone, Copy, PartialEq, Eq, Structural)]
pub enum RiceError {
    /// The Rice parameter is above the largest supported one.
    ParameterOutOfRange,
    /// A count-prefixed batch holds more values than one byte can count.
    TooManyValues,
}

/// A Rice coder with parameter `k`: a value `v` is written as `v >> k` in
/// unary, then the low `k` bits of `v`. Bits wait in a buffer until they
/// make whole bytes.
pub struct RiceCoder {
    k: u8,
    buffer: u64,
    buffer_len: u8,
}

impl RiceCoder {
    /// The Rice parameter.
    pub closed spec fn param(&self) -> nat {
        self.k as nat
    }

    /// Bits written but not yet out as a whole byte.
    pub closed spec fn pending(&self) -> Seq<bool> {
        bits_of(self.buffer as nat, self.buffer_len as nat)
    }

    /// The parameter is in range, and fewer than eight bits wait in the buffer.
    pub closed spec fn wf(&self) -> bool {
        &&& self.k <= MAX_K
        &&& self.buffer_len < 8
        &&& self.buffer < pow2(self.buffer_len as nat)
    }

    /// A coder with parameter `k` and nothing pending.
    pub fn new(k: u8) -> (r: Self)
        requires
            k <= MAX_K,
        ensures
            r.wf(),
            r.param() == k,
            r.pending() == Seq::<bool>::empty(),
    {
        proof {
            lemma2_to64();
        }
        RiceCoder { k, buffer: 0, buffer_len: 0 }
    }

    /// Moves every whole byte of the buffer to `output`.
    fn flush_buffer(&mut self, output: &mut Vec<u8>)
        requires
            old(self).buffer < pow2(old(self).buffer_len as nat),
            old(self).buffer_len <= 64,
        ensures
            final(self).k == old(self).k,
            final(self).buffer_len == old(self).buffer_len % 8,
            final(self).buffer < pow2(final(self).buffer_len as nat),
            stream_bits(final(output)@) + final(self).pending() == stream_bits(old(output)@)
                + old(self).pending(),
    {
        while self.buffer_len >= 8
            invariant
                self.k == old(self).k,
                self.buffer < pow2(self.buffer_len as nat),
                self.buffer_len <= 64,
                self.buffer_len % 8 == old(self).buffer_len % 8,
                stream_bits(output@) + self.pending() == stream_bits(old(output)@)
                    + old(self).pending(),
            decreases self.buffer_len,
        {
            let ghost rest = (self.buffer_len - 8) as nat;
            proof {
                lemma_u64_shr_is_div(self.buffer, (self.buffer_len - 8) as u64);
                lemma_pow2_adds(8, rest);
                lemma_pow2_pos(rest);
                lemma2_to64();
                assert(self.buffer < pow2(8) * pow2(rest));
                lemma_multiply_divide_lt(self.buffer as int, pow2(rest) as int, pow2(8) as int);
                lemma_bits_of_split(self.buffer as nat, 8, rest);
            }
            let byte = (self.buffer >> (self.buffer_len - 8)) as u8;
            proof {
                lemma_stream_bits_push(output@, byte);
            }
            output.push(byte);
            self.buffer_len = self.buffer_len - 8;
            proof {
                vstd::bits::lemma_u64_pow2_no_overflow(self.buffer_len as nat);
                lemma_u64_shl_is_mul(1, self.buffer_len as u64);
                lemma_u64_low_bits_mask_is_mod(self.buffer, self.buffer_len as nat);
                assert(low_bits_mask(self.buffer_len as nat) as u64 == ((1u64 << self.buffer_len) - 1) as u64);
                vstd::arithmetic::div_mod::lemma_mod_bound(self.buffer as int, pow2(rest) as int);
            }
            self.buffer = self.buffer & ((1u64 << self.buffer_len) - 1);
        }
    }

    /// Appends the `num_bits` low bits of `value` to the buffer.
    fn write_bits_to_buffer(&mut self, value: u32, num_bits: u8)
        requires
            old(self).buffer < pow2(old(self).buffer_len as nat),
            old(self).buffer_len + num_bits <= 64,
            num_bits <= 32,
            value < pow2(num_bits as nat),
        ensures
            final(self).k == old(self).k,
            final(self).buffer_len == old(self).buffer_len + num_bits,
            final(self).buffer < pow2(final(self).buffer_len as nat),
            final(self).pending() == old(self).pending() + bits_of(value as nat, num_bits as nat),
    {
        proof {
            let n = num_bits as nat;
            let m = self.buffer_len as nat;
            lemma_pow2_adds(m, n);
            lemma_pow2_pos(n);
            lemma2_to64();
            lemma_mul_strict_inequality(self.buffer as int, pow2(m) as int, pow2(n) as int);
            assert(pow2(m + n) <= pow2(64)) by {
                if m + n < 64 {
                    vstd::arithmetic::power2::lemma_pow2_strictly_increases(m + n, 64);
                }
            }
            assert(self.buffer * pow2(n) + value < pow2(m) * pow2(n)) by (nonlinear_arith)
                requires
                    self.buffer + 1 <= pow2(m),
                    value < pow2(n),
                    pow2(n) > 0,
            ;
            lemma_u64_shl_is_mul(self.buffer, num_bits as u64);
            lemma_bits_of_append(self.buffer as nat, m, value as nat, n);
        }
        self.buffer = (self.buffer << num_bits) + value as u64;
        self.buffer_len = self.buffer_len + num_bits;
    }

    /// Appends the codeword of `value`.
    fn encode(&mut self, value: u32, output: &mut Vec<u8>)
        requires
            old(self).wf(),
        ensures
            final(self).wf(),
            final(self).k == old(self).k,
            stream_bits(final(output)@) + final(self).pending() == stream_bits(old(output)@)
                + old(self).pending() + codeword(value, old(self).k as nat),
    {
        let ghost k = self.k as nat;
        let ghost start = stream_bits(output@) + self.pending();
        proof {
            lemma_u32_shr_is_div(value, self.k as u32);
            vstd::bits::lemma_u32_pow2_no_overflow(k);
            lemma_u32_shl_is_mul(1, self.k as u32);
            lemma_u32_low_bits_mask_is_mod(value, k);
            lemma2_to64();
        }
        let quotient = value >> self.k;
        let remainder = value & ((1u32 << self.k) - 1);
        proof {
            assert(low_bits_mask(k) as u32 == ((1u32 << self.k) - 1) as u32);
            assert(quotient == value as nat / pow2(k));
            assert(remainder == value as nat % pow2(k));
        }
        let mut remaining = quotient;
        while remaining >= 32
            invariant
                self.wf(),
                self.k as nat == k,
                remaining <= quotient,
                stream_bits(output@) + self.pending() == start + ones((quotient - remaining) as nat),
            decreases remaining,
        {
            proof {
                lemma_bits_of_all_ones(32);
                lemma2_to64();
            }
            let ghost before = stream_bits(output@) + self.pending();
            self.write_bits_to_buffer(0xFFFF_FFFF, 32);
            remaining = remaining - 32;
            self.flush_buffer(output);
            proof {
                assert(stream_bits(output@) + self.pending() == before + ones(32));
                assert(ones((quotient - remaining - 32) as nat) + ones(32) =~= ones(
                    (quotient - remaining) as nat,
                ));
            }
        }
        if remaining > 0 {
            proof {
                vstd::bits::lemma_u32_pow2_no_overflow(remaining as nat);
                lemma_u32_shl_is_mul(1, remaining);
                lemma_bits_of_all_ones(remaining as nat);
            }
            let mask = (1u32 << remaining) - 1;
            let ghost before = stream_bits(output@) + self.pending();
            self.write_bits_to_buffer(mask, remaining as u8);
            proof {
                assert(mask as nat == (pow2(remaining as nat) - 1) as nat);
                assert(stream_bits(output@) + self.pending() == before + ones(remaining as nat));
                assert(ones((quotient - remaining) as nat) + ones(remaining as nat) =~= ones(
                    quotient as nat,
                ));
            }
        } else {
            proof {
                assert(ones((quotient - remaining) as nat) =~= ones(quotient as nat));
            }
        }
        let ghost unary = stream_bits(output@) + self.pending();
        proof {
            assert(unary == start + ones(quotient as nat));
            assert(bits_of(0, 1) == bits_of(0, 0).push(false));
            assert(bits_of(0, 1) =~= seq![false]);
        }
        self.write_bits_to_buffer(0, 1);
        self.flush_buffer(output);
        let ghost terminated = stream_bits(output@) + self.pending();
        proof {
            assert(terminated == unary + seq![false]);
        }
        self.write_bits_to_buffer(remainder, self.k);
        self.flush_buffer(output);
        proof {
            assert(stream_bits(output@) + self.pending() == terminated + bits_of(
                remainder as nat,
                k,
            ));
            assert(stream_bits(output@) + self.pending() =~= start + codeword(value, k));
        }
    }

    /// Appends the codewords of `values`, leaving the last bits pending.
    fn encode_all(&mut self, values: &[u32], output: &mut Vec<u8>)
        requires
            old(self).wf(),
        ensures
            final(self).wf(),
            final(self).k == old(self).k,
            stream_bits(final(output)@) + final(self).pending() == stream_bits(old(output)@)
                + old(self).pending() + codes(values@, old(self).k as nat),
    {
        let ghost k = self.k as nat;
        let ghost start = stream_bits(output@) + self.pending();
        let mut i: usize = 0;
        while i < values.len()
            invariant
                self.wf(),
                self.k as nat == k,
                i <= values@.len(),
                stream_bits(output@) + self.pending() == start + codes(values@.take(i as int), k),
            decreases values@.len() - i,
        {
            proof {
                assert(values@.take(i + 1) =~= values@.take(i as int).push(values@[i as int]));
                lemma_codes_push(values@.take(i as int), values@[i as int], k);
            }
            self.encode(values[i], output);
            i = i + 1;
            proof {
                assert(start + codes(values@.take(i - 1), k) + codeword(values@[i - 1], k) =~= start
                    + codes(values@.take(i as int), k));
            }
        }
        proof {
            assert(values@.take(i as int) =~= values@);
        }
    }

    /// Encodes `values` and finalizes: the bits appended to `output` are those
    /// pending before, then the codewords of `values`, padded with one-bits to
    /// a whole byte.
    pub fn encode_vals(&mut self, values: &[u32], output: &mut Vec<u8>)
        requires
            old(self).wf(),
        ensures
            final(self).wf(),
            final(self).param() == old(self).param(),
            final(self).pending() == Seq::<bool>::empty(),
            stream_bits(final(output)@) == padded(
                stream_bits(old(output)@) + old(self).pending() + codes(values@, old(self).param()),
            ),
    {
        self.encode_all(values, output);
        self.finalize(output);
    }

    /// Encodes `values` after a one-byte count of them, and finalizes. Fails,
    /// writing nothing, when there are more values than a byte can count.
    pub fn encode_vals_counted(&mut self, values: &[u32], output: &mut Vec<u8>) -> (r: Result<
        (),
        RiceError,
    >)
        requires
            old(self).wf(),
        ensures
            final(self).wf(),
            final(self).param() == old(self).param(),
            r is Err <==> values@.len() > MAX_COUNTED,
            r is Err ==> r == Err::<(), RiceError>(RiceError::TooManyValues) && *final(self)
                == *old(self) && final(output)@ == old(output)@,
            r is Ok ==> final(self).pending() == Seq::<bool>::empty() && stream_bits(
                final(output)@,
            ) == padded(
                stream_bits(old(output)@) + old(self).pending() + bits_of(values@.len(), 8) + codes(
                    values@,
                    old(self).param(),
                ),
            ),
    {
        if values.len() > MAX_COUNTED {
            return Err(RiceError::TooManyValues);
        }
        proof {
            lemma2_to64();
        }
        self.write_bits_to_buffer(values.len() as u32, 8);
        self.flush_buffer(output);
        self.encode_all(values, output);
        self.finalize(output);
        Ok(())
    }

    /// Pads the pending bits with one-bits to a whole byte and moves it to
    /// `output`. With nothing pending it writes nothing.
    pub fn finalize(&mut self, output: &mut Vec<u8>)
        requires
            old(self).wf(),
        ensures
            final(self).wf(),
            final(self).param() == old(self).param(),
            final(self).pending() == Seq::<bool>::empty(),
            stream_bits(final(output)@) == padded(stream_bits(old(output)@) + old(self).pending()),
            old(self).pending().len() == 0 ==> final(output)@ == old(output)@,
    {
        proof {
            lemma_bits_of_len(self.buffer as nat, self.buffer_len as nat);
            lemma_stream_bits_len(output@);
            lemma2_to64();
            let n = output@.len() as int;
            vstd::arithmetic::div_mod::lemma_mod_multiples_vanish(n, self.buffer_len as int, 8);
        }
        if self.buffer_len > 0 {
            let pad = 8 - self.buffer_len;
            proof {
                vstd::bits::lemma_u32_pow2_no_overflow(pad as nat);
                lemma_u32_shl_is_mul(1, pad as u32);
                lemma_bits_of_all_ones(pad as nat);
            }
            self.write_bits_to_buffer((1u32 << pad) - 1, pad);
            self.flush_buffer(output);
            proof {
                assert(pad_len((stream_bits(old(output)@) + old(self).pending()).len()) == pad);
            }
        } else {
            proof {
                assert(padded(stream_bits(output@) + self.pending()) =~= stream_bits(output@));
            }
        }
    }

    /// Decodes `input` (no count prefix) and appends the values to `out`, until
    /// no complete codeword is left: one-bits at the end are padding, not an
    /// error. Returns the number of bytes read, which is all of `input`.
    pub fn decode_into(&self, input: &[u8], out: &mut Vec<u32>) -> (r: usize)
        requires
            self.wf(),
        ensures
            final(out)@ == old(out)@ + decoded(stream_bits(input@), self.param()),
            r == input@.len(),
    {
        let r = self.decode_from(input, 0, None, out);
        proof {
            crate::format::lemma_decode_reads_all(stream_bits(input@), 0, self.k as nat);
            lemma_stream_bits_len(input@);
        }
        r
    }

    /// Decodes `input` whose first byte counts the values that follow, and
    /// appends them to `out`; fewer come out where `input` ends first.
    /// Returns the number of bytes read.
    pub fn decode_counted_into(&self, input: &[u8], out: &mut Vec<u32>) -> (r: usize)
        requires
            self.wf(),
        ensures
            final(out)@ == old(out)@ + decode_counted(input@, self.param()).0,
            r == bytes_touched(decode_counted(input@, self.param()).1),
    {
        if input.len() == 0 {
            proof {
                assert(old(out)@ + Seq::<u32>::empty() =~= old(out)@);
            }
            return 0;
        }
        let count = input[0];
        self.decode_from(input, 1, Some(count as usize), out)
    }

    /// Decodes from byte `start` to the end of `input`, or until `limit`
    /// values are out.
    fn decode_from(&self, input: &[u8], start: usize, limit: Option<usize>, out: &mut Vec<u32>) -> (r: usize)
        requires
            self.wf(),
            start <= input@.len(),
        ensures
            ({
                let d = decode_bits(stream_bits(input@), 8 * start, self.k as nat, budget(limit));
                final(out)@ == old(out)@ + d.0 && r == bytes_touched(d.1)
            }),
    {
        let ghost bits = stream_bits(input@);
        let ghost k = self.k as nat;
        let ghost whole = decode_bits(bits, 8 * start, k, budget(limit));
        proof {
            lemma_stream_bits_len(input@);
        }
        let mut byte_pos: usize = start;
        let mut bit_pos: u8 = 0;
        let mut left = limit;
        loop
            invariant_except_break
                self.wf(),
                self.k as nat == k,
                bits == stream_bits(input@),
                bits.len() == 8 * input@.len(),
                byte_pos <= input@.len(),
                bit_pos < 8,
                byte_pos == input@.len() ==> bit_pos == 0,
                old(out)@ + whole.0 == out@ + decode_bits(bits, 8 * byte_pos + bit_pos, k, budget(left)).0,
                whole.1 == decode_bits(bits, 8 * byte_pos + bit_pos, k, budget(left)).1,
            ensures
                old(out)@ + whole.0 == out@,
                whole.1 == 8 * byte_pos + bit_pos,
                byte_pos <= input@.len(),
                bit_pos < 8,
                byte_pos == input@.len() ==> bit_pos == 0,
            decreases 8 * input@.len() - (8 * byte_pos + bit_pos),
        {
            if let Some(n) = left {
                if n == 0 {
                    break;
                }
            }
            let ghost run_start = 8 * byte_pos + bit_pos;
            let mut quotient: u32 = 0;
            let mut terminated = false;
            loop
                invariant_except_break
                    bits == stream_bits(input@),
                    bits.len() == 8 * input@.len(),
                    0 <= run_start,
                    !terminated,
                    byte_pos <= input@.len(),
                    bit_pos < 8,
                    byte_pos == input@.len() ==> bit_pos == 0,
                    run_start <= 8 * byte_pos + bit_pos <= bits.len(),
                    forall|i: int| run_start <= i < 8 * byte_pos + bit_pos ==> bits[i],
                    quotient == (8 * byte_pos + bit_pos - run_start) % 0x1_0000_0000,
                ensures
                    byte_pos <= input@.len(),
                    bit_pos < 8,
                    byte_pos == input@.len() ==> bit_pos == 0,
                    terminated ==> ones_run(bits, run_start) == 8 * byte_pos + bit_pos - 1 - run_start
                        && quotient == ones_run(bits, run_start) % 0x1_0000_0000,
                    !terminated ==> ones_run(bits, run_start) == bits.len() - run_start
                        && 8 * byte_pos + bit_pos == bits.len(),
                decreases 8 * input@.len() - (8 * byte_pos + bit_pos),
            {
                let ghost p = 8 * byte_pos + bit_pos;
                match read_bit(input, &mut byte_pos, &mut bit_pos) {
                    None => {
                        proof {
                            crate::format::lemma_ones_run(bits, run_start, (p - run_start) as nat);
                        }
                        break;
                    },
                    Some(true) => {
                        quotient = quotient.wrapping_add(1);
                    },
                    Some(false) => {
                        terminated = true;
                        proof {
                            crate::format::lemma_ones_run(bits, run_start, (p - run_start) as nat);
                        }
                        break;
                    },
                }
            }
            if !terminated {
                break;
            }
            let ghost q = ones_run(bits, run_start);
            let ghost s = run_start + q + 1;
            let remainder = match read_bits(input, self.k, &mut byte_pos, &mut bit_pos) {
                Some(r) => r,
                None => break,
            };
            proof {
                lemma_bits_value_bound(bits, s, k);
                vstd::bits::lemma_u64_pow2_no_overflow(k);
                lemma2_to64();
                assert(quotient * pow2(k) <= 0xFFFF_FFFF * 0x8000_0000) by (nonlinear_arith)
                    requires quotient <= 0xFFFF_FFFF, pow2(k) <= 0x8000_0000;
                lemma_u64_shl_is_mul(quotient as u64, self.k as u64);
                lemma_wrapped_value(q, quotient as nat, k, remainder as nat);
            }
            let ghost left_before = left;
            let shifted = (quotient as u64) << self.k;
            let sum = shifted + remainder as u64;
            let value = sum as u32;
            proof {
                assert(shifted == quotient as nat * pow2(k));
                assert(sum == quotient as nat * pow2(k) + remainder);
                assert(value == sum % 0x1_0000_0000) by (bit_vector)
                    requires
                        value == sum as u32,
                ;
                assert(value as nat == (q * pow2(k) + bits_value(bits, s, k)) % 0x1_0000_0000);
                let d = decode_bits(bits, run_start, k, budget(left_before));
                let rest = decode_bits(bits, s + k, k, spend(budget(left_before)));
                assert(d.0 == seq![value] + rest.0);
                assert(d.1 == rest.1);
                assert(out@.push(value) + rest.0 =~= out@ + d.0);
            }
            out.push(value);
            left = match left {
                Some(n) => Some(n - 1),
                None => None,
            };
            proof {
                assert(budget(left) == spend(budget(left_before)));
            }
        }
        // Bytes touched: a partly read byte counts.
        let len = input.len();
        if bit_pos > 0 && byte_pos < len {
            byte_pos + 1
        } else {
            byte_pos
        }
    }
}

/// Makes a coder for a parameter known only at run time; fails on one above
/// the largest supported.
pub fn create_rice_coder(k: u8) -> (r: Result<RiceCoder, RiceError>)
    ensures
        r is Ok <==> k <= MAX_K,
        r is Ok ==> r->Ok_0.wf() && r->Ok_0.param() == k && r->Ok_0.pending() == Seq::<bool>::empty(),
        r is Err ==> r == Err::<RiceCoder, RiceError>(RiceError::ParameterOutOfRange),
{
    if k > MAX_K {
        Err(RiceError::ParameterOutOfRange)
    } else {
        Ok(RiceCoder::new(k))
    }
}

/// Reads the bit at `8 * byte_pos + bit_pos` and steps past it; `None` at the end.
fn read_bit(input: &[u8], byte_pos: &mut usize, bit_pos: &mut u8) -> (r: Option<bool>)
    requires
        *old(byte_pos) <= input@.len(),
        *old(bit_pos) < 8,
        *old(byte_pos) == input@.len() ==> *old(bit_pos) == 0,
    ensures
        *final(byte_pos) <= input@.len(),
        *final(bit_pos) < 8,
        *final(byte_pos) == input@.len() ==> *final(bit_pos) == 0,
        *old(byte_pos) < input@.len() ==> 8 * *final(byte_pos) + *final(bit_pos) == 8 * *old(byte_pos)
            + *old(bit_pos) + 1 && r == Some(stream_bits(input@)[8 * *old(byte_pos) + *old(bit_pos)]),
        *old(byte_pos) == input@.len() ==> r is None && *final(byte_pos) == *old(byte_pos)
            && *final(bit_pos) == *old(bit_pos),
{
    if *byte_pos >= input.len() {
        return None;
    }
    let byte = input[*byte_pos];
    let shift = 7 - *bit_pos;
    proof {
        lemma_stream_bits_index(input@, *byte_pos as int, *bit_pos as int);
        lemma_bits_of_index(byte as nat, 8, *bit_pos as int);
        vstd::bits::lemma_u8_shr_is_div(byte, shift);
        let sh = byte >> shift;
        assert(sh & 1 == sh % 2) by (bit_vector);
    }
    let bit = (byte >> shift) & 1 == 1;
    *bit_pos = (*bit_pos + 1) % 8;
    if *bit_pos == 0 {
        *byte_pos = *byte_pos + 1;
    }
    Some(bit)
}

/// Reads `num_bits` bits from `8 * byte_pos + bit_pos`, most significant
/// first; `None` where the input ends first, having read to its end.
fn read_bits(input: &[u8], num_bits: u8, byte_pos: &mut usize, bit_pos: &mut u8) -> (r: Option<u32>)
    requires
        num_bits <= MAX_K,
        *old(byte_pos) <= input@.len(),
        *old(bit_pos) < 8,
        *old(byte_pos) == input@.len() ==> *old(bit_pos) == 0,
    ensures
        *final(byte_pos) <= input@.len(),
        *final(bit_pos) < 8,
        *final(byte_pos) == input@.len() ==> *final(bit_pos) == 0,
        ({
            let bits = stream_bits(input@);
            let p = 8 * *old(byte_pos) + *old(bit_pos);
            let end = 8 * *final(byte_pos) + *final(bit_pos);
            if p + num_bits <= bits.len() {
                r == Some(bits_value(bits, p, num_bits as nat) as u32) && end == p + num_bits
            } else {
                r is None && end == bits.len()
            }
        }),
{
    let ghost bits = stream_bits(input@);
    let ghost p = 8 * *byte_pos + *bit_pos;
    proof {
        lemma_stream_bits_len(input@);
    }
    let mut value: u32 = 0;
    let mut j: u8 = 0;
    while j < num_bits
        invariant
            bits == stream_bits(input@),
            bits.len() == 8 * input@.len(),
            num_bits <= MAX_K,
            p == 8 * *old(byte_pos) + *old(bit_pos),
            *byte_pos <= input@.len(),
            *bit_pos < 8,
            *byte_pos == input@.len() ==> *bit_pos == 0,
            j <= num_bits,
            8 * *byte_pos + *bit_pos == p + j,
            p + j <= bits.len(),
            value == bits_value(bits, p, j as nat),
        decreases num_bits - j,
    {
        match read_bit(input, byte_pos, bit_pos) {
            None => {
                proof {
                    assert(8 * *byte_pos + *bit_pos == bits.len());
                    assert(p + num_bits > bits.len());
                }
                return None;
            },
            Some(b) => {
                proof {
                    lemma_bits_value_bound(bits, p, j as nat);
                    vstd::arithmetic::power2::lemma_pow2_strictly_increases(j as nat, 31);
                    lemma2_to64();
                    let bv = b as u32;
                    let rv = value;
                    assert(rv < 0x8000_0000 && bv <= 1 ==> (rv << 1u32) | bv == 2 * rv + bv)
                        by (bit_vector);
                }
                value = (value << 1) | (b as u32);
                j = j + 1;
            },
        }
    }
    Some(value)
}

/// A decoding budget as a number of values, or none.
pub open spec fn budget(limit: Option<usize>) -> Option<nat> {
    match limit {
        Some(n) => Some(n as nat),
        None => None,
    }
}

} // verus!
