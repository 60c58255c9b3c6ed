//! Choice of the Rice parameter from a percentile of the values.

use vstd::prelude::*;
use vstd::relations::total_ordering;
use vstd::seq_lib::to_multiset_len;
use vstd::std_specs::bits::{axiom_u32_leading_zeros, u32_leading_zeros};

verus! {

/// The order `<=` on `u32`.
pub open spec fn ascending() -> spec_fn(u32, u32) -> bool {
    |a: u32, b: u32| a <= b
}

/// `values` in ascending order.
pub open spec fn sorted_values(values: Seq<u32>) -> Seq<u32> {
    values.sort_by(ascending())
}

/// Position of the `percentile`-th percentile among `len > 0` sorted values:
/// `percentile * len / 100`, rounded down, and at most the last position.
pub open spec fn percentile_index(len: nat, percentile: nat) -> int {
    let i = (percentile * len / 100) as int;
    if i < len - 1 {
        i
    } else {
        len - 1
    }
}

/// Number of bits needed to write `v`; 0 for 0.
pub open spec fn bit_length(v: u32) -> nat {
    (32 - u32_leading_zeros(v)) as nat
}

/// The estimated parameter: the bit length of the value at the percentile,
/// and 0 for no values.
pub open spec fn estimated_k(values: Seq<u32>, percentile: nat) -> nat {
    if values.len() == 0 {
        0
    } else {
        bit_length(sorted_values(values)[percentile_index(values.len(), percentile)])
    }
}

/// Relies on `slice::sort_unstable`: it puts integers in ascending order, and
/// integers have only one ascending arrangement.
#[verifier::external_body]
fn sort_ascending(v: &mut Vec<u32>)
    ensures
        final(v)@ == sorted_values(old(v)@),
{
    v.sort_unstable();
}

/// Proposes the Rice parameter for `values`: the bit length of the value at
/// the `percentile`-th percentile (`percentile * len / 100` among the sorted
/// values, at most the last one). No values give 0.
pub fn estimate_optimal_k(values: &[u32], percentile: usize) -> (r: u8)
    ensures
        r == estimated_k(values@, percentile as nat),
        values@.len() == 0 ==> r == 0,
        r <= 32,
{
    proof {
        axiom_u32_leading_zeros(0);
    }
    if values.len() == 0 {
        return 0;
    }
    let mut sorted = vstd::slice::slice_to_vec(values);
    sort_ascending(&mut sorted);
    proof {
        lemma_sorted_values_len(values@);
    }
    let len = sorted.len();
    proof {
        assert(percentile as nat * len as nat <= 0xFFFF_FFFF_FFFF_FFFFnat * 0xFFFF_FFFF_FFFF_FFFFnat)
            by (nonlinear_arith)
            requires
                percentile <= 0xFFFF_FFFF_FFFF_FFFFnat,
                len <= 0xFFFF_FFFF_FFFF_FFFFnat,
        ;
    }
    let wide = percentile as u128 * len as u128;
    let last = len - 1;
    let at = wide / 100;
    let index: usize = if at < last as u128 {
        at as usize
    } else {
        last
    };
    assert(index == percentile_index(values@.len(), percentile as nat));
    let value = sorted[index];
    proof {
        axiom_u32_leading_zeros(value);
    }
    (32 - value.leading_zeros()) as u8
}

pub proof fn lemma_ascending_total()
    ensures
        total_ordering(ascending()),
{
}

/// Sorting keeps the number of values.
pub proof fn lemma_sorted_values_len(values: Seq<u32>)
    ensures
        sorted_values(values).len() == values.len(),
{
    lemma_ascending_total();
    values.lemma_sort_by_ensures(ascending());
    to_multiset_len(values);
    to_multiset_len(sorted_values(values));
}

/// A larger value needs at least as many bits.
pub proof fn lemma_bit_length_monotone(a: u32, b: u32)
    requires
        a <= b,
    ensures
        bit_length(a) <= bit_length(b),
{
    axiom_u32_leading_zeros(a);
    axiom_u32_leading_zeros(b);
    let la = u32_leading_zeros(a);
    let lb = u32_leading_zeros(b);
    if la < lb {
        assert(false) by (bit_vector)
            requires
                (a >> (31u32 - la) as u32) & 1u32 != 0u32,
                b >> (32u32 - lb) as u32 == 0u32,
                la < lb,
                lb <= 32u32,
                a <= b,
        ;
    }
}

/// A higher percentile never gives a smaller parameter, for the same values.
pub proof fn lemma_estimate_monotone(values: Seq<u32>, p1: nat, p2: nat)
    requires
        p1 <= p2,
    ensures
        estimated_k(values, p1) <= estimated_k(values, p2),
{
    if values.len() > 0 {
        let n = values.len();
        vstd::arithmetic::mul::lemma_mul_inequality(p1 as int, p2 as int, n as int);
        vstd::arithmetic::div_mod::lemma_div_is_ordered((p1 * n) as int, (p2 * n) as int, 100);
        let i1 = percentile_index(n, p1);
        let i2 = percentile_index(n, p2);
        assert(i1 <= i2);
        lemma_sorted_values_len(values);
        lemma_ascending_total();
        values.lemma_sort_by_ensures(ascending());
        let s = sorted_values(values);
        assert(ascending()(s[i1], s[i2]));
        lemma_bit_length_monotone(s[i1], s[i2]);
    }
}

} // verus!
