//! Prefixes of 128-bit keys: the leading bits of a key, read as a number.

use vstd::prelude::*;
use vstd::arithmetic::div_mod::{
    lemma_basic_div, lemma_div_denominator, lemma_multiply_divide_lt, lemma_small_mod,
};
use vstd::arithmetic::power2::{
    lemma2_to64, lemma_pow2_adds, lemma_pow2_pos, lemma_pow2_unfold, pow2,
};
use crate::bits::{bit_field, extract_bits_u128, lemma_pow2_128};

verus! {

/// The number of bits in a key.
pub const KEY_WIDTH: usize = 128;

/// A prefix as the table knows it: the value of its leading bits, and how many
/// of them there are.
pub type PrefixId = (nat, nat);

/// What the table stores for each prefix: the identifier of its point of presence.
pub type Table = Map<PrefixId, u16>;

/// The leading `len` bits of `key`, read as a number.
pub open spec fn top_bits(key: u128, len: nat) -> nat
    recommends
        len <= 128,
{
    (key as nat) / pow2((128 - len) as nat)
}

/// The prefix made of the leading `len` bits of `key`.
pub open spec fn prefix_of(key: u128, len: nat) -> PrefixId {
    (top_bits(key, len), len)
}

/// The leading bits of a key are the bit field that starts at bit 0.
pub proof fn lemma_top_bits_is_field(key: u128, len: nat)
    requires
        len <= 128,
    ensures
        top_bits(key, len) == bit_field(key as nat, 128, 0, len),
        top_bits(key, len) < pow2(len),
{
    let low = pow2((128 - len) as nat);
    lemma_pow2_pos((128 - len) as nat);
    lemma_pow2_adds((128 - len) as nat, len);
    lemma_pow2_128();
    assert(low * pow2(len) == pow2(len) * low) by (nonlinear_arith);
    lemma_multiply_divide_lt(key as int, low as int, pow2(len) as int);
    lemma_small_mod(top_bits(key, len), pow2(len));
}

/// A key has no leading bits of length zero.
pub proof fn lemma_top_bits_zero(key: u128)
    ensures
        top_bits(key, 0) == 0,
{
    lemma_pow2_128();
    lemma_basic_div(key as int, pow2(128) as int);
}

/// One more leading bit doubles the number and adds the bit.
pub proof fn lemma_top_bits_step(key: u128, len: nat)
    requires
        len < 128,
    ensures
        top_bits(key, len + 1) == 2 * top_bits(key, len) + bit_field(key as nat, 128, len, 1),
        bit_field(key as nat, 128, len, 1) <= 1,
{
    let low = pow2((127 - len) as nat);
    lemma_pow2_pos((127 - len) as nat);
    lemma_pow2_unfold((128 - len) as nat);
    lemma2_to64();
    lemma_div_denominator(key as int, low as int, 2);
    assert(low * 2 == 2 * low);
}

/// Dropping the last bits of the leading `len` bits leaves the leading `shorter` bits.
pub proof fn lemma_top_bits_truncate(key: u128, len: nat, shorter: nat)
    requires
        shorter <= len <= 128,
    ensures
        top_bits(key, len) / pow2((len - shorter) as nat) == top_bits(key, shorter),
{
    let low = pow2((128 - len) as nat);
    let mid = pow2((len - shorter) as nat);
    lemma_pow2_pos((128 - len) as nat);
    lemma_pow2_pos((len - shorter) as nat);
    lemma_pow2_adds((128 - len) as nat, (len - shorter) as nat);
    lemma_div_denominator(key as int, low as int, mid as int);
}

/// The leading `len` bits of `key`.
pub fn leading_bits(key: u128, len: usize) -> (bits: u128)
    requires
        len <= 128,
    ensures
        bits == top_bits(key, len as nat),
{
    proof {
        lemma_top_bits_is_field(key, len as nat);
    }
    extract_bits_u128(key, 0, len)
}

} // verus!
