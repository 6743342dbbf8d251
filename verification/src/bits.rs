//! Reading a field of bits out of a fixed-width key, most significant bit first.

use vstd::prelude::*;
use vstd::arithmetic::div_mod::{
    lemma_div_denominator, lemma_fundamental_div_mod_converse_div, lemma_mod_bound,
    lemma_mod_breakdown, lemma_mod_mod, lemma_small_mod,
};
use vstd::arithmetic::power2::{
    lemma2_to64, lemma_pow2_adds, lemma_pow2_pos, lemma_pow2_unfold, pow2,
};
use vstd::bits::{
    lemma_u128_shr_is_div, lemma_u8_low_bits_mask_is_mod, lemma_u8_shl_is_mul, lemma_u8_shr_is_div,
};
use crate::error::LcTrieError;

verus! {

/// The value of the `count` bits of a `width`-bit key that start at bit `pos`,
/// where bit 0 is the most significant bit of the key.
pub open spec fn bit_field(key: nat, width: nat, pos: nat, count: nat) -> nat
    recommends
        pos + count <= width,
{
    (key / pow2((width - pos - count) as nat)) % pow2(count)
}

/// A field of `count` bits lies below `pow2(count)`.
pub proof fn lemma_bit_field_bound(key: nat, width: nat, pos: nat, count: nat)
    ensures
        bit_field(key, width, pos, count) < pow2(count),
{
    lemma_pow2_pos(count);
    lemma_mod_bound((key / pow2((width - pos - count) as nat)) as int, pow2(count) as int);
}

/// The field is read most significant bit first: its bit `j` is bit `pos + j`
/// of the key.
pub proof fn lemma_bit_field_reads_bits(key: nat, width: nat, pos: nat, count: nat, j: nat)
    requires
        pos + count <= width,
        j < count,
    ensures
        bit_field(bit_field(key, width, pos, count), count, j, 1) == bit_field(
            key,
            width,
            pos + j,
            1,
        ),
{
    let below = (width - pos - count) as nat;
    let rest = (count - j - 1) as nat;
    let whole = key / pow2(below);
    let field = whole % pow2(count);
    lemma_pow2_pos(below);
    lemma_pow2_pos(rest);
    lemma_pow2_pos(j);
    lemma2_to64();
    assert(bit_field(key, width, pos, count) == field);
    assert((count - j - 1) as nat == rest);
    assert((width - (pos + j) - 1) as nat == below + rest);
    // The bit of the key, taken from `whole`.
    assert(key / pow2(below + rest) == whole / pow2(rest)) by {
        lemma_pow2_adds(below, rest);
        lemma_div_denominator(key as int, pow2(below) as int, pow2(rest) as int);
    }
    // The bit of the field, taken from `whole` too.
    assert(field / pow2(rest) == (whole / pow2(rest)) % pow2(j + 1)) by {
        lemma_pow2_adds(rest, j + 1);
        lemma_pow2_pos(j + 1);
        lemma_mod_breakdown(whole as int, pow2(rest) as int, pow2(j + 1) as int);
        let high = (whole / pow2(rest)) % pow2(j + 1);
        let low = whole % pow2(rest);
        lemma_mod_bound(whole as int, pow2(rest) as int);
        assert(field == pow2(rest) * high + low);
        assert(pow2(rest) * high == high * pow2(rest)) by (nonlinear_arith);
        lemma_fundamental_div_mod_converse_div(
            field as int,
            pow2(rest) as int,
            high as int,
            low as int,
        );
    }
    assert(((whole / pow2(rest)) % pow2(j + 1)) % 2 == (whole / pow2(rest)) % 2) by {
        lemma_pow2_unfold(j + 1);
        lemma_mod_mod((whole / pow2(rest)) as int, 2, pow2(j) as int);
    }
}

/// The powers of two below the eighth fit in a byte.
proof fn lemma_pow2_in_u8(e: nat)
    requires
        e < 8,
    ensures
        0 < pow2(e) <= 128,
{
    lemma2_to64();
}

/// Bits `[pos, pos + branch)` of an 8-bit key.
pub fn extract_bits_u8(number: u8, pos: usize, branch: usize) -> (field: u8)
    requires
        pos + branch <= 8,
    ensures
        field as nat == bit_field(number as nat, 8, pos as nat, branch as nat),
{
    proof {
        lemma2_to64();
    }
    if branch == 0 {
        return 0;
    }
    if branch == 8 {
        assert(pow2((8 - pos - branch) as nat) == 1);
        return number;
    }
    let shift: u8 = (8 - pos - branch) as u8;
    let width: u8 = branch as u8;
    proof {
        lemma_pow2_in_u8(branch as nat);
        lemma_u8_shl_is_mul(1u8, width);
    }
    let mask: u8 = (1u8 << width) - 1;
    let shifted: u8 = number >> shift;
    proof {
        lemma_u8_shr_is_div(number, shift);
        lemma_u8_low_bits_mask_is_mod(shifted, branch as nat);
    }
    shifted & mask
}

/// Shifting 1 left by `e` makes the power of two.
proof fn lemma_one_shl_u128(e: u128)
    requires
        e < 128,
    ensures
        (1u128 << e) == pow2(e as nat),
    decreases e,
{
    if e == 0 {
        assert((1u128 << 0u128) == 1u128) by (bit_vector);
        lemma2_to64();
    } else {
        let below: u128 = (e - 1) as u128;
        assert((1u128 << e) == 2 * (1u128 << below)) by (bit_vector)
            requires
                0 < e < 128,
                below == e - 1,
        ;
        lemma_one_shl_u128(below);
        lemma_pow2_unfold(e as nat);
    }
}

/// Masking with the low `e` bits is the remainder by the power of two.
proof fn lemma_low_mask_u128(x: u128, e: nat)
    requires
        e < 128,
    ensures
        pow2(e) - 1 <= u128::MAX,
        x & ((pow2(e) - 1) as u128) == x % (pow2(e) as u128),
        pow2(e) <= u128::MAX,
    decreases e,
{
    lemma_one_shl_u128(e as u128);
    if e == 0 {
        lemma2_to64();
        assert(x & 0u128 == 0u128) by (bit_vector);
    } else {
        let half: u128 = x / 2;
        let m1: u128 = (pow2((e - 1) as nat) - 1) as u128;
        let m2: u128 = (pow2(e) - 1) as u128;
        lemma_low_mask_u128(half, (e - 1) as nat);
        lemma_pow2_unfold(e);
        lemma_pow2_pos((e - 1) as nat);
        assert(x & m2 == 2 * (half & m1) + x % 2) by (bit_vector)
            requires
                m2 == 2 * m1 + 1,
                half == x / 2,
        ;
        lemma_mod_breakdown(x as int, 2, pow2((e - 1) as nat) as int);
    }
}

/// Every 128-bit key lies below `pow2(128)`.
pub proof fn lemma_pow2_128()
    ensures
        pow2(128) == u128::MAX + 1,
{
    lemma_one_shl_u128(127);
    assert((1u128 << 127u128) == 0x8000_0000_0000_0000_0000_0000_0000_0000u128) by (bit_vector);
    lemma_pow2_unfold(128);
}

/// Bits `[pos, pos + branch)` of a 128-bit key.
pub fn extract_bits_u128(number: u128, pos: usize, branch: usize) -> (field: u128)
    requires
        pos + branch <= 128,
    ensures
        field as nat == bit_field(number as nat, 128, pos as nat, branch as nat),
{
    if branch == 0 {
        proof {
            lemma2_to64();
        }
        return 0;
    }
    if branch == 128 {
        proof {
            lemma2_to64();
            lemma_pow2_128();
            lemma_small_mod(number as nat, pow2(128));
            assert((number as nat) / 1 == number as nat);
        }
        return number;
    }
    let shift: u128 = (128 - pos - branch) as u128;
    let width: u128 = branch as u128;
    proof {
        lemma_one_shl_u128(width);
        lemma_pow2_pos(branch as nat);
    }
    let mask: u128 = (1u128 << width) - 1;
    let shifted: u128 = number >> shift;
    proof {
        lemma_u128_shr_is_div(number, shift);
        lemma_low_mask_u128(shifted, branch as nat);
    }
    shifted & mask
}

/// Bits `[pos, pos + branch)` of a 128-bit key, or `OutOfRange` where the field
/// does not lie inside the key.
pub fn extract(key: u128, pos: usize, branch: usize) -> (r: Result<u128, LcTrieError>)
    ensures
        match r {
            Ok(field) => pos + branch <= 128 && field as nat == bit_field(
                key as nat,
                128,
                pos as nat,
                branch as nat,
            ),
            Err(e) => pos + branch > 128 && e == LcTrieError::OutOfRange,
        },
{
    if pos > 128 || branch > 128 - pos {
        return Err(LcTrieError::OutOfRange);
    }
    Ok(extract_bits_u128(key, pos, branch))
}

} // verus!
