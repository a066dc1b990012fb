//! Deterministic fixed-point arithmetic for the emission distribution,
//! performed by the substrate-fixed crate behind exact contracts.
//!
//! The hotkey take uses 64.64 fixed point (`I64F64`); the parent-share
//! computation uses 96.32 fixed point (`I96F32`). For non-negative operands
//! substrate-fixed truncates products and quotients at the fractional-bit
//! boundary, so every result below is a closed-form floor expression over
//! the integer arguments.

use vstd::prelude::*;
use substrate_fixed::types::I64F64;
use substrate_fixed::types::I96F32;

verus! {

/// Largest integer amount an `I64F64` can represent; amounts above it
/// cannot enter the 64.64 fixed-point computations.
pub const MAX_FIXED_AMOUNT: u64 = 0x7fff_ffff_ffff_ffff;

/// Largest bit pattern of a non-negative 128-bit fixed-point value.
pub const FIXED_BITS_MAX: u128 = 0x7fff_ffff_ffff_ffff_ffff_ffff_ffff_ffff;

/// Bits (64 fractional) of `take / u16::MAX` as 64.64 fixed point computes
/// it: at most `1 << 64`, reached exactly when `take == u16::MAX`.
pub open spec fn take_ratio_bits(take: u16) -> int {
    take * 0x1_0000_0000_0000_0000 / 0xffff
}

/// The hotkey's off-the-top share of `emission` at take rate `take`:
/// `emission * (take / u16::MAX)` in 64.64 fixed point, truncated to units.
pub open spec fn spec_hotkey_take(take: u16, emission: u64) -> u64 {
    (take_ratio_bits(take) * emission / 0x1_0000_0000_0000_0000) as u64
}

/// Bits (32 fractional) of `proportion / u64::MAX` as 96.32 fixed point
/// computes it: at most `1 << 32`.
pub open spec fn prop_ratio_bits(proportion: u64) -> int {
    proportion * 0x1_0000_0000 / 0xffff_ffff_ffff_ffff
}

/// Bits (32 fractional) of the fraction of `total_stake` that a parent with
/// stake `parent_stake` contributes at `proportion`:
/// `(parent_stake * (proportion / u64::MAX)) / total_stake`.
pub open spec fn parent_share_bits(parent_stake: u64, proportion: u64, total_stake: u64) -> int {
    parent_stake * prop_ratio_bits(proportion) / (total_stake as int)
}

/// The parent's slice of `remaining`, as 96.32 fixed point computes it:
/// the share fraction times `remaining`, the product saturated at the
/// 128-bit fixed-point maximum and the result clamped into `u64`.
pub open spec fn spec_parent_take(
    parent_stake: u64,
    proportion: u64,
    total_stake: u64,
    remaining: u64,
) -> u64 {
    let prod = parent_share_bits(parent_stake, proportion, total_stake) * remaining;
    let capped = if prod > FIXED_BITS_MAX { FIXED_BITS_MAX as int } else { prod };
    let val = capped / 0x1_0000_0000;
    if val > u64::MAX { u64::MAX } else { val as u64 }
}

/// A nominator's slice of `remaining` at `stake` out of `total_stake`, as
/// 64.64 fixed point computes it: exact floor division unless the product
/// `remaining * stake` exceeds the representable maximum, in which case the
/// saturated product is divided instead.
pub open spec fn spec_nominator_share(remaining: u64, stake: u64, total_stake: u64) -> u64 {
    if remaining * stake <= MAX_FIXED_AMOUNT {
        ((remaining * stake) / (total_stake as int)) as u64
    } else {
        ((FIXED_BITS_MAX / total_stake as u128) / 0x1_0000_0000_0000_0000) as u64
    }
}

/// Relies on substrate-fixed `I64F64::{from_num, saturating_div,
/// saturating_mul, to_num}`: for non-negative operands division and
/// multiplication truncate at 64 fractional bits and `to_num` truncates to
/// integer. The ratio is at most one, so the product is at most `emission`
/// and nothing saturates; `emission` itself must fit the 63 integer bits.
#[verifier::external_body]
pub fn hotkey_take_of(take: u16, emission: u64) -> (r: u64)
    requires
        emission <= MAX_FIXED_AMOUNT,
    ensures
        r == spec_hotkey_take(take, emission),
{
    let take_proportion: I64F64 =
        I64F64::from_num(take).saturating_div(I64F64::from_num(u16::MAX));
    take_proportion.saturating_mul(I64F64::from_num(emission)).to_num::<u64>()
}

/// Relies on substrate-fixed `I96F32::{from_num, saturating_div,
/// saturating_mul, saturating_to_num}`: for non-negative operands division
/// and multiplication truncate at 32 fractional bits, the product saturates
/// at the 128-bit fixed-point maximum, and `saturating_to_num` clamps into
/// `u64`. Every `u64` fits the 95 integer bits, so the only saturation
/// points are the ones the contract names.
#[verifier::external_body]
pub fn parent_take_of(
    parent_stake: u64,
    proportion: u64,
    total_stake: u64,
    remaining: u64,
) -> (r: u64)
    requires
        total_stake > 0,
    ensures
        r == spec_parent_take(parent_stake, proportion, total_stake, remaining),
{
    let stake_from_parent: I96F32 = I96F32::from_num(parent_stake).saturating_mul(
        I96F32::from_num(proportion).saturating_div(I96F32::from_num(u64::MAX)),
    );
    let proportion_from_parent: I96F32 =
        stake_from_parent.saturating_div(I96F32::from_num(total_stake));
    proportion_from_parent.saturating_mul(I96F32::from_num(remaining)).saturating_to_num::<u64>()
}

/// Relies on substrate-fixed `I64F64::{from_num, saturating_mul,
/// saturating_div, to_num}` as in `hotkey_take_of`; here the product
/// `remaining * stake` can exceed the representable maximum and then
/// saturates before the division, exactly as the contract states.
#[verifier::external_body]
pub fn nominator_share_of(remaining: u64, stake: u64, total_stake: u64) -> (r: u64)
    requires
        remaining <= MAX_FIXED_AMOUNT,
        stake <= MAX_FIXED_AMOUNT,
        0 < total_stake <= MAX_FIXED_AMOUNT,
    ensures
        r == spec_nominator_share(remaining, stake, total_stake),
{
    let share: I64F64 = I64F64::from_num(remaining)
        .saturating_mul(I64F64::from_num(stake))
        .saturating_div(I64F64::from_num(total_stake));
    share.to_num::<u64>()
}

/// The hotkey take never exceeds the emission it is taken from.
pub proof fn lemma_hotkey_take_le(take: u16, emission: u64)
    ensures
        spec_hotkey_take(take, emission) <= emission,
{
    assert(take * 0x1_0000_0000_0000_0000 <= 0xffff * 0x1_0000_0000_0000_0000) by (nonlinear_arith)
        requires take <= 0xffff;
    assert(take_ratio_bits(take) <= 0x1_0000_0000_0000_0000) by {
        vstd::arithmetic::div_mod::lemma_div_is_ordered(
            take * 0x1_0000_0000_0000_0000,
            (0xffff as int) * 0x1_0000_0000_0000_0000,
            0xffff,
        );
        assert(0xffff * 0x1_0000_0000_0000_0000 / 0xffff == 0x1_0000_0000_0000_0000)
            by (nonlinear_arith);
    }
    assert(take_ratio_bits(take) >= 0) by {
        vstd::arithmetic::div_mod::lemma_div_pos_is_pos(take * 0x1_0000_0000_0000_0000, 0xffff);
    }
    let tr = take_ratio_bits(take);
    assert(tr * emission <= 0x1_0000_0000_0000_0000 * emission) by (nonlinear_arith)
        requires 0 <= tr <= 0x1_0000_0000_0000_0000;
    vstd::arithmetic::div_mod::lemma_div_is_ordered(
        tr * emission,
        0x1_0000_0000_0000_0000 * emission,
        0x1_0000_0000_0000_0000,
    );
    assert(0x1_0000_0000_0000_0000 * emission / 0x1_0000_0000_0000_0000 == emission)
        by (nonlinear_arith);
    vstd::arithmetic::div_mod::lemma_div_pos_is_pos(tr * emission, 0x1_0000_0000_0000_0000);
}

/// A nominator's share never exceeds `remaining` while the fixed-point
/// product does not saturate and the nominator's stake is within the total.
pub proof fn lemma_nominator_share_le(remaining: u64, stake: u64, total_stake: u64)
    requires
        remaining * stake <= MAX_FIXED_AMOUNT,
        stake <= total_stake,
        total_stake > 0,
    ensures
        spec_nominator_share(remaining, stake, total_stake) <= remaining,
{
    assert(remaining * stake <= remaining * total_stake) by (nonlinear_arith)
        requires stake <= total_stake, remaining >= 0;
    vstd::arithmetic::div_mod::lemma_div_is_ordered(
        remaining * stake,
        remaining * total_stake,
        total_stake as int,
    );
    assert(remaining * total_stake / (total_stake as int) == remaining) by (nonlinear_arith)
        requires total_stake > 0;
    vstd::arithmetic::div_mod::lemma_div_pos_is_pos(remaining * stake, total_stake as int);
}


/// Dividing two non-negative values separately never beats dividing their
/// sum: the floors only lose.
pub proof fn lemma_div_sum(a: int, b: int, d: int)
    requires
        a >= 0,
        b >= 0,
        d > 0,
    ensures
        a / d + b / d <= (a + b) / d,
{
    vstd::arithmetic::div_mod::lemma_fundamental_div_mod(a, d);
    vstd::arithmetic::div_mod::lemma_fundamental_div_mod(b, d);
    vstd::arithmetic::div_mod::lemma_mod_bound(a, d);
    vstd::arithmetic::div_mod::lemma_mod_bound(b, d);
    let qa = a / d;
    let qb = b / d;
    assert(d * (qa + qb) == d * qa + d * qb) by (nonlinear_arith);
    assert(d * (qa + qb) <= a + b);
    vstd::arithmetic::div_mod::lemma_div_is_ordered(d * (qa + qb), a + b, d);
    assert(d * (qa + qb) / d == qa + qb) by (nonlinear_arith)
        requires d > 0;
    vstd::arithmetic::div_mod::lemma_div_pos_is_pos(a, d);
    vstd::arithmetic::div_mod::lemma_div_pos_is_pos(b, d);
}

} // verus!
