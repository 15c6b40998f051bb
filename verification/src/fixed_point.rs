//! Fixed-point arithmetic on 128-bit amounts.
//!
//! A reward index is a decimal number with eighteen fractional digits, held as
//! its count of atomic units: the index `4` is `4 * DECIMAL_FRACTIONAL`.
//! The products and quotients are computed by `cosmwasm_std`, which widens
//! to 256 bits before it divides.

use cosmwasm_std::{Decimal, Uint128};
use vstd::prelude::*;

verus! {

/// The number of atomic units in the index `1`.
pub const DECIMAL_FRACTIONAL: u128 = 1_000_000_000_000_000_000;

/// `amount * numerator / denominator`, rounded down.
pub open spec fn mul_ratio(amount: nat, numerator: nat, denominator: nat) -> nat {
    amount * numerator / denominator
}

/// The atomic units of the index `numerator / denominator`, rounded down.
pub open spec fn ratio_index(numerator: nat, denominator: nat) -> nat {
    mul_ratio(numerator, DECIMAL_FRACTIONAL as nat, denominator)
}

/// The whole units of `amount` times the index held in `index`, rounded down.
pub open spec fn mul_floor(amount: nat, index: nat) -> nat {
    mul_ratio(amount, index, DECIMAL_FRACTIONAL as nat)
}

/// Whether `amount * numerator / denominator` is defined and, rounded down, fits
/// in 128 bits.
pub open spec fn ratio_fits(amount: u128, numerator: u128, denominator: u128) -> bool {
    denominator != 0 && mul_ratio(amount as nat, numerator as nat, denominator as nat) <= u128::MAX
}

/// Calls `cosmwasm_std::Uint128::checked_multiply_ratio`. Trusted: the result is
/// `amount * numerator / denominator` rounded down, and it is missing exactly
/// when the denominator is zero or the quotient does not fit in 128 bits.
#[verifier::external_body]
pub(crate) fn checked_multiply_ratio(amount: u128, numerator: u128, denominator: u128) -> (r:
    Option<u128>)
    ensures
        r is Some <==> ratio_fits(amount, numerator, denominator),
        r is Some ==> r->0 == mul_ratio(amount as nat, numerator as nat, denominator as nat),
{
    match Uint128::new(amount).checked_multiply_ratio(numerator, denominator) {
        Ok(v) => Some(v.u128()),
        Err(_) => None,
    }
}

/// Calls `cosmwasm_std::Decimal::checked_from_ratio` and takes the atomic units
/// of the decimal it returns. Trusted: they are
/// `numerator * DECIMAL_FRACTIONAL / denominator` rounded down, and the result
/// is missing exactly when the denominator is zero or they do not fit in 128 bits.
#[verifier::external_body]
pub(crate) fn checked_from_ratio(numerator: u128, denominator: u128) -> (r: Option<u128>)
    ensures
        r is Some <==> ratio_fits(numerator, DECIMAL_FRACTIONAL, denominator),
        r is Some ==> r->0 == ratio_index(numerator as nat, denominator as nat),
{
    match Decimal::checked_from_ratio(numerator, denominator) {
        Ok(d) => Some(d.atomics().u128()),
        Err(_) => None,
    }
}

/// Calls `cosmwasm_std::Uint128::checked_mul_floor` with the decimal whose atomic
/// units are `index`. Trusted: the result is `amount * index / DECIMAL_FRACTIONAL`
/// rounded down, and it is missing exactly when that does not fit in 128 bits.
#[verifier::external_body]
pub(crate) fn checked_mul_floor(amount: u128, index: u128) -> (r: Option<u128>)
    ensures
        r is Some <==> ratio_fits(amount, index, DECIMAL_FRACTIONAL),
        r is Some ==> r->0 == mul_floor(amount as nat, index as nat),
{
    match Uint128::new(amount).checked_mul_floor(Decimal::raw(index)) {
        Ok(v) => Some(v.u128()),
        Err(_) => None,
    }
}

/// A larger index gives no smaller product.
pub proof fn lemma_mul_floor_monotonic(amount: nat, low: nat, high: nat)
    requires
        low <= high,
    ensures
        mul_floor(amount, low) <= mul_floor(amount, high),
{
    assert(amount * low <= amount * high) by (nonlinear_arith)
        requires
            low <= high,
    ;
    vstd::arithmetic::div_mod::lemma_div_is_ordered(
        (amount * low) as int,
        (amount * high) as int,
        DECIMAL_FRACTIONAL as int,
    );
}

/// A ratio of at most one gives no more than the amount.
pub proof fn lemma_mul_ratio_bounded(amount: nat, numerator: nat, denominator: nat)
    requires
        numerator <= denominator,
        denominator > 0,
    ensures
        mul_ratio(amount, numerator, denominator) <= amount,
{
    assert(amount * numerator <= amount * denominator) by (nonlinear_arith)
        requires
            numerator <= denominator,
    ;
    vstd::arithmetic::div_mod::lemma_div_is_ordered(
        (amount * numerator) as int,
        (amount * denominator) as int,
        denominator as int,
    );
    vstd::arithmetic::div_mod::lemma_div_multiples_vanish(amount as int, denominator as int);
    assert(amount * denominator == denominator * amount) by (nonlinear_arith);
}

} // verus!
