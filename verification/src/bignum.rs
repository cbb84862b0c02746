//! Arbitrary-precision arithmetic on decimal strings.
//!
//! Share amounts are atomic token quantities far beyond `u64`; the engine
//! keeps them as decimal strings and hands the arithmetic to `num_bigint`,
//! trusted through the wrappers below. Every contract is stated over
//! [`crate::dec::dec_val`], the mathematical value of a digit string.

use vstd::prelude::*;
use crate::dec::{all_digits, dec_val, is_canon_dec};

verus! {

/// Relies on `num_bigint::BigUint`: base-10 parse of two digit strings,
/// addition, and canonical base-10 rendering (`to_str_radix` emits no
/// leading zero and renders zero as `"0"`).
#[verifier::external_body]
pub fn big_add_dec(a: &str, b: &str) -> (r: String)
    requires
        a@.len() >= 1,
        all_digits(a@),
        b@.len() >= 1,
        all_digits(b@),
    ensures
        is_canon_dec(r@),
        dec_val(r@) == dec_val(a@) + dec_val(b@),
{
    let x = num_bigint::BigUint::parse_bytes(a.as_bytes(), 10).unwrap();
    let y = num_bigint::BigUint::parse_bytes(b.as_bytes(), 10).unwrap();
    (x + y).to_str_radix(10)
}


/// Relies on `num_bigint::BigUint`: base-10 parse, multiplication, and
/// canonical base-10 rendering.
#[verifier::external_body]
pub fn big_mul_dec(a: &str, b: &str) -> (r: String)
    requires
        a@.len() >= 1,
        all_digits(a@),
        b@.len() >= 1,
        all_digits(b@),
    ensures
        is_canon_dec(r@),
        dec_val(r@) == dec_val(a@) * dec_val(b@),
{
    let x = num_bigint::BigUint::parse_bytes(a.as_bytes(), 10).unwrap();
    let y = num_bigint::BigUint::parse_bytes(b.as_bytes(), 10).unwrap();
    (x * y).to_str_radix(10)
}

/// Relies on `num_bigint::BigUint`: base-10 parse, flooring division (the
/// divisor must not be zero), and canonical base-10 rendering.
#[verifier::external_body]
pub fn big_div_dec(a: &str, b: &str) -> (r: String)
    requires
        a@.len() >= 1,
        all_digits(a@),
        b@.len() >= 1,
        all_digits(b@),
        dec_val(b@) >= 1,
    ensures
        is_canon_dec(r@),
        dec_val(r@) == dec_val(a@) / dec_val(b@),
{
    let x = num_bigint::BigUint::parse_bytes(a.as_bytes(), 10).unwrap();
    let y = num_bigint::BigUint::parse_bytes(b.as_bytes(), 10).unwrap();
    (x / y).to_str_radix(10)
}

/// Relies on `num_bigint::BigUint`: base-10 parse and `Ord::cmp`, which
/// orders by numeric value. Returns `-1`, `0` or `1`.
#[verifier::external_body]
pub fn big_cmp_dec(a: &str, b: &str) -> (r: i32)
    requires
        a@.len() >= 1,
        all_digits(a@),
        b@.len() >= 1,
        all_digits(b@),
    ensures
        r == -1 <==> dec_val(a@) < dec_val(b@),
        r == 0 <==> dec_val(a@) == dec_val(b@),
        r == 1 <==> dec_val(a@) > dec_val(b@),
{
    let x = num_bigint::BigUint::parse_bytes(a.as_bytes(), 10).unwrap();
    let y = num_bigint::BigUint::parse_bytes(b.as_bytes(), 10).unwrap();
    match x.cmp(&y) {
        core::cmp::Ordering::Less => -1,
        core::cmp::Ordering::Equal => 0,
        core::cmp::Ordering::Greater => 1,
    }
}

} // verus!
