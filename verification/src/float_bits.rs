//! The library's float semantics, stated over IEEE-754 bit patterns.
//!
//! A float travels through the library as the `u64` bit pattern of a
//! 64-bit IEEE double.  Equality and ordering are exact bit logic and are
//! verified; only the tolerant comparisons, which need rounded IEEE
//! arithmetic, call an outside soft-float crate behind trusted wrappers.

use vstd::prelude::*;
use rustc_apfloat::Float;

verus! {

/// Bit pattern of the double `b` with the sign bit cleared.
pub open spec fn abs_bits(b: u64) -> u64 {
    b & 0x7fff_ffff_ffff_ffff
}

/// The double with bit pattern `b` is a NaN: exponent all ones and a
/// non-zero mantissa, i.e. magnitude bits above those of infinity.
pub open spec fn is_nan_bits(b: u64) -> bool {
    abs_bits(b) > 0x7ff0_0000_0000_0000
}

/// The double with bit pattern `b` is a zero of either sign.
pub open spec fn is_zero_bits(b: u64) -> bool {
    abs_bits(b) == 0
}

/// The double with bit pattern `b` has its sign bit set.
pub open spec fn is_neg_bits(b: u64) -> bool {
    b >= 0x8000_0000_0000_0000
}

/// IEEE-754 numeric equality over bit patterns: false when either side is
/// a NaN; the two zeros are equal; otherwise the patterns must coincide.
pub open spec fn num_eq_bits(a: u64, b: u64) -> bool {
    &&& !is_nan_bits(a)
    &&& !is_nan_bits(b)
    &&& (a == b || (is_zero_bits(a) && is_zero_bits(b)))
}

/// The library's float equality: IEEE numeric equality, except that two
/// NaN values count as equal to each other.
pub open spec fn float_eq_bits(a: u64, b: u64) -> bool {
    if is_nan_bits(a) && is_nan_bits(b) {
        true
    } else {
        num_eq_bits(a, b)
    }
}

/// The library's float ordering (-1, 0 or 1): numeric order where the pair
/// is comparable, and 0 for every incomparable pair (a NaN on either side).
/// For same-sign non-NaN doubles the magnitude bits order numerically.
pub open spec fn float_cmp_bits(a: u64, b: u64) -> int {
    if is_nan_bits(a) || is_nan_bits(b) {
        0
    } else if num_eq_bits(a, b) {
        0
    } else if is_neg_bits(a) && !is_neg_bits(b) {
        -1
    } else if !is_neg_bits(a) && is_neg_bits(b) {
        1
    } else if !is_neg_bits(a) {
        if abs_bits(a) < abs_bits(b) {
            -1
        } else {
            1
        }
    } else {
        if abs_bits(a) < abs_bits(b) {
            1
        } else {
            -1
        }
    }
}

/// Executable form of `float_eq_bits`.
pub fn float_eq_bits_exec(a: u64, b: u64) -> (r: bool)
    ensures
        r == float_eq_bits(a, b),
{
    let abs_a: u64 = a & 0x7fff_ffff_ffff_ffff;
    let abs_b: u64 = b & 0x7fff_ffff_ffff_ffff;
    let nan_a: bool = abs_a > 0x7ff0_0000_0000_0000;
    let nan_b: bool = abs_b > 0x7ff0_0000_0000_0000;
    if nan_a && nan_b {
        true
    } else {
        !nan_a && !nan_b && (a == b || (abs_a == 0 && abs_b == 0))
    }
}

/// Executable form of `float_cmp_bits`.
pub fn float_cmp_bits_exec(a: u64, b: u64) -> (r: i8)
    ensures
        r as int == float_cmp_bits(a, b),
{
    let abs_a: u64 = a & 0x7fff_ffff_ffff_ffff;
    let abs_b: u64 = b & 0x7fff_ffff_ffff_ffff;
    let nan_a: bool = abs_a > 0x7ff0_0000_0000_0000;
    let nan_b: bool = abs_b > 0x7ff0_0000_0000_0000;
    let neg_a: bool = a >= 0x8000_0000_0000_0000;
    let neg_b: bool = b >= 0x8000_0000_0000_0000;
    if nan_a || nan_b {
        0
    } else if a == b || (abs_a == 0 && abs_b == 0) {
        0
    } else if neg_a && !neg_b {
        -1
    } else if !neg_a && neg_b {
        1
    } else if !neg_a {
        if abs_a < abs_b {
            -1
        } else {
            1
        }
    } else {
        if abs_a < abs_b {
            1
        } else {
            -1
        }
    }
}

/// Whether the doubles with bit patterns `a` and `b` differ by at most the
/// double with bit pattern `tol`, as `|a - b| <= tol` computes in IEEE-754
/// double arithmetic (round to nearest, ties to even).  False whenever any
/// of the three is a NaN.
pub uninterp spec fn abs_diff_within(a: u64, b: u64, tol: u64) -> bool;

/// Relies on rustc_apfloat's IEEE double subtraction and comparison: the
/// outcome is a function of the three bit patterns alone, and is unchanged
/// when the two operands are swapped, because IEEE subtraction negates
/// exactly under that exchange.
#[verifier::external_body]
fn float_abs_diff_within(a: u64, b: u64, tol: u64) -> (r: bool)
    ensures
        r == abs_diff_within(a, b, tol),
        r == abs_diff_within(b, a, tol),
{
    let x = rustc_apfloat::ieee::Double::from_bits(a as u128);
    let y = rustc_apfloat::ieee::Double::from_bits(b as u128);
    let t = rustc_apfloat::ieee::Double::from_bits(tol as u128);
    (x - y).value.abs() <= t
}

/// Whether the relative difference of the doubles with bit patterns `a`
/// and `b` is at most the double with bit pattern `tol`, as
/// `|a - b| / max(|a|, |b|) <= tol` computes in IEEE-754 double arithmetic.
/// False whenever a NaN arises.  Never consulted when both operands are
/// zeros, so the zero-divided-by-zero case stays out of its meaning.
pub uninterp spec fn pct_diff_within(a: u64, b: u64, tol: u64) -> bool;

/// Relies on rustc_apfloat's IEEE double subtraction, division and
/// comparison: the outcome is a function of the three bit patterns alone,
/// and is unchanged when the two operands are swapped, because both the
/// absolute difference and the larger magnitude are symmetric in them.
#[verifier::external_body]
fn float_pct_diff_within(a: u64, b: u64, tol: u64) -> (r: bool)
    requires
        !(is_zero_bits(a) && is_zero_bits(b)),
    ensures
        r == pct_diff_within(a, b, tol),
        r == pct_diff_within(b, a, tol),
{
    let x = rustc_apfloat::ieee::Double::from_bits(a as u128);
    let y = rustc_apfloat::ieee::Double::from_bits(b as u128);
    let t = rustc_apfloat::ieee::Double::from_bits(tol as u128);
    let d = (x - y).value.abs();
    let m = if x.abs() < y.abs() { y.abs() } else { x.abs() };
    (d / m).value <= t
}

/// Tolerant float equality as the engine applies it: the absolute or the
/// relative bound, with a pair of zeros under the relative bound counting
/// as equal exactly when their bit patterns coincide.  The operands are
/// put in bit-pattern order first, so the definition is symmetric in them;
/// the trusted wrappers promise the same outcome for both orders.
pub open spec fn tolerant_eq_bits(a: u64, b: u64, tol: u64, use_percent: bool) -> bool {
    let lo = if a <= b { a } else { b };
    let hi = if a <= b { b } else { a };
    if use_percent {
        if is_zero_bits(a) && is_zero_bits(b) {
            a == b
        } else {
            pct_diff_within(lo, hi, tol)
        }
    } else {
        abs_diff_within(lo, hi, tol)
    }
}

/// Executable form of `tolerant_eq_bits`.
pub fn tolerant_eq_bits_exec(a: u64, b: u64, tol: u64, use_percent: bool) -> (r: bool)
    ensures
        r == tolerant_eq_bits(a, b, tol, use_percent),
{
    if use_percent {
        let abs_a: u64 = a & 0x7fff_ffff_ffff_ffff;
        let abs_b: u64 = b & 0x7fff_ffff_ffff_ffff;
        if abs_a == 0 && abs_b == 0 {
            a == b
        } else {
            float_pct_diff_within(a, b, tol)
        }
    } else {
        float_abs_diff_within(a, b, tol)
    }
}

/// Swapping the operands never changes tolerant equality.
pub proof fn lemma_tolerant_eq_sym(a: u64, b: u64, tol: u64, use_percent: bool)
    ensures
        tolerant_eq_bits(a, b, tol, use_percent) == tolerant_eq_bits(b, a, tol, use_percent),
{
}

/// Swapping the operands never changes the library's float equality.
pub proof fn lemma_float_eq_sym(a: u64, b: u64)
    ensures
        float_eq_bits(a, b) == float_eq_bits(b, a),
{
}

/// The library's float equality is reflexive: every value, a NaN included,
/// equals itself.
pub proof fn lemma_float_eq_refl(a: u64)
    ensures
        float_eq_bits(a, a),
{
}

} // verus!
