//! The numeric kernel of the interpreter.
//!
//! Every number in the language is a double-precision IEEE-754 value, carried
//! around as its 64-bit pattern (`u64`).  The structural logic of the machine
//! (stack discipline, currying, composition, storage) never looks inside a
//! bit pattern except to test for zero, which is a plain bit test.  Whatever
//! genuinely requires floating-point arithmetic — addition, comparison,
//! rounding, reading a decimal literal, printing — is delegated to the
//! `rustc_apfloat` software float library through the trusted wrappers below.
//! Each wrapper's result is given a name (an uninterpreted spec function of
//! the wrapper's arguments alone), and all contracts of the library speak of
//! those names.

use vstd::prelude::*;
use core::str::FromStr;
use rustc_apfloat::Float;
use rustc_apfloat::Round;
use rustc_apfloat::Status;
use rustc_apfloat::ieee::Double;

verus! {

/// Bit pattern of the double `1.0`, pushed for a comparison that holds.
pub const ONE_BITS: u64 = 0x3FF0_0000_0000_0000;

/// Bit pattern of the double `+0.0`, pushed for a comparison that fails.
pub const ZERO_BITS: u64 = 0;

/// A double equals `0.0` exactly when everything but its sign bit is zero
/// (`+0.0` and `-0.0` both do; no NaN does).
pub open spec fn is_zero_bits(b: u64) -> bool {
    b & 0x7FFF_FFFF_FFFF_FFFF == 0
}

/// The IEEE-754 double sum of the doubles with bit patterns `a` and `b`.
pub uninterp spec fn add_of(a: u64, b: u64) -> u64;

/// The IEEE-754 double difference of the doubles `a` and `b`.
pub uninterp spec fn sub_of(a: u64, b: u64) -> u64;

/// The IEEE-754 double product of the doubles `a` and `b`.
pub uninterp spec fn mul_of(a: u64, b: u64) -> u64;

/// The IEEE-754 double quotient of the doubles `a` and `b`.
pub uninterp spec fn div_of(a: u64, b: u64) -> u64;

/// The C `fmod` remainder of the doubles `a` and `b`.
pub uninterp spec fn mod_of(a: u64, b: u64) -> u64;

/// Whether the double `a` is less than the double `b` (IEEE comparison).
pub uninterp spec fn lt_of(a: u64, b: u64) -> bool;

/// Whether the double `a` is greater than the double `b` (IEEE comparison).
pub uninterp spec fn gt_of(a: u64, b: u64) -> bool;

/// Whether the doubles `a` and `b` are equal (IEEE comparison: `-0.0` equals
/// `+0.0`, and a NaN equals nothing).
pub uninterp spec fn eq_of(a: u64, b: u64) -> bool;

/// The double `b` rounded to the nearest integer, ties away from zero;
/// `None` when no such `i64` exists (a NaN, or magnitude beyond `i64`).
pub uninterp spec fn round_i64_of(b: u64) -> Option<i64>;

/// The bit pattern of the double nearest to the integer `n`.
pub uninterp spec fn double_of_u64(n: u64) -> u64;

/// The bit pattern denoted by a decimal literal (optional leading `-`,
/// digits with at most one `.`), under correct rounding.
pub uninterp spec fn bits_of_literal(s: Seq<char>) -> u64;

/// The decimal rendering of the double with bit pattern `b`.
pub uninterp spec fn rendered_of(b: u64) -> Seq<char>;

/// A literal with its optional leading `-` removed.
pub open spec fn literal_body(s: Seq<char>) -> Seq<char> {
    if s.len() > 0 && s[0] == '-' {
        s.skip(1)
    } else {
        s
    }
}

/// A decimal literal as the grammar produces it: an optional leading `-`,
/// then digits with at most one `.` among them and at least one digit.
pub open spec fn is_literal_text(s: Seq<char>) -> bool {
    &&& literal_body(s).len() > 0
    &&& exists|k: int|
        0 <= k <= literal_body(s).len() && #[trigger] literal_digits_around_dot(
            literal_body(s),
            k,
        )
}

/// Establishes [`is_literal_text`] from an explicit dot position.
pub proof fn lemma_literal_text(s: Seq<char>, k: int)
    requires
        0 <= k <= literal_body(s).len(),
        literal_digits_around_dot(literal_body(s), k),
    ensures
        is_literal_text(s),
{
}

/// The characters of `t` are digits except for at most one dot at position
/// `k` (with `k == t.len()` meaning there is no dot), and at least one digit
/// is present.
pub open spec fn literal_digits_around_dot(t: Seq<char>, k: int) -> bool {
    &&& forall|i: int| 0 <= i < t.len() && i != k ==> 48 <= (#[trigger] t[i]) as u32 <= 57
    &&& (k < t.len() ==> t[k] == '.')
    &&& t.len() > if k < t.len() { 1int } else { 0int }
}

/// Relies on `rustc_apfloat`'s `Double` addition (ties-to-even, the IEEE
/// default): the sum of two doubles, computed on their bit patterns.
#[verifier::external_body]
pub(crate) fn add_bits(a: u64, b: u64) -> (r: u64)
    ensures
        r == add_of(a, b),
{
    (Double::from_bits(a as u128) + Double::from_bits(b as u128)).value.to_bits() as u64
}

/// Relies on `rustc_apfloat`'s `Double` subtraction.
#[verifier::external_body]
pub(crate) fn sub_bits(a: u64, b: u64) -> (r: u64)
    ensures
        r == sub_of(a, b),
{
    (Double::from_bits(a as u128) - Double::from_bits(b as u128)).value.to_bits() as u64
}

/// Relies on `rustc_apfloat`'s `Double` multiplication.
#[verifier::external_body]
pub(crate) fn mul_bits(a: u64, b: u64) -> (r: u64)
    ensures
        r == mul_of(a, b),
{
    (Double::from_bits(a as u128) * Double::from_bits(b as u128)).value.to_bits() as u64
}

/// Relies on `rustc_apfloat`'s `Double` division (division by zero yields an
/// infinity or NaN, as IEEE-754 prescribes, never an error).
#[verifier::external_body]
pub(crate) fn div_bits(a: u64, b: u64) -> (r: u64)
    ensures
        r == div_of(a, b),
{
    (Double::from_bits(a as u128) / Double::from_bits(b as u128)).value.to_bits() as u64
}

/// Relies on `rustc_apfloat`'s `Double` remainder (`c_fmod`, the semantics of
/// the `%` operator on doubles).
#[verifier::external_body]
pub(crate) fn mod_bits(a: u64, b: u64) -> (r: u64)
    ensures
        r == mod_of(a, b),
{
    (Double::from_bits(a as u128) % Double::from_bits(b as u128)).value.to_bits() as u64
}

/// Relies on `rustc_apfloat`'s `PartialOrd` for `Double` (IEEE ordering; any
/// comparison against a NaN is false).
#[verifier::external_body]
pub(crate) fn lt_bits(a: u64, b: u64) -> (r: bool)
    ensures
        r == lt_of(a, b),
{
    Double::from_bits(a as u128) < Double::from_bits(b as u128)
}

/// Relies on `rustc_apfloat`'s `PartialOrd` for `Double`.
#[verifier::external_body]
pub(crate) fn gt_bits(a: u64, b: u64) -> (r: bool)
    ensures
        r == gt_of(a, b),
{
    Double::from_bits(a as u128) > Double::from_bits(b as u128)
}

/// Relies on `rustc_apfloat`'s `PartialEq` for `Double` (IEEE equality:
/// `-0.0 == +0.0`, and a NaN equals nothing, not even itself).
#[verifier::external_body]
pub(crate) fn eq_bits(a: u64, b: u64) -> (r: bool)
    ensures
        r == eq_of(a, b),
{
    Double::from_bits(a as u128) == Double::from_bits(b as u128)
}

/// Relies on `rustc_apfloat`'s `to_i128_r` with rounding to nearest, ties
/// away from zero; the conversion reports an invalid operation exactly for a
/// NaN or a value outside the target range.
#[verifier::external_body]
pub(crate) fn round_bits(b: u64) -> (r: Option<i64>)
    ensures
        r == round_i64_of(b),
{
    let mut exact = false;
    let sa = Double::from_bits(b as u128).to_i128_r(64, Round::NearestTiesToAway, &mut exact);
    if sa.status.intersects(Status::INVALID_OP) {
        None
    } else {
        Some(sa.value as i64)
    }
}

/// Relies on `rustc_apfloat`'s `from_u128` (ties-to-even): the double
/// nearest to an unsigned integer.
#[verifier::external_body]
pub(crate) fn double_from_u64(n: u64) -> (r: u64)
    ensures
        r == double_of_u64(n),
{
    Double::from_u128(n as u128).value.to_bits() as u64
}

/// Relies on `rustc_apfloat`'s `from_str` (correctly rounded decimal
/// conversion).  Its decimal reader accepts every string this library feeds
/// it — digits with at most one dot and an optional leading minus — so the
/// error arm below is never taken on an admitted input.
#[verifier::external_body]
pub(crate) fn literal_bits(s: &str) -> (r: u64)
    requires
        is_literal_text(s@),
    ensures
        r == bits_of_literal(s@),
{
    match Double::from_str(s) {
        Ok(d) => d.to_bits() as u64,
        Err(_) => 0,
    }
}

/// Relies on `rustc_apfloat`'s `Display` for `Double`: a decimal rendering
/// of the value, a function of the bit pattern alone.
#[verifier::external_body]
pub(crate) fn number_text(b: u64) -> (r: String)
    ensures
        r@ == rendered_of(b),
{
    format!("{}", Double::from_bits(b as u128))
}

} // verus!
