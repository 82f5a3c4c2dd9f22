//! Checked 128-bit arithmetic lifted to `Option<i128>`.
//!
//! The geometry kernel chains long products and sums of 128-bit integers.
//! Every operation here returns `None` as soon as an exact intermediate value
//! would leave the `i128` range, and `None` is absorbed by every later
//! operation, so a whole formula evaluates either to its exact value or to
//! `None`.  The functions carry `returns` clauses and may therefore be used
//! directly inside specifications: the specification of a formula is the
//! formula itself, over mathematical integers with an explicit range check.

use vstd::prelude::*;

verus! {

/// Three-way comparison result.
#[derive(Clone, Copy, PartialEq, Eq, Structural, Debug)]
pub enum Rel {
    Lt,
    Eq,
    Gt,
}

/// Checked addition on lifted values.
#[verifier::allow_in_spec]
pub fn cadd(a: Option<i128>, b: Option<i128>) -> Option<i128>
    returns (match (a, b) {
        (Some(x), Some(y)) => x.checked_add(y),
        _ => None,
    })
{
    match (a, b) {
        (Some(x), Some(y)) => x.checked_add(y),
        _ => None,
    }
}

/// Checked subtraction on lifted values.
#[verifier::allow_in_spec]
pub fn csub(a: Option<i128>, b: Option<i128>) -> Option<i128>
    returns (match (a, b) {
        (Some(x), Some(y)) => x.checked_sub(y),
        _ => None,
    })
{
    match (a, b) {
        (Some(x), Some(y)) => x.checked_sub(y),
        _ => None,
    }
}

/// Checked multiplication on lifted values.
#[verifier::allow_in_spec]
pub fn cmul(a: Option<i128>, b: Option<i128>) -> Option<i128>
    returns (match (a, b) {
        (Some(x), Some(y)) => x.checked_mul(y),
        _ => None,
    })
{
    match (a, b) {
        (Some(x), Some(y)) => x.checked_mul(y),
        _ => None,
    }
}

/// Checked negation on lifted values.
#[verifier::allow_in_spec]
pub fn cneg(a: Option<i128>) -> Option<i128>
    returns (match a {
        Some(x) => (0i128).checked_sub(x),
        None => None,
    })
{
    match a {
        Some(x) => (0i128).checked_sub(x),
        None => None,
    }
}

/// Widen a 64-bit coordinate into a lifted 128-bit value; this never loses
/// information.
#[verifier::allow_in_spec]
pub fn wide(a: i64) -> Option<i128>
    returns (Some(a as i128))
{
    Some(a as i128)
}

/// Three-way comparison of two `i128` values.
#[verifier::allow_in_spec]
pub fn cmp_i128(a: i128, b: i128) -> Rel
    returns (if a < b {
        Rel::Lt
    } else if a == b {
        Rel::Eq
    } else {
        Rel::Gt
    })
{
    if a < b {
        Rel::Lt
    } else if a == b {
        Rel::Eq
    } else {
        Rel::Gt
    }
}

/// Three-way comparison of two lifted values; `None` if either overflowed.
#[verifier::allow_in_spec]
pub fn cmp_opt(a: Option<i128>, b: Option<i128>) -> Option<Rel>
    returns (match (a, b) {
        (Some(x), Some(y)) => Some(cmp_i128(x, y)),
        _ => None,
    })
{
    match (a, b) {
        (Some(x), Some(y)) => Some(cmp_i128(x, y)),
        _ => None,
    }
}

/// The opposite of a comparison result, for comparing swapped operands.
#[verifier::allow_in_spec]
pub fn rel_flip(r: Rel) -> Rel
    returns (match r {
        Rel::Lt => Rel::Gt,
        Rel::Eq => Rel::Eq,
        Rel::Gt => Rel::Lt,
    })
{
    match r {
        Rel::Lt => Rel::Gt,
        Rel::Eq => Rel::Eq,
        Rel::Gt => Rel::Lt,
    }
}

} // verus!
