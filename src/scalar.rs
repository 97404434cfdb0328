//! The numbers a matrix can hold, read from their decimal text.
use crate::text::{signed_decimal, unsigned_decimal};
use vstd::prelude::*;

verus! {

/// A number type whose values can be read from a radix-10 token.
pub trait Scalar: Sized {
    /// What reading the token `s` gives, if it is a number of this type.
    spec fn spec_from_dec(s: Seq<char>) -> Option<Self>;

    /// Reads the token `s` as a number of this type.
    fn from_dec(s: &str) -> (r: Option<Self>)
        ensures
            r == Self::spec_from_dec(s@),
    ;
}

/// An optional sign and decimal digits whose value fits in `i32`.
pub open spec fn i32_of(s: Seq<char>) -> Option<i32> {
    match signed_decimal(s) {
        Some(v) => if i32::MIN <= v <= i32::MAX {
            Some(v as i32)
        } else {
            None
        },
        None => None,
    }
}

/// An optional sign and decimal digits whose value fits in `i64`.
pub open spec fn i64_of(s: Seq<char>) -> Option<i64> {
    match signed_decimal(s) {
        Some(v) => if i64::MIN <= v <= i64::MAX {
            Some(v as i64)
        } else {
            None
        },
        None => None,
    }
}

/// An optional `+` and decimal digits whose value fits in `u32`.
pub open spec fn u32_of(s: Seq<char>) -> Option<u32> {
    match unsigned_decimal(s) {
        Some(v) => if v <= u32::MAX {
            Some(v as u32)
        } else {
            None
        },
        None => None,
    }
}

/// An optional `+` and decimal digits whose value fits in `u64`.
pub open spec fn u64_of(s: Seq<char>) -> Option<u64> {
    match unsigned_decimal(s) {
        Some(v) => if v <= u64::MAX {
            Some(v as u64)
        } else {
            None
        },
        None => None,
    }
}

/// Relies on `<i32 as num_traits::Num>::from_str_radix(s, 10)`, which calls
/// `i32::from_str_radix`: an optional `+` or `-`, then only ASCII digits, and a
/// value in range; anything else is an error.
#[verifier::external_body]
fn i32_from_dec(s: &str) -> (r: Option<i32>)
    ensures
        r == i32_of(s@),
{
    <i32 as num_traits::Num>::from_str_radix(s, 10).ok()
}

/// Relies on `<i64 as num_traits::Num>::from_str_radix(s, 10)`, which calls
/// `i64::from_str_radix`: an optional `+` or `-`, then only ASCII digits, and a
/// value in range; anything else is an error.
#[verifier::external_body]
fn i64_from_dec(s: &str) -> (r: Option<i64>)
    ensures
        r == i64_of(s@),
{
    <i64 as num_traits::Num>::from_str_radix(s, 10).ok()
}

/// Relies on `<u32 as num_traits::Num>::from_str_radix(s, 10)`, which calls
/// `u32::from_str_radix`: an optional `+`, then only ASCII digits, and a value
/// in range; anything else (a `-` included) is an error.
#[verifier::external_body]
fn u32_from_dec(s: &str) -> (r: Option<u32>)
    ensures
        r == u32_of(s@),
{
    <u32 as num_traits::Num>::from_str_radix(s, 10).ok()
}

/// Relies on `<u64 as num_traits::Num>::from_str_radix(s, 10)`, which calls
/// `u64::from_str_radix`: an optional `+`, then only ASCII digits, and a value
/// in range; anything else (a `-` included) is an error.
#[verifier::external_body]
fn u64_from_dec(s: &str) -> (r: Option<u64>)
    ensures
        r == u64_of(s@),
{
    <u64 as num_traits::Num>::from_str_radix(s, 10).ok()
}

impl Scalar for i32 {
    open spec fn spec_from_dec(s: Seq<char>) -> Option<i32> {
        i32_of(s)
    }

    fn from_dec(s: &str) -> (r: Option<i32>) {
        i32_from_dec(s)
    }
}

impl Scalar for i64 {
    open spec fn spec_from_dec(s: Seq<char>) -> Option<i64> {
        i64_of(s)
    }

    fn from_dec(s: &str) -> (r: Option<i64>) {
        i64_from_dec(s)
    }
}

impl Scalar for u32 {
    open spec fn spec_from_dec(s: Seq<char>) -> Option<u32> {
        u32_of(s)
    }

    fn from_dec(s: &str) -> (r: Option<u32>) {
        u32_from_dec(s)
    }
}

impl Scalar for u64 {
    open spec fn spec_from_dec(s: Seq<char>) -> Option<u64> {
        u64_of(s)
    }

    fn from_dec(s: &str) -> (r: Option<u64>) {
        u64_from_dec(s)
    }
}

} // verus!
