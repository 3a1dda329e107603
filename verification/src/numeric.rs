//! Exact integer arithmetic on `i128`, with models over `int`.

use crate::error::FriError;
use vstd::prelude::*;

verus! {

/// Whether the mathematical integer `v` is representable as an `i128`.
pub open spec fn fits(v: int) -> bool {
    i128::MIN <= v <= i128::MAX
}

/// Whether every element of `s` is representable as an `i128`.
pub open spec fn all_fit(s: Seq<int>) -> bool {
    forall|i: int| 0 <= i < s.len() ==> fits(#[trigger] s[i])
}

/// The mathematical integers that a sequence of machine integers stands for.
pub open spec fn ints(s: Seq<i128>) -> Seq<int> {
    Seq::new(s.len(), |i: int| s[i] as int)
}

/// The product `a * b`, or `ArithmeticOverflow` when it is not representable.
pub fn mul_exact(a: i128, b: i128) -> (res: Result<i128, FriError>)
    ensures
        res is Ok <==> fits(a * b),
        res matches Ok(v) ==> v == a * b,
        res matches Err(e) ==> e == FriError::ArithmeticOverflow,
{
    match a.checked_mul(b) {
        Some(v) => Ok(v),
        None => Err(FriError::ArithmeticOverflow),
    }
}

/// The sum `a + b`, or `ArithmeticOverflow` when it is not representable.
pub fn add_exact(a: i128, b: i128) -> (res: Result<i128, FriError>)
    ensures
        res is Ok <==> fits(a + b),
        res matches Ok(v) ==> v == a + b,
        res matches Err(e) ==> e == FriError::ArithmeticOverflow,
{
    match a.checked_add(b) {
        Some(v) => Ok(v),
        None => Err(FriError::ArithmeticOverflow),
    }
}

} // verus!
