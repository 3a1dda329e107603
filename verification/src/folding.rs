//! The two folds of a round: the domain to its squared first half, the
//! polynomial to its even part plus a multiple of its odd part.

use crate::error::FriError;
use crate::numeric::{all_fit, fits, ints, mul_exact};
use crate::polynomial::{
    coeff, eval, eval_is_eval_upto, eval_of_sum, eval_upto, poly_sum, pow_step, Polynomial,
};
use vstd::arithmetic::power::pow;
use vstd::prelude::*;

verus! {

/// The successor of a domain: the squares of its first half, in order. A
/// last element without a partner in an odd-length domain is not read.
pub open spec fn fold_domain(d: Seq<int>) -> Seq<int> {
    Seq::new((d.len() / 2) as nat, |i: int| d[i] * d[i])
}

/// The coefficients of even degree, renumbered from zero.
pub open spec fn even_part(p: Seq<int>) -> Seq<int> {
    Seq::new(((p.len() + 1) / 2) as nat, |i: int| p[2 * i])
}

/// The coefficients of odd degree, renumbered from zero.
pub open spec fn odd_part(p: Seq<int>) -> Seq<int> {
    Seq::new((p.len() / 2) as nat, |i: int| p[2 * i + 1])
}

/// Every coefficient of `p` multiplied by `k`.
pub open spec fn scaled(p: Seq<int>, k: int) -> Seq<int> {
    Seq::new(p.len(), |i: int| k * p[i])
}

/// The successor of a polynomial under the fold coefficient `beta`: its even
/// part plus `beta` times its odd part.
pub open spec fn fold_poly(p: Seq<int>, beta: int) -> Seq<int> {
    poly_sum(even_part(p), scaled(odd_part(p), beta))
}

/// Whether `p` can be folded by `beta` within `i128`: every scaled odd
/// coefficient and every coefficient of the result is representable.
pub open spec fn fold_exact(p: Seq<int>, beta: int) -> bool {
    all_fit(scaled(odd_part(p), beta)) && all_fit(fold_poly(p, beta))
}

/// The next evaluation domain: the squares of the first half of `domain`.
///
/// The result has `domain.len() / 2` elements. It is `ArithmeticOverflow`
/// exactly when one of those squares is not representable as an `i128`.
/// The length of `domain` is not judged here.
pub fn next_fri_domain(domain: Vec<i128>) -> (res: Result<Vec<i128>, FriError>)
    ensures
        res is Ok <==> all_fit(fold_domain(ints(domain@))),
        res matches Ok(next) ==> ints(next@) == fold_domain(ints(domain@)),
        res matches Err(e) ==> e == FriError::ArithmeticOverflow,
{
    let half = domain.len() / 2;
    let ghost target = fold_domain(ints(domain@));
    let mut next_domain: Vec<i128> = Vec::new();
    let mut i: usize = 0;
    while i < half
        invariant
            i <= half,
            half == domain.len() / 2,
            target == fold_domain(ints(domain@)),
            next_domain.len() == i,
            forall|j: int| 0 <= j < i ==> next_domain[j] as int == #[trigger] target[j],
        decreases half - i,
    {
        assert(target[i as int] == domain[i as int] * domain[i as int]);
        match mul_exact(domain[i], domain[i]) {
            Ok(square) => next_domain.push(square),
            Err(e) => {
                assert(!fits(target[i as int]));
                return Err(e);
            },
        }
        i += 1;
    }
    assert(ints(next_domain@) =~= target);
    Ok(next_domain)
}

/// The next polynomial: the even-degree coefficients of `poly` plus `beta`
/// times its odd-degree coefficients.
///
/// The result has `(poly.len() + 1) / 2` coefficients. It is
/// `ArithmeticOverflow` exactly when a scaled coefficient or a coefficient of
/// the sum is not representable as an `i128`.
pub fn next_fri_polynomial(poly: Vec<i128>, beta: i128) -> (res: Result<Vec<i128>, FriError>)
    ensures
        res is Ok <==> fold_exact(ints(poly@), beta as int),
        res matches Ok(next) ==> ints(next@) == fold_poly(ints(poly@), beta as int),
        res matches Err(e) ==> e == FriError::ArithmeticOverflow,
{
    let n = poly.len();
    let ghost p = ints(poly@);
    let mut odd_coeff: Vec<i128> = Vec::new();
    let mut even_coeff: Vec<i128> = Vec::new();
    let mut new_coeff: Vec<i128> = Vec::new();
    let mut i: usize = 0;
    while i < n
        invariant
            i <= n,
            n == poly.len(),
            p == ints(poly@),
            even_coeff.len() == (i + 1) / 2,
            odd_coeff.len() == i / 2,
            forall|j: int| 0 <= j < even_coeff.len() ==> #[trigger] even_coeff[j] == poly[2 * j],
            forall|j: int| 0 <= j < odd_coeff.len() ==> #[trigger] odd_coeff[j] == poly[2 * j + 1],
        decreases n - i,
    {
        if i % 2 == 0 {
            even_coeff.push(poly[i]);
        } else {
            odd_coeff.push(poly[i]);
        }
        i += 1;
    }
    assert(ints(even_coeff@) =~= even_part(p));
    assert(ints(odd_coeff@) =~= odd_part(p));
    let ghost target = scaled(odd_part(p), beta as int);
    let odd_len = odd_coeff.len();
    let mut k: usize = 0;
    while k < odd_len
        invariant
            k <= odd_len,
            odd_len == odd_coeff.len(),
            p == ints(poly@),
            ints(odd_coeff@) == odd_part(p),
            target == scaled(odd_part(p), beta as int),
            new_coeff.len() == k,
            forall|j: int| 0 <= j < k ==> new_coeff[j] as int == #[trigger] target[j],
        decreases odd_len - k,
    {
        assert(target[k as int] == beta * ints(odd_coeff@)[k as int]);
        match mul_exact(beta, odd_coeff[k]) {
            Ok(v) => new_coeff.push(v),
            Err(e) => {
                assert(!fits(target[k as int]));
                return Err(e);
            },
        }
        k += 1;
    }
    assert(ints(new_coeff@) =~= target);
    let even = Polynomial::new(even_coeff);
    let odd = Polynomial::new(new_coeff);
    match even.add(&odd) {
        Ok(next_poly) => Ok(next_poly.coefficients),
        Err(e) => Err(e),
    }
}

/// A scaled polynomial evaluates to the scaled value.
pub proof fn eval_of_scaled(p: Seq<int>, k: int, x: int)
    ensures
        eval(scaled(p, k), x) == k * eval(p, x),
    decreases p.len(),
{
    if p.len() == 0 {
        assert(k * 0 == 0);
    } else {
        eval_of_scaled(p.drop_last(), k, x);
        assert(scaled(p, k).drop_last() =~= scaled(p.drop_last(), k));
        let pw = pow(x, (p.len() - 1) as nat);
        let c = p.last();
        let rest = eval(p.drop_last(), x);
        assert(k * rest + (k * c) * pw == k * (rest + c * pw)) by (nonlinear_arith);
    }
}

/// Powers of a square: `(x * x)^j == x^(2 * j)`.
pub proof fn pow_of_square(x: int, j: nat)
    ensures
        pow(x * x, j) == pow(x, 2 * j),
    decreases j,
{
    reveal(pow);
    if j > 0 {
        pow_of_square(x, (j - 1) as nat);
        pow_step(x * x, (j - 1) as nat);
        pow_step(x, (2 * j - 2) as nat);
        pow_step(x, (2 * j - 1) as nat);
        let q = pow(x, (2 * j - 2) as nat);
        assert(q * (x * x) == (q * x) * x) by (nonlinear_arith);
    }
}

/// The terms of `p` below degree `2 * k`, split by the parity of their
/// degree.
pub proof fn eval_upto_split(p: Seq<int>, x: int, k: nat)
    ensures
        eval_upto(p, x, 2 * k) == eval_upto(even_part(p), x * x, k) + x * eval_upto(
            odd_part(p),
            x * x,
            k,
        ),
    decreases k,
{
    if k == 0 {
        assert(x * 0 == 0);
    } else {
        let j = (k - 1) as nat;
        eval_upto_split(p, x, j);
        pow_of_square(x, j);
        pow_step(x, 2 * j);
        let q = pow(x, 2 * j);
        let ce = coeff(p, (2 * j) as int);
        let co = coeff(p, (2 * j + 1) as int);
        assert(coeff(even_part(p), j as int) == ce);
        assert(coeff(odd_part(p), j as int) == co);
        let below = eval_upto(p, x, 2 * j);
        let even_below = eval_upto(even_part(p), x * x, j);
        let odd_below = eval_upto(odd_part(p), x * x, j);
        assert(eval_upto(p, x, (2 * j + 1) as nat) == below + ce * q);
        assert(eval_upto(p, x, 2 * k) == below + ce * q + co * (q * x));
        assert(eval_upto(even_part(p), x * x, k) == even_below + ce * q);
        assert(eval_upto(odd_part(p), x * x, k) == odd_below + co * q);
        assert(x * (odd_below + co * q) == x * odd_below + co * (q * x)) by (nonlinear_arith);
    }
}

/// A polynomial at `x` is its even part at `x * x` plus `x` times its odd
/// part at `x * x`.
pub proof fn even_odd_decomposition(p: Seq<int>, x: int)
    ensures
        eval(p, x) == eval(even_part(p), x * x) + x * eval(odd_part(p), x * x),
{
    let k = ((p.len() + 1) / 2) as nat;
    eval_is_eval_upto(p, x, 2 * k);
    eval_is_eval_upto(even_part(p), x * x, k);
    eval_is_eval_upto(odd_part(p), x * x, k);
    eval_upto_split(p, x, k);
}

/// The folded polynomial at `x * x` is the even part at `x * x` plus `beta`
/// times the odd part at `x * x`, for every point `x` and coefficient `beta`.
pub proof fn fold_identity(p: Seq<int>, beta: int, x: int)
    ensures
        eval(fold_poly(p, beta), x * x) == eval(even_part(p), x * x) + beta * eval(
            odd_part(p),
            x * x,
        ),
{
    eval_of_sum(even_part(p), scaled(odd_part(p), beta), x * x);
    eval_of_scaled(odd_part(p), beta, x * x);
}

/// Folding by the point itself keeps the value: the polynomial folded by `x`
/// takes at `x * x` the value of the polynomial at `x`.
pub proof fn fold_by_point_keeps_value(p: Seq<int>, x: int)
    ensures
        eval(fold_poly(p, x), x * x) == eval(p, x),
{
    fold_identity(p, x, x);
    even_odd_decomposition(p, x);
}

} // verus!
