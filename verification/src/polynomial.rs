//! Polynomials as coefficient vectors: evaluation and addition.
//!
//! A polynomial is the sequence of its coefficients in ascending degree. The
//! length of that sequence is authoritative: trailing zero coefficients are
//! kept, never trimmed.

use crate::error::FriError;
use crate::numeric::{add_exact, all_fit, fits, ints, mul_exact};
use vstd::arithmetic::power::pow;
use vstd::prelude::*;

verus! {

/// A polynomial with `i128` coefficients; the index of a coefficient is its
/// degree.
#[derive(Debug, PartialEq, Eq)]
pub struct Polynomial {
    pub coefficients: Vec<i128>,
}

impl View for Polynomial {
    type V = Seq<int>;

    /// The coefficients as mathematical integers.
    open spec fn view(&self) -> Seq<int> {
        ints(self.coefficients@)
    }
}

/// The coefficient of degree `i`, which is zero beyond the stored ones.
pub open spec fn coeff(p: Seq<int>, i: int) -> int {
    if 0 <= i < p.len() {
        p[i]
    } else {
        0
    }
}

/// The sum of two polynomials: coefficient by coefficient, the shorter one
/// padded with zeros to the length of the longer.
pub open spec fn poly_sum(a: Seq<int>, b: Seq<int>) -> Seq<int> {
    Seq::new(
        if a.len() >= b.len() {
            a.len()
        } else {
            b.len()
        },
        |i: int| coeff(a, i) + coeff(b, i),
    )
}

/// The value of `p` at `x`: the sum of `p[i] * x^i` over all stored
/// coefficients, with `x^0 == 1` for every `x`.
pub open spec fn eval(p: Seq<int>, x: int) -> int
    decreases p.len(),
{
    if p.len() == 0 {
        0
    } else {
        eval(p.drop_last(), x) + p.last() * pow(x, (p.len() - 1) as nat)
    }
}

/// The sum of `coeff(p, i) * x^i` over `i < n`.
pub open spec fn eval_upto(p: Seq<int>, x: int, n: nat) -> int
    decreases n,
{
    if n == 0 {
        0
    } else {
        eval_upto(p, x, (n - 1) as nat) + coeff(p, n - 1) * pow(x, (n - 1) as nat)
    }
}

/// Whether the term of degree `i` can be added exactly: the power `x^i`, the
/// term `p[i] * x^i` and the sum of all terms up to it are representable.
pub open spec fn term_exact(p: Seq<int>, x: int, i: int) -> bool {
    &&& fits(pow(x, i as nat))
    &&& fits(p[i] * pow(x, i as nat))
    &&& fits(eval(p.take(i + 1), x))
}

/// Whether `p` can be evaluated at `x` term by term within `i128`.
pub open spec fn eval_exact(p: Seq<int>, x: int) -> bool {
    forall|i: int| 0 <= i < p.len() ==> #[trigger] term_exact(p, x, i)
}

/// One more term: the value of the first `i + 1` coefficients is that of the
/// first `i` plus the term of degree `i`.
pub proof fn eval_step(p: Seq<int>, x: int, i: int)
    requires
        0 <= i < p.len(),
    ensures
        eval(p.take(i + 1), x) == eval(p.take(i), x) + p[i] * pow(x, i as nat),
{
    assert(p.take(i + 1).drop_last() =~= p.take(i));
}

/// The next power of `x`.
pub proof fn pow_step(x: int, e: nat)
    ensures
        pow(x, e + 1) == pow(x, e) * x,
{
    reveal(pow);
    assert(pow(x, e + 1) == x * pow(x, e));
    assert(x * pow(x, e) == pow(x, e) * x) by (nonlinear_arith);
}

impl Polynomial {
    /// The polynomial with the given coefficients, in ascending degree.
    pub fn new(coefficients: Vec<i128>) -> (p: Polynomial)
        ensures
            p.coefficients == coefficients,
            p@ == ints(coefficients@),
    {
        Polynomial { coefficients }
    }

    /// The value of the polynomial at `x`.
    ///
    /// The terms are added in ascending degree. The result is
    /// `ArithmeticOverflow` exactly when a power of `x`, a term or a partial
    /// sum is not representable as an `i128`.
    pub fn evaluate(&self, x: i128) -> (res: Result<i128, FriError>)
        ensures
            res is Ok <==> eval_exact(self@, x as int),
            res matches Ok(v) ==> v == eval(self@, x as int),
            res matches Err(e) ==> e == FriError::ArithmeticOverflow,
    {
        let n = self.coefficients.len();
        let mut result: i128 = 0;
        let mut power: i128 = 1;
        let mut i: usize = 0;
        proof {
            reveal(pow);
        }
        while i < n
            invariant
                i <= n,
                n == self.coefficients.len(),
                result == eval(self@.take(i as int), x as int),
                i < n ==> power == pow(x as int, i as nat),
                forall|j: int| 0 <= j < i ==> #[trigger] term_exact(self@, x as int, j),
            decreases n - i,
        {
            let c = self.coefficients[i];
            proof {
                eval_step(self@, x as int, i as int);
            }
            let term = match mul_exact(c, power) {
                Ok(t) => t,
                Err(e) => {
                    assert(!term_exact(self@, x as int, i as int));
                    return Err(e);
                },
            };
            result = match add_exact(result, term) {
                Ok(s) => s,
                Err(e) => {
                    assert(!term_exact(self@, x as int, i as int));
                    return Err(e);
                },
            };
            assert(term_exact(self@, x as int, i as int));
            i += 1;
            if i < n {
                proof {
                    pow_step(x as int, (i - 1) as nat);
                }
                power = match mul_exact(power, x) {
                    Ok(next) => next,
                    Err(e) => {
                        assert(!term_exact(self@, x as int, i as int));
                        return Err(e);
                    },
                };
            }
        }
        assert(self@.take(n as int) =~= self@);
        Ok(result)
    }

    /// The sum of two polynomials, as long as the longer operand.
    ///
    /// The result is `ArithmeticOverflow` exactly when the sum of two
    /// coefficients is not representable as an `i128`.
    pub fn add(&self, other: &Polynomial) -> (res: Result<Polynomial, FriError>)
        ensures
            res is Ok <==> all_fit(poly_sum(self@, other@)),
            res matches Ok(p) ==> p@ == poly_sum(self@, other@),
            res matches Err(e) ==> e == FriError::ArithmeticOverflow,
    {
        let n = self.coefficients.len();
        let m = other.coefficients.len();
        let max_len = if n >= m {
            n
        } else {
            m
        };
        let ghost sum = poly_sum(self@, other@);
        let mut result_coeffs: Vec<i128> = Vec::new();
        let mut i: usize = 0;
        while i < max_len
            invariant
                i <= max_len,
                n == self.coefficients.len(),
                m == other.coefficients.len(),
                max_len == sum.len(),
                sum == poly_sum(self@, other@),
                result_coeffs.len() == i,
                forall|j: int| 0 <= j < i ==> result_coeffs[j] as int == #[trigger] sum[j],
            decreases max_len - i,
        {
            let a: i128 = if i < n {
                self.coefficients[i]
            } else {
                0
            };
            let b: i128 = if i < m {
                other.coefficients[i]
            } else {
                0
            };
            assert(sum[i as int] == a + b);
            match add_exact(a, b) {
                Ok(v) => result_coeffs.push(v),
                Err(e) => {
                    assert(!fits(sum[i as int]));
                    return Err(e);
                },
            }
            i += 1;
        }
        let p = Polynomial::new(result_coeffs);
        assert(p@ =~= sum);
        Ok(p)
    }
}

/// Two polynomials that agree on every coefficient below degree `n` have the
/// same sum of terms below degree `n`.
pub proof fn eval_upto_agrees(p: Seq<int>, q: Seq<int>, x: int, n: nat)
    requires
        forall|i: int| 0 <= i < n ==> coeff(p, i) == coeff(q, i),
    ensures
        eval_upto(p, x, n) == eval_upto(q, x, n),
    decreases n,
{
    if n > 0 {
        eval_upto_agrees(p, q, x, (n - 1) as nat);
    }
}

/// The value of a polynomial is the sum of its terms below any degree that
/// its length does not exceed: the padding adds nothing.
pub proof fn eval_is_eval_upto(p: Seq<int>, x: int, n: nat)
    requires
        p.len() <= n,
    ensures
        eval(p, x) == eval_upto(p, x, n),
    decreases n,
{
    if n == 0 {
    } else if p.len() < n {
        eval_is_eval_upto(p, x, (n - 1) as nat);
        assert(coeff(p, n - 1) * pow(x, (n - 1) as nat) == 0) by (nonlinear_arith)
            requires
                coeff(p, n - 1) == 0,
        ;
    } else {
        eval_is_eval_upto(p.drop_last(), x, (n - 1) as nat);
        eval_upto_agrees(p, p.drop_last(), x, (n - 1) as nat);
    }
}

/// The terms of a sum below degree `n` add up to the terms of its operands.
pub proof fn eval_upto_of_sum(a: Seq<int>, b: Seq<int>, x: int, n: nat)
    ensures
        eval_upto(poly_sum(a, b), x, n) == eval_upto(a, x, n) + eval_upto(b, x, n),
    decreases n,
{
    if n > 0 {
        eval_upto_of_sum(a, b, x, (n - 1) as nat);
        let pw = pow(x, (n - 1) as nat);
        let ca = coeff(a, n - 1);
        let cb = coeff(b, n - 1);
        assert(coeff(poly_sum(a, b), n - 1) == ca + cb);
        assert((ca + cb) * pw == ca * pw + cb * pw) by (nonlinear_arith);
    }
}

/// Addition is commutative.
pub proof fn sum_commutes(a: Seq<int>, b: Seq<int>)
    ensures
        poly_sum(a, b) == poly_sum(b, a),
{
    assert(poly_sum(a, b) =~= poly_sum(b, a));
}

/// A sum evaluated at any point is the sum of its operands evaluated at that
/// point.
pub proof fn eval_of_sum(a: Seq<int>, b: Seq<int>, x: int)
    ensures
        eval(poly_sum(a, b), x) == eval(a, x) + eval(b, x),
{
    let n = poly_sum(a, b).len();
    eval_is_eval_upto(poly_sum(a, b), x, n);
    eval_is_eval_upto(a, x, n);
    eval_is_eval_upto(b, x, n);
    eval_upto_of_sum(a, b, x, n);
}

} // verus!
