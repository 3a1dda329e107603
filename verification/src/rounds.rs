//! How many folds a polynomial needs, and which domains can carry them.
//!
//! A fold halves the length of a polynomial, rounding up, and the length of
//! a domain, which must be even. A run folds until the polynomial has one
//! coefficient, so its domain has to be a power of two that is large enough
//! to be halved once per fold.

use vstd::arithmetic::div_mod::{lemma_div_denominator, lemma_div_plus_one};
use vstd::arithmetic::power2::{
    is_pow2, lemma2_to64, lemma_pow2_pos, lemma_pow2_strictly_increases, lemma_pow2_unfold, pow2,
};
use vstd::prelude::*;

verus! {

/// The number of folds that bring a polynomial of `n` coefficients down to
/// one coefficient: none for `n <= 1`, else one more than for the folded
/// length.
pub open spec fn rounds_needed(n: nat) -> nat
    decreases n,
{
    if n <= 1 {
        0
    } else {
        1 + rounds_needed(((n + 1) / 2) as nat)
    }
}

/// The quotient `a / b`, rounded up.
pub open spec fn ceil_div(a: nat, b: nat) -> nat
    recommends
        b > 0,
{
    ((a + b - 1) / (b as int)) as nat
}

/// Whether a domain of this length can be folded once: a power of two with
/// at least two elements.
pub open spec fn foldable(domain_len: nat) -> bool {
    is_pow2(domain_len as int) && domain_len >= 2
}

/// Whether a domain of length `domain_len` can carry the whole run of a
/// polynomial of `poly_len` coefficients: a power of two that leaves at
/// least one element after every fold.
pub open spec fn domain_admits(domain_len: nat, poly_len: nat) -> bool {
    is_pow2(domain_len as int) && domain_len >= pow2(rounds_needed(poly_len))
}

/// The number of folds is the base-two logarithm of the length, rounded up:
/// the least `r` with `n <= 2^r`.
pub proof fn rounds_needed_is_ceil_log2(n: nat)
    ensures
        n <= pow2(rounds_needed(n)),
        rounds_needed(n) > 0 ==> pow2((rounds_needed(n) - 1) as nat) < n,
    decreases n,
{
    lemma2_to64();
    if n > 1 {
        let h = ((n + 1) / 2) as nat;
        rounds_needed_is_ceil_log2(h);
        lemma_pow2_unfold(rounds_needed(n));
        if rounds_needed(h) > 0 {
            lemma_pow2_unfold(rounds_needed(h));
        }
    }
}

/// Halving a rounded-up quotient, rounding up again, divides by twice the
/// divisor, rounding up.
pub proof fn ceil_div_halved(n: nat, q: nat)
    requires
        q > 0,
    ensures
        ceil_div(ceil_div(n, q), 2) == ceil_div(n, 2 * q),
{
    let x = n + q - 1;
    lemma_div_plus_one(x, q as int);
    lemma_div_denominator(q + x, q as int, 2);
    assert(q * 2 == 2 * q);
}

/// Halving a quotient divides by twice the divisor.
pub proof fn floor_div_halved(m: nat, q: nat)
    requires
        q > 0,
    ensures
        (m / q) / 2 == m / (2 * q),
{
    lemma_div_denominator(m as int, q as int, 2);
    assert(q * 2 == 2 * q);
}

/// Half of a foldable length that must carry `e` folds carries the rest.
pub proof fn half_carries_rest(m: nat, e: nat)
    requires
        is_pow2(m as int),
        e > 0,
        m >= pow2(e),
    ensures
        foldable(m),
        is_pow2((m / 2) as int),
        m / 2 >= pow2((e - 1) as nat),
{
    reveal(is_pow2);
    lemma_pow2_unfold(e);
    lemma_pow2_pos((e - 1) as nat);
}

/// The number of folds that a polynomial of `poly_len` coefficients needs.
pub fn fold_rounds(poly_len: usize) -> (rounds: usize)
    ensures
        rounds == rounds_needed(poly_len as nat),
{
    let mut len: usize = poly_len;
    let mut rounds: usize = 0;
    while len > 1
        invariant
            rounds + len <= poly_len || len <= 1 && rounds == 0,
            rounds_needed(poly_len as nat) == rounds + rounds_needed(len as nat),
        decreases len,
    {
        len = len / 2 + len % 2;
        rounds += 1;
    }
    rounds
}

/// Whether `m` is a power of two.
pub fn is_power_of_two(m: usize) -> (yes: bool)
    ensures
        yes == is_pow2(m as int),
{
    proof {
        reveal(is_pow2);
    }
    if m == 0 {
        return false;
    }
    let mut rest: usize = m;
    while rest % 2 == 0
        invariant
            rest >= 1,
            is_pow2(rest as int) == is_pow2(m as int),
        decreases rest,
    {
        proof {
            reveal(is_pow2);
        }
        rest = rest / 2;
    }
    proof {
        reveal(is_pow2);
    }
    rest == 1
}

/// Whether a domain of `domain_len` elements is a power of two that can be
/// halved `rounds` times and still hold an element.
pub fn domain_supports(domain_len: usize, rounds: usize) -> (ok: bool)
    ensures
        ok == (is_pow2(domain_len as int) && domain_len >= pow2(rounds as nat)),
{
    if !is_power_of_two(domain_len) {
        return false;
    }
    let mut rest: usize = domain_len;
    let mut done: usize = 0;
    proof {
        reveal(is_pow2);
        lemma2_to64();
    }
    while done < rounds
        invariant
            done <= rounds,
            rest >= 1,
            is_pow2(rest as int),
            domain_len == rest * pow2(done as nat),
        decreases rounds - done,
    {
        if rest < 2 {
            proof {
                lemma_pow2_strictly_increases(done as nat, rounds as nat);
                assert(rest * pow2(done as nat) == pow2(done as nat)) by (nonlinear_arith)
                    requires
                        rest == 1,
                ;
            }
            return false;
        }
        proof {
            reveal(is_pow2);
            lemma_pow2_unfold((done + 1) as nat);
            let q = pow2(done as nat);
            assert((rest / 2) * (2 * q) == rest * q) by (nonlinear_arith)
                requires
                    rest % 2 == 0,
            ;
        }
        rest = rest / 2;
        done += 1;
    }
    proof {
        let q = pow2(rounds as nat);
        assert(rest * q >= q) by (nonlinear_arith)
            requires
                rest >= 1,
                q >= 0,
        ;
    }
    true
}

} // verus!
