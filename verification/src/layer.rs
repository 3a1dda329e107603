//! One round of a run: the fold of a domain and a polynomial, the
//! evaluations of the one over the other, and the root that binds them.

use crate::commitment::{commit, commitment};
use crate::error::FriError;
use crate::folding::{fold_domain, fold_exact, fold_poly, next_fri_domain, next_fri_polynomial};
use crate::numeric::{all_fit, ints};
use crate::polynomial::{eval, eval_exact, Polynomial};
use crate::rounds::{domain_supports, foldable};
use vstd::arithmetic::power::pow;
use vstd::arithmetic::power2::lemma2_to64;
use vstd::prelude::*;

verus! {

/// The evaluations of `p` over the points of `d`, in their order.
pub open spec fn eval_layer(p: Seq<int>, d: Seq<int>) -> Seq<int> {
    Seq::new(d.len(), |j: int| eval(p, d[j]))
}

/// Whether `p` can be evaluated within `i128` at every point of `d`.
pub open spec fn layer_exact(p: Seq<int>, d: Seq<int>) -> bool {
    forall|j: int| 0 <= j < d.len() ==> eval_exact(p, #[trigger] d[j])
}

/// Whether the round that follows `(p, d)` under `beta` can be computed
/// within `i128`: the squares of the domain, the folded polynomial, and the
/// evaluations of the one over the other.
pub open spec fn round_exact(p: Seq<int>, d: Seq<int>, beta: int) -> bool {
    &&& all_fit(fold_domain(d))
    &&& fold_exact(p, beta)
    &&& layer_exact(fold_poly(p, beta), fold_domain(d))
}

/// The layer of a constant polynomial is constant: every evaluation equals
/// the one coefficient, whatever the domain.
pub proof fn constant_poly_layer(p: Seq<int>, d: Seq<int>)
    requires
        p.len() == 1,
    ensures
        eval_layer(p, d).len() == d.len(),
        forall|j: int| 0 <= j < d.len() ==> #[trigger] eval_layer(p, d)[j] == p[0],
{
    reveal(pow);
    assert forall|j: int| 0 <= j < d.len() implies #[trigger] eval_layer(p, d)[j] == p[0] by {
        assert(p.drop_last().len() == 0);
        assert(eval(p.drop_last(), d[j]) == 0);
        assert(pow(d[j], 0) == 1);
    }
}

/// One round: the next domain, the next polynomial, its evaluations over the
/// next domain, and the Merkle root of those evaluations.
///
/// The domain must be a power of two with at least two elements, else the
/// round is refused with `InvalidDomain` before anything is computed. The
/// round is refused with `ArithmeticOverflow` exactly when a square of the
/// domain, a coefficient of the fold or a step of an evaluation is not
/// representable as an `i128`.
#[verifier::loop_isolation(false)]
pub fn next_fri_layer(poly: Vec<i128>, domain: Vec<i128>, beta: i128) -> (res: Result<
    (Vec<i128>, Vec<i128>, Vec<i128>, [u8; 32]),
    FriError,
>)
    ensures
        res is Ok <==> foldable(domain@.len()) && round_exact(
            ints(poly@),
            ints(domain@),
            beta as int,
        ),
        res matches Ok(t) ==> ints(t.0@) == fold_domain(ints(domain@)),
        res matches Ok(t) ==> ints(t.1@) == fold_poly(ints(poly@), beta as int),
        res matches Ok(t) ==> ints(t.2@) == eval_layer(ints(t.1@), ints(t.0@)),
        res matches Ok(t) ==> t.3@ == commitment(ints(t.2@)),
        res matches Err(e) ==> e == (if foldable(domain@.len()) {
            FriError::ArithmeticOverflow
        } else {
            FriError::InvalidDomain
        }),
{
    proof {
        lemma2_to64();
    }
    if !domain_supports(domain.len(), 1) {
        return Err(FriError::InvalidDomain);
    }
    let ghost p = ints(poly@);
    let ghost d = ints(domain@);
    let next_domain = match next_fri_domain(domain) {
        Ok(next) => next,
        Err(e) => {
            return Err(e);
        },
    };
    let next_poly = match next_fri_polynomial(poly, beta) {
        Ok(next) => Polynomial::new(next),
        Err(e) => {
            return Err(e);
        },
    };
    let ghost next_d = fold_domain(d);
    let ghost next_p = fold_poly(p, beta as int);
    let ghost target = eval_layer(next_p, next_d);
    let n = next_domain.len();
    let mut next_layer: Vec<i128> = Vec::new();
    let mut i: usize = 0;
    while i < n
        invariant
            i <= n,
            n == next_domain.len(),
            ints(next_domain@) == next_d,
            next_poly@ == next_p,
            target == eval_layer(next_p, next_d),
            next_layer.len() == i,
            forall|j: int| 0 <= j < i ==> next_layer[j] as int == #[trigger] target[j],
            forall|j: int| 0 <= j < i ==> eval_exact(next_p, #[trigger] next_d[j]),
        decreases n - i,
    {
        assert(next_d[i as int] == next_domain[i as int] as int);
        match next_poly.evaluate(next_domain[i]) {
            Ok(v) => next_layer.push(v),
            Err(e) => {
                assert(!eval_exact(next_p, next_d[i as int]));
                return Err(e);
            },
        }
        i += 1;
    }
    assert(ints(next_layer@) =~= target);
    assert(layer_exact(next_p, next_d));
    let root = match commit(&next_layer) {
        Ok(root) => root,
        Err(e) => {
            return Err(e);
        },
    };
    Ok((next_domain, next_poly.coefficients, next_layer, root))
}

} // verus!
