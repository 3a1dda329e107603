//! The fold engine: the run from the caller's round 0 to a constant
//! polynomial, with fold coefficients that are given in advance or drawn
//! from a challenge source round by round.
//!
//! The engine draws no randomness of its own: every fold coefficient comes
//! from outside.

use crate::commitment::commitment;
use crate::error::FriError;
use crate::folding::{fold_domain, fold_poly};
use crate::layer::{eval_layer, next_fri_layer, round_exact};
use crate::numeric::ints;
use crate::rounds::{
    domain_admits, domain_supports, fold_rounds, half_carries_rest, rounds_needed,
};
use crate::run::{
    chain_follows_run, domain_at, poly_at, poly_at_prefix, recorded_run_has_shape, records_run,
    run_exact, run_shape, Transcript,
};
use vstd::arithmetic::power2::{is_pow2, pow2};
use vstd::prelude::*;

verus! {

/// Whether `beta` is a value that `challenge` may return for the fold `k`
/// when it is shown some root.
pub open spec fn may_answer<F: Fn(usize, [u8; 32]) -> i128>(
    challenge: F,
    k: int,
    beta: i128,
) -> bool {
    let fold = k as usize;
    exists|root: [u8; 32]| #[trigger] call_ensures(challenge, (fold, root), beta)
}

/// Whether `betas` are answers of `challenge` to the roots of a transcript:
/// `betas[k]` is a value that it may return when it is asked for the
/// coefficient of fold `k` and shown the root of round `k`.
pub open spec fn answered<F: Fn(usize, [u8; 32]) -> i128>(
    challenge: F,
    roots: Seq<[u8; 32]>,
    betas: Seq<i128>,
) -> bool {
    &&& betas.len() < roots.len()
    &&& forall|k: int|
        0 <= k < betas.len() ==> call_ensures(challenge, (k as usize, roots[k]), #[trigger] betas[k])
}

/// Whether `t` is the run that `betas` lead to and `betas` are answers of
/// `challenge` to the roots of `t`: one coefficient per fold, each a value
/// that `challenge` may return for the root of the round that it folds,
/// every fold computed within `i128`, and `t` the record of it all.
pub open spec fn run_answers<F: Fn(usize, [u8; 32]) -> i128>(
    challenge: F,
    t: Transcript,
    domain: Seq<i128>,
    cp: Seq<i128>,
    cp_eval: Seq<i128>,
    cp_r: [u8; 32],
    betas: Seq<i128>,
) -> bool {
    &&& betas.len() == rounds_needed(cp.len())
    &&& answered(challenge, t.3@, betas)
    &&& run_exact(ints(domain), ints(cp), ints(betas), rounds_needed(cp.len()))
    &&& records_run(t, domain, cp, cp_eval, cp_r, betas)
}

/// Whether `betas` are answers of `challenge` that make a fold of the run
/// leave the range of `i128`: at least one coefficient and at most one per
/// fold, each a value that `challenge` may return for its fold, and among
/// the folds that they determine one that cannot be computed.
pub open spec fn overflow_answers<F: Fn(usize, [u8; 32]) -> i128>(
    challenge: F,
    domain: Seq<i128>,
    cp: Seq<i128>,
    betas: Seq<i128>,
) -> bool {
    &&& 1 <= betas.len() <= rounds_needed(cp.len())
    &&& forall|k: int| 0 <= k < betas.len() ==> #[trigger] may_answer(challenge, k, betas[k])
    &&& !run_exact(ints(domain), ints(cp), ints(betas), betas.len())
}

/// Whether the rounds in the four sequences follow one another by folds
/// with `betas`, each fold computed within `i128`: one round more than
/// coefficients, every later round made from its predecessor.
#[verifier::opaque]
spec fn linked(
    doms: Seq<Vec<i128>>,
    polys: Seq<Vec<i128>>,
    layers: Seq<Vec<i128>>,
    roots: Seq<[u8; 32]>,
    betas: Seq<i128>,
) -> bool {
    &&& doms.len() == betas.len() + 1
    &&& polys.len() == betas.len() + 1
    &&& layers.len() == betas.len() + 1
    &&& roots.len() == betas.len() + 1
    &&& forall|k: int|
        1 <= k <= betas.len() ==> ints(#[trigger] doms[k]@) == fold_domain(ints(doms[k - 1]@))
    &&& forall|k: int|
        1 <= k <= betas.len() ==> ints(#[trigger] polys[k]@) == fold_poly(
            ints(polys[k - 1]@),
            betas[k - 1] as int,
        )
    &&& forall|k: int|
        1 <= k <= betas.len() ==> ints(#[trigger] layers[k]@) == eval_layer(
            ints(polys[k]@),
            ints(doms[k]@),
        )
    &&& forall|k: int|
        1 <= k <= betas.len() ==> (#[trigger] roots[k])@ == commitment(ints(layers[k]@))
    &&& forall|k: int|
        0 <= k < betas.len() ==> round_exact(
            ints(polys[k]@),
            ints(doms[k]@),
            #[trigger] betas[k] as int,
        )
}

/// Round 0 alone is linked.
proof fn linked_start(domain: Vec<i128>, cp: Vec<i128>, cp_eval: Vec<i128>, cp_r: [u8; 32])
    ensures
        linked(seq![domain], seq![cp], seq![cp_eval], seq![cp_r], Seq::empty()),
{
    reveal(linked);
}

/// Linked rounds stay linked when the round that follows the last one under
/// `beta` is appended.
proof fn linked_push(
    doms: Seq<Vec<i128>>,
    polys: Seq<Vec<i128>>,
    layers: Seq<Vec<i128>>,
    roots: Seq<[u8; 32]>,
    betas: Seq<i128>,
    next: (Vec<i128>, Vec<i128>, Vec<i128>, [u8; 32]),
    beta: i128,
)
    requires
        linked(doms, polys, layers, roots, betas),
        round_exact(ints(polys.last()@), ints(doms.last()@), beta as int),
        ints(next.0@) == fold_domain(ints(doms.last()@)),
        ints(next.1@) == fold_poly(ints(polys.last()@), beta as int),
        ints(next.2@) == eval_layer(ints(next.1@), ints(next.0@)),
        next.3@ == commitment(ints(next.2@)),
    ensures
        linked(
            doms.push(next.0),
            polys.push(next.1),
            layers.push(next.2),
            roots.push(next.3),
            betas.push(beta),
        ),
{
    reveal(linked);
}

/// Linked rounds are the rounds of the run from their first round: every
/// domain and polynomial is what the run gives for its round, every later
/// layer and root belongs to its round, and every fold was computed within
/// `i128`.
proof fn linked_is_run(
    doms: Seq<Vec<i128>>,
    polys: Seq<Vec<i128>>,
    layers: Seq<Vec<i128>>,
    roots: Seq<[u8; 32]>,
    betas: Seq<i128>,
)
    requires
        linked(doms, polys, layers, roots, betas),
    ensures
        doms.len() == betas.len() + 1,
        polys.len() == betas.len() + 1,
        layers.len() == betas.len() + 1,
        roots.len() == betas.len() + 1,
        forall|k: int|
            0 <= k <= betas.len() ==> ints(#[trigger] doms[k]@) == domain_at(
                ints(doms[0]@),
                k as nat,
            ),
        forall|k: int|
            0 <= k <= betas.len() ==> ints(#[trigger] polys[k]@) == poly_at(
                ints(polys[0]@),
                ints(betas),
                k as nat,
            ),
        forall|k: int|
            1 <= k <= betas.len() ==> ints(#[trigger] layers[k]@) == eval_layer(
                ints(polys[k]@),
                ints(doms[k]@),
            ),
        forall|k: int|
            1 <= k <= betas.len() ==> (#[trigger] roots[k])@ == commitment(ints(layers[k]@)),
        run_exact(ints(doms[0]@), ints(polys[0]@), ints(betas), betas.len()),
{
    reveal(linked);
    let n = betas.len();
    let b = ints(betas);
    let ds = Seq::new(n + 1, |k: int| ints(doms[k]@));
    let ps = Seq::new(n + 1, |k: int| ints(polys[k]@));
    assert forall|k: int| 1 <= k <= n implies #[trigger] ps[k] == fold_poly(
        ps[k - 1],
        b[k - 1],
    ) by {
        assert(ints(polys[k]@) == fold_poly(ints(polys[k - 1]@), betas[k - 1] as int));
    }
    assert forall|k: int| 1 <= k <= n implies #[trigger] ds[k] == fold_domain(ds[k - 1]) by {
        assert(ints(doms[k]@) == fold_domain(ints(doms[k - 1]@)));
    }
    chain_follows_run(ds, ps, b, n);
    assert forall|k: int| 0 <= k <= n implies ints(#[trigger] doms[k]@) == domain_at(
        ints(doms[0]@),
        k as nat,
    ) by {
        assert(ds[k] == domain_at(ds[0], k as nat));
    }
    assert forall|k: int| 0 <= k <= n implies ints(#[trigger] polys[k]@) == poly_at(
        ints(polys[0]@),
        b,
        k as nat,
    ) by {
        assert(ps[k] == poly_at(ps[0], b, k as nat));
    }
    assert forall|k: int| 0 <= k < n implies #[trigger] round_exact(
        poly_at(ints(polys[0]@), b, k as nat),
        domain_at(ints(doms[0]@), k as nat),
        b[k],
    ) by {
        assert(round_exact(ints(polys[k]@), ints(doms[k]@), betas[k] as int));
        assert(ds[k] == domain_at(ds[0], k as nat));
        assert(ps[k] == poly_at(ps[0], b, k as nat));
    }
}

/// The rounds of a run, each coefficient drawn from `challenge` when its
/// fold is due. The ghost result is the sequence of coefficients drawn.
fn fold_run<F: Fn(usize, [u8; 32]) -> i128>(
    domain: Vec<i128>,
    cp: Vec<i128>,
    cp_eval: Vec<i128>,
    cp_r: [u8; 32],
    challenge: F,
) -> (res: (Result<Transcript, FriError>, Ghost<Seq<i128>>))
    requires
        domain_admits(domain@.len(), cp@.len()),
        forall|k: usize, root: [u8; 32]|
            k < rounds_needed(cp@.len()) ==> call_requires(challenge, (k, root)),
    ensures
        res.0 matches Ok(t) ==> run_answers(challenge, t, domain@, cp@, cp_eval@, cp_r, res.1@),
        res.0 matches Err(e) ==> e == FriError::ArithmeticOverflow,
        res.0 is Err ==> overflow_answers(challenge, domain@, cp@, res.1@),
{
    let ghost rounds = rounds_needed(cp@.len());
    let ghost d0 = domain@;
    let ghost p0 = cp@;
    let ghost l0 = cp_eval@;
    let ghost mut drawn: Seq<i128> = Seq::empty();
    proof {
        linked_start(domain, cp, cp_eval, cp_r);
    }
    let mut fri_domain: Vec<Vec<i128>> = Vec::new();
    let mut fri_poly: Vec<Vec<i128>> = Vec::new();
    let mut fri_layer: Vec<Vec<i128>> = Vec::new();
    let mut fri_merkle_root: Vec<[u8; 32]> = Vec::new();
    fri_domain.push(domain);
    fri_poly.push(cp);
    fri_layer.push(cp_eval);
    fri_merkle_root.push(cp_r);
    assert(fri_domain@ =~= seq![domain]);
    assert(fri_poly@ =~= seq![cp]);
    assert(fri_layer@ =~= seq![cp_eval]);
    assert(fri_merkle_root@ =~= seq![cp_r]);
    let mut r: usize = 0;
    while fri_poly[fri_poly.len() - 1].len() > 1
        invariant
            r <= rounds,
            rounds == rounds_needed(p0.len()),
            d0 == domain@,
            p0 == cp@,
            l0 == cp_eval@,
            drawn.len() == r,
            fri_domain.len() == r + 1,
            fri_poly.len() == r + 1,
            fri_layer.len() == r + 1,
            fri_merkle_root.len() == r + 1,
            fri_domain[0]@ == d0,
            fri_poly[0]@ == p0,
            fri_layer[0]@ == l0,
            fri_merkle_root[0] == cp_r,
            rounds_needed(fri_poly[r as int]@.len()) == rounds - r,
            is_pow2(fri_domain[r as int]@.len() as int),
            fri_domain[r as int]@.len() >= pow2((rounds - r) as nat),
            linked(fri_domain@, fri_poly@, fri_layer@, fri_merkle_root@, drawn),
            forall|k: usize, root: [u8; 32]| k < rounds ==> call_requires(challenge, (k, root)),
            forall|k: int|
                0 <= k < r ==> call_ensures(
                    challenge,
                    (k as usize, fri_merkle_root[k]),
                    #[trigger] drawn[k],
                ),
        decreases rounds - r,
    {
        proof {
            half_carries_rest(fri_domain[r as int]@.len(), (rounds - r) as nat);
        }
        let cur_poly = fri_poly[r].clone();
        let cur_domain = fri_domain[r].clone();
        assert(cur_poly@ =~= fri_poly[r as int]@);
        assert(cur_domain@ =~= fri_domain[r as int]@);
        let beta = challenge(r, fri_merkle_root[r]);
        let ghost after = drawn.push(beta);
        proof {
            assert forall|k: int| 0 <= k < after.len() implies #[trigger] may_answer(
                challenge,
                k,
                after[k],
            ) by {
                assert(call_ensures(challenge, (k as usize, fri_merkle_root[k]), after[k]));
            }
        }
        let next = match next_fri_layer(cur_poly, cur_domain, beta) {
            Ok(next) => next,
            Err(e) => {
                proof {
                    let d = ints(d0);
                    let p = ints(p0);
                    linked_is_run(fri_domain@, fri_poly@, fri_layer@, fri_merkle_root@, drawn);
                    poly_at_prefix(p, ints(drawn), ints(after), r as nat);
                    assert(ints(fri_poly[r as int]@) == poly_at(p, ints(drawn), r as nat));
                    assert(ints(fri_domain[r as int]@) == domain_at(d, r as nat));
                    assert(ints(after)[r as int] == beta as int);
                    assert(!round_exact(
                        poly_at(p, ints(after), r as nat),
                        domain_at(d, r as nat),
                        ints(after)[r as int],
                    ));
                    assert(!run_exact(d, p, ints(after), after.len()));
                }
                return (Err(e), Ghost(after));
            },
        };
        proof {
            linked_push(fri_domain@, fri_poly@, fri_layer@, fri_merkle_root@, drawn, next, beta);
            assert(ints(next.1@).len() == next.1@.len());
            let folded = fold_poly(ints(fri_poly[r as int]@), beta as int);
            assert(folded.len() == (fri_poly[r as int]@.len() + 1) / 2);
            assert(ints(next.0@).len() == next.0@.len());
            drawn = after;
        }
        fri_domain.push(next.0);
        fri_poly.push(next.1);
        fri_layer.push(next.2);
        fri_merkle_root.push(next.3);
        r += 1;
    }
    proof {
        linked_is_run(fri_domain@, fri_poly@, fri_layer@, fri_merkle_root@, drawn);
        let t = (fri_domain, fri_poly, fri_layer, fri_merkle_root);
        assert(r == rounds);
        assert(answered(challenge, t.3@, drawn));
        assert(records_run(t, d0, p0, l0, cp_r, drawn));
    }
    (Ok((fri_domain, fri_poly, fri_layer, fri_merkle_root)), Ghost(drawn))
}

/// The whole run with fold coefficients drawn from a challenge source:
/// every round's domain, polynomial, layer and root, from the caller's
/// round 0 to the round whose polynomial has one coefficient.
///
/// Before fold `k`, which leads from round `k` to round `k + 1`, the engine
/// calls `challenge(k, root)` with the Merkle root of round `k`, once, and
/// folds with the coefficient that it returns. A challenge source that
/// hashes the root makes the run non-interactive.
///
/// The run is refused with `InvalidDomain`, before the first call, exactly
/// when the domain's length is not a power of two that leaves an element
/// after every fold. It is refused with `ArithmeticOverflow` when a round
/// cannot be computed within `i128` with the coefficient that was drawn.
/// What a given sequence of coefficients leads to is stated by [`fri`].
pub fn fri_with_challenges<F: Fn(usize, [u8; 32]) -> i128>(
    domain: Vec<i128>,
    cp: Vec<i128>,
    cp_eval: Vec<i128>,
    cp_r: [u8; 32],
    challenge: F,
) -> (res: Result<Transcript, FriError>)
    requires
        forall|k: usize, root: [u8; 32]|
            k < rounds_needed(cp@.len()) ==> call_requires(challenge, (k, root)),
    ensures
        !domain_admits(domain@.len(), cp@.len()) <==> res matches Err(FriError::InvalidDomain),
        res matches Err(e) ==> e == FriError::InvalidDomain || e == FriError::ArithmeticOverflow,
        domain_admits(domain@.len(), cp@.len()) && cp@.len() <= 1 ==> res is Ok,
        res matches Ok(t) ==> exists|betas: Seq<i128>|
            run_answers(challenge, t, domain@, cp@, cp_eval@, cp_r, betas),
        res matches Err(FriError::ArithmeticOverflow) ==> exists|betas: Seq<i128>|
            overflow_answers(challenge, domain@, cp@, betas),
        res matches Ok(t) ==> run_shape(t, domain@.len(), cp@.len()),
{
    let rounds = fold_rounds(cp.len());
    if !domain_supports(domain.len(), rounds) {
        return Err(FriError::InvalidDomain);
    }
    let ghost d0 = domain@;
    let ghost p0 = cp@;
    let ghost l0 = cp_eval@;
    let (res, Ghost(drawn)) = fold_run(domain, cp, cp_eval, cp_r, challenge);
    proof {
        let ghost out = res;
        match out {
            Ok(t) => {
                recorded_run_has_shape(t, d0, p0, l0, cp_r, drawn);
                assert(run_answers(challenge, t, d0, p0, l0, cp_r, drawn));
            },
            Err(e) => {
                assert(overflow_answers(challenge, d0, p0, drawn));
            },
        }
    }
    res
}

/// The whole run with given fold coefficients: every round's domain,
/// polynomial, layer and root, from the caller's round 0 to the round whose
/// polynomial has one coefficient.
///
/// `betas[k]` is the coefficient of fold `k`, which leads from round `k` to
/// round `k + 1`. Coefficients beyond the folds that the polynomial needs
/// are not read.
///
/// The run is refused as a whole, in this order of precedence:
/// with `InvalidDomain` when the domain's length is not a power of two that
/// leaves an element after every fold; with `NonConstantTerminal` when
/// `betas` holds fewer coefficients than the polynomial needs folds; with
/// `ArithmeticOverflow` when some round cannot be computed within `i128`.
/// The caller's layer and root of round 0 are recorded as given.
pub fn fri(
    domain: Vec<i128>,
    cp: Vec<i128>,
    cp_eval: Vec<i128>,
    cp_r: [u8; 32],
    betas: &Vec<i128>,
) -> (res: Result<Transcript, FriError>)
    ensures
        res is Ok <==> (domain_admits(domain@.len(), cp@.len()) && betas@.len() >= rounds_needed(
            cp@.len(),
        ) && run_exact(ints(domain@), ints(cp@), ints(betas@), rounds_needed(cp@.len()))),
        res matches Ok(t) ==> records_run(t, domain@, cp@, cp_eval@, cp_r, betas@),
        res matches Err(e) ==> e == (if !domain_admits(domain@.len(), cp@.len()) {
            FriError::InvalidDomain
        } else if betas@.len() < rounds_needed(cp@.len()) {
            FriError::NonConstantTerminal
        } else {
            FriError::ArithmeticOverflow
        }),
        res matches Ok(t) ==> run_shape(t, domain@.len(), cp@.len()),
{
    let rounds = fold_rounds(cp.len());
    if !domain_supports(domain.len(), rounds) {
        return Err(FriError::InvalidDomain);
    }
    if betas.len() < rounds {
        return Err(FriError::NonConstantTerminal);
    }
    let ghost d = ints(domain@);
    let ghost p = ints(cp@);
    let ghost b = ints(betas@);
    let ghost d0 = domain@;
    let ghost p0 = cp@;
    let ghost l0 = cp_eval@;
    let given = |k: usize, _root: [u8; 32]| -> (beta: i128)
        requires
            k < betas@.len(),
        ensures
            beta == betas@[k as int],
        { betas[k] };
    let (res, Ghost(drawn)) = fold_run(domain, cp, cp_eval, cp_r, given);
    proof {
        let c = ints(drawn);
        assert forall|k: int| 0 <= k < drawn.len() implies c[k] == b[k] by {
            assert(may_answer(given, k, drawn[k]));
        }
        assert forall|r: int| 0 <= r <= drawn.len() implies #[trigger] poly_at(p, c, r as nat)
            == poly_at(p, b, r as nat) by {
            poly_at_prefix(p, c, b, r as nat);
        }
        let ghost out = res;
        match out {
            Ok(t) => {
                assert forall|r: int| 0 <= r < rounds implies #[trigger] round_exact(
                    poly_at(p, b, r as nat),
                    domain_at(d, r as nat),
                    b[r],
                ) by {
                    assert(round_exact(poly_at(p, c, r as nat), domain_at(d, r as nat), c[r]));
                }
                assert(records_run(t, d0, p0, l0, cp_r, betas@)) by {
                    assert forall|r: int| 0 <= r <= rounds implies ints(#[trigger] t.1[r]@)
                        == poly_at(p, b, r as nat) by {
                        assert(poly_at(p, c, r as nat) == poly_at(p, b, r as nat));
                    }
                }
                recorded_run_has_shape(t, d0, p0, l0, cp_r, betas@);
            },
            Err(e) => {
                let j = choose|j: int|
                    0 <= j < drawn.len() && !#[trigger] round_exact(
                        poly_at(p, c, j as nat),
                        domain_at(d, j as nat),
                        c[j],
                    );
                assert(poly_at(p, c, j as nat) == poly_at(p, b, j as nat));
                assert(!round_exact(poly_at(p, b, j as nat), domain_at(d, j as nat), b[j]));
            },
        }
    }
    res
}

} // verus!
