//! What a run is: the domain and the polynomial of every round, the record
//! of a run in four parallel sequences, and the shape that every record has.

use crate::commitment::commitment;
use crate::folding::{fold_domain, fold_poly};
use crate::layer::{constant_poly_layer, eval_layer, round_exact};
use crate::numeric::ints;
use crate::rounds::{ceil_div, ceil_div_halved, floor_div_halved, rounds_needed};
use vstd::arithmetic::power2::{lemma2_to64, lemma_pow2_pos, lemma_pow2_unfold, pow2};
use vstd::prelude::*;

verus! {

/// The four parallel sequences of a run: the domains, the polynomials, the
/// layers and the Merkle roots, one entry per round.
pub type Transcript = (Vec<Vec<i128>>, Vec<Vec<i128>>, Vec<Vec<i128>>, Vec<[u8; 32]>);

/// The domain of round `r`: the initial domain folded `r` times.
pub open spec fn domain_at(d: Seq<int>, r: nat) -> Seq<int>
    decreases r,
{
    if r == 0 {
        d
    } else {
        fold_domain(domain_at(d, (r - 1) as nat))
    }
}

/// The polynomial of round `r`: the initial polynomial folded `r` times,
/// the fold into round `k + 1` taking the coefficient `betas[k]`.
pub open spec fn poly_at(p: Seq<int>, betas: Seq<int>, r: nat) -> Seq<int>
    decreases r,
{
    if r == 0 {
        p
    } else {
        fold_poly(poly_at(p, betas, (r - 1) as nat), betas[r - 1])
    }
}

/// Whether the first `rounds` folds of a run can all be computed within
/// `i128`.
pub open spec fn run_exact(d: Seq<int>, p: Seq<int>, betas: Seq<int>, rounds: nat) -> bool {
    forall|r: int|
        0 <= r < rounds ==> #[trigger] round_exact(
            poly_at(p, betas, r as nat),
            domain_at(d, r as nat),
            betas[r],
        )
}

/// Whether the four parallel sequences `t` record the run that starts from
/// the given round-0 objects and folds with `betas`: one entry per round,
/// round 0 the given objects unchanged, every later domain and polynomial
/// the fold of its predecessor, every later layer the evaluations of its
/// round's polynomial over its round's domain, every later root the
/// commitment to its round's layer.
pub open spec fn records_run(
    t: Transcript,
    domain: Seq<i128>,
    cp: Seq<i128>,
    cp_eval: Seq<i128>,
    cp_r: [u8; 32],
    betas: Seq<i128>,
) -> bool {
    let rounds = rounds_needed(cp.len());
    &&& t.0.len() == rounds + 1
    &&& t.1.len() == rounds + 1
    &&& t.2.len() == rounds + 1
    &&& t.3.len() == rounds + 1
    &&& t.0[0]@ == domain
    &&& t.1[0]@ == cp
    &&& t.2[0]@ == cp_eval
    &&& t.3[0] == cp_r
    &&& forall|r: int|
        0 <= r <= rounds ==> ints(#[trigger] t.0[r]@) == domain_at(ints(domain), r as nat)
    &&& forall|r: int|
        0 <= r <= rounds ==> ints(#[trigger] t.1[r]@) == poly_at(ints(cp), ints(betas), r as nat)
    &&& forall|r: int|
        1 <= r <= rounds ==> ints(#[trigger] t.2[r]@) == eval_layer(ints(t.1[r]@), ints(t.0[r]@))
    &&& forall|r: int| 1 <= r <= rounds ==> (#[trigger] t.3[r])@ == commitment(ints(t.2[r]@))
}

/// The shape that every recorded run has: the lengths of its domains and
/// polynomials round by round, a final polynomial of one coefficient, and a
/// final layer that repeats that coefficient.
pub open spec fn run_shape(t: Transcript, domain_len: nat, poly_len: nat) -> bool {
    let rounds = rounds_needed(poly_len);
    &&& forall|r: int|
        0 <= r <= rounds ==> {
            &&& (#[trigger] t.0[r]).len() == domain_len / pow2(r as nat)
            &&& t.1[r].len() == ceil_div(poly_len, pow2(r as nat))
        }
    &&& poly_len >= 1 ==> t.1[rounds as int].len() == 1
    &&& poly_len >= 2 ==> forall|j: int|
        0 <= j < t.2[rounds as int].len() ==> #[trigger] t.2[rounds as int][j] == t.1[rounds as int][0]
}

/// The domain of round `r` has the initial length divided by `2^r`.
pub proof fn domain_at_len(d: Seq<int>, r: nat)
    ensures
        domain_at(d, r).len() == d.len() / pow2(r),
    decreases r,
{
    if r == 0 {
        lemma2_to64();
        assert(d.len() / 1 == d.len());
    } else {
        let q = pow2((r - 1) as nat);
        domain_at_len(d, (r - 1) as nat);
        lemma_pow2_unfold(r);
        lemma_pow2_pos((r - 1) as nat);
        floor_div_halved(d.len(), q);
        assert(domain_at(d, r).len() == (d.len() / q) / 2);
        assert(pow2(r) == 2 * q);
    }
}

/// The polynomial of round `r` has the initial length divided by `2^r`,
/// rounded up.
pub proof fn poly_at_len(p: Seq<int>, betas: Seq<int>, r: nat)
    ensures
        poly_at(p, betas, r).len() == ceil_div(p.len(), pow2(r)),
    decreases r,
{
    lemma2_to64();
    if r > 0 {
        poly_at_len(p, betas, (r - 1) as nat);
        lemma_pow2_unfold(r);
        lemma_pow2_pos((r - 1) as nat);
        ceil_div_halved(p.len(), pow2((r - 1) as nat));
    }
}

/// Folding never empties a polynomial that has a coefficient.
pub proof fn poly_at_nonempty(p: Seq<int>, betas: Seq<int>, r: nat)
    requires
        p.len() >= 1,
    ensures
        poly_at(p, betas, r).len() >= 1,
    decreases r,
{
    if r > 0 {
        poly_at_nonempty(p, betas, (r - 1) as nat);
    }
}

/// After `r` of its folds a polynomial still needs the remaining ones.
pub proof fn rounds_left(p: Seq<int>, betas: Seq<int>, r: nat)
    requires
        r <= rounds_needed(p.len()),
    ensures
        rounds_needed(poly_at(p, betas, r).len()) == rounds_needed(p.len()) - r,
    decreases r,
{
    if r > 0 {
        rounds_left(p, betas, (r - 1) as nat);
    }
}

/// The last round of a run holds a constant: a polynomial with at least one
/// coefficient is left with exactly one after all its folds.
pub proof fn terminal_poly_is_constant(p: Seq<int>, betas: Seq<int>)
    requires
        p.len() >= 1,
    ensures
        poly_at(p, betas, rounds_needed(p.len())).len() == 1,
{
    let rounds = rounds_needed(p.len());
    rounds_left(p, betas, rounds);
    poly_at_nonempty(p, betas, rounds);
}

/// Round-count and terminal shape of a recorded run. A run over a polynomial
/// of `n` coefficients and a domain of `m` elements has `rounds_needed(n)`
/// rounds after round 0; in round `r` the domain has `m / 2^r` elements and
/// the polynomial `n / 2^r` coefficients, rounded up; if `n >= 1` the last
/// polynomial has one coefficient, and if a fold took place the last layer
/// holds that coefficient at every point.
pub proof fn recorded_run_has_shape(
    t: Transcript,
    domain: Seq<i128>,
    cp: Seq<i128>,
    cp_eval: Seq<i128>,
    cp_r: [u8; 32],
    betas: Seq<i128>,
)
    requires
        records_run(t, domain, cp, cp_eval, cp_r, betas),
    ensures
        t.0.len() == rounds_needed(cp.len()) + 1,
        run_shape(t, domain.len(), cp.len()),
{
    let rounds = rounds_needed(cp.len());
    let d = ints(domain);
    let p = ints(cp);
    let b = ints(betas);
    assert forall|r: int| 0 <= r <= rounds implies {
        &&& (#[trigger] t.0[r]).len() == domain.len() / pow2(r as nat)
        &&& t.1[r].len() == ceil_div(cp.len(), pow2(r as nat))
    } by {
        domain_at_len(d, r as nat);
        poly_at_len(p, b, r as nat);
        assert(ints(t.0[r]@).len() == t.0[r]@.len());
        assert(ints(t.1[r]@).len() == t.1[r]@.len());
    }
    let last = rounds as int;
    if cp.len() >= 1 {
        terminal_poly_is_constant(p, b);
        assert(ints(t.1[last]@).len() == 1);
    }
    if cp.len() >= 2 {
        constant_poly_layer(ints(t.1[last]@), ints(t.0[last]@));
        assert forall|j: int| 0 <= j < t.2[last].len() implies #[trigger] t.2[last][j]
            == t.1[last][0] by {
            assert(ints(t.2[last]@)[j] == t.2[last][j] as int);
            assert(ints(t.1[last]@)[0] == t.1[last][0] as int);
        }
    }
}

/// Domains and polynomials that follow one another by folds are the rounds
/// of the run from the first of them.
pub proof fn chain_follows_run(
    doms: Seq<Seq<int>>,
    polys: Seq<Seq<int>>,
    betas: Seq<int>,
    r: nat,
)
    requires
        r < doms.len(),
        r < polys.len(),
        forall|k: int| 1 <= k <= r ==> #[trigger] doms[k] == fold_domain(doms[k - 1]),
        forall|k: int| 1 <= k <= r ==> #[trigger] polys[k] == fold_poly(polys[k - 1], betas[k - 1]),
    ensures
        forall|k: int| 0 <= k <= r ==> #[trigger] doms[k] == domain_at(doms[0], k as nat),
        forall|k: int| 0 <= k <= r ==> #[trigger] polys[k] == poly_at(polys[0], betas, k as nat),
    decreases r,
{
    if r > 0 {
        chain_follows_run(doms, polys, betas, (r - 1) as nat);
        assert(doms[r as int] == fold_domain(doms[r - 1]));
        assert(polys[r as int] == fold_poly(polys[r - 1], betas[r - 1]));
    }
}

/// The polynomial of round `r` depends on the first `r` fold coefficients
/// only.
pub proof fn poly_at_prefix(p: Seq<int>, a: Seq<int>, b: Seq<int>, r: nat)
    requires
        forall|k: int| 0 <= k < r ==> a[k] == b[k],
    ensures
        poly_at(p, a, r) == poly_at(p, b, r),
    decreases r,
{
    if r > 0 {
        poly_at_prefix(p, a, b, (r - 1) as nat);
    }
}

} // verus!
