use fri_commit::{
    commit, domain_supports, fold_rounds, fri, is_power_of_two, next_fri_layer, FriError,
    Polynomial,
};
use rs_merkle::algorithms::Sha256;
use rs_merkle::{Hasher, MerkleTree};

fn evaluations(poly: &[i128], domain: &[i128]) -> Vec<i128> {
    let p = Polynomial::new(poly.to_vec());
    let mut out = Vec::new();
    for x in domain.iter() {
        out.push(p.evaluate(*x).unwrap());
    }
    out
}

fn root_by_hand(layer: &[i128]) -> [u8; 32] {
    let mut leaves: Vec<[u8; 32]> = Vec::new();
    for v in layer.iter() {
        leaves.push(Sha256::hash(v.to_string().as_bytes()));
    }
    MerkleTree::<Sha256>::from_leaves(&leaves).root().unwrap()
}

fn ceil_log2(n: usize) -> usize {
    let mut r = 0;
    while (1usize << r) < n {
        r += 1;
    }
    r
}

#[test]
fn fold_rounds_is_the_rounded_up_logarithm() {
    let expected = [0, 0, 1, 2, 2, 3, 3, 3, 3, 4];
    for (n, want) in expected.iter().enumerate() {
        assert_eq!(fold_rounds(n), *want);
    }
    for n in 1..300usize {
        assert_eq!(fold_rounds(n), ceil_log2(n));
    }
    assert_eq!(fold_rounds(1 << 20), 20);
    assert_eq!(fold_rounds((1 << 20) + 1), 21);
    assert_eq!(fold_rounds(usize::MAX), usize::BITS as usize);
}

#[test]
fn is_power_of_two_on_small_numbers() {
    let powers = [1usize, 2, 4, 8, 16, 1024, 1 << 40];
    for m in powers {
        assert!(is_power_of_two(m));
    }
    let others = [0usize, 3, 5, 6, 7, 12, 24, 1000, (1 << 40) + 1, usize::MAX];
    for m in others {
        assert!(!is_power_of_two(m));
    }
}

#[test]
fn domain_supports_asks_for_a_power_of_two_that_is_large_enough() {
    assert!(domain_supports(1, 0));
    assert!(domain_supports(8, 3));
    assert!(domain_supports(16, 3));
    assert!(!domain_supports(4, 3));
    assert!(!domain_supports(0, 0));
    assert!(!domain_supports(24, 3));
    assert!(!domain_supports(6, 1));
    assert!(!domain_supports(8, 64));
    assert!(!domain_supports(8, usize::MAX));
}

#[test]
fn next_layer_folds_evaluates_and_commits() {
    let poly = vec![3, 1, 2, 7, 3, 5];
    let domain = vec![1, 4, 8, 16, 32, 64, 128, 256];
    let (next_domain, next_poly, next_layer, root) = next_fri_layer(poly, domain, 2).unwrap();
    assert_eq!(next_domain, vec![1, 16, 64, 256]);
    assert_eq!(next_poly, vec![5, 16, 13]);
    assert_eq!(next_layer, vec![34, 3589, 54277, 856069]);
    assert_eq!(root, commit(&next_layer).unwrap());
    assert_eq!(root, root_by_hand(&next_layer));
}

#[test]
fn next_layer_takes_the_fold_coefficient_it_is_given() {
    let poly = vec![3, 1, 2, 7, 3, 5];
    let domain = vec![1, 2, 3, 4];
    let (next_domain, next_poly, next_layer, _) = next_fri_layer(poly, domain, -1).unwrap();
    assert_eq!(next_domain, vec![1, 4]);
    assert_eq!(next_poly, vec![2, -5, -2]);
    assert_eq!(next_layer, vec![-5, 2 - 20 - 32]);
}

#[test]
fn next_layer_refuses_a_domain_that_cannot_be_halved() {
    let poly = vec![3, 1, 2, 7];
    for domain in [vec![], vec![5], vec![1, 2, 3], vec![1, 2, 3, 4, 5, 6]] {
        assert_eq!(
            next_fri_layer(poly.clone(), domain, 2),
            Err(FriError::InvalidDomain)
        );
    }
}

#[test]
fn next_layer_judges_the_domain_before_the_arithmetic() {
    let big: i128 = 1 << 100;
    assert_eq!(
        next_fri_layer(vec![1, 1], vec![big, big, big], 2),
        Err(FriError::InvalidDomain)
    );
}

#[test]
fn next_layer_reports_overflow_in_each_stage() {
    let big: i128 = 1 << 100;
    // in a square of the domain
    assert_eq!(
        next_fri_layer(vec![1, 1], vec![big, 1], 2),
        Err(FriError::ArithmeticOverflow)
    );
    // in the fold of the polynomial
    assert_eq!(
        next_fri_layer(vec![1, big], vec![1, 2], big),
        Err(FriError::ArithmeticOverflow)
    );
    // in an evaluation
    let root: i128 = 1 << 63;
    assert_eq!(
        next_fri_layer(vec![0, 0, 4, 0], vec![root, 1], 2),
        Err(FriError::ArithmeticOverflow)
    );
}

#[test]
fn fri_runs_the_scenario_to_a_constant() {
    let domain = vec![1, 4, 8, 16, 32, 64, 128, 256];
    let cp = vec![3, 1, 2, 7, 3, 5];
    let cp_eval = evaluations(&cp, &domain);
    assert_eq!(
        cp_eval,
        vec![21, 6375, 179851, 5468691, 171149347, 5420884035, 172618711171, 5510560612611]
    );
    let cp_r = commit(&cp_eval).unwrap();
    let (domains, polys, layers, roots) =
        fri(domain.clone(), cp.clone(), cp_eval.clone(), cp_r, &vec![2, 2, 2]).unwrap();

    // three rounds beyond round 0
    assert_eq!(domains.len(), 4);
    assert_eq!(polys.len(), 4);
    assert_eq!(layers.len(), 4);
    assert_eq!(roots.len(), 4);
    assert_eq!(domains.len() - 1, ceil_log2(cp.len()));

    assert_eq!(
        domains,
        vec![domain, vec![1, 16, 64, 256], vec![1, 256], vec![1]]
    );
    assert_eq!(
        polys,
        vec![cp, vec![5, 16, 13], vec![37, 13], vec![63]]
    );
    assert_eq!(
        layers,
        vec![cp_eval, vec![34, 3589, 54277, 856069], vec![50, 3365], vec![63]]
    );
    assert_eq!(roots[0], cp_r);
    for r in 0..4 {
        assert_eq!(roots[r], root_by_hand(&layers[r]));
        assert_eq!(layers[r], evaluations(&polys[r], &domains[r]));
    }
}

#[test]
fn fri_follows_each_round_from_the_previous_one() {
    let domain: Vec<i128> = vec![1, 2, 3, 4, 5, 6, 7, 8, 9, 10, 11, 12, 13, 14, 15, 16];
    let cp: Vec<i128> = vec![4, -1, 0, 7, 2, 2, -9, 1];
    let betas = vec![3, -2, 5];
    let cp_eval = evaluations(&cp, &domain);
    let cp_r = commit(&cp_eval).unwrap();
    let (domains, polys, layers, roots) =
        fri(domain, cp, cp_eval, cp_r, &betas).unwrap();
    assert_eq!(domains.len(), 4);
    for r in 0..3 {
        let step = next_fri_layer(polys[r].clone(), domains[r].clone(), betas[r]).unwrap();
        assert_eq!(step.0, domains[r + 1]);
        assert_eq!(step.1, polys[r + 1]);
        assert_eq!(step.2, layers[r + 1]);
        assert_eq!(step.3, roots[r + 1]);
    }
}

#[test]
fn fri_round_counts_and_lengths_for_powers_of_two() {
    for log_n in 0..6usize {
        let n = 1usize << log_n;
        for extra in 0..3usize {
            let m = n << extra;
            let domain: Vec<i128> = (0..m as i128).collect();
            let cp: Vec<i128> = (1..=n as i128).collect();
            let cp_eval = vec![0; m];
            let betas = vec![1; log_n];
            let (domains, polys, layers, roots) =
                match fri(domain, cp, cp_eval, [0u8; 32], &betas) {
                    Ok(t) => t,
                    Err(FriError::ArithmeticOverflow) => continue,
                    Err(e) => panic!("unexpected {:?}", e),
                };
            assert_eq!(domains.len(), log_n + 1);
            assert_eq!(polys.len(), log_n + 1);
            assert_eq!(layers.len(), log_n + 1);
            assert_eq!(roots.len(), log_n + 1);
            for r in 0..=log_n {
                assert_eq!(domains[r].len(), m >> r);
                assert_eq!(polys[r].len(), n >> r);
                if r > 0 {
                    assert_eq!(layers[r].len(), m >> r);
                }
            }
        }
    }
}

#[test]
fn fri_polynomial_lengths_round_up() {
    let domain: Vec<i128> = vec![1; 16];
    let cp: Vec<i128> = vec![1, 2, 3, 4, 5, 6, 7, 8, 9];
    let cp_eval = evaluations(&cp, &domain);
    let cp_r = commit(&cp_eval).unwrap();
    let (domains, polys, _, _) = fri(domain, cp, cp_eval, cp_r, &vec![1, 1, 1, 1]).unwrap();
    let poly_lens: Vec<usize> = polys.iter().map(|p| p.len()).collect();
    let domain_lens: Vec<usize> = domains.iter().map(|d| d.len()).collect();
    assert_eq!(poly_lens, vec![9, 5, 3, 2, 1]);
    assert_eq!(domain_lens, vec![16, 8, 4, 2, 1]);
}

#[test]
fn fri_ends_on_a_constant_layer() {
    let domain: Vec<i128> = vec![2, 3, 5, 7, 11, 13, 17, 19];
    let cp: Vec<i128> = vec![1, 2, 3, 4];
    let cp_eval = evaluations(&cp, &domain);
    let cp_r = commit(&cp_eval).unwrap();
    let (_, polys, layers, _) = fri(domain, cp, cp_eval, cp_r, &vec![7, -7]).unwrap();
    let last_poly = polys.last().unwrap();
    let last_layer = layers.last().unwrap();
    assert_eq!(last_poly.len(), 1);
    assert_eq!(last_layer.len(), 2);
    for v in last_layer.iter() {
        assert_eq!(*v, last_poly[0]);
    }
}

#[test]
fn fri_of_a_constant_returns_round_zero_alone() {
    let cp_r = [9u8; 32];
    let res = fri(vec![1, 2], vec![5], vec![5, 5], cp_r, &vec![]).unwrap();
    assert_eq!(res.0, vec![vec![1, 2]]);
    assert_eq!(res.1, vec![vec![5]]);
    assert_eq!(res.2, vec![vec![5, 5]]);
    assert_eq!(res.3, vec![cp_r]);
}

#[test]
fn fri_records_round_zero_as_given() {
    // The layer and the root of round 0 are the caller's; they are not recomputed.
    let cp_r = [1u8; 32];
    let res = fri(vec![1, 2], vec![5], vec![8, 9, 10], cp_r, &vec![4, 4]).unwrap();
    assert_eq!(res.2, vec![vec![8, 9, 10]]);
    assert_eq!(res.3, vec![cp_r]);
}

#[test]
fn fri_of_the_empty_polynomial_returns_round_zero_alone() {
    let res = fri(vec![3], vec![], vec![0], [0u8; 32], &vec![]).unwrap();
    assert_eq!(res.0, vec![vec![3]]);
    assert_eq!(res.1, vec![Vec::<i128>::new()]);
}

#[test]
fn fri_does_not_read_surplus_coefficients() {
    let domain = vec![1, 4, 8, 16, 32, 64, 128, 256];
    let cp = vec![3, 1, 2, 7, 3, 5];
    let a = fri(domain.clone(), cp.clone(), vec![], [0u8; 32], &vec![2, 2, 2]).unwrap();
    let b = fri(domain, cp, vec![], [0u8; 32], &vec![2, 2, 2, i128::MAX, 77]).unwrap();
    assert_eq!(a, b);
}

#[test]
fn fri_refuses_an_invalid_domain_at_entry() {
    let cp = vec![3, 1, 2, 7, 3, 5];
    let betas = vec![2, 2, 2];
    // empty
    assert_eq!(
        fri(vec![], cp.clone(), vec![], [0u8; 32], &betas),
        Err(FriError::InvalidDomain)
    );
    // not a power of two
    assert_eq!(
        fri(vec![1; 24], cp.clone(), vec![], [0u8; 32], &betas),
        Err(FriError::InvalidDomain)
    );
    assert_eq!(
        fri(vec![1; 7], cp.clone(), vec![], [0u8; 32], &betas),
        Err(FriError::InvalidDomain)
    );
    // too short for three folds
    assert_eq!(
        fri(vec![1; 4], cp.clone(), vec![], [0u8; 32], &betas),
        Err(FriError::InvalidDomain)
    );
    // an empty domain is refused even when nothing is folded
    assert_eq!(
        fri(vec![], vec![5], vec![], [0u8; 32], &betas),
        Err(FriError::InvalidDomain)
    );
    // the domain is judged before the coefficients
    assert_eq!(
        fri(vec![1; 4], cp, vec![], [0u8; 32], &vec![]),
        Err(FriError::InvalidDomain)
    );
}

#[test]
fn fri_refuses_too_few_fold_coefficients() {
    let domain = vec![1, 4, 8, 16, 32, 64, 128, 256];
    let cp = vec![3, 1, 2, 7, 3, 5];
    assert_eq!(
        fri(domain.clone(), cp.clone(), vec![], [0u8; 32], &vec![2, 2]),
        Err(FriError::NonConstantTerminal)
    );
    assert_eq!(
        fri(domain, cp, vec![], [0u8; 32], &vec![]),
        Err(FriError::NonConstantTerminal)
    );
}

#[test]
fn fri_reports_overflow_in_a_later_round() {
    let big: i128 = 1 << 40;
    // 2^40 squares to 2^80, which squares to 2^160.
    let domain = vec![big, 1, 1, 1];
    let cp = vec![1, 2, 3];
    assert_eq!(
        fri(domain, cp, vec![], [0u8; 32], &vec![1, 1]),
        Err(FriError::ArithmeticOverflow)
    );
}

#[test]
fn fri_never_asks_for_an_empty_commitment() {
    for m in 0..20usize {
        for n in 0..12usize {
            let domain: Vec<i128> = vec![1; m];
            let cp: Vec<i128> = vec![1; n];
            let betas = vec![1; 8];
            let res = fri(domain, cp, vec![], [0u8; 32], &betas);
            let admitted = m.is_power_of_two() && m >= (1usize << ceil_log2(n));
            match res {
                Ok(t) => {
                    assert!(admitted);
                    for layer in t.2.iter().skip(1) {
                        assert!(!layer.is_empty());
                    }
                }
                Err(e) => {
                    assert!(!admitted);
                    assert_eq!(e, FriError::InvalidDomain);
                }
            }
        }
    }
}

#[test]
fn errors_compare_and_print() {
    assert_eq!(FriError::InvalidDomain, FriError::InvalidDomain);
    assert_ne!(FriError::InvalidDomain, FriError::EmptyCommitmentInput);
    assert_ne!(FriError::ArithmeticOverflow, FriError::NonConstantTerminal);
    assert_eq!(format!("{:?}", FriError::ArithmeticOverflow), "ArithmeticOverflow");
}
