use std::collections::BTreeSet;

use pluck::inference::spn::node::{Family, Leaf, Spn, SpnKind};
use pluck::inference::spn::posterior::{posterior_leaf, Component, PosteriorSpn};
use pluck::inference::spn::product::{clear_mul_cache, spn_add, spn_mul, MulCache};
use pluck::inference::spn::scope::{is_disjoint, merge_scopes, sorted_scope};
use pluck::inference::spn::wmc::wmc_spn;
use pluck::discrete_factorizations::{BooleanFunction, VarId};
use pluck::utils::epsilon::RealEps;
use pluck::utils::reals::RealOp;
use std::rc::Rc;

fn logsumexp(a: f64, b: f64) -> f64 {
    let m = a.max(b);
    if m == f64::NEG_INFINITY {
        m
    } else {
        m + ((a - m).exp() + (b - m).exp()).ln()
    }
}

fn arith(op: RealOp, a: u64, b: u64) -> u64 {
    let (x, y) = (f64::from_bits(a), f64::from_bits(b));
    let r = match op {
        RealOp::Sum => x + y,
        RealOp::Difference => x - y,
        RealOp::Product => x * y,
        RealOp::Quotient => x / y,
        RealOp::OfInt => a as i64 as f64,
        RealOp::LogSum => logsumexp(x, y),
        RealOp::Log => x.ln(),
        RealOp::ToInt => return x as i64 as u64,
    };
    r.to_bits()
}

fn re(log_coeff: f64, power: u32) -> RealEps {
    RealEps::from_log(log_coeff.to_bits(), power)
}

fn log_of(c: RealEps) -> f64 {
    f64::from_bits(c.log_coeff)
}

/// A Beta posterior.
fn beta_leaf_at(name: u64, a: f64, b: f64, coeff: RealEps) -> PosteriorSpn {
    let leaf = Leaf {
        family: Family::Beta,
        names: vec![name],
        numbers: vec![a.to_bits(), b.to_bits()],
    };
    posterior_leaf(coeff, leaf, &arith)
}

fn beta_posterior(name: u64, a: f64, b: f64) -> PosteriorSpn {
    beta_leaf_at(name, a, b, re(0.0, 0))
}

fn only_leaf(s: &Spn) -> &Leaf {
    match s.kind() {
        SpnKind::Leaf(l) => l,
        other => panic!("expected leaf, got {:?}", other),
    }
}

#[test]
fn zero_and_one_sentinels() {
    let z = PosteriorSpn::zero();
    assert!(z.is_zero());
    assert!(z.is_scalar());
    assert!(z.scope().is_empty());

    let o = PosteriorSpn::one();
    assert!(o.is_one());
    assert!(o.is_scalar());
    assert!(o.scope().is_empty());
}

#[test]
fn leaf_carries_prior_scope() {
    let leaf = beta_posterior(7, 1.0, 1.0);
    assert_eq!(leaf.scope(), &vec![7u64]);
    assert!(!leaf.is_zero());
    assert!(!leaf.is_one());
}

#[test]
fn sum_empty_is_zero() {
    let r = PosteriorSpn::sum(&vec![], &arith);
    assert!(r.is_zero());
}

#[test]
fn sum_single_branch_collapses_to_child() {
    let leaf = beta_leaf_at(1, 1.0, 1.0, re(0.7, 0));
    let r = PosteriorSpn::sum(&vec![leaf], &arith);
    assert_eq!(only_leaf(&r).names, vec![1]);
    assert_eq!(r.log_coeff().power, 0);
    assert!((log_of(r.log_coeff()) - 0.7).abs() < 1e-12);
}

#[test]
fn sum_drops_higher_power_branches_after_normalisation() {
    let l_low = beta_leaf_at(1, 1.0, 1.0, re(0.0, 0));
    let l_high = beta_leaf_at(1, 2.0, 2.0, re(1.0, 1));
    let r = PosteriorSpn::sum(&vec![l_low, l_high], &arith);
    assert_eq!(only_leaf(&r).numbers[0], 1.0f64.to_bits());
    assert_eq!(r.log_coeff().power, 0);
    assert!(log_of(r.log_coeff()).abs() < 1e-12);
}

#[test]
fn sum_two_branches_same_power_normalises() {
    let l1 = beta_leaf_at(1, 1.0, 1.0, re(0.5, 0));
    let l2 = beta_leaf_at(1, 2.0, 2.0, re(1.5, 0));
    let r = PosteriorSpn::sum(&vec![l1, l2], &arith);
    let expected_z = logsumexp(0.5, 1.5);
    assert_eq!(r.log_coeff().power, 0);
    assert!((log_of(r.log_coeff()) - expected_z).abs() < 1e-12);
    match r.kind() {
        SpnKind::Sum(children) => {
            assert_eq!(children.len(), 2);
            let lse = children
                .iter()
                .fold(RealEps::zero(), |acc, c| acc.logsumexp(c.log_coeff(), &arith));
            assert_eq!(lse.power, 0);
            assert!(log_of(lse).abs() < 1e-12, "lse={}", log_of(lse));
        }
        other => panic!("expected sum, got {:?}", other),
    }
}

#[test]
fn sum_drops_zero_children() {
    let l1 = beta_leaf_at(1, 1.0, 1.0, re(0.0, 0));
    let l_zero = PosteriorSpn::zero();
    let r = PosteriorSpn::sum(&vec![l1, l_zero], &arith);
    assert_eq!(only_leaf(&r).numbers[0], 1.0f64.to_bits());
    assert_eq!(r.log_coeff().power, 0);
    assert!(log_of(r.log_coeff()).abs() < 1e-12);
}

#[test]
fn product_empty_is_one() {
    let r = PosteriorSpn::product(&vec![], &arith);
    assert!(r.is_one());
}

#[test]
fn product_skips_one_children() {
    let l = beta_posterior(1, 1.0, 1.0);
    let r = PosteriorSpn::product(&vec![Spn::one(), l, Spn::one()], &arith);
    only_leaf(&r);
}

#[test]
fn product_zero_short_circuits() {
    let l = beta_posterior(1, 1.0, 1.0);
    let r = PosteriorSpn::product(&vec![l, Spn::zero()], &arith);
    assert!(r.is_zero());
}

#[test]
fn product_disjoint_children_keep_log_coeff() {
    let l1 = beta_posterior(1, 1.0, 1.0);
    let l2 = beta_posterior(2, 1.0, 1.0);
    let r = PosteriorSpn::product(&vec![l1, l2], &arith);
    match r.kind() {
        SpnKind::Product(children) => {
            assert_eq!(children.len(), 2);
            assert_eq!(r.scope(), &vec![1u64, 2]);
        }
        other => panic!("expected product, got {:?}", other),
    }
}

#[test]
fn components_leaf_yields_single_item() {
    let l = beta_leaf_at(5, 2.0, 3.0, re(0.4, 0));
    let comps: Vec<Component> = l.components(&arith);
    assert_eq!(comps.len(), 1);
    assert!((log_of(comps[0].weight) - 0.4).abs() < 1e-12);
    assert_eq!(comps[0].leaves.len(), 1);
    assert_eq!(comps[0].leaves[0].names, vec![5]);
}

#[test]
fn components_product_of_leaves_yields_single_item() {
    let p = PosteriorSpn::product(
        &vec![beta_posterior(1, 1.0, 1.0), beta_posterior(2, 2.0, 2.0)],
        &arith,
    );
    let comps = p.components(&arith);
    assert_eq!(comps.len(), 1);
    assert_eq!(comps[0].leaves.len(), 2);
}

#[test]
fn components_sum_yields_one_per_branch() {
    let l1 = beta_leaf_at(1, 1.0, 1.0, re(0.0, 0));
    let l2 = beta_leaf_at(2, 2.0, 2.0, re(0.0, 0));
    let s = PosteriorSpn::sum(&vec![l1, l2], &arith);
    let comps = s.components(&arith);
    assert_eq!(comps.len(), 2);
    for c in &comps {
        assert_eq!(c.leaves.len(), 1);
    }
}

#[test]
fn components_weights_logsumexp_to_root_coeff() {
    let l1 = beta_leaf_at(1, 1.0, 1.0, re(0.3, 0));
    let l2 = beta_leaf_at(2, 2.0, 2.0, re(0.8, 0));
    let s = PosteriorSpn::sum(&vec![l1, l2], &arith);
    let root = s.log_coeff();
    let comps = s.components(&arith);
    let total = comps
        .iter()
        .fold(RealEps::zero(), |acc, c| acc.logsumexp(c.weight, &arith));
    assert_eq!(total.power, root.power);
    assert!((log_of(total) - log_of(root)).abs() < 1e-12);
}

#[test]
fn components_product_of_sums_is_cartesian_product() {
    let a = PosteriorSpn::sum(
        &vec![
            beta_leaf_at(1, 1.0, 1.0, re(0.0, 0)),
            beta_leaf_at(2, 1.0, 1.0, re(0.0, 0)),
        ],
        &arith,
    );
    let b = PosteriorSpn::sum(
        &vec![
            beta_leaf_at(3, 1.0, 1.0, re(0.0, 0)),
            beta_leaf_at(4, 1.0, 1.0, re(0.0, 0)),
        ],
        &arith,
    );
    let p = PosteriorSpn::product(&vec![a, b], &arith);
    let comps = p.components(&arith);
    assert_eq!(comps.len(), 4);
    for c in &comps {
        assert_eq!(c.leaves.len(), 2);
    }
}

#[test]
fn sample_product_concatenates() {
    let l1 = beta_leaf_at(1, 1.0, 1.0, re(0.0, 0));
    let l2 = beta_leaf_at(2, 1.0, 1.0, re(0.0, 0));
    let p = PosteriorSpn::product(&vec![l1, l2], &arith);
    let a = p.sample_leaves(&|_w: Vec<u64>| 0usize);
    assert_eq!(a.len(), 2);
    assert_eq!(a[0].names[0], 1);
    assert_eq!(a[1].names[0], 2);
}

#[test]
fn sample_sum_chooses_one_branch() {
    let l1 = beta_leaf_at(1, 1.0, 1.0, re(0.0, 0));
    let l2 = beta_leaf_at(2, 1.0, 1.0, re(0.0, 0));
    let s = PosteriorSpn::sum(&vec![l1, l2], &arith);
    for choice in 0..2usize {
        let a = s.sample_leaves(&|w: Vec<u64>| {
            assert_eq!(w.len(), 2);
            choice
        });
        assert_eq!(a.len(), 1);
        let chosen = a[0].names[0];
        assert!(chosen == 1 || chosen == 2);
    }
}

// Evidence leaves. A Beta leaf holds counts of heads and tails, or the one
// value that the variable must have; a Gaussian leaf holds equations, each a
// value and one coefficient for each of the variables 1 and 2.

const DEPTH: usize = 100;

fn counts(name: u64, h: u64, t: u64) -> Spn {
    Spn::leaf(Leaf { family: Family::Beta, names: vec![name], numbers: vec![h, t] })
}

fn real_eq(name: u64, v: f64) -> Spn {
    Spn::leaf(Leaf { family: Family::Beta, names: vec![name], numbers: vec![v.to_bits()] })
}

fn gaussian_eq(names: Vec<u64>, coefs: [f64; 2], v: f64) -> Spn {
    Spn::leaf(Leaf {
        family: Family::Gaussian,
        names,
        numbers: vec![v.to_bits(), coefs[0].to_bits(), coefs[1].to_bits()],
    })
}

fn merge(a: Leaf, b: Leaf) -> Option<(Leaf, u64)> {
    if a.family != b.family {
        return None;
    }
    let zero = 0.0f64.to_bits();
    match a.family {
        Family::Beta => match (a.numbers.len(), b.numbers.len()) {
            (2, 2) => Some((
                Leaf {
                    family: Family::Beta,
                    names: a.names,
                    numbers: vec![a.numbers[0] + b.numbers[0], a.numbers[1] + b.numbers[1]],
                },
                zero,
            )),
            (1, 1) => {
                // Two values for one variable contradict each other.
                let certain = a.numbers == b.numbers;
                Some((a, if certain { zero } else { f64::NEG_INFINITY.to_bits() }))
            }
            _ => unreachable!(),
        },
        _ => {
            let mut names = a.names;
            for n in b.names {
                if !names.contains(&n) {
                    names.push(n);
                }
            }
            let mut numbers = a.numbers;
            numbers.extend(b.numbers);
            Some((Leaf { family: Family::Gaussian, names, numbers }, zero))
        }
    }
}

fn times(a: &Spn, b: &Spn) -> Spn {
    spn_mul(a, b, DEPTH, &merge, &arith, &mut MulCache::new()).unwrap()
}

#[test]
fn one_is_identity() {
    let leaf = counts(1, 2, 3);
    let one = Spn::one();
    assert!(times(&leaf, &one).same_shape(&leaf));
    assert!(times(&one, &leaf).same_shape(&leaf));
    assert_eq!(times(&leaf, &one).log_coeff(), leaf.log_coeff());
}

#[test]
fn scalar_times_leaf_is_scaled_leaf() {
    let leaf = counts(1, 2, 3);
    let scalar = Spn::scalar(0.5_f64.ln().to_bits());
    let prod = times(&leaf, &scalar);
    assert!(prod.same_shape(&leaf));
    assert!((log_of(prod.log_coeff()) - 0.5_f64.ln()).abs() < 1e-12);
}

#[test]
fn zero_absorbs_everything() {
    let leaf = counts(1, 2, 3);
    let z = Spn::zero();
    assert!(times(&z, &leaf).is_zero());
    assert!(times(&leaf, &z).is_zero());
}

#[test]
fn product_of_two_beta_leaves_then_mul_into_third() {
    let p = Spn::product(&vec![counts(1, 1, 0), counts(2, 1, 0)], &arith);
    let q = times(&p, &counts(3, 1, 0));
    assert_eq!(q.scope(), &vec![1u64, 2, 3]);
    match q.kind() {
        SpnKind::Product(children) => assert_eq!(children.len(), 3),
        other => panic!("expected Product, got {:?}", other),
    }
}

#[test]
fn product_of_betas_times_leaf_on_existing_var() {
    let p = Spn::product(&vec![counts(1, 2, 1), counts(2, 3, 0)], &arith);
    let q = times(&p, &counts(1, 1, 1));
    match q.kind() {
        SpnKind::Product(children) => {
            assert_eq!(children.len(), 2);
            let mut saw_merged_var1 = false;
            let mut saw_var2 = false;
            for c in children {
                let l = only_leaf(c);
                if l.names[0] == 1 {
                    assert_eq!(l.numbers, vec![3, 2]);
                    saw_merged_var1 = true;
                } else if l.names[0] == 2 {
                    assert_eq!(l.numbers, vec![3, 0]);
                    saw_var2 = true;
                }
            }
            assert!(saw_merged_var1 && saw_var2);
        }
        _ => panic!("expected Product"),
    }
}

#[test]
fn gaussian_leaf_overlapping_multiple_product_children() {
    let g1 = gaussian_eq(vec![1], [1.0, 0.0], 0.5);
    let g2 = gaussian_eq(vec![2], [0.0, 1.0], 1.5);
    let b3 = counts(3, 1, 0);
    let p = Spn::product(&vec![g1, g2, b3], &arith);
    let coupling = gaussian_eq(vec![1, 2], [1.0, 1.0], 2.0);
    let q = times(&p, &coupling);
    match q.kind() {
        SpnKind::Product(children) => {
            assert_eq!(children.len(), 2);
            let mut saw_merged_gaussian = false;
            let mut saw_beta = false;
            for c in children {
                let l = only_leaf(c);
                match l.family {
                    Family::Gaussian => {
                        assert_eq!(c.scope(), &vec![1u64, 2]);
                        // All three equations.
                        assert_eq!(l.numbers.len(), 9);
                        saw_merged_gaussian = true;
                    }
                    Family::Beta => {
                        assert_eq!(l.names, vec![3]);
                        saw_beta = true;
                    }
                    _ => panic!("unexpected child kind"),
                }
            }
            assert!(saw_merged_gaussian && saw_beta);
        }
        _ => panic!("expected Product"),
    }
}

#[test]
fn contradictory_beta_merge_yields_zero() {
    let q = times(&real_eq(1, 0.4), &real_eq(1, 0.5));
    assert!(q.is_zero());
}

#[test]
fn hashconsing_dedupes_structurally_equal_leaves() {
    let a = counts(1, 2, 3);
    let b = counts(1, 2, 3);
    assert!(a.same_shape(&b));
    // Equal branches of a sum become one.
    let s = Spn::sum(&vec![a, b], &arith);
    only_leaf(&s);
    assert!((log_of(s.log_coeff()) - 2.0f64.ln()).abs() < 1e-12);
}

fn beta_likelihood(l: &Leaf, values: &[(u64, f64)]) -> u64 {
    let x = values.iter().find(|v| v.0 == l.names[0]).unwrap().1;
    let ll = if l.numbers.len() == 1 {
        if f64::from_bits(l.numbers[0]) == x {
            0.0
        } else {
            f64::NEG_INFINITY
        }
    } else {
        l.numbers[0] as f64 * x.ln() + l.numbers[1] as f64 * (1.0 - x).ln()
    };
    ll.to_bits()
}

fn likelihood(s: &Spn, values: &[(u64, f64)]) -> f64 {
    f64::from_bits(s.log_likelihood(&|l: Leaf| beta_likelihood(&l, values), &arith))
}

#[test]
fn log_likelihood_single_beta_leaf() {
    let leaf = counts(1, 2, 1);
    let ll = likelihood(&leaf, &[(1, 0.4)]);
    let expected = 2.0 * 0.4_f64.ln() + 0.6_f64.ln();
    assert!((ll - expected).abs() < 1e-12);
}

#[test]
fn log_likelihood_product_sums_logs() {
    let p = Spn::product(&vec![counts(1, 2, 1), counts(2, 1, 2)], &arith);
    let ll = likelihood(&p, &[(1, 0.3), (2, 0.5)]);
    let e1 = 2.0 * 0.3_f64.ln() + 0.7_f64.ln();
    let e2 = 0.5_f64.ln() + 2.0 * 0.5_f64.ln();
    assert!((ll - (e1 + e2)).abs() < 1e-12);
}

#[test]
fn log_likelihood_sum_is_logsumexp_of_branches() {
    let l1 = counts(1, 2, 1);
    let l2 = counts(1, 1, 2);
    let s = Spn::sum(&vec![l1.share(), l2.share()], &arith);
    let a = [(1, 0.4)];
    let ll = likelihood(&s, &a);
    let expected = logsumexp(likelihood(&l1, &a), likelihood(&l2, &a));
    assert!((ll - expected).abs() < 1e-12, "ll={} expected={}", ll, expected);
}

#[test]
fn log_likelihood_outer_log_coeff_adds() {
    let leaf = counts(1, 2, 1);
    let scaled = leaf.scalar_mul(0.7f64.to_bits(), &arith);
    let a = [(1, 0.4)];
    assert!((likelihood(&scaled, &a) - (likelihood(&leaf, &a) + 0.7)).abs() < 1e-12);
}

#[test]
fn log_likelihood_zero_short_circuits() {
    assert_eq!(likelihood(&Spn::zero(), &[(1, 0.4)]), f64::NEG_INFINITY);
}

#[test]
fn log_likelihood_pure_scalar_is_log_coeff() {
    let s = Spn::scalar(1.3f64.to_bits());
    assert!((likelihood(&s, &[]) - 1.3).abs() < 1e-12);
}

#[test]
fn log_likelihood_realeq_branch_returns_neg_infinity_on_mismatch() {
    let leaf = real_eq(1, 0.4);
    assert_eq!(likelihood(&leaf, &[(1, 0.4)]), 0.0);
    assert_eq!(likelihood(&leaf, &[(1, 0.5)]), f64::NEG_INFINITY);
}

#[test]
fn log_likelihood_gaussian_equality_satisfied() {
    let g = gaussian_eq(vec![1, 2], [1.0, 1.0], 3.0);
    let at = |x: f64, y: f64| {
        f64::from_bits(g.log_likelihood(
            &|l: Leaf| {
                let sum = f64::from_bits(l.numbers[1]) * x + f64::from_bits(l.numbers[2]) * y;
                let ll = if sum == f64::from_bits(l.numbers[0]) {
                    0.0
                } else {
                    f64::NEG_INFINITY
                };
                ll.to_bits()
            },
            &arith,
        ))
    };
    assert_eq!(at(1.0, 2.0), 0.0);
    assert_eq!(at(1.0, 2.5), f64::NEG_INFINITY);
}

fn ln_factorial(n: u64) -> f64 {
    (1..=n).map(|k| (k as f64).ln()).sum()
}

/// The marginal likelihood of counts under a uniform prior.
fn counts_marginal(h: u64, t: u64) -> f64 {
    ln_factorial(h) + ln_factorial(t) - ln_factorial(h + t + 1)
}

/// The posterior of a leaf under uniform Beta priors, and under independent
/// standard normal priors for the variables 1 and 2.
fn up(l: Leaf, query: &BTreeSet<u64>) -> (Option<Leaf>, RealEps) {
    if l.family == Family::Gaussian {
        // x1 + x2 = v has mean v/2, variance 1/2 and covariance -1/2.
        let v = f64::from_bits(l.numbers[0]);
        let kept: Vec<u64> = l.names.iter().copied().filter(|n| query.contains(n)).collect();
        let k = kept.len();
        let mut numbers = vec![(v / 2.0).to_bits(); k];
        for i in 0..k {
            for j in 0..k {
                numbers.push(if i == j { 0.5f64 } else { -0.5f64 }.to_bits());
            }
        }
        let leaf = Leaf { family: Family::Gaussian, names: kept, numbers };
        return (Some(leaf), re(-1.0, 1));
    }
    let (log_z, a, b) = if l.numbers.len() == 1 {
        (re(0.0, 1), f64::INFINITY, 0.0)
    } else {
        let (h, t) = (l.numbers[0], l.numbers[1]);
        (re(counts_marginal(h, t), 0), 1.0 + h as f64, 1.0 + t as f64)
    };
    let leaf = if query.contains(&l.names[0]) {
        Some(Leaf {
            family: Family::Beta,
            names: l.names,
            numbers: vec![a.to_bits(), b.to_bits()],
        })
    } else {
        None
    };
    (leaf, log_z)
}

fn set(names: &[u64]) -> BTreeSet<u64> {
    names.iter().copied().collect()
}

fn marginal(s: &Spn) -> RealEps {
    s.posterior(&set(&[]), &up, &arith).log_coeff()
}

#[test]
fn log_marginal_single_leaf_matches_suffstat() {
    let leaf = counts(1, 2, 3);
    let direct = up(Leaf { family: Family::Beta, names: vec![1], numbers: vec![2, 3] }, &set(&[]));
    let via_spn = marginal(&leaf);
    assert_eq!(direct.1.power, via_spn.power);
    assert!((log_of(direct.1) - log_of(via_spn)).abs() < 1e-12);
}

#[test]
fn log_marginal_product_multiplies_independent_factors() {
    let p = Spn::product(&vec![counts(1, 2, 1), counts(2, 1, 3)], &arith);
    let total = marginal(&p);
    let expected = marginal(&counts(1, 2, 1)).product(marginal(&counts(2, 1, 3)), &arith);
    assert_eq!(total.power, expected.power);
    assert!((log_of(total) - log_of(expected)).abs() < 1e-12);
}

#[test]
fn log_marginal_sum_adds_branches() {
    let l1 = counts(1, 2, 1);
    let l2 = counts(1, 1, 2);
    let s = Spn::sum(&vec![l1.share(), l2.share()], &arith);
    let total = marginal(&s);
    let expected = marginal(&l1).logsumexp(marginal(&l2), &arith);
    assert_eq!(total.power, expected.power);
    assert!((log_of(total) - log_of(expected)).abs() < 1e-12);
}

#[test]
fn log_marginal_mixed_power_sum_drops_higher_power() {
    let heads = counts(1, 2, 1);
    let pinned = real_eq(1, 0.4);
    let s = Spn::sum(&vec![heads.share(), pinned], &arith);
    let total = marginal(&s);
    assert_eq!(total.power, 0);
    assert!((log_of(total) - log_of(marginal(&heads))).abs() < 1e-12);
}

#[test]
fn log_marginal_zero_short_circuits() {
    assert!(Spn::zero().posterior(&set(&[]), &up, &arith).is_zero());
}

#[test]
fn log_marginal_outer_log_coeff_scales() {
    let leaf = counts(1, 2, 1);
    let scaled = leaf.scalar_mul(0.5f64.to_bits(), &arith);
    let base = marginal(&leaf);
    let lifted = marginal(&scaled);
    assert_eq!(base.power, lifted.power);
    assert!((log_of(lifted) - (log_of(base) + 0.5)).abs() < 1e-12);
}

#[test]
fn sum_factors_log_z_into_outer_coeff() {
    let l1 = counts(1, 2, 1).scalar_mul(2.0f64.to_bits(), &arith);
    let l2 = counts(1, 1, 2).scalar_mul(3.0f64.to_bits(), &arith);
    let s = Spn::sum(&vec![l1, l2], &arith);
    let expected_z = logsumexp(2.0, 3.0);
    assert!((log_of(s.log_coeff()) - expected_z).abs() < 1e-12);
    match s.kind() {
        SpnKind::Sum(children) => {
            let lse = children
                .iter()
                .fold(f64::NEG_INFINITY, |acc, c| logsumexp(acc, log_of(c.log_coeff())));
            assert!(lse.abs() < 1e-12);
        }
        other => panic!("expected Sum, got {:?}", other),
    }
}

#[test]
fn posterior_single_beta_leaf_full_query() {
    let post = counts(1, 2, 1).posterior(&set(&[1]), &up, &arith);
    let l = only_leaf(&post);
    assert_eq!(l.names, vec![1]);
    assert!((f64::from_bits(l.numbers[0]) - 3.0).abs() < 1e-12);
    assert!((f64::from_bits(l.numbers[1]) - 2.0).abs() < 1e-12);
}

#[test]
fn posterior_empty_query_returns_marginal_scalar() {
    let leaf = counts(1, 2, 1);
    let post = leaf.posterior(&set(&[]), &up, &arith);
    assert!(matches!(post.kind(), SpnKind::Scalar));
    assert!(post.scope().is_empty());
    assert_eq!(post.log_coeff().power, 0);
    assert!((log_of(post.log_coeff()) - counts_marginal(2, 1)).abs() < 1e-12);
}

#[test]
fn posterior_disjoint_query_returns_marginal_scalar() {
    let leaf = counts(1, 2, 1);
    let post = leaf.posterior(&set(&[99]), &up, &arith);
    assert!(matches!(post.kind(), SpnKind::Scalar));
    let expected = marginal(&leaf);
    assert_eq!(post.log_coeff().power, expected.power);
    assert!((log_of(post.log_coeff()) - log_of(expected)).abs() < 1e-12);
}

#[test]
fn posterior_zero_returns_zero() {
    assert!(Spn::zero().posterior(&set(&[]), &up, &arith).is_zero());
}

#[test]
fn posterior_pure_scalar_returns_scalar() {
    let s = Spn::scalar(0.7f64.to_bits());
    let post = s.posterior(&set(&[]), &up, &arith);
    assert!(matches!(post.kind(), SpnKind::Scalar));
    assert_eq!(post.log_coeff().power, 0);
    assert!((log_of(post.log_coeff()) - 0.7).abs() < 1e-12);
}

#[test]
fn posterior_product_partial_query_drops_unqueried_factor() {
    let p = Spn::product(&vec![counts(1, 2, 1), counts(2, 1, 3)], &arith);
    let post = p.posterior(&set(&[1]), &up, &arith);
    let l = only_leaf(&post);
    assert_eq!(l.names, vec![1]);
    assert!((f64::from_bits(l.numbers[0]) - 3.0).abs() < 1e-12);
    assert!((f64::from_bits(l.numbers[1]) - 2.0).abs() < 1e-12);
    let expected = marginal(&counts(1, 2, 1)).product(marginal(&counts(2, 1, 3)), &arith);
    assert_eq!(post.log_coeff().power, expected.power);
    assert!((log_of(post.log_coeff()) - log_of(expected)).abs() < 1e-12);
}

#[test]
fn posterior_sum_full_query_pushes_log_z_to_outer() {
    let l1 = counts(1, 2, 1);
    let l2 = counts(1, 1, 2);
    let s = Spn::sum(&vec![l1.share(), l2.share()], &arith);
    let post = s.posterior(&set(&[1]), &up, &arith);
    let expected_z = marginal(&l1).logsumexp(marginal(&l2), &arith);
    assert_eq!(post.log_coeff().power, expected_z.power);
    assert!((log_of(post.log_coeff()) - log_of(expected_z)).abs() < 1e-12);
    match post.kind() {
        SpnKind::Sum(children) => {
            assert_eq!(children.len(), 2);
            let lse = children
                .iter()
                .fold(RealEps::zero(), |acc, c| acc.logsumexp(c.log_coeff(), &arith));
            assert_eq!(lse.power, 0);
            assert!(log_of(lse).abs() < 1e-12);
        }
        other => panic!("expected Sum, got {:?}", other),
    }
}

#[test]
fn posterior_gaussian_full_query_matches_suffstat() {
    let spn = gaussian_eq(vec![1, 2], [1.0, 1.0], 2.0);
    let q = set(&[1, 2]);
    let post = spn.posterior(&q, &up, &arith);
    let direct = up(only_leaf(&spn).duplicate(), &q).0.unwrap();
    let g = only_leaf(&post);
    assert_eq!(g.names, direct.names);
    assert_eq!(g.numbers, direct.numbers);
    assert_eq!(g.names, vec![1, 2]);
    assert_eq!(f64::from_bits(g.numbers[0]), 1.0);
}

#[test]
fn posterior_gaussian_partial_query_slices_correctly() {
    let spn = gaussian_eq(vec![1, 2], [1.0, 1.0], 2.0);
    let post = spn.posterior(&set(&[1]), &up, &arith);
    let g = only_leaf(&post);
    assert_eq!(g.names, vec![1]);
    assert_eq!(f64::from_bits(g.numbers[0]), 1.0);
    assert_eq!(f64::from_bits(g.numbers[1]), 0.5);
}

#[test]
fn posterior_outer_log_coeff_propagates() {
    let leaf = counts(1, 2, 1);
    let scaled = leaf.scalar_mul(0.5f64.to_bits(), &arith);
    let base = leaf.posterior(&set(&[1]), &up, &arith);
    let lifted = scaled.posterior(&set(&[1]), &up, &arith);
    assert_eq!(base.log_coeff().power, lifted.log_coeff().power);
    assert!((log_of(lifted.log_coeff()) - (log_of(base.log_coeff()) + 0.5)).abs() < 1e-12);
}

#[test]
fn families_that_share_a_variable_have_no_product() {
    let a = counts(1, 1, 0);
    let b = gaussian_eq(vec![1], [1.0, 0.0], 0.5);
    let mut cache = MulCache::new();
    assert!(spn_mul(&a, &b, DEPTH, &merge, &arith, &mut cache).is_none());
    clear_mul_cache(&mut cache);
    // Overlapping leaves need one step.
    assert!(spn_mul(&counts(1, 1, 0), &counts(1, 1, 0), 0, &merge, &arith, &mut cache).is_none());
}

#[test]
fn sums_of_scalars_are_scalars() {
    let a = Spn::scalar(1.0f64.ln().to_bits());
    let b = Spn::scalar(3.0f64.ln().to_bits());
    let s = spn_add(&a, &b, &arith);
    assert!(s.is_scalar());
    assert!((log_of(s.log_coeff()) - 4.0f64.ln()).abs() < 1e-12);
}

#[test]
fn scopes_are_sorted_sets() {
    assert_eq!(sorted_scope(&vec![3, 1, 3, 2]), vec![1, 2, 3]);
    assert_eq!(merge_scopes(&vec![1, 4], &vec![2, 4, 5]), vec![1, 2, 4, 5]);
    assert!(is_disjoint(&vec![1, 3], &vec![2, 4]));
    assert!(!is_disjoint(&vec![1, 3], &vec![3, 4]));
}

#[test]
fn weighted_count_of_a_fair_coin() {
    // One coin with a Beta variable as its probability, and a fair one: the
    // first comes up heads, or both come up tails.
    let fair = Spn::scalar(0.5f64.ln().to_bits());
    let weights = |label: u64| {
        if label == 0 {
            (counts(1, 0, 1), counts(1, 1, 0))
        } else {
            (fair.share(), fair.share())
        }
    };
    let f = BooleanFunction::Node {
        var: VarId(0),
        low: Rc::new(BooleanFunction::Node {
            var: VarId(1),
            low: Rc::new(BooleanFunction::True),
            high: Rc::new(BooleanFunction::False),
        }),
        high: Rc::new(BooleanFunction::True),
    };
    let n = wmc_spn(&f, &weights, DEPTH, &merge, &arith, &mut MulCache::new()).unwrap();
    // 1/2 for heads, and half of 1/2 for tails.
    assert!((log_of(marginal(&n)) - 0.75f64.ln()).abs() < 1e-12);
}

#[test]
fn a_sum_is_sampled_by_the_weights_of_its_children() {
    let l1 = beta_leaf_at(1, 1.0, 1.0, re(0.25f64.ln(), 0));
    let l2 = beta_leaf_at(2, 1.0, 1.0, re(0.75f64.ln(), 0));
    let s = PosteriorSpn::sum(&vec![l1, l2], &arith);
    let a = s.sample_leaves(&|w: Vec<u64>| {
        assert!((f64::from_bits(w[0]) - 0.25f64.ln()).abs() < 1e-12);
        assert!((f64::from_bits(w[1]) - 0.75f64.ln()).abs() < 1e-12);
        1usize
    });
    assert_eq!(a[0].names, vec![2]);
}

#[test]
fn infinitesimal_summands_do_not_count() {
    let l1 = beta_leaf_at(1, 1.0, 1.0, re(0.5f64.ln(), 1));
    let l2 = beta_leaf_at(2, 1.0, 1.0, re(0.5f64.ln(), 0));
    let s = PosteriorSpn::sum(&vec![l1, l2], &arith);
    let a = s.sample_leaves(&|_w: Vec<u64>| 0usize);
    assert_eq!(a.len(), 1);
    assert_eq!(a[0].names, vec![2]);
}

#[test]
fn weights_in_a_sum_add_up_to_one() {
    let nested = Spn::sum(&vec![counts(1, 1, 0), counts(2, 1, 0)], &arith);
    let s = Spn::sum(&vec![nested, counts(2, 1, 0), counts(3, 1, 0), Spn::zero()], &arith);
    // Four summands, of which two are one leaf.
    assert!((f64::from_bits(s.log_coeff.log_coeff) - 4.0f64.ln()).abs() < 1e-12);
    match &s.inner.kind {
        SpnKind::Sum(c) => {
            let weights: Vec<f64> =
                c.iter().map(|n| f64::from_bits(n.log_coeff.log_coeff).exp()).collect();
            assert_eq!(weights.len(), 3);
            assert!((weights.iter().sum::<f64>() - 1.0).abs() < 1e-12);
            assert!((weights[1] - 0.5).abs() < 1e-12);
        }
        _ => unreachable!(),
    }
    let one = Spn::sum(&vec![counts(1, 1, 0), counts(1, 1, 0)], &arith);
    assert!((f64::from_bits(one.log_coeff.log_coeff) - 2.0f64.ln()).abs() < 1e-12);
    assert!(matches!(&one.inner.kind, SpnKind::Leaf(l) if l.names == vec![1]));
}
