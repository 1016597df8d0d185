use std::collections::{BTreeSet, HashMap};

use pluck::inference::lazy_kc::state::Prior;
use pluck::inference::spn::node::{Family, Leaf};
use pluck::results::grouping::group_exprs_by_shared_blocks;
use pluck::results::naming::NamingScheme;
use pluck::results::packet::{rename_to_affine_posterior_packet, PosteriorPacket};
use pluck::results::positions::GaussianAffineExpr;
use pluck::results::registry::{fill_in_missing_variables_with_prior, prior_registry};
use pluck::utils::reals::RealOp;

fn arith(op: RealOp, a: u64, b: u64) -> u64 {
    let (x, y) = (f64::from_bits(a), f64::from_bits(b));
    let r = match op {
        RealOp::Sum => x + y,
        RealOp::Difference => x - y,
        RealOp::Product => x * y,
        RealOp::Quotient => x / y,
        RealOp::OfInt => a as i64 as f64,
        RealOp::LogSum => (x.exp() + y.exp()).ln(),
        RealOp::Log => x.ln(),
        RealOp::ToInt => return x as i64 as u64,
    };
    r.to_bits()
}

fn show(b: u64) -> String {
    format!("{}", f64::from_bits(b))
}

fn bits(xs: &[f64]) -> Vec<u64> {
    xs.iter().map(|x| x.to_bits()).collect()
}

fn affine(coeffs: &[(u64, f64)], constant: f64) -> GaussianAffineExpr {
    GaussianAffineExpr {
        constant: constant.to_bits(),
        coefficients: coeffs.iter().map(|&(k, v)| (k, v.to_bits())).collect(),
    }
}

fn gauss_block(var_order: Vec<u64>, mean: &[f64], cov: &[&[f64]]) -> Leaf {
    let mut numbers = bits(mean);
    for row in cov {
        numbers.extend(bits(row));
    }
    Leaf { family: Family::Gaussian, names: var_order, numbers }
}

fn naming_with(vars: &[(u64, &str)], exprs: Vec<(GaussianAffineExpr, &str)>) -> NamingScheme {
    NamingScheme {
        var_names: vars
            .iter()
            .map(|(n, s)| (*n, s.to_string()))
            .collect::<HashMap<u64, String>>(),
        expr_names: exprs.into_iter().map(|(e, s)| (e, s.to_string())).collect(),
    }
}

fn packet_of(leaves: Vec<Leaf>, naming: &NamingScheme) -> PosteriorPacket {
    rename_to_affine_posterior_packet(&leaves, naming, &vec![], &show, &arith).unwrap()
}

fn number(p: &PosteriorPacket, block: usize, i: usize) -> f64 {
    f64::from_bits(p.gaussian[block].numbers[i])
}

#[test]
fn identity_affine_single_var() {
    let expr = affine(&[(1, 1.0)], 0.0);
    let leaves = vec![gauss_block(vec![1], &[1.5], &[&[2.0]])];
    let naming = naming_with(&[], vec![(expr, "x")]);
    let packet = packet_of(leaves, &naming);
    assert_eq!(packet.gaussian.len(), 1);
    assert_eq!(packet.gaussian[0].names, vec!["x".to_string()]);
    assert!((number(&packet, 0, 0) - 1.5).abs() < 1e-12);
    assert!((number(&packet, 0, 1) - 2.0).abs() < 1e-12);
}

#[test]
fn two_independent_exprs_two_blocks() {
    let ex_x = affine(&[(1, 1.0)], 0.0);
    let ex_y = affine(&[(2, 1.0)], 0.0);
    let leaves = vec![
        gauss_block(vec![1], &[1.0], &[&[1.0]]),
        gauss_block(vec![2], &[2.0], &[&[3.0]]),
    ];
    let naming = naming_with(&[], vec![(ex_x, "x"), (ex_y, "y")]);
    let packet = packet_of(leaves, &naming);
    assert_eq!(packet.gaussian.len(), 2);
    assert_eq!(packet.gaussian[0].names, vec!["x".to_string()]);
    assert!((number(&packet, 0, 0) - 1.0).abs() < 1e-12);
    assert!((number(&packet, 0, 1) - 1.0).abs() < 1e-12);
    assert_eq!(packet.gaussian[1].names, vec!["y".to_string()]);
    assert!((number(&packet, 1, 0) - 2.0).abs() < 1e-12);
    assert!((number(&packet, 1, 1) - 3.0).abs() < 1e-12);
}

#[test]
fn expr_spans_two_independent_blocks() {
    let ex = affine(&[(1, 1.0), (2, 1.0)], 0.0);
    let leaves = vec![
        gauss_block(vec![1], &[5.0], &[&[2.0]]),
        gauss_block(vec![2], &[7.0], &[&[3.0]]),
    ];
    let naming = naming_with(&[], vec![(ex, "z")]);
    let packet = packet_of(leaves, &naming);
    assert_eq!(packet.gaussian.len(), 1);
    assert_eq!(packet.gaussian[0].names, vec!["z".to_string()]);
    assert!((number(&packet, 0, 0) - 12.0).abs() < 1e-12);
    assert!((number(&packet, 0, 1) - 5.0).abs() < 1e-12);
}

#[test]
fn dedupe_same_expr_at_two_paths() {
    let expr = affine(&[(1, 1.0)], 0.0);
    let leaves = vec![gauss_block(vec![1], &[0.0], &[&[1.0]])];
    let naming = naming_with(&[], vec![(expr, "x")]);
    let packet = packet_of(leaves, &naming);
    assert_eq!(packet.gaussian.len(), 1);
    assert_eq!(packet.gaussian[0].names.len(), 1);
    assert_eq!(packet.gaussian[0].names[0], "x");
}

#[test]
fn expressions_over_one_block_are_correlated() {
    // 2·x + 1 and x - y, with x and y correlated.
    let a = affine(&[(1, 2.0)], 1.0);
    let b = affine(&[(1, 1.0), (2, -1.0)], 0.0);
    let leaves = vec![gauss_block(vec![1, 2], &[3.0, 5.0], &[&[2.0, 0.5], &[0.5, 1.0]])];
    let naming = naming_with(&[], vec![(b, "d"), (a, "a")]);
    let packet = packet_of(leaves, &naming);
    assert_eq!(packet.gaussian.len(), 1);
    // Ordered by variables: {1} before {1, 2}.
    assert_eq!(packet.gaussian[0].names, vec!["a".to_string(), "d".to_string()]);
    let got: Vec<f64> = (0..6).map(|i| number(&packet, 0, i)).collect();
    // Means 7 and -2; variances 8 and 2 + 1 - 2·0.5; covariance 2·(2 - 0.5).
    assert_eq!(got, vec![7.0, -2.0, 8.0, 3.0, 3.0, 2.0]);
}

#[test]
fn variables_without_a_name_have_no_packet() {
    let naming = naming_with(&[], vec![]);
    let beta = Leaf { family: Family::Beta, names: vec![1], numbers: bits(&[1.0, 1.0]) };
    assert!(rename_to_affine_posterior_packet(&vec![beta], &naming, &vec![], &show, &arith).is_none());
    let expr = naming_with(&[], vec![(affine(&[(9, 1.0)], 0.0), "x")]);
    assert!(rename_to_affine_posterior_packet(&vec![], &expr, &vec![], &show, &arith).is_none());
}

#[test]
fn betas_come_in_the_order_of_their_names() {
    let leaf = |n: u64| Leaf { family: Family::Beta, names: vec![n], numbers: bits(&[n as f64, 1.0]) };
    let naming = naming_with(&[(1, "q"), (2, "p")], vec![]);
    let packet = packet_of(vec![leaf(1), leaf(2)], &naming);
    assert_eq!(packet.beta[0].names, vec!["p".to_string()]);
    assert_eq!(packet.beta[0].numbers, bits(&[2.0, 1.0]));
    assert_eq!(packet.beta[1].names, vec!["q".to_string()]);
}

#[test]
fn scaled_rates_are_reported_on_their_own() {
    let rate = Leaf { family: Family::Gamma, names: vec![1], numbers: bits(&[3.0, 2.0]) };
    let naming = naming_with(&[(1, "λ")], vec![]);
    let queried = vec![(1, 4.0f64.to_bits()), (1, 1.0f64.to_bits())];
    let packet =
        rename_to_affine_posterior_packet(&vec![rate], &naming, &queried, &show, &arith).unwrap();
    assert_eq!(packet.gamma.len(), 2);
    assert_eq!(packet.gamma[0].names, vec!["4 * λ".to_string()]);
    assert_eq!(packet.gamma[0].numbers, bits(&[3.0, 0.5]));
    assert_eq!(packet.gamma[1].names, vec!["λ".to_string()]);
    assert_eq!(packet.gamma[1].numbers, bits(&[3.0, 2.0]));
}

#[test]
fn draws_keep_the_unscaled_rate() {
    let joint = Leaf { family: Family::Gamma, names: vec![1, 5], numbers: bits(&[3.0, 2.0]) };
    let naming = naming_with(&[(5, "μ")], vec![]);
    let packet = packet_of(vec![joint], &naming);
    assert_eq!(packet.gamma.len(), 1);
    assert_eq!(packet.gamma[0].names, vec!["rate_1".to_string(), "μ".to_string()]);
}

#[test]
fn packets_are_described_line_by_line() {
    let leaves = vec![
        Leaf { family: Family::Beta, names: vec![1], numbers: bits(&[2.0, 3.0]) },
        gauss_block(vec![2], &[0.5], &[&[1.0]]),
    ];
    let naming = naming_with(&[(1, "p")], vec![(affine(&[(2, 1.0)], 0.0), "x")]);
    let packet = packet_of(leaves, &naming);
    assert_eq!(packet.describe(&show), "p ~ Beta(2, 3)\nx ~ Normal(0.5, 1)\n");
}

#[test]
fn missing_variables_get_their_priors() {
    let priors = prior_registry(
        &vec![
            Prior::Beta { a: 1.0f64.to_bits(), b: 1.0f64.to_bits() },
            Prior::Gamma { shape: 2.0f64.to_bits(), rate: 3.0f64.to_bits() },
            Prior::Gaussian { mu: 1.0f64.to_bits(), sigma: 2.0f64.to_bits() },
            Prior::Pinned { value: 7.0f64.to_bits() },
            Prior::Draw { poisson: true, gamma: 1, scale: 1.0f64.to_bits() },
        ],
        &arith,
    );
    assert_eq!(priors.len(), 4);
    assert_eq!(priors[2].numbers, bits(&[1.0, 4.0]));
    assert_eq!(priors[3].numbers, bits(&[f64::INFINITY, 7.0]));
    let partial = vec![Leaf { family: Family::Gamma, names: vec![1], numbers: bits(&[5.0, 4.0]) }];
    let scope: BTreeSet<u64> = [0u64, 1].iter().copied().collect();
    let full = fill_in_missing_variables_with_prior(&priors, &partial, &scope);
    // Variable 0 from its prior, 1 as it was; 2 and 3 are not asked for.
    assert_eq!(full.len(), 2);
    assert_eq!(full[0].names, vec![0]);
    assert_eq!(full[1].numbers, bits(&[5.0, 4.0]));
}

#[test]
fn correlated_priors_are_cut_to_what_is_asked() {
    let block = || bits(&[1.0, 2.0, 3.0, 0.5, 0.5, 4.0]);
    let priors = prior_registry(
        &vec![
            Prior::Correlated { first: 0, mu_and_cov: block() },
            Prior::Correlated { first: 0, mu_and_cov: block() },
        ],
        &arith,
    );
    assert_eq!(priors.len(), 1);
    assert_eq!(priors[0].names, vec![0, 1]);
    let scope: BTreeSet<u64> = [1u64].iter().copied().collect();
    let full = fill_in_missing_variables_with_prior(&priors, &vec![], &scope);
    assert_eq!(full.len(), 1);
    assert_eq!(full[0].names, vec![1]);
    assert_eq!(full[0].numbers, bits(&[2.0, 4.0]));
}

#[test]
fn expressions_group_by_the_blocks_they_share() {
    // Expressions 0 and 2 meet over 3, by way of blocks 1 and 2; 1 is alone
    // with block 0.
    let touched = vec![
        vec![false, true, false],
        vec![true, false, false],
        vec![false, false, true],
        vec![false, true, true],
    ];
    assert_eq!(group_exprs_by_shared_blocks(&touched, 3), vec![vec![1], vec![0, 2, 3]]);
    // What touches nothing comes last, by itself.
    assert_eq!(group_exprs_by_shared_blocks(&vec![vec![]], 0), vec![vec![0]]);
    let touched = vec![vec![false], vec![true], vec![false]];
    assert_eq!(group_exprs_by_shared_blocks(&touched, 1), vec![vec![1], vec![0], vec![2]]);
}
