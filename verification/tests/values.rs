use pluck::inference::assignment::Assignment;
use pluck::inference::lazy_kc::affine::FloatOp;
use pluck::inference::lazy_kc::floats::try_scale_gamma;
use pluck::language::pexpr::NativeVal;
use pluck::language::values::{
    empty_env, env_cons, env_len, env_lookup, extract_nat, mk_exponential, mk_gamma,
    mk_gamma_scaled, mk_native_float, mk_native_int, mk_probability, mk_value, PluckVal,
    PluckValue,
};
use pluck::utils::reals::RealOp;

fn arith(op: RealOp, a: u64, b: u64) -> u64 {
    let (x, y) = (f64::from_bits(a), f64::from_bits(b));
    let r = match op {
        RealOp::Sum => x + y,
        RealOp::Difference => x - y,
        RealOp::Product => x * y,
        RealOp::Quotient => x / y,
        RealOp::OfInt => a as i64 as f64,
        RealOp::LogSum => (x.exp() + y.exp()).ln(),
        RealOp::Log => x.ln(),
        RealOp::ToInt => return x as i64 as u64,
    };
    r.to_bits()
}

fn float(x: f64) -> PluckVal {
    mk_native_float(x.to_bits())
}

fn scaled(name: u64, x: f64) -> PluckVal {
    mk_gamma_scaled(name, x.to_bits())
}

fn assert_scaled_gamma(v: &PluckVal, expect_name: u64, expect_scale: f64) {
    match &**v {
        PluckValue::Gamma { name, scale } => {
            assert_eq!(*name, expect_name);
            assert_eq!(f64::from_bits(*scale), expect_scale);
        }
        other => panic!("expected scaled Gamma, got {other:?}"),
    }
}

#[test]
fn mul_by_constant_scales_either_order() {
    let g = mk_gamma(7);
    let r = try_scale_gamma(FloatOp::Mul, &g, &float(5.0), &arith).unwrap().unwrap();
    assert_scaled_gamma(&r, 7, 5.0);
    let r = try_scale_gamma(FloatOp::Mul, &float(5.0), &g, &arith).unwrap().unwrap();
    assert_scaled_gamma(&r, 7, 5.0);
}

#[test]
fn scale_composes() {
    let g2 = scaled(7, 2.0);
    let r = try_scale_gamma(FloatOp::Mul, &g2, &float(3.0), &arith).unwrap().unwrap();
    assert_scaled_gamma(&r, 7, 6.0);
}

#[test]
fn div_by_constant_scales() {
    let g = mk_gamma(7);
    let r = try_scale_gamma(FloatOp::Div, &g, &float(2.0), &arith).unwrap().unwrap();
    assert_scaled_gamma(&r, 7, 0.5);
}

#[test]
fn no_gamma_falls_through() {
    let r = try_scale_gamma(FloatOp::Mul, &float(2.0), &float(3.0), &arith);
    assert!(r.is_none());
}

#[test]
fn unsupported_gamma_arithmetic_has_no_value() {
    let g = mk_gamma(7);
    // A sum with a Gamma.
    assert!(try_scale_gamma(FloatOp::Add, &g, &float(1.0), &arith).unwrap().is_none());
    // Two Gammas.
    assert!(try_scale_gamma(FloatOp::Mul, &g, &mk_gamma(8), &arith).unwrap().is_none());
    // A draw.
    let draw = mk_exponential(7, 99, 1.0f64.to_bits());
    assert!(try_scale_gamma(FloatOp::Mul, &draw, &float(5.0), &arith).unwrap().is_none());
    // A scale that is not positive.
    assert!(try_scale_gamma(FloatOp::Mul, &g, &float(0.0), &arith).unwrap().is_none());
    // A constant over a Gamma.
    assert!(try_scale_gamma(FloatOp::Div, &float(5.0), &g, &arith).unwrap().is_none());
}

#[test]
fn symbolic_eq_distinguishes_gamma_scale() {
    let bare = mk_gamma(7);
    let scaled5 = scaled(7, 5.0);
    let scaled5_again = scaled(7, 5.0);
    let scaled3 = scaled(7, 3.0);

    assert!(bare.symbolic_eq(&mk_gamma(7)));
    assert!(scaled5.symbolic_eq(&scaled5_again));
    assert!(!bare.symbolic_eq(&scaled5));
    assert!(!scaled5.symbolic_eq(&scaled3));
}

fn gammas(entries: Vec<(u64, u64)>) -> Assignment {
    Assignment { beta: vec![], dirichlet: vec![], gamma: entries, gaussian: vec![] }
}

fn forced(v: &PluckVal, a: &Assignment) -> f64 {
    match &*v.force_symbolic(a, 0, &arith).unwrap().unwrap() {
        PluckValue::Native(NativeVal::Float(f)) => f64::from_bits(*f),
        other => panic!("expected Native(Float), got {other:?}"),
    }
}

#[test]
fn force_symbolic_scales_gamma_but_not_draws() {
    let a = gammas(vec![(7, 2.0f64.to_bits())]);
    assert_eq!(forced(&scaled(7, 5.0), &a), 10.0);
    assert_eq!(forced(&mk_gamma(7), &a), 2.0);

    let draw = mk_exponential(7, 99, 5.0f64.to_bits());
    let a_draw = gammas(vec![(99, 2.0f64.to_bits())]);
    assert_eq!(forced(&draw, &a_draw), 2.0);
}

#[test]
fn forcing_names_the_variable_that_is_missing() {
    let a = gammas(vec![]);
    assert_eq!(mk_gamma(7).force_symbolic(&a, 0, &arith).unwrap().unwrap_err(), 7);
    assert_eq!(mk_probability(4).force_symbolic(&a, 0, &arith).unwrap().unwrap_err(), 4);
    assert!(float(1.0).force_symbolic(&a, 0, &arith).is_none());
}

#[test]
fn naturals_are_chains_of_successors() {
    let zero = mk_value(1, vec![]);
    let one = mk_value(2, vec![zero.clone()]);
    let two = mk_value(2, vec![one]);
    assert_eq!(extract_nat(&zero, 1, 2), Some(0));
    assert_eq!(extract_nat(&two, 1, 2), Some(2));
    assert_eq!(extract_nat(&mk_native_int(5), 1, 2), Some(5));
    assert_eq!(extract_nat(&mk_native_int(-1), 1, 2), Some(u64::MAX));
    assert_eq!(extract_nat(&mk_value(3, vec![]), 1, 2), None);
}

#[test]
fn inner_bindings_come_first() {
    let env = env_cons(1, mk_native_int(10), env_cons(1, mk_native_int(20), empty_env()));
    assert_eq!(env_len(&env), 2);
    assert!(matches!(
        &*env_lookup(&env, 1).unwrap(),
        PluckValue::Native(NativeVal::Int(10))
    ));
    assert!(env_lookup(&env, 2).is_none());
}
