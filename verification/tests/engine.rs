use pluck::discrete_factorizations::{BooleanFunction, Factorizer};
use pluck::inference::int_dists::{
    enumerate_int_dist, int_dist_add, int_dist_eq, int_dist_lt, int_dist_sub, IntDist,
};
use pluck::inference::lazy_kc::callstack::Callstack;
use pluck::inference::lazy_kc::monad::join_monad;
use pluck::inference::lazy_kc::ctx::CompilerCtx;
use pluck::inference::lazy_kc::settle::{build_stick_breaking_guards, constant_bits};
use pluck::inference::lazy_kc::state::{FlipWeight, LazyKCConfig, LazyKCState, Prior};
use pluck::inference::sampling::{
    edge_log_weights, extend_constraint_over, sample_discrete_given, SampleState,
};
use pluck::inference::spn::node::{Family, Leaf, Spn};
use pluck::language::parsing::Token;
use pluck::language::tokens::tokenize;
use pluck::language::toplevel::parse_toplevel;
use pluck::language::values::{
    empty_env, mk_int_dist, mk_native_int, mk_probability, mk_value, PluckValue,
};
use pluck::results::query::PluckContext;
use pluck::utils::reals::RealOp;

fn arith(op: RealOp, a: u64, b: u64) -> u64 {
    let (x, y) = (f64::from_bits(a), f64::from_bits(b));
    let r = match op {
        RealOp::Sum => x + y,
        RealOp::Difference => x - y,
        RealOp::Product => x * y,
        RealOp::Quotient => x / y,
        RealOp::OfInt => a as i64 as f64,
        RealOp::LogSum => (x.exp() + y.exp()).ln(),
        RealOp::Log => x.ln(),
        RealOp::ToInt => return x as i64 as u64,
    };
    r.to_bits()
}

fn covariance(_n: usize, _m: Vec<u64>) -> bool {
    true
}

fn state() -> LazyKCState {
    LazyKCState::new(LazyKCConfig { max_depth: Some(200) })
}

/// The state after an expression was compiled, and its number of worlds.
fn compile(expr: &str) -> (LazyKCState, usize) {
    let mut ctx = PluckContext::new();
    let toks: Vec<Token> = tokenize(&format!("(query {})", expr))
        .unwrap()
        .into_iter()
        .map(|text| {
            let real = text.parse::<f64>().ok().map(|x| x.to_bits());
            Token { text, real }
        })
        .collect();
    let (queries, _) =
        parse_toplevel(&toks, &mut ctx.interner, &mut ctx.types, &mut ctx.defs).unwrap();
    let mut compiler = CompilerCtx {
        defs: &ctx.defs,
        list: ctx.types.find_list_constructors(),
        nat: ctx.types.find_nat_constructors(),
        true_sym: ctx.syms.true_sym,
        false_sym: ctx.syms.false_sym,
        reals: &arith,
        covariance: &covariance,
        state: state(),
    };
    let always = BooleanFunction::true_ptr();
    let (worlds, _) = compiler.traced_compile(&queries[0].expr, &empty_env(), &always, 0);
    (compiler.state, worlds.len())
}

fn f(x: f64) -> u64 {
    x.to_bits()
}

#[test]
fn a_pop_undoes_a_push() {
    let mut stack = Callstack::new();
    stack.push(3);
    stack.push(-1);
    let before = stack.hash();
    stack.push(7);
    assert_ne!(stack.hash(), before);
    assert_eq!(stack.pop(), 7);
    assert_eq!(stack.hash(), before);
    assert_eq!(stack.to_vec(), vec![3, -1]);
    assert_eq!(Callstack::from_vec(vec![3, -1]).hash(), before);
    stack.push(7);
    stack.push(8);
    let longer = stack.hash();
    stack.pop();
    stack.pop();
    assert_eq!(stack.hash_with_suffix(&[7, 8]), longer);
    assert_eq!(stack.as_slice(), &[3, -1]);
}

#[test]
fn functions_combine() {
    let mut fac = Factorizer::new();
    let (_, x) = fac.new_var_at_position(0, true);
    let (_, y) = fac.new_var_at_position(0, true);
    let not_x = fac.negate(&x);
    assert!(fac.and(&x, &not_x).is_false());
    assert!(fac.or(&x, &not_x).is_true());
    // De Morgan: equal functions are one diagram.
    let left = fac.negate(&fac.and(&x, &y));
    let right = fac.or(&not_x, &fac.negate(&y));
    assert!(left.same(&right));
    assert!(!left.same(&x));
    assert_eq!(fac.num_vars(), 2);
}

#[test]
fn integers_wrap_and_compare() {
    let fac = Factorizer::new();
    let n = |v: u64| IntDist::new(constant_bits(v, 3));
    assert!(int_dist_eq(&int_dist_add(&n(5), &n(3), &fac), &n(0), &fac).is_true());
    assert!(int_dist_eq(&int_dist_sub(&n(2), &n(3), &fac), &n(7), &fac).is_true());
    assert!(int_dist_lt(&n(2), &n(3), &fac).is_true());
    assert!(int_dist_lt(&n(3), &n(3), &fac).is_false());
    assert!(int_dist_eq(&n(1), &n(2), &fac).is_false());
}

#[test]
fn open_integers_are_enumerated() {
    let mut fac = Factorizer::new();
    let (_, x) = fac.new_var_at_position(0, true);
    let open = IntDist::new(vec![BooleanFunction::true_ptr(), x.clone()]);
    let all = enumerate_int_dist(&open, &BooleanFunction::true_ptr(), &fac);
    assert_eq!(all.len(), 2);
    for (bits, guard) in &all {
        assert!(bits[0]);
        assert!(guard.same(&if bits[1] { x.clone() } else { fac.negate(&x) }));
    }
}

#[test]
fn sticks_part_the_worlds() {
    let mut fac = Factorizer::new();
    let (_, x) = fac.new_var_at_position(0, true);
    let (_, y) = fac.new_var_at_position(1, true);
    let guards = build_stick_breaking_guards(&vec![x, y], &fac);
    assert_eq!(guards.len(), 3);
    let mut any = BooleanFunction::false_ptr();
    for i in 0..3 {
        for j in 0..i {
            assert!(fac.and(&guards[i], &guards[j]).is_false());
        }
        any = fac.or(&any, &guards[i]);
    }
    assert!(any.is_true());
}

#[test]
fn one_place_has_one_variable_per_event() {
    let mut s = state();
    let a = s.current_address(f(0.5));
    let b = s.current_address(f(0.5));
    let c = s.current_address(f(0.25));
    assert!(a.same(&b));
    assert!(!a.same(&c));
    s.callstack.push(1);
    let d = s.current_address(f(0.5));
    assert!(!a.same(&d));
    assert_eq!(s.choices.len(), 3);
    let e = s.with_callstack_index(4, FlipWeight::Constant(f(0.5)));
    assert!(!e.same(&d));
    assert_eq!(s.callstack.to_vec(), vec![1]);
}

#[test]
fn one_place_has_one_name_per_prior() {
    let mut s = state();
    let prior = || Prior::Beta { a: f(1.0), b: f(1.0) };
    let a = s.current_continuous_name(prior());
    assert_eq!(s.current_continuous_name(prior()), a);
    let other = Prior::Beta { a: f(2.0), b: f(1.0) };
    assert_ne!(s.current_continuous_name(other), a);
    // Another family with the same parameters is another variable.
    let b = s.current_continuous_name(Prior::Gamma { shape: f(1.0), rate: f(1.0) });
    assert_ne!(b, a);
    assert_eq!(s.priors.len(), 3);
    // Another place has another variable.
    s.callstack.push(1);
    assert_eq!(s.current_continuous_name(prior()), 3);
}

#[test]
fn a_constraint_may_force_a_variable() {
    let mut s = state();
    let a = s.current_address(f(0.5));
    s.callstack.push(1);
    let b = s.current_address(f(0.5));
    let both = s.factorizer.and(&a, &b);
    assert_eq!(s.implies(&both, &a), Some(true));
    assert_eq!(s.implies(&s.factorizer.negate(&a), &a), Some(false));
    assert_eq!(s.implies(&b, &a), None);
}

#[test]
fn flips_of_known_outcome_make_no_choice() {
    let (s, n) = compile("(flip 1.0)");
    assert_eq!((s.choices.len(), n), (0, 1));
    let (s, n) = compile("(flip 0.5)");
    assert_eq!((s.choices.len(), n), (1, 2));
    assert!(matches!(s.choices[0].weight, FlipWeight::Constant(p) if p == f(0.5)));
}

#[test]
fn continuous_flips_know_their_variables() {
    let (s, _) = compile("(flip (beta 2.0 3.0))");
    assert!(matches!(s.priors[0], Prior::Beta { a, b } if a == f(2.0) && b == f(3.0)));
    assert!(matches!(s.choices[0].weight, FlipWeight::Beta(0)));
    let (s, _) = compile("(flip (vector_index (dirichlet 1.0 2.0 3.0) @1))");
    assert!(matches!(
        s.choices[0].weight,
        FlipWeight::Element { name: 0, index: 1, categories: 3 }
    ));
}

#[test]
fn observations_know_their_values() {
    let (s, _) = compile("(prob_eq (beta 1.0 1.0) 0.25)");
    assert!(matches!(s.choices[0].weight, FlipWeight::ProbPin(0, v) if v == f(0.25)));
    assert!(s.choices[0].weight.is_pinned_observation());
    let (s, _) = compile("(real_eq (+. 1.0 (*. 2.0 (gaussian 0.0 1.0))) 3.0)");
    match &s.choices[0].weight {
        FlipWeight::GaussianObs { constant, coefficients, observed } => {
            assert_eq!((*constant, *observed), (f(1.0), f(3.0)));
            assert_eq!(coefficients, &vec![(0, f(2.0))]);
        }
        other => panic!("{:?}", other),
    }
    let (s, _) = compile("(real_lt (exponential (gamma 1.0 2.0)) 3.0)");
    assert!(matches!(
        s.choices[0].weight,
        FlipWeight::ExpInterval { gamma: 0, draw: 1, below: true, bound, .. } if bound == f(3.0)
    ));
    assert!(!s.choices[0].weight.is_pinned_observation());
}

#[test]
fn categories_are_drawn_stick_by_stick() {
    let (s, n) = compile("(categorical (dirichlet 1.0 1.0 1.0))");
    assert_eq!(n, 3);
    assert_eq!(s.choices.len(), 2);
    for c in &s.choices {
        assert!(matches!(c.weight, FlipWeight::Stick { name: 0, .. }));
    }
}

#[test]
fn weights_stand_for_the_support_only() {
    let mut s = state();
    let a = s.current_address_weighted(FlipWeight::Beta(7));
    s.callstack.push(1);
    s.current_address(f(0.5));
    let leaf = |h: u64, t: u64| Leaf { family: Family::Beta, names: vec![7], numbers: vec![h, t] };
    let weights = |_label: u64| (Spn::leaf(leaf(0, 1)), Spn::leaf(leaf(1, 0)));
    // The variable has the value 0.2.
    let at = |l: Leaf| {
        let (h, t) = (l.numbers[0] as f64, l.numbers[1] as f64);
        (h * 0.2f64.ln() + t * 0.8f64.ln()).to_bits()
    };
    let got = edge_log_weights(&s, &a, &weights, &at, &arith);
    assert_eq!(got, vec![(s.choices[0].label, (f(0.8f64.ln()), f(0.2f64.ln())))]);
    // A draw below the weight of the high branch takes it.
    let drawn = |u: f64| sample_discrete_given(&s, &a, &got, &arith, &|_i: usize| f(u.ln()));
    assert!(drawn(0.1).unwrap().same(&a));
}

#[test]
fn open_variables_are_settled_as_drawn() {
    let mut kc = state();
    let x = kc.current_address(f(0.5));
    let zero = kc.with_callstack_index(2, FlipWeight::ProbPin(0, f(0.5)));
    let both = kc.factorizer.or(&x, &zero);
    let mut constraint = BooleanFunction::true_ptr();
    extend_constraint_over(&kc, &mut constraint, &both, &|_w: FlipWeight| true);
    // The coin decides the flip; an event of probability zero does not happen.
    assert_eq!(kc.implies(&constraint, &x), Some(true));
    assert_eq!(kc.implies(&constraint, &zero), Some(false));
    // What is settled stays so.
    extend_constraint_over(&kc, &mut constraint, &both, &|_w: FlipWeight| false);
    assert_eq!(kc.implies(&constraint, &x), Some(true));
}

#[test]
fn joined_worlds_are_possible_and_told_apart() {
    let mut ctx = PluckContext::new();
    let (a, b) = (ctx.interner.intern("A"), ctx.interner.intern("B"));
    let mut fac = Factorizer::new();
    let (_, x) = fac.new_var_at_position(0, true);
    let (_, y) = fac.new_var_at_position(1, true);
    let always = BooleanFunction::true_ptr();
    let (no_x, no_y) = (fac.negate(&x), fac.negate(&y));
    let left = vec![(mk_value(a, vec![]), y.clone()), (mk_value(b, vec![]), no_y)];
    let right = vec![
        (mk_value(a, vec![]), always.clone()),
        (mk_value(b, vec![]), BooleanFunction::false_ptr()),
    ];
    let nested = vec![((left, always.clone()), x.clone()), ((right, always.clone()), no_x.clone())];
    let (worlds, _) = join_monad(nested, always, &fac);
    assert_eq!(worlds.len(), 2);
    // `A` where x and y hold, or x does not.
    let a_guard = fac.or(&fac.and(&x, &y), &no_x);
    assert!(worlds[0].1.same(&a_guard));
    assert!(fac.or(&worlds[0].1, &worlds[1].1).is_true());
}

#[test]
fn variables_have_the_distributions_of_the_program() {
    let (s, _) = compile("(gaussian 1.0 2.0)");
    assert!(matches!(s.priors[..], [Prior::Gaussian { mu, sigma }] if (mu, sigma) == (f(1.0), f(2.0))));
    let (s, _) = compile("(beta 1.0 2.0)");
    assert!(matches!(s.priors[..], [Prior::Beta { a, b }] if (a, b) == (f(1.0), f(2.0))));
    let (s, _) = compile("(gamma 1.0 2.0)");
    assert!(matches!(s.priors[..], [Prior::Gamma { shape, rate }] if (shape, rate) == (f(1.0), f(2.0))));
    let (s, _) = compile("(dirichlet 1.0 2.0 3.0)");
    assert!(matches!(&s.priors[..], [Prior::Dirichlet { alphas }] if *alphas == vec![f(1.0), f(2.0), f(3.0)]));
    let (s, _) = compile("(poisson 2.0)");
    assert!(matches!(
        s.priors[..],
        [Prior::Pinned { value }, Prior::Draw { poisson: true, gamma: 0, scale }]
            if value == f(2.0) && scale == f(1.0)
    ));
    let (s, _) = compile("(exponential (gamma 1.0 2.0))");
    assert!(matches!(
        s.priors[..],
        [Prior::Gamma { .. }, Prior::Draw { poisson: false, gamma: 0, scale }] if scale == f(1.0)
    ));
}

#[test]
fn a_block_has_its_means_and_covariances() {
    let mut s = state();
    let all: Vec<u64> = [1.0, 2.0, 4.0, 0.5, 0.5, 9.0].iter().map(|x| f(*x)).collect();
    s.current_continuous_name(Prior::Pinned { value: f(1.0) });
    let names = s.current_continuous_names(&all, 2);
    assert_eq!(names, vec![1, 2]);
    assert_eq!(s.current_continuous_names(&all, 2), names);
    for n in names {
        assert!(matches!(
            &s.priors[n as usize],
            Prior::Correlated { first: 1, mu_and_cov } if *mu_and_cov == all
        ));
    }
}

#[test]
fn without_a_limit_evaluation_goes_on() {
    assert!(LazyKCConfig::default().max_depth.is_none());
    let kc = LazyKCState::new(LazyKCConfig::default());
    assert_eq!((kc.depth, kc.hit_limit), (0, false));
}

#[test]
fn a_cell_is_found_again() {
    let number = |v: &pluck::language::values::PluckVal| match &**v {
        PluckValue::Native(n) => format!("{:?}", n),
        _ => unreachable!(),
    };
    let (a, b) = (mk_native_int(1), mk_native_int(1));
    let mut st = SampleState::new(BooleanFunction::true_ptr());
    assert!(st.check_cache(&a).is_none());
    st.set_cache(&a, &mk_native_int(5));
    assert_eq!(number(&st.check_cache(&a.clone()).unwrap()), number(&mk_native_int(5)));
    // An equal value in another cell is not the same.
    assert!(st.check_cache(&b).is_none());
    st.set_cache(&b, &mk_native_int(6));
    // A later value takes the place of the earlier one.
    st.set_cache(&a, &mk_native_int(7));
    assert_eq!(st.memo.len(), 2);
    assert_eq!(number(&st.check_cache(&a).unwrap()), number(&mk_native_int(7)));
    assert_eq!(number(&st.check_cache(&b).unwrap()), number(&mk_native_int(6)));
}

#[test]
fn equal_worlds_are_joined() {
    let mut fac = Factorizer::new();
    let (_, x) = fac.new_var_at_position(0, true);
    let not = fac.negate(&x);
    let always = BooleanFunction::true_ptr();
    let (one, zero) = (BooleanFunction::true_ptr(), BooleanFunction::false_ptr());
    let worlds = |n: i64, bit: &BooleanFunction| {
        vec![
            (mk_native_int(n), always.clone()),
            (mk_probability(4), always.clone()),
            (mk_int_dist(vec![bit.clone()]), always.clone()),
        ]
    };
    let join = |n: i64| {
        let nested = vec![
            ((worlds(1, &one), always.clone()), x.clone()),
            ((worlds(n, &zero), always.clone()), not.clone()),
        ];
        join_monad(nested, always.clone(), &fac).0
    };
    assert_eq!(join(1).len(), 3);
    assert!(join(1).iter().all(|w| w.1.is_true()));
    // Different numbers stay apart.
    assert_eq!(join(2).len(), 4);
}

#[test]
fn evaluations_are_counted() {
    let (s, _) = compile("(if (flip 0.5) true false)");
    assert!(s.stats.num_compile_calls >= 2);
}
