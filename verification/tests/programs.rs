use std::collections::BTreeSet;

use pluck::inference::forcing::{Forced, Posterior, Samples, Turn};
use pluck::inference::lazy_kc::ctx::CompilerCtx;
use pluck::inference::lazy_kc::state::{FlipWeight, LazyKCConfig, LazyKCState, Prior};
use pluck::inference::sampling::{weight_of, GammaDraw, SampleState};
use pluck::inference::spn::node::{Family, Leaf, Spn};
use pluck::inference::assignment::Assignment;
use pluck::language::parsing::Token;
use pluck::language::tokens::tokenize;
use pluck::language::toplevel::parse_toplevel;
use pluck::language::values::{PluckVal, PluckValue};
use pluck::results::mixture::{distribution_items, Engine, MixtureItem};
use pluck::results::query::{process_query, Answer, GibbsProgress, PluckContext, QueryValue, Request};
use pluck::results::registry::prior_registry;
use pluck::results::rendering::{format_value, is_readable};
use pluck::utils::epsilon::RealEps;
use pluck::utils::reals::RealOp;
use pluck::utils::stats::KcStats;

const TYPES: &str = "
(define-type query (Marginal model) (Posterior model evidence) (PosteriorSamples model evidence n))
(define (given evidence model) (case evidence of True => model))
";

fn arith(op: RealOp, a: u64, b: u64) -> u64 {
    let (x, y) = (f64::from_bits(a), f64::from_bits(b));
    let r = match op {
        RealOp::Sum => x + y,
        RealOp::Difference => x - y,
        RealOp::Product => x * y,
        RealOp::Quotient => x / y,
        RealOp::OfInt => a as i64 as f64,
        RealOp::LogSum => {
            let m = x.max(y);
            if m == f64::NEG_INFINITY {
                m
            } else {
                m + ((x - m).exp() + (y - m).exp()).ln()
            }
        }
        RealOp::Log => x.ln(),
        RealOp::ToInt => return x as i64 as u64,
    };
    r.to_bits()
}

fn covariance(_n: usize, _m: Vec<u64>) -> bool {
    true
}

fn show(b: u64) -> String {
    format!("{}", f64::from_bits(b))
}

fn tokens(source: &str) -> Vec<Token> {
    tokenize(source)
        .unwrap()
        .into_iter()
        .map(|text| {
            let real = text.parse::<f64>().ok().map(|x| x.to_bits());
            Token { text, real }
        })
        .collect()
}

fn beta(name: u64, h: u64, t: u64) -> Leaf {
    Leaf { family: Family::Beta, names: vec![name], numbers: vec![h, t] }
}

fn merge(a: Leaf, b: Leaf) -> Option<(Leaf, u64)> {
    let numbers = vec![a.numbers[0] + b.numbers[0], a.numbers[1] + b.numbers[1]];
    Some((Leaf { family: Family::Beta, names: a.names, numbers }, 0))
}

fn rising(x: f64, n: u64) -> f64 {
    (0..n).map(|i| x + i as f64).product()
}

fn limits(depth: usize) -> LazyKCState {
    LazyKCState::new(LazyKCConfig { max_depth: Some(depth) })
}

/// The last query of a program, answered.
fn run(source: &str) -> Vec<MixtureItem> {
    match run_within(source, 200) {
        Some(items) => items,
        None => panic!("no answer"),
    }
}

fn run_within(source: &str, depth: usize) -> Option<Vec<MixtureItem>> {
    let mut ctx = PluckContext::new();
    let toks = tokens(&format!("{}{}", TYPES, source));
    let (queries, _) =
        parse_toplevel(&toks, &mut ctx.interner, &mut ctx.types, &mut ctx.defs).unwrap();
    let list = ctx.types.find_list_constructors();
    let nat = ctx.types.find_nat_constructors();
    let (t, f) = (ctx.syms.true_sym, ctx.syms.false_sym);
    let query = &queries[queries.len() - 1];

    let mut compiler = CompilerCtx {
        defs: &ctx.defs,
        list,
        nat,
        true_sym: t,
        false_sym: f,
        reals: &arith,
        covariance: &covariance,
        state: limits(depth),
    };
    let val = match compiler.get_query_val(&query.expr) {
        QueryValue::Single(v) => v,
        QueryValue::Many(_) | QueryValue::Limit => return None,
    };
    let state = compiler.state;
    let (state, answer) = match process_query(&val, &ctx.syms) {
        Request::Marginal { model } => {
            let mut compiler = CompilerCtx {
                defs: &ctx.defs,
                list,
                nat,
                true_sym: t,
                false_sym: f,
                reals: &arith,
                covariance: &covariance,
                state,
            };
            let answer = compiler.marginal_worlds(&model, 1000);
            (compiler.state, answer)
        }
        Request::Posterior { model, evidence } => {
            let (expr, env) = ctx.build_given_expr_and_env(&model, &evidence).unwrap();
            let mut compiler = CompilerCtx {
                defs: &ctx.defs,
                list,
                nat,
                true_sym: t,
                false_sym: f,
                reals: &arith,
                covariance: &covariance,
                state,
            };
            let answer = compiler.posterior_worlds(&expr, &env, 1000);
            (compiler.state, answer)
        }
        other => panic!("{:?}", other),
    };
    let worlds: Vec<_> = match answer {
        Answer::Worlds(w) => w,
        Answer::Limit(_) | Answer::Unfinished => return None,
    };
    for w in &worlds {
        assert!(is_readable(&w.0, ctx.interner.len()));
    }
    let priors = prior_registry(&state.priors, &arith);
    let weights = |label: u64| match weight_of(&state, label) {
        FlipWeight::Constant(p) => {
            let p = f64::from_bits(p);
            (Spn::scalar((1.0 - p).ln().to_bits()), Spn::scalar(p.ln().to_bits()))
        }
        FlipWeight::Beta(n) => (Spn::leaf(beta(n, 0, 1)), Spn::leaf(beta(n, 1, 0))),
        other => panic!("{:?}", other),
    };
    let up = |l: Leaf, asked: &BTreeSet<u64>| {
        let (h, t) = (l.numbers[0], l.numbers[1]);
        let (a, b) = match &state.priors[l.names[0] as usize] {
            Prior::Beta { a, b } => (f64::from_bits(*a), f64::from_bits(*b)),
            other => panic!("{:?}", other),
        };
        let z = rising(a, h) * rising(b, t) / rising(a + b, h + t);
        let leaf = asked.contains(&l.names[0]).then_some(Leaf {
            family: Family::Beta,
            names: l.names,
            numbers: vec![(a + h as f64).to_bits(), (b + t as f64).to_bits()],
        });
        (leaf, RealEps::from_log(z.ln().to_bits(), 0))
    };
    let vacuous = |_d: GammaDraw| beta(0, 0, 0);
    let engine = Engine {
        weights: &weights,
        depth: 1000,
        merge: &merge,
        vacuous: &vacuous,
        up: &up,
        spell: &show,
        params: &show,
        reals: &arith,
    };
    distribution_items(
        &worlds,
        &priors,
        &ctx.interner,
        &ctx.types,
        &engine,
        &|| 0u64,
        &mut KcStats::new(false),
    )
}

fn shares(source: &str) -> Vec<(String, f64)> {
    run(source)
        .into_iter()
        .map(|i| (i.display, f64::from_bits(i.log_probability).exp()))
        .collect()
}

fn check(source: &str, want: &[(&str, f64)]) {
    let got = shares(source);
    assert_eq!(got.len(), want.len(), "{:?}", got);
    for (name, p) in want {
        let found = got.iter().find(|g| g.0 == *name);
        match found {
            Some((_, q)) => assert!((p - q).abs() < 1e-9, "{} has {} instead of {}", name, q, p),
            None => panic!("{} is missing from {:?}", name, got),
        }
    }
}

#[test]
fn flips_have_their_probabilities() {
    check("(query (Marginal (flip 0.3)))", &[("True", 0.3), ("False", 0.7)]);
    check("(query (Marginal true))", &[("True", 1.0)]);
}

#[test]
fn a_value_is_drawn_once() {
    check(
        "(query (Marginal (let ((x (flip 0.5))) (if x x (if x false true)))))",
        &[("True", 1.0)],
    );
    // A definition is evaluated anew at each of its uses.
    check(
        "(define coin (flip 0.5)) (query (Marginal (if coin (if coin true false) true)))",
        &[("True", 0.75), ("False", 0.25)],
    );
    // A call is a new draw.
    check(
        "(define (toss p) (flip p)) (query (Marginal (if (toss 0.5) (toss 0.5) false)))",
        &[("True", 0.25), ("False", 0.75)],
    );
}

#[test]
fn evidence_changes_the_shares() {
    check(
        "(query (let ((a (flip 0.5)) (b (flip 0.5))) (Posterior a (if a true b))))",
        &[("True", 2.0 / 3.0), ("False", 1.0 / 3.0)],
    );
    // Impossible evidence leaves nothing.
    check("(query (Posterior true false))", &[]);
}

#[test]
fn numbers_lists_and_matches() {
    check("(query (Marginal (case 3 of O => 0 | S n => n)))", &[("2", 1.0)]);
    check("(query (Marginal [1, (if (flip 0.5) 2 3)]))", &[("[1, 2]", 0.5), ("[1, 3]", 0.5)]);
    check("(query (Marginal \"hi\"))", &[("\"hi\"", 1.0)]);
    check("(query (Marginal (+. 1.5 (*. 2.0 3.0))))", &[("7.5", 1.0)]);
    check(
        "(query (Marginal (int_add (uniform_int @1) (mk_int @1 @1))))",
        &[("@0", 0.5), ("@1", 0.5)],
    );
    check("(query (Marginal (native_eq @3 @3)))", &[("True", 1.0)]);
}

#[test]
fn recursion_terminates_with_its_data() {
    check(
        "(define plus (Y (λ rec a b -> (case a of O => b | S n => (rec n (S b)))))) (query (Marginal (plus 2 3)))",
        &[("5", 1.0)],
    );
    // Without an end there is no answer.
    assert!(run_within("(define loop (Y (λ rec a -> (rec a)))) (query (Marginal (loop 1)))", 50).is_none());
}

#[test]
fn choices_between_alternatives() {
    check(
        "(query (Marginal (discrete (1 0.2) (2 0.3) (3 0.5))))",
        &[("1", 0.2), ("2", 0.3), ("3", 0.5)],
    );
    check("(query (Marginal (uniform 1 2 3 4)))", &[("1", 0.25), ("2", 0.25), ("3", 0.25), ("4", 0.25)]);
}

#[test]
fn unknown_biases_are_learned() {
    let items = run(
        "(query (let ((bias (beta 1.0 1.0))) (Posterior bias (if (flip bias) (flip bias) false))))",
    );
    assert_eq!(items.len(), 1);
    assert_eq!(items[0].display, "p");
    assert_eq!(items[0].posteriors.describe(&show), "p ~ Beta(3, 1)\n");
    check(
        "(query (let ((bias (beta 1.0 1.0)))
            (Posterior (flip bias) (if (flip bias) (flip bias) false))))",
        &[("True", 0.75), ("False", 0.25)],
    );
}

#[test]
fn programs_that_fail_have_no_worlds() {
    check("(query (Marginal (error \"no\")))", &[]);
    check("(query (Marginal (if (flip 0.5) true (error \"no\"))))", &[("True", 1.0)]);
}

#[test]
fn samples_satisfy_the_evidence() {
    let mut ctx = PluckContext::new();
    let source = "(query (let ((a (flip 0.5)) (b (flip 0.5))) (PosteriorSamples [a, b] (if a b false) 2)))";
    let toks = tokens(&format!("{}{}", TYPES, source));
    let (queries, _) =
        parse_toplevel(&toks, &mut ctx.interner, &mut ctx.types, &mut ctx.defs).unwrap();
    let mut compiler = CompilerCtx {
        defs: &ctx.defs,
        list: ctx.types.find_list_constructors(),
        nat: ctx.types.find_nat_constructors(),
        true_sym: ctx.syms.true_sym,
        false_sym: ctx.syms.false_sym,
        reals: &arith,
        covariance: &covariance,
        state: limits(200),
    };
    let val: PluckVal = match compiler.get_query_val(&queries[0].expr) {
        QueryValue::Single(v) => v,
        _ => panic!("no value"),
    };
    assert!(matches!(process_query(&val, &ctx.syms), Request::Samples));
    let args = match &*val {
        PluckValue::Value { args, .. } => args,
        _ => unreachable!(),
    };
    let coin = |_w: FlipWeight| false;
    let ready = compiler.posterior_sample(args, ctx.syms.o_sym, ctx.syms.s_sym, 100, &coin);
    let evidence = match ready {
        Posterior::Ready { evidence, samples } => {
            assert_eq!(samples, 2);
            evidence
        }
        _ => panic!("not ready"),
    };
    let asg = Assignment { beta: vec![], dirichlet: vec![], gamma: vec![], gaussian: vec![] };
    let mut st = SampleState::new(evidence);
    match compiler.force_value(&args[0], &mut st, &asg, 100, &coin) {
        // The coin always falls on false, and yet the evidence holds.
        Forced::Value(v) => assert_eq!(format_value(&v, &ctx.interner, None, &show), "[True, True]"),
        _ => panic!("no sample"),
    }
    // A step of sampling keeps the value, and stops when there are enough.
    let mut samples = Samples::new(2);
    assert_eq!(samples.turn(), Turn::Start);
    assert_eq!(compiler.sample_step(&args[0], &mut st, &asg, 100, &coin, &mut samples), Turn::Start);
    assert_eq!(format_value(&samples.kept[0], &ctx.interner, None, &show), "[True, True]");
    assert_eq!(compiler.sample_step(&args[0], &mut st, &asg, 100, &coin, &mut samples), Turn::Done);
    assert_eq!(samples.kept.len(), 2);
    // The elements stand in the value of the list.
    assert!(matches!(compiler.force_value(&args[0], &mut st, &asg, 1, &coin), Forced::Unfinished));
}

#[test]
fn requests_are_told_apart() {
    let mut ctx = PluckContext::default();
    let marginal = pluck::language::values::mk_value(ctx.syms.marginal_sym, vec![]);
    assert!(matches!(process_query(&marginal, &ctx.syms), Request::Incomplete));
    let gibbs = pluck::language::values::mk_value(ctx.syms.gibbs_sym, vec![marginal.clone(); 5]);
    assert!(matches!(process_query(&gibbs, &ctx.syms), Request::Gibbs));
    let other = pluck::language::values::mk_native_int(1);
    assert!(matches!(process_query(&other, &ctx.syms), Request::NotAQuery));
    // Nothing defines the conditioning.
    assert!(ctx.build_given_expr_and_env(&other, &other).is_none());
}

#[test]
fn progress_is_never_past_its_end() {
    assert_eq!(GibbsProgress::start(0).shown(), None);
    assert_eq!(GibbsProgress::start(5).shown(), Some((0, 5)));
    assert_eq!(GibbsProgress { current: 9, total: 5 }.shown(), Some((5, 5)));
}

#[test]
fn the_last_text_stands_for_a_file() {
    let mut ctx = PluckContext::new();
    assert!(ctx.registered_file("a").is_none());
    ctx.register_file("a".to_string(), "1".to_string());
    ctx.register_file("b".to_string(), "2".to_string());
    ctx.register_file("a".to_string(), "3".to_string());
    assert_eq!(ctx.registered_file("a").unwrap(), "3");
    assert_eq!(ctx.registered_file("b").unwrap(), "2");
}

#[test]
fn a_missing_variable_is_drawn_before_the_sample_goes_on() {
    let ctx = PluckContext::new();
    let mut compiler = CompilerCtx {
        defs: &ctx.defs,
        list: None,
        nat: None,
        true_sym: ctx.syms.true_sym,
        false_sym: ctx.syms.false_sym,
        reals: &arith,
        covariance: &covariance,
        state: limits(200),
    };
    let query = pluck::language::values::mk_probability(3);
    let coin = |_w: FlipWeight| true;
    let mut st = SampleState::new(pluck::discrete_factorizations::BooleanFunction::true_ptr());
    let mut asg = Assignment { beta: vec![], dirichlet: vec![], gamma: vec![], gaussian: vec![] };
    let mut samples = Samples::new(1);
    assert_eq!(compiler.sample_step(&query, &mut st, &asg, 9, &coin, &mut samples), Turn::Draw(3));
    assert!(samples.kept.is_empty());
    asg.beta.push((3, 0.25f64.to_bits()));
    assert_eq!(compiler.sample_step(&query, &mut st, &asg, 9, &coin, &mut samples), Turn::Done);
    assert_eq!(format_value(&samples.kept[0], &ctx.interner, None, &show), "0.25");
}

#[test]
fn worlds_found_before_a_limit_are_kept() {
    let mut ctx = PluckContext::new();
    let source = "(query (Marginal (if (flip 0.5) true false)))";
    let toks = tokens(&format!("{}{}", TYPES, source));
    let (queries, _) =
        parse_toplevel(&toks, &mut ctx.interner, &mut ctx.types, &mut ctx.defs).unwrap();
    let mut compiler = CompilerCtx {
        defs: &ctx.defs,
        list: None,
        nat: None,
        true_sym: ctx.syms.true_sym,
        false_sym: ctx.syms.false_sym,
        reals: &arith,
        covariance: &covariance,
        state: limits(200),
    };
    let val: PluckVal = match compiler.get_query_val(&queries[0].expr) {
        QueryValue::Single(v) => v,
        _ => panic!("no value"),
    };
    let thunk = match &*val {
        PluckValue::Value { args, .. } => args[0].clone(),
        _ => unreachable!(),
    };
    compiler.state.cfg.max_depth = Some(0);
    let bit = compiler.state.current_address(0.5f64.to_bits());
    let not = compiler.state.factorizer.negate(&bit);
    let one = pluck::language::values::mk_native_int(1);
    let worlds = vec![(one, bit), (thunk, not)];
    let full = compiler.infer_full_distribution(worlds, 100);
    assert!(compiler.state.hit_limit);
    assert_eq!(full.resolved.len(), 1);
    assert_eq!(format_value(&full.resolved[0].0, &ctx.interner, None, &show), "1");
    assert_eq!(full.pending.len(), 1);
}

#[test]
fn integers_in_matrices_are_resolved() {
    let ctx = PluckContext::new();
    let mut compiler = CompilerCtx {
        defs: &ctx.defs,
        list: None,
        nat: None,
        true_sym: ctx.syms.true_sym,
        false_sym: ctx.syms.false_sym,
        reals: &arith,
        covariance: &covariance,
        state: limits(200),
    };
    let bit = compiler.state.current_address(0.5f64.to_bits());
    let entry = pluck::language::values::mk_int_dist(vec![bit]);
    let matrix = pluck::language::values::mk_float_matrix(vec![entry], vec![1]);
    let always = pluck::discrete_factorizations::BooleanFunction::true_ptr();
    let full = compiler.infer_full_distribution(vec![(matrix, always)], 100);
    assert_eq!((full.resolved.len(), full.pending.len()), (2, 0));
    for (v, _) in &full.resolved {
        match &**v {
            PluckValue::FloatMatrix { entries, .. } => match &*entries[0] {
                PluckValue::IntDist { bits } => assert!(bits[0].is_true() || bits[0].is_false()),
                _ => unreachable!(),
            },
            _ => unreachable!(),
        }
    }
}

#[test]
fn pins_are_decided_by_the_heads() {
    let mut ctx = PluckContext::new();
    let (a, b) = (ctx.interner.intern("A"), ctx.interner.intern("B"));
    let mut compiler = CompilerCtx {
        defs: &ctx.defs,
        list: None,
        nat: None,
        true_sym: ctx.syms.true_sym,
        false_sym: ctx.syms.false_sym,
        reals: &arith,
        covariance: &covariance,
        state: limits(200),
    };
    let int = pluck::language::values::mk_native_int;
    let value = pluck::language::values::mk_value;
    let always = pluck::discrete_factorizations::BooleanFunction::true_ptr();
    let (same, _) = compiler.pin_value(&int(1), &int(1), &always);
    assert_eq!(same.len(), 1);
    assert!(same[0].1.is_true());
    assert!(compiler.pin_value(&int(1), &int(2), &always).0.is_empty());
    let (x, y) = (value(a, vec![int(1)]), value(b, vec![int(1)]));
    assert!(compiler.pin_value(&x, &y, &always).0.is_empty());
    assert!(compiler.pin_value(&x, &value(a, vec![]), &always).0.is_empty());
    let (held, _) = compiler.pin_value(&x, &x.clone(), &always);
    assert_eq!(held.len(), 1);
    match &*held[0].0 {
        PluckValue::Value { constructor, args } => {
            assert_eq!(*constructor, ctx.syms.true_sym);
            assert!(args.is_empty());
        }
        _ => unreachable!(),
    }
}
