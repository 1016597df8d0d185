use std::collections::BTreeSet;
use std::rc::Rc;

use pluck::discrete_factorizations::{BooleanFunction, VarId};
use pluck::inference::sampling::GammaDraw;
use pluck::inference::spn::node::{Family, Leaf, Spn};
use pluck::language::types::{StringInterner, TypeRegistry};
use pluck::language::values::{
    mk_dirichlet_probability, mk_exponential, mk_float_matrix, mk_gamma, mk_gamma_scaled,
    mk_gaussian_expr, mk_int_dist, mk_native_bool, mk_native_float, mk_native_int,
    mk_native_symbol, mk_poisson, mk_probability, mk_value, PluckVal,
};
use pluck::results::mixture::{distribution_items, Engine, MixtureItem};
use pluck::results::naming::{NameStyle, NamingScheme, VarNameGenerator};
use pluck::results::packet::PosteriorPacket;
use pluck::results::positions::{collect_variable_positions, gamma_draw_refs, scope_of};
use pluck::results::rendering::{format_value, is_readable};
use pluck::results::summary::{group_by_display, select_groups, SHOW_TOP};
use pluck::utils::decimal::{push_decimal, push_signed, subscript_str};
use pluck::utils::display_precision::{param_precision, weight_precision, KeptPrecision};
use pluck::utils::epsilon::RealEps;
use pluck::utils::reals::RealOp;
use pluck::utils::sorted_vec_by_name::{
    add_to_sorted_by_name, lookup_sorted_by_name, slice_sorted_by_name,
};
use pluck::utils::stats::{count_nodes, KcStats, StageTimes};
use pluck::utils::text::is_text_before;

fn logsumexp(a: f64, b: f64) -> f64 {
    let m = a.max(b);
    if m == f64::NEG_INFINITY {
        m
    } else {
        m + ((a - m).exp() + (b - m).exp()).ln()
    }
}

fn arith(op: RealOp, a: u64, b: u64) -> u64 {
    let (x, y) = (f64::from_bits(a), f64::from_bits(b));
    let r = match op {
        RealOp::Sum => x + y,
        RealOp::Difference => x - y,
        RealOp::Product => x * y,
        RealOp::Quotient => x / y,
        RealOp::OfInt => a as i64 as f64,
        RealOp::LogSum => logsumexp(x, y),
        RealOp::Log => x.ln(),
        RealOp::ToInt => return x as i64 as u64,
    };
    r.to_bits()
}

fn show(b: u64) -> String {
    format!("{}", f64::from_bits(b))
}

struct Session {
    interner: StringInterner,
    types: TypeRegistry,
}

fn session() -> Session {
    let mut interner = StringInterner::new();
    let mut types = TypeRegistry::new();
    types.register_builtins(&mut interner);
    interner.intern("Pair");
    let model = interner.intern("Model");
    let point = interner.intern("Point");
    let fields = vec![interner.intern("bias"), interner.intern("items")];
    let both = interner.intern("a_long_field");
    let short = interner.intern("y");
    types.define_type(model, vec![(model, fields), (point, vec![both, short])]);
    Session { interner, types }
}

impl Session {
    fn value(&self, name: &str, args: Vec<PluckVal>) -> PluckVal {
        mk_value(*self.interner.lookup(name).unwrap(), args)
    }

    fn list(&self, items: Vec<PluckVal>) -> PluckVal {
        let mut out = self.value("Nil", vec![]);
        for v in items.into_iter().rev() {
            out = self.value("Cons", vec![v, out]);
        }
        out
    }

    fn text(&self, v: &PluckVal) -> String {
        assert!(is_readable(v, self.interner.len()));
        format_value(v, &self.interner, None, &show)
    }

    fn named(&self, v: &PluckVal) -> String {
        let found = collect_variable_positions(&vec![(v.clone(), BooleanFunction::True)]);
        let naming = NamingScheme::derive(&found[0], &self.interner, &self.types);
        format_value(v, &self.interner, Some(&naming), &show)
    }
}

fn byte(b: u8) -> PluckVal {
    mk_int_dist(
        (0..8)
            .map(|i| {
                if b >> i & 1 == 1 {
                    BooleanFunction::True
                } else {
                    BooleanFunction::False
                }
            })
            .collect(),
    )
}

#[test]
fn numbers_are_written_in_decimal() {
    let mut s = String::new();
    push_decimal(&mut s, 0);
    push_decimal(&mut s, 1234567890123456789012);
    push_signed(&mut s, -45);
    push_signed(&mut s, i64::MIN);
    assert_eq!(s, "01234567890123456789012-45-9223372036854775808");
}

#[test]
fn subscripts_follow_the_digits() {
    assert_eq!(subscript_str(12), "₁₂");
    assert_eq!(subscript_str(0), "₀");
    assert_eq!(subscript_str(3456789), "₃₄₅₆₇₈₉");
}

#[test]
fn strings_are_ordered_by_their_characters() {
    assert!(is_text_before("", "a"));
    assert!(is_text_before("ab", "b"));
    assert!(is_text_before("z", "λ"));
    assert!(!is_text_before("a", "a"));
    assert!(!is_text_before("b", "ab"));
}

#[test]
fn precision_has_defaults() {
    assert_eq!(param_precision(None), 4);
    assert_eq!(weight_precision(None), 2);
    assert_eq!(param_precision(Some(" 9\n")), 9);
    assert_eq!(weight_precision(Some("+9")), 9);
    for text in ["", " ", "+", "-1", "1_0", "9.0", "nine", "99999999999999999999999"] {
        assert_eq!(text.trim().parse::<usize>().ok(), None);
        assert_eq!((param_precision(Some(text)), weight_precision(Some(text))), (4, 2));
    }
    for text in ["\u{3000}12\u{a0}", "007", "\t0 "] {
        let n = text.trim().parse::<usize>().unwrap();
        assert_eq!((param_precision(Some(text)), weight_precision(Some(text))), (n, n));
    }
    // What is read first stays.
    let mut kept = KeptPrecision::default();
    assert_eq!(kept.weight_precision(Some("7")), 7);
    assert_eq!(kept.param_precision(Some("9")), 7);
    assert_eq!(kept.weight_precision(None), 7);
    let mut kept = KeptPrecision::default();
    assert_eq!((kept.param_precision(None), kept.weight_precision(Some("9"))), (4, 2));
}

#[test]
fn names_run_through_the_letters() {
    let mut gen = VarNameGenerator::new(NameStyle::Gaussian);
    let names: Vec<String> = (0..10).map(|_| gen.next_name()).collect();
    assert_eq!(names[..3], ["x".to_string(), "y".to_string(), "z".to_string()]);
    assert_eq!(names[8..], ["r".to_string(), "x10".to_string()]);
    let mut gen = VarNameGenerator::new(NameStyle::Probability);
    let names: Vec<String> = (0..9).map(|_| gen.next_name()).collect();
    assert_eq!(names[0], "p");
    assert_eq!(names[8], "p9");
    let mut gen = VarNameGenerator::new(NameStyle::Greek);
    let names: Vec<String> = (0..9).map(|_| gen.next_name()).collect();
    assert_eq!(names[0], "λ");
    assert_eq!(names[8], "λ_9");
}

#[test]
fn values_have_texts() {
    let s = session();
    assert_eq!(s.text(&s.value("True", vec![])), "True");
    assert_eq!(s.text(&mk_native_float(2.5f64.to_bits())), "2.5");
    assert_eq!(s.text(&mk_native_bool(true)), "true");
    assert_eq!(s.text(&mk_native_int(42)), "42");
    let nil = *s.interner.lookup("Nil").unwrap();
    assert_eq!(s.text(&mk_native_symbol(nil)), "'Nil");
    let zero = s.value("O", vec![]);
    let two = s.value("S", vec![s.value("S", vec![zero.clone()])]);
    assert_eq!(s.text(&two), "2");
    assert_eq!(s.text(&s.list(vec![])), "[]");
    assert_eq!(s.text(&s.list(vec![zero.clone(), two.clone()])), "[0, 2]");
    let pair = mk_value(*s.interner.lookup("Pair").unwrap(), vec![zero.clone(), two]);
    assert_eq!(s.text(&pair), "(0, 2)");
    let model = s.value("Model", vec![s.value("True", vec![]), zero]);
    assert_eq!(s.text(&model), "(Model True 0)");
}

#[test]
fn bytes_are_strings() {
    let s = session();
    let hello = s.list(b"hi!".iter().map(|b| byte(*b)).collect());
    assert_eq!(s.text(&hello), "\"hi!\"");
    // Bytes that are no text give a replacement character.
    let broken = s.list(vec![byte(0xff)]);
    assert_eq!(s.text(&broken), "\"\u{fffd}\"");
    // Two bytes of one character.
    let accent = s.list("é".bytes().map(byte).collect());
    assert_eq!(s.text(&accent), "\"é\"");
    assert_eq!(s.text(&byte(b'a')), "'a'");
    assert_eq!(s.text(&byte(7)), "@7");
    let open = BooleanFunction::Node {
        var: VarId(0),
        low: Rc::new(BooleanFunction::False),
        high: Rc::new(BooleanFunction::True),
    };
    assert_eq!(s.text(&mk_int_dist(vec![open, BooleanFunction::True])), "IntDist{width=2}");
}

#[test]
fn matrices_have_texts() {
    let s = session();
    let n = |x: f64| mk_native_float(x.to_bits());
    let row = mk_float_matrix(vec![n(1.0), n(2.0)], vec![2]);
    assert_eq!(s.text(&row), "{1, 2}");
    let square = mk_float_matrix(vec![n(1.0), n(2.0), n(3.0), n(4.5)], vec![2, 2]);
    assert_eq!(s.text(&square), "{{1, 2}, {3, 4.5}}");
    let cube = mk_float_matrix(vec![n(1.0)], vec![1, 1, 1]);
    assert_eq!(s.text(&cube), "<FloatMatrix shape=[1, 1, 1]>");
    let short = mk_float_matrix(vec![n(1.0)], vec![2, 2]);
    assert!(!is_readable(&short, s.interner.len()));
    assert!(!is_readable(&mk_value(9999, vec![]), s.interner.len()));
}

#[test]
fn symbolic_values_without_names_show_their_variables() {
    let s = session();
    let one = 1.0f64.to_bits();
    assert_eq!(s.text(&mk_probability(3)), "Beta(#3) [prior]");
    assert_eq!(s.text(&mk_dirichlet_probability(3, 1, 2)), "Dirichlet(#3)[1] [prior]");
    assert_eq!(s.text(&mk_gamma(3)), "Gamma(#3) [prior]");
    assert_eq!(s.text(&mk_gamma_scaled(3, 2.5f64.to_bits())), "2.5 * Gamma(#3) [prior]");
    assert_eq!(s.text(&mk_exponential(3, 4, one)), "Exponential(#4) [prior]");
    assert_eq!(s.text(&mk_poisson(3, 4, one)), "Poisson(#4) [prior]");
    let e = mk_gaussian_expr(0.5f64.to_bits(), vec![(1, one), (2, 3.0f64.to_bits())]);
    assert_eq!(s.text(&e), "GaussianExpr(0.5 + G#1 + 3*G#2)");
    assert_eq!(s.text(&mk_gaussian_expr(0.5f64.to_bits(), vec![])), "0.5");
}

#[test]
fn variables_take_the_names_of_fields_and_lists() {
    let s = session();
    // A short field that nothing else could be named after.
    let model = s.value("Model", vec![mk_probability(1), s.list(vec![])]);
    assert_eq!(s.named(&model), "(Model bias [])");
    // A list in a field names its elements.
    let model = s.value(
        "Model",
        vec![
            s.value("True", vec![]),
            s.list(vec![mk_probability(1), mk_probability(2)]),
        ],
    );
    assert_eq!(s.named(&model), "(Model True [items₀, items₁])");
    // A list of its own gets a letter.
    let list = s.list(vec![mk_probability(1), mk_probability(2), mk_probability(1)]);
    assert_eq!(s.named(&list), "[p₀, p₁, p₀]");
    // A long field name is passed over, and one variable has one name.
    let point = s.value("Point", vec![mk_probability(1), mk_probability(1)]);
    assert_eq!(s.named(&point), "(Point p p)");
    // Families have their own letters.
    let x = mk_gaussian_expr(0, vec![(5, 1.0f64.to_bits())]);
    let pair = s.value("Pair", vec![x, mk_gamma(2)]);
    assert_eq!(s.named(&pair), "(x, λ)");
}

#[test]
fn draws_and_variables_of_a_value_are_collected() {
    let s = session();
    let one = 1.0f64.to_bits();
    let pair = s.value(
        "Pair",
        vec![
            mk_exponential(1, 9, one),
            s.value("Pair", vec![mk_poisson(1, 3, one), mk_poisson(1, 3, one)]),
        ],
    );
    let draws = gamma_draw_refs(&pair);
    assert_eq!(
        draws,
        vec![
            GammaDraw { draw: 3, poisson: true, gamma: 1, scale: one },
            GammaDraw { draw: 9, poisson: false, gamma: 1, scale: one },
        ]
    );
    assert_eq!(scope_of(&pair), [1u64, 3, 9].iter().copied().collect::<BTreeSet<u64>>());
}

fn beta(name: u64, h: u64, t: u64) -> Leaf {
    Leaf { family: Family::Beta, names: vec![name], numbers: vec![h, t] }
}

fn merge(a: Leaf, b: Leaf) -> Option<(Leaf, u64)> {
    let numbers = vec![a.numbers[0] + b.numbers[0], a.numbers[1] + b.numbers[1]];
    Some((Leaf { family: Family::Beta, names: a.names, numbers }, 0))
}

fn ln_factorial(n: u64) -> f64 {
    (1..=n).map(|k| (k as f64).ln()).sum()
}

/// Posteriors under uniform priors.
fn up(l: Leaf, query: &BTreeSet<u64>) -> (Option<Leaf>, RealEps) {
    let (h, t) = (l.numbers[0], l.numbers[1]);
    let log_z = ln_factorial(h) + ln_factorial(t) - ln_factorial(h + t + 1);
    let leaf = query.contains(&l.names[0]).then_some(Leaf {
        family: Family::Beta,
        names: l.names,
        numbers: vec![(1.0 + h as f64).to_bits(), (1.0 + t as f64).to_bits()],
    });
    (leaf, RealEps::from_log(log_z.to_bits(), 0))
}

fn items(s: &Session, worlds: &Vec<(PluckVal, BooleanFunction)>, stats: &mut KcStats) -> Vec<MixtureItem> {
    // Choices 0 and 1 are flips of one coin with an unknown bias.
    let weights = |_label: u64| (Spn::leaf(beta(0, 0, 1)), Spn::leaf(beta(0, 1, 0)));
    let vacuous = |_d: GammaDraw| beta(0, 0, 0);
    let engine = Engine {
        weights: &weights,
        depth: 100,
        merge: &merge,
        vacuous: &vacuous,
        up: &up,
        spell: &show,
        params: &show,
        reals: &arith,
    };
    let priors = vec![Leaf {
        family: Family::Beta,
        names: vec![0],
        numbers: vec![1.0f64.to_bits(), 1.0f64.to_bits()],
    }];
    distribution_items(worlds, &priors, &s.interner, &s.types, &engine, &|| 0u64, stats).unwrap()
}

fn flip(label: u64, low: BooleanFunction, high: BooleanFunction) -> BooleanFunction {
    BooleanFunction::Node { var: VarId(label), low: Rc::new(low), high: Rc::new(high) }
}

#[test]
fn items_are_the_shares_of_the_worlds() {
    let s = session();
    let t = BooleanFunction::True;
    let f = BooleanFunction::False;
    // Both flips agree, or they do not.
    let heads = || flip(1, BooleanFunction::False, BooleanFunction::True);
    let tails = || flip(1, BooleanFunction::True, BooleanFunction::False);
    let worlds = vec![
        (s.value("True", vec![]), flip(0, tails(), heads())),
        (s.value("False", vec![]), flip(0, heads(), tails())),
    ];
    let mut stats = KcStats::new(false);
    let got = items(&s, &worlds, &mut stats);
    assert_eq!(stats.worlds, 0);
    assert_eq!(got.len(), 2);
    assert_eq!(got[0].display, "True");
    // 2 · 2!/3! = 2/3 for agreement.
    assert!((f64::from_bits(got[0].log_probability) - (2.0f64 / 3.0).ln()).abs() < 1e-12);
    assert!((f64::from_bits(got[1].log_probability) - (1.0f64 / 3.0).ln()).abs() < 1e-12);
    let all: f64 = got.iter().map(|i| f64::from_bits(i.log_probability).exp()).sum();
    assert!((all - 1.0).abs() < 1e-12);
    assert!(got[0].posteriors.beta.is_empty());
    // The bias itself: two flips agree on heads or on tails.
    let worlds = vec![(mk_probability(0), flip(0, tails(), heads())), (mk_probability(0), f)];
    let got = items(&s, &worlds, &mut stats);
    assert_eq!(got.len(), 2);
    for item in &got {
        assert_eq!(item.display, "p");
        assert!((f64::from_bits(item.log_probability) - 0.5f64.ln()).abs() < 1e-12);
    }
    assert_eq!(got[0].posteriors.describe(&show), "p ~ Beta(1, 3)\n");
    assert_eq!(got[1].posteriors.describe(&show), "p ~ Beta(3, 1)\n");
    // What nothing is known of has its prior.
    let got = items(&s, &vec![(mk_probability(0), t)], &mut stats);
    assert_eq!(got.len(), 1);
    assert_eq!(got[0].posteriors.describe(&show), "p ~ Beta(1, 1)\n");
    assert_eq!(f64::from_bits(got[0].log_probability), 0.0);
}

#[test]
fn impossible_worlds_have_no_items() {
    let s = session();
    let worlds = vec![(s.value("True", vec![]), BooleanFunction::False)];
    assert!(items(&s, &worlds, &mut KcStats::new(false)).is_empty());
    assert!(items(&s, &vec![], &mut KcStats::new(false)).is_empty());
}

#[test]
fn statistics_count_the_networks() {
    let s = session();
    let guard = flip(0, BooleanFunction::False, BooleanFunction::True);
    assert_eq!(count_nodes(&guard), 1);
    let worlds = vec![(s.value("True", vec![]), guard)];
    let mut stats = KcStats::new(true);
    stats.set_parse(5);
    items(&s, &worlds, &mut stats);
    assert_eq!(stats.worlds, 1);
    assert_eq!(stats.t_parse, 5);
    assert_eq!(stats.bf_sum, 1);
    // The evidence is one leaf.
    assert_eq!((stats.spn_tree_sum, stats.spn_leaf_sum, stats.spn_dag_max), (1, 1, 1));
    assert_eq!(stats.components, 1);
    assert_eq!(stats.mean(7), 7);
    let sum = Spn::sum(&vec![Spn::leaf(beta(1, 1, 0)), Spn::leaf(beta(2, 1, 0))], &arith);
    let times = StageTimes { wmc: 1, posterior: 2, flatten: 3, display: 4 };
    stats.record_world(3, &sum, times, 2);
    assert_eq!((stats.worlds, stats.spn_tree_max, stats.sum_arity_max), (2, 3, 1));
    assert_eq!(stats.spn_dag_all.len(), 4);
    assert_eq!(stats.times.flatten, 3);
    assert_eq!(stats.mean(7), 3);
    let report = stats.report().unwrap();
    assert_eq!(report.worlds, 2);
    assert_eq!(report.guard_nodes, (4, 3, 2));
    assert_eq!(report.dag_nodes, (3, 4));
    assert_eq!(report.components, 3);
    let t = stats.times;
    assert_eq!(report.total, 5 + t.wmc + t.posterior + t.flatten + t.display);
    let mut off = KcStats::new(false);
    off.set_parse(5);
    off.record_world(3, &sum, times, 2);
    assert_eq!((off.t_parse, off.worlds), (0, 0));
    assert!(off.report().is_none());
}

fn item(display: &str, p: f64) -> MixtureItem {
    MixtureItem {
        display: display.to_string(),
        log_probability: p.ln().to_bits(),
        posteriors: PosteriorPacket {
            beta: vec![],
            dirichlet: vec![],
            gamma: vec![],
            gaussian: vec![],
        },
    }
}

#[test]
fn groups_add_up_and_the_tail_is_cut() {
    let mixed = vec![item("b", 0.2), item("a", 0.3), item("b", 0.4), item("c", 0.1)];
    let groups = group_by_display(&mixed, &arith);
    let seen: Vec<&str> = groups.iter().map(|g| g.display.as_str()).collect();
    assert_eq!(seen, vec!["b", "a", "c"]);
    assert_eq!(groups[0].items, vec![0, 2]);
    assert!((f64::from_bits(groups[0].log_probability) - 0.6f64.ln()).abs() < 1e-12);

    let many: Vec<MixtureItem> = (0..SHOW_TOP + 3)
        .map(|i| item(&format!("{:02}", i), if i < SHOW_TOP { 0.05 } else { 1e-9 }))
        .collect();
    let groups = group_by_display(&many, &arith);
    let (shown, hidden, total) = select_groups(&groups, &arith);
    assert_eq!(shown, (0..SHOW_TOP).collect::<Vec<usize>>());
    assert_eq!(hidden, 3);
    assert!((f64::from_bits(total) - 3e-9f64.ln()).abs() < 1e-9);
    // Nothing of probability 0 is shown or counted.
    let (shown, hidden, _) = select_groups(&group_by_display(&vec![item("x", 0.0)], &arith), &arith);
    assert!(shown.is_empty());
    assert_eq!(hidden, 0);
}

#[test]
fn named_items_stay_sorted() {
    let key = |p: &(u64, char)| p.0;
    let mut v: Vec<(u64, char)> = vec![];
    add_to_sorted_by_name(&mut v, (1, 'a'), &key);
    add_to_sorted_by_name(&mut v, (4, 'b'), &key);
    add_to_sorted_by_name(&mut v, (1, 'a'), &key);
    add_to_sorted_by_name(&mut v, (9, 'c'), &key);
    assert_eq!(v, vec![(1, 'a'), (4, 'b'), (9, 'c')]);
    assert_eq!(lookup_sorted_by_name(&v, 4, &key).1, 'b');
    assert_eq!(lookup_sorted_by_name(&v, 9, &key).1, 'c');
    let scope: BTreeSet<u64> = [1u64, 9].iter().copied().collect();
    assert_eq!(slice_sorted_by_name(&v, &scope, &key), vec![(1, 'a'), (9, 'c')]);
}

#[test]
fn equally_probable_items_go_by_their_display() {
    let s = session();
    let heads = || flip(0, BooleanFunction::False, BooleanFunction::True);
    let tails = || flip(0, BooleanFunction::True, BooleanFunction::False);
    let worlds = vec![(s.value("True", vec![]), heads()), (s.value("False", vec![]), tails())];
    let got = items(&s, &worlds, &mut KcStats::new(false));
    assert_eq!(got.iter().map(|i| i.display.as_str()).collect::<Vec<_>>(), vec!["False", "True"]);
    // Worlds that are displayed alike are one item.
    let worlds = vec![(s.value("True", vec![]), heads()), (s.value("True", vec![]), tails())];
    assert_eq!(items(&s, &worlds, &mut KcStats::new(false)).len(), 1);
}
