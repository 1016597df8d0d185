use pluck::language::define::DefinitionRegistry;
use pluck::language::grammar::ParseError;
use pluck::language::parsing::Token;
use pluck::language::pexpr::PExpr;
use pluck::language::tokens::{tokenize, TokenError};
use pluck::language::toplevel::{detokenize, find_ending_paren, parse_toplevel, Query};
use pluck::language::types::{StringInterner, TypeRegistry};

fn tokens(source: &str) -> Vec<Token> {
    tokenize(source)
        .unwrap()
        .into_iter()
        .map(|text| {
            let real = text.parse::<f64>().ok().map(|x| x.to_bits());
            Token { text, real }
        })
        .collect()
}

struct Session {
    interner: StringInterner,
    types: TypeRegistry,
    defs: DefinitionRegistry,
}

fn session() -> Session {
    let mut interner = StringInterner::new();
    let mut types = TypeRegistry::new();
    types.register_builtins(&mut interner);
    Session { interner, types, defs: DefinitionRegistry::new() }
}

impl Session {
    fn run(&mut self, source: &str) -> Result<Vec<Query>, ParseError> {
        let toks = tokens(source);
        let r = parse_toplevel(&toks, &mut self.interner, &mut self.types, &mut self.defs);
        r.map(|(queries, waiting)| {
            assert!(waiting.is_none());
            queries
        })
    }
}

fn refused(source: &str) -> ParseError {
    match session().run(source) {
        Ok(_) => panic!("{} was accepted", source),
        Err(e) => e,
    }
}

#[test]
fn comments_and_blanks_are_left_out() {
    assert_eq!(
        tokenize("(f x) ; (g y)\n\t[a,b->c] \"a (b\" -x"),
        Ok(["(", "f", "x", ")", "[", "a", ",", "b", "->", "c", "]", "\"a (b\"", "-x"]
            .iter()
            .map(|s| s.to_string())
            .collect())
    );
    assert_eq!(tokenize(""), Ok(vec![]));
}

#[test]
fn open_strings_and_split_characters_are_refused() {
    assert_eq!(tokenize("(f \"x"), Err(TokenError::Unterminated));
    // U+0105 is C4 85 in UTF-8.
    assert_eq!(tokenize("\u{105}"), Err(TokenError::SplitCharacter));
    assert_eq!(tokenize("λ"), Ok(vec!["λ".to_string()]));
}

#[test]
fn interned_names_resolve() {
    let mut interner = StringInterner::new();
    let a = interner.intern("a");
    let b = interner.intern("b");
    assert_eq!(interner.intern("a"), a);
    assert_ne!(a, b);
    assert_eq!(interner.resolve(b), "b");
    assert_eq!(interner.lookup("b"), Some(&b));
    assert_eq!(interner.lookup("c"), None);
    assert_eq!(interner.len(), 2);
}

#[test]
fn brackets_match() {
    let toks = tokens("(f (g x) y)) z");
    assert_eq!(find_ending_paren(&toks[1..]), 6);
    assert_eq!(detokenize(&toks[..8]), "(f(g x) y)");
}

#[test]
fn definitions_and_queries() {
    let mut s = session();
    let queries = s
        .run("(define-type shape (Dot) (Box w h)) (define (f x y) (Box y x)) (define one 1) (query (f one 2))")
        .unwrap();
    assert_eq!(queries.len(), 1);
    assert_eq!(queries[0].display_str, "(f one 2)");
    let f = *s.interner.lookup("f").unwrap();
    assert!(s.defs.is_defined(f));
    let shape = *s.interner.lookup("Box").unwrap();
    assert_eq!(s.types.constructor_arity(shape), 2);
    assert!(s.types.is_constructor(shape));
    // Definitions of several arguments are nested abstractions.
    let body = s.defs.lookup(f).unwrap();
    assert!(matches!(&*body.expr, PExpr::Abs { body, .. } if matches!(&**body, PExpr::Abs { .. })));
}

#[test]
fn a_query_may_have_a_title() {
    let mut s = session();
    let queries = s.run("(query total 2) (query 3) (query (S 1))").unwrap();
    let titles: Vec<&str> = queries.iter().map(|q| q.display_str.as_str()).collect();
    assert_eq!(titles, vec!["total", "3", "(S 1)"]);
}

#[test]
fn a_file_reference_ends_the_run() {
    let mut s = session();
    let toks = tokens("(define one 1) (include \"a.pluck\") (query one)");
    let (queries, waiting) =
        parse_toplevel(&toks, &mut s.interner, &mut s.types, &mut s.defs).unwrap();
    assert!(queries.is_empty());
    let (path, rest) = waiting.unwrap();
    assert_eq!(path, "a.pluck");
    let (queries, waiting) =
        parse_toplevel(rest, &mut s.interner, &mut s.types, &mut s.defs).unwrap();
    assert_eq!(queries.len(), 1);
    assert!(waiting.is_none());
}

#[test]
fn natural_numbers_are_successors() {
    let mut s = session();
    let q = s.run("(query 2)").unwrap();
    let succ = *s.interner.lookup("S").unwrap();
    match &*q[0].expr {
        PExpr::Construct { constructor, args } => {
            assert_eq!(*constructor, succ);
            assert_eq!(args.len(), 1);
        }
        other => panic!("{:?}", other),
    }
}

#[test]
fn sugar_is_expanded() {
    let mut s = session();
    let q = s
        .run("(query (if (flip 0.5) 1 2)) (query (let ((x 1) (y x)) y)) (query (λ x, y -> x)) (query 0ca) (query q [1, 2]) (query q {{1.0, 2.0}, {3.0, 4.0}}) (query (case 1 of O => 2 | S n => n))")
        .unwrap();
    let kind = |i: usize| match &*q[i].expr {
        PExpr::CaseOf { branches, .. } => format!("case {}", branches.len()),
        PExpr::App { .. } => "application".to_string(),
        PExpr::Abs { .. } => "abstraction".to_string(),
        PExpr::MkInt { .. } => "integer".to_string(),
        PExpr::Construct { args, .. } => format!("construct {}", args.len()),
        PExpr::FloatMatrix { shape, .. } => format!("matrix {:?}", shape),
        other => format!("{:?}", other),
    };
    assert_eq!(kind(0), "case 2");
    assert_eq!(kind(1), "application");
    assert_eq!(kind(2), "abstraction");
    assert_eq!(kind(3), "integer");
    assert_eq!(kind(4), "construct 2");
    assert_eq!(kind(5), "matrix [2, 2]");
    assert_eq!(kind(6), "case 2");
}

#[test]
fn malformed_programs_are_refused() {
    assert_eq!(refused("(query (flip"), ParseError::UnexpectedEnd);
    assert_eq!(refused("(query (if true 1 2 3))"), ParseError::ExpectedClose);
    assert_eq!(refused("(query (case 1 of (S n) => n))"), ParseError::PatternInParens);
    assert_eq!(refused("(query (flip 0.5 0.5))"), ParseError::WrongArity);
    assert_eq!(refused("(query (S))"), ParseError::WrongArity);
    assert_eq!(refused("(query S)"), ParseError::MissingArguments);
    assert_eq!(refused("(query 99999999999999999999999)"), ParseError::BadNumber);
    assert_eq!(refused("(query 1.2.3)"), ParseError::BadNumber);
    assert_eq!(refused("(include x)"), ParseError::BadString);
    assert_eq!(refused("(query (discrete x))"), ParseError::ExpectedOpen);
    assert_eq!(refused("(define-type t ())"), ParseError::MissingName);
    assert_eq!(refused("(query (uniform))"), ParseError::EmptyChoice);
    assert_eq!(refused("(query q {{{1.0}}})"), ParseError::RowInRow);
    assert_eq!(refused("(query q {})"), ParseError::EmptyMatrix);
    assert_eq!(refused("(query q {{1.0, 2.0}, {3.0}})"), ParseError::RaggedRows);
    assert_eq!(refused("(query q {{1.0}, 2.0})"), ParseError::MixedRows);
    assert_eq!(refused("(query undefined)"), ParseError::UnknownToken);
}

#[test]
fn displayed_tokens_read_back() {
    let source = "(define (f x) ; note\n (case x of (Cons a \"b (c\") => (-> a), Nil => `g~2)) -1.5";
    let toks = tokens(source);
    let again = tokens(&detokenize(&toks));
    let texts: Vec<&String> = toks.iter().map(|t| &t.text).collect();
    assert_eq!(again.iter().map(|t| &t.text).collect::<Vec<_>>(), texts);
}
