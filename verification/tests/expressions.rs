//! Literals, builtin functions and expressions.

use horndb_sparql::algebra::{AggFunc, Aggregate, Expr, Func, Term, TriplePattern, Var};
use horndb_sparql::exec::aggregate::{average, dedup_terms, eval_aggregate};
use horndb_sparql::exec::bindings::{lookup, Bindings};
use horndb_sparql::exec::builtin::{apply_func, cut_text, lang_matches, regex_flags};
use horndb_sparql::exec::expr::{compare_terms, eval_expr, eval_expr_to_term};
use horndb_sparql::exec::literal::{
    bool_typed_literal, escape_ntriples, integer_literal, is_numeric_datatype, lang_literal,
    literal_lexical, literal_parts, plain_literal, term_kind, typed_string_literal,
    unescape_ntriples, TermKind,
};
use horndb_sparql::exec::number::{integer_literal_string, parse_i64, WholeNumbers};
use horndb_sparql::exec::strings::{ebv, is_datetime, str_before_after};
use horndb_sparql::text::Order;

fn lit(s: &str) -> Term {
    Term::Literal(s.to_owned())
}

fn lexical(t: &Term) -> String {
    match t {
        Term::Literal(raw) => literal_lexical(raw),
        _ => panic!("not a literal: {t:?}"),
    }
}

fn plain(s: &str) -> Option<Term> {
    Some(plain_literal(s))
}

fn whole(n: i64) -> Option<Term> {
    Some(integer_literal(n))
}

fn call(f: Func, args: Vec<Option<Term>>) -> Option<Term> {
    apply_func::<WholeNumbers>(f, &args)
}

#[test]
fn escapes_are_undone() {
    for s in ["", "a\"b", "a\\b", "tab\tline\nreturn\r", "\u{8}\u{c}", "é✓"] {
        assert_eq!(unescape_ntriples(&escape_ntriples(s)), s);
    }
    assert_eq!(escape_ntriples("a\"b\\c\n"), "a\\\"b\\\\c\\n");
    assert_eq!(unescape_ntriples("\\u00e9\\U0001F600"), "é😀");
}

#[test]
fn literals_come_apart() {
    let parts = |s: &str| literal_parts(s);
    assert_eq!(parts("\"a\""), ("a".into(), None, None));
    assert_eq!(parts("\"a\"@en"), ("a".into(), Some("en".into()), None));
    assert_eq!(
        parts("\"1\"^^<http://ex/t>"),
        ("1".into(), None, Some("http://ex/t".into()))
    );
    assert_eq!(literal_lexical("\"a\\\"b\"@en"), "a\"b");
    assert_eq!(literal_lexical("bare"), "bare");
    assert_eq!(
        integer_literal_string(-7),
        "\"-7\"^^<http://www.w3.org/2001/XMLSchema#integer>"
    );
    assert_eq!(integer_literal(0), lit("\"0\"^^<http://www.w3.org/2001/XMLSchema#integer>"));
    assert_eq!(lang_literal("a", "en"), lit("\"a\"@en"));
    assert_eq!(
        typed_string_literal("a"),
        lit("\"a\"^^<http://www.w3.org/2001/XMLSchema#string>")
    );
    assert_eq!(
        bool_typed_literal(true),
        lit("\"true\"^^<http://www.w3.org/2001/XMLSchema#boolean>")
    );
    assert!(is_numeric_datatype("http://www.w3.org/2001/XMLSchema#decimal"));
    assert!(!is_numeric_datatype("http://www.w3.org/2001/XMLSchema#string"));
    assert_eq!(parse_i64("+12"), Some(12));
    assert_eq!(parse_i64("-9223372036854775808"), Some(i64::MIN));
    assert_eq!(parse_i64("9223372036854775808"), None);
    assert_eq!(parse_i64(""), None);
}

#[test]
fn kinds_of_terms() {
    assert_eq!(term_kind(&Term::Iri("x".into())), TermKind::Iri);
    assert_eq!(term_kind(&Term::BlankNode("x".into())), TermKind::Blank);
    assert_eq!(term_kind(&lit("\"x\"")), TermKind::Literal);
    assert_eq!(
        term_kind(&Term::Triple(Box::new(TriplePattern {
            subject: Term::Iri("s".into()),
            predicate: Term::Iri("p".into()),
            object: Term::Iri("o".into()),
        }))),
        TermKind::Other
    );
}

#[test]
fn string_functions() {
    let en = |s: &str| Some(lang_literal(s, "en"));
    assert_eq!(call(Func::UCase, vec![en("straße")]), en("STRASSE"));
    assert_eq!(call(Func::LCase, vec![plain("ÀB")]), plain("àb"));
    assert_eq!(call(Func::StrLen, vec![plain("é✓a")]), whole(3));
    assert_eq!(
        call(Func::SubStr, vec![plain("motor"), whole(2), whole(3)]),
        plain("oto")
    );
    assert_eq!(call(Func::SubStr, vec![plain("motor"), whole(4)]), plain("or"));
    assert_eq!(call(Func::SubStr, vec![plain("motor"), whole(9)]), plain(""));
    assert_eq!(cut_text("motor", 1, 2), "ot");
    assert_eq!(
        call(Func::StrBefore, vec![en("a/b"), plain("/")]),
        en("a")
    );
    assert_eq!(call(Func::StrAfter, vec![en("a/b"), plain("/")]), en("b"));
    assert_eq!(call(Func::StrAfter, vec![en("a/b"), plain("x")]), plain(""));
    assert_eq!(
        call(Func::Concat, vec![en("a"), en("b")]),
        en("ab"),
        "a shared language stays"
    );
    assert_eq!(call(Func::Concat, vec![en("a"), plain("b")]), plain("ab"));
    assert_eq!(
        call(Func::Contains, vec![plain("abc"), plain("b")]),
        Some(lit("true"))
    );
    assert_eq!(
        call(Func::StrStarts, vec![plain("abc"), plain("b")]),
        Some(lit("false"))
    );
    assert_eq!(
        call(Func::StrEnds, vec![plain("abc"), plain("bc")]),
        Some(lit("true"))
    );
    assert_eq!(
        call(Func::Str, vec![Some(Term::Iri("http://ex/a".into()))]),
        plain("http://ex/a")
    );
    assert_eq!(call(Func::StrLen, vec![None]), None);
}

#[test]
fn patterns_match_and_replace() {
    let m = |p: &str, flags: Option<&str>| {
        let mut args = vec![plain("Hello\nworld"), plain(p)];
        if let Some(f) = flags {
            args.push(plain(f));
        }
        call(Func::Regex, args)
    };
    assert_eq!(m("^H.*o$", None), Some(lit("false")));
    assert_eq!(m("^H.*o$", Some("m")), Some(lit("true")));
    assert_eq!(m("^h.*d$", Some("is")), Some(lit("true")));
    assert_eq!(m("h e l l o", Some("ix")), Some(lit("true")));
    assert_eq!(m("(", None), None);
    assert_eq!(m("a", Some("q")), None);
    assert_eq!(
        call(
            Func::Replace,
            vec![plain("banana"), plain("(a)(n)"), plain("$2$1")]
        ),
        plain("bnanaa")
    );
    assert_eq!(
        call(
            Func::Replace,
            vec![plain("bAnana"), plain("a"), plain("-"), plain("i")]
        ),
        plain("b-n-n-")
    );
    assert_eq!(call(Func::Replace, vec![plain("a"), plain("["), plain("")]), None);
    assert!(regex_flags("imsx").is_some());
    assert!(regex_flags("g").is_none());
}

#[test]
fn languages_and_datatypes() {
    assert_eq!(
        call(Func::Lang, vec![Some(lang_literal("a", "en-GB"))]),
        plain("en-GB")
    );
    assert_eq!(call(Func::Lang, vec![plain("a")]), plain(""));
    assert_eq!(call(Func::Lang, vec![Some(Term::Iri("a".into()))]), None);
    assert!(lang_matches("en-GB", "EN"));
    assert!(lang_matches("en", "*"));
    assert!(!lang_matches("", "*"));
    assert!(!lang_matches("eng", "en"));
    assert_eq!(
        call(Func::Datatype, vec![Some(lang_literal("a", "en"))]),
        Some(Term::Iri(
            "http://www.w3.org/1999/02/22-rdf-syntax-ns#langString".into()
        ))
    );
    assert_eq!(
        call(Func::Datatype, vec![whole(1)]),
        Some(Term::Iri("http://www.w3.org/2001/XMLSchema#integer".into()))
    );
    assert_eq!(
        call(Func::IsNumeric, vec![whole(1)]),
        Some(lit("true"))
    );
    assert_eq!(
        call(Func::IsIri, vec![Some(Term::Iri("x".into()))]),
        Some(lit("true"))
    );
}

#[test]
fn dates_come_apart() {
    let d = || Some(lit("\"2026-03-04T05:06:07.5Z\"^^<http://www.w3.org/2001/XMLSchema#dateTime>"));
    assert_eq!(call(Func::Year, vec![d()]), whole(2026));
    assert_eq!(call(Func::Month, vec![d()]), whole(3));
    assert_eq!(call(Func::Day, vec![d()]), whole(4));
    assert_eq!(call(Func::Hours, vec![d()]), whole(5));
    assert_eq!(call(Func::Minutes, vec![d()]), whole(6));
    assert!(is_datetime(b"2026-03-04T05:06:07"));
    assert!(!is_datetime(b"2026-03-04"));
    assert_eq!(call(Func::Year, vec![plain("soon")]), None);
}

fn var(n: &str) -> Box<Expr> {
    Box::new(Expr::Term(Term::Var(Var::new(n))))
}

fn num(n: i64) -> Box<Expr> {
    Box::new(Expr::Term(integer_literal(n)))
}

fn row() -> Bindings {
    let mut b = Bindings::new();
    b.set("x".into(), integer_literal(7));
    b.set("s".into(), plain_literal("abc"));
    b.set("e".into(), plain_literal(""));
    b
}

fn value(e: Expr) -> Option<Term> {
    eval_expr_to_term::<WholeNumbers>(&e, &row())
}

fn holds(e: Expr) -> bool {
    eval_expr::<WholeNumbers>(&e, &row())
}

#[test]
fn arithmetic() {
    assert_eq!(value(Expr::Add(var("x"), num(3))), whole(10));
    assert_eq!(value(Expr::Sub(var("x"), num(8))), whole(-1));
    assert_eq!(value(Expr::Mul(var("x"), num(3))), whole(21));
    assert_eq!(value(Expr::Div(num(21), var("x"))), whole(3));
    assert_eq!(value(Expr::Div(num(21), num(0))), None);
    assert_eq!(value(Expr::Neg(var("x"))), whole(-7));
    assert_eq!(value(Expr::Add(var("x"), var("s"))), None);
    assert_eq!(value(Expr::Add(num(i64::MAX), num(1))), None);
}

#[test]
fn comparisons() {
    assert!(holds(Expr::Lt(var("x"), num(10))));
    assert!(holds(Expr::Ge(var("x"), num(7))));
    assert!(holds(Expr::Eq(var("x"), num(7))));
    assert!(holds(Expr::Ne(var("x"), num(8))));
    assert!(!holds(Expr::Eq(var("none"), num(7))));
    assert!(holds(Expr::Bound(Var::new("x"))));
    assert!(!holds(Expr::Bound(Var::new("none"))));
    assert!(holds(Expr::In(var("x"), vec![*num(1), *num(7)])));
    assert!(!holds(Expr::In(var("x"), vec![*num(1)])));
    assert_eq!(
        compare_terms::<WholeNumbers>(&integer_literal(10), &integer_literal(9)),
        Order::Greater,
        "numbers compare by value"
    );
    assert_eq!(
        compare_terms::<WholeNumbers>(&plain_literal("10"), &plain_literal("9x")),
        Order::Less,
        "other values compare as texts"
    );
}

#[test]
fn truth() {
    assert!(holds(*var("s")));
    assert!(!holds(*var("e")));
    assert!(!holds(*var("none")));
    assert!(ebv::<WholeNumbers>(&integer_literal(2)));
    assert!(!ebv::<WholeNumbers>(&integer_literal(0)));
    assert!(holds(Expr::Not(var("e"))));
    assert!(holds(Expr::Or(var("e"), var("s"))));
    assert!(!holds(Expr::And(var("e"), var("s"))));
    assert_eq!(
        value(Expr::If(var("s"), num(1), num(2))),
        whole(1)
    );
    assert_eq!(
        value(Expr::Coalesce(vec![*var("none"), *var("x"), *num(1)])),
        whole(7)
    );
    assert_eq!(value(Expr::Coalesce(vec![*var("none")])), None);
}

#[test]
fn bindings_hold_the_last_value() {
    let mut b = row();
    b.set("x".into(), integer_literal(8));
    assert_eq!(b.get("x"), Some(&integer_literal(8)));
    assert_eq!(b.get("y"), None);
    assert_eq!(lookup(&b, "x"), whole(8));
    assert!(b.same(&b));
    assert!(!b.same(&row()));
}

#[test]
fn aggregates() {
    let rows: Vec<Bindings> = [3, 1, 3]
        .iter()
        .map(|n| {
            let mut b = Bindings::new();
            b.set("v".into(), integer_literal(*n));
            b
        })
        .collect();
    let agg = |func, distinct| {
        let a = Aggregate {
            out: Var::new("o"),
            func,
            distinct,
        };
        eval_aggregate::<WholeNumbers>(&a, &rows)
    };
    assert_eq!(agg(AggFunc::CountStar, false), whole(3));
    assert_eq!(agg(AggFunc::Count(var("v")), true), whole(2));
    assert_eq!(agg(AggFunc::Sum(var("v")), false), whole(7));
    assert_eq!(agg(AggFunc::Sum(var("v")), true), whole(4));
    assert_eq!(agg(AggFunc::Min(var("v")), false), whole(1));
    assert_eq!(agg(AggFunc::Max(var("v")), false), whole(3));
    assert_eq!(agg(AggFunc::Sample(var("v")), false), whole(3));
    assert_eq!(
        agg(
            AggFunc::GroupConcat {
                expr: var("v"),
                separator: "|".into()
            },
            false
        ),
        plain("3|1|3")
    );
    assert_eq!(
        average::<WholeNumbers>(&vec![integer_literal(2), integer_literal(4)]),
        whole(3)
    );
    assert_eq!(average::<WholeNumbers>(&vec![plain_literal("a")]), None);
    assert_eq!(
        dedup_terms(vec![integer_literal(1), integer_literal(2), integer_literal(1)]),
        vec![integer_literal(1), integer_literal(2)]
    );
}

#[test]
fn what_is_before_and_after_a_needle_makes_the_whole() {
    for (hay, needle) in [
        (plain_literal("abcbd"), plain_literal("b")),
        (lang_literal("abcbd", "en"), plain_literal("b")),
        (typed_string_literal("abcbd"), plain_literal("cb")),
        (plain_literal("abc"), plain_literal("")),
    ] {
        let before = str_before_after(&hay, &needle, true).unwrap();
        let after = str_before_after(&hay, &needle, false).unwrap();
        let whole = format!(
            "{}{}{}",
            lexical(&before),
            lexical(&needle),
            lexical(&after)
        );
        assert_eq!(whole, lexical(&hay));
    }
    assert_eq!(
        str_before_after(&lang_literal("abc", "en"), &plain_literal("b"), true),
        Some(lang_literal("a", "en"))
    );
    assert_eq!(
        str_before_after(&plain_literal("abc"), &plain_literal("x"), true),
        plain("")
    );
}
