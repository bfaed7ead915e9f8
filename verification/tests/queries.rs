//! Queries, run over a store in memory.

use horndb_sparql::algebra::{
    AggFunc, Aggregate, Algebra, DatasetSpec, Expr, GraphScope, GraphSpec, OrderDir, Term,
    TriplePattern, Var,
};
use horndb_sparql::exec::batch::{Batch, Row, Slot};
use horndb_sparql::exec::bindings::Bindings;
use horndb_sparql::exec::expr::eval_expr;
use horndb_sparql::exec::join::bound_join_vars;
use horndb_sparql::exec::literal::integer_literal;
use horndb_sparql::exec::mem::MemStore;
use horndb_sparql::exec::number::{Arith, Numbers, Unary};
use horndb_sparql::exec::refs::referenced_vars;
use horndb_sparql::exec::runtime::{GraphEnv, Runtime};
use horndb_sparql::exec::sort::{top_k_order, SortCol, SortVal};
use horndb_sparql::collections::NameSet;
use horndb_sparql::parser::{parse_query, ParsedQuery};
use horndb_sparql::plan::logical::LogicalPlan;
use horndb_sparql::plan::lower::{lower_algebra, lower_physical};
use horndb_sparql::plan::pass::{CoalesceBgp, LogicalPass, PlanCtx};
use horndb_sparql::plan::passes::filter_pullup::FilterPullup;
use horndb_sparql::plan::passes::filter_pushdown::FilterPushdown;
use horndb_sparql::plan::passes::normalize::Normalize;
use horndb_sparql::plan::passes::projection_pushdown::ProjectionPushdown;
use horndb_sparql::plan::planner;
use horndb_sparql::plan::pushdown::{output_vars, rewrite};
use horndb_sparql::plan::PhysicalPlan;
use horndb_sparql::plan::types::{infer, TypeMask};
use horndb_sparql::text::Order;
use horndb_sparql::DefaultGraphMode;
use spargebra::algebra::{
    AggregateExpression, AggregateFunction, Expression, GraphPattern, OrderExpression,
};
use spargebra::term::{GroundTerm, NamedNodePattern, TermPattern};

// ── Numbers ─────────────────────────────────────────────────────────────────

/// Floating point numbers; integers stay integers under `+`, `-` and `*`.
struct Floats;

const XSD: &str = "http://www.w3.org/2001/XMLSchema#";

impl Numbers for Floats {
    type Num = f64;
    type Typed = (f64, bool);

    fn order_laws(_a: f64, _b: f64, _c: f64) {}

    fn parse(s: &str) -> Option<f64> {
        s.parse().ok()
    }

    fn compare(a: &f64, b: &f64) -> Order {
        if a < b {
            Order::Less
        } else if a > b {
            Order::Greater
        } else {
            Order::Equal
        }
    }

    fn is_unordered(a: &f64) -> bool {
        a.is_nan()
    }

    fn equals_zero(a: &f64) -> bool {
        *a == 0.0
    }

    fn to_nearest(a: &f64) -> i64 {
        a.round() as i64
    }

    fn to_count(a: &f64) -> usize {
        a.round() as usize
    }

    fn show(a: &f64) -> String {
        format!("{a}")
    }

    fn parse_typed(value: &str, datatype: &str) -> Option<(f64, bool)> {
        let kind = datatype.strip_prefix(XSD)?;
        match kind {
            "integer" => value.parse::<i64>().ok().map(|n| (n as f64, true)),
            "decimal" | "double" | "float" => value.parse().ok().map(|x| (x, false)),
            _ => None,
        }
    }

    fn from_integer(n: i64) -> (f64, bool) {
        (n as f64, true)
    }

    fn apply_binary(op: Arith, a: (f64, bool), b: (f64, bool)) -> Option<(f64, bool)> {
        let whole = a.1 && b.1;
        match op {
            Arith::Plus => Some((a.0 + b.0, whole)),
            Arith::Minus => Some((a.0 - b.0, whole)),
            Arith::Times => Some((a.0 * b.0, whole)),
            Arith::Over => {
                if b.0 == 0.0 {
                    None
                } else {
                    Some((a.0 / b.0, false))
                }
            }
        }
    }

    fn apply_unary(op: Unary, a: (f64, bool)) -> Option<(f64, bool)> {
        let x = match op {
            Unary::Negate => -a.0,
            Unary::Abs => a.0.abs(),
            Unary::Ceil => a.0.ceil(),
            Unary::Floor => a.0.floor(),
            Unary::Round => a.0.round(),
        };
        Some((x, a.1))
    }

    fn to_literal(a: (f64, bool)) -> String {
        if a.1 {
            format!("\"{}\"^^<{XSD}integer>", a.0 as i64)
        } else {
            format!("\"{}\"^^<{XSD}decimal>", a.0)
        }
    }
}

type Mem = MemStore<Floats>;

fn insert(st: &mut Mem, s: Term, p: Term, o: Term) {
    st.insert_quad((None, s, p, o));
}

fn iri(s: &str) -> Term {
    Term::Iri(format!("http://ex/{s}"))
}

// ── From parsed queries to the algebra ──────────────────────────────────────

fn var_of(v: &spargebra::term::Variable) -> Var {
    Var::new(v.as_str())
}

fn term_of(t: &TermPattern) -> Term {
    match t {
        TermPattern::NamedNode(n) => Term::Iri(n.as_str().to_owned()),
        TermPattern::BlankNode(b) => Term::Var(Var::new(&format!("?bn_{}", b.as_str()))),
        TermPattern::Literal(l) => Term::Literal(l.to_string()),
        TermPattern::Variable(v) => Term::Var(var_of(v)),
        TermPattern::Triple(_) => panic!("no triple terms here"),
    }
}

fn name_of(n: &NamedNodePattern) -> Term {
    match n {
        NamedNodePattern::NamedNode(n) => Term::Iri(n.as_str().to_owned()),
        NamedNodePattern::Variable(v) => Term::Var(var_of(v)),
    }
}

fn expr_of(e: &Expression) -> Expr {
    let bx = |e: &Expression| Box::new(expr_of(e));
    match e {
        Expression::NamedNode(n) => Expr::Term(Term::Iri(n.as_str().to_owned())),
        Expression::Literal(l) => Expr::Term(Term::Literal(l.to_string())),
        Expression::Variable(v) => Expr::Term(Term::Var(var_of(v))),
        Expression::Or(a, b) => Expr::Or(bx(a), bx(b)),
        Expression::And(a, b) => Expr::And(bx(a), bx(b)),
        Expression::Equal(a, b) => Expr::Eq(bx(a), bx(b)),
        Expression::SameTerm(a, b) => Expr::SameTerm(bx(a), bx(b)),
        Expression::Greater(a, b) => Expr::Gt(bx(a), bx(b)),
        Expression::GreaterOrEqual(a, b) => Expr::Ge(bx(a), bx(b)),
        Expression::Less(a, b) => Expr::Lt(bx(a), bx(b)),
        Expression::LessOrEqual(a, b) => Expr::Le(bx(a), bx(b)),
        Expression::Add(a, b) => Expr::Add(bx(a), bx(b)),
        Expression::Subtract(a, b) => Expr::Sub(bx(a), bx(b)),
        Expression::Multiply(a, b) => Expr::Mul(bx(a), bx(b)),
        Expression::Divide(a, b) => Expr::Div(bx(a), bx(b)),
        Expression::Not(a) => Expr::Not(bx(a)),
        Expression::Bound(v) => Expr::Bound(var_of(v)),
        other => panic!("no such expression here: {other:?}"),
    }
}

fn aggregate_of(out: &spargebra::term::Variable, a: &AggregateExpression) -> Aggregate {
    let (func, distinct) = match a {
        AggregateExpression::CountSolutions { distinct } => (AggFunc::CountStar, *distinct),
        AggregateExpression::FunctionCall {
            name,
            expr,
            distinct,
        } => {
            let e = Box::new(expr_of(expr));
            let func = match name {
                AggregateFunction::Count => AggFunc::Count(e),
                AggregateFunction::Sum => AggFunc::Sum(e),
                AggregateFunction::Avg => AggFunc::Avg(e),
                AggregateFunction::Min => AggFunc::Min(e),
                AggregateFunction::Max => AggFunc::Max(e),
                AggregateFunction::Sample => AggFunc::Sample(e),
                AggregateFunction::GroupConcat { separator } => AggFunc::GroupConcat {
                    expr: e,
                    separator: separator.clone().unwrap_or_else(|| " ".to_owned()),
                },
                AggregateFunction::Custom(_) => panic!("no custom aggregates here"),
            };
            (func, *distinct)
        }
    };
    Aggregate {
        out: var_of(out),
        func,
        distinct,
    }
}

fn algebra_of(p: &GraphPattern) -> Algebra {
    let bx = |p: &GraphPattern| Box::new(algebra_of(p));
    match p {
        GraphPattern::Bgp { patterns } => Algebra::Bgp {
            patterns: patterns
                .iter()
                .map(|t| TriplePattern {
                    subject: term_of(&t.subject),
                    predicate: name_of(&t.predicate),
                    object: term_of(&t.object),
                })
                .collect(),
        },
        GraphPattern::Join { left, right } => Algebra::Join {
            left: bx(left),
            right: bx(right),
        },
        GraphPattern::LeftJoin {
            left,
            right,
            expression,
        } => Algebra::LeftJoin {
            left: bx(left),
            right: bx(right),
            expr: expression.as_ref().map(expr_of),
        },
        GraphPattern::Minus { left, right } => Algebra::Minus {
            left: bx(left),
            right: bx(right),
        },
        GraphPattern::Filter { expr, inner } => Algebra::Filter {
            expr: expr_of(expr),
            inner: bx(inner),
        },
        GraphPattern::Union { left, right } => Algebra::Union {
            left: bx(left),
            right: bx(right),
        },
        GraphPattern::Graph { name, inner } => Algebra::Graph {
            name: match name {
                NamedNodePattern::NamedNode(n) => GraphSpec::Iri(n.as_str().to_owned()),
                NamedNodePattern::Variable(v) => GraphSpec::Var(var_of(v)),
            },
            inner: bx(inner),
        },
        GraphPattern::Extend {
            inner,
            variable,
            expression,
        } => Algebra::Extend {
            inner: bx(inner),
            var: var_of(variable),
            expr: expr_of(expression),
        },
        GraphPattern::Values {
            variables,
            bindings,
        } => Algebra::Values {
            vars: variables.iter().map(var_of).collect(),
            rows: bindings
                .iter()
                .map(|row| {
                    row.iter()
                        .map(|cell| {
                            cell.as_ref().map(|t| match t {
                                GroundTerm::NamedNode(n) => Term::Iri(n.as_str().to_owned()),
                                GroundTerm::Literal(l) => Term::Literal(l.to_string()),
                                GroundTerm::Triple(_) => panic!("no triple terms here"),
                            })
                        })
                        .collect()
                })
                .collect(),
        },
        GraphPattern::OrderBy { inner, expression } => Algebra::OrderBy {
            inner: bx(inner),
            keys: expression
                .iter()
                .map(|k| match k {
                    OrderExpression::Asc(e) => (expr_of(e), OrderDir::Asc),
                    OrderExpression::Desc(e) => (expr_of(e), OrderDir::Desc),
                })
                .collect(),
        },
        GraphPattern::Project { inner, variables } => Algebra::Project {
            vars: variables.iter().map(var_of).collect(),
            inner: bx(inner),
        },
        GraphPattern::Distinct { inner } => Algebra::Distinct { inner: bx(inner) },
        GraphPattern::Slice {
            inner,
            start,
            length,
        } => Algebra::Slice {
            inner: bx(inner),
            start: *start,
            length: *length,
        },
        GraphPattern::Group {
            inner,
            variables,
            aggregates,
        } => Algebra::Group {
            inner: bx(inner),
            keys: variables.iter().map(var_of).collect(),
            aggregates: aggregates
                .iter()
                .map(|(v, a)| aggregate_of(v, a))
                .collect(),
        },
        other => panic!("no such pattern here: {other:?}"),
    }
}

fn plan_select(q: &str) -> PhysicalPlan {
    let parsed = parse_query(q).expect("query parse failed");
    let inner = match parsed {
        ParsedQuery::Select { inner } => inner,
        other => panic!("expected SELECT, got {:?}", other),
    };
    let spargebra::Query::Select { pattern, .. } = &inner else {
        panic!("expected SELECT, got {inner:?}")
    };
    planner::plan(&algebra_of(pattern)).expect("planning failed")
}

fn eval_to_batch(rt: &Runtime<'_, Mem>, plan: &PhysicalPlan) -> Batch {
    rt.eval(plan, &GraphEnv::new()).unwrap()
}

fn col(b: &Batch, name: &str) -> Option<usize> {
    b.schema.iter().position(|v| v.name() == name)
}

// ── Slots ───────────────────────────────────────────────────────────────────

#[test]
fn extend_preserves_id_slots() {
    let mut horn = Mem::new();
    insert(&mut horn, iri("s"), iri("p"), iri("o"));
    let plan = plan_select(
        "SELECT ?s ?x WHERE { ?s <http://ex/p> <http://ex/o> . BIND(<http://ex/c> AS ?x) }",
    );
    let rt = Runtime::new(&horn);
    let batch = eval_to_batch(&rt, &plan);
    assert_eq!(batch.rows.len(), 1, "expected exactly one result row");
    let s_idx = col(&batch, "s").expect("?s must be in output schema");
    assert!(
        matches!(batch.rows[0].0[s_idx], Slot::Id(_)),
        "?s from BGP scan should remain Slot::Id after native Extend; got {:?}",
        batch.rows[0].0[s_idx]
    );
    let x_idx = col(&batch, "x").expect("?x must be in output schema");
    assert!(
        matches!(batch.rows[0].0[x_idx], Slot::Term(_)),
        "?x from BIND should be Slot::Term; got {:?}",
        batch.rows[0].0[x_idx]
    );
}

#[test]
fn distinct_join_over_optional_no_column_mixing() {
    let mut horn = Mem::new();
    insert(&mut horn, iri("s1"), iri("p"), iri("a0"));
    insert(&mut horn, iri("s1"), iri("opt"), iri("X"));
    insert(&mut horn, iri("s2"), iri("p"), iri("a0"));
    insert(&mut horn, iri("X"), iri("r"), iri("o1"));
    let q = "SELECT DISTINCT ?v WHERE { \
        ?a <http://ex/p> ?a0 . \
        OPTIONAL { ?a <http://ex/opt> ?v } \
        ?v <http://ex/r> ?o }";
    let plan = plan_select(q);
    let got: Vec<Bindings> = Runtime::new(&horn).run(&plan).unwrap();
    assert_eq!(
        got.len(),
        1,
        "DISTINCT must deduplicate: got {} rows, want 1\nrows: {got:?}",
        got.len()
    );
    let v = got[0].get("v").expect("?v must be bound");
    assert_eq!(
        v,
        &Term::Iri("http://ex/X".into()),
        "?v must be <http://ex/X>"
    );
}

fn contains_inner_join(p: &PhysicalPlan) -> bool {
    match p {
        PhysicalPlan::Join { .. } => true,
        PhysicalPlan::LeftJoin { left, right, .. }
        | PhysicalPlan::Union { left, right }
        | PhysicalPlan::Minus { left, right } => {
            contains_inner_join(left) || contains_inner_join(right)
        }
        PhysicalPlan::Filter { inner, .. }
        | PhysicalPlan::Project { inner, .. }
        | PhysicalPlan::Distinct { inner }
        | PhysicalPlan::Slice { inner, .. }
        | PhysicalPlan::OrderBy { inner, .. }
        | PhysicalPlan::Extend { inner, .. }
        | PhysicalPlan::PerGraph { inner, .. }
        | PhysicalPlan::Group { inner, .. } => contains_inner_join(inner),
        PhysicalPlan::PathClosure { edge, .. } => contains_inner_join(edge),
        PhysicalPlan::BgpScan { .. }
        | PhysicalPlan::CountScan { .. }
        | PhysicalPlan::GroupCountScan { .. }
        | PhysicalPlan::Values { .. } => false,
    }
}

#[test]
fn inner_join_multi_row_shared_var() {
    let mut horn = Mem::new();
    insert(&mut horn, iri("s1"), iri("p"), iri("o1"));
    insert(&mut horn, iri("s2"), iri("p"), iri("o2"));
    insert(&mut horn, iri("s3"), iri("p"), iri("o3"));
    insert(&mut horn, iri("o1"), iri("q"), iri("a1"));
    insert(&mut horn, iri("o1"), iri("q"), iri("a2"));
    insert(&mut horn, iri("o2"), iri("q"), iri("b1"));
    let q = "SELECT ?s ?o2 WHERE { \
        ?s <http://ex/p> ?o . \
        { SELECT ?o ?o2 WHERE { ?o <http://ex/q> ?o2 } } }";
    let plan = plan_select(q);
    assert!(
        contains_inner_join(&plan),
        "test must exercise the inner Join arm; plan: {plan:?}"
    );
    let got: Vec<Bindings> = Runtime::new(&horn).run(&plan).unwrap();
    let mut pairs: Vec<(String, String)> = got
        .iter()
        .map(|b| {
            let s = match b.get("s").expect("?s bound") {
                Term::Iri(i) => i.clone(),
                other => panic!("?s not IRI: {other:?}"),
            };
            let o2 = match b.get("o2").expect("?o2 bound") {
                Term::Iri(i) => i.clone(),
                other => panic!("?o2 not IRI: {other:?}"),
            };
            (s, o2)
        })
        .collect();
    pairs.sort();
    let want = vec![
        ("http://ex/s1".to_string(), "http://ex/a1".to_string()),
        ("http://ex/s1".to_string(), "http://ex/a2".to_string()),
        ("http://ex/s2".to_string(), "http://ex/b1".to_string()),
    ];
    assert_eq!(pairs, want, "inner join result multiset mismatch");
}

#[test]
fn distinct_union_mixed_provenance_no_column_mixing() {
    let mut horn = Mem::new();
    insert(&mut horn, iri("v1"), iri("p"), iri("o1"));
    insert(&mut horn, iri("v1"), iri("q"), iri("z1"));
    let q = "SELECT DISTINCT ?v WHERE { \
        { ?v <http://ex/p> ?o } \
        UNION \
        { ?v <http://ex/p> ?o OPTIONAL { ?v <http://ex/q> ?z } } }";
    let plan = plan_select(q);
    let got: Vec<Bindings> = Runtime::new(&horn).run(&plan).unwrap();
    assert_eq!(
        got.len(),
        1,
        "DISTINCT over mixed-provenance UNION must deduplicate: got {} rows, want 1\nrows: {got:?}",
        got.len()
    );
    let v = got[0].get("v").expect("?v must be bound");
    assert_eq!(
        v,
        &Term::Iri("http://ex/v1".into()),
        "?v must be <http://ex/v1>"
    );
}

#[test]
fn join_key_canonicalizes_across_provenance() {
    let mut horn = Mem::new();
    insert(&mut horn, iri("s1"), iri("p"), iri("o1"));
    insert(&mut horn, iri("s2"), iri("p"), iri("o2"));
    let q = "SELECT ?v WHERE { \
        ?v <http://ex/p> ?o . \
        VALUES ?v { <http://ex/s1> } }";
    let plan = plan_select(q);
    let got: Vec<Bindings> = Runtime::new(&horn).run(&plan).unwrap();
    assert_eq!(
        got.len(),
        1,
        "cross-provenance join must match on ?v: got {} rows, want 1\nrows: {got:?}",
        got.len()
    );
    assert_eq!(
        got[0].get("v"),
        Some(&Term::Iri("http://ex/s1".into())),
        "?v must be <http://ex/s1>"
    );
}

#[test]
fn order_by_preserves_id_slots() {
    let mut horn = Mem::new();
    insert(&mut horn, iri("s1"), iri("p"), iri("b"));
    insert(&mut horn, iri("s2"), iri("p"), iri("a"));
    let plan = plan_select("SELECT ?s ?o WHERE { ?s <http://ex/p> ?o } ORDER BY ?o");
    let rt = Runtime::new(&horn);
    let batch = eval_to_batch(&rt, &plan);
    assert_eq!(batch.rows.len(), 2, "expected two result rows");
    let s_idx = col(&batch, "s").expect("?s must be in output schema");
    let o_idx = col(&batch, "o").expect("?o must be in output schema");
    for (i, row) in batch.rows.iter().enumerate() {
        assert!(
            matches!(row.0[s_idx], Slot::Id(_)),
            "row {i}: ?s from BGP scan should remain Slot::Id after OrderBy; \
             got {:?}",
            row.0[s_idx]
        );
        assert!(
            matches!(row.0[o_idx], Slot::Id(_)),
            "row {i}: ?o (order key, BGP scan) should remain Slot::Id after OrderBy; \
             got {:?}",
            row.0[o_idx]
        );
    }
}

#[test]
fn order_by_multi_key_and_unbound() {
    let mut horn = Mem::new();
    insert(&mut horn, iri("s1"), iri("p1"), iri("o1"));
    insert(&mut horn, iri("s2"), iri("p2"), iri("o1"));
    insert(&mut horn, iri("s3"), iri("p1"), iri("o2"));
    let plan = plan_select("SELECT ?s ?p ?o WHERE { ?s ?p ?o } ORDER BY DESC(?p) ASC(?o)");
    let got: Vec<Bindings> = Runtime::new(&horn).run(&plan).unwrap();
    let triple = |b: &Bindings| {
        (
            b.get("s").cloned(),
            b.get("p").cloned(),
            b.get("o").cloned(),
        )
    };
    let expected = vec![
        (Some(iri("s2")), Some(iri("p2")), Some(iri("o1"))),
        (Some(iri("s1")), Some(iri("p1")), Some(iri("o1"))),
        (Some(iri("s3")), Some(iri("p1")), Some(iri("o2"))),
    ];
    assert_eq!(
        got.iter().map(triple).collect::<Vec<_>>(),
        expected,
        "ORDER BY DESC(?p) ASC(?o) produced the wrong order"
    );

    let mut horn2 = Mem::new();
    insert(&mut horn2, iri("s1"), iri("p1"), iri("o1"));
    insert(&mut horn2, iri("s1"), iri("p2"), iri("e1"));
    insert(&mut horn2, iri("s3"), iri("p1"), iri("o2"));
    let plan2 = plan_select(
        "SELECT ?s ?extra WHERE { \
         ?s <http://ex/p1> ?o \
         OPTIONAL { ?s <http://ex/p2> ?extra } \
         } ORDER BY ?extra",
    );
    let got2: Vec<Bindings> = Runtime::new(&horn2).run(&plan2).unwrap();
    let pair = |b: &Bindings| (b.get("s").cloned(), b.get("extra").cloned());
    let expected2 = vec![
        (Some(iri("s3")), None),
        (Some(iri("s1")), Some(iri("e1"))),
    ];
    assert_eq!(
        got2.iter().map(pair).collect::<Vec<_>>(),
        expected2,
        "ORDER BY over an unbound key must sort the unbound row first"
    );
}

#[test]
fn left_join_preserves_id_slots_and_unbound() {
    let mut horn = Mem::new();
    insert(&mut horn, iri("s1"), iri("type"), iri("T"));
    insert(&mut horn, iri("s2"), iri("type"), iri("T"));
    insert(&mut horn, iri("s1"), iri("label"), iri("L"));
    let plan = plan_select(
        "SELECT ?s ?l WHERE { \
         ?s <http://ex/type> <http://ex/T> . \
         OPTIONAL { ?s <http://ex/label> ?l } }",
    );
    let rt = Runtime::new(&horn);
    let batch = eval_to_batch(&rt, &plan);
    assert_eq!(batch.rows.len(), 2, "two left rows survive the OPTIONAL");
    let s_idx = col(&batch, "s").expect("?s must be in output schema");
    let l_idx = col(&batch, "l").expect("?l must be in output schema");
    for (i, row) in batch.rows.iter().enumerate() {
        assert!(
            matches!(row.0[s_idx], Slot::Id(_)),
            "row {i}: ?s from BGP scan should remain Slot::Id after native \
             LeftJoin; got {:?}",
            row.0[s_idx]
        );
    }
    let mut matched = 0;
    let mut unbound = 0;
    for row in &batch.rows {
        match &row.0[l_idx] {
            Slot::Id(_) => matched += 1,
            Slot::Unbound => unbound += 1,
            Slot::Term(t) => panic!("?l should be Id or Unbound, got Term({t:?})"),
        }
    }
    assert_eq!((matched, unbound), (1, 1), "one matched, one unmatched");
}

#[test]
fn group_by_count_distinct_star_is_deterministic() {
    let mut horn = Mem::new();
    for (s, p, o) in [
        ("e1", "cat", "A"),
        ("e1", "kind", "x"),
        ("e2", "cat", "A"),
        ("e2", "kind", "x"),
        ("e3", "cat", "A"),
        ("e3", "kind", "y"),
        ("e1", "cat", "A"),
        ("e4", "cat", "B"),
        ("e4", "kind", "x"),
        ("e5", "cat", "B"),
        ("e5", "kind", "y"),
    ] {
        insert(&mut horn, iri(s), iri(p), iri(o));
    }
    let plan = plan_select(
        "SELECT ?c (COUNT(DISTINCT *) AS ?n) WHERE { \
         ?e <http://ex/cat> ?c . ?e <http://ex/kind> ?k } \
         GROUP BY ?c ORDER BY ?c",
    );
    let rows: Vec<_> = Runtime::new(&horn).run(&plan).unwrap();
    assert_eq!(rows.len(), 2, "expected two groups (A and B)");
    let expected = vec![
        (iri("A"), integer_literal(3)),
        (iri("B"), integer_literal(2)),
    ];
    let got: Vec<_> = rows
        .iter()
        .map(|b| {
            (
                b.get("c").cloned().expect("?c must be bound"),
                b.get("n").cloned().expect("?n must be bound"),
            )
        })
        .collect();
    assert_eq!(
        got, expected,
        "GROUP BY ?c ORDER BY ?c with COUNT(DISTINCT *): wrong counts or order"
    );
}

// ── Sorting and slicing ─────────────────────────────────────────────────────

fn ordered_rows(horn: &Mem, q: &str) -> Vec<String> {
    let plan = plan_select(q);
    Runtime::new(horn)
        .run(&plan)
        .unwrap()
        .into_iter()
        .map(|b| format!("{b:?}"))
        .collect()
}

fn assert_slice_matches_full_sort(horn: &Mem, base: &str, windows: &[(usize, usize)]) {
    let full = ordered_rows(horn, base);
    for &(offset, limit) in windows {
        let sliced = ordered_rows(horn, &format!("{base} LIMIT {limit} OFFSET {offset}"));
        let want: Vec<String> = full.iter().skip(offset).take(limit).cloned().collect();
        assert_eq!(
            sliced, want,
            "{base} LIMIT {limit} OFFSET {offset} diverged from the full sort"
        );
    }
}

#[test]
fn top_k_ties_match_full_sort_at_every_window() {
    let mut horn = Mem::new();
    for i in 0..12 {
        insert(
            &mut horn,
            iri(&format!("s{i:02}")),
            iri("k"),
            Term::Literal(format!("\"{}\"", i % 3)),
        );
    }
    let base = "SELECT ?s ?k WHERE { ?s <http://ex/k> ?k } ORDER BY ?k ?s";
    let windows: Vec<(usize, usize)> = (0..=12)
        .flat_map(|o| (0..=13).map(move |l| (o, l)))
        .collect();
    assert_slice_matches_full_sort(&horn, base, &windows);
    let base = "SELECT ?s ?k WHERE { ?s <http://ex/k> ?k } ORDER BY ?k";
    assert_slice_matches_full_sort(&horn, base, &windows);
}

#[test]
fn top_k_desc_numeric_matches_full_sort() {
    let mut horn = Mem::new();
    for (i, v) in [7, 100, 9, 42, 10, 3, 88, 1, 55, 9].iter().enumerate() {
        insert(
            &mut horn,
            iri(&format!("s{i}")),
            iri("amount"),
            Term::Literal(format!(
                "\"{v}\"^^<http://www.w3.org/2001/XMLSchema#integer>"
            )),
        );
    }
    let base = "SELECT ?s ?a WHERE { ?s <http://ex/amount> ?a } ORDER BY DESC(?a)";
    assert_slice_matches_full_sort(&horn, base, &[(0, 1), (0, 3), (2, 3), (5, 5), (0, 20)]);
    let top = ordered_rows(&horn, &format!("{base} LIMIT 3"));
    assert!(
        top[0].contains("100") && top[1].contains("88") && top[2].contains("55"),
        "DESC numeric order wrong: {top:?}"
    );
}

#[test]
fn top_k_mixed_numeric_and_lexical_column_matches_full_sort() {
    let mut horn = Mem::new();
    for (i, v) in ["10", "abc", "9", "zed", "2", "beta"].iter().enumerate() {
        insert(
            &mut horn,
            iri(&format!("s{i}")),
            iri("k"),
            Term::Literal(format!("\"{v}\"")),
        );
    }
    let base = "SELECT ?s ?k WHERE { ?s <http://ex/k> ?k } ORDER BY ?k";
    assert_slice_matches_full_sort(&horn, base, &[(0, 1), (0, 2), (1, 3), (0, 6), (3, 10)]);
}

#[test]
fn top_k_unbound_key_matches_full_sort() {
    let mut horn = Mem::new();
    for i in 0..6 {
        insert(&mut horn, iri(&format!("s{i}")), iri("p"), iri("o"));
    }
    for i in [1, 3, 5] {
        insert(
            &mut horn,
            iri(&format!("s{i}")),
            iri("k"),
            Term::Literal(format!("\"{i}\"")),
        );
    }
    let base = "SELECT ?s ?k WHERE { ?s <http://ex/p> <http://ex/o> \
                OPTIONAL { ?s <http://ex/k> ?k } } ORDER BY ?k ?s";
    assert_slice_matches_full_sort(&horn, base, &[(0, 1), (0, 3), (2, 2), (4, 4), (0, 9)]);
}

#[test]
fn top_k_computed_key_and_distinct_match_full_sort() {
    let mut horn = Mem::new();
    for i in 0..8 {
        insert(
            &mut horn,
            iri(&format!("s{i}")),
            iri("n"),
            Term::Literal(format!(
                "\"{i}\"^^<http://www.w3.org/2001/XMLSchema#integer>"
            )),
        );
    }
    let base = "SELECT ?s ?n WHERE { ?s <http://ex/n> ?n } ORDER BY DESC(?n + 1)";
    assert_slice_matches_full_sort(&horn, base, &[(0, 2), (3, 3), (0, 8)]);

    let mut dup = Mem::new();
    for i in 0..9 {
        insert(
            &mut dup,
            iri(&format!("s{i}")),
            iri("n"),
            Term::Literal(format!("\"{}\"", i % 3)),
        );
    }
    let full = ordered_rows(
        &dup,
        "SELECT DISTINCT ?n WHERE { ?s <http://ex/n> ?n } ORDER BY ?n",
    );
    let limited = ordered_rows(
        &dup,
        "SELECT DISTINCT ?n WHERE { ?s <http://ex/n> ?n } ORDER BY ?n LIMIT 2",
    );
    assert_eq!(limited, full[..2].to_vec(), "DISTINCT + LIMIT lost rows");
}

#[test]
fn top_k_order_handles_zero_n() {
    let cols: Vec<(SortCol<Floats>, OrderDir)> =
        vec![(SortCol::Num(vec![Some(1.0), Some(2.0)]), OrderDir::Asc)];
    assert_eq!(top_k_order(&cols, 2, 0), Vec::<usize>::new());
    assert_eq!(top_k_order(&cols, 2, 1), vec![0]);
}

#[test]
fn sort_col_classify_gates_the_heap() {
    let val = |s: &str| Some(SortVal::<Floats>::of(&Term::Literal(format!("\"{s}\""))));

    let numeric = SortCol::classify(vec![val("1"), None, val("2")]);
    assert!(matches!(numeric, SortCol::Num(_)));
    assert!(numeric.is_total_order());

    let lexical = SortCol::classify(vec![val("abc"), None, val("zed")]);
    assert!(matches!(lexical, SortCol::Lex(_)));
    assert!(lexical.is_total_order());

    let mixed = SortCol::classify(vec![val("10"), val("abc")]);
    assert!(matches!(mixed, SortCol::Mixed(_)));
    assert!(
        !mixed.is_total_order(),
        "a mixed column must refuse the heap"
    );

    let nan = SortCol::classify(vec![val("1"), val("NaN"), val("2")]);
    assert!(matches!(nan, SortCol::Num(_)));
    assert!(
        !nan.is_total_order(),
        "a NaN-carrying numeric column must refuse the heap"
    );
}

#[test]
fn top_k_nan_column_matches_full_sort() {
    let mut horn = Mem::new();
    for (i, v) in ["3", "NaN", "1", "2", "NaN", "5"].iter().enumerate() {
        insert(
            &mut horn,
            iri(&format!("s{i}")),
            iri("k"),
            Term::Literal(format!(
                "\"{v}\"^^<http://www.w3.org/2001/XMLSchema#double>"
            )),
        );
    }
    let base = "SELECT ?s ?k WHERE { ?s <http://ex/k> ?k } ORDER BY ?k";
    assert_slice_matches_full_sort(&horn, base, &[(0, 1), (0, 3), (2, 2), (0, 6), (4, 5)]);
}

#[test]
fn top_k_mixed_asc_desc_multi_key_matches_full_sort() {
    let mut horn = Mem::new();
    for i in 0..9 {
        let s = iri(&format!("s{i}"));
        insert(
            &mut horn,
            s.clone(),
            iri("a"),
            Term::Literal(format!(
                "\"{}\"^^<http://www.w3.org/2001/XMLSchema#integer>",
                i / 3
            )),
        );
        insert(&mut horn, s, iri("b"), Term::Literal(format!("\"b{}\"", i % 2)));
    }
    let base = "SELECT ?s ?a ?b WHERE { ?s <http://ex/a> ?a ; <http://ex/b> ?b } \
                ORDER BY DESC(?a) ASC(?b)";
    let windows: Vec<(usize, usize)> = (0..=9)
        .flat_map(|o| (0..=10).map(move |l| (o, l)))
        .collect();
    assert_slice_matches_full_sort(&horn, base, &windows);
}

// ── Join keys ───────────────────────────────────────────────────────────────

fn batch(schema: &[&str], rows: Vec<Vec<Slot>>) -> Batch {
    Batch {
        schema: schema.iter().map(|s| Var::new(s)).collect(),
        rows: rows.into_iter().map(Row).collect(),
    }
}

fn vars(names: &[&str]) -> Vec<Var> {
    names.iter().map(|n| Var::new(n)).collect()
}

fn names(vs: &[Var]) -> Vec<&str> {
    vs.iter().map(|v| v.name()).collect()
}

#[test]
fn all_unbound_shared_var_is_dropped_from_key() {
    let build = batch(
        &["v", "w", "b"],
        vec![
            vec![Slot::Unbound, Slot::Id(1), Slot::Id(10)],
            vec![Slot::Unbound, Slot::Id(2), Slot::Id(20)],
        ],
    );
    let jvars = bound_join_vars(&vars(&["v", "w"]), &build);
    assert_eq!(names(&jvars), ["w"]);
}

#[test]
fn partially_bound_shared_var_stays_in_key() {
    let build = batch(
        &["v", "w"],
        vec![
            vec![Slot::Unbound, Slot::Id(1)],
            vec![Slot::Id(7), Slot::Id(2)],
        ],
    );
    let jvars = bound_join_vars(&vars(&["v", "w"]), &build);
    assert_eq!(names(&jvars), ["v", "w"]);
}

#[test]
fn non_shared_and_empty_build_yield_expected_keys() {
    let build = batch(&["b"], vec![vec![Slot::Id(1)]]);
    assert!(bound_join_vars(&vars(&["v", "w"]), &build).is_empty());
    let empty = batch(&["v"], vec![]);
    assert!(bound_join_vars(&vars(&["v"]), &empty).is_empty());
}

#[test]
fn term_slots_count_as_bound() {
    let build = batch(
        &["v"],
        vec![vec![Slot::Term(Term::Iri("http://ex/x".into()))]],
    );
    assert_eq!(names(&bound_join_vars(&vars(&["v"]), &build)), ["v"]);
}

// ── Expressions ─────────────────────────────────────────────────────────────

fn bound(name: &str, t: Term) -> Bindings {
    let mut b = Bindings::new();
    b.set(name.to_owned(), t);
    b
}

#[test]
fn sameterm_matches_eq_term_semantics() {
    let iri = Term::Iri("http://ex/a".into());
    let b_hit = bound("x", iri.clone());
    let b_miss = bound("x", Term::Iri("http://ex/b".into()));
    let x = || Box::new(Expr::Term(Term::Var(Var::new("x"))));
    let c = || Box::new(Expr::Term(iri.clone()));
    let same = Expr::SameTerm(x(), c());
    let eq = Expr::Eq(x(), c());
    assert_eq!(
        eval_expr::<Floats>(&same, &b_hit),
        eval_expr::<Floats>(&eq, &b_hit)
    );
    assert_eq!(
        eval_expr::<Floats>(&same, &b_miss),
        eval_expr::<Floats>(&eq, &b_miss)
    );
    assert!(eval_expr::<Floats>(&same, &b_hit));
    assert!(!eval_expr::<Floats>(&same, &b_miss));
}

#[test]
fn sameterm_referenced_vars() {
    let e = Expr::SameTerm(
        Box::new(Expr::Term(Term::Var(Var::new("p")))),
        Box::new(Expr::Term(Term::Var(Var::new("q")))),
    );
    let mut vars = NameSet::new();
    referenced_vars(&e, &mut vars);
    let mut got: Vec<String> = (0..vars.len()).map(|i| vars.item(i).clone()).collect();
    got.sort();
    assert_eq!(got, ["p".to_string(), "q".to_string()]);
}

// ── Rewrites of the physical plan ───────────────────────────────────────────

fn fixture() -> Mem {
    let mut horn = Mem::new();
    let lit = |s: &str| Term::Literal(format!("\"{s}\""));
    insert(&mut horn, iri("a"), iri("name"), lit("Alice"));
    insert(&mut horn, iri("a"), iri("age"), Term::Literal("\"30\"".into()));
    insert(&mut horn, iri("a"), iri("knows"), iri("b"));
    insert(&mut horn, iri("b"), iri("name"), lit("Bob"));
    insert(&mut horn, iri("b"), iri("age"), Term::Literal("\"25\"".into()));
    insert(&mut horn, iri("b"), iri("knows"), iri("c"));
    insert(&mut horn, iri("c"), iri("name"), lit("Carol"));
    insert(&mut horn, iri("c"), iri("knows"), iri("a"));
    insert(&mut horn, iri("d"), iri("name"), lit("Alice"));
    horn
}

fn canon(rows: Vec<Bindings>) -> Vec<String> {
    let mut out: Vec<String> = rows
        .iter()
        .map(|b| {
            let mut cells: Vec<String> = b
                .vars()
                .iter()
                .map(|(k, v)| format!("{k}={v:?}"))
                .collect();
            cells.sort();
            cells.join("\u{1}")
        })
        .collect();
    out.sort();
    out
}

/// Runs a plan as it is, without rewriting it.
fn run_raw(horn: &Mem, plan: &PhysicalPlan) -> Vec<Bindings> {
    let b = Runtime::new(horn).eval(plan, &GraphEnv::new()).unwrap();
    b.rows
        .iter()
        .map(|row| horndb_sparql::exec::decode::decode_row(horn, row, &b.schema).unwrap())
        .collect()
}

#[test]
fn rewrite_is_result_invariant() {
    let horn = fixture();
    let queries = [
        "SELECT * WHERE { ?s <http://ex/name> ?n }",
        "SELECT ?s WHERE { ?s ?p ?o }",
        "SELECT ?n WHERE { ?s <http://ex/knows> ?o . { SELECT ?s ?n WHERE { ?s <http://ex/name> ?n } } }",
        "SELECT ?s WHERE { ?s <http://ex/age> ?age FILTER(?age > \"20\") }",
        "SELECT ?n (COUNT(?s) AS ?c) WHERE { ?s <http://ex/name> ?n } GROUP BY ?n",
        "SELECT (COUNT(*) AS ?c) WHERE { ?s <http://ex/name> ?n }",
        "SELECT (COUNT(DISTINCT *) AS ?c) WHERE { ?s ?p ?o }",
        "SELECT ?n (COUNT(DISTINCT *) AS ?c) WHERE { ?s <http://ex/name> ?n } GROUP BY ?n",
        "SELECT ?s WHERE { ?s <http://ex/age> ?age } ORDER BY ?age",
        "SELECT DISTINCT ?n WHERE { ?s <http://ex/name> ?n }",
        "SELECT ?s WHERE { ?s <http://ex/name> ?n } ORDER BY ?s",
        "SELECT ?s WHERE { ?s <http://ex/name> ?n OPTIONAL { ?s <http://ex/age> ?age } }",
        "SELECT ?s ?age WHERE { ?s <http://ex/name> ?n OPTIONAL { ?s <http://ex/age> ?age } }",
        "SELECT ?x WHERE { { ?x <http://ex/name> ?n } UNION { ?x <http://ex/age> ?age } }",
        "SELECT ?s WHERE { ?s <http://ex/age> ?age BIND(?age AS ?b) }",
        "SELECT ?s WHERE { ?s <http://ex/name> ?n } ORDER BY ?s LIMIT 2 OFFSET 1",
        "SELECT DISTINCT ?n WHERE { ?s <http://ex/knows> ?o . ?s <http://ex/name> ?n }",
    ];
    for q in queries {
        let plan = plan_select(q);
        let with: Vec<Bindings> = Runtime::new(&horn).run(&plan).unwrap();
        let without = run_raw(&horn, &plan);
        assert_eq!(
            canon(with),
            canon(without),
            "rewrite changed results for query:\n{q}\nrewritten plan: {:#?}",
            rewrite(&plan).unwrap()
        );
    }
}

fn scan_is_narrowed_to(p: &PhysicalPlan, want: &[&str]) -> bool {
    match p {
        PhysicalPlan::Project { vars, inner }
            if matches!(**inner, PhysicalPlan::BgpScan { .. }) =>
        {
            let got: Vec<&str> = vars.iter().map(|v| v.name()).collect();
            got == want
        }
        PhysicalPlan::Project { inner, .. }
        | PhysicalPlan::Filter { inner, .. }
        | PhysicalPlan::Distinct { inner }
        | PhysicalPlan::Slice { inner, .. }
        | PhysicalPlan::OrderBy { inner, .. }
        | PhysicalPlan::Extend { inner, .. }
        | PhysicalPlan::Group { inner, .. } => scan_is_narrowed_to(inner, want),
        PhysicalPlan::Join { left, right }
        | PhysicalPlan::LeftJoin { left, right, .. }
        | PhysicalPlan::Union { left, right } => {
            scan_is_narrowed_to(left, want) || scan_is_narrowed_to(right, want)
        }
        _ => false,
    }
}

fn find_bgp_vars(p: &PhysicalPlan, out: &mut Vec<String>) {
    match p {
        PhysicalPlan::BgpScan { .. } => {
            if out.is_empty() {
                *out = output_vars(p).iter().map(|v| v.name().to_owned()).collect();
            }
        }
        PhysicalPlan::Project { inner, .. } => find_bgp_vars(inner, out),
        _ => {}
    }
}

#[test]
fn pruning_narrows_bgp_scan() {
    let plan = plan_select("SELECT ?s WHERE { ?s ?p ?o }");
    let rewritten = rewrite(&plan).unwrap();
    assert!(
        scan_is_narrowed_to(&rewritten, &["s"]),
        "expected the BGP scan to be wrapped in Project([?s]); got {rewritten:#?}"
    );
    let mut bgp_vars = Vec::new();
    find_bgp_vars(&plan, &mut bgp_vars);
    assert_eq!(bgp_vars, vec!["s", "p", "o"]);
}

fn distinct_inner(p: &PhysicalPlan) -> Option<&PhysicalPlan> {
    match p {
        PhysicalPlan::Distinct { inner } => Some(inner),
        PhysicalPlan::Project { inner, .. }
        | PhysicalPlan::Filter { inner, .. }
        | PhysicalPlan::Slice { inner, .. }
        | PhysicalPlan::OrderBy { inner, .. } => distinct_inner(inner),
        _ => None,
    }
}

#[test]
fn distinct_barrier_keeps_full_dedup_key() {
    let mut horn = Mem::new();
    insert(&mut horn, iri("s1"), iri("p1"), iri("o1"));
    insert(&mut horn, iri("s1"), iri("p2"), iri("o2"));
    let var = |n: &str| Term::Var(Var::new(n));
    let bgp = PhysicalPlan::BgpScan {
        patterns: vec![TriplePattern {
            subject: var("s"),
            predicate: var("p"),
            object: var("o"),
        }],
        scope: GraphScope::DefaultGraph,
    };
    let plan = PhysicalPlan::Project {
        vars: vec![Var::new("s")],
        inner: Box::new(PhysicalPlan::Distinct {
            inner: Box::new(bgp),
        }),
    };
    let rewritten = rewrite(&plan).unwrap();
    let inner = distinct_inner(&rewritten).expect("rewritten plan must keep a Distinct");
    let mut inner_out: Vec<String> = output_vars(inner)
        .iter()
        .map(|v| v.name().to_owned())
        .collect();
    inner_out.sort();
    assert_eq!(
        inner_out,
        vec!["o".to_string(), "p".to_string(), "s".to_string()],
        "Distinct's child must keep the full dedup key; got {inner:#?}"
    );
    let with: Vec<Bindings> = Runtime::new(&horn).run(&plan).unwrap();
    let without = run_raw(&horn, &plan);
    assert_eq!(with.len(), 2, "DISTINCT must key on all 3 columns: {with:?}");
    assert_eq!(canon(with), canon(without));
}

fn has_count_scan(p: &PhysicalPlan) -> bool {
    match p {
        PhysicalPlan::CountScan { .. } => true,
        PhysicalPlan::Project { inner, .. }
        | PhysicalPlan::Filter { inner, .. }
        | PhysicalPlan::Distinct { inner }
        | PhysicalPlan::Slice { inner, .. }
        | PhysicalPlan::OrderBy { inner, .. }
        | PhysicalPlan::Extend { inner, .. }
        | PhysicalPlan::PerGraph { inner, .. }
        | PhysicalPlan::Group { inner, .. } => has_count_scan(inner),
        PhysicalPlan::Join { left, right }
        | PhysicalPlan::LeftJoin { left, right, .. }
        | PhysicalPlan::Minus { left, right }
        | PhysicalPlan::Union { left, right } => has_count_scan(left) || has_count_scan(right),
        PhysicalPlan::PathClosure { edge, .. } => has_count_scan(edge),
        PhysicalPlan::BgpScan { .. }
        | PhysicalPlan::GroupCountScan { .. }
        | PhysicalPlan::Values { .. } => false,
    }
}

fn n_triples(n: usize) -> Mem {
    let mut horn = Mem::new();
    for i in 0..n {
        insert(
            &mut horn,
            iri(&format!("s{i}")),
            iri("p"),
            iri(&format!("o{i}")),
        );
    }
    horn
}

fn single_count(rows: &[Bindings]) -> String {
    assert_eq!(rows.len(), 1, "expected exactly one result row: {rows:?}");
    format!("{:?}", rows[0].get("n").expect("?n must be bound"))
}

#[test]
fn count_star_over_bgp_pushes_down_and_counts() {
    let horn = n_triples(7);
    let plan = plan_select("SELECT (COUNT(*) AS ?n) WHERE { ?s <http://ex/p> ?o }");
    let rewritten = rewrite(&plan).unwrap();
    assert!(
        has_count_scan(&rewritten),
        "COUNT(*) over a bare BGP must rewrite to CountScan; got {rewritten:#?}"
    );
    let out: Vec<Bindings> = Runtime::new(&horn).run(&plan).unwrap();
    assert_eq!(single_count(&out), format!("{:?}", integer_literal(7)));
}

#[test]
fn count_var_over_bound_bgp_var_pushes_down_and_counts() {
    let horn = n_triples(5);
    let plan = plan_select("SELECT (COUNT(?s) AS ?n) WHERE { ?s <http://ex/p> ?o }");
    let rewritten = rewrite(&plan).unwrap();
    assert!(
        has_count_scan(&rewritten),
        "COUNT(?s) over a bound BGP var must rewrite to CountScan; got {rewritten:#?}"
    );
    let out: Vec<Bindings> = Runtime::new(&horn).run(&plan).unwrap();
    assert_eq!(single_count(&out), format!("{:?}", integer_literal(5)));
}

#[test]
fn count_pushdown_parity_with_streaming_group() {
    let horn = fixture();
    for q in [
        "SELECT (COUNT(*) AS ?n) WHERE { ?s <http://ex/name> ?o }",
        "SELECT (COUNT(?s) AS ?n) WHERE { ?s <http://ex/knows> ?o }",
        "SELECT (COUNT(*) AS ?n) WHERE { ?s ?p ?o }",
        "SELECT (COUNT(*) AS ?n) WHERE { ?s <http://ex/nope> ?o }",
    ] {
        let plan = plan_select(q);
        let with: Vec<Bindings> = Runtime::new(&horn).run(&plan).unwrap();
        let without = run_raw(&horn, &plan);
        assert_eq!(canon(with), canon(without), "count parity broke for:\n{q}");
    }
}

#[test]
fn scope_guard_keeps_group_and_stays_correct() {
    let horn = fixture();
    let cases = [
        "SELECT (COUNT(DISTINCT ?s) AS ?n) WHERE { ?s <http://ex/name> ?o }",
        "SELECT ?c (COUNT(*) AS ?n) WHERE { ?s <http://ex/name> ?c } GROUP BY ?c",
        "SELECT (COUNT(*) AS ?n) WHERE { ?s <http://ex/age> ?o FILTER(?o > \"20\") }",
        "SELECT (COUNT(*) AS ?n) (COUNT(?o) AS ?m) WHERE { ?s <http://ex/name> ?o }",
        "SELECT (COUNT(?z) AS ?n) WHERE { ?s <http://ex/name> ?o }",
    ];
    for q in cases {
        let plan = plan_select(q);
        let rewritten = rewrite(&plan).unwrap();
        assert!(
            !has_count_scan(&rewritten),
            "scope guard failed — this must stay a Group:\n{q}\ngot {rewritten:#?}"
        );
        let with: Vec<Bindings> = Runtime::new(&horn).run(&plan).unwrap();
        let without = run_raw(&horn, &plan);
        assert_eq!(canon(with), canon(without), "result parity broke for:\n{q}");
    }
}

fn one_pattern() -> Vec<TriplePattern> {
    let var = |n: &str| Term::Var(Var::new(n));
    vec![TriplePattern {
        subject: var("s"),
        predicate: Term::Iri("p".into()),
        object: var("o"),
    }]
}

#[test]
fn count_scan_falls_back_when_count_bgp_is_none() {
    let mut mem = Mem::default();
    for i in 0..4 {
        mem.insert((format!("s{i}"), "p".into(), format!("o{i}")));
    }
    let plan = PhysicalPlan::CountScan {
        patterns: one_pattern(),
        scope: GraphScope::DefaultGraph,
        out_var: Var::new("n"),
    };
    let out: Vec<Bindings> = Runtime::new(&mem).run(&plan).unwrap();
    assert_eq!(
        single_count(&out),
        format!("{:?}", integer_literal(4)),
        "default count_bgp (None) must fall back to scan+len"
    );
}

#[test]
fn group_count_scan_falls_back_when_seam_is_none() {
    let mut mem = Mem::default();
    mem.insert(("s0".into(), "p".into(), "o0".into()));
    mem.insert(("s0".into(), "p".into(), "o1".into()));
    mem.insert(("s1".into(), "p".into(), "o2".into()));
    let plan = PhysicalPlan::GroupCountScan {
        patterns: one_pattern(),
        scope: GraphScope::DefaultGraph,
        keys: vec![Var::new("s")],
        out_vars: vec![Var::new("c")],
    };
    let out: Vec<Bindings> = Runtime::new(&mem).run(&plan).unwrap();
    assert_eq!(out.len(), 2, "one row per group: {out:?}");
    assert_eq!(out[0].get("s"), Some(&Term::Iri("s0".into())));
    assert_eq!(
        format!("{:?}", out[0].get("c").expect("?c bound")),
        format!("{:?}", integer_literal(2))
    );
    assert_eq!(out[1].get("s"), Some(&Term::Iri("s1".into())));
    assert_eq!(
        format!("{:?}", out[1].get("c").expect("?c bound")),
        format!("{:?}", integer_literal(1))
    );
}

#[test]
fn group_count_scan_no_keys_is_implicit_group() {
    let mk_plan = || PhysicalPlan::GroupCountScan {
        patterns: one_pattern(),
        scope: GraphScope::DefaultGraph,
        keys: vec![],
        out_vars: vec![Var::new("n"), Var::new("m")],
    };
    let empty = Mem::default();
    let out: Vec<Bindings> = Runtime::new(&empty).run(&mk_plan()).unwrap();
    assert_eq!(out.len(), 1, "implicit group yields one row: {out:?}");
    for v in ["n", "m"] {
        assert_eq!(
            format!("{:?}", out[0].get(v).expect("count var bound")),
            format!("{:?}", integer_literal(0))
        );
    }
    let mut mem = Mem::default();
    for i in 0..3 {
        mem.insert((format!("s{i}"), "p".into(), format!("o{i}")));
    }
    let out: Vec<Bindings> = Runtime::new(&mem).run(&mk_plan()).unwrap();
    assert_eq!(out.len(), 1);
    for v in ["n", "m"] {
        assert_eq!(
            format!("{:?}", out[0].get(v).expect("count var bound")),
            format!("{:?}", integer_literal(3))
        );
    }
}

#[test]
fn group_count_scan_zero_solutions_with_keys_yields_no_rows() {
    let empty = Mem::default();
    let plan = PhysicalPlan::GroupCountScan {
        patterns: one_pattern(),
        scope: GraphScope::DefaultGraph,
        keys: vec![Var::new("s")],
        out_vars: vec![Var::new("c")],
    };
    let out: Vec<Bindings> = Runtime::new(&empty).run(&plan).unwrap();
    assert!(
        out.is_empty(),
        "keyed grouping of nothing has no groups: {out:?}"
    );
}

// ── Graphs, paths and the rest ──────────────────────────────────────────────

fn in_graph(st: &mut Mem, g: &str, s: &str, p: &str, o: &str) {
    st.insert_quad((Some(format!("http://ex/{g}")), iri(s), iri(p), iri(o)));
}

fn rows(st: &Mem, q: &str, dataset: DatasetSpec, mode: DefaultGraphMode) -> Vec<String> {
    let rt = Runtime::new(st).with_dataset(dataset, mode);
    canon(rt.run(&plan_select(q)).unwrap())
}

fn everything() -> DatasetSpec {
    DatasetSpec::none()
}

#[test]
fn the_default_graph_is_what_the_mode_says() {
    let mut st = Mem::new();
    insert(&mut st, iri("d"), iri("p"), iri("o"));
    in_graph(&mut st, "g", "n", "p", "o");
    in_graph(&mut st, "h", "n", "p", "o");
    st.insert_quad((
        Some("https://horndb.io/graph/feed".into()),
        iri("r"),
        iri("p"),
        iri("o"),
    ));
    let q = "SELECT ?s WHERE { ?s <http://ex/p> <http://ex/o> }";
    let d = "s=Iri(\"http://ex/d\")".to_owned();
    let n = "s=Iri(\"http://ex/n\")".to_owned();
    assert_eq!(
        rows(&st, q, everything(), DefaultGraphMode::Union),
        vec![d.clone(), n.clone()],
        "one triple of two graphs is read once, a reserved one never"
    );
    assert_eq!(rows(&st, q, everything(), DefaultGraphMode::Strict), vec![d]);
    let from = DatasetSpec {
        default: Some(vec!["http://ex/g".into()]),
        named: Some(vec![]),
    };
    assert_eq!(rows(&st, q, from, DefaultGraphMode::Strict), vec![n]);
}

#[test]
fn a_graph_variable_ranges_over_the_named_graphs() {
    let mut st = Mem::new();
    insert(&mut st, iri("d"), iri("p"), iri("o"));
    in_graph(&mut st, "g", "x", "p", "o");
    in_graph(&mut st, "h", "y", "p", "o");
    let q = "SELECT ?g ?s WHERE { GRAPH ?g { ?s <http://ex/p> <http://ex/o> } }";
    let g = "g=Iri(\"http://ex/g\")\u{1}s=Iri(\"http://ex/x\")".to_owned();
    let h = "g=Iri(\"http://ex/h\")\u{1}s=Iri(\"http://ex/y\")".to_owned();
    assert_eq!(
        rows(&st, q, everything(), DefaultGraphMode::Union),
        vec![g, h.clone()]
    );
    let only_h = DatasetSpec {
        default: Some(vec![]),
        named: Some(vec!["http://ex/h".into()]),
    };
    assert_eq!(rows(&st, q, only_h, DefaultGraphMode::Union), vec![h]);
    let named = "SELECT ?s WHERE { GRAPH <http://ex/g> { ?s <http://ex/p> <http://ex/o> } }";
    assert_eq!(
        rows(&st, named, everything(), DefaultGraphMode::Union),
        vec!["s=Iri(\"http://ex/x\")".to_owned()]
    );
}

#[test]
fn a_scan_under_a_loose_graph_variable_is_refused() {
    let st = Mem::new();
    let plan = PhysicalPlan::BgpScan {
        patterns: one_pattern(),
        scope: GraphScope::Named(GraphSpec::Var(Var::new("g"))),
    };
    let err = Runtime::new(&st).run(&plan).unwrap_err();
    assert_eq!(
        format!("{err:?}"),
        "Planner(\"GRAPH ?g reached a scan with no enclosing PerGraph node\")"
    );
}

#[test]
fn minus_removes_what_agrees_on_a_shared_variable() {
    let st = fixture();
    let q = "SELECT ?s WHERE { ?s <http://ex/name> ?n MINUS { ?s <http://ex/age> ?a } }";
    assert_eq!(
        rows(&st, q, everything(), DefaultGraphMode::Union),
        vec![
            "s=Iri(\"http://ex/c\")".to_owned(),
            "s=Iri(\"http://ex/d\")".to_owned()
        ]
    );
    let apart = "SELECT ?s WHERE { ?s <http://ex/name> ?n MINUS { ?x <http://ex/age> ?a } }";
    assert_eq!(
        rows(&st, apart, everything(), DefaultGraphMode::Union).len(),
        4,
        "without a shared variable nothing is removed"
    );
}

#[test]
fn a_path_closure_reaches_every_node() {
    let st = fixture();
    let plan = |reflexive| PhysicalPlan::PathClosure {
        subject: iri("a"),
        object: Term::Var(Var::new("y")),
        edge: Box::new(PhysicalPlan::BgpScan {
            patterns: vec![TriplePattern {
                subject: Term::Var(Var::new("?pp_src")),
                predicate: iri("knows"),
                object: Term::Var(Var::new("?pp_dst")),
            }],
            scope: GraphScope::DefaultGraph,
        }),
        reflexive,
    };
    let reach = |reflexive| canon(Runtime::new(&st).run(&plan(reflexive)).unwrap());
    assert_eq!(
        reach(false),
        vec![
            "y=Iri(\"http://ex/a\")".to_owned(),
            "y=Iri(\"http://ex/b\")".to_owned(),
            "y=Iri(\"http://ex/c\")".to_owned()
        ],
        "the cycle comes back to where it began"
    );
    assert_eq!(reach(true), reach(false));
}

#[test]
fn a_pattern_with_a_repeated_variable_matches_itself() {
    let mut st = Mem::new();
    insert(&mut st, iri("x"), iri("p"), iri("x"));
    insert(&mut st, iri("x"), iri("p"), iri("y"));
    assert_eq!(
        rows(
            &st,
            "SELECT ?v WHERE { ?v <http://ex/p> ?v }",
            everything(),
            DefaultGraphMode::Union
        ),
        vec!["v=Iri(\"http://ex/x\")".to_owned()]
    );
}

#[test]
fn aggregates_over_numbers() {
    let mut st = Mem::new();
    for (i, n) in [1, 2, 3, 3].iter().enumerate() {
        insert(
            &mut st,
            iri(&format!("s{i}")),
            iri("n"),
            Term::Literal(format!("\"{n}\"^^<{XSD}integer>")),
        );
    }
    let one = |q: &str| {
        let out = Runtime::new(&st).run(&plan_select(q)).unwrap();
        assert_eq!(out.len(), 1);
        out[0].get("r").cloned()
    };
    let int = |n: i64| Some(integer_literal(n));
    assert_eq!(one("SELECT (SUM(?n) AS ?r) WHERE { ?s <http://ex/n> ?n }"), int(9));
    assert_eq!(
        one("SELECT (SUM(DISTINCT ?n) AS ?r) WHERE { ?s <http://ex/n> ?n }"),
        int(6)
    );
    assert_eq!(one("SELECT (MIN(?n) AS ?r) WHERE { ?s <http://ex/n> ?n }"), int(1));
    assert_eq!(one("SELECT (MAX(?n) AS ?r) WHERE { ?s <http://ex/n> ?n }"), int(3));
    assert_eq!(
        one("SELECT (AVG(?n) AS ?r) WHERE { ?s <http://ex/n> ?n }"),
        Some(Term::Literal(format!("\"2.25\"^^<{XSD}decimal>")))
    );
    assert_eq!(
        one("SELECT (COUNT(DISTINCT ?n) AS ?r) WHERE { ?s <http://ex/n> ?n }"),
        int(3)
    );
}

#[test]
fn a_stream_gives_the_rows_of_the_run_in_chunks() {
    let st = n_triples(1500);
    let plan = plan_select("SELECT ?s ?o WHERE { ?s <http://ex/p> ?o }");
    let rt = Runtime::new(&st);
    let whole = rt.run(&plan).unwrap();
    let mut stream = rt.run_stream(&plan).unwrap();
    let mut sizes = Vec::new();
    let mut all = Vec::new();
    while let Some(chunk) = stream.next_chunk().unwrap() {
        sizes.push(chunk.len());
        all.extend(chunk);
    }
    assert_eq!(sizes, vec![1024, 476]);
    assert_eq!(format!("{whole:?}"), format!("{all:?}"));
    let mut stream = rt.run_stream(&plan).unwrap();
    let first = stream.next().unwrap().expect("a row");
    assert_eq!(format!("{first:?}"), format!("{:?}", whole[0]));
}

// ── What the passes keep ────────────────────────────────────────────────────

fn logical(q: &str) -> LogicalPlan {
    let ParsedQuery::Select { inner } = parse_query(q).expect("query parse failed") else {
        panic!("expected SELECT")
    };
    let spargebra::Query::Select { pattern, .. } = &inner else {
        panic!("expected SELECT, got {inner:?}")
    };
    lower_algebra(&algebra_of(pattern)).expect("lowering failed")
}

fn in_order(rows: &[Bindings]) -> Vec<String> {
    rows.iter()
        .map(|b| canon(vec![b.clone()]).concat())
        .collect()
}

#[test]
fn each_pass_keeps_the_answers() {
    let st = fixture();
    let name = "<http://ex/name>";
    let queries = [
        format!("SELECT ?s ?n WHERE {{ ?s {name} ?n FILTER(?n = \"Alice\") }}"),
        format!("SELECT ?s ?n WHERE {{ ?s {name} ?n FILTER(<http://ex/a> = <http://ex/a>) }}"),
        format!("SELECT ?s ?n WHERE {{ ?s {name} ?n FILTER(sameTerm(<http://ex/a>, <http://ex/b>)) }}"),
        format!("SELECT ?s ?o WHERE {{ ?s {name} ?n . {{ ?s <http://ex/knows> ?o FILTER(?o = <http://ex/b>) }} }}"),
        format!("SELECT ?s ?a WHERE {{ ?s {name} ?n OPTIONAL {{ ?s <http://ex/age> ?a }} FILTER(?n = \"Carol\") }}"),
        format!("SELECT ?s WHERE {{ {{ ?s {name} ?n FILTER(?n != ?n) }} UNION {{ ?s <http://ex/age> ?a }} }}"),
        format!("SELECT ?s ?n WHERE {{ {{ SELECT ?s ?n WHERE {{ ?s {name} ?n }} }} FILTER(?s = <http://ex/a>) }}"),
    ];
    let passes: Vec<Box<dyn LogicalPass>> = vec![
        Box::new(CoalesceBgp),
        Box::new(Normalize),
        Box::new(FilterPullup),
        Box::new(FilterPushdown),
        Box::new(ProjectionPushdown),
    ];
    for q in &queries {
        let plain = run_raw(&st, &lower_physical(logical(q)));
        for pass in &passes {
            let rewritten = pass.run(logical(q), &PlanCtx::default());
            let got = run_raw(&st, &lower_physical(rewritten));
            assert_eq!(canon(got), canon(plain.clone()), "{:?} on {q}", pass.id().as_str());
        }
        let normal = run_raw(
            &st,
            &lower_physical(Normalize.run(logical(q), &PlanCtx::default())),
        );
        assert_eq!(in_order(&normal), in_order(&plain), "the order of {q}");
    }
}

#[test]
fn what_is_inferred_bound_is_bound() {
    let st = fixture();
    for q in [
        "SELECT * WHERE { ?s <http://ex/name> ?n OPTIONAL { ?s <http://ex/age> ?a } }",
        "SELECT * WHERE { { ?s <http://ex/name> ?n } UNION { ?s <http://ex/age> ?a } }",
        "SELECT * WHERE { ?s <http://ex/knows> ?o . ?o <http://ex/name> ?n }",
    ] {
        let plan = logical(q);
        let types = infer(&plan);
        let got = run_raw(&st, &lower_physical(plan));
        assert!(!got.is_empty());
        let mut seen = 0;
        for v in types.vars() {
            if types.get(&v).unwrap().is_bound() {
                seen += 1;
                for b in &got {
                    assert!(b.get(v.name()).is_some(), "?{} in {q}", v.name());
                }
            }
        }
        assert!(seen > 0, "{q}");
    }
}

#[test]
fn an_optional_match_loses_no_row() {
    let st = fixture();
    let left = "SELECT ?s WHERE { ?s <http://ex/name> ?n }";
    let both = "SELECT ?s ?a WHERE { ?s <http://ex/name> ?n OPTIONAL { ?s <http://ex/age> ?a } }";
    let all = rows(&st, left, everything(), DefaultGraphMode::Union);
    let matched = rows(&st, both, everything(), DefaultGraphMode::Union);
    assert_eq!(all.len(), 4);
    for s in &all {
        assert!(matched.iter().any(|m| m.contains(s.as_str())), "{s}");
    }
}

#[test]
fn patterns_together_are_their_join() {
    let st = fixture();
    let flat = "SELECT * WHERE { ?s <http://ex/knows> ?o . ?o <http://ex/name> ?n }";
    let joined = lower_physical(LogicalPlan::Join {
        left: Box::new(logical("SELECT * WHERE { ?s <http://ex/knows> ?o }")),
        right: Box::new(logical("SELECT * WHERE { ?o <http://ex/name> ?n }")),
    });
    assert!(matches!(joined, PhysicalPlan::Join { .. }));
    let together = canon(run_raw(&st, &lower_physical(logical(flat))));
    assert_eq!(together.len(), 3);
    assert_eq!(together, canon(run_raw(&st, &joined)));
}

#[test]
fn answers_are_of_the_kinds_that_are_inferred() {
    let mut st: MemStore = MemStore::new();
    let iri = |s: &str| Term::Iri(format!("http://ex/{s}"));
    st.insert_quad((None, iri("a"), iri("p"), Term::Literal("\"x\"".into())));
    st.insert_quad((None, Term::BlankNode("_:b".into()), iri("p"), iri("c")));
    st.insert_quad((None, iri("c"), iri("q"), Term::Literal("\"y\"".into())));
    let scan = |s: &str, p: &str, o: &str| LogicalPlan::Bgp {
        patterns: vec![TriplePattern {
            subject: Term::Var(Var::new(s)),
            predicate: iri(p),
            object: Term::Var(Var::new(o)),
        }],
        scope: GraphScope::DefaultGraph,
    };
    let plan = || LogicalPlan::LeftJoin {
        left: Box::new(scan("s", "p", "o")),
        right: Box::new(scan("o", "q", "z")),
        expr: None,
    };
    let types = infer(&plan());
    let rows: Vec<Bindings> = Runtime::new(&st).run(&lower_physical(plan())).unwrap();
    assert_eq!(rows.len(), 2);
    for row in &rows {
        for v in ["s", "o", "z"] {
            let kind = match row.get(v) {
                None => TypeMask::UNDEF,
                Some(Term::Iri(_)) => TypeMask::NAMED_NODE,
                Some(Term::BlankNode(_)) => TypeMask::BLANK_NODE,
                Some(Term::Literal(_)) => TypeMask::LITERAL,
                Some(t) => panic!("{t:?}"),
            };
            assert_ne!(types.get(&Var::new(v)).unwrap().bits() & kind, 0, "{v}");
        }
    }
    assert_eq!(
        types.get(&Var::new("s")).unwrap().bits(),
        TypeMask::NAMED_NODE | TypeMask::BLANK_NODE
    );
}

#[test]
fn a_rewritten_plan_has_the_answers_of_the_plan() {
    let mut st: MemStore = MemStore::new();
    for (s, o) in [("a", "b"), ("a", "c"), ("d", "b")] {
        st.insert((
            format!("http://ex/{s}"),
            "http://ex/p".to_owned(),
            format!("http://ex/{o}"),
        ));
    }
    let scan = || PhysicalPlan::BgpScan {
        patterns: vec![TriplePattern {
            subject: Term::Var(Var::new("s")),
            predicate: Term::Iri("http://ex/p".into()),
            object: Term::Var(Var::new("o")),
        }],
        scope: GraphScope::DefaultGraph,
    };
    let whole = Runtime::new(&st).run(&scan()).unwrap();
    let narrow = PhysicalPlan::Project {
        vars: vec![Var::new("s")],
        inner: Box::new(scan()),
    };
    assert_ne!(rewrite(&narrow).unwrap(), narrow);
    let rows = Runtime::new(&st).run(&narrow).unwrap();
    let subjects = |rows: &Vec<Bindings>| -> Vec<Option<Term>> {
        rows.iter().map(|r| r.get("s").cloned()).collect()
    };
    assert_eq!(subjects(&rows), subjects(&whole));
    assert!(rows.iter().all(|r| r.get("o").is_none()));
}

#[test]
fn a_repeated_key_groups_as_the_key_does() {
    let mut st: MemStore = MemStore::new();
    for (s, o) in [("a", "b"), ("a", "c"), ("d", "b")] {
        st.insert((
            format!("http://ex/{s}"),
            "http://ex/p".to_owned(),
            format!("http://ex/{o}"),
        ));
    }
    let grouped = |keys: Vec<Var>| PhysicalPlan::Project {
        vars: vec![Var::new("s"), Var::new("n"), Var::new("s")],
        inner: Box::new(PhysicalPlan::Group {
            inner: Box::new(PhysicalPlan::BgpScan {
                patterns: vec![TriplePattern {
                    subject: Term::Var(Var::new("s")),
                    predicate: Term::Iri("http://ex/p".into()),
                    object: Term::Var(Var::new("o")),
                }],
                scope: GraphScope::DefaultGraph,
            }),
            keys,
            aggregates: vec![Aggregate {
                func: AggFunc::CountStar,
                distinct: false,
                out: Var::new("n"),
            }],
        }),
    };
    let once = Runtime::new(&st).run(&grouped(vec![Var::new("s")])).unwrap();
    let twice = Runtime::new(&st)
        .run(&grouped(vec![Var::new("s"), Var::new("s")]))
        .unwrap();
    let seen = |rows: &Vec<Bindings>| -> Vec<(Option<Term>, Option<Term>)> {
        rows.iter().map(|r| (r.get("s").cloned(), r.get("n").cloned())).collect()
    };
    assert_eq!(seen(&once), seen(&twice));
    assert_eq!(
        seen(&once),
        vec![
            (Some(Term::Iri("http://ex/a".into())), Some(integer_literal(2))),
            (Some(Term::Iri("http://ex/d".into())), Some(integer_literal(1))),
        ]
    );
}
