//! Plans: lowering, passes, types, and how they are shown.

use horndb_sparql::algebra::{
    AggFunc, Aggregate, Algebra, Expr, GraphScope, GraphSpec, OrderDir, Term, TriplePattern, Var,
};
use horndb_sparql::exec::mem::MemStore;
use horndb_sparql::plan::closure_route::{path_closure_route, route_for, ClosureRoute};
use horndb_sparql::plan::explain::{explain, json_string, ExecutionMode, ExplainFormat};
use horndb_sparql::plan::logical::LogicalPlan;
use horndb_sparql::plan::lower::{lower_algebra, lower_physical};
use horndb_sparql::plan::pass::{
    assert_pass_order, run_passes, standard_passes, CoalesceBgp, LogicalPass, PassId, PlanCtx,
};
use horndb_sparql::plan::passes::filter_pullup::FilterPullup;
use horndb_sparql::plan::passes::filter_pushdown::FilterPushdown;
use horndb_sparql::plan::passes::normalize::Normalize;
use horndb_sparql::plan::passes::projection_pushdown::ProjectionPushdown;
use horndb_sparql::plan::passes::{conjoin, conjuncts, schema};
use horndb_sparql::plan::planner::plan;
use horndb_sparql::plan::reasoning_catalog::{
    ClosureState, ReasoningCatalog, Resolver, Strategy, UninformedCatalog, STUB_COST_ROWS,
};
use horndb_sparql::plan::pushdown::rewrite;
use horndb_sparql::plan::types::{infer, TypeMask};
use horndb_sparql::plan::validate::dangling_refs;
use horndb_sparql::plan::PhysicalPlan;

fn var(n: &str) -> Term {
    Term::Var(Var::new(n))
}

fn pat(s: &str, p: &str, o: &str) -> TriplePattern {
    TriplePattern {
        subject: Term::Var(Var::new(s)),
        predicate: Term::Iri(p.to_owned()),
        object: Term::Var(Var::new(o)),
    }
}

fn bgp(pats: Vec<TriplePattern>) -> LogicalPlan {
    LogicalPlan::bgp(pats)
}

fn ctx() -> PlanCtx {
    PlanCtx::default()
}

// ── Logical plans ───────────────────────────────────────────────────────────

#[test]
fn join_coalesces_adjacent_bgps_into_one_flat_bgp() {
    let left = bgp(vec![pat("s", "p", "o")]);
    let right = bgp(vec![pat("o", "q", "z")]);
    match LogicalPlan::join(left, right) {
        LogicalPlan::Bgp { patterns, .. } => assert_eq!(patterns.len(), 2),
        other => panic!("expected coalesced Bgp, got {other:?}"),
    }
}

#[test]
fn join_keeps_bgps_with_different_graph_scopes_apart() {
    let left = bgp(vec![pat("s", "p", "o")]);
    let right = LogicalPlan::Bgp {
        patterns: vec![pat("o", "q", "z")],
        scope: GraphScope::Named(GraphSpec::Iri("http://ex/g".into())),
    };
    assert!(
        matches!(LogicalPlan::join(left, right), LogicalPlan::Join { .. }),
        "different scopes must not coalesce"
    );
}

#[test]
fn join_keeps_a_real_join_when_a_side_is_not_a_bgp() {
    let left = bgp(vec![pat("s", "p", "o")]);
    let right = LogicalPlan::Project {
        vars: vec![Var::new("o")],
        inner: Box::new(bgp(vec![pat("o", "q", "z")])),
    };
    assert!(matches!(
        LogicalPlan::join(left, right),
        LogicalPlan::Join { .. }
    ));
}

#[test]
fn filter_drops_constant_true() {
    let inner = || bgp(vec![pat("s", "p", "o")]);
    let out = LogicalPlan::filter(Expr::Term(Term::Literal("true".into())), inner());
    assert_eq!(out, inner(), "constant-true filter must fold away");
}

#[test]
fn filter_keeps_a_real_predicate() {
    let inner = bgp(vec![pat("s", "p", "o")]);
    let out = LogicalPlan::filter(Expr::Bound(Var::new("o")), inner);
    assert!(matches!(out, LogicalPlan::Filter { .. }));
}

// ── Lowering ────────────────────────────────────────────────────────────────

#[test]
fn bgp_round_trips_to_bgp_scan() {
    let alg = Algebra::Bgp {
        patterns: vec![pat("s", "http://ex/p", "o")],
    };
    let phys = lower_physical(lower_algebra(&alg).unwrap());
    assert_eq!(
        phys,
        PhysicalPlan::BgpScan {
            patterns: vec![pat("s", "http://ex/p", "o")],
            scope: GraphScope::DefaultGraph,
        }
    );
}

#[test]
fn graph_scope_lands_on_the_scan_leaf_innermost_wins() {
    let inner = Algebra::Bgp {
        patterns: vec![pat("s", "http://ex/p", "o")],
    };
    let alg = Algebra::Graph {
        name: GraphSpec::Iri("http://ex/outer".into()),
        inner: Box::new(Algebra::Graph {
            name: GraphSpec::Iri("http://ex/inner".into()),
            inner: Box::new(inner),
        }),
    };
    match lower_physical(lower_algebra(&alg).unwrap()) {
        PhysicalPlan::BgpScan { scope, .. } => assert_eq!(
            scope,
            GraphScope::Named(GraphSpec::Iri("http://ex/inner".into()))
        ),
        other => panic!("expected a scoped BgpScan, got {other:?}"),
    }
}

#[test]
fn graph_var_lowers_to_one_per_graph_node() {
    let alg = Algebra::Graph {
        name: GraphSpec::Var(Var::new("g")),
        inner: Box::new(Algebra::Bgp {
            patterns: vec![pat("s", "http://ex/p", "o")],
        }),
    };
    match lower_physical(lower_algebra(&alg).unwrap()) {
        PhysicalPlan::PerGraph { var, inner } => {
            assert_eq!(var.name(), "g");
            match *inner {
                PhysicalPlan::BgpScan { scope, .. } => {
                    assert_eq!(scope, GraphScope::Named(GraphSpec::Var(Var::new("g"))))
                }
                other => panic!("expected a scoped BgpScan, got {other:?}"),
            }
        }
        other => panic!("expected PerGraph, got {other:?}"),
    }
}

#[test]
fn naive_join_stays_a_nested_join() {
    let alg = Algebra::Join {
        left: Box::new(Algebra::Bgp {
            patterns: vec![pat("s", "http://ex/p", "o")],
        }),
        right: Box::new(Algebra::Bgp {
            patterns: vec![pat("o", "http://ex/q", "z")],
        }),
    };
    let log = lower_algebra(&alg).unwrap();
    assert!(
        matches!(log, LogicalPlan::Join { .. }),
        "naive lowering keeps the Join; got {log:?}"
    );
    assert!(matches!(lower_physical(log), PhysicalPlan::Join { .. }));
}

// ── Passes ──────────────────────────────────────────────────────────────────

fn raw_join(l: LogicalPlan, r: LogicalPlan) -> LogicalPlan {
    LogicalPlan::Join {
        left: Box::new(l),
        right: Box::new(r),
    }
}

#[test]
fn coalesce_folds_join_of_bgps() {
    let plan = raw_join(
        bgp(vec![pat("s", "http://ex/p", "o")]),
        bgp(vec![pat("o", "http://ex/q", "z")]),
    );
    let out = run_passes(plan, &standard_passes(), &PlanCtx::default()).unwrap();
    match out {
        LogicalPlan::Bgp { patterns, .. } => assert_eq!(patterns.len(), 2),
        other => panic!("CoalesceBgp must flatten Join(Bgp,Bgp); got {other:?}"),
    }
}

#[test]
fn disabling_coalesce_keeps_the_join() {
    let plan = raw_join(
        bgp(vec![pat("s", "http://ex/p", "o")]),
        bgp(vec![pat("o", "http://ex/q", "z")]),
    );
    let ctx = PlanCtx {
        disabled_passes: vec![PassId::CoalesceBgp],
    };
    let out = run_passes(plan, &standard_passes(), &ctx).unwrap();
    assert!(
        matches!(out, LogicalPlan::Join { .. }),
        "disabled CoalesceBgp must leave the Join intact"
    );
}

struct NeedsCoalesce;

impl LogicalPass for NeedsCoalesce {
    fn id(&self) -> PassId {
        PassId::FilterPushdown
    }
    fn run(&self, plan: LogicalPlan, _ctx: &PlanCtx) -> LogicalPlan {
        plan
    }
    fn must_follow(&self) -> &'static [PassId] {
        &[PassId::CoalesceBgp]
    }
}

#[test]
fn assert_pass_order_accepts_a_satisfied_constraint() {
    let passes: Vec<Box<dyn LogicalPass>> = vec![Box::new(CoalesceBgp), Box::new(NeedsCoalesce)];
    assert_eq!(assert_pass_order(&passes), Ok(()));
}

#[test]
fn assert_pass_order_rejects_a_violated_constraint() {
    let passes: Vec<Box<dyn LogicalPass>> = vec![Box::new(NeedsCoalesce), Box::new(CoalesceBgp)];
    assert_eq!(
        assert_pass_order(&passes),
        Err((PassId::FilterPushdown, PassId::CoalesceBgp)),
        "the pass must follow the other"
    );
}

#[test]
fn legal_dangling_filter_ref_survives_the_pipeline() {
    let plan = LogicalPlan::Filter {
        expr: Expr::Eq(
            Box::new(Expr::Term(Term::Var(Var::new("z")))),
            Box::new(Expr::Term(Term::Iri("http://ex/b".into()))),
        ),
        inner: Box::new(bgp(vec![pat("s", "http://ex/p", "o")])),
    };
    assert!(dangling_refs(&plan).contains("Filter:?z"));
    let out = run_passes(plan, &standard_passes(), &PlanCtx::default()).unwrap();
    assert!(matches!(out, LogicalPlan::Filter { .. }));
    assert_eq!(dangling_refs(&out).len(), 1);
}

#[test]
fn a_filter_on_an_unknown_variable_is_a_new_dangling_reference() {
    let plan = bgp(vec![pat("s", "http://ex/p", "o")]);
    assert_eq!(dangling_refs(&plan).len(), 0);
    let corrupted = LogicalPlan::Filter {
        expr: Expr::Bound(Var::new("no_such_var")),
        inner: Box::new(plan),
    };
    assert!(dangling_refs(&corrupted).contains("Filter:?no_such_var"));
}

#[test]
fn pass_id_round_trips_through_str() {
    for id in [
        PassId::CoalesceBgp,
        PassId::Normalize,
        PassId::FilterPullup,
        PassId::FilterPushdown,
        PassId::ProjectionPushdown,
        PassId::JoinPlanning,
    ] {
        assert_eq!(PassId::parse(id.as_str()).unwrap(), id);
    }
    assert!(PassId::parse("no_such_pass").is_err());
}

// ── Filter pull-up ──────────────────────────────────────────────────────────

fn scan_on(p: &str) -> LogicalPlan {
    bgp(vec![TriplePattern {
        subject: var("s"),
        predicate: Term::Iri(format!("http://ex/{p}")),
        object: var(p),
    }])
}

fn gt0(v: &str) -> Expr {
    Expr::Gt(
        Box::new(Expr::Term(var(v))),
        Box::new(Expr::Term(Term::Literal("\"0\"".into()))),
    )
}

fn filtered(v: &str, inner: LogicalPlan) -> LogicalPlan {
    LogicalPlan::Filter {
        expr: gt0(v),
        inner: Box::new(inner),
    }
}

#[test]
fn pulls_filter_above_join() {
    let plan = raw_join(filtered("a", scan_on("a")), scan_on("b"));
    let out = FilterPullup.run(plan, &ctx());
    assert!(
        matches!(&out, LogicalPlan::Filter { inner, .. } if matches!(**inner, LogicalPlan::Join { .. })),
        "filter must sit above the join; got {out:?}"
    );
}

#[test]
fn merges_both_arms_into_one_filter() {
    let plan = raw_join(filtered("a", scan_on("a")), filtered("b", scan_on("b")));
    let out = FilterPullup.run(plan, &ctx());
    let LogicalPlan::Filter { expr, inner } = out else {
        panic!("expected one Filter, got {out:?}")
    };
    assert!(matches!(*inner, LogicalPlan::Join { .. }));
    let mut parts = Vec::new();
    conjuncts(expr, &mut parts);
    assert_eq!(parts.len(), 2, "both arm filters must be conjoined");
}

#[test]
fn never_pulls_across_leftjoin() {
    let plan = LogicalPlan::LeftJoin {
        left: Box::new(scan_on("a")),
        right: Box::new(filtered("b", scan_on("b"))),
        expr: None,
    };
    let out = FilterPullup.run(plan, &ctx());
    assert!(
        matches!(out, LogicalPlan::LeftJoin { .. }),
        "no hoist across LeftJoin; got {out:?}"
    );
}

#[test]
fn filter_pullup_id_and_ordering() {
    assert_eq!(FilterPullup.id(), PassId::FilterPullup);
    assert_eq!(FilterPullup.must_follow(), &[PassId::Normalize]);
}

// ── Filter push-down ────────────────────────────────────────────────────────

fn scan(subj: &str, p: &str, obj: &str) -> LogicalPlan {
    bgp(vec![TriplePattern {
        subject: var(subj),
        predicate: Term::Iri(format!("http://ex/{p}")),
        object: var(obj),
    }])
}

#[test]
fn pushes_single_var_conjunct_to_binding_arm() {
    let plan = filtered("x", raw_join(scan("a", "p1", "x"), scan("a", "p2", "y")));
    let out = FilterPushdown.run(plan, &ctx());
    let LogicalPlan::Join { left, right } = out else {
        panic!("expected Join at root, got {out:?}")
    };
    assert!(
        matches!(*left, LogicalPlan::Filter { .. }),
        "conjunct must push to the left arm; got {left:?}"
    );
    assert!(
        matches!(*right, LogicalPlan::Bgp { .. }),
        "right arm unfiltered; got {right:?}"
    );
}

fn optional(left: LogicalPlan, right: LogicalPlan) -> LogicalPlan {
    LogicalPlan::LeftJoin {
        left: Box::new(left),
        right: Box::new(right),
        expr: None,
    }
}

#[test]
fn respects_leftjoin_asymmetry() {
    let plan = filtered("y", optional(scan("a", "p1", "x"), scan("a", "p2", "y")));
    let out = FilterPushdown.run(plan, &ctx());
    let LogicalPlan::Filter { inner, .. } = out else {
        panic!("filter must stay above LeftJoin, got {out:?}")
    };
    assert!(matches!(*inner, LogicalPlan::LeftJoin { .. }));
}

#[test]
fn pushes_into_leftjoin_mandatory_arm() {
    let plan = filtered("x", optional(scan("a", "p1", "x"), scan("a", "p2", "y")));
    let out = FilterPushdown.run(plan, &ctx());
    let LogicalPlan::LeftJoin { left, .. } = out else {
        panic!("expected LeftJoin root, got {out:?}")
    };
    assert!(
        matches!(*left, LogicalPlan::Filter { .. }),
        "mandatory-arm conjunct must push; got {left:?}"
    );
}

#[test]
fn cross_arm_conjunct_stays_above_join() {
    let plan = LogicalPlan::Filter {
        expr: Expr::Gt(
            Box::new(Expr::Term(var("x"))),
            Box::new(Expr::Term(var("y"))),
        ),
        inner: Box::new(raw_join(scan("a", "p1", "x"), scan("a", "p2", "y"))),
    };
    let out = FilterPushdown.run(plan, &ctx());
    let LogicalPlan::Filter { inner, .. } = out else {
        panic!("cross-arm conjunct must stay above the Join, got {out:?}")
    };
    let LogicalPlan::Join { left, right } = *inner else {
        panic!("expected Join under the residual Filter, got {inner:?}")
    };
    assert!(matches!(*left, LogicalPlan::Bgp { .. }), "got {left:?}");
    assert!(matches!(*right, LogicalPlan::Bgp { .. }), "got {right:?}");
}

#[test]
fn merges_into_filter_placed_on_a_join_arm() {
    let plan = LogicalPlan::Filter {
        expr: Expr::And(Box::new(gt0("x")), Box::new(gt0("a"))),
        inner: Box::new(raw_join(scan("a", "p1", "x"), scan("a", "p2", "y"))),
    };
    let out = FilterPushdown.run(plan, &ctx());
    let LogicalPlan::Join { left, .. } = out else {
        panic!("both conjuncts must sink; expected Join at root, got {out:?}")
    };
    let LogicalPlan::Filter { expr, inner } = *left else {
        panic!("expected one merged Filter on the left arm, got {left:?}")
    };
    assert!(matches!(*inner, LogicalPlan::Bgp { .. }));
    let mut parts = Vec::new();
    conjuncts(expr, &mut parts);
    assert_eq!(parts.len(), 2, "conjuncts must merge, not nest");
}

#[test]
fn never_pushes_through_project_scope_hiding() {
    let plan = filtered(
        "y",
        LogicalPlan::Project {
            vars: vec![Var::new("x")],
            inner: Box::new(scan("x", "p1", "y")),
        },
    );
    let out = FilterPushdown.run(plan, &ctx());
    let LogicalPlan::Filter { inner, .. } = out else {
        panic!("filter over a projected-away var must stay above the Project, got {out:?}")
    };
    assert!(
        matches!(&*inner, LogicalPlan::Project { inner, .. }
            if matches!(**inner, LogicalPlan::Bgp { .. })),
        "Project's inner must stay unfiltered; got {inner:?}"
    );
}

#[test]
fn pushes_through_project_over_visible_var() {
    let plan = filtered(
        "x",
        LogicalPlan::Project {
            vars: vec![Var::new("x")],
            inner: Box::new(scan("x", "p1", "y")),
        },
    );
    let out = FilterPushdown.run(plan, &ctx());
    let LogicalPlan::Project { inner, .. } = out else {
        panic!("expected Project at root, got {out:?}")
    };
    assert!(
        matches!(&*inner, LogicalPlan::Filter { inner, .. }
            if matches!(**inner, LogicalPlan::Bgp { .. })),
        "visible-var conjunct must push through onto the Bgp; got {inner:?}"
    );
}

#[test]
fn merges_conjuncts_landing_on_the_same_sink() {
    let plan = LogicalPlan::Filter {
        expr: Expr::And(Box::new(gt0("x")), Box::new(gt0("a"))),
        inner: Box::new(scan("a", "p1", "x")),
    };
    let out = FilterPushdown.run(plan, &ctx());
    let LogicalPlan::Filter { expr, inner } = out else {
        panic!("expected a single Filter over the Bgp, got {out:?}")
    };
    assert!(matches!(*inner, LogicalPlan::Bgp { .. }));
    let mut parts = Vec::new();
    conjuncts(expr, &mut parts);
    assert_eq!(
        parts.len(),
        2,
        "both conjuncts must merge into one Filter, not nest"
    );
}

#[test]
fn filter_pushdown_id_and_ordering() {
    assert_eq!(FilterPushdown.id(), PassId::FilterPushdown);
    assert_eq!(FilterPushdown.must_follow(), &[PassId::FilterPullup]);
}

#[test]
fn conjuncts_come_apart_and_together() {
    let mut parts = Vec::new();
    conjuncts(
        Expr::And(
            Box::new(gt0("x")),
            Box::new(Expr::And(Box::new(gt0("y")), Box::new(gt0("z")))),
        ),
        &mut parts,
    );
    assert_eq!(parts, vec![gt0("x"), gt0("y"), gt0("z")]);
    let again = conjoin(parts).expect("three conjuncts");
    let mut parts = Vec::new();
    conjuncts(again, &mut parts);
    assert_eq!(parts, vec![gt0("x"), gt0("y"), gt0("z")]);
    assert_eq!(conjoin(vec![]), None);
}

// ── Normalization ───────────────────────────────────────────────────────────

fn open_bgp(predicate: Term) -> LogicalPlan {
    bgp(vec![TriplePattern {
        subject: var("s"),
        predicate,
        object: var("o"),
    }])
}

fn eq(a: Term, b: Term) -> Expr {
    Expr::Eq(Box::new(Expr::Term(a)), Box::new(Expr::Term(b)))
}

#[test]
fn reduces_eq_on_provable_iri_to_sameterm() {
    let plan = LogicalPlan::Filter {
        expr: eq(var("p"), Term::Iri("http://ex/knows".into())),
        inner: Box::new(open_bgp(var("p"))),
    };
    let out = Normalize.run(plan, &ctx());
    let LogicalPlan::Filter { expr, .. } = out else {
        panic!("expected Filter, got {out:?}")
    };
    assert!(
        matches!(expr, Expr::SameTerm(..)),
        "predicate-var Eq must reduce; got {expr:?}"
    );
}

#[test]
fn keeps_eq_on_unprovable_kind() {
    let plan = LogicalPlan::Filter {
        expr: eq(var("o"), Term::Literal("\"Alice\"".into())),
        inner: Box::new(open_bgp(Term::Iri("http://ex/name".into()))),
    };
    let out = Normalize.run(plan, &ctx());
    let LogicalPlan::Filter { expr, .. } = out else {
        panic!("expected Filter")
    };
    assert!(
        matches!(expr, Expr::Eq(..)),
        "literal-side Eq must NOT reduce; got {expr:?}"
    );
}

#[test]
fn drops_constant_true_filter() {
    let plan = LogicalPlan::Filter {
        expr: eq(Term::Iri("http://ex/a".into()), Term::Iri("http://ex/a".into())),
        inner: Box::new(open_bgp(var("p"))),
    };
    let out = Normalize.run(plan, &ctx());
    assert!(
        matches!(out, LogicalPlan::Bgp { .. }),
        "true filter must be dropped; got {out:?}"
    );
}

#[test]
fn empties_constant_false_filter() {
    let plan = LogicalPlan::Filter {
        expr: eq(Term::Iri("http://ex/a".into()), Term::Iri("http://ex/b".into())),
        inner: Box::new(open_bgp(var("p"))),
    };
    let out = Normalize.run(plan, &ctx());
    let LogicalPlan::Values { vars, rows } = out else {
        panic!("expected empty Values, got {out:?}")
    };
    assert!(rows.is_empty());
    assert_eq!(vars, vec![Var::new("s"), Var::new("p"), Var::new("o")]);
}

#[test]
fn normalize_id_and_ordering() {
    assert_eq!(Normalize.id(), PassId::Normalize);
    assert_eq!(Normalize.must_follow(), &[PassId::CoalesceBgp]);
}

// ── Projection push-down ────────────────────────────────────────────────────

#[test]
fn narrows_scan_under_project() {
    let plan = LogicalPlan::Project {
        vars: vec![Var::new("s")],
        inner: Box::new(open_bgp(var("p"))),
    };
    let out = ProjectionPushdown.run(plan, &ctx());
    let LogicalPlan::Project { inner, .. } = out else {
        panic!("expected Project root")
    };
    let sch = schema(&inner);
    assert_eq!(
        sch,
        vec![Var::new("s")],
        "scan must be narrowed to ?s; got {sch:?}"
    );
}

fn distinct_child(p: &LogicalPlan) -> Option<&LogicalPlan> {
    match p {
        LogicalPlan::Distinct { inner } => Some(inner),
        LogicalPlan::Project { inner, .. } => distinct_child(inner),
        _ => None,
    }
}

#[test]
fn distinct_is_a_barrier() {
    let plan = LogicalPlan::Project {
        vars: vec![Var::new("s")],
        inner: Box::new(LogicalPlan::Distinct {
            inner: Box::new(open_bgp(var("p"))),
        }),
    };
    let out = ProjectionPushdown.run(plan, &ctx());
    let child = distinct_child(&out).expect("Distinct preserved");
    let mut sch = schema(child);
    sch.sort_by(|a, b| a.name().cmp(b.name()));
    assert_eq!(
        sch,
        vec![Var::new("o"), Var::new("p"), Var::new("s")],
        "Distinct child must keep full dedup key; got {sch:?}"
    );
}

#[test]
fn projection_pushdown_id_and_ordering() {
    assert_eq!(ProjectionPushdown.id(), PassId::ProjectionPushdown);
    assert_eq!(ProjectionPushdown.must_follow(), &[PassId::FilterPushdown]);
}

// ── Planning ────────────────────────────────────────────────────────────────

#[test]
fn empty_bgp_plans_to_empty_scan() {
    let plan = plan(&Algebra::Bgp { patterns: vec![] }).unwrap();
    assert_eq!(
        plan,
        PhysicalPlan::BgpScan {
            patterns: vec![],
            scope: GraphScope::DefaultGraph
        }
    );
}

#[test]
fn join_lowers_both_sides() {
    let bgp = || Algebra::Bgp {
        patterns: vec![pat("s", "p", "o")],
    };
    let alg = Algebra::Join {
        left: Box::new(bgp()),
        right: Box::new(Algebra::Distinct {
            inner: Box::new(bgp()),
        }),
    };
    match plan(&alg).unwrap() {
        PhysicalPlan::Join { .. } => {}
        other => panic!("expected Join, got {other:?}"),
    }
}

#[test]
fn join_of_bare_bgps_coalesces_to_one_flat_scan() {
    let bgp = || Algebra::Bgp {
        patterns: vec![pat("s", "p", "o")],
    };
    let alg = Algebra::Join {
        left: Box::new(bgp()),
        right: Box::new(bgp()),
    };
    match plan(&alg).unwrap() {
        PhysicalPlan::BgpScan { patterns, .. } => assert_eq!(patterns.len(), 2),
        other => panic!("expected coalesced BgpScan, got {other:?}"),
    }
}

// ── Types ───────────────────────────────────────────────────────────────────

#[test]
fn bgp_binds_positions() {
    let vt = infer(&bgp(vec![pat("s", "p", "o")]));
    let s = vt.get(&Var::new("s")).unwrap();
    assert!(s.is_bound());
    assert_eq!(s.bits() & TypeMask::LITERAL, 0);
    let o = vt.get(&Var::new("o")).unwrap();
    assert!(o.is_bound());
    assert_ne!(o.bits() & TypeMask::LITERAL, 0);
}

#[test]
fn leftjoin_marks_rhs_only_vars_undef() {
    let left = bgp(vec![pat("s", "p", "o")]);
    let right = bgp(vec![pat("s", "q", "x")]);
    let vt = infer(&LogicalPlan::LeftJoin {
        left: Box::new(left),
        right: Box::new(right),
        expr: None,
    });
    assert!(vt.get(&Var::new("s")).unwrap().is_bound(), "?s stays bound");
    assert!(
        !vt.get(&Var::new("x")).unwrap().is_bound(),
        "?x is optional → UNDEF set"
    );
}

#[test]
fn union_marks_one_sided_vars_undef() {
    let left = bgp(vec![pat("x", "p", "a")]);
    let right = bgp(vec![pat("x", "q", "b")]);
    let vt = infer(&LogicalPlan::Union {
        left: Box::new(left),
        right: Box::new(right),
    });
    assert!(
        vt.get(&Var::new("x")).unwrap().is_bound(),
        "?x on both sides"
    );
    assert!(!vt.get(&Var::new("a")).unwrap().is_bound());
    assert!(!vt.get(&Var::new("b")).unwrap().is_bound());
}

#[test]
fn join_keeps_shared_var_bound() {
    let left = bgp(vec![pat("s", "p", "o")]);
    let right = bgp(vec![pat("o", "q", "z")]);
    let vt = infer(&LogicalPlan::Join {
        left: Box::new(left),
        right: Box::new(right),
    });
    assert!(vt.get(&Var::new("o")).unwrap().is_bound());
    assert_eq!(
        vt.get(&Var::new("o")).unwrap().bits() & TypeMask::LITERAL,
        0
    );
}

#[test]
fn join_with_optional_side_keeps_cross_type_terms() {
    let left = TypeMask::from_bits(TypeMask::UNDEF | TypeMask::NAMED_NODE | TypeMask::BLANK_NODE);
    let right = TypeMask::from_bits(TypeMask::LITERAL);
    let joined = left.intersect(right);
    assert!(joined.is_bound(), "bound on one side → bound after join");
    assert_ne!(
        joined.bits() & TypeMask::LITERAL,
        0,
        "right side's LITERAL must survive: left may be unbound"
    );
    let strict = TypeMask::from_bits(TypeMask::NAMED_NODE | TypeMask::LITERAL)
        .intersect(TypeMask::from_bits(TypeMask::NAMED_NODE));
    assert_eq!(strict.bits(), TypeMask::NAMED_NODE);
}

#[test]
fn aggregate_output_masks_depend_on_function() {
    let inner = bgp(vec![pat("s", "p", "o")]);
    let agg = |func: AggFunc, name: &str| Aggregate {
        out: Var::new(name),
        func,
        distinct: false,
    };
    let vt = infer(&LogicalPlan::Group {
        inner: Box::new(inner),
        keys: vec![],
        aggregates: vec![
            agg(AggFunc::CountStar, "c"),
            agg(
                AggFunc::Sum(Box::new(Expr::Term(Term::Var(Var::new("o"))))),
                "sum",
            ),
            agg(
                AggFunc::Sample(Box::new(Expr::Term(Term::Var(Var::new("s"))))),
                "sample",
            ),
        ],
    });
    assert!(vt.get(&Var::new("c")).unwrap().is_bound());
    assert!(!vt.get(&Var::new("sum")).unwrap().is_bound());
    let sample = vt.get(&Var::new("sample")).unwrap();
    assert!(!sample.is_bound());
    assert_ne!(sample.bits() & TypeMask::NAMED_NODE, 0);
}

#[test]
fn path_closure_endpoints_may_bind_literals() {
    let vt = infer(&LogicalPlan::PathClosure {
        subject: Term::Iri("http://ex/a".into()),
        object: Term::Var(Var::new("y")),
        edge: Box::new(bgp(vec![pat("pp_src", "http://ex/p", "pp_dst")])),
        reflexive: false,
    });
    let y = vt.get(&Var::new("y")).unwrap();
    assert!(y.is_bound());
    assert_ne!(y.bits() & TypeMask::LITERAL, 0);
}

#[test]
fn extend_output_is_optional() {
    let inner = bgp(vec![pat("s", "p", "o")]);
    let vt = infer(&LogicalPlan::Extend {
        inner: Box::new(inner),
        var: Var::new("b"),
        expr: Expr::Bound(Var::new("o")),
    });
    assert!(!vt.get(&Var::new("b")).unwrap().is_bound());
}

#[test]
fn the_schema_is_what_is_inferred() {
    let plan = optional(scan("a", "p1", "x"), scan("a", "p2", "y"));
    let vt = infer(&plan);
    let sch = schema(&plan);
    assert_eq!(sch.len(), vt.vars().len());
    for v in &sch {
        assert!(vt.get(v).is_some(), "{v:?}");
    }
}

// ── Catalog and routes ──────────────────────────────────────────────────────

fn any_pattern() -> TriplePattern {
    TriplePattern {
        subject: Term::Var(Var::new("x")),
        predicate: Term::Iri("http://www.w3.org/1999/02/22-rdf-syntax-ns#type".into()),
        object: Term::Iri("http://example.org/C".into()),
    }
}

#[test]
fn uninformed_catalog_is_conservative() {
    let cat = UninformedCatalog;
    assert!(!cat.is_informed());
    assert_eq!(cat.closure_state(&any_pattern()), ClosureState::NotClosed);
}

#[test]
fn uninformed_costs_are_stubs_and_cannot_tip_a_choice() {
    let cat = UninformedCatalog;
    let pat = any_pattern();
    let strategies = [
        Strategy::Materialize,
        Strategy::Rewrite,
        Strategy::Delegate(Resolver::CompiledRule),
        Strategy::Delegate(Resolver::GraphblasClosure),
        Strategy::Delegate(Resolver::Crosswalk),
    ];
    for s in strategies {
        let c = cat.cost(&pat, s);
        assert!(!c.measured, "{s:?} must be marked unmeasured");
        assert_eq!(
            c.rows, STUB_COST_ROWS,
            "{s:?} must not be cheaper than any other"
        );
    }
}

#[test]
fn routes_by_edge_relation_size() {
    assert_eq!(route_for(Some(10), 100), ClosureRoute::Native);
    assert_eq!(route_for(Some(99), 100), ClosureRoute::Native);
    assert_eq!(route_for(Some(100), 100), ClosureRoute::GraphBlas);
    assert_eq!(route_for(Some(1_000), 100), ClosureRoute::GraphBlas);
}

#[test]
fn unknown_estimate_stays_native() {
    assert_eq!(route_for(None, 0), ClosureRoute::Native);
    assert_eq!(route_for(None, 100), ClosureRoute::Native);
}

#[test]
fn a_route_needs_the_matrix_kernel() {
    let st = store();
    let edge = scan_plan("sco");
    assert_eq!(path_closure_route(&edge, &st, true, 2), ClosureRoute::GraphBlas);
    assert_eq!(path_closure_route(&edge, &st, true, 3), ClosureRoute::Native);
    assert_eq!(path_closure_route(&edge, &st, false, 2), ClosureRoute::Native);
}

// ── Explanations ────────────────────────────────────────────────────────────

fn store() -> MemStore {
    let mut st: MemStore = MemStore::default();
    st.insert(("a".into(), "sco".into(), "b".into()));
    st.insert(("b".into(), "sco".into(), "c".into()));
    st.insert(("x".into(), "type".into(), "T".into()));
    st
}

fn scan_plan(p: &str) -> PhysicalPlan {
    PhysicalPlan::BgpScan {
        patterns: vec![TriplePattern {
            subject: Term::Var(Var::new("s")),
            predicate: Term::Iri(p.to_owned()),
            object: Term::Var(Var::new("o")),
        }],
        scope: GraphScope::DefaultGraph,
    }
}

#[test]
fn text_shows_mode_and_cardinality() {
    let st = store();
    let plan = scan_plan("sco");
    let text = explain(&plan, &st, ExecutionMode::Materialized, ExplainFormat::Text);
    assert!(text.contains("mode: materialized"), "{text}");
    assert!(text.contains("BgpScan(1 pattern)"), "{text}");
    assert!(text.contains("~2 rows"), "{text}");
}

#[test]
fn path_closure_node_rendered_with_mode() {
    let st = store();
    let edge = scan_plan("sco");
    let plan = PhysicalPlan::PathClosure {
        subject: Term::Var(Var::new("x")),
        object: Term::Var(Var::new("y")),
        edge: Box::new(edge),
        reflexive: false,
    };
    let text = explain(&plan, &st, ExecutionMode::Materialized, ExplainFormat::Text);
    assert!(text.contains("PathClosure(transitive, p+)"), "{text}");
    assert!(text.contains("BgpScan"), "{text}");
    assert!(text.contains("mode: materialized"), "{text}");
}

#[test]
fn json_is_well_formed_tree() {
    let st = store();
    let plan = PhysicalPlan::Project {
        vars: vec![Var::new("o")],
        inner: Box::new(scan_plan("sco")),
    };
    let json = explain(&plan, &st, ExecutionMode::Materialized, ExplainFormat::Json);
    assert!(json.starts_with('{'), "{json}");
    assert!(json.ends_with('}'), "{json}");
    assert!(json.contains("\"mode\":\"materialized\""), "{json}");
    assert!(json.contains("\"op\":\"Project(?o)\""), "{json}");
    assert!(json.contains("\"estRows\":2"), "{json}");
    assert!(json.contains("\"children\":["), "{json}");
    let v: serde_json::Value = serde_json::from_str(&json).expect("valid JSON");
    assert_eq!(v["mode"], "materialized");
    assert_eq!(v["plan"]["children"][0]["op"], "BgpScan(1 pattern)");
}

#[test]
fn json_strings_are_escaped() {
    let text = "a\"b\\c\nd\te\u{1}f";
    let quoted = json_string(text);
    let v: serde_json::Value = serde_json::from_str(&quoted).expect("valid JSON");
    assert_eq!(v, serde_json::Value::String(text.to_owned()));
}

#[test]
fn sorting_by_descending_key_is_planned() {
    let alg = Algebra::OrderBy {
        inner: Box::new(Algebra::Bgp {
            patterns: vec![pat("s", "p", "o")],
        }),
        keys: vec![(Expr::Term(var("o")), OrderDir::Desc)],
    };
    match plan(&alg).unwrap() {
        PhysicalPlan::OrderBy { keys, .. } => assert_eq!(keys[0].1, OrderDir::Desc),
        other => panic!("expected OrderBy, got {other:?}"),
    }
}

// ── What the passes keep ────────────────────────────────────────────────────

#[test]
fn coalescing_twice_is_coalescing_once() {
    let once = || {
        let plan = raw_join(
            raw_join(
                bgp(vec![pat("s", "http://ex/p", "o")]),
                bgp(vec![pat("o", "http://ex/q", "z")]),
            ),
            bgp(vec![pat("z", "http://ex/r", "w")]),
        );
        CoalesceBgp.run(plan, &ctx())
    };
    match once() {
        LogicalPlan::Bgp { patterns, .. } => assert_eq!(patterns.len(), 3),
        other => panic!("expected one Bgp, got {other:?}"),
    }
    let twice = CoalesceBgp.run(once(), &ctx());
    assert_eq!(format!("{twice:?}"), format!("{:?}", once()));
}

#[test]
fn pruning_leaves_no_reference_dangling() {
    let plan = LogicalPlan::Project {
        vars: vec![Var::new("s")],
        inner: Box::new(LogicalPlan::Filter {
            expr: Expr::Bound(Var::new("z")),
            inner: Box::new(raw_join(
                bgp(vec![pat("s", "http://ex/p", "o")]),
                bgp(vec![pat("o", "http://ex/q", "z")]),
            )),
        }),
    };
    assert_eq!(dangling_refs(&plan).len(), 0);
    let before = format!("{plan:?}");
    let out = ProjectionPushdown.run(plan, &ctx());
    assert_ne!(format!("{out:?}"), before);
    assert_eq!(dangling_refs(&out).len(), 0);
}

struct Corruptor;

impl LogicalPass for Corruptor {
    fn id(&self) -> PassId {
        PassId::Normalize
    }
    fn run(&self, plan: LogicalPlan, _ctx: &PlanCtx) -> LogicalPlan {
        LogicalPlan::Filter {
            expr: Expr::Bound(Var::new("no_such_var")),
            inner: Box::new(plan),
        }
    }
    fn must_follow(&self) -> &'static [PassId] {
        &[]
    }
}

#[test]
#[should_panic(expected = "new dangling")]
fn corrupting_pass_is_caught_by_debug_validation() {
    let passes: Vec<Box<dyn LogicalPass>> = vec![Box::new(Corruptor)];
    run_passes(
        bgp(vec![pat("s", "http://ex/p", "o")]),
        &passes,
        &PlanCtx::default(),
    )
    .expect("new dangling reference");
}

#[test]
fn a_pass_that_adds_a_dangling_reference_is_named() {
    let passes: Vec<Box<dyn LogicalPass>> = vec![Box::new(CoalesceBgp), Box::new(Corruptor)];
    let plan = bgp(vec![pat("s", "http://ex/p", "o")]);
    assert_eq!(
        run_passes(plan, &passes, &PlanCtx::default()).unwrap_err(),
        PassId::Normalize
    );
}

#[test]
fn a_conjunct_sinks_past_a_filter_that_stays() {
    let l = || bgp(vec![pat("a", "http://ex/p1", "x")]);
    let r = || bgp(vec![pat("a", "http://ex/p2", "y")]);
    let over = |a: Term, b: Term| Expr::Gt(Box::new(Expr::Term(a)), Box::new(Expr::Term(b)));
    let low = || over(var("x"), Term::Literal("\"0\"".into()));
    let both = || over(var("x"), var("y"));
    let plan = LogicalPlan::Filter {
        expr: low(),
        inner: Box::new(LogicalPlan::Filter {
            expr: both(),
            inner: Box::new(raw_join(l(), r())),
        }),
    };
    let want = LogicalPlan::Filter {
        expr: both(),
        inner: Box::new(raw_join(
            LogicalPlan::Filter {
                expr: low(),
                inner: Box::new(l()),
            },
            r(),
        )),
    };
    assert_eq!(FilterPushdown.run(plan, &ctx()), want);
}

#[test]
fn narrowing_twice_is_narrowing_once() {
    let plan = LogicalPlan::Project {
        vars: vec![Var::new("s")],
        inner: Box::new(open_bgp(var("p"))),
    };
    let once = ProjectionPushdown.run(plan, &ctx());
    let narrowed = LogicalPlan::Project {
        vars: vec![Var::new("s")],
        inner: Box::new(LogicalPlan::Project {
            vars: vec![Var::new("s")],
            inner: Box::new(open_bgp(var("p"))),
        }),
    };
    assert_eq!(once, narrowed);
    assert_eq!(ProjectionPushdown.run(once, &ctx()), narrowed);
}

#[test]
fn pruning_twice_is_pruning_once() {
    let scan = || PhysicalPlan::BgpScan {
        patterns: vec![pat("s", "http://ex/p", "o"), pat("o", "http://ex/q", "z")],
        scope: GraphScope::DefaultGraph,
    };
    let plan = PhysicalPlan::Project {
        vars: vec![Var::new("s")],
        inner: Box::new(PhysicalPlan::Filter {
            expr: Expr::Bound(Var::new("o")),
            inner: Box::new(PhysicalPlan::Join {
                left: Box::new(scan()),
                right: Box::new(scan()),
            }),
        }),
    };
    let once = rewrite(&plan).unwrap();
    assert_ne!(once, plan);
    assert_eq!(rewrite(&once).unwrap(), once);
}
