//! Shared helpers of the logical-plan passes: a node's output columns, the
//! conjuncts of a predicate, and the bottom-up traversal.

pub mod filter_pullup;
pub mod filter_pushdown;
pub mod laws;
pub mod normal_runs;
pub mod normalize;
pub mod projection_pushdown;
pub mod sinking;

use crate::algebra::{
    aggregates_view, clone_vars, exprs_view, names, names_push, opt_expr_view, patterns_view,
    Aggregate, AggregateView, Expr, ExprView, PatternView, Term, TermView, TriplePattern, Var,
};
use crate::collections::{to_set_push, NameSet};
use crate::plan::logical::{join_view, LogicalPlan, LogicalView};
use crate::plan::passes::filter_pullup::{pullup_join, pullup_join_view};
use crate::plan::passes::filter_pushdown::{push_filter, push_filter_view};
use crate::plan::passes::normalize::{normalize_filter, normalize_filter_view};
use crate::plan::types::{infer, infer_view, TypeMask};
use crate::text::Text;
use vstd::prelude::*;

verus! {

// ── Output columns ──────────────────────────────────────────────────────────

/// Appends a name unless it is already there.
pub open spec fn add_unique(s: Seq<Text>, v: Text) -> Seq<Text> {
    if s.contains(v) {
        s
    } else {
        s.push(v)
    }
}

/// Appends each name of `t` unless it is already there.
pub open spec fn add_all_unique(s: Seq<Text>, t: Seq<Text>) -> Seq<Text>
    decreases t.len(),
{
    if t.len() == 0 {
        s
    } else {
        add_unique(add_all_unique(s, t.drop_last()), t.last())
    }
}

/// The variables of a term, in order of first appearance, after those of `s`.
pub open spec fn term_vars(t: TermView, s: Seq<Text>) -> Seq<Text>
    decreases t,
{
    match t {
        TermView::Var(v) => add_unique(s, v),
        TermView::Triple(tp) => pattern_vars(*tp, s),
        _ => s,
    }
}

pub open spec fn pattern_vars(p: PatternView, s: Seq<Text>) -> Seq<Text>
    decreases p,
{
    term_vars(p.object, term_vars(p.predicate, term_vars(p.subject, s)))
}

pub open spec fn bgp_vars(ps: Seq<PatternView>) -> Seq<Text>
    decreases ps.len(),
{
    if ps.len() == 0 {
        Seq::empty()
    } else {
        pattern_vars(ps.last(), bgp_vars(ps.drop_last()))
    }
}

/// The output names of aggregates.
pub open spec fn agg_outs(aggs: Seq<AggregateView>) -> Seq<Text> {
    Seq::new(aggs.len(), |i: int| aggs[i].out)
}

pub open spec fn endpoint_vars(t: TermView, s: Seq<Text>) -> Seq<Text> {
    match t {
        TermView::Var(v) => add_unique(s, v),
        _ => s,
    }
}

/// A node's natural output columns, in order of first appearance.
pub open spec fn schema_view(node: LogicalView) -> Seq<Text>
    decreases node,
{
    match node {
        LogicalView::Bgp { patterns, .. } => bgp_vars(patterns),
        LogicalView::Join { left, right } => add_all_unique(
            schema_view(*left),
            schema_view(*right),
        ),
        LogicalView::LeftJoin { left, right, .. } => add_all_unique(
            schema_view(*left),
            schema_view(*right),
        ),
        LogicalView::Union { left, right } => add_all_unique(
            schema_view(*left),
            schema_view(*right),
        ),
        LogicalView::Minus { left, .. } => schema_view(*left),
        LogicalView::Filter { inner, .. } => schema_view(*inner),
        LogicalView::Distinct { inner } => schema_view(*inner),
        LogicalView::Slice { inner, .. } => schema_view(*inner),
        LogicalView::OrderBy { inner, .. } => schema_view(*inner),
        LogicalView::Project { vars, .. } => vars,
        LogicalView::Extend { inner, var, .. } => add_unique(schema_view(*inner), var),
        LogicalView::Values { vars, .. } => vars,
        LogicalView::Group { keys, aggregates, .. } => add_all_unique(keys, agg_outs(aggregates)),
        LogicalView::PerGraph { var, inner } => add_unique(schema_view(*inner), var),
        LogicalView::PathClosure { subject, object, .. } => endpoint_vars(
            object,
            endpoint_vars(subject, Seq::empty()),
        ),
    }
}

/// Is `v` among the variables?
pub fn has_var(vars: &Vec<Var>, v: &Var) -> (r: bool)
    ensures
        r == names(vars@).contains(v@),
{
    let mut i: usize = 0;
    while i < vars.len()
        invariant
            i <= vars@.len(),
            forall|j: int| 0 <= j < i ==> (#[trigger] vars@[j])@ != v@,
        decreases vars@.len() - i,
    {
        if vars[i].same(v) {
            assert(names(vars@)[i as int] == v@);
            return true;
        }
        i = i + 1;
    }
    assert forall|k: int| 0 <= k < names(vars@).len() implies names(vars@)[k] != v@ by {
        assert(names(vars@)[k] == vars@[k]@);
    }
    false
}

/// Appends `v` unless it is already there.
pub fn push_unique(out: &mut Vec<Var>, v: &Var)
    ensures
        names(final(out)@) == add_unique(names(old(out)@), v@),
{
    if !has_var(out, v) {
        proof {
            names_push(out@, *v);
        }
        out.push(v.clone());
    }
}

/// Appends each variable of `vars` unless it is already there.
pub fn push_all_unique(out: &mut Vec<Var>, vars: &Vec<Var>)
    ensures
        names(final(out)@) == add_all_unique(names(old(out)@), names(vars@)),
{
    let mut i: usize = 0;
    let ghost base = names(out@);
    while i < vars.len()
        invariant
            i <= vars@.len(),
            names(out@) == add_all_unique(base, names(vars@).take(i as int)),
        decreases vars@.len() - i,
    {
        push_unique(out, &vars[i]);
        proof {
            let t = names(vars@).take(i + 1);
            assert(t.drop_last() =~= names(vars@).take(i as int));
            assert(t.last() == vars@[i as int]@);
        }
        i = i + 1;
    }
    assert(names(vars@).take(vars@.len() as int) =~= names(vars@));
}

pub fn push_pattern_vars(p: &TriplePattern, out: &mut Vec<Var>)
    ensures
        names(final(out)@) == pattern_vars(p@, names(old(out)@)),
    decreases p,
{
    push_term_vars(&p.subject, out);
    push_term_vars(&p.predicate, out);
    push_term_vars(&p.object, out);
}

fn push_term_vars(t: &Term, out: &mut Vec<Var>)
    ensures
        names(final(out)@) == term_vars(t@, names(old(out)@)),
    decreases t,
{
    match t {
        Term::Var(v) => push_unique(out, v),
        Term::Triple(tp) => push_pattern_vars(tp, out),
        _ => {},
    }
}

/// The variables of a flat pattern, in order of first appearance.
pub fn patterns_vars(patterns: &Vec<TriplePattern>) -> (out: Vec<Var>)
    ensures
        names(out@) == bgp_vars(patterns_view(patterns@)),
{
    let mut out: Vec<Var> = Vec::new();
    let ghost pv = patterns_view(patterns@);
    let mut i: usize = 0;
    assert(names(out@) =~= Seq::<Text>::empty());
    while i < patterns.len()
        invariant
            i <= patterns@.len(),
            pv == patterns_view(patterns@),
            names(out@) == bgp_vars(pv.take(i as int)),
        decreases patterns@.len() - i,
    {
        push_pattern_vars(&patterns[i], &mut out);
        proof {
            assert(pv.take(i + 1).drop_last() =~= pv.take(i as int));
            assert(pv.take(i + 1).last() == pv[i as int]);
        }
        i = i + 1;
    }
    assert(pv.take(patterns@.len() as int) =~= pv);
    out
}

/// The key columns of a grouping followed by its aggregate outputs.
pub fn group_vars(keys: &Vec<Var>, aggregates: &Vec<Aggregate>) -> (out: Vec<Var>)
    ensures
        names(out@) == add_all_unique(
            names(keys@),
            agg_outs(aggregates_view(aggregates@)),
        ),
{
    let mut out = clone_vars(keys);
    let ghost outs = agg_outs(aggregates_view(aggregates@));
    let mut i: usize = 0;
    while i < aggregates.len()
        invariant
            i <= aggregates@.len(),
            outs == agg_outs(aggregates_view(aggregates@)),
            names(out@) == add_all_unique(names(keys@), outs.take(i as int)),
        decreases aggregates@.len() - i,
    {
        push_unique(&mut out, &aggregates[i].out);
        proof {
            assert(outs.take(i + 1).drop_last() =~= outs.take(i as int));
            assert(outs.take(i + 1).last() == aggregates@[i as int].out@);
        }
        i = i + 1;
    }
    assert(outs.take(aggregates@.len() as int) =~= outs);
    out
}

/// The variables among two path endpoints, each once.
pub fn endpoints(subject: &Term, object: &Term) -> (out: Vec<Var>)
    ensures
        names(out@) == endpoint_vars(object@, endpoint_vars(subject@, Seq::empty())),
{
    let mut out: Vec<Var> = Vec::new();
    assert(names(out@) =~= Seq::<Text>::empty());
    if let Term::Var(v) = subject {
        push_unique(&mut out, v);
    }
    if let Term::Var(v) = object {
        push_unique(&mut out, v);
    }
    out
}

/// A node's natural output variables, in order of first appearance.
pub fn schema(node: &LogicalPlan) -> (out: Vec<Var>)
    ensures
        names(out@) == schema_view(node@),
    decreases node,
{
    match node {
        LogicalPlan::Bgp { patterns, .. } => patterns_vars(patterns),
        LogicalPlan::Join { left, right } | LogicalPlan::LeftJoin { left, right, .. }
        | LogicalPlan::Union { left, right } => {
            let mut out = schema(left);
            let r = schema(right);
            push_all_unique(&mut out, &r);
            out
        },
        LogicalPlan::Minus { left, .. } => schema(left),
        LogicalPlan::Filter { inner, .. } | LogicalPlan::Distinct { inner } | LogicalPlan::Slice {
            inner,
            ..
        } | LogicalPlan::OrderBy { inner, .. } => schema(inner),
        LogicalPlan::Project { vars, .. } => clone_vars(vars),
        LogicalPlan::Extend { inner, var, .. } => {
            let mut out = schema(inner);
            push_unique(&mut out, var);
            out
        },
        LogicalPlan::Values { vars, .. } => clone_vars(vars),
        LogicalPlan::Group { keys, aggregates, .. } => group_vars(keys, aggregates),
        LogicalPlan::PerGraph { var, inner } => {
            let mut out = schema(inner);
            push_unique(&mut out, var);
            out
        },
        LogicalPlan::PathClosure { subject, object, .. } => endpoints(subject, object),
    }
}

// ── Conjunctions ────────────────────────────────────────────────────────────

/// The conjuncts of a predicate: the leaves of its outermost `And` tree, from
/// left to right.
pub open spec fn conjuncts_view(e: ExprView) -> Seq<ExprView>
    decreases e,
{
    match e {
        ExprView::And(a, b) => conjuncts_view(*a) + conjuncts_view(*b),
        _ => seq![e],
    }
}

/// The right-leaning conjunction of a non-empty list.
pub open spec fn chain_view(parts: Seq<ExprView>) -> ExprView
    decreases parts.len(),
{
    if parts.len() <= 1 {
        parts[0]
    } else {
        ExprView::And(Box::new(parts[0]), Box::new(chain_view(parts.drop_first())))
    }
}

/// The conjunction of a list, if it is not empty.
pub open spec fn conjoin_view(parts: Seq<ExprView>) -> Option<ExprView> {
    if parts.len() == 0 {
        None
    } else {
        Some(chain_view(parts))
    }
}

/// Appends the conjuncts of `expr` to `out`.
pub fn conjuncts(expr: Expr, out: &mut Vec<Expr>)
    ensures
        exprs_view(final(out)@) == exprs_view(old(out)@)
            + conjuncts_view(expr@),
    decreases expr,
{
    match expr {
        Expr::And(a, b) => {
            conjuncts(*a, out);
            conjuncts(*b, out);
            assert(exprs_view(out@) =~= exprs_view(old(out)@) + (
            conjuncts_view(a@) + conjuncts_view(b@)));
        },
        other => {
            out.push(other);
            assert(exprs_view(out@) =~= exprs_view(old(out)@)
                + seq![other@]);
        },
    }
}

/// Rebuilds a right-leaning conjunction; an empty list gives `None`.
pub fn conjoin(parts: Vec<Expr>) -> (r: Option<Expr>)
    ensures
        opt_expr_view(r) == conjoin_view(exprs_view(parts@)),
{
    let ghost pv = exprs_view(parts@);
    let mut rest = parts;
    match rest.pop() {
        None => None,
        Some(last) => {
            let mut acc = last;
            let ghost n = pv.len() as int;
            proof {
                assert(exprs_view(rest@) =~= pv.take(n - 1));
                assert(pv.skip(n - 1)[0] == last@);
            }
            while rest.len() > 0
                invariant
                    n == pv.len(),
                    rest@.len() < n,
                    exprs_view(rest@) == pv.take(rest@.len() as int),
                    acc@ == chain_view(pv.skip(rest@.len() as int)),
                decreases rest@.len(),
            {
                let ghost before = rest@;
                match rest.pop() {
                    None => {},
                    Some(e) => {
                        let ghost k = rest@.len() as int;
                        proof {
                            assert(exprs_view(rest@) =~= pv.take(k));
                            assert(exprs_view(before)[k] == pv.take(k + 1)[k]);
                            assert(pv.skip(k).drop_first() =~= pv.skip(k + 1));
                            assert(pv.skip(k)[0] == e@);
                        }
                        acc = Expr::And(Box::new(e), Box::new(acc));
                    },
                }
            }
            assert(pv.skip(0) =~= pv);
            Some(acc)
        },
    }
}

/// Splitting a conjunction and conjoining the parts again gives a conjunction
/// of the same conjuncts: conjoining never loses, adds or reorders one.
pub proof fn conjoin_keeps_conjuncts(parts: Seq<ExprView>)
    requires
        parts.len() > 0,
        forall|i: int| 0 <= i < parts.len() ==> !(#[trigger] parts[i] is And),
    ensures
        conjoin_view(parts) matches Some(e) && conjuncts_view(e) == parts,
    decreases parts.len(),
{
    if parts.len() == 1 {
        assert(conjuncts_view(parts[0]) =~= parts);
    } else {
        let rest = parts.drop_first();
        assert forall|i: int| 0 <= i < rest.len() implies !(#[trigger] rest[i] is And) by {
            assert(rest[i] == parts[i + 1]);
        }
        conjoin_keeps_conjuncts(rest);
        assert(conjuncts_view(parts[0]) =~= seq![parts[0]]);
        assert(conjuncts_view(chain_view(parts)) =~= seq![parts[0]] + rest);
        assert(seq![parts[0]] + rest =~= parts);
    }
}

/// No conjunct is itself a conjunction.
pub proof fn conjuncts_are_leaves(e: ExprView)
    ensures
        conjuncts_view(e).len() > 0,
        forall|i: int| 0 <= i < conjuncts_view(e).len() ==> !(#[trigger] conjuncts_view(e)[i] is And),
    decreases e,
{
    match e {
        ExprView::And(a, b) => {
            conjuncts_are_leaves(*a);
            conjuncts_are_leaves(*b);
        },
        _ => {},
    }
}

// ── Bound variables ─────────────────────────────────────────────────────────

/// The names of the variables a plan binds in every solution.
pub open spec fn bound_view(node: LogicalView) -> Set<Text> {
    Set::new(|k: Text| infer_view(node).contains_key(k) && infer_view(node)[k].bound())
}

/// The names of the variables `node` provably binds.
pub fn bound_vars(node: &LogicalPlan) -> (out: NameSet)
    ensures
        out@ == bound_view(node@),
{
    let types = infer(node);
    let mut out = NameSet::new();
    let n: usize = types.masks.len();
    let mut i: usize = 0;
    while i < n
        invariant
            i <= n,
            types@ == infer_view(node@),
            n == types.masks.keys().len(),
            types.masks.keys().to_set() == types@.dom(),
            forall|k: Text| #[trigger]
                out@.contains(k) <==> types.masks.keys().take(i as int).contains(k)
                    && types@[k].bound(),
        decreases n - i,
    {
        let key = types.masks.key(i);
        let mask: TypeMask = *types.masks.value(i);
        if mask.is_bound() {
            out.insert(key.as_str());
        }
        proof {
            let t = types.masks.keys().take(i as int);
            let t1 = types.masks.keys().take(i + 1);
            assert(t1 =~= t.push(key@));
            to_set_push(t, key@);
            assert forall|k: Text| t1.contains(k) <==> t.contains(k) || k == key@ by {
                assert(t1.contains(k) == t1.to_set().contains(k));
                assert(t.contains(k) == t.to_set().contains(k));
            }
        }
        i = i + 1;
    }
    proof {
        assert(types.masks.keys().take(n as int) =~= types.masks.keys());
        assert forall|k: Text| out@.contains(k) <==> bound_view(node@).contains(k) by {
            assert(types.masks.keys().contains(k) == types.masks.keys().to_set().contains(k));
        }
        assert(out@ =~= bound_view(node@));
    }
    out
}

// ── Bottom-up traversal ─────────────────────────────────────────────────────

/// A rewrite that is applied to every node from the leaves up.
#[derive(Clone, Copy)]
pub enum Rewrite {
    Coalesce,
    Normalize,
    Pullup,
    Pushdown,
}

/// What a rewrite makes of a node whose children are already rewritten.
pub open spec fn rewrite_node(rule: Rewrite, node: LogicalView) -> LogicalView {
    match (rule, node) {
        (Rewrite::Coalesce, LogicalView::Join { left, right }) => join_view(*left, *right),
        (Rewrite::Normalize, LogicalView::Filter { expr, inner }) => normalize_filter_view(
            expr,
            *inner,
        ),
        (Rewrite::Pullup, LogicalView::Join { left, right }) => pullup_join_view(*left, *right),
        (Rewrite::Pushdown, LogicalView::Filter { expr, inner }) => push_filter_view(expr, *inner),
        _ => node,
    }
}

/// A node with its children rewritten.
pub open spec fn map_children_view(rule: Rewrite, node: LogicalView) -> LogicalView
    decreases node, 0int,
{
    match node {
        LogicalView::Bgp { .. } => node,
        LogicalView::Values { .. } => node,
        LogicalView::Join { left, right } => LogicalView::Join {
            left: Box::new(rewrite_view(rule, *left)),
            right: Box::new(rewrite_view(rule, *right)),
        },
        LogicalView::Minus { left, right } => LogicalView::Minus {
            left: Box::new(rewrite_view(rule, *left)),
            right: Box::new(rewrite_view(rule, *right)),
        },
        LogicalView::Union { left, right } => LogicalView::Union {
            left: Box::new(rewrite_view(rule, *left)),
            right: Box::new(rewrite_view(rule, *right)),
        },
        LogicalView::LeftJoin { left, right, expr } => LogicalView::LeftJoin {
            left: Box::new(rewrite_view(rule, *left)),
            right: Box::new(rewrite_view(rule, *right)),
            expr,
        },
        LogicalView::Filter { expr, inner } => LogicalView::Filter {
            expr,
            inner: Box::new(rewrite_view(rule, *inner)),
        },
        LogicalView::Project { vars, inner } => LogicalView::Project {
            vars,
            inner: Box::new(rewrite_view(rule, *inner)),
        },
        LogicalView::Distinct { inner } => LogicalView::Distinct {
            inner: Box::new(rewrite_view(rule, *inner)),
        },
        LogicalView::Slice { inner, start, length } => LogicalView::Slice {
            inner: Box::new(rewrite_view(rule, *inner)),
            start,
            length,
        },
        LogicalView::OrderBy { inner, keys } => LogicalView::OrderBy {
            inner: Box::new(rewrite_view(rule, *inner)),
            keys,
        },
        LogicalView::Extend { inner, var, expr } => LogicalView::Extend {
            inner: Box::new(rewrite_view(rule, *inner)),
            var,
            expr,
        },
        LogicalView::Group { inner, keys, aggregates } => LogicalView::Group {
            inner: Box::new(rewrite_view(rule, *inner)),
            keys,
            aggregates,
        },
        LogicalView::PerGraph { var, inner } => LogicalView::PerGraph {
            var,
            inner: Box::new(rewrite_view(rule, *inner)),
        },
        LogicalView::PathClosure { subject, object, edge, reflexive } => LogicalView::PathClosure {
            subject,
            object,
            edge: Box::new(rewrite_view(rule, *edge)),
            reflexive,
        },
    }
}

/// A plan rewritten from the leaves up.
pub open spec fn rewrite_view(rule: Rewrite, plan: LogicalView) -> LogicalView
    decreases plan, 1int,
{
    rewrite_node(rule, map_children_view(rule, plan))
}

/// Rewrites each direct child of `node` and rebuilds `node` around them.
pub fn map_children(rule: Rewrite, node: LogicalPlan) -> (r: LogicalPlan)
    ensures
        r@ == map_children_view(rule, node@),
    decreases node, 0int,
{
    match node {
        LogicalPlan::Bgp { patterns, scope } => LogicalPlan::Bgp { patterns, scope },
        LogicalPlan::Values { vars, rows } => LogicalPlan::Values { vars, rows },
        LogicalPlan::Join { left, right } => LogicalPlan::Join {
            left: Box::new(rewrite(rule, *left)),
            right: Box::new(rewrite(rule, *right)),
        },
        LogicalPlan::Minus { left, right } => LogicalPlan::Minus {
            left: Box::new(rewrite(rule, *left)),
            right: Box::new(rewrite(rule, *right)),
        },
        LogicalPlan::Union { left, right } => LogicalPlan::Union {
            left: Box::new(rewrite(rule, *left)),
            right: Box::new(rewrite(rule, *right)),
        },
        LogicalPlan::LeftJoin { left, right, expr } => LogicalPlan::LeftJoin {
            left: Box::new(rewrite(rule, *left)),
            right: Box::new(rewrite(rule, *right)),
            expr,
        },
        LogicalPlan::Filter { expr, inner } => LogicalPlan::Filter {
            expr,
            inner: Box::new(rewrite(rule, *inner)),
        },
        LogicalPlan::Project { vars, inner } => LogicalPlan::Project {
            vars,
            inner: Box::new(rewrite(rule, *inner)),
        },
        LogicalPlan::Distinct { inner } => LogicalPlan::Distinct {
            inner: Box::new(rewrite(rule, *inner)),
        },
        LogicalPlan::Slice { inner, start, length } => LogicalPlan::Slice {
            inner: Box::new(rewrite(rule, *inner)),
            start,
            length,
        },
        LogicalPlan::OrderBy { inner, keys } => LogicalPlan::OrderBy {
            inner: Box::new(rewrite(rule, *inner)),
            keys,
        },
        LogicalPlan::Extend { inner, var, expr } => LogicalPlan::Extend {
            inner: Box::new(rewrite(rule, *inner)),
            var,
            expr,
        },
        LogicalPlan::Group { inner, keys, aggregates } => LogicalPlan::Group {
            inner: Box::new(rewrite(rule, *inner)),
            keys,
            aggregates,
        },
        LogicalPlan::PerGraph { var, inner } => LogicalPlan::PerGraph {
            var,
            inner: Box::new(rewrite(rule, *inner)),
        },
        LogicalPlan::PathClosure { subject, object, edge, reflexive } => LogicalPlan::PathClosure {
            subject,
            object,
            edge: Box::new(rewrite(rule, *edge)),
            reflexive,
        },
    }
}

/// Rewrites a plan from the leaves up.
pub fn rewrite(rule: Rewrite, plan: LogicalPlan) -> (r: LogicalPlan)
    ensures
        r@ == rewrite_view(rule, plan@),
    decreases plan, 1int,
{
    let node = map_children(rule, plan);
    match (rule, node) {
        (Rewrite::Coalesce, LogicalPlan::Join { left, right }) => LogicalPlan::join(*left, *right),
        (Rewrite::Normalize, LogicalPlan::Filter { expr, inner }) => normalize_filter(expr, *inner),
        (Rewrite::Pullup, LogicalPlan::Join { left, right }) => pullup_join(*left, *right),
        (Rewrite::Pushdown, LogicalPlan::Filter { expr, inner }) => push_filter(expr, *inner),
        (_, other) => other,
    }
}

}
