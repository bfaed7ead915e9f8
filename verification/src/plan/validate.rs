//! References no subtree backs: variables that a projection lists or a filter
//! reads, and that nothing below binds. Such a reference is legal in a query,
//! and a pass must not add one.

use crate::algebra::{AggregateView, ExprView, PatternView, TermView};
use crate::collections::{to_set_push, NameSet};
use crate::exec::refs::{referenced_vars, refs, refs_all};
use crate::plan::logical::{LogicalPlan, LogicalView};
use crate::plan::passes::filter_pullup::{pullup_join_view, strip_parts, stripped};
use crate::plan::passes::filter_pushdown::{
    legal_view, push_filter_view, push_one_view, residual_parts, sunk_plan, wrap_view,
};
use crate::plan::passes::normalize::{
    const_bool_view, has_false, normalize_filter_view, open_parts, reduce_view,
};
use crate::plan::passes::{
    add_all_unique, add_unique, agg_outs, bgp_vars, bound_view, chain_view, conjuncts_view,
    endpoint_vars, map_children_view, pattern_vars, rewrite_node, rewrite_view, schema_view,
    term_vars, Rewrite,
};
use crate::plan::types::{
    agg_masks, bgp_masks, column_masks, combine_masks, endpoint_masks, infer, infer_view,
    pattern_masks, term_masks, values_masks, Combine, TypeMask, VarTypes,
};
use crate::text::Text;
use vstd::prelude::*;
use vstd::string::*;

verus! {

/// The names used that are not known, after the word for what uses them.
pub open spec fn missing(kind: Text, used: Set<Text>, known: Map<Text, TypeMask>) -> Set<Text> {
    Set::new(
        |t: Text|
            exists|v: Text| #[trigger] used.contains(v) && !known.contains_key(v) && t == kind + v,
    )
}

/// The references of a plan that nothing below them backs.
pub open spec fn dangling(plan: LogicalView) -> Set<Text>
    decreases plan,
{
    match plan {
        LogicalView::Project { vars, inner } => missing(
            "Project:?"@,
            vars.to_set(),
            infer_view(*inner),
        ).union(dangling(*inner)),
        LogicalView::Filter { expr, inner } => missing(
            "Filter:?"@,
            refs(expr),
            infer_view(*inner),
        ).union(dangling(*inner)),
        LogicalView::Join { left, right } => dangling(*left).union(dangling(*right)),
        LogicalView::LeftJoin { left, right, .. } => dangling(*left).union(dangling(*right)),
        LogicalView::Minus { left, right } => dangling(*left).union(dangling(*right)),
        LogicalView::Union { left, right } => dangling(*left).union(dangling(*right)),
        LogicalView::Distinct { inner } => dangling(*inner),
        LogicalView::Slice { inner, .. } => dangling(*inner),
        LogicalView::OrderBy { inner, .. } => dangling(*inner),
        LogicalView::Extend { inner, .. } => dangling(*inner),
        LogicalView::Group { inner, .. } => dangling(*inner),
        LogicalView::PerGraph { inner, .. } => dangling(*inner),
        LogicalView::PathClosure { edge, .. } => dangling(*edge),
        LogicalView::Bgp { .. } => Set::empty(),
        LogicalView::Values { .. } => Set::empty(),
    }
}

proof fn missing_of_none(kind: Text, known: Map<Text, TypeMask>)
    ensures
        missing(kind, Set::empty(), known) == Set::<Text>::empty(),
{
    let m = missing(kind, Set::empty(), known);
    assert forall|t: Text| !m.contains(t) by {}
    assert(m =~= Set::empty());
}

proof fn missing_of_one_more(kind: Text, used: Set<Text>, v: Text, known: Map<Text, TypeMask>)
    ensures
        missing(kind, used.insert(v), known) == if known.contains_key(v) {
            missing(kind, used, known)
        } else {
            missing(kind, used, known).insert(kind + v)
        },
{
    let a = missing(kind, used.insert(v), known);
    let b = missing(kind, used, known);
    assert forall|t: Text| b.contains(t) implies a.contains(t) by {
        let w = choose|w: Text| #[trigger]
            used.contains(w) && !known.contains_key(w) && t == kind + w;
        assert(used.insert(v).contains(w));
    }
    assert forall|t: Text| a.contains(t) implies b.contains(t) || (!known.contains_key(v) && t
        == kind + v) by {
        let w = choose|w: Text| #[trigger]
            used.insert(v).contains(w) && !known.contains_key(w) && t == kind + w;
        if w != v {
            assert(used.contains(w));
        }
    }
    assert(used.insert(v).contains(v));
    if known.contains_key(v) {
        assert(a =~= b);
    } else {
        assert(a.contains(kind + v));
        assert(a =~= b.insert(kind + v));
    }
}

/// Adds the missing names of a list to a set.
fn note_missing(kind: &str, used: &NameSet, known: &VarTypes, out: &mut NameSet)
    ensures
        final(out)@ == old(out)@.union(missing(kind@, used@, known@)),
{
    let n: usize = used.len();
    let ghost start = out@;
    let mut i: usize = 0;
    proof {
        missing_of_none(kind@, known@);
        assert(used.order().take(0).to_set() =~= Set::empty());
        assert(start.union(Set::empty()) =~= start);
    }
    while i < n
        invariant
            i <= n,
            n == used.order().len(),
            out@ == start.union(
                missing(kind@, used.order().take(i as int).to_set(), known@),
            ),
        decreases n - i,
    {
        let name = used.item(i);
        proof {
            let t = used.order().take(i as int);
            assert(used.order().take(i + 1) =~= t.push(name@));
            to_set_push(t, name@);
            missing_of_one_more(kind@, t.to_set(), name@, known@);
        }
        let ghost before = out@;
        if !known.masks.contains(name.as_str()) {
            let mut tagged = kind.to_owned();
            tagged.append(name.as_str());
            out.insert(tagged.as_str());
            assert(out@ =~= start.union(
                missing(kind@, used.order().take(i + 1).to_set(), known@),
            ));
        }
        i = i + 1;
    }
    assert(used.order().take(n as int) =~= used.order());
}

fn walk(node: &LogicalPlan, out: &mut NameSet)
    ensures
        final(out)@ == old(out)@.union(dangling(node@)),
    decreases node,
{
    let ghost start = out@;
    match node {
        LogicalPlan::Project { vars, inner } => {
            note_missing("Project:?", &NameSet::of_vars(vars), &infer(inner), out);
            walk(inner, out);
            assert(out@ =~= start.union(dangling(node@)));
        },
        LogicalPlan::Filter { expr, inner } => {
            let mut used = NameSet::new();
            referenced_vars(expr, &mut used);
            assert(used@ =~= refs(expr@));
            note_missing("Filter:?", &used, &infer(inner), out);
            walk(inner, out);
            assert(out@ =~= start.union(dangling(node@)));
        },
        LogicalPlan::Join { left, right } | LogicalPlan::LeftJoin { left, right, .. }
        | LogicalPlan::Minus { left, right } | LogicalPlan::Union { left, right } => {
            walk(left, out);
            walk(right, out);
            assert(out@ =~= start.union(dangling(node@)));
        },
        LogicalPlan::Distinct { inner } | LogicalPlan::Slice { inner, .. }
        | LogicalPlan::OrderBy { inner, .. } | LogicalPlan::Extend { inner, .. }
        | LogicalPlan::Group { inner, .. } | LogicalPlan::PerGraph { inner, .. } => walk(inner, out),
        LogicalPlan::PathClosure { edge, .. } => walk(edge, out),
        LogicalPlan::Bgp { .. } | LogicalPlan::Values { .. } => {
            assert(out@ =~= start.union(dangling(node@)));
        },
    }
}

/// The references of a plan that nothing below them backs, each after the word
/// for the node that makes it.
pub fn dangling_refs(plan: &LogicalPlan) -> (out: NameSet)
    ensures
        out@ == dangling(plan@),
{
    let mut out = NameSet::new();
    walk(plan, &mut out);
    assert(out@ =~= dangling(plan@));
    out
}

// ── No pass adds a reference ────────────────────────────────────────────────

proof fn fewer_are_missing(
    kind: Text,
    used: Set<Text>,
    known: Map<Text, TypeMask>,
    more_used: Set<Text>,
    less_known: Map<Text, TypeMask>,
)
    requires
        used.subset_of(more_used),
        less_known.dom().subset_of(known.dom()),
    ensures
        missing(kind, used, known).subset_of(missing(kind, more_used, less_known)),
{
    assert forall|t: Text| missing(kind, used, known).contains(t) implies missing(
        kind,
        more_used,
        less_known,
    ).contains(t) by {
        let v = choose|v: Text| #[trigger]
            used.contains(v) && !known.contains_key(v) && t == kind + v;
        assert(more_used.contains(v));
        assert(!less_known.dom().contains(v));
    }
}

proof fn missing_of_both(kind: Text, a: Set<Text>, b: Set<Text>, known: Map<Text, TypeMask>)
    ensures
        missing(kind, a.union(b), known) == missing(kind, a, known).union(missing(kind, b, known)),
{
    let whole = missing(kind, a.union(b), known);
    let (l, r) = (missing(kind, a, known), missing(kind, b, known));
    fewer_are_missing(kind, a, known, a.union(b), known);
    fewer_are_missing(kind, b, known, a.union(b), known);
    assert forall|t: Text| whole.contains(t) implies l.contains(t) || r.contains(t) by {
        let v = choose|v: Text| #[trigger]
            a.union(b).contains(v) && !known.contains_key(v) && t == kind + v;
        assert(a.contains(v) || b.contains(v));
    }
    assert(whole =~= l.union(r));
}

proof fn refs_of_both(a: Seq<ExprView>, b: Seq<ExprView>)
    ensures
        refs_all(a + b) == refs_all(a).union(refs_all(b)),
    decreases b.len(),
{
    if b.len() == 0 {
        assert(a + b =~= a);
        assert(refs_all(a).union(refs_all(b)) =~= refs_all(a));
    } else {
        refs_of_both(a, b.drop_last());
        assert((a + b).drop_last() =~= a + b.drop_last());
        assert((a + b).last() == b.last());
        assert(refs_all(a + b) =~= refs_all(a).union(refs_all(b)));
    }
}

proof fn refs_of_one(e: ExprView)
    ensures
        refs_all(seq![e]) == refs(e),
{
    assert(seq![e].drop_last() =~= Seq::<ExprView>::empty());
    assert(refs_all(seq![e].drop_last()) =~= Set::empty());
    assert(refs_all(seq![e]) =~= refs(e));
}

/// A predicate reads what its conjuncts read.
pub proof fn refs_of_conjuncts(e: ExprView)
    ensures
        refs_all(conjuncts_view(e)) == refs(e),
    decreases e,
{
    match e {
        ExprView::And(a, b) => {
            refs_of_conjuncts(*a);
            refs_of_conjuncts(*b);
            refs_of_both(conjuncts_view(*a), conjuncts_view(*b));
        },
        _ => refs_of_one(e),
    }
}

/// A conjunction reads what its parts read.
pub proof fn refs_of_chain(parts: Seq<ExprView>)
    requires
        parts.len() > 0,
    ensures
        refs(chain_view(parts)) == refs_all(parts),
    decreases parts.len(),
{
    if parts.len() == 1 {
        assert(parts =~= seq![parts[0]]);
        refs_of_one(parts[0]);
    } else {
        refs_of_chain(parts.drop_first());
        refs_of_one(parts[0]);
        refs_of_both(seq![parts[0]], parts.drop_first());
        assert(seq![parts[0]] + parts.drop_first() =~= parts);
    }
}

proof fn term_masks_dom(t: TermView, mask: TypeMask, acc: Map<Text, TypeMask>)
    ensures
        term_masks(t, mask, acc).dom() == acc.dom().union(term_masks(t, mask, Map::empty()).dom()),
    decreases t,
{
    match t {
        TermView::Var(v) => {
            assert(term_masks(t, mask, acc).dom() =~= acc.dom().insert(v));
            assert(term_masks(t, mask, Map::empty()).dom() =~= set![v]);
        },
        TermView::Triple(tp) => pattern_masks_dom(*tp, acc),
        _ => {},
    }
    assert(term_masks(t, mask, acc).dom() =~= acc.dom().union(
        term_masks(t, mask, Map::empty()).dom(),
    ));
}

proof fn pattern_masks_dom(p: PatternView, acc: Map<Text, TypeMask>)
    ensures
        pattern_masks(p, acc).dom() == acc.dom().union(pattern_masks(p, Map::empty()).dom()),
    decreases p,
{
    let sm = TypeMask::of(0b0_0110);
    let pm = TypeMask::of(TypeMask::NAMED_NODE);
    let om = TypeMask::of(TypeMask::ANY);
    let e = Map::<Text, TypeMask>::empty();
    let s = term_masks(p.subject, sm, acc);
    let sp = term_masks(p.predicate, pm, s);
    let s0 = term_masks(p.subject, sm, e);
    let sp0 = term_masks(p.predicate, pm, s0);
    term_masks_dom(p.subject, sm, acc);
    term_masks_dom(p.predicate, pm, s);
    term_masks_dom(p.predicate, pm, s0);
    term_masks_dom(p.object, om, sp);
    term_masks_dom(p.object, om, sp0);
    assert(pattern_masks(p, acc).dom() =~= acc.dom().union(pattern_masks(p, e).dom()));
}

proof fn bgp_masks_dom(a: Seq<PatternView>, b: Seq<PatternView>)
    ensures
        bgp_masks(a + b).dom() == bgp_masks(a).dom().union(bgp_masks(b).dom()),
    decreases b.len(),
{
    if b.len() == 0 {
        assert(a + b =~= a);
        assert(bgp_masks(a + b).dom() =~= bgp_masks(a).dom().union(bgp_masks(b).dom()));
    } else {
        bgp_masks_dom(a, b.drop_last());
        assert((a + b).drop_last() =~= a + b.drop_last());
        pattern_masks_dom(b.last(), bgp_masks(a + b.drop_last()));
        pattern_masks_dom(b.last(), bgp_masks(b.drop_last()));
        assert(bgp_masks(a + b).dom() =~= bgp_masks(a).dom().union(bgp_masks(b).dom()));
    }
}

proof fn added_is_inserted(s: Seq<Text>, v: Text)
    ensures
        add_unique(s, v).to_set() == s.to_set().insert(v),
{
    if s.contains(v) {
        assert(s.to_set().contains(v));
        assert(s.to_set().insert(v) =~= s.to_set());
    } else {
        to_set_push(s, v);
    }
}

proof fn all_added_is_union(s: Seq<Text>, t: Seq<Text>)
    ensures
        add_all_unique(s, t).to_set() == s.to_set().union(t.to_set()),
    decreases t.len(),
{
    if t.len() == 0 {
        assert(t.to_set() =~= Set::empty());
        assert(s.to_set().union(t.to_set()) =~= s.to_set());
    } else {
        all_added_is_union(s, t.drop_last());
        added_is_inserted(add_all_unique(s, t.drop_last()), t.last());
        assert(t =~= t.drop_last().push(t.last()));
        to_set_push(t.drop_last(), t.last());
        assert(s.to_set().union(t.to_set()) =~= s.to_set().union(t.drop_last().to_set()).insert(
            t.last(),
        ));
    }
}

proof fn term_vars_dom(t: TermView, mask: TypeMask, s: Seq<Text>, acc: Map<Text, TypeMask>)
    requires
        s.to_set() == acc.dom(),
    ensures
        term_vars(t, s).to_set() == term_masks(t, mask, acc).dom(),
    decreases t,
{
    match t {
        TermView::Var(v) => {
            added_is_inserted(s, v);
            assert(term_masks(t, mask, acc).dom() =~= acc.dom().insert(v));
        },
        TermView::Triple(tp) => pattern_vars_dom(*tp, s, acc),
        _ => {},
    }
}

proof fn pattern_vars_dom(p: PatternView, s: Seq<Text>, acc: Map<Text, TypeMask>)
    requires
        s.to_set() == acc.dom(),
    ensures
        pattern_vars(p, s).to_set() == pattern_masks(p, acc).dom(),
    decreases p,
{
    let sm = TypeMask::of(0b0_0110);
    let pm = TypeMask::of(TypeMask::NAMED_NODE);
    let om = TypeMask::of(TypeMask::ANY);
    let m1 = term_masks(p.subject, sm, acc);
    let m2 = term_masks(p.predicate, pm, m1);
    term_vars_dom(p.subject, sm, s, acc);
    term_vars_dom(p.predicate, pm, term_vars(p.subject, s), m1);
    term_vars_dom(p.object, om, term_vars(p.predicate, term_vars(p.subject, s)), m2);
}

proof fn bgp_vars_dom(ps: Seq<PatternView>)
    ensures
        bgp_vars(ps).to_set() == bgp_masks(ps).dom(),
    decreases ps.len(),
{
    if ps.len() == 0 {
        assert(bgp_vars(ps).to_set() =~= bgp_masks(ps).dom());
    } else {
        bgp_vars_dom(ps.drop_last());
        pattern_vars_dom(ps.last(), bgp_vars(ps.drop_last()), bgp_masks(ps.drop_last()));
    }
}

proof fn values_dom(vars: Seq<Text>, rows: Seq<Seq<Option<TermView>>>)
    ensures
        values_masks(vars, rows).dom() == vars.to_set(),
    decreases vars.len(),
{
    if vars.len() == 0 {
        assert(values_masks(vars, rows).dom() =~= vars.to_set());
    } else {
        values_dom(vars.drop_last(), rows);
        assert(vars =~= vars.drop_last().push(vars.last()));
        to_set_push(vars.drop_last(), vars.last());
        assert(values_masks(vars, rows).dom() =~= vars.to_set());
    }
}

proof fn agg_masks_dom(aggs: Seq<AggregateView>, acc: Map<Text, TypeMask>)
    ensures
        agg_masks(aggs, acc).dom() == acc.dom().union(agg_outs(aggs).to_set()),
    decreases aggs.len(),
{
    let outs = agg_outs(aggs);
    if aggs.len() == 0 {
        assert(outs.to_set() =~= Set::empty());
        assert(agg_masks(aggs, acc).dom() =~= acc.dom().union(outs.to_set()));
    } else {
        agg_masks_dom(aggs.drop_last(), acc);
        assert(outs =~= agg_outs(aggs.drop_last()).push(aggs.last().out));
        to_set_push(agg_outs(aggs.drop_last()), aggs.last().out);
        assert(agg_masks(aggs, acc).dom() =~= acc.dom().union(outs.to_set()));
    }
}

proof fn columns_dom(child: Map<Text, TypeMask>, vars: Seq<Text>)
    ensures
        column_masks(child, vars).dom() == vars.to_set(),
{
    assert(column_masks(child, vars).dom() =~= vars.to_set());
}

proof fn combined_dom(how: Combine, l: Map<Text, TypeMask>, r: Map<Text, TypeMask>)
    ensures
        combine_masks(how, l, r).dom() == l.dom().union(r.dom()),
{
    assert(combine_masks(how, l, r).dom() =~= l.dom().union(r.dom()));
}

/// The columns a plan produces are exactly the variables whose kinds are
/// inferred.
pub proof fn schema_is_what_is_inferred(plan: LogicalView)
    ensures
        schema_view(plan).to_set() == infer_view(plan).dom(),
    decreases plan,
{
    match plan {
        LogicalView::Bgp { patterns, .. } => bgp_vars_dom(patterns),
        LogicalView::Join { left, right } => {
            schema_is_what_is_inferred(*left);
            schema_is_what_is_inferred(*right);
            all_added_is_union(schema_view(*left), schema_view(*right));
            combined_dom(Combine::Join, infer_view(*left), infer_view(*right));
        },
        LogicalView::LeftJoin { left, right, .. } => {
            schema_is_what_is_inferred(*left);
            schema_is_what_is_inferred(*right);
            all_added_is_union(schema_view(*left), schema_view(*right));
            combined_dom(Combine::LeftJoin, infer_view(*left), infer_view(*right));
        },
        LogicalView::Union { left, right } => {
            schema_is_what_is_inferred(*left);
            schema_is_what_is_inferred(*right);
            all_added_is_union(schema_view(*left), schema_view(*right));
            combined_dom(Combine::Union, infer_view(*left), infer_view(*right));
        },
        LogicalView::Minus { left, .. } => schema_is_what_is_inferred(*left),
        LogicalView::Filter { inner, .. } => schema_is_what_is_inferred(*inner),
        LogicalView::Distinct { inner } => schema_is_what_is_inferred(*inner),
        LogicalView::Slice { inner, .. } => schema_is_what_is_inferred(*inner),
        LogicalView::OrderBy { inner, .. } => schema_is_what_is_inferred(*inner),
        LogicalView::Project { vars, inner } => columns_dom(infer_view(*inner), vars),
        LogicalView::Extend { inner, var, .. } => {
            schema_is_what_is_inferred(*inner);
            added_is_inserted(schema_view(*inner), var);
            assert(infer_view(plan).dom() =~= infer_view(*inner).dom().insert(var));
        },
        LogicalView::Values { vars, rows } => values_dom(vars, rows),
        LogicalView::Group { inner, keys, aggregates } => {
            all_added_is_union(keys, agg_outs(aggregates));
            columns_dom(infer_view(*inner), keys);
            agg_masks_dom(aggregates, column_masks(infer_view(*inner), keys));
        },
        LogicalView::PerGraph { var, inner } => {
            schema_is_what_is_inferred(*inner);
            added_is_inserted(schema_view(*inner), var);
            let g = map![var => TypeMask::of(TypeMask::NAMED_NODE)];
            combined_dom(Combine::Join, infer_view(*inner), g);
            assert(infer_view(plan).dom() =~= infer_view(*inner).dom().insert(var));
        },
        LogicalView::PathClosure { subject, object, .. } => {
            let none = Seq::<Text>::empty();
            let m0 = Map::<Text, TypeMask>::empty();
            assert(none.to_set() =~= m0.dom());
            let s1 = endpoint_vars(subject, none);
            let m1 = endpoint_masks(subject, m0);
            if let TermView::Var(v) = subject {
                added_is_inserted(none, v);
                assert(m1.dom() =~= m0.dom().insert(v));
            }
            if let TermView::Var(v) = object {
                added_is_inserted(s1, v);
                assert(endpoint_masks(object, m1).dom() =~= m1.dom().insert(v));
            }
        },
    }
}

proof fn stripping_keeps(node: LogicalView)
    ensures
        infer_view(stripped(node)) == infer_view(node),
        dangling(stripped(node)).subset_of(dangling(node)),
        missing("Filter:?"@, refs_all(strip_parts(node)), infer_view(node)).subset_of(
            dangling(node),
        ),
    decreases node,
{
    match node {
        LogicalView::Filter { expr, inner } => {
            stripping_keeps(*inner);
            refs_of_conjuncts(expr);
            refs_of_both(conjuncts_view(expr), strip_parts(*inner));
            missing_of_both(
                "Filter:?"@,
                refs(expr),
                refs_all(strip_parts(*inner)),
                infer_view(*inner),
            );
        },
        _ => missing_of_none("Filter:?"@, infer_view(node)),
    }
}

proof fn pulling_up_keeps(left: LogicalView, right: LogicalView)
    ensures
        infer_view(pullup_join_view(left, right)) == combine_masks(
            Combine::Join,
            infer_view(left),
            infer_view(right),
        ),
        dangling(pullup_join_view(left, right)).subset_of(dangling(left).union(dangling(right))),
{
    stripping_keeps(left);
    stripping_keeps(right);
    let kind = "Filter:?"@;
    let (lp, rp) = (strip_parts(left), strip_parts(right));
    let parts = lp + rp;
    let known = combine_masks(Combine::Join, infer_view(left), infer_view(right));
    combined_dom(Combine::Join, infer_view(left), infer_view(right));
    let join = LogicalView::Join { left: Box::new(stripped(left)), right: Box::new(stripped(right)) };
    assert(infer_view(join) == known);
    assert(dangling(join) == dangling(stripped(left)).union(dangling(stripped(right))));
    if parts.len() > 0 {
        refs_of_chain(parts);
        refs_of_both(lp, rp);
        missing_of_both(kind, refs_all(lp), refs_all(rp), known);
        fewer_are_missing(kind, refs_all(lp), known, refs_all(lp), infer_view(left));
        fewer_are_missing(kind, refs_all(rp), known, refs_all(rp), infer_view(right));
        let top = LogicalView::Filter { expr: chain_view(parts), inner: Box::new(join) };
        assert(dangling(top) == missing(kind, refs_all(parts), known).union(dangling(join)));
    }
}

proof fn reducing_keeps_refs(e: ExprView, types: Map<Text, TypeMask>)
    ensures
        refs(reduce_view(e, types)) == refs(e),
    decreases e,
{
    match e {
        ExprView::And(a, b) => {
            reducing_keeps_refs(*a, types);
            reducing_keeps_refs(*b, types);
        },
        ExprView::Or(a, b) => {
            reducing_keeps_refs(*a, types);
            reducing_keeps_refs(*b, types);
        },
        ExprView::Not(a) => reducing_keeps_refs(*a, types),
        _ => {},
    }
}

proof fn open_parts_read_less(parts: Seq<ExprView>, types: Map<Text, TypeMask>)
    ensures
        refs_all(open_parts(parts, types)).subset_of(refs_all(parts)),
    decreases parts.len(),
{
    if parts.len() > 0 {
        open_parts_read_less(parts.drop_last(), types);
        reducing_keeps_refs(parts.last(), types);
        let kept = open_parts(parts.drop_last(), types);
        let last = reduce_view(parts.last(), types);
        if const_bool_view(last) is None {
            assert(kept.push(last).drop_last() =~= kept);
            assert(kept.push(last).last() == last);
        }
    }
}

proof fn normalizing_keeps(expr: ExprView, inner: LogicalView)
    ensures
        infer_view(normalize_filter_view(expr, inner)).dom() == infer_view(inner).dom(),
        dangling(normalize_filter_view(expr, inner)).subset_of(
            missing("Filter:?"@, refs(expr), infer_view(inner)).union(dangling(inner)),
        ),
{
    let parts = conjuncts_view(expr);
    let types = infer_view(inner);
    if has_false(parts, types) {
        schema_is_what_is_inferred(inner);
        values_dom(schema_view(inner), Seq::empty());
    } else {
        let kept = open_parts(parts, types);
        open_parts_read_less(parts, types);
        refs_of_conjuncts(expr);
        if kept.len() > 0 {
            refs_of_chain(kept);
            fewer_are_missing("Filter:?"@, refs_all(kept), types, refs(expr), types);
        }
    }
}

proof fn sinking_keeps(c: ExprView, node: LogicalView)
    ensures
        push_one_view(c, node) matches Some(p) ==> infer_view(p) == infer_view(node) && dangling(
            p,
        ).subset_of(missing("Filter:?"@, refs(c), infer_view(node)).union(dangling(node))),
    decreases node, 0int,
{
    let kind = "Filter:?"@;
    match node {
        LogicalView::Join { left, right } => {
            combined_dom(Combine::Join, infer_view(*left), infer_view(*right));
            if legal_view(c, *left) {
                wrapping_keeps(c, *left);
                nothing_missing(c, *left);
            } else if legal_view(c, *right) {
                wrapping_keeps(c, *right);
                nothing_missing(c, *right);
            }
        },
        LogicalView::LeftJoin { left, right, .. } => {
            if legal_view(c, *left) {
                wrapping_keeps(c, *left);
                nothing_missing(c, *left);
            }
        },
        LogicalView::Project { vars, inner } => {
            if legal_view(c, node) {
                wrapping_keeps(c, *inner);
                let known = infer_view(*inner);
                assert forall|v: Text| refs(c).contains(v) implies known.contains_key(v) by {
                    assert(bound_view(node).contains(v));
                    if !known.contains_key(v) {
                        assert(infer_view(node)[v] == TypeMask::of(0b1_1111));
                        assert(0b1_1111u8 & 1u8 != 0u8) by (bit_vector);
                    }
                }
                assert(missing(kind, refs(c), known) =~= Set::empty());
            }
        },
        LogicalView::Bgp { .. } => {},
        LogicalView::Filter { expr, inner } => {
            let parts = conjuncts_view(expr).push(c);
            refs_of_conjuncts(expr);
            refs_of_chain(parts);
            assert(parts.drop_last() =~= conjuncts_view(expr));
            assert(parts.last() == c);
            missing_of_both(kind, refs(expr), refs(c), infer_view(*inner));
            sinking_keeps(c, *inner);
        },
        _ => {},
    }
}

proof fn nothing_missing(c: ExprView, arm: LogicalView)
    requires
        legal_view(c, arm),
    ensures
        missing("Filter:?"@, refs(c), infer_view(arm)) == Set::<Text>::empty(),
{
    assert forall|v: Text| refs(c).contains(v) implies infer_view(arm).contains_key(v) by {
        assert(bound_view(arm).contains(v));
    }
    assert(missing("Filter:?"@, refs(c), infer_view(arm)) =~= Set::empty());
}

proof fn wrapping_keeps(c: ExprView, node: LogicalView)
    ensures
        infer_view(wrap_view(c, node)) == infer_view(node),
        dangling(wrap_view(c, node)).subset_of(
            missing("Filter:?"@, refs(c), infer_view(node)).union(dangling(node)),
        ),
    decreases node, 1int,
{
    sinking_keeps(c, node);
}

proof fn sinking_all_keeps(parts: Seq<ExprView>, inner: LogicalView)
    ensures
        infer_view(sunk_plan(parts, inner)) == infer_view(inner),
        dangling(sunk_plan(parts, inner)).subset_of(
            missing("Filter:?"@, refs_all(parts), infer_view(inner)).union(dangling(inner)),
        ),
        refs_all(residual_parts(parts, inner)).subset_of(refs_all(parts)),
    decreases parts.len(),
{
    if parts.len() > 0 {
        let before = parts.drop_last();
        sinking_all_keeps(before, inner);
        let cur = sunk_plan(before, inner);
        sinking_keeps(parts.last(), cur);
        missing_of_both("Filter:?"@, refs_all(before), refs(parts.last()), infer_view(inner));
        let done = residual_parts(before, inner);
        assert(done.push(parts.last()).drop_last() =~= done);
        assert(done.push(parts.last()).last() == parts.last());
    }
}

proof fn pushing_down_keeps(expr: ExprView, inner: LogicalView)
    ensures
        infer_view(push_filter_view(expr, inner)) == infer_view(inner),
        dangling(push_filter_view(expr, inner)).subset_of(
            missing("Filter:?"@, refs(expr), infer_view(inner)).union(dangling(inner)),
        ),
{
    let parts = conjuncts_view(expr);
    sinking_all_keeps(parts, inner);
    refs_of_conjuncts(expr);
    let left = residual_parts(parts, inner);
    if left.len() > 0 {
        refs_of_chain(left);
        fewer_are_missing(
            "Filter:?"@,
            refs_all(left),
            infer_view(inner),
            refs(expr),
            infer_view(inner),
        );
    }
}

proof fn rewriting_a_node_keeps(rule: Rewrite, node: LogicalView)
    ensures
        infer_view(rewrite_node(rule, node)).dom() == infer_view(node).dom(),
        dangling(rewrite_node(rule, node)).subset_of(dangling(node)),
{
    match (rule, node) {
        (Rewrite::Coalesce, LogicalView::Join { left, right }) => {
            combined_dom(Combine::Join, infer_view(*left), infer_view(*right));
            match (*left, *right) {
                (
                    LogicalView::Bgp { patterns: l, .. },
                    LogicalView::Bgp { patterns: r, .. },
                ) => bgp_masks_dom(l, r),
                _ => {},
            }
        },
        (Rewrite::Normalize, LogicalView::Filter { expr, inner }) => normalizing_keeps(expr, *inner),
        (Rewrite::Pullup, LogicalView::Join { left, right }) => pulling_up_keeps(*left, *right),
        (Rewrite::Pushdown, LogicalView::Filter { expr, inner }) => pushing_down_keeps(expr, *inner),
        _ => {},
    }
}

proof fn same_known_same_missing(
    kind: Text,
    used: Set<Text>,
    a: Map<Text, TypeMask>,
    b: Map<Text, TypeMask>,
)
    requires
        a.dom() == b.dom(),
    ensures
        missing(kind, used, a) == missing(kind, used, b),
{
    fewer_are_missing(kind, used, a, used, b);
    fewer_are_missing(kind, used, b, used, a);
    assert(missing(kind, used, a) =~= missing(kind, used, b));
}

proof fn two_sides_keep(rule: Rewrite, left: LogicalView, right: LogicalView, how: Combine)
    requires
        infer_view(rewrite_view(rule, left)).dom() == infer_view(left).dom(),
        infer_view(rewrite_view(rule, right)).dom() == infer_view(right).dom(),
    ensures
        combine_masks(
            how,
            infer_view(rewrite_view(rule, left)),
            infer_view(rewrite_view(rule, right)),
        ).dom() == combine_masks(how, infer_view(left), infer_view(right)).dom(),
{
    combined_dom(how, infer_view(left), infer_view(right));
    combined_dom(how, infer_view(rewrite_view(rule, left)), infer_view(rewrite_view(rule, right)));
}

/// No rewrite changes which variables a plan produces, and none adds a
/// reference that nothing backs.
pub proof fn rewrites_add_no_dangling_reference(rule: Rewrite, plan: LogicalView)
    ensures
        infer_view(rewrite_view(rule, plan)).dom() == infer_view(plan).dom(),
        dangling(rewrite_view(rule, plan)).subset_of(dangling(plan)),
    decreases plan,
{
    let node = map_children_view(rule, plan);
    rewriting_a_node_keeps(rule, node);
    match plan {
        LogicalView::Bgp { .. } => {},
        LogicalView::Values { .. } => {},
        LogicalView::Join { left, right } => {
            rewrites_add_no_dangling_reference(rule, *left);
            rewrites_add_no_dangling_reference(rule, *right);
            two_sides_keep(rule, *left, *right, Combine::Join);
        },
        LogicalView::LeftJoin { left, right, .. } => {
            rewrites_add_no_dangling_reference(rule, *left);
            rewrites_add_no_dangling_reference(rule, *right);
            two_sides_keep(rule, *left, *right, Combine::LeftJoin);
        },
        LogicalView::Union { left, right } => {
            rewrites_add_no_dangling_reference(rule, *left);
            rewrites_add_no_dangling_reference(rule, *right);
            two_sides_keep(rule, *left, *right, Combine::Union);
        },
        LogicalView::Minus { left, right } => {
            rewrites_add_no_dangling_reference(rule, *left);
            rewrites_add_no_dangling_reference(rule, *right);
        },
        LogicalView::Filter { expr, inner } => {
            rewrites_add_no_dangling_reference(rule, *inner);
            same_known_same_missing(
                "Filter:?"@,
                refs(expr),
                infer_view(rewrite_view(rule, *inner)),
                infer_view(*inner),
            );
        },
        LogicalView::Project { vars, inner } => {
            rewrites_add_no_dangling_reference(rule, *inner);
            columns_dom(infer_view(*inner), vars);
            columns_dom(infer_view(rewrite_view(rule, *inner)), vars);
            same_known_same_missing(
                "Project:?"@,
                vars.to_set(),
                infer_view(rewrite_view(rule, *inner)),
                infer_view(*inner),
            );
        },
        LogicalView::Distinct { inner } => rewrites_add_no_dangling_reference(rule, *inner),
        LogicalView::Slice { inner, .. } => rewrites_add_no_dangling_reference(rule, *inner),
        LogicalView::OrderBy { inner, .. } => rewrites_add_no_dangling_reference(rule, *inner),
        LogicalView::Extend { inner, var, .. } => {
            rewrites_add_no_dangling_reference(rule, *inner);
            assert(infer_view(plan).dom() =~= infer_view(*inner).dom().insert(var));
            assert(infer_view(node).dom() =~= infer_view(rewrite_view(rule, *inner)).dom().insert(
                var,
            ));
        },
        LogicalView::Group { inner, keys, aggregates } => {
            rewrites_add_no_dangling_reference(rule, *inner);
            let (a, b) = (infer_view(*inner), infer_view(rewrite_view(rule, *inner)));
            columns_dom(a, keys);
            columns_dom(b, keys);
            agg_masks_dom(aggregates, column_masks(a, keys));
            agg_masks_dom(aggregates, column_masks(b, keys));
        },
        LogicalView::PerGraph { var, inner } => {
            rewrites_add_no_dangling_reference(rule, *inner);
            let g = map![var => TypeMask::of(TypeMask::NAMED_NODE)];
            combined_dom(Combine::Join, infer_view(*inner), g);
            combined_dom(Combine::Join, infer_view(rewrite_view(rule, *inner)), g);
        },
        LogicalView::PathClosure { edge, .. } => rewrites_add_no_dangling_reference(rule, *edge),
    }
}

/// A variable that a filter or a projection names and that nothing below binds
/// is told, and what is told of a part is told of the whole. Where every name is
/// known, nothing is.
pub proof fn unknown_names_are_told(
    expr: ExprView,
    vars: Seq<Text>,
    inner: LogicalView,
    other: LogicalView,
    v: Text,
    t: Text,
)
    ensures
        ({
            let filter = LogicalView::Filter { expr, inner: Box::new(inner) };
            let project = LogicalView::Project { vars, inner: Box::new(inner) };
            &&& refs(expr).contains(v) && !infer_view(inner).contains_key(v) ==> dangling(
                filter,
            ).contains("Filter:?"@ + v)
            &&& vars.contains(v) && !infer_view(inner).contains_key(v) ==> dangling(
                project,
            ).contains("Project:?"@ + v)
            &&& dangling(inner).contains(t) ==> dangling(filter).contains(t) && dangling(
                project,
            ).contains(t)
            &&& (forall|n: Text| #[trigger] refs(expr).contains(n) ==> infer_view(
                inner,
            ).contains_key(n)) && dangling(filter).contains(t) ==> dangling(inner).contains(t)
            &&& (forall|n: Text| #[trigger] vars.contains(n) ==> infer_view(inner).contains_key(n))
                && dangling(project).contains(t) ==> dangling(inner).contains(t)
        }),
        dangling(LogicalView::Join { left: Box::new(inner), right: Box::new(other) }).contains(t)
            <==> dangling(inner).contains(t) || dangling(other).contains(t),
        dangling(LogicalView::Union { left: Box::new(inner), right: Box::new(other) }).contains(t)
            <==> dangling(inner).contains(t) || dangling(other).contains(t),
        dangling(LogicalView::Minus { left: Box::new(inner), right: Box::new(other) }).contains(t)
            <==> dangling(inner).contains(t) || dangling(other).contains(t),
{
    if refs(expr).contains(v) && !infer_view(inner).contains_key(v) {
        assert(missing("Filter:?"@, refs(expr), infer_view(inner)).contains("Filter:?"@ + v));
    }
    if vars.contains(v) && !infer_view(inner).contains_key(v) {
        assert(vars.to_set().contains(v));
        assert(missing("Project:?"@, vars.to_set(), infer_view(inner)).contains(
            "Project:?"@ + v,
        ));
    }
    if missing("Project:?"@, vars.to_set(), infer_view(inner)).contains(t) {
        let n = choose|n: Text| #[trigger]
            vars.to_set().contains(n) && !infer_view(inner).contains_key(n) && t == "Project:?"@
                + n;
        assert(vars.contains(n));
    }
}

}
