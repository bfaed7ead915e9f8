//! Projection push-down: a set of demanded columns is threaded from the root
//! to the leaves, and a restricting projection is put wherever a subtree
//! produces more than its ancestors read.

use crate::algebra::{
    aggregates_view, names, names_push, opt_expr_view, order_keys_view, AggFunc, Aggregate,
    AggregateView, Expr, ExprView, OrderDir, Var,
};
use crate::collections::{to_set_push, NameSet};
use crate::exec::refs::{agg_referenced_vars, agg_refs, referenced_vars, refs};
use crate::plan::logical::{LogicalPlan, LogicalView};
use crate::plan::pass::{LogicalPass, PassId, PlanCtx};
use crate::plan::passes::{schema, schema_view};
use crate::text::{same_text, Text};
use vstd::prelude::*;

verus! {

pub struct ProjectionPushdown;

/// The names of `scope` that are demanded, in order.
pub open spec fn keep(scope: Seq<Text>, demanded: Set<Text>) -> Seq<Text>
    decreases scope.len(),
{
    if scope.len() == 0 {
        Seq::empty()
    } else {
        let k = keep(scope.drop_last(), demanded);
        if demanded.contains(scope.last()) {
            k.push(scope.last())
        } else {
            k
        }
    }
}

/// The demand of a join on its arms: what the parent demands, plus the columns
/// the arms share.
pub open spec fn with_shared(demanded: Set<Text>, l: Seq<Text>, r: Seq<Text>) -> Set<Text> {
    demanded.union(l.to_set().intersect(r.to_set()))
}

/// `node` restricted to its demanded columns, where that drops some column
/// and keeps at least one.
pub open spec fn restrict_view(node: LogicalView, demanded: Set<Text>) -> LogicalView {
    let natural = schema_view(node);
    let kept = keep(natural, demanded);
    if kept.len() < natural.len() && kept.len() > 0 {
        LogicalView::Project { vars: kept, inner: Box::new(node) }
    } else {
        node
    }
}

/// Are some columns what is kept of others, and fewer?
pub open spec fn narrows_to(natural: Seq<Text>, demanded: Set<Text>, vars: Seq<Text>) -> bool {
    &&& vars == keep(natural, demanded)
    &&& 0 < vars.len() < natural.len()
}

/// Can a projection be put on a node to drop columns that are not demanded?
pub open spec fn can_narrow(node: LogicalView) -> bool {
    node is Bgp || node is Values || node is Filter || node is Join || node is LeftJoin
        || node is OrderBy || node is Extend
}

/// Is a projection of `inner` the one that restricts it to the demanded
/// columns?
pub open spec fn is_narrowed(vars: Seq<Text>, inner: LogicalView, demanded: Set<Text>) -> bool {
    can_narrow(inner) && narrows_to(schema_view(inner), demanded, vars)
}

pub open spec fn order_refs(keys: Seq<(ExprView, OrderDir)>) -> Set<Text>
    decreases keys.len(),
{
    if keys.len() == 0 {
        Set::empty()
    } else {
        order_refs(keys.drop_last()).union(refs(keys.last().0))
    }
}

pub open spec fn all_agg_refs(aggs: Seq<AggregateView>) -> Set<Text>
    decreases aggs.len(),
{
    if aggs.len() == 0 {
        Set::empty()
    } else {
        all_agg_refs(aggs.drop_last()).union(agg_refs(aggs.last().func))
    }
}

/// Does some aggregate count distinct whole rows?
pub open spec fn counts_distinct_rows(aggs: Seq<AggregateView>) -> bool {
    exists|i: int|
        0 <= i < aggs.len() && (#[trigger] aggs[i]).func is CountStar && aggs[i].distinct
}

/// The demand of a grouping on its child: its keys and the columns its
/// aggregates read, or everything when whole rows are counted as distinct.
pub open spec fn group_demand(
    natural: Seq<Text>,
    keys: Seq<Text>,
    aggs: Seq<AggregateView>,
) -> Set<Text> {
    if counts_distinct_rows(aggs) {
        natural.to_set()
    } else {
        keys.to_set().union(all_agg_refs(aggs))
    }
}

pub open spec fn opt_refs(e: Option<ExprView>) -> Set<Text> {
    match e {
        Some(x) => refs(x),
        None => Set::empty(),
    }
}

/// A plan narrowed to the demanded columns. A projection that restricts a node
/// to just these is not put twice.
pub open spec fn prune_view(node: LogicalView, demanded: Set<Text>) -> LogicalView
    decreases node,
{
    match node {
        LogicalView::Bgp { .. } => restrict_view(node, demanded),
        LogicalView::Values { .. } => restrict_view(node, demanded),
        LogicalView::Project { vars, inner } => if is_narrowed(vars, *inner, demanded) {
            prune_view(*inner, demanded)
        } else {
            LogicalView::Project { vars, inner: Box::new(prune_view(*inner, vars.to_set())) }
        },
        LogicalView::Filter { expr, inner } => restrict_view(
            LogicalView::Filter {
                expr,
                inner: Box::new(prune_view(*inner, demanded.union(refs(expr)))),
            },
            demanded,
        ),
        LogicalView::Join { left, right } => {
            let (lo, ro) = (schema_view(*left), schema_view(*right));
            let base = with_shared(demanded, lo, ro);
            restrict_view(
                LogicalView::Join {
                    left: Box::new(prune_view(*left, base.intersect(lo.to_set()))),
                    right: Box::new(prune_view(*right, base.intersect(ro.to_set()))),
                },
                demanded,
            )
        },
        LogicalView::LeftJoin { left, right, expr } => {
            let (lo, ro) = (schema_view(*left), schema_view(*right));
            let base = with_shared(demanded, lo, ro).union(opt_refs(expr));
            restrict_view(
                LogicalView::LeftJoin {
                    left: Box::new(prune_view(*left, base.intersect(lo.to_set()))),
                    right: Box::new(prune_view(*right, base.intersect(ro.to_set()))),
                    expr,
                },
                demanded,
            )
        },
        LogicalView::Minus { left, right } => LogicalView::Minus {
            left: Box::new(prune_view(*left, schema_view(*left).to_set())),
            right: Box::new(prune_view(*right, schema_view(*right).to_set())),
        },
        LogicalView::Union { left, right } => LogicalView::Union {
            left: Box::new(prune_view(*left, demanded)),
            right: Box::new(prune_view(*right, demanded)),
        },
        LogicalView::Distinct { inner } => LogicalView::Distinct {
            inner: Box::new(prune_view(*inner, schema_view(*inner).to_set())),
        },
        LogicalView::Slice { inner, start, length } => LogicalView::Slice {
            inner: Box::new(prune_view(*inner, demanded)),
            start,
            length,
        },
        LogicalView::OrderBy { inner, keys } => restrict_view(
            LogicalView::OrderBy {
                inner: Box::new(prune_view(*inner, demanded.union(order_refs(keys)))),
                keys,
            },
            demanded,
        ),
        LogicalView::Extend { inner, var, expr } => restrict_view(
            LogicalView::Extend {
                inner: Box::new(prune_view(*inner, demanded.remove(var).union(refs(expr)))),
                var,
                expr,
            },
            demanded,
        ),
        LogicalView::Group { inner, keys, aggregates } => LogicalView::Group {
            inner: Box::new(
                prune_view(*inner, group_demand(schema_view(*inner), keys, aggregates)),
            ),
            keys,
            aggregates,
        },
        LogicalView::PerGraph { var, inner } => LogicalView::PerGraph {
            var,
            inner: Box::new(prune_view(*inner, schema_view(*inner).to_set())),
        },
        LogicalView::PathClosure { subject, object, edge, reflexive } => LogicalView::PathClosure {
            subject,
            object,
            edge: Box::new(prune_view(*edge, schema_view(*edge).to_set())),
            reflexive,
        },
    }
}

/// A plan narrowed below its root, which demands its own full output and is
/// itself never narrowed.
pub open spec fn narrowed_view(plan: LogicalView) -> LogicalView {
    match plan {
        LogicalView::Project { vars, inner } => LogicalView::Project {
            vars,
            inner: Box::new(prune_view(*inner, vars.to_set())),
        },
        _ => prune_view(plan, schema_view(plan).to_set()),
    }
}

/// The columns of `scope` that are demanded, in order.
pub fn kept_vars(scope: &Vec<Var>, demanded: &NameSet) -> (r: Vec<Var>)
    ensures
        names(r@) == keep(names(scope@), demanded@),
{
    let mut out: Vec<Var> = Vec::new();
    let ghost sv = names(scope@);
    let mut i: usize = 0;
    assert(names(out@) =~= Seq::<Text>::empty());
    while i < scope.len()
        invariant
            i <= scope@.len(),
            sv == names(scope@),
            names(out@) == keep(sv.take(i as int), demanded@),
        decreases scope@.len() - i,
    {
        proof {
            assert(sv.take(i + 1).drop_last() =~= sv.take(i as int));
            assert(sv.take(i + 1).last() == sv[i as int]);
        }
        if demanded.contains(scope[i].name()) {
            proof {
                names_push(out@, scope@[i as int]);
            }
            out.push(scope[i].clone());
        }
        i = i + 1;
    }
    assert(sv.take(scope@.len() as int) =~= sv);
    out
}

/// The demanded names among a list of columns.
pub fn intersect(demanded: &NameSet, scope: &Vec<Var>) -> (r: NameSet)
    ensures
        r@ == demanded@.intersect(names(scope@).to_set()),
{
    let mut out = NameSet::new();
    let ghost sv = names(scope@);
    let mut i: usize = 0;
    assert(out@ =~= demanded@.intersect(sv.take(0).to_set()));
    while i < scope.len()
        invariant
            i <= scope@.len(),
            sv == names(scope@),
            out@ == demanded@.intersect(sv.take(i as int).to_set()),
        decreases scope@.len() - i,
    {
        proof {
            assert(sv.take(i + 1) =~= sv.take(i as int).push(sv[i as int]));
            to_set_push(sv.take(i as int), sv[i as int]);
        }
        if demanded.contains(scope[i].name()) {
            out.insert(scope[i].name());
        }
        assert(out@ =~= demanded@.intersect(sv.take(i + 1).to_set()));
        i = i + 1;
    }
    assert(sv.take(scope@.len() as int) =~= sv);
    out
}

/// The parent's demand plus the columns two arms share.
pub fn add_shared_keys(demanded: &NameSet, lo: &Vec<Var>, ro: &Vec<Var>) -> (r: NameSet)
    ensures
        r@ == with_shared(demanded@, names(lo@), names(ro@)),
{
    let mut base = demanded.clone();
    let left = NameSet::of_vars(lo);
    let shared = intersect(&left, ro);
    base.insert_all(&shared);
    base
}

/// Are `vars` the demanded columns of `natural`, and fewer than all?
pub fn restricts(natural: &Vec<Var>, demanded: &NameSet, vars: &Vec<Var>) -> (r: bool)
    ensures
        r == narrows_to(names(natural@), demanded@, names(vars@)),
{
    let kept = kept_vars(natural, demanded);
    let ghost (kv, vv) = (names(kept@), names(vars@));
    assert(vv.len() == vars@.len() && kv.len() == kept@.len());
    assert(names(natural@).len() == natural@.len());
    if vars.len() == 0 || vars.len() >= natural.len() || vars.len() != kept.len() {
        return false;
    }
    let mut i: usize = 0;
    while i < vars.len()
        invariant
            i <= vars@.len(),
            vars@.len() == kept@.len(),
            kv == names(kept@),
            vv == names(vars@),
            kv == keep(names(natural@), demanded@),
            forall|j: int| 0 <= j < i ==> kv[j] == vv[j],
        decreases vars@.len() - i,
    {
        if !same_text(vars[i].name(), kept[i].name()) {
            assert(kv[i as int] != vv[i as int]);
            return false;
        }
        i = i + 1;
    }
    assert(kv =~= vv);
    true
}

fn narrowable(node: &LogicalPlan) -> (r: bool)
    ensures
        r == can_narrow(node@),
{
    match node {
        LogicalPlan::Bgp { .. } | LogicalPlan::Values { .. } | LogicalPlan::Filter { .. }
        | LogicalPlan::Join { .. } | LogicalPlan::LeftJoin { .. } | LogicalPlan::OrderBy { .. }
        | LogicalPlan::Extend { .. } => true,
        _ => false,
    }
}

fn restrict(node: LogicalPlan, demanded: &NameSet) -> (r: LogicalPlan)
    ensures
        r@ == restrict_view(node@, demanded@),
{
    let natural = schema(&node);
    let kept = kept_vars(&natural, demanded);
    assert(names(kept@).len() == kept@.len());
    assert(names(natural@).len() == natural@.len());
    if kept.len() < natural.len() && kept.len() > 0 {
        LogicalPlan::Project { vars: kept, inner: Box::new(node) }
    } else {
        node
    }
}

/// Adds the names an ordering reads.
pub fn add_order_refs(keys: &Vec<(Expr, OrderDir)>, out: &mut NameSet)
    ensures
        final(out)@ == old(out)@.union(order_refs(order_keys_view(keys@))),
{
    let ghost kv = order_keys_view(keys@);
    let mut i: usize = 0;
    assert(out@ =~= old(out)@.union(order_refs(kv.take(0))));
    while i < keys.len()
        invariant
            i <= keys@.len(),
            kv == order_keys_view(keys@),
            out@ == old(out)@.union(order_refs(kv.take(i as int))),
        decreases keys@.len() - i,
    {
        referenced_vars(&keys[i].0, out);
        proof {
            assert(kv.take(i + 1).drop_last() =~= kv.take(i as int));
            assert(kv.take(i + 1).last() == kv[i as int]);
            assert(out@ =~= old(out)@.union(order_refs(kv.take(i + 1))));
        }
        i = i + 1;
    }
    assert(kv.take(keys@.len() as int) =~= kv);
}

/// The demand of a grouping on a child with the given columns.
pub fn demand_of_group(natural: &Vec<Var>, keys: &Vec<Var>, aggregates: &Vec<Aggregate>) -> (r:
    NameSet)
    ensures
        r@ == group_demand(names(natural@), names(keys@), aggregates_view(aggregates@)),
{
    let ghost av = aggregates_view(aggregates@);
    let mut distinct_star = false;
    let mut d = NameSet::of_vars(keys);
    let mut i: usize = 0;
    assert(d@ =~= names(keys@).to_set().union(all_agg_refs(av.take(0))));
    while i < aggregates.len()
        invariant
            i <= aggregates@.len(),
            av == aggregates_view(aggregates@),
            distinct_star <==> exists|j: int|
                0 <= j < i && (#[trigger] av[j]).func is CountStar && av[j].distinct,
            d@ == names(keys@).to_set().union(all_agg_refs(av.take(i as int))),
        decreases aggregates@.len() - i,
    {
        let star = match &aggregates[i].func {
            AggFunc::CountStar => true,
            _ => false,
        };
        if star && aggregates[i].distinct {
            assert(av[i as int].func is CountStar && av[i as int].distinct);
            distinct_star = true;
        }
        agg_referenced_vars(&aggregates[i], &mut d);
        proof {
            assert(av.take(i + 1).drop_last() =~= av.take(i as int));
            assert(av.take(i + 1).last() == av[i as int]);
            assert(d@ =~= names(keys@).to_set().union(all_agg_refs(av.take(i + 1))));
        }
        i = i + 1;
    }
    assert(av.take(aggregates@.len() as int) =~= av);
    if distinct_star {
        NameSet::of_vars(natural)
    } else {
        d
    }
}

fn prune(node: LogicalPlan, demanded: &NameSet) -> (r: LogicalPlan)
    ensures
        r@ == prune_view(node@, demanded@),
    decreases node,
{
    match node {
        LogicalPlan::Bgp { patterns, scope } => restrict(
            LogicalPlan::Bgp { patterns, scope },
            demanded,
        ),
        LogicalPlan::Values { vars, rows } => restrict(
            LogicalPlan::Values { vars, rows },
            demanded,
        ),
        LogicalPlan::Project { vars, inner } => {
            if narrowable(&inner) && restricts(&schema(&inner), demanded, &vars) {
                prune(*inner, demanded)
            } else {
                let want = NameSet::of_vars(&vars);
                LogicalPlan::Project { vars, inner: Box::new(prune(*inner, &want)) }
            }
        },
        LogicalPlan::Filter { expr, inner } => {
            let mut d = demanded.clone();
            referenced_vars(&expr, &mut d);
            let pi = prune(*inner, &d);
            restrict(LogicalPlan::Filter { expr, inner: Box::new(pi) }, demanded)
        },
        LogicalPlan::Join { left, right } => {
            let lo = schema(&left);
            let ro = schema(&right);
            let base = add_shared_keys(demanded, &lo, &ro);
            let pl = prune(*left, &intersect(&base, &lo));
            let pr = prune(*right, &intersect(&base, &ro));
            restrict(LogicalPlan::Join { left: Box::new(pl), right: Box::new(pr) }, demanded)
        },
        LogicalPlan::LeftJoin { left, right, expr } => {
            let lo = schema(&left);
            let ro = schema(&right);
            let mut base = add_shared_keys(demanded, &lo, &ro);
            if let Some(e) = &expr {
                referenced_vars(e, &mut base);
            }
            assert(base@ =~= with_shared(demanded@, names(lo@), names(ro@)).union(
                opt_refs(opt_expr_view(expr)),
            ));
            let pl = prune(*left, &intersect(&base, &lo));
            let pr = prune(*right, &intersect(&base, &ro));
            restrict(
                LogicalPlan::LeftJoin { left: Box::new(pl), right: Box::new(pr), expr },
                demanded,
            )
        },
        LogicalPlan::Minus { left, right } => {
            let lo = NameSet::of_vars(&schema(&left));
            let ro = NameSet::of_vars(&schema(&right));
            LogicalPlan::Minus {
                left: Box::new(prune(*left, &lo)),
                right: Box::new(prune(*right, &ro)),
            }
        },
        LogicalPlan::Union { left, right } => LogicalPlan::Union {
            left: Box::new(prune(*left, demanded)),
            right: Box::new(prune(*right, demanded)),
        },
        LogicalPlan::Distinct { inner } => {
            let all = NameSet::of_vars(&schema(&inner));
            LogicalPlan::Distinct { inner: Box::new(prune(*inner, &all)) }
        },
        LogicalPlan::Slice { inner, start, length } => LogicalPlan::Slice {
            inner: Box::new(prune(*inner, demanded)),
            start,
            length,
        },
        LogicalPlan::OrderBy { inner, keys } => {
            let mut d = demanded.clone();
            add_order_refs(&keys, &mut d);
            let pi = prune(*inner, &d);
            restrict(LogicalPlan::OrderBy { inner: Box::new(pi), keys }, demanded)
        },
        LogicalPlan::Extend { inner, var, expr } => {
            let mut d = demanded.clone();
            d.remove(var.name());
            referenced_vars(&expr, &mut d);
            let pi = prune(*inner, &d);
            restrict(LogicalPlan::Extend { inner: Box::new(pi), var, expr }, demanded)
        },
        LogicalPlan::Group { inner, keys, aggregates } => {
            let all = schema(&inner);
            let d = demand_of_group(&all, &keys, &aggregates);
            LogicalPlan::Group { inner: Box::new(prune(*inner, &d)), keys, aggregates }
        },
        LogicalPlan::PerGraph { var, inner } => {
            let all = NameSet::of_vars(&schema(&inner));
            LogicalPlan::PerGraph { var, inner: Box::new(prune(*inner, &all)) }
        },
        LogicalPlan::PathClosure { subject, object, edge, reflexive } => {
            let all = NameSet::of_vars(&schema(&edge));
            LogicalPlan::PathClosure {
                subject,
                object,
                edge: Box::new(prune(*edge, &all)),
                reflexive,
            }
        },
    }
}

impl LogicalPass for ProjectionPushdown {
    open spec fn id_view(&self) -> PassId {
        PassId::ProjectionPushdown
    }

    open spec fn run_view(&self, plan: LogicalView) -> LogicalView {
        narrowed_view(plan)
    }

    open spec fn after(&self) -> Seq<PassId> {
        seq![PassId::FilterPushdown]
    }

    fn id(&self) -> PassId {
        PassId::ProjectionPushdown
    }

    fn run(&self, plan: LogicalPlan, _ctx: &PlanCtx) -> LogicalPlan {
        match plan {
            LogicalPlan::Project { vars, inner } => {
                let want = NameSet::of_vars(&vars);
                LogicalPlan::Project { vars, inner: Box::new(prune(*inner, &want)) }
            },
            other => {
                let demanded = NameSet::of_vars(&schema(&other));
                prune(other, &demanded)
            },
        }
    }

    fn must_follow(&self) -> &'static [PassId] {
        let r: &'static [PassId] = &[PassId::FilterPushdown];
        assert(r@ =~= seq![PassId::FilterPushdown]);
        r
    }
}

}
