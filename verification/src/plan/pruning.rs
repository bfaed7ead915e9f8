//! Pruning a plan again changes nothing.

use crate::exec::invariance::{add_unique_names, kept_names};
use crate::exec::narrow_join::added_names;
use crate::exec::refs::refs;
use crate::plan::passes::projection_pushdown::{
    group_demand, keep, opt_refs, order_refs, with_shared,
};
use crate::plan::passes::{add_all_unique, add_unique};
use crate::plan::pushdown::{
    can_narrow, is_narrowed, narrowed_view, output_view, prune_view, restrict_view,
};
use crate::plan::PhysicalView;
use crate::text::Text;
use vstd::prelude::*;

verus! {

// ── Columns that agree ──────────────────────────────────────────────────────

/// Do two column lists agree on some names, the first holding no name that the
/// second does not?
pub open spec fn columns_agree(s: Seq<Text>, t: Seq<Text>, want: Set<Text>) -> bool {
    &&& forall|n: Text| #[trigger] s.contains(n) ==> t.contains(n)
    &&& forall|n: Text| want.contains(n) && #[trigger] t.contains(n) ==> s.contains(n)
}

pub proof fn added_agree(s: Seq<Text>, t: Seq<Text>, u: Seq<Text>, v: Seq<Text>, want: Set<Text>)
    requires
        columns_agree(s, t, want),
        columns_agree(u, v, want),
    ensures
        columns_agree(add_all_unique(s, u), add_all_unique(t, v), want),
{
    added_names(s, u);
    added_names(t, v);
}

pub proof fn one_added_agrees(s: Seq<Text>, t: Seq<Text>, v: Text, read: Set<Text>, want: Set<Text>)
    requires
        columns_agree(s, t, read),
        want.remove(v).subset_of(read),
    ensures
        columns_agree(add_unique(s, v), add_unique(t, v), want),
{
    add_unique_names(s, v);
    add_unique_names(t, v);
    assert forall|n: Text| want.contains(n) && #[trigger] add_unique(t, v).contains(n) implies add_unique(
        s,
        v,
    ).contains(n) by {
        if n != v {
            assert(want.remove(v).contains(n));
        }
    }
}

/// Agreement on the columns a side has of those that are read is agreement on
/// those that are read.
pub proof fn side_agrees(s: Seq<Text>, t: Seq<Text>, base: Set<Text>)
    requires
        columns_agree(s, t, base.intersect(t.to_set())),
    ensures
        columns_agree(s, t, base),
{
    assert forall|n: Text| base.contains(n) && #[trigger] t.contains(n) implies s.contains(n) by {
        assert(base.intersect(t.to_set()).contains(n));
    }
}

pub proof fn all_columns_agree(s: Seq<Text>, t: Seq<Text>, want: Set<Text>)
    requires
        columns_agree(s, t, t.to_set()),
    ensures
        columns_agree(s, t, want),
{
    assert forall|n: Text| want.contains(n) && #[trigger] t.contains(n) implies s.contains(n) by {
        assert(t.to_set().contains(n));
    }
}

// ── What is kept ────────────────────────────────────────────────────────────

/// All is kept just where all is demanded.
proof fn all_is_kept(s: Seq<Text>, want: Set<Text>)
    ensures
        keep(s, want).len() <= s.len(),
        keep(s, want).len() == s.len() <==> forall|n: Text| #[trigger] s.contains(n)
            ==> want.contains(n),
    decreases s.len(),
{
    if s.len() > 0 {
        let rest = s.drop_last();
        all_is_kept(rest, want);
        assert(s[s.len() - 1] == s.last());
        if keep(s, want).len() == s.len() {
            assert forall|n: Text| #[trigger] s.contains(n) implies want.contains(n) by {
                let i = choose|i: int| 0 <= i < s.len() && s[i] == n;
                if i < rest.len() {
                    assert(rest[i] == n);
                    assert(rest.contains(n));
                }
            }
        }
        if forall|n: Text| #[trigger] s.contains(n) ==> want.contains(n) {
            assert(s.contains(s.last()));
            assert forall|n: Text| #[trigger] rest.contains(n) implies want.contains(n) by {
                let i = choose|i: int| 0 <= i < rest.len() && rest[i] == n;
                assert(s[i] == n);
                assert(s.contains(n));
            }
        }
    }
}

proof fn restriction_agrees(node: PhysicalView, natural: Seq<Text>, want: Set<Text>)
    requires
        columns_agree(output_view(node), natural, want),
    ensures
        columns_agree(output_view(restrict_view(node, want)), natural, want),
{
    kept_names(output_view(node), want);
}

/// A pruned plan has the demanded columns of the plan, and no other than the
/// plan's.
pub proof fn pruned_columns(plan: PhysicalView, want: Set<Text>)
    ensures
        columns_agree(output_view(prune_view(plan, want)), output_view(plan), want),
    decreases plan,
{
    match plan {
        PhysicalView::BgpScan { .. } => restriction_agrees(plan, output_view(plan), want),
        PhysicalView::CountScan { .. } => {},
        PhysicalView::GroupCountScan { .. } => {},
        PhysicalView::Values { .. } => restriction_agrees(plan, output_view(plan), want),
        PhysicalView::Project { vars, inner } => {
            if is_narrowed(vars, *inner, want) {
                kept_names(output_view(*inner), want);
                pruned_columns(*inner, want);
                narrow_columns(*inner, want);
            }
        },
        PhysicalView::Filter { expr, inner } => {
            let read = want.union(refs(expr));
            pruned_columns(*inner, read);
            restriction_agrees(
                PhysicalView::Filter { expr, inner: Box::new(prune_view(*inner, read)) },
                output_view(plan),
                want,
            );
        },
        PhysicalView::Join { left, right } => {
            let (lo, ro) = (output_view(*left), output_view(*right));
            let base = with_shared(want, lo, ro);
            let (f, g) = (base.intersect(lo.to_set()), base.intersect(ro.to_set()));
            let (x, y) = (prune_view(*left, f), prune_view(*right, g));
            pruned_columns(*left, f);
            pruned_columns(*right, g);
            side_agrees(output_view(x), lo, base);
            side_agrees(output_view(y), ro, base);
            added_agree(output_view(x), lo, output_view(y), ro, base);
            restriction_agrees(
                PhysicalView::Join { left: Box::new(x), right: Box::new(y) },
                output_view(plan),
                want,
            );
        },
        PhysicalView::LeftJoin { left, right, expr } => {
            let (lo, ro) = (output_view(*left), output_view(*right));
            let base = with_shared(want, lo, ro).union(opt_refs(expr));
            let (f, g) = (base.intersect(lo.to_set()), base.intersect(ro.to_set()));
            let (x, y) = (prune_view(*left, f), prune_view(*right, g));
            pruned_columns(*left, f);
            pruned_columns(*right, g);
            side_agrees(output_view(x), lo, base);
            side_agrees(output_view(y), ro, base);
            added_agree(output_view(x), lo, output_view(y), ro, base);
            restriction_agrees(
                PhysicalView::LeftJoin { left: Box::new(x), right: Box::new(y), expr },
                output_view(plan),
                want,
            );
        },
        PhysicalView::Minus { left, .. } => {
            let all = output_view(*left).to_set();
            pruned_columns(*left, all);
            all_columns_agree(output_view(prune_view(*left, all)), output_view(*left), want);
        },
        PhysicalView::Union { left, right } => {
            pruned_columns(*left, want);
            pruned_columns(*right, want);
            added_agree(
                output_view(prune_view(*left, want)),
                output_view(*left),
                output_view(prune_view(*right, want)),
                output_view(*right),
                want,
            );
        },
        PhysicalView::Distinct { inner } => {
            let all = output_view(*inner).to_set();
            pruned_columns(*inner, all);
            all_columns_agree(output_view(prune_view(*inner, all)), output_view(*inner), want);
        },
        PhysicalView::Slice { inner, .. } => pruned_columns(*inner, want),
        PhysicalView::OrderBy { inner, keys } => {
            let read = want.union(order_refs(keys));
            pruned_columns(*inner, read);
            restriction_agrees(
                PhysicalView::OrderBy { inner: Box::new(prune_view(*inner, read)), keys },
                output_view(plan),
                want,
            );
        },
        PhysicalView::Extend { inner, var, expr } => {
            let read = want.remove(var).union(refs(expr));
            let p = prune_view(*inner, read);
            pruned_columns(*inner, read);
            one_added_agrees(output_view(p), output_view(*inner), var, read, want);
            restriction_agrees(
                PhysicalView::Extend { inner: Box::new(p), var, expr },
                output_view(plan),
                want,
            );
        },
        PhysicalView::Group { .. } => {},
        PhysicalView::PerGraph { var, inner } => {
            let all = output_view(*inner).to_set();
            let p = prune_view(*inner, all);
            pruned_columns(*inner, all);
            all_columns_agree(output_view(p), output_view(*inner), want.remove(var));
            one_added_agrees(output_view(p), output_view(*inner), var, want.remove(var), want);
        },
        PhysicalView::PathClosure { .. } => {},
    }
}

/// Where a node can be narrowed and has a demanded column, it keeps no other.
pub proof fn narrow_columns(plan: PhysicalView, want: Set<Text>)
    requires
        can_narrow(plan),
        keep(output_view(plan), want).len() > 0,
        columns_agree(output_view(prune_view(plan, want)), output_view(plan), want),
    ensures
        forall|n: Text| #[trigger] output_view(prune_view(plan, want)).contains(n)
            ==> want.contains(n),
{
    let node = unrestricted(plan, want);
    let natural = output_view(node);
    let kept = keep(natural, want);
    let out = output_view(prune_view(plan, want));
    kept_names(natural, want);
    all_is_kept(natural, want);
    kept_names(output_view(plan), want);
    let v = keep(output_view(plan), want)[0];
    assert(keep(output_view(plan), want).contains(v));
    assert(out.contains(v));
    if kept.len() == 0 {
        assert(natural.contains(v));
        assert(kept.contains(v));
    }
}

/// A node that can be narrowed with its children pruned, before it is itself
/// restricted.
spec fn unrestricted(plan: PhysicalView, want: Set<Text>) -> PhysicalView {
    match plan {
        PhysicalView::Filter { expr, inner } => PhysicalView::Filter {
            expr,
            inner: Box::new(prune_view(*inner, want.union(refs(expr)))),
        },
        PhysicalView::Join { left, right } => {
            let (lo, ro) = (output_view(*left), output_view(*right));
            let base = with_shared(want, lo, ro);
            PhysicalView::Join {
                left: Box::new(prune_view(*left, base.intersect(lo.to_set()))),
                right: Box::new(prune_view(*right, base.intersect(ro.to_set()))),
            }
        },
        PhysicalView::LeftJoin { left, right, expr } => {
            let (lo, ro) = (output_view(*left), output_view(*right));
            let base = with_shared(want, lo, ro).union(opt_refs(expr));
            PhysicalView::LeftJoin {
                left: Box::new(prune_view(*left, base.intersect(lo.to_set()))),
                right: Box::new(prune_view(*right, base.intersect(ro.to_set()))),
                expr,
            }
        },
        PhysicalView::OrderBy { inner, keys } => PhysicalView::OrderBy {
            inner: Box::new(prune_view(*inner, want.union(order_refs(keys)))),
            keys,
        },
        PhysicalView::Extend { inner, var, expr } => PhysicalView::Extend {
            inner: Box::new(prune_view(*inner, want.remove(var).union(refs(expr)))),
            var,
            expr,
        },
        _ => plan,
    }
}

/// Pruning the children of a node adds no column.
proof fn unrestricted_columns(plan: PhysicalView, want: Set<Text>)
    ensures
        forall|n: Text| #[trigger] output_view(unrestricted(plan, want)).contains(n)
            ==> output_view(plan).contains(n),
{
    match plan {
        PhysicalView::Filter { expr, inner } => pruned_columns(*inner, want.union(refs(expr))),
        PhysicalView::Join { left, right } => {
            let (lo, ro) = (output_view(*left), output_view(*right));
            let base = with_shared(want, lo, ro);
            let (f, g) = (base.intersect(lo.to_set()), base.intersect(ro.to_set()));
            pruned_columns(*left, f);
            pruned_columns(*right, g);
            added_names(lo, ro);
            added_names(output_view(prune_view(*left, f)), output_view(prune_view(*right, g)));
        },
        PhysicalView::LeftJoin { left, right, expr } => {
            let (lo, ro) = (output_view(*left), output_view(*right));
            let base = with_shared(want, lo, ro).union(opt_refs(expr));
            let (f, g) = (base.intersect(lo.to_set()), base.intersect(ro.to_set()));
            pruned_columns(*left, f);
            pruned_columns(*right, g);
            added_names(lo, ro);
            added_names(output_view(prune_view(*left, f)), output_view(prune_view(*right, g)));
        },
        PhysicalView::OrderBy { inner, keys } => pruned_columns(
            *inner,
            want.union(order_refs(keys)),
        ),
        PhysicalView::Extend { inner, var, expr } => {
            let read = want.remove(var).union(refs(expr));
            pruned_columns(*inner, read);
            add_unique_names(output_view(*inner), var);
            add_unique_names(output_view(prune_view(*inner, read)), var);
        },
        _ => {},
    }
}

/// The same columns are demanded of the sides of a pruned join.
proof fn same_demand(s: Seq<Text>, t: Seq<Text>, lo: Seq<Text>, ro: Seq<Text>, more: Set<Text>)
    requires
        ({
            let base = lo.to_set().intersect(ro.to_set()).union(more);
            &&& columns_agree(s, lo, base.intersect(lo.to_set()))
            &&& columns_agree(t, ro, base.intersect(ro.to_set()))
        }),
    ensures
        ({
            let base = lo.to_set().intersect(ro.to_set()).union(more);
            &&& s.to_set().intersect(t.to_set()) == lo.to_set().intersect(ro.to_set())
            &&& base.intersect(s.to_set()) == base.intersect(lo.to_set())
            &&& base.intersect(t.to_set()) == base.intersect(ro.to_set())
        }),
{
    let base = lo.to_set().intersect(ro.to_set()).union(more);
    side_agrees(s, lo, base);
    side_agrees(t, ro, base);
    assert forall|n: Text| #[trigger] s.to_set().intersect(t.to_set()).contains(n)
        == lo.to_set().intersect(ro.to_set()).contains(n) by {
        assert(s.to_set().contains(n) == s.contains(n));
        assert(t.to_set().contains(n) == t.contains(n));
        assert(lo.to_set().contains(n) == lo.contains(n));
        assert(ro.to_set().contains(n) == ro.contains(n));
        assert(lo.contains(n) && ro.contains(n) ==> base.contains(n));
    }
    assert forall|n: Text| #[trigger] base.intersect(s.to_set()).contains(n) == base.intersect(
        lo.to_set(),
    ).contains(n) by {
        assert(s.to_set().contains(n) == s.contains(n));
        assert(lo.to_set().contains(n) == lo.contains(n));
    }
    assert forall|n: Text| #[trigger] base.intersect(t.to_set()).contains(n) == base.intersect(
        ro.to_set(),
    ).contains(n) by {
        assert(t.to_set().contains(n) == t.contains(n));
        assert(ro.to_set().contains(n) == ro.contains(n));
    }
    assert(s.to_set().intersect(t.to_set()) =~= lo.to_set().intersect(ro.to_set()));
    assert(base.intersect(s.to_set()) =~= base.intersect(lo.to_set()));
    assert(base.intersect(t.to_set()) =~= base.intersect(ro.to_set()));
}

/// Columns that agree on all names are the same.
proof fn same_columns(s: Seq<Text>, t: Seq<Text>)
    requires
        columns_agree(s, t, t.to_set()),
    ensures
        s.to_set() == t.to_set(),
{
    all_columns_agree(s, t, Set::full());
    assert forall|n: Text| #[trigger] s.to_set().contains(n) == t.to_set().contains(n) by {
        assert(s.to_set().contains(n) == s.contains(n));
        assert(t.to_set().contains(n) == t.contains(n));
    }
    assert(s.to_set() =~= t.to_set());
}

/// A restricted node is not restricted again.
proof fn restricted_again(plan: PhysicalView, want: Set<Text>)
    requires
        can_narrow(plan),
        unrestricted(unrestricted(plan, want), want) == unrestricted(plan, want),
    ensures
        prune_view(prune_view(plan, want), want) == prune_view(plan, want),
{
    let node = unrestricted(plan, want);
    assert(prune_view(plan, want) == restrict_view(node, want));
    assert(prune_view(node, want) == restrict_view(node, want));
}

/// A projection that restricts nothing is still none once its child is pruned.
proof fn no_new_restriction(vars: Seq<Text>, inner: PhysicalView, want: Set<Text>)
    ensures
        !is_narrowed(vars, prune_view(inner, vars.to_set()), want),
    decreases inner,
{
    let v = vars.to_set();
    let p = prune_view(inner, v);
    if is_narrowed(vars, p, want) {
        let out = output_view(p);
        kept_names(out, want);
        match inner {
            PhysicalView::Project { vars: w, inner: deep } => {
                if is_narrowed(w, *deep, v) {
                    no_new_restriction(vars, *deep, want);
                }
            },
            _ => {
                let node = unrestricted(inner, v);
                assert(p == restrict_view(node, v));
                assert(p == node);
                all_is_kept(out, v);
                all_is_kept(out, want);
                kept_names(out, v);
                assert(vars.contains(vars[0]));
                assert(out.contains(vars[0]));
                assert(v.contains(vars[0]));
                assert(keep(out, v).contains(vars[0]));
                assert(keep(out, v).len() == out.len());
                assert forall|n: Text| #[trigger] out.contains(n) implies want.contains(n) by {
                    assert(v.contains(n));
                    assert(vars.contains(n));
                }
            },
        }
    }
}

proof fn pruning_again(plan: PhysicalView, want: Set<Text>)
    ensures
        prune_view(prune_view(plan, want), want) == prune_view(plan, want),
    decreases plan,
{
    match plan {
        PhysicalView::BgpScan { .. } => restricted_again(plan, want),
        PhysicalView::CountScan { .. } => {},
        PhysicalView::GroupCountScan { .. } => {},
        PhysicalView::Values { .. } => restricted_again(plan, want),
        PhysicalView::Project { vars, inner } => {
            if is_narrowed(vars, *inner, want) {
                pruning_again(*inner, want);
            } else {
                pruning_again(*inner, vars.to_set());
                no_new_restriction(vars, *inner, want);
            }
        },
        PhysicalView::Filter { expr, inner } => {
            pruning_again(*inner, want.union(refs(expr)));
            restricted_again(plan, want);
        },
        PhysicalView::Join { left, right } => {
            let (lo, ro) = (output_view(*left), output_view(*right));
            let base = with_shared(want, lo, ro);
            let (f, g) = (base.intersect(lo.to_set()), base.intersect(ro.to_set()));
            pruning_again(*left, f);
            pruning_again(*right, g);
            pruned_columns(*left, f);
            pruned_columns(*right, g);
            assert(base =~= lo.to_set().intersect(ro.to_set()).union(want));
            same_demand(
                output_view(prune_view(*left, f)),
                output_view(prune_view(*right, g)),
                lo,
                ro,
                want,
            );
            restricted_again(plan, want);
        },
        PhysicalView::LeftJoin { left, right, expr } => {
            let (lo, ro) = (output_view(*left), output_view(*right));
            let base = with_shared(want, lo, ro).union(opt_refs(expr));
            let (f, g) = (base.intersect(lo.to_set()), base.intersect(ro.to_set()));
            pruning_again(*left, f);
            pruning_again(*right, g);
            pruned_columns(*left, f);
            pruned_columns(*right, g);
            let more = want.union(opt_refs(expr));
            assert(base =~= lo.to_set().intersect(ro.to_set()).union(more));
            same_demand(
                output_view(prune_view(*left, f)),
                output_view(prune_view(*right, g)),
                lo,
                ro,
                more,
            );
            restricted_again(plan, want);
        },
        PhysicalView::Minus { left, right } => {
            let (lo, ro) = (output_view(*left).to_set(), output_view(*right).to_set());
            pruning_again(*left, lo);
            pruning_again(*right, ro);
            pruned_columns(*left, lo);
            pruned_columns(*right, ro);
            same_columns(output_view(prune_view(*left, lo)), output_view(*left));
            same_columns(output_view(prune_view(*right, ro)), output_view(*right));
        },
        PhysicalView::Union { left, right } => {
            pruning_again(*left, want);
            pruning_again(*right, want);
        },
        PhysicalView::Distinct { inner } => {
            let all = output_view(*inner).to_set();
            pruning_again(*inner, all);
            pruned_columns(*inner, all);
            same_columns(output_view(prune_view(*inner, all)), output_view(*inner));
        },
        PhysicalView::Slice { inner, .. } => pruning_again(*inner, want),
        PhysicalView::OrderBy { inner, keys } => {
            pruning_again(*inner, want.union(order_refs(keys)));
            restricted_again(plan, want);
        },
        PhysicalView::Extend { inner, var, expr } => {
            pruning_again(*inner, want.remove(var).union(refs(expr)));
            restricted_again(plan, want);
        },
        PhysicalView::Group { inner, keys, aggregates } => {
            let natural = output_view(*inner);
            let read = group_demand(natural, keys, aggregates);
            pruning_again(*inner, read);
            pruned_columns(*inner, read);
            if read == natural.to_set() {
                same_columns(output_view(prune_view(*inner, read)), natural);
            }
        },
        PhysicalView::PerGraph { inner, .. } => {
            let all = output_view(*inner).to_set();
            pruning_again(*inner, all);
            pruned_columns(*inner, all);
            same_columns(output_view(prune_view(*inner, all)), output_view(*inner));
        },
        PhysicalView::PathClosure { edge, .. } => {
            let all = output_view(*edge).to_set();
            pruning_again(*edge, all);
            pruned_columns(*edge, all);
            same_columns(output_view(prune_view(*edge, all)), output_view(*edge));
        },
    }
}

/// Pruning is idempotent.
pub proof fn pruning_again_changes_nothing(plan: PhysicalView)
    ensures
        narrowed_view(narrowed_view(plan)) == narrowed_view(plan),
{
    match plan {
        PhysicalView::Project { vars, inner } => {
            pruning_again(*inner, vars.to_set());
            let p = prune_view(*inner, vars.to_set());
            assert(narrowed_view(plan) == PhysicalView::Project { vars, inner: Box::new(p) });
        },
        _ => {
            let all = output_view(plan).to_set();
            let p = prune_view(plan, all);
            pruning_again(plan, all);
            pruned_columns(plan, all);
            same_columns(output_view(p), output_view(plan));
            if p is Project {
                let node = unrestricted(plan, all);
                let natural = output_view(node);
                assert(p == restrict_view(node, all));
                all_is_kept(natural, all);
                unrestricted_columns(plan, all);
                assert forall|n: Text| #[trigger] natural.contains(n) implies all.contains(n) by {
                    assert(output_view(plan).contains(n));
                }
            }
        },
    }
}

}
