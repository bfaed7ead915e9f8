//! Planning: algebra tree to physical plan, through the logical plan and the
//! pass pipeline.

use crate::algebra::{Algebra, AlgebraView, GraphScopeView};
use crate::error::SparqlError;
use crate::plan::lower::{lower_algebra, lower_physical, lower_view, physical_view};
use crate::plan::pass::{
    run_passes, run_passes_view, sound_after, standard_passes, LogicalPass, PassId, PlanCtx,
};
use crate::plan::passes::{rewrite_view, Rewrite};
use crate::plan::validate::rewrites_add_no_dangling_reference;
use crate::plan::{PhysicalPlan, PhysicalView};
use vstd::prelude::*;

verus! {

/// The physical plan of an algebra tree, with the coalescing pass on or off.
pub open spec fn plan_view(alg: AlgebraView, coalesce: bool) -> PhysicalView {
    let logical = lower_view(alg, GraphScopeView::DefaultGraph);
    physical_view(
        if coalesce {
            rewrite_view(Rewrite::Coalesce, logical)
        } else {
            logical
        },
    )
}

/// Plans `alg` with every pass enabled. Planning never fails.
pub fn plan(alg: &Algebra) -> (r: Result<PhysicalPlan, SparqlError>)
    ensures
        r matches Ok(p) && p@ == plan_view(alg@, true),
{
    let ctx = PlanCtx { disabled_passes: Vec::new() };
    assert(!ctx.disabled(PassId::CoalesceBgp));
    plan_with_ctx(alg, &ctx)
}

/// Plans `alg`, skipping the passes that `ctx` disables.
pub fn plan_with_ctx(alg: &Algebra, ctx: &PlanCtx) -> (r: Result<PhysicalPlan, SparqlError>)
    ensures
        r matches Ok(p) && p@ == plan_view(alg@, !ctx.disabled(PassId::CoalesceBgp)),
{
    match lower_algebra(alg) {
        Ok(logical) => {
            let passes = standard_passes();
            let ghost before = logical@;
            proof {
                let none = passes@.drop_last();
                let off = ctx.disabled_passes@;
                assert(passes@.last() == passes@[0]);
                assert(run_passes_view(before, none, off) == before);
                assert(passes@[0].run_view(before) == rewrite_view(Rewrite::Coalesce, before));
                assert(passes@.take(1) =~= passes@);
                rewrites_add_no_dangling_reference(Rewrite::Coalesce, before);
                assert(sound_after(before, passes@, off, 1));
            }
            match run_passes(logical, &passes, ctx) {
                Ok(optimized) => Ok(lower_physical(optimized)),
                Err(id) => {
                    proof {
                        assert(false);
                    }
                    Err(SparqlError::Planner(id.as_str().to_owned()))
                },
            }
        },
        Err(e) => Err(e),
    }
}

}
