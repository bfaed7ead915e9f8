//! The pass pipeline: identities, declared ordering constraints and the
//! driver that runs the passes a context has not disabled.

use crate::plan::logical::{LogicalPlan, LogicalView};
use crate::plan::passes::{rewrite, rewrite_view, Rewrite};
use crate::plan::validate::{dangling, dangling_refs};
use crate::text::{same_text, Text};
use std::str::FromStr;
use vstd::prelude::*;
use vstd::string::*;

verus! {

/// The identity of a logical pass.
#[derive(Debug, Clone, Copy, PartialEq, Eq, Hash, Structural)]
pub enum PassId {
    CoalesceBgp,
    Normalize,
    FilterPullup,
    FilterPushdown,
    ProjectionPushdown,
    JoinPlanning,
}

impl PassId {
    /// The stable kebab-case name of the pass.
    pub open spec fn text(self) -> Text {
        match self {
            PassId::CoalesceBgp => "coalesce-bgp"@,
            PassId::Normalize => "normalize"@,
            PassId::FilterPullup => "filter-pullup"@,
            PassId::FilterPushdown => "filter-pushdown"@,
            PassId::ProjectionPushdown => "projection-pushdown"@,
            PassId::JoinPlanning => "join-planning"@,
        }
    }

    pub fn as_str(&self) -> (r: &'static str)
        ensures
            r@ == self.text(),
    {
        match self {
            PassId::CoalesceBgp => "coalesce-bgp",
            PassId::Normalize => "normalize",
            PassId::FilterPullup => "filter-pullup",
            PassId::FilterPushdown => "filter-pushdown",
            PassId::ProjectionPushdown => "projection-pushdown",
            PassId::JoinPlanning => "join-planning",
        }
    }

    /// The pass of the given name.
    pub fn parse(s: &str) -> (r: Result<PassId, String>)
        ensures
            match r {
                Ok(id) => s@ == id.text(),
                Err(e) => (forall|id: PassId| s@ != #[trigger] id.text()) && e@
                    == "unknown pass id `"@ + s@ + "`"@,
            },
    {
        if same_text(s, "coalesce-bgp") {
            Ok(PassId::CoalesceBgp)
        } else if same_text(s, "normalize") {
            Ok(PassId::Normalize)
        } else if same_text(s, "filter-pullup") {
            Ok(PassId::FilterPullup)
        } else if same_text(s, "filter-pushdown") {
            Ok(PassId::FilterPushdown)
        } else if same_text(s, "projection-pushdown") {
            Ok(PassId::ProjectionPushdown)
        } else if same_text(s, "join-planning") {
            Ok(PassId::JoinPlanning)
        } else {
            let mut msg = "unknown pass id `".to_owned();
            msg.append(s);
            msg.append("`");
            Err(msg)
        }
    }
}

/// Different passes have different names, so a name read back gives the pass
/// it was taken from.
pub proof fn pass_names_are_distinct(a: PassId, b: PassId)
    ensures
        a.text() == b.text() ==> a == b,
{
    reveal_strlit("coalesce-bgp");
    reveal_strlit("normalize");
    reveal_strlit("filter-pullup");
    reveal_strlit("filter-pushdown");
    reveal_strlit("projection-pushdown");
    reveal_strlit("join-planning");
    let (s, t) = (a.text(), b.text());
    if s == t {
        assert(s.len() == t.len());
        assert(s[0] == t[0]);
    }
}

impl FromStr for PassId {
    type Err = String;

    fn from_str(s: &str) -> Result<PassId, String> {
        PassId::parse(s)
    }
}

/// The planning context: which passes are switched off.
pub struct PlanCtx {
    pub disabled_passes: Vec<PassId>,
}

impl PlanCtx {
    pub open spec fn disabled(&self, id: PassId) -> bool {
        self.disabled_passes@.contains(id)
    }

    fn is_disabled(&self, id: PassId) -> (r: bool)
        ensures
            r == self.disabled(id),
    {
        let mut i: usize = 0;
        while i < self.disabled_passes.len()
            invariant
                i <= self.disabled_passes@.len(),
                forall|j: int| 0 <= j < i ==> self.disabled_passes@[j] != id,
            decreases self.disabled_passes@.len() - i,
        {
            if self.disabled_passes[i] == id {
                return true;
            }
            i = i + 1;
        }
        false
    }
}

impl Default for PlanCtx {
    fn default() -> (r: PlanCtx)
        ensures
            r.disabled_passes@.len() == 0,
    {
        PlanCtx { disabled_passes: Vec::new() }
    }
}

/// A logical optimization pass.
pub trait LogicalPass {
    /// The identity of the pass.
    open spec fn id_view(&self) -> PassId {
        arbitrary()
    }

    /// What the pass makes of a plan.
    open spec fn run_view(&self, plan: LogicalView) -> LogicalView {
        arbitrary()
    }

    /// The passes that must run before this one.
    open spec fn after(&self) -> Seq<PassId> {
        arbitrary()
    }

    fn id(&self) -> (r: PassId)
        ensures
            r == self.id_view(),
    ;

    fn run(&self, plan: LogicalPlan, ctx: &PlanCtx) -> (r: LogicalPlan)
        ensures
            r@ == self.run_view(plan@),
    ;

    fn must_follow(&self) -> (r: &'static [PassId])
        ensures
            r@ == self.after(),
    ;
}

/// Coalesces adjacent flat patterns of equal scope, from the leaves up.
pub struct CoalesceBgp;

impl LogicalPass for CoalesceBgp {
    open spec fn id_view(&self) -> PassId {
        PassId::CoalesceBgp
    }

    open spec fn run_view(&self, plan: LogicalView) -> LogicalView {
        rewrite_view(Rewrite::Coalesce, plan)
    }

    open spec fn after(&self) -> Seq<PassId> {
        Seq::empty()
    }

    fn id(&self) -> PassId {
        PassId::CoalesceBgp
    }

    fn run(&self, plan: LogicalPlan, _ctx: &PlanCtx) -> LogicalPlan {
        coalesce(plan)
    }

    fn must_follow(&self) -> &'static [PassId] {
        let r: &'static [PassId] = &[];
        assert(r@ =~= Seq::<PassId>::empty());
        r
    }
}

/// Folds contiguous joins of flat patterns into one flat pattern.
pub fn coalesce(plan: LogicalPlan) -> (r: LogicalPlan)
    ensures
        r@ == rewrite_view(Rewrite::Coalesce, plan@),
{
    rewrite(Rewrite::Coalesce, plan)
}

/// Is a pass of identity `id` among the first `n` passes?
pub open spec fn wired_before(passes: Seq<Box<dyn LogicalPass>>, n: int, id: PassId) -> bool {
    exists|j: int| 0 <= j < n && (#[trigger] passes[j]).id_view() == id
}

/// Does every pass come after all the passes it must follow?
pub open spec fn pass_order_ok(passes: Seq<Box<dyn LogicalPass>>) -> bool {
    forall|i: int, k: int|
        0 <= i < passes.len() && 0 <= k < passes[i].after().len() ==> wired_before(
            passes,
            i,
            #[trigger] passes[i].after()[k],
        )
}

/// Checks the declared ordering constraints. On a violation, the error names
/// the pass and the predecessor it misses.
pub fn assert_pass_order(passes: &Vec<Box<dyn LogicalPass>>) -> (r: Result<(), (PassId, PassId)>)
    ensures
        r is Ok <==> pass_order_ok(passes@),
        r matches Err((p, req)) ==> exists|i: int|
            0 <= i < passes@.len() && (#[trigger] passes@[i]).id_view() == p
                && passes@[i].after().contains(req) && !wired_before(passes@, i, req),
{
    let mut i: usize = 0;
    while i < passes.len()
        invariant
            i <= passes@.len(),
            forall|a: int, k: int|
                0 <= a < i && 0 <= k < passes@[a].after().len() ==> wired_before(
                    passes@,
                    a,
                    #[trigger] passes@[a].after()[k],
                ),
        decreases passes@.len() - i,
    {
        let required = passes[i].must_follow();
        let mut k: usize = 0;
        while k < required.len()
            invariant
                i < passes@.len(),
                k <= required@.len(),
                required@ == passes@[i as int].after(),
                forall|m: int|
                    0 <= m < k ==> wired_before(
                        passes@,
                        i as int,
                        #[trigger] passes@[i as int].after()[m],
                    ),
            decreases required@.len() - k,
        {
            let req = required[k];
            let mut found = false;
            let mut j: usize = 0;
            while j < i
                invariant
                    j <= i < passes@.len(),
                    found <==> exists|m: int| 0 <= m < j && (#[trigger] passes@[m]).id_view() == req,
                decreases i - j,
            {
                if passes[j].id() == req {
                    assert(passes@[j as int].id_view() == req);
                    found = true;
                }
                j = j + 1;
            }
            if !found {
                proof {
                    assert(!wired_before(passes@, i as int, passes@[i as int].after()[k as int]));
                    assert(passes@[i as int].after().contains(req));
                }
                return Err((passes[i].id(), req));
            }
            assert(wired_before(passes@, i as int, passes@[i as int].after()[k as int]));
            k = k + 1;
        }
        i = i + 1;
    }
    Ok(())
}

/// The plan after the enabled passes have run in order.
pub open spec fn run_passes_view(
    plan: LogicalView,
    passes: Seq<Box<dyn LogicalPass>>,
    disabled: Seq<PassId>,
) -> LogicalView
    decreases passes.len(),
{
    if passes.len() == 0 {
        plan
    } else {
        let before = run_passes_view(plan, passes.drop_last(), disabled);
        if disabled.contains(passes.last().id_view()) {
            before
        } else {
            passes.last().run_view(before)
        }
    }
}

/// Have the first `n` passes added no reference that nothing backs? Those that
/// the plan came with may stay: a filter may name a variable that its pattern
/// never binds.
pub open spec fn sound_after(
    plan: LogicalView,
    passes: Seq<Box<dyn LogicalPass>>,
    disabled: Seq<PassId>,
    n: int,
) -> bool {
    dangling(run_passes_view(plan, passes.take(n), disabled)).subset_of(dangling(plan))
}

/// Runs the passes in order, skipping those the context disables. Where a pass
/// adds a reference that nothing backs, that pass is returned as the error.
pub fn run_passes(plan: LogicalPlan, passes: &Vec<Box<dyn LogicalPass>>, ctx: &PlanCtx) -> (r:
    Result<LogicalPlan, PassId>)
    ensures
        match r {
            Ok(p) => p@ == run_passes_view(plan@, passes@, ctx.disabled_passes@) && forall|n: int|
                0 <= n <= passes@.len() ==> #[trigger] sound_after(
                    plan@,
                    passes@,
                    ctx.disabled_passes@,
                    n,
                ),
            Err(id) => exists|n: int|
                0 <= n < passes@.len() && id == passes@[n].id_view() && !(#[trigger] sound_after(
                    plan@,
                    passes@,
                    ctx.disabled_passes@,
                    n + 1,
                )) && forall|m: int|
                    0 <= m <= n ==> #[trigger] sound_after(
                        plan@,
                        passes@,
                        ctx.disabled_passes@,
                        m,
                    ),
        },
{
    let baseline = dangling_refs(&plan);
    let mut cur = plan;
    let ghost start = cur@;
    let ghost off = ctx.disabled_passes@;
    let mut i: usize = 0;
    assert(passes@.take(0) =~= Seq::empty());
    assert(sound_after(start, passes@, off, 0));
    while i < passes.len()
        invariant
            i <= passes@.len(),
            start == plan@,
            off == ctx.disabled_passes@,
            baseline@ == dangling(start),
            cur@ == run_passes_view(start, passes@.take(i as int), off),
            forall|n: int| 0 <= n <= i ==> #[trigger] sound_after(start, passes@, off, n),
        decreases passes@.len() - i,
    {
        proof {
            assert(passes@.take(i + 1).drop_last() =~= passes@.take(i as int));
            assert(passes@.take(i + 1).last() == passes@[i as int]);
        }
        let id = passes[i].id();
        if !ctx.is_disabled(id) {
            cur = passes[i].run(cur, ctx);
            let now = dangling_refs(&cur);
            if !now.subset_of(&baseline) {
                assert(!sound_after(start, passes@, off, i + 1));
                return Err(id);
            }
            assert(sound_after(start, passes@, off, i + 1));
        } else {
            assert(sound_after(start, passes@, off, i as int));
            assert(sound_after(start, passes@, off, i + 1));
        }
        i = i + 1;
    }
    assert(passes@.take(passes@.len() as int) =~= passes@);
    Ok(cur)
}

/// The standard pipeline: the coalescing pass alone. Source order is run
/// order, and the declared constraints hold.
pub fn standard_passes() -> (r: Vec<Box<dyn LogicalPass>>)
    ensures
        r@.len() == 1,
        r@[0].id_view() == PassId::CoalesceBgp,
        forall|p: LogicalView| (#[trigger] r@[0].run_view(p)) == rewrite_view(Rewrite::Coalesce, p),
        pass_order_ok(r@),
{
    let pass = CoalesceBgp;
    let boxed: Box<dyn LogicalPass> = Box::new(pass);
    assert(pass.id_view() == PassId::CoalesceBgp);
    assert(boxed.id_view() == PassId::CoalesceBgp);
    assert(boxed.after() =~= Seq::<PassId>::empty());
    assert forall|p: LogicalView| (#[trigger] boxed.run_view(p)) == rewrite_view(
        Rewrite::Coalesce,
        p,
    ) by {
        assert(pass.run_view(p) == rewrite_view(Rewrite::Coalesce, p));
    }
    let ghost only = boxed;
    let passes = vec![boxed];
    assert(passes@[0] == only);
    assert((*passes@[0]).id_view() == (*only).id_view());
    assert((*passes@[0]).after() == (*only).after());
    assert forall|p: LogicalView| (#[trigger] passes@[0].run_view(p)) == rewrite_view(
        Rewrite::Coalesce,
        p,
    ) by {
        assert((*passes@[0]).run_view(p) == (*only).run_view(p));
    }
    passes
}

}
