//! A plan shown to a reader: each node's operator and its estimated number of
//! rows, as an indented text or as a JSON object. Nothing is executed.

use crate::algebra::{names, Var};
use crate::exec::executor::Executor;
use crate::plan::{PhysicalPlan, PhysicalView};
use crate::text::{chars_of, decimal, decimal_text, push_char, Text};
use vstd::prelude::*;
use vstd::string::*;

verus! {

/// How a plan is shown.
#[derive(Debug, Clone, Copy, PartialEq, Eq, Structural)]
pub enum ExplainFormat {
    /// An indented text, one node to a line.
    Text,
    /// A JSON object.
    Json,
}

/// How a query is executed.
#[derive(Debug, Clone, Copy, PartialEq, Eq, Structural)]
pub enum ExecutionMode {
    /// Against a store that holds all that follows from its data.
    Materialized,
}

impl ExecutionMode {
    pub open spec fn label_view(self) -> Text {
        "materialized"@
    }

    /// The name of the mode.
    pub fn label(self) -> (r: &'static str)
        ensures
            r@ == self.label_view(),
    {
        match self {
            ExecutionMode::Materialized => "materialized",
        }
    }
}

// ── Estimates ───────────────────────────────────────────────────────────────

/// A number of rows, capped at what a machine word holds.
pub open spec fn capped(n: int) -> u64 {
    if n > u64::MAX {
        u64::MAX
    } else {
        n as u64
    }
}

/// The product of two estimates.
pub open spec fn product(l: Option<u64>, r: Option<u64>) -> Option<u64> {
    match (l, r) {
        (Some(a), Some(b)) => Some(capped(a * b)),
        _ => None,
    }
}

/// The estimated number of rows of a node; `None` where the store cannot
/// estimate a scan below it.
pub open spec fn estimated<E: Executor>(exec: &E, plan: PhysicalView) -> Option<u64>
    decreases plan,
{
    match plan {
        PhysicalView::BgpScan { patterns, .. } => exec.estimate(patterns),
        PhysicalView::CountScan { .. } => Some(1),
        // At most one row for each solution of the pattern.
        PhysicalView::GroupCountScan { patterns, .. } => exec.estimate(patterns),
        PhysicalView::Values { rows, .. } => Some(rows.len() as u64),
        PhysicalView::Join { left, right } => product(
            estimated(exec, *left),
            estimated(exec, *right),
        ),
        // Every row of the left side survives.
        PhysicalView::LeftJoin { left, right, .. } => match (
            estimated(exec, *left),
            product(estimated(exec, *left), estimated(exec, *right)),
        ) {
            (Some(l), Some(p)) => Some(if p > l {
                p
            } else {
                l
            }),
            _ => None,
        },
        PhysicalView::Union { left, right } => match (
            estimated(exec, *left),
            estimated(exec, *right),
        ) {
            (Some(a), Some(b)) => Some(capped(a + b)),
            _ => None,
        },
        PhysicalView::Minus { left, .. } => estimated(exec, *left),
        PhysicalView::Filter { inner, .. } => estimated(exec, *inner),
        PhysicalView::Distinct { inner } => estimated(exec, *inner),
        PhysicalView::Project { inner, .. } => estimated(exec, *inner),
        PhysicalView::Extend { inner, .. } => estimated(exec, *inner),
        PhysicalView::OrderBy { inner, .. } => estimated(exec, *inner),
        PhysicalView::Group { inner, .. } => estimated(exec, *inner),
        PhysicalView::PerGraph { inner, .. } => estimated(exec, *inner),
        PhysicalView::Slice { inner, length, .. } => match (estimated(exec, *inner), length) {
            (Some(n), Some(len)) => Some(if n < len {
                n
            } else {
                len as u64
            }),
            (n, _) => n,
        },
        PhysicalView::PathClosure { edge, .. } => estimated(exec, *edge),
    }
}

/// The estimated number of rows of a node. A join is estimated at the product
/// of its sides, and a node that only drops rows at the rows it reads.
pub fn estimate<E: Executor>(plan: &PhysicalPlan, exec: &E) -> (r: Option<u64>)
    ensures
        r == estimated(exec, plan@),
    decreases plan,
{
    match plan {
        PhysicalPlan::BgpScan { patterns, .. } | PhysicalPlan::GroupCountScan {
            patterns,
            ..
        } => exec.cardinality_estimate(patterns),
        PhysicalPlan::CountScan { .. } => Some(1),
        PhysicalPlan::Values { rows, .. } => Some(rows.len() as u64),
        PhysicalPlan::Join { left, right } => match (estimate(left, exec), estimate(right, exec)) {
            (Some(l), Some(r)) => Some(times(l, r)),
            _ => None,
        },
        PhysicalPlan::LeftJoin { left, right, .. } => match (
            estimate(left, exec),
            estimate(right, exec),
        ) {
            (Some(l), Some(r)) => {
                let p: u64 = times(l, r);
                Some(
                    if p > l {
                        p
                    } else {
                        l
                    },
                )
            },
            _ => None,
        },
        PhysicalPlan::Union { left, right } => match (estimate(left, exec), estimate(right, exec)) {
            (Some(l), Some(r)) => Some(
                match l.checked_add(r) {
                    Some(n) => n,
                    None => u64::MAX,
                },
            ),
            _ => None,
        },
        PhysicalPlan::Minus { left, .. } => estimate(left, exec),
        PhysicalPlan::Filter { inner, .. } | PhysicalPlan::Distinct { inner }
        | PhysicalPlan::Project { inner, .. } | PhysicalPlan::Extend { inner, .. }
        | PhysicalPlan::OrderBy { inner, .. } | PhysicalPlan::Group { inner, .. }
        | PhysicalPlan::PerGraph { inner, .. } => estimate(inner, exec),
        PhysicalPlan::Slice { inner, length, .. } => match (estimate(inner, exec), length) {
            (Some(n), Some(len)) => {
                let limit: u64 = *len as u64;
                Some(
                    if n < limit {
                        n
                    } else {
                        limit
                    },
                )
            },
            (n, _) => n,
        },
        PhysicalPlan::PathClosure { edge, .. } => estimate(edge, exec),
    }
}

fn times(l: u64, r: u64) -> (p: u64)
    ensures
        p == capped(l * r),
{
    match l.checked_mul(r) {
        Some(n) => n,
        None => u64::MAX,
    }
}

// ── Labels ──────────────────────────────────────────────────────────────────

/// The ending of a counted word.
pub open spec fn plural_view(n: nat) -> Text {
    if n == 1 {
        ""@
    } else {
        "s"@
    }
}

fn plural(n: usize) -> (r: &'static str)
    ensures
        r@ == plural_view(n as nat),
{
    if n == 1 {
        ""
    } else {
        "s"
    }
}

/// A count with the thing counted.
pub open spec fn counted(n: nat, what: Text) -> Text {
    decimal(n) + what + plural_view(n)
}

fn count_of(n: usize, what: &str) -> (r: String)
    ensures
        r@ == counted(n as nat, what@),
{
    let mut out = decimal_text(n as u64);
    out.append(what);
    out.append(plural(n));
    out
}

/// Variable names, each after a separator but the first.
pub open spec fn name_list(vars: Seq<Text>) -> Text
    decreases vars.len(),
{
    if vars.len() == 0 {
        Seq::empty()
    } else if vars.len() == 1 {
        vars[0]
    } else {
        name_list(vars.drop_last()) + ", ?"@ + vars.last()
    }
}

fn list_names(vars: &Vec<Var>) -> (r: String)
    ensures
        r@ == name_list(names(vars@)),
{
    let mut out = String::new();
    let mut i: usize = 0;
    assert(names(vars@).take(0) =~= Seq::empty());
    while i < vars.len()
        invariant
            i <= vars@.len(),
            out@ == name_list(names(vars@).take(i as int)),
        decreases vars@.len() - i,
    {
        proof {
            let next = names(vars@).take(i + 1);
            assert(next.drop_last() =~= names(vars@).take(i as int));
            assert(next.last() == vars@[i as int]@);
        }
        if i > 0 {
            out.append(", ?");
        }
        out.append(vars[i].name());
        proof {
            if i == 0 {
                assert(out@ =~= vars@[0]@);
            }
        }
        i = i + 1;
    }
    assert(names(vars@).take(vars@.len() as int) =~= names(vars@));
    out
}

/// The operator shown for a node.
pub open spec fn label_of(plan: PhysicalView) -> Text {
    match plan {
        PhysicalView::BgpScan { patterns, .. } => "BgpScan("@ + counted(patterns.len(), " pattern"@)
            + ")"@,
        PhysicalView::CountScan { patterns, out_var, .. } => "CountScan("@ + counted(
            patterns.len(),
            " pattern"@,
        ) + " -> ?"@ + out_var + ")"@,
        PhysicalView::GroupCountScan { patterns, keys, out_vars, .. } => "GroupCountScan("@
            + counted(patterns.len(), " pattern"@) + ", "@ + counted(keys.len(), " key"@)
            + " -> ?"@ + name_list(out_vars) + ")"@,
        PhysicalView::Join { .. } => "Join"@,
        PhysicalView::LeftJoin { expr, .. } => if expr is Some {
            "LeftJoin(with filter)"@
        } else {
            "LeftJoin"@
        },
        PhysicalView::Minus { .. } => "Minus"@,
        PhysicalView::Filter { .. } => "Filter"@,
        PhysicalView::Union { .. } => "Union"@,
        PhysicalView::Project { vars, .. } => "Project(?"@ + name_list(vars) + ")"@,
        PhysicalView::Distinct { .. } => "Distinct"@,
        PhysicalView::Slice { start, length, .. } => match length {
            Some(len) => "Slice(offset="@ + decimal(start as nat) + ", limit="@ + decimal(
                len as nat,
            ) + ")"@,
            None => "Slice(offset="@ + decimal(start as nat) + ")"@,
        },
        PhysicalView::OrderBy { keys, .. } => "OrderBy("@ + counted(keys.len(), " key"@) + ")"@,
        PhysicalView::Extend { var, .. } => "Extend(?"@ + var + ")"@,
        PhysicalView::Values { vars, rows } => "Values("@ + counted(vars.len(), " var"@) + ", "@
            + counted(rows.len(), " row"@) + ")"@,
        PhysicalView::Group { keys, aggregates, .. } => "Group("@ + counted(keys.len(), " key"@)
            + ", "@ + counted(aggregates.len(), " aggregate"@) + ")"@,
        PhysicalView::PerGraph { var, .. } => "PerGraph(?"@ + var + ")"@,
        PhysicalView::PathClosure { reflexive, .. } => if reflexive {
            "PathClosure(reflexive+transitive, p*)"@
        } else {
            "PathClosure(transitive, p+)"@
        },
    }
}

/// The operator shown for a node, without its children.
pub fn node_label(plan: &PhysicalPlan) -> (r: String)
    ensures
        r@ == label_of(plan@),
{
    match plan {
        PhysicalPlan::BgpScan { patterns, .. } => {
            let mut out = "BgpScan(".to_owned();
            out.append(count_of(patterns.len(), " pattern").as_str());
            out.append(")");
            out
        },
        PhysicalPlan::CountScan { patterns, out_var, .. } => {
            let mut out = "CountScan(".to_owned();
            out.append(count_of(patterns.len(), " pattern").as_str());
            out.append(" -> ?");
            out.append(out_var.name());
            out.append(")");
            out
        },
        PhysicalPlan::GroupCountScan { patterns, keys, out_vars, .. } => {
            let mut out = "GroupCountScan(".to_owned();
            out.append(count_of(patterns.len(), " pattern").as_str());
            out.append(", ");
            out.append(count_of(keys.len(), " key").as_str());
            out.append(" -> ?");
            out.append(list_names(out_vars).as_str());
            out.append(")");
            out
        },
        PhysicalPlan::Join { .. } => "Join".to_owned(),
        PhysicalPlan::LeftJoin { expr, .. } => match expr {
            Some(_) => "LeftJoin(with filter)".to_owned(),
            None => "LeftJoin".to_owned(),
        },
        PhysicalPlan::Minus { .. } => "Minus".to_owned(),
        PhysicalPlan::Filter { .. } => "Filter".to_owned(),
        PhysicalPlan::Union { .. } => "Union".to_owned(),
        PhysicalPlan::Project { vars, .. } => {
            let mut out = "Project(?".to_owned();
            out.append(list_names(vars).as_str());
            out.append(")");
            out
        },
        PhysicalPlan::Distinct { .. } => "Distinct".to_owned(),
        PhysicalPlan::Slice { start, length, .. } => {
            let mut out = "Slice(offset=".to_owned();
            out.append(decimal_text(*start as u64).as_str());
            match length {
                Some(len) => {
                    out.append(", limit=");
                    out.append(decimal_text(*len as u64).as_str());
                },
                None => {},
            }
            out.append(")");
            out
        },
        PhysicalPlan::OrderBy { keys, .. } => {
            let mut out = "OrderBy(".to_owned();
            out.append(count_of(keys.len(), " key").as_str());
            out.append(")");
            out
        },
        PhysicalPlan::Extend { var, .. } => {
            let mut out = "Extend(?".to_owned();
            out.append(var.name());
            out.append(")");
            out
        },
        PhysicalPlan::Values { vars, rows } => {
            let mut out = "Values(".to_owned();
            out.append(count_of(vars.len(), " var").as_str());
            out.append(", ");
            out.append(count_of(rows.len(), " row").as_str());
            out.append(")");
            out
        },
        PhysicalPlan::Group { keys, aggregates, .. } => {
            let mut out = "Group(".to_owned();
            out.append(count_of(keys.len(), " key").as_str());
            out.append(", ");
            out.append(count_of(aggregates.len(), " aggregate").as_str());
            out.append(")");
            out
        },
        PhysicalPlan::PerGraph { var, .. } => {
            let mut out = "PerGraph(?".to_owned();
            out.append(var.name());
            out.append(")");
            out
        },
        PhysicalPlan::PathClosure { reflexive, .. } => if *reflexive {
            "PathClosure(reflexive+transitive, p*)".to_owned()
        } else {
            "PathClosure(transitive, p+)".to_owned()
        },
    }
}

// ── Trees ───────────────────────────────────────────────────────────────────

/// A node's children, in the order they are shown. No node has more than two.
pub open spec fn children_of(plan: PhysicalView) -> Seq<PhysicalView> {
    match plan {
        PhysicalView::BgpScan { .. } => Seq::empty(),
        PhysicalView::CountScan { .. } => Seq::empty(),
        PhysicalView::GroupCountScan { .. } => Seq::empty(),
        PhysicalView::Values { .. } => Seq::empty(),
        PhysicalView::Join { left, right } => seq![*left, *right],
        PhysicalView::LeftJoin { left, right, .. } => seq![*left, *right],
        PhysicalView::Minus { left, right } => seq![*left, *right],
        PhysicalView::Union { left, right } => seq![*left, *right],
        PhysicalView::Filter { inner, .. } => seq![*inner],
        PhysicalView::Distinct { inner } => seq![*inner],
        PhysicalView::Project { inner, .. } => seq![*inner],
        PhysicalView::Slice { inner, .. } => seq![*inner],
        PhysicalView::OrderBy { inner, .. } => seq![*inner],
        PhysicalView::Extend { inner, .. } => seq![*inner],
        PhysicalView::Group { inner, .. } => seq![*inner],
        PhysicalView::PerGraph { inner, .. } => seq![*inner],
        PhysicalView::PathClosure { edge, .. } => seq![*edge],
    }
}

/// A child is smaller than its parent.
pub proof fn children_are_smaller(plan: PhysicalView)
    ensures
        children_of(plan).len() <= 2,
        children_of(plan).len() >= 1 ==> decreases_to!(plan => children_of(plan)[0]),
        children_of(plan).len() >= 2 ==> decreases_to!(plan => children_of(plan)[1]),
{
}

/// The views of plans.
pub open spec fn plans_view(s: Seq<&PhysicalPlan>) -> Seq<PhysicalView> {
    Seq::new(s.len(), |i: int| s[i]@)
}

/// A node's children.
fn children(plan: &PhysicalPlan) -> (r: Vec<&PhysicalPlan>)
    ensures
        plans_view(r@) == children_of(plan@),
        forall|i: int| 0 <= i < r@.len() ==> decreases_to!(plan => #[trigger] r@[i]),
{
    let r: Vec<&PhysicalPlan> = match plan {
        PhysicalPlan::BgpScan { .. } | PhysicalPlan::CountScan { .. }
        | PhysicalPlan::GroupCountScan { .. } | PhysicalPlan::Values { .. } => Vec::new(),
        PhysicalPlan::Join { left, right } | PhysicalPlan::LeftJoin { left, right, .. }
        | PhysicalPlan::Minus { left, right } | PhysicalPlan::Union { left, right } => {
            vec![&**left, &**right]
        },
        PhysicalPlan::Filter { inner, .. } | PhysicalPlan::Distinct { inner }
        | PhysicalPlan::Project { inner, .. } | PhysicalPlan::Slice { inner, .. }
        | PhysicalPlan::OrderBy { inner, .. } | PhysicalPlan::Extend { inner, .. }
        | PhysicalPlan::Group { inner, .. } | PhysicalPlan::PerGraph { inner, .. } => {
            vec![&**inner]
        },
        PhysicalPlan::PathClosure { edge, .. } => vec![&**edge],
    };
    assert(plans_view(r@) =~= children_of(plan@));
    r
}

/// An estimate as text.
pub open spec fn rows_shown(n: Option<u64>) -> Text {
    match n {
        Some(n) => "~"@ + decimal(n as nat) + " rows"@,
        None => "~? rows"@,
    }
}

/// A node's line.
pub open spec fn line_of<E: Executor>(exec: &E, plan: PhysicalView, indent: Text) -> Text {
    indent + label_of(plan) + " ["@ + rows_shown(estimated(exec, plan)) + "]\n"@
}

/// A node and the nodes below it, one to a line.
pub open spec fn tree_text<E: Executor>(exec: &E, plan: PhysicalView, indent: Text) -> Text
    decreases plan,
{
    proof {
        children_are_smaller(plan);
    }
    let kids = children_of(plan);
    let deeper = indent + "  "@;
    let head = line_of(exec, plan, indent);
    if kids.len() == 0 {
        head
    } else if kids.len() == 1 {
        head + tree_text(exec, kids[0], deeper)
    } else {
        head + tree_text(exec, kids[0], deeper) + tree_text(exec, kids[1], deeper)
    }
}

/// A plan as text.
pub open spec fn plan_text<E: Executor>(exec: &E, plan: PhysicalView, mode: ExecutionMode) -> Text {
    "EXPLAIN\n"@ + "mode: "@ + mode.label_view() + " (backward-chaining not yet available)\n"@
        + "plan:\n"@ + tree_text(exec, plan, Seq::empty())
}

fn show_rows(n: Option<u64>) -> (r: String)
    ensures
        r@ == rows_shown(n),
{
    match n {
        Some(n) => {
            let mut out = "~".to_owned();
            out.append(decimal_text(n).as_str());
            out.append(" rows");
            out
        },
        None => "~? rows".to_owned(),
    }
}

fn render_text_node<E: Executor>(plan: &PhysicalPlan, exec: &E, indent: &str) -> (out: String)
    ensures
        out@ == tree_text(exec, plan@, indent@),
    decreases plan,
{
    let mut out = indent.to_owned();
    out.append(node_label(plan).as_str());
    out.append(" [");
    out.append(show_rows(estimate(plan, exec)).as_str());
    out.append("]\n");
    let kids = children(plan);
    proof {
        children_are_smaller(plan@);
        assert(plans_view(kids@).len() == kids@.len());
    }
    let mut deeper = indent.to_owned();
    deeper.append("  ");
    if kids.len() >= 1 {
        assert(plans_view(kids@)[0] == kids@[0]@);
        out.append(render_text_node(kids[0], exec, deeper.as_str()).as_str());
    }
    if kids.len() >= 2 {
        assert(plans_view(kids@)[1] == kids@[1]@);
        out.append(render_text_node(kids[1], exec, deeper.as_str()).as_str());
    }
    out
}

fn render_text<E: Executor>(plan: &PhysicalPlan, exec: &E, mode: ExecutionMode) -> (out: String)
    ensures
        out@ == plan_text(exec, plan@, mode),
{
    let mut out = "EXPLAIN\n".to_owned();
    out.append("mode: ");
    out.append(mode.label());
    out.append(" (backward-chaining not yet available)\n");
    out.append("plan:\n");
    let none = String::new();
    assert(none@ =~= Seq::empty());
    out.append(render_text_node(plan, exec, none.as_str()).as_str());
    out
}

/// A digit of a number below sixteen.
pub open spec fn hex_digit(d: nat) -> char {
    if d < 10 {
        (d as u32 + 48) as char
    } else {
        (d as u32 + 87) as char
    }
}

/// A character inside a JSON string.
pub open spec fn json_char(c: char) -> Text {
    if c == '"' {
        "\\\""@
    } else if c == '\\' {
        "\\\\"@
    } else if c == '\n' {
        "\\n"@
    } else if c == '\t' {
        "\\t"@
    } else if c == '\r' {
        "\\r"@
    } else if (c as u32) < 0x20 {
        "\\u00"@.push(hex_digit((c as u32 / 16) as nat)).push(hex_digit((c as u32 % 16) as nat))
    } else {
        seq![c]
    }
}

/// Characters inside a JSON string.
pub open spec fn json_chars(s: Text) -> Text
    decreases s.len(),
{
    if s.len() == 0 {
        Seq::empty()
    } else {
        json_chars(s.drop_last()) + json_char(s.last())
    }
}

/// A JSON string.
pub open spec fn json_quoted(s: Text) -> Text {
    seq!['"'] + json_chars(s) + seq!['"']
}

fn hex_char(d: u32) -> (r: char)
    requires
        d < 16,
    ensures
        r == hex_digit(d as nat),
{
    if d < 10 {
        (d as u8 + 48) as char
    } else {
        (d as u8 + 87) as char
    }
}

/// A text as a JSON string.
pub fn json_string(s: &str) -> (r: String)
    ensures
        r@ == json_quoted(s@),
{
    let cs = chars_of(s);
    let mut out = String::new();
    push_char(&mut out, '"');
    let mut i: usize = 0;
    assert(cs@.take(0) =~= Seq::empty());
    assert(out@ =~= seq!['"'] + json_chars(cs@.take(0)));
    while i < cs.len()
        invariant
            i <= cs@.len(),
            out@ == seq!['"'] + json_chars(cs@.take(i as int)),
        decreases cs@.len() - i,
    {
        let c = cs[i];
        let ghost before = out@;
        if c == '"' {
            out.append("\\\"");
        } else if c == '\\' {
            out.append("\\\\");
        } else if c == '\n' {
            out.append("\\n");
        } else if c == '\t' {
            out.append("\\t");
        } else if c == '\r' {
            out.append("\\r");
        } else if (c as u32) < 0x20 {
            let code: u32 = c as u32;
            out.append("\\u00");
            push_char(&mut out, hex_char(code / 16));
            push_char(&mut out, hex_char(code % 16));
            assert(out@ =~= before + json_char(c));
        } else {
            push_char(&mut out, c);
            assert(out@ =~= before + json_char(c));
        }
        proof {
            let next = cs@.take(i + 1);
            assert(next.drop_last() =~= cs@.take(i as int));
            assert(next.last() == c);
            assert(out@ == before + json_char(c));
            assert(out@ =~= seq!['"'] + json_chars(next));
        }
        i = i + 1;
    }
    push_char(&mut out, '"');
    proof {
        assert(cs@.take(cs@.len() as int) =~= cs@);
        assert(out@ =~= json_quoted(s@));
    }
    out
}

/// An estimate in JSON.
pub open spec fn rows_json(n: Option<u64>) -> Text {
    match n {
        Some(n) => "\"estRows\":"@ + decimal(n as nat) + ","@,
        None => "\"estRows\":null,"@,
    }
}

/// A node and the nodes below it, as a JSON object.
pub open spec fn tree_json<E: Executor>(exec: &E, plan: PhysicalView) -> Text
    decreases plan,
{
    proof {
        children_are_smaller(plan);
    }
    let kids = children_of(plan);
    let head = "{\"op\":"@ + json_quoted(label_of(plan)) + ","@ + rows_json(estimated(exec, plan))
        + "\"children\":["@;
    if kids.len() == 0 {
        head + "]}"@
    } else if kids.len() == 1 {
        head + tree_json(exec, kids[0]) + "]}"@
    } else {
        head + tree_json(exec, kids[0]) + ","@ + tree_json(exec, kids[1]) + "]}"@
    }
}

/// A plan as a JSON object.
pub open spec fn plan_json<E: Executor>(exec: &E, plan: PhysicalView, mode: ExecutionMode) -> Text {
    "{\"mode\":\""@ + mode.label_view() + "\","@ + "\"backwardChainingAvailable\":false,"@
        + "\"plan\":"@ + tree_json(exec, plan) + "}"@
}

fn render_json_node<E: Executor>(plan: &PhysicalPlan, exec: &E) -> (out: String)
    ensures
        out@ == tree_json(exec, plan@),
    decreases plan,
{
    let mut out = "{\"op\":".to_owned();
    out.append(json_string(node_label(plan).as_str()).as_str());
    out.append(",");
    let mut rows = String::new();
    match estimate(plan, exec) {
        Some(n) => {
            rows.append("\"estRows\":");
            rows.append(decimal_text(n).as_str());
            rows.append(",");
            assert(rows@ =~= rows_json(Some(n)));
        },
        None => {
            rows.append("\"estRows\":null,");
            assert(rows@ =~= rows_json(None));
        },
    }
    out.append(rows.as_str());
    out.append("\"children\":[");
    let kids = children(plan);
    proof {
        children_are_smaller(plan@);
        assert(plans_view(kids@).len() == kids@.len());
    }
    if kids.len() >= 1 {
        assert(plans_view(kids@)[0] == kids@[0]@);
        out.append(render_json_node(kids[0], exec).as_str());
    }
    if kids.len() >= 2 {
        assert(plans_view(kids@)[1] == kids@[1]@);
        out.append(",");
        out.append(render_json_node(kids[1], exec).as_str());
    }
    out.append("]}");
    out
}

fn render_json<E: Executor>(plan: &PhysicalPlan, exec: &E, mode: ExecutionMode) -> (out: String)
    ensures
        out@ == plan_json(exec, plan@, mode),
{
    let mut out = "{\"mode\":\"".to_owned();
    out.append(mode.label());
    out.append("\",");
    out.append("\"backwardChainingAvailable\":false,");
    out.append("\"plan\":");
    out.append(render_json_node(plan, exec).as_str());
    out.append("}");
    out
}

/// Shows a plan, with estimates from the store.
pub fn explain<E: Executor>(
    plan: &PhysicalPlan,
    exec: &E,
    mode: ExecutionMode,
    format: ExplainFormat,
) -> (out: String)
    ensures
        format == ExplainFormat::Text ==> out@ == plan_text(exec, plan@, mode),
        format == ExplainFormat::Json ==> out@ == plan_json(exec, plan@, mode),
{
    match format {
        ExplainFormat::Text => render_text(plan, exec, mode),
        ExplainFormat::Json => render_json(plan, exec, mode),
    }
}

}
