//! What an explanation says: estimates by those of the parts, and strings that
//! read back.

use crate::algebra::ExprView;
use crate::exec::executor::Executor;
use crate::plan::explain::{
    children_of, estimated, hex_digit, json_char, json_chars, json_quoted, label_of, line_of,
    rows_json, tree_json, tree_text,
};
use crate::plan::closure_route::{route_of, ClosureRoute};
use crate::plan::PhysicalView;
use crate::text::Text;
use vstd::prelude::*;

verus! {

/// Estimates go by those of the parts. A join has as many rows as there are
/// pairs and a union as many as both, up to the largest number; an optional
/// match has no fewer than its left side; a slice has no more than its pattern
/// and than its limit.
pub proof fn estimates_go_by_the_parts<E: Executor>(
    exec: &E,
    a: PhysicalView,
    b: PhysicalView,
    expr: Option<ExprView>,
    start: usize,
    limit: Option<usize>,
)
    requires
        estimated(exec, a) is Some,
        estimated(exec, b) is Some,
    ensures
        ({
            let (l, r) = (Box::new(a), Box::new(b));
            let (m, n) = (estimated(exec, a)->0, estimated(exec, b)->0);
            let join = estimated(exec, PhysicalView::Join { left: l, right: r });
            let union = estimated(exec, PhysicalView::Union { left: l, right: r });
            let optional = estimated(exec, PhysicalView::LeftJoin { left: l, right: r, expr });
            let minus = estimated(exec, PhysicalView::Minus { left: l, right: r });
            let slice = estimated(exec, PhysicalView::Slice { inner: l, start, length: limit });
            &&& join is Some && join->0 <= m * n && (m * n <= u64::MAX ==> join->0 == m * n)
            &&& m * n > u64::MAX ==> join->0 == u64::MAX
            &&& union is Some && (m + n <= u64::MAX ==> union->0 == m + n)
            &&& m + n > u64::MAX ==> union->0 == u64::MAX
            &&& optional is Some && optional->0 >= m && optional->0 >= join->0 && (optional->0 == m
                || optional->0 == join->0)
            &&& minus == Some(m)
            &&& limit is None ==> slice == Some(m)
            &&& limit matches Some(k) ==> slice is Some && slice->0 <= m && slice->0 <= k && (
            slice->0 == m || slice->0 == k)
        }),
{
}

/// Without an estimate of a part there is none of a join, a union or an
/// optional match of it.
pub proof fn unknown_parts_leave_estimates_unknown<E: Executor>(
    exec: &E,
    a: PhysicalView,
    b: PhysicalView,
    expr: Option<ExprView>,
)
    requires
        estimated(exec, a) is None || estimated(exec, b) is None,
    ensures
        estimated(exec, PhysicalView::Join { left: Box::new(a), right: Box::new(b) }) is None,
        estimated(exec, PhysicalView::Union { left: Box::new(a), right: Box::new(b) }) is None,
        estimated(
            exec,
            PhysicalView::LeftJoin { left: Box::new(a), right: Box::new(b), expr },
        ) is None,
{
}

/// A plan is shown line by line: a node, then each of its children, deeper by
/// two spaces.
pub proof fn nodes_are_shown_above_their_children<E: Executor>(
    exec: &E,
    plan: PhysicalView,
    indent: Text,
)
    ensures
        ({
            let (kids, deeper) = (children_of(plan), indent + seq![' ', ' ']);
            &&& kids.len() == 0 ==> tree_text(exec, plan, indent) == line_of(exec, plan, indent)
            &&& kids.len() == 1 ==> tree_text(exec, plan, indent) == line_of(exec, plan, indent)
                + tree_text(exec, kids[0], deeper)
            &&& kids.len() == 2 ==> tree_text(exec, plan, indent) == line_of(exec, plan, indent)
                + tree_text(exec, kids[0], deeper) + tree_text(exec, kids[1], deeper)
        }),
{
    reveal_strlit("  ");
    assert("  "@ =~= seq![' ', ' ']);
    crate::plan::explain::children_are_smaller(plan);
}

// ── JSON strings ────────────────────────────────────────────────────────────

/// The value of a hexadecimal digit.
pub open spec fn digit_read(c: char) -> u32 {
    if '0' <= c && c <= '9' {
        (c as u32 - 48) as u32
    } else {
        (c as u32 - 87) as u32
    }
}

/// The text that the inside of a JSON string stands for.
pub open spec fn json_read(s: Text) -> Text
    decreases s.len(),
{
    if s.len() == 0 {
        Seq::empty()
    } else if s[0] != '\\' || s.len() == 1 {
        seq![s[0]] + json_read(s.skip(1))
    } else if s[1] == 'n' {
        seq!['\n'] + json_read(s.skip(2))
    } else if s[1] == 't' {
        seq!['\t'] + json_read(s.skip(2))
    } else if s[1] == 'r' {
        seq!['\r'] + json_read(s.skip(2))
    } else if s[1] == 'u' && s.len() >= 6 {
        seq![((digit_read(s[4]) * 16 + digit_read(s[5])) as u32) as char] + json_read(s.skip(6))
    } else {
        seq![s[1]] + json_read(s.skip(2))
    }
}

proof fn characters_from_the_front(s: Text)
    requires
        s.len() > 0,
    ensures
        json_chars(s) == json_char(s[0]) + json_chars(s.drop_first()),
    decreases s.len(),
{
    let rest = s.drop_last();
    if rest.len() == 0 {
        assert(rest =~= Seq::empty());
        assert(s.drop_first() =~= Seq::empty());
        assert(json_chars(rest) =~= Seq::empty());
        assert(s.last() == s[0]);
        assert(json_chars(s) =~= json_char(s[0]));
        assert(json_char(s[0]) + json_chars(s.drop_first()) =~= json_char(s[0]));
    } else {
        characters_from_the_front(rest);
        assert(rest.drop_first() =~= s.drop_first().drop_last());
        assert(s.drop_first().last() == s.last());
        assert(json_chars(s) =~= json_char(s[0]) + json_chars(s.drop_first()));
    }
}

/// A text reads back from the JSON string it is written as.
pub proof fn json_strings_read_back(s: Text)
    ensures
        json_quoted(s).len() >= 2,
        json_read(json_quoted(s).subrange(1, json_quoted(s).len() - 1)) == s,
{
    let q = json_quoted(s);
    assert(q.subrange(1, q.len() - 1) =~= json_chars(s));
    characters_read_back(s);
}

proof fn control_reads_back(c: char)
    requires
        (c as u32) < 0x20,
    ensures
        ({
            let (h, l) = (
                hex_digit((c as u32 / 16) as nat),
                hex_digit((c as u32 % 16) as nat),
            );
            ((digit_read(h) * 16 + digit_read(l)) as u32) as char == c
        }),
{
    let (h, l) = ((c as u32 / 16) as nat, (c as u32 % 16) as nat);
    assert(digit_read(hex_digit(h)) == h);
    assert(digit_read(hex_digit(l)) == l);
    assert(h * 16 + l == c as u32);
}

proof fn characters_read_back(s: Text)
    ensures
        json_read(json_chars(s)) == s,
    decreases s.len(),
{
    if s.len() == 0 {
        assert(json_read(json_chars(s)) =~= s);
    } else {
        let (c, rest) = (s[0], s.drop_first());
        characters_read_back(rest);
        characters_from_the_front(s);
        reveal_strlit("\\\"");
        reveal_strlit("\\\\");
        reveal_strlit("\\n");
        reveal_strlit("\\t");
        reveal_strlit("\\r");
        reveal_strlit("\\u00");
        let (x, e, more) = (json_char(c), json_chars(s), json_chars(rest));
        assert(s =~= seq![c] + rest);
        if c == '"' || c == '\\' || c == '\n' || c == '\t' || c == '\r' {
            assert(x.len() == 2);
            assert(e[0] == x[0] && e[1] == x[1]);
            assert(e.skip(2) =~= more);
            assert(json_read(e) == seq![c] + json_read(more));
        } else if (c as u32) < 0x20 {
            let (h, l) = ((c as u32 / 16) as nat, (c as u32 % 16) as nat);
            assert(x.len() == 6);
            assert(e[0] == x[0] && e[1] == x[1] && e[4] == x[4] && e[5] == x[5]);
            assert(x[4] == hex_digit(h) && x[5] == hex_digit(l));
            control_reads_back(c);
            assert(e.skip(6) =~= more);
            assert(json_read(e) == seq![c] + json_read(more));
        } else {
            assert(x.len() == 1);
            assert(e[0] == c);
            assert(e.skip(1) =~= more);
            assert(json_read(e) == seq![c] + json_read(more));
        }
    }
}

/// A plan in JSON is an object: the node's label, its estimate, and the objects
/// of its children in an array.
pub proof fn nodes_hold_their_children<E: Executor>(exec: &E, plan: PhysicalView)
    ensures
        ({
            let kids = children_of(plan);
            let inside = if kids.len() == 0 {
                Seq::empty()
            } else if kids.len() == 1 {
                tree_json(exec, kids[0])
            } else {
                tree_json(exec, kids[0]) + seq![','] + tree_json(exec, kids[1])
            };
            tree_json(exec, plan) == "{\"op\":"@ + json_quoted(label_of(plan)) + seq![',']
                + rows_json(estimated(exec, plan)) + "\"children\":["@ + inside + seq![']', '}']
        }),
{
    reveal_strlit(",");
    reveal_strlit("]}");
    assert(","@ =~= seq![',']);
    assert("]}"@ =~= seq![']', '}']);
    crate::plan::explain::children_are_smaller(plan);
    let kids = children_of(plan);
    let head = "{\"op\":"@ + json_quoted(label_of(plan)) + ","@ + rows_json(estimated(exec, plan))
        + "\"children\":["@;
    if kids.len() == 0 {
        assert(head + "]}"@ =~= head + Seq::<char>::empty() + "]}"@);
    } else if kids.len() == 2 {
        let (a, b) = (tree_json(exec, kids[0]), tree_json(exec, kids[1]));
        assert(head + a + ","@ + b + "]}"@ =~= head + (a + ","@ + b) + "]}"@);
    }
}

/// The kernel for many edges is taken where they are known to be as many as is
/// set, and not otherwise.
pub proof fn many_edges_are_routed(edges: Option<u64>, min_rows: u64)
    ensures
        route_of(edges, min_rows) == ClosureRoute::GraphBlas <==> edges is Some && edges->0
            >= min_rows,
        route_of(edges, min_rows) == ClosureRoute::Native <==> edges is None || edges->0 < min_rows,
{
}

}
