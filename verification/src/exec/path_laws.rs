//! What the answers of a recursive path are, by the edges it is over.
//!
//! An answer connects two lexical forms when what stands at its ends, the term
//! of a ground end or the value of a variable, has these forms.

use crate::algebra::{TermView, PATH_DST_VAR, PATH_SRC_VAR};
use crate::exec::literal::lex_of;
use crate::exec::path::{
    bind_pair, edge_ends_are_terms, edge_reaches, edge_terms, edges_of, first_with, ground_end,
    has_lex, in_path, is_edge, pair_before, pair_solutions, pairs_sorted, path_solutions,
    path_terms, reachable, reachable_ends, reachable_is_least, reachable_is_transitive,
};
use crate::text::{text_order_laws, Text};
use vstd::prelude::*;

verus! {

// ── Edges and answers ───────────────────────────────────────────────────────

/// Does a row lead from one form to the other?
pub open spec fn leads(row: Map<Text, TermView>, a: Text, b: Text) -> bool {
    &&& row.contains_key(PATH_SRC_VAR@) && lex_of(row[PATH_SRC_VAR@]) == a
    &&& row.contains_key(PATH_DST_VAR@) && lex_of(row[PATH_DST_VAR@]) == b
}

/// Does some row lead from one form to the other?
pub open spec fn links(rows: Seq<Map<Text, TermView>>, a: Text, b: Text) -> bool {
    exists|i: int| 0 <= i < rows.len() && leads(#[trigger] rows[i], a, b)
}

/// Does some row lead from one form to the other or back?
pub open spec fn beside(rows: Seq<Map<Text, TermView>>, a: Text, b: Text) -> bool {
    links(rows, a, b) || links(rows, b, a)
}

/// Is a form that of an end of some edge?
pub open spec fn touched(rows: Seq<Map<Text, TermView>>, k: Text) -> bool {
    exists|c: Text| #[trigger] beside(rows, k, c)
}

/// Does an end of a query stand for a form in an answer?
pub open spec fn stands_at(end: TermView, answer: Map<Text, TermView>, form: Text) -> bool {
    match end {
        TermView::Var(v) => answer.contains_key(v) && lex_of(answer[v]) == form,
        _ => lex_of(end) == form,
    }
}

/// Is there an answer that connects two forms?
pub open spec fn connected(
    subject: TermView,
    object: TermView,
    out: Seq<Map<Text, TermView>>,
    a: Text,
    b: Text,
) -> bool {
    exists|i: int|
        0 <= i < out.len() && stands_at(subject, #[trigger] out[i], a) && stands_at(
            object,
            out[i],
            b,
        )
}

/// May the ends of a query stand for two forms? A ground end stands for its
/// own, and one variable at both ends for one form.
pub open spec fn may_stand(subject: TermView, object: TermView, a: Text, b: Text) -> bool {
    &&& subject is Var || lex_of(subject) == a
    &&& object is Var || lex_of(object) == b
    &&& subject is Var && subject == object ==> a == b
}

/// Is a form that of a node: of an end of an edge or of a ground end?
pub open spec fn is_node(
    subject: TermView,
    object: TermView,
    rows: Seq<Map<Text, TermView>>,
    k: Text,
) -> bool {
    ||| touched(rows, k)
    ||| !(subject is Var) && lex_of(subject) == k
    ||| !(object is Var) && lex_of(object) == k
}

// ── Bookkeeping ─────────────────────────────────────────────────────────────

proof fn edges_are_links(rows: Seq<Map<Text, TermView>>, a: Text, b: Text)
    ensures
        edges_of(rows).contains((a, b)) == links(rows, a, b),
    decreases rows.len(),
{
    if rows.len() > 0 {
        let rest = rows.drop_last();
        let (es, er) = (edges_of(rows), edges_of(rest));
        edges_are_links(rest, a, b);
        if es.contains((a, b)) {
            let k = choose|k: int| 0 <= k < es.len() && es[k] == (a, b);
            if k < er.len() {
                assert(er[k] == (a, b));
                let i = choose|i: int| 0 <= i < rest.len() && leads(#[trigger] rest[i], a, b);
                assert(leads(rows[i], a, b));
            } else {
                assert(leads(rows[rows.len() - 1], a, b));
            }
        }
        if links(rows, a, b) {
            let i = choose|i: int| 0 <= i < rows.len() && leads(#[trigger] rows[i], a, b);
            if i < rest.len() {
                assert(leads(rest[i], a, b));
                assert(er.contains((a, b)));
                let k = choose|k: int| 0 <= k < er.len() && er[k] == (a, b);
                assert(es[k] == (a, b));
            } else {
                assert(is_edge(rows.last()));
                assert(es[er.len() as int] == (a, b));
            }
        }
    }
}

proof fn edge_terms_are_touched(rows: Seq<Map<Text, TermView>>, k: Text)
    ensures
        has_lex(edge_terms(rows), k) == touched(rows, k),
    decreases rows.len(),
{
    let ts = edge_terms(rows);
    if touched(rows, k) {
        let c = choose|c: Text| #[trigger] beside(rows, k, c);
        edges_are_links(rows, k, c);
        edges_are_links(rows, c, k);
        if links(rows, k, c) {
            edge_ends_are_terms(rows, k, c);
        } else {
            edge_ends_are_terms(rows, c, k);
        }
    }
    if has_lex(ts, k) {
        let i = choose|i: int| 0 <= i < ts.len() && lex_of(#[trigger] ts[i]) == k;
        let rest = rows.drop_last();
        let tr = edge_terms(rest);
        if i < tr.len() {
            assert(lex_of(tr[i]) == k);
            edge_terms_are_touched(rest, k);
            let c = choose|c: Text| #[trigger] beside(rest, k, c);
            if links(rest, k, c) {
                more_links(rows, k, c);
            } else {
                more_links(rows, c, k);
            }
            assert(beside(rows, k, c));
        } else {
            let row = rows.last();
            let (a, b) = (lex_of(row[PATH_SRC_VAR@]), lex_of(row[PATH_DST_VAR@]));
            assert(leads(rows[rows.len() - 1], a, b));
            assert(links(rows, a, b));
            if i == tr.len() {
                assert(k == a);
                assert(beside(rows, k, b));
            } else {
                assert(k == b);
                assert(beside(rows, k, a));
            }
        }
    }
}

proof fn more_links(rows: Seq<Map<Text, TermView>>, a: Text, b: Text)
    requires
        rows.len() > 0,
        links(rows.drop_last(), a, b),
    ensures
        links(rows, a, b),
{
    let rest = rows.drop_last();
    let i = choose|i: int| 0 <= i < rest.len() && leads(#[trigger] rest[i], a, b);
    assert(leads(rows[i], a, b));
}

proof fn first_has_the_form(terms: Seq<TermView>, k: Text)
    requires
        has_lex(terms, k),
    ensures
        lex_of(first_with(terms, k)) == k,
        terms.contains(first_with(terms, k)),
    decreases terms.len(),
{
    let rest = terms.drop_last();
    if has_lex(rest, k) {
        first_has_the_form(rest, k);
        let j = choose|j: int| 0 <= j < rest.len() && rest[j] == first_with(rest, k);
        assert(terms[j] == first_with(terms, k));
    } else {
        let i = choose|i: int| 0 <= i < terms.len() && lex_of(#[trigger] terms[i]) == k;
        if i < rest.len() {
            assert(lex_of(rest[i]) == k);
        }
        assert(terms[terms.len() - 1] == terms.last());
    }
}

/// A node is one of the terms a path may visit.
proof fn nodes_are_visited(
    subject: TermView,
    object: TermView,
    rows: Seq<Map<Text, TermView>>,
    reflexive: bool,
    k: Text,
)
    ensures
        has_lex(path_terms(subject, object, rows, reflexive), k) == (touched(rows, k) || reflexive
            && is_node(subject, object, rows, k)),
{
    let ts = path_terms(subject, object, rows, reflexive);
    let es = edge_terms(rows);
    let (s, o) = (ground_end(subject), ground_end(object));
    edge_terms_are_touched(rows, k);
    if touched(rows, k) {
        let i = choose|i: int| 0 <= i < es.len() && lex_of(#[trigger] es[i]) == k;
        assert(ts[i] == es[i]);
    }
    if reflexive {
        if !(subject is Var) && lex_of(subject) == k {
            assert(ts[es.len() as int] == subject);
        }
        if !(object is Var) && lex_of(object) == k {
            assert(ts[es.len() as int + s.len() as int] == object);
        }
    }
    if has_lex(ts, k) {
        let i = choose|i: int| 0 <= i < ts.len() && lex_of(#[trigger] ts[i]) == k;
        if i < es.len() {
            assert(lex_of(es[i]) == k);
        } else if i < es.len() + s.len() {
            assert(ts[i] == s[i - es.len()]);
        } else {
            assert(ts[i] == o[i - es.len() - s.len()]);
        }
    }
}

/// A pair whose ends may stand for it has an answer.
proof fn a_pair_is_bound(
    subject: TermView,
    object: TermView,
    terms: Seq<TermView>,
    p: (Text, Text),
)
    requires
        has_lex(terms, p.0),
        has_lex(terms, p.1),
    ensures
        bind_pair(subject, object, terms, p) is Some == may_stand(subject, object, p.0, p.1),
        bind_pair(subject, object, terms, p) matches Some(b) ==> {
            &&& stands_at(subject, b, p.0) && stands_at(object, b, p.1)
            &&& forall|v: Text| #[trigger] b.contains_key(v) <==> subject == TermView::Var(v)
                || object == TermView::Var(v)
            &&& forall|v: Text| #[trigger] b.contains_key(v) ==> terms.contains(b[v])
        },
{
    first_has_the_form(terms, p.0);
    first_has_the_form(terms, p.1);
}

proof fn solution_of_pair(
    subject: TermView,
    object: TermView,
    terms: Seq<TermView>,
    ps: Seq<(Text, Text)>,
    k: int,
)
    requires
        0 <= k < ps.len(),
        bind_pair(subject, object, terms, ps[k]) is Some,
    ensures
        pair_solutions(subject, object, terms, ps).contains(
            bind_pair(subject, object, terms, ps[k])->0,
        ),
    decreases ps.len(),
{
    let b = bind_pair(subject, object, terms, ps[k])->0;
    let rest = ps.drop_last();
    let all = pair_solutions(subject, object, terms, ps);
    let before = pair_solutions(subject, object, terms, rest);
    if k < rest.len() {
        assert(rest[k] == ps[k]);
        solution_of_pair(subject, object, terms, rest, k);
        let i = choose|i: int| 0 <= i < before.len() && before[i] == b;
        assert(all[i] == b);
    } else {
        assert(all[before.len() as int] == b);
    }
}

/// Every answer is that of a pair, and a later one that of a later pair.
proof fn pair_of_solution(
    subject: TermView,
    object: TermView,
    terms: Seq<TermView>,
    ps: Seq<(Text, Text)>,
    i: int,
) -> (k: int)
    requires
        0 <= i < pair_solutions(subject, object, terms, ps).len(),
    ensures
        0 <= k < ps.len(),
        bind_pair(subject, object, terms, ps[k]) == Some(
            pair_solutions(subject, object, terms, ps)[i],
        ),
    decreases ps.len(),
{
    let rest = ps.drop_last();
    let before = pair_solutions(subject, object, terms, rest);
    if i < before.len() {
        let k = pair_of_solution(subject, object, terms, rest, i);
        assert(rest[k] == ps[k]);
        k
    } else {
        ps.len() - 1
    }
}

proof fn later_pair(
    subject: TermView,
    object: TermView,
    terms: Seq<TermView>,
    ps: Seq<(Text, Text)>,
    i: int,
    j: int,
) -> (r: (int, int))
    requires
        0 <= i < j < pair_solutions(subject, object, terms, ps).len(),
    ensures
        0 <= r.0 < r.1 < ps.len(),
        bind_pair(subject, object, terms, ps[r.0]) == Some(
            pair_solutions(subject, object, terms, ps)[i],
        ),
        bind_pair(subject, object, terms, ps[r.1]) == Some(
            pair_solutions(subject, object, terms, ps)[j],
        ),
    decreases ps.len(),
{
    let rest = ps.drop_last();
    let before = pair_solutions(subject, object, terms, rest);
    if j < before.len() {
        let r = later_pair(subject, object, terms, rest, i, j);
        assert(rest[r.0] == ps[r.0] && rest[r.1] == ps[r.1]);
        r
    } else {
        let k = pair_of_solution(subject, object, terms, rest, i);
        assert(rest[k] == ps[k]);
        (k, ps.len() - 1)
    }
}

/// The pairs behind the answers.
spec fn pairs_behind(
    subject: TermView,
    object: TermView,
    rows: Seq<Map<Text, TermView>>,
    reflexive: bool,
    out: Seq<Map<Text, TermView>>,
    ps: Seq<(Text, Text)>,
) -> bool {
    &&& pairs_sorted(ps)
    &&& forall|p: (Text, Text)| #[trigger]
        ps.contains(p) <==> in_path(
            edges_of(rows),
            path_terms(subject, object, rows, reflexive),
            reflexive,
            p,
        )
    &&& out == pair_solutions(
        subject,
        object,
        path_terms(subject, object, rows, reflexive),
        ps,
    )
}

/// The forms of a pair of a path are those of nodes.
proof fn pair_has_nodes(
    subject: TermView,
    object: TermView,
    rows: Seq<Map<Text, TermView>>,
    reflexive: bool,
    p: (Text, Text),
)
    requires
        in_path(edges_of(rows), path_terms(subject, object, rows, reflexive), reflexive, p),
    ensures
        has_lex(path_terms(subject, object, rows, reflexive), p.0),
        has_lex(path_terms(subject, object, rows, reflexive), p.1),
{
    let edges = edges_of(rows);
    if reachable(edges, p.0, p.1) {
        reachable_ends(edges, p.0, p.1);
        let x = choose|x: Text| edges.contains((p.0, x));
        let y = choose|y: Text| edges.contains((y, p.1));
        edge_ends_are_terms(rows, p.0, x);
        edge_ends_are_terms(rows, y, p.1);
        edge_terms_are_touched(rows, p.0);
        edge_terms_are_touched(rows, p.1);
        nodes_are_visited(subject, object, rows, reflexive, p.0);
        nodes_are_visited(subject, object, rows, reflexive, p.1);
    }
}

/// The answers connect two forms just where the path does and the ends may
/// stand for them.
proof fn connected_just_where(
    subject: TermView,
    object: TermView,
    rows: Seq<Map<Text, TermView>>,
    reflexive: bool,
    out: Seq<Map<Text, TermView>>,
    a: Text,
    b: Text,
)
    requires
        path_solutions(subject, object, rows, reflexive, out),
    ensures
        connected(subject, object, out, a, b) <==> may_stand(subject, object, a, b) && (reachable(
            edges_of(rows),
            a,
            b,
        ) || (reflexive && a == b && is_node(subject, object, rows, a))),
{
    let terms = path_terms(subject, object, rows, reflexive);
    let edges = edges_of(rows);
    let ps = choose|ps: Seq<(Text, Text)>| pairs_behind(subject, object, rows, reflexive, out, ps);
    assert(pairs_behind(subject, object, rows, reflexive, out, ps)) by {
        let qs = choose|qs: Seq<(Text, Text)>| #[trigger]
            pairs_sorted(qs) && (forall|p: (Text, Text)| #[trigger]
                qs.contains(p) <==> in_path(edges, terms, reflexive, p)) && out == pair_solutions(
                subject,
                object,
                terms,
                qs,
            );
        assert(pairs_behind(subject, object, rows, reflexive, out, qs));
    }
    nodes_are_visited(subject, object, rows, reflexive, a);
    if connected(subject, object, out, a, b) {
        let i = choose|i: int|
            0 <= i < out.len() && stands_at(subject, #[trigger] out[i], a) && stands_at(
                object,
                out[i],
                b,
            );
        let k = pair_of_solution(subject, object, terms, ps, i);
        assert(ps.contains(ps[k]));
        pair_has_nodes(subject, object, rows, reflexive, ps[k]);
        a_pair_is_bound(subject, object, terms, ps[k]);
        assert(a == ps[k].0 && b == ps[k].1);
        assert(in_path(edges, terms, reflexive, (a, b)));
    }
    if may_stand(subject, object, a, b) && (reachable(edges, a, b) || (reflexive && a == b
        && is_node(subject, object, rows, a))) {
        assert(in_path(edges, terms, reflexive, (a, b)));
        assert(ps.contains((a, b)));
        let k = choose|k: int| 0 <= k < ps.len() && ps[k] == (a, b);
        pair_has_nodes(subject, object, rows, reflexive, (a, b));
        a_pair_is_bound(subject, object, terms, ps[k]);
        solution_of_pair(subject, object, terms, ps, k);
        let sol = bind_pair(subject, object, terms, ps[k])->0;
        let i = choose|i: int| 0 <= i < out.len() && out[i] == sol;
        assert(stands_at(subject, out[i], a) && stands_at(object, out[i], b));
    }
}

// ── Laws ────────────────────────────────────────────────────────────────────

/// An edge is a path: where an edge leads from one form to another and the ends
/// of the query may stand for them, an answer connects them.
pub proof fn an_edge_is_a_path(
    subject: TermView,
    object: TermView,
    rows: Seq<Map<Text, TermView>>,
    reflexive: bool,
    out: Seq<Map<Text, TermView>>,
    a: Text,
    b: Text,
)
    requires
        path_solutions(subject, object, rows, reflexive, out),
        links(rows, a, b),
        may_stand(subject, object, a, b),
    ensures
        connected(subject, object, out, a, b),
{
    connected_just_where(subject, object, rows, reflexive, out, a, b);
    edges_are_links(rows, a, b);
    edge_reaches(edges_of(rows), a, b);
}

/// Paths go on: where the answers between two variables connect one form to a
/// second and an edge leads from there to a third, they connect the first to
/// the third.
pub proof fn a_path_goes_on(
    u: Text,
    v: Text,
    rows: Seq<Map<Text, TermView>>,
    reflexive: bool,
    out: Seq<Map<Text, TermView>>,
    a: Text,
    b: Text,
    c: Text,
)
    requires
        u != v,
        path_solutions(TermView::Var(u), TermView::Var(v), rows, reflexive, out),
        connected(TermView::Var(u), TermView::Var(v), out, a, b),
        links(rows, b, c),
    ensures
        connected(TermView::Var(u), TermView::Var(v), out, a, c),
{
    let (s, o) = (TermView::Var(u), TermView::Var(v));
    connected_just_where(s, o, rows, reflexive, out, a, b);
    connected_just_where(s, o, rows, reflexive, out, a, c);
    edges_are_links(rows, b, c);
    edge_reaches(edges_of(rows), b, c);
    if reachable(edges_of(rows), a, b) {
        reachable_is_transitive(edges_of(rows), a, b, c);
    }
}

/// Paths compose: where the answers between two variables connect one form to a
/// second and that to a third, they connect the first to the third.
pub proof fn paths_compose(
    u: Text,
    v: Text,
    rows: Seq<Map<Text, TermView>>,
    reflexive: bool,
    out: Seq<Map<Text, TermView>>,
    a: Text,
    b: Text,
    c: Text,
)
    requires
        u != v,
        path_solutions(TermView::Var(u), TermView::Var(v), rows, reflexive, out),
        connected(TermView::Var(u), TermView::Var(v), out, a, b),
        connected(TermView::Var(u), TermView::Var(v), out, b, c),
    ensures
        connected(TermView::Var(u), TermView::Var(v), out, a, c),
{
    let (s, o) = (TermView::Var(u), TermView::Var(v));
    connected_just_where(s, o, rows, reflexive, out, a, b);
    connected_just_where(s, o, rows, reflexive, out, b, c);
    connected_just_where(s, o, rows, reflexive, out, a, c);
    if reachable(edges_of(rows), a, b) && reachable(edges_of(rows), b, c) {
        reachable_is_transitive(edges_of(rows), a, b, c);
    }
}

/// A path of no length: under the reflexive closure every end of an edge and
/// every ground end is connected to itself, where the ends of the query may
/// stand for it.
pub proof fn a_node_reaches_itself(
    subject: TermView,
    object: TermView,
    rows: Seq<Map<Text, TermView>>,
    out: Seq<Map<Text, TermView>>,
    k: Text,
)
    requires
        path_solutions(subject, object, rows, true, out),
        is_node(subject, object, rows, k),
        may_stand(subject, object, k, k),
    ensures
        connected(subject, object, out, k, k),
{
    connected_just_where(subject, object, rows, true, out, k, k);
}

/// From a ground start, the reflexive closure has an answer that binds the other
/// end to a term of the start's form, and to the start itself where no end of an
/// edge has that form; so it does to a ground end.
pub proof fn a_start_is_an_answer(
    start: TermView,
    v: Text,
    rows: Seq<Map<Text, TermView>>,
    forth: Seq<Map<Text, TermView>>,
    back: Seq<Map<Text, TermView>>,
)
    requires
        !(start is Var),
        path_solutions(start, TermView::Var(v), rows, true, forth),
        path_solutions(TermView::Var(v), start, rows, true, back),
    ensures
        exists|i: int|
            0 <= i < forth.len() && (#[trigger] forth[i]).contains_key(v) && lex_of(forth[i][v])
                == lex_of(start) && (!touched(rows, lex_of(start)) ==> forth[i][v] == start),
        exists|i: int|
            0 <= i < back.len() && (#[trigger] back[i]).contains_key(v) && lex_of(back[i][v])
                == lex_of(start) && (!touched(rows, lex_of(start)) ==> back[i][v] == start),
{
    let o = TermView::Var(v);
    let k = lex_of(start);
    a_node_reaches_itself(start, o, rows, forth, k);
    a_node_reaches_itself(o, start, rows, back, k);
    let i = choose|i: int|
        0 <= i < forth.len() && stands_at(start, #[trigger] forth[i], k) && stands_at(
            o,
            forth[i],
            k,
        );
    let j = choose|j: int|
        0 <= j < back.len() && stands_at(o, #[trigger] back[j], k) && stands_at(start, back[j], k);
    answers_bind_nodes(start, o, rows, true, forth, i, v);
    answers_bind_nodes(o, start, rows, true, back, j, v);
    edge_terms_are_touched(rows, k);
    if !touched(rows, k) {
        untouched(rows, forth[i][v], k);
        untouched(rows, back[j][v], k);
    }
}

proof fn untouched(rows: Seq<Map<Text, TermView>>, t: TermView, k: Text)
    requires
        !touched(rows, k),
        lex_of(t) == k,
    ensures
        !edge_terms(rows).contains(t),
{
    edge_terms_are_touched(rows, k);
    let ts = edge_terms(rows);
    if ts.contains(t) {
        let i = choose|i: int| 0 <= i < ts.len() && ts[i] == t;
        assert(lex_of(ts[i]) == k);
    }
}

/// Nothing but paths: the answers connect two forms only if every relation does
/// that holds of the edges and goes on along them, or under the reflexive
/// closure if the two are the same node. The ends of the query stand for the
/// forms.
pub proof fn answers_follow_edges(
    subject: TermView,
    object: TermView,
    rows: Seq<Map<Text, TermView>>,
    reflexive: bool,
    out: Seq<Map<Text, TermView>>,
    a: Text,
    b: Text,
    goes: Set<Text>,
)
    requires
        path_solutions(subject, object, rows, reflexive, out),
        connected(subject, object, out, a, b),
        forall|x: Text| #[trigger] links(rows, a, x) ==> goes.contains(x),
        forall|x: Text, y: Text|
            goes.contains(x) && #[trigger] links(rows, x, y) ==> goes.contains(y),
    ensures
        goes.contains(b) || (reflexive && a == b && is_node(subject, object, rows, a)),
        may_stand(subject, object, a, b),
{
    let edges = edges_of(rows);
    connected_just_where(subject, object, rows, reflexive, out, a, b);
    if reachable(edges, a, b) {
        assert forall|x: Text| #[trigger] edges.contains((a, x)) implies goes.contains(x) by {
            edges_are_links(rows, a, x);
        }
        assert forall|x: Text, y: Text|
            goes.contains(x) && #[trigger] edges.contains((x, y)) implies goes.contains(y) by {
            edges_are_links(rows, x, y);
        }
        reachable_is_least(edges, a, goes, b);
    }
}

/// What the reflexive closure adds: it connects two forms just where the other
/// closure does or where the two are one node.
pub proof fn a_star_adds_the_nodes(
    subject: TermView,
    object: TermView,
    rows: Seq<Map<Text, TermView>>,
    plus: Seq<Map<Text, TermView>>,
    star: Seq<Map<Text, TermView>>,
    a: Text,
    b: Text,
)
    requires
        path_solutions(subject, object, rows, false, plus),
        path_solutions(subject, object, rows, true, star),
    ensures
        connected(subject, object, star, a, b) <==> connected(subject, object, plus, a, b) || (a
            == b && is_node(subject, object, rows, a) && may_stand(subject, object, a, a)),
{
    connected_just_where(subject, object, rows, false, plus, a, b);
    connected_just_where(subject, object, rows, true, star, a, b);
}

/// A ground end, or one variable at both ends, selects among the answers between
/// two variables those that it may stand for.
pub proof fn ends_select(
    subject: TermView,
    object: TermView,
    rows: Seq<Map<Text, TermView>>,
    out: Seq<Map<Text, TermView>>,
    u: Text,
    v: Text,
    all: Seq<Map<Text, TermView>>,
    a: Text,
    b: Text,
)
    requires
        u != v,
        path_solutions(subject, object, rows, false, out),
        path_solutions(TermView::Var(u), TermView::Var(v), rows, false, all),
    ensures
        connected(subject, object, out, a, b) <==> connected(
            TermView::Var(u),
            TermView::Var(v),
            all,
            a,
            b,
        ) && may_stand(subject, object, a, b),
{
    connected_just_where(subject, object, rows, false, out, a, b);
    connected_just_where(TermView::Var(u), TermView::Var(v), rows, false, all, a, b);
}

/// Every answer connects two forms, and no other answer connects the same two.
pub proof fn each_pair_is_answered_once(
    subject: TermView,
    object: TermView,
    rows: Seq<Map<Text, TermView>>,
    reflexive: bool,
    out: Seq<Map<Text, TermView>>,
    i: int,
    j: int,
    a: Text,
    b: Text,
)
    requires
        path_solutions(subject, object, rows, reflexive, out),
        0 <= i < out.len(),
        0 <= j < out.len(),
        stands_at(subject, out[i], a) && stands_at(object, out[i], b),
        stands_at(subject, out[j], a) && stands_at(object, out[j], b),
    ensures
        i == j,
{
    let terms = path_terms(subject, object, rows, reflexive);
    let edges = edges_of(rows);
    let ps = choose|ps: Seq<(Text, Text)>| #[trigger]
        pairs_sorted(ps) && (forall|p: (Text, Text)| #[trigger]
            ps.contains(p) <==> in_path(edges, terms, reflexive, p)) && out == pair_solutions(
            subject,
            object,
            terms,
            ps,
        );
    if i != j {
        let r = if i < j {
            later_pair(subject, object, terms, ps, i, j)
        } else {
            later_pair(subject, object, terms, ps, j, i)
        };
        assert(ps.contains(ps[r.0]) && ps.contains(ps[r.1]));
        pair_has_nodes(subject, object, rows, reflexive, ps[r.0]);
        pair_has_nodes(subject, object, rows, reflexive, ps[r.1]);
        a_pair_is_bound(subject, object, terms, ps[r.0]);
        a_pair_is_bound(subject, object, terms, ps[r.1]);
        assert(ps[r.0] == (a, b) && ps[r.1] == (a, b));
        assert(pair_before(ps[r.0], ps[r.1]));
        text_order_laws(a, a, a);
        text_order_laws(b, b, b);
    }
}

/// An answer binds the variables at the ends and no other, each to an end of an
/// edge or to a ground end.
pub proof fn answers_bind_nodes(
    subject: TermView,
    object: TermView,
    rows: Seq<Map<Text, TermView>>,
    reflexive: bool,
    out: Seq<Map<Text, TermView>>,
    i: int,
    v: Text,
)
    requires
        path_solutions(subject, object, rows, reflexive, out),
        0 <= i < out.len(),
    ensures
        out[i].contains_key(v) <==> subject == TermView::Var(v) || object == TermView::Var(v),
        out[i].contains_key(v) ==> edge_terms(rows).contains(out[i][v]) || (reflexive && !(
        out[i][v] is Var) && (out[i][v] == subject || out[i][v] == object)),
{
    let terms = path_terms(subject, object, rows, reflexive);
    let edges = edges_of(rows);
    let ps = choose|ps: Seq<(Text, Text)>| #[trigger]
        pairs_sorted(ps) && (forall|p: (Text, Text)| #[trigger]
            ps.contains(p) <==> in_path(edges, terms, reflexive, p)) && out == pair_solutions(
            subject,
            object,
            terms,
            ps,
        );
    let k = pair_of_solution(subject, object, terms, ps, i);
    assert(ps.contains(ps[k]));
    pair_has_nodes(subject, object, rows, reflexive, ps[k]);
    a_pair_is_bound(subject, object, terms, ps[k]);
    if out[i].contains_key(v) {
        let t = out[i][v];
        let es = edge_terms(rows);
        let s = ground_end(subject);
        assert(terms.contains(t));
        let c = choose|c: int| 0 <= c < terms.len() && terms[c] == t;
        if c < es.len() {
            assert(es[c] == t);
        } else if c < es.len() + s.len() {
            assert(terms[c] == s[c - es.len()]);
        } else {
            assert(terms[c] == ground_end(object)[c - es.len() - s.len()]);
        }
    }
}

}
