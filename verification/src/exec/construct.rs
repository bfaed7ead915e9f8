//! The triples that a `CONSTRUCT` or a `DESCRIBE` query answers with.

use crate::algebra::{
    patterns_view, terms_view, PatternView, Term, TermView, TriplePattern, Var,
};
use crate::error::{ErrorView, SparqlError};
use crate::exec::batch::{solution, Batch, BatchView, Dict};
use crate::exec::bindings::{bindings_view, bound_to, lookup, Bindings};
use crate::exec::decode::decode_row;
use crate::exec::executor::Executor;
use crate::exec::literal::opt_text;
use crate::exec::scope::{resolved, ScanScope, ScopeView};
use crate::text::{compare_text, text_order, text_order_laws, Order, Text};
use vstd::prelude::*;
use vstd::string::*;

verus! {

/// A subject, predicate and object as text.
pub type TextTriple = (String, String, String);

pub open spec fn triple_view(t: TextTriple) -> (Text, Text, Text) {
    (t.0@, t.1@, t.2@)
}

pub open spec fn triples_view(s: Seq<TextTriple>) -> Seq<(Text, Text, Text)> {
    Seq::new(s.len(), |i: int| triple_view(s[i]))
}

/// The text of an IRI, a literal or a blank node.
pub open spec fn plain_text(t: TermView) -> Option<Text> {
    match t {
        TermView::Iri(s) => Some(s),
        TermView::Literal(s) => Some(s),
        TermView::BlankNode(s) => Some(s),
        TermView::Var(_) => None,
        TermView::Triple(_) => None,
    }
}

fn text_of_term(t: &Term) -> (r: Option<String>)
    ensures
        opt_text(r) == plain_text(t@),
{
    match t {
        Term::Iri(s) => Some(s.clone()),
        Term::Literal(s) => Some(s.clone()),
        Term::BlankNode(s) => Some(s.clone()),
        Term::Var(_) => None,
        Term::Triple(_) => None,
    }
}

// ── Construct ───────────────────────────────────────────────────────────────

/// The text of a template's subject or object under a solution. A variable
/// that is not bound has none, nor has a triple term.
pub open spec fn filled_text(t: TermView, row: Map<Text, TermView>) -> Option<Text> {
    match t {
        TermView::Var(v) => match bound_to(row, v) {
            Some(b) => plain_text(b),
            None => None,
        },
        _ => plain_text(t),
    }
}

/// The text of a template's predicate under a solution: it must be an IRI.
pub open spec fn filled_pred_text(t: TermView, row: Map<Text, TermView>) -> Option<Text> {
    match t {
        TermView::Iri(s) => Some(s),
        TermView::Var(v) => match bound_to(row, v) {
            Some(TermView::Iri(s)) => Some(s),
            _ => None,
        },
        _ => None,
    }
}

/// The triple of a template under a solution.
pub open spec fn filled_triple(p: PatternView, row: Map<Text, TermView>) -> Option<
    (Text, Text, Text),
> {
    match (
        filled_text(p.subject, row),
        filled_pred_text(p.predicate, row),
        filled_text(p.object, row),
    ) {
        (Some(s), Some(p), Some(o)) => Some((s, p, o)),
        _ => None,
    }
}

/// The triples of templates under a solution.
pub open spec fn row_triples(ps: Seq<PatternView>, row: Map<Text, TermView>) -> Seq<
    (Text, Text, Text),
>
    decreases ps.len(),
{
    if ps.len() == 0 {
        Seq::empty()
    } else {
        let before = row_triples(ps.drop_last(), row);
        match filled_triple(ps.last(), row) {
            Some(t) => before.push(t),
            None => before,
        }
    }
}

/// The triples of templates under solutions, in the order of the solutions.
pub open spec fn constructed(ps: Seq<PatternView>, rows: Seq<Map<Text, TermView>>) -> Seq<
    (Text, Text, Text),
>
    decreases rows.len(),
{
    if rows.len() == 0 {
        Seq::empty()
    } else {
        constructed(ps, rows.drop_last()) + row_triples(ps, rows.last())
    }
}

fn resolve_term(t: &Term, row: &Bindings) -> (r: Option<String>)
    ensures
        opt_text(r) == filled_text(t@, row@),
{
    match t {
        Term::Var(v) => match lookup(row, v.name()) {
            Some(b) => text_of_term(&b),
            None => None,
        },
        _ => text_of_term(t),
    }
}

fn resolve_pred(t: &Term, row: &Bindings) -> (r: Option<String>)
    ensures
        opt_text(r) == filled_pred_text(t@, row@),
{
    match t {
        Term::Iri(s) => Some(s.clone()),
        Term::Var(v) => match lookup(row, v.name()) {
            Some(Term::Iri(s)) => Some(s),
            _ => None,
        },
        _ => None,
    }
}

/// The triples a `CONSTRUCT` query answers with. Without a template the query
/// is of another form.
pub fn construct_triples(template: &Option<Vec<TriplePattern>>, rows: &Vec<Bindings>) -> (r: Result<
    Vec<TextTriple>,
    SparqlError,
>)
    ensures
        match *template {
            Some(ps) => r is Ok && triples_view(r->Ok_0@) == constructed(
                patterns_view(ps@),
                bindings_view(rows@),
            ),
            None => r is Err && r->Err_0@ == ErrorView::Executor(
                "construct_triples called on non-CONSTRUCT query"@,
            ),
        },
{
    let ps = match template {
        Some(ps) => ps,
        None => {
            return Err(
                SparqlError::Executor("construct_triples called on non-CONSTRUCT query".to_owned()),
            );
        },
    };
    let ghost pv = patterns_view(ps@);
    let ghost rv = bindings_view(rows@);
    let mut out: Vec<TextTriple> = Vec::new();
    let mut i: usize = 0;
    assert(rv.take(0) =~= Seq::empty());
    assert(triples_view(out@) =~= constructed(pv, rv.take(0)));
    while i < rows.len()
        invariant
            i <= rows@.len(),
            pv == patterns_view(ps@),
            rv == bindings_view(rows@),
            triples_view(out@) == constructed(pv, rv.take(i as int)),
        decreases rows@.len() - i,
    {
        proof {
            assert(rv.take(i + 1).drop_last() =~= rv.take(i as int));
            assert(rv.take(i + 1).last() == rows@[i as int]@);
        }
        add_row_triples(ps, &rows[i], &mut out);
        i = i + 1;
    }
    assert(rv.take(rv.len() as int) =~= rv);
    Ok(out)
}

fn add_row_triples(ps: &Vec<TriplePattern>, row: &Bindings, out: &mut Vec<TextTriple>)
    ensures
        triples_view(final(out)@) == triples_view(old(out)@) + row_triples(
            patterns_view(ps@),
            row@,
        ),
{
    let ghost pv = patterns_view(ps@);
    let ghost start = triples_view(out@);
    let mut k: usize = 0;
    assert(pv.take(0) =~= Seq::empty());
    assert(triples_view(out@) =~= start + row_triples(pv.take(0), row@));
    while k < ps.len()
        invariant
            k <= ps@.len(),
            pv == patterns_view(ps@),
            triples_view(out@) == start + row_triples(pv.take(k as int), row@),
        decreases ps@.len() - k,
    {
        proof {
            assert(pv.take(k + 1).drop_last() =~= pv.take(k as int));
            assert(pv.take(k + 1).last() == ps@[k as int]@);
        }
        let s = resolve_term(&ps[k].subject, row);
        let p = resolve_pred(&ps[k].predicate, row);
        let o = resolve_term(&ps[k].object, row);
        if let (Some(s), Some(p), Some(o)) = (s, p, o) {
            let ghost before = triples_view(out@);
            let t = (s, p, o);
            let ghost tv = triple_view(t);
            out.push(t);
            assert(triples_view(out@) =~= before.push(tv));
            assert(triples_view(out@) =~= start + row_triples(pv.take(k + 1), row@));
        }
        k = k + 1;
    }
    assert(pv.take(pv.len() as int) =~= pv);
}

// ── Describe ────────────────────────────────────────────────────────────────

/// Is a term among the bindings of a solution?
pub open spec fn binds(row: Map<Text, TermView>, t: TermView) -> bool {
    exists|v: Text| #[trigger] row.contains_key(v) && row[v] == t
}

/// Is a term bound in one of the solutions?
pub open spec fn some_binds(rows: Seq<Map<Text, TermView>>, t: TermView) -> bool {
    exists|i: int| 0 <= i < rows.len() && binds(#[trigger] rows[i], t)
}

/// Is a term one to describe? Those named by the query are, and those that the
/// solutions bind.
pub open spec fn is_resource(
    seeds: Seq<TermView>,
    rows: Seq<Map<Text, TermView>>,
    t: TermView,
) -> bool {
    plain_text(t) is Some && (seeds.contains(t) || some_binds(rows, t))
}

/// The pattern whose solutions describe a resource.
pub open spec fn about(t: TermView) -> PatternView {
    PatternView { subject: t, predicate: TermView::Var("p"@), object: TermView::Var("o"@) }
}

/// The triple of a solution that describes a resource.
pub open spec fn described_by(resource: TermView, row: Map<Text, TermView>) -> Option<
    (Text, Text, Text),
> {
    match (
        plain_text(resource),
        filled_text(TermView::Var("p"@), row),
        filled_text(TermView::Var("o"@), row),
    ) {
        (Some(s), Some(p), Some(o)) => Some((s, p, o)),
        _ => None,
    }
}

/// Is a triple among those of a scan?
pub open spec fn in_scan(d: Dict, resource: TermView, b: BatchView, t: (Text, Text, Text)) -> bool {
    exists|i: int|
        0 <= i < b.rows.len() && described_by(
            resource,
            solution(d, b.schema, #[trigger] b.rows[i]),
        ) == Some(t)
}

/// Is a triple among those of the scans of all resources?
pub open spec fn in_scans(
    d: Dict,
    resources: Seq<TermView>,
    scans: Seq<BatchView>,
    t: (Text, Text, Text),
) -> bool {
    exists|k: int|
        0 <= k < resources.len() && in_scan(d, #[trigger] resources[k], scans[k], t)
}

/// Are these the resources to describe, each once?
pub open spec fn lists_resources(
    seeds: Seq<TermView>,
    rows: Seq<Map<Text, TermView>>,
    resources: Seq<TermView>,
) -> bool {
    resources.no_duplicates() && forall|t: TermView| #[trigger]
        resources.contains(t) <==> is_resource(seeds, rows, t)
}

/// Are these scans of the resources?
pub open spec fn are_scans<E: Executor>(
    exec: &E,
    scope: ScopeView,
    resources: Seq<TermView>,
    scans: Seq<BatchView>,
) -> bool {
    scans.len() == resources.len() && forall|k: int|
        0 <= k < resources.len() ==> (#[trigger] scans[k]).wf() && exec.scans(
            seq![about(resources[k])],
            scope,
            scans[k],
        )
}

/// The order of triples: by subject, then predicate, then object.
pub open spec fn triple_order(a: (Text, Text, Text), b: (Text, Text, Text)) -> Order {
    match text_order(a.0, b.0) {
        Order::Equal => match text_order(a.1, b.1) {
            Order::Equal => text_order(a.2, b.2),
            o => o,
        },
        o => o,
    }
}

/// Are triples in order, each once?
pub open spec fn strictly_sorted(s: Seq<(Text, Text, Text)>) -> bool {
    forall|i: int, j: int| 0 <= i < j < s.len() ==> triple_order(s[i], s[j]) == Order::Less
}

/// Are these the triples of the scans of some resources, in order?
pub open spec fn describes<E: Executor>(
    exec: &E,
    scope: ScopeView,
    seeds: Seq<TermView>,
    rows: Seq<Map<Text, TermView>>,
    out: Seq<(Text, Text, Text)>,
) -> bool {
    strictly_sorted(out) && exists|resources: Seq<TermView>, scans: Seq<BatchView>|
        #![trigger are_scans(exec, scope, resources, scans)]
        lists_resources(seeds, rows, resources) && are_scans(exec, scope, resources, scans)
            && (forall|t: (Text, Text, Text)| #[trigger]
            out.contains(t) <==> in_scans(exec.dict(), resources, scans, t))
}

fn compare_triples(a: &TextTriple, b: &TextTriple) -> (r: Order)
    ensures
        r == triple_order(triple_view(*a), triple_view(*b)),
{
    match compare_text(a.0.as_str(), b.0.as_str()) {
        Order::Equal => match compare_text(a.1.as_str(), b.1.as_str()) {
            Order::Equal => compare_text(a.2.as_str(), b.2.as_str()),
            o => o,
        },
        o => o,
    }
}

proof fn triple_order_laws(a: (Text, Text, Text), b: (Text, Text, Text), c: (Text, Text, Text))
    ensures
        triple_order(a, b) == Order::Equal <==> a == b,
        triple_order(b, a) == triple_order(a, b).flipped(),
        triple_order(a, b) == Order::Less && triple_order(b, c) == Order::Less ==> triple_order(
            a,
            c,
        ) == Order::Less,
{
    text_order_laws(a.0, b.0, c.0);
    text_order_laws(a.1, b.1, c.1);
    text_order_laws(a.2, b.2, c.2);
    text_order_laws(b.0, c.0, a.0);
    text_order_laws(b.1, c.1, a.1);
    text_order_laws(b.2, c.2, a.2);
}

/// Puts a triple in its place, unless it is there.
fn insert_triple(out: &mut Vec<TextTriple>, t: TextTriple)
    requires
        strictly_sorted(triples_view(old(out)@)),
    ensures
        strictly_sorted(triples_view(final(out)@)),
        forall|x: (Text, Text, Text)| #[trigger]
            triples_view(final(out)@).contains(x) <==> triples_view(old(out)@).contains(x) || x
                == triple_view(t),
{
    let ghost before = triples_view(out@);
    let ghost tv = triple_view(t);
    let mut i: usize = 0;
    while i < out.len()
        invariant_except_break
            forall|k: int| 0 <= k < i ==> triple_order(#[trigger] before[k], tv) == Order::Less,
        invariant
            i <= out@.len(),
            before == triples_view(out@),
            *out == *old(out),
            strictly_sorted(before),
            tv == triple_view(t),
        ensures
            forall|k: int| 0 <= k < i ==> triple_order(#[trigger] before[k], tv) == Order::Less,
            i < before.len() ==> triple_order(before[i as int], tv) == Order::Greater,
        decreases out@.len() - i,
    {
        assert(before[i as int] == triple_view(out@[i as int]));
        match compare_triples(&out[i], &t) {
            Order::Less => {
                i = i + 1;
            },
            Order::Equal => {
                proof {
                    triple_order_laws(before[i as int], tv, tv);
                    assert(before.contains(tv));
                }
                return;
            },
            Order::Greater => {
                break;
            },
        }
    }
    out.insert(i, t);
    let ghost after = triples_view(out@);
    proof {
        assert(after =~= before.insert(i as int, tv));
        assert forall|a: int, b: int| 0 <= a < b < after.len() implies triple_order(
            after[a],
            after[b],
        ) == Order::Less by {
            if b < i {
                assert(after[a] == before[a] && after[b] == before[b]);
            } else if b == i {
                assert(after[a] == before[a]);
            } else if a < i {
                assert(after[a] == before[a] && after[b] == before[b - 1]);
            } else if a > i {
                assert(after[a] == before[a - 1] && after[b] == before[b - 1]);
            } else {
                assert(after[b] == before[b - 1]);
                triple_order_laws(before[i as int], tv, tv);
                if b - 1 > i {
                    triple_order_laws(tv, before[i as int], before[b - 1]);
                }
            }
        }
        assert forall|x: (Text, Text, Text)| #[trigger]
            after.contains(x) <==> before.contains(x) || x == tv by {
            if after.contains(x) {
                let k = choose|k: int| 0 <= k < after.len() && after[k] == x;
                if k < i {
                    assert(before[k] == x);
                } else if k > i {
                    assert(before[k - 1] == x);
                }
            }
            if before.contains(x) {
                let k = choose|k: int| 0 <= k < before.len() && before[k] == x;
                if k < i {
                    assert(after[k] == x);
                } else {
                    assert(after[k + 1] == x);
                }
            }
            assert(after[i as int] == tv);
        }
    }
}

/// Lists a term, unless it is listed or has no text.
fn add_resource(out: &mut Vec<Term>, t: &Term)
    requires
        terms_view(old(out)@).no_duplicates(),
    ensures
        terms_view(final(out)@).no_duplicates(),
        forall|x: TermView| #[trigger]
            terms_view(final(out)@).contains(x) <==> terms_view(old(out)@).contains(x) || (x == t@
                && plain_text(x) is Some),
{
    let ghost before = terms_view(out@);
    if text_of_term(t).is_none() {
        return;
    }
    let mut i: usize = 0;
    while i < out.len()
        invariant
            i <= out@.len(),
            before == terms_view(out@),
            *out == *old(out),
            before.no_duplicates(),
            forall|k: int| 0 <= k < i ==> #[trigger] before[k] != t@,
        decreases out@.len() - i,
    {
        assert(before[i as int] == out@[i as int]@);
        if out[i].same(t) {
            assert(before.contains(t@));
            return;
        }
        i = i + 1;
    }
    out.push(t.clone());
    let ghost after = terms_view(out@);
    proof {
        assert(after =~= before.push(t@));
        assert forall|x: TermView| #[trigger] after.contains(x) <==> before.contains(x) || x
            == t@ by {
            if after.contains(x) {
                let k = choose|k: int| 0 <= k < after.len() && after[k] == x;
                if k < before.len() {
                    assert(before[k] == x);
                }
            }
            if before.contains(x) {
                let k = choose|k: int| 0 <= k < before.len() && before[k] == x;
                assert(after[k] == x);
            }
            assert(after[before.len() as int] == t@);
        }
    }
}

/// The resources to describe.
pub fn resources_of(seeds: &Vec<Term>, rows: &Vec<Bindings>) -> (out: Vec<Term>)
    ensures
        lists_resources(terms_view(seeds@), bindings_view(rows@), terms_view(out@)),
{
    let ghost sv = terms_view(seeds@);
    let ghost rv = bindings_view(rows@);
    let mut out: Vec<Term> = Vec::new();
    let mut i: usize = 0;
    while i < seeds.len()
        invariant
            i <= seeds@.len(),
            sv == terms_view(seeds@),
            terms_view(out@).no_duplicates(),
            forall|x: TermView| #[trigger]
                terms_view(out@).contains(x) <==> sv.take(i as int).contains(x) && plain_text(
                    x,
                ) is Some,
        decreases seeds@.len() - i,
    {
        let ghost before = terms_view(out@);
        add_resource(&mut out, &seeds[i]);
        proof {
            let some = sv.take(i as int);
            let more = sv.take(i + 1);
            assert(more =~= some.push(seeds@[i as int]@));
            assert forall|x: TermView| #[trigger]
                terms_view(out@).contains(x) <==> more.contains(x) && plain_text(x) is Some by {
                assert(before.contains(x) <==> some.contains(x) && plain_text(x) is Some);
                if more.contains(x) {
                    let k = choose|k: int| 0 <= k < more.len() && more[k] == x;
                    if k < some.len() {
                        assert(some[k] == x);
                    }
                }
                if some.contains(x) {
                    let k = choose|k: int| 0 <= k < some.len() && some[k] == x;
                    assert(more[k] == x);
                }
                assert(more[some.len() as int] == seeds@[i as int]@);
            }
        }
        i = i + 1;
    }
    assert(sv.take(sv.len() as int) =~= sv);
    assert(forall|x: TermView| !some_binds(rv.take(0), x));
    let mut r: usize = 0;
    while r < rows.len()
        invariant
            r <= rows@.len(),
            rv == bindings_view(rows@),
            terms_view(out@).no_duplicates(),
            forall|x: TermView| #[trigger]
                terms_view(out@).contains(x) <==> is_resource(sv, rv.take(r as int), x),
        decreases rows@.len() - r,
    {
        let ghost before = terms_view(out@);
        add_bound(&mut out, &rows[r]);
        proof {
            let some = rv.take(r as int);
            let more = rv.take(r + 1);
            assert(rv[r as int] == rows@[r as int]@);
            assert forall|x: TermView| #[trigger]
                terms_view(out@).contains(x) <==> is_resource(sv, more, x) by {
                assert(before.contains(x) <==> is_resource(sv, some, x));
                if some_binds(more, x) {
                    let k = choose|k: int| 0 <= k < more.len() && binds(#[trigger] more[k], x);
                    if k < some.len() {
                        assert(some[k] == more[k]);
                    }
                }
                if some_binds(some, x) {
                    let k = choose|k: int| 0 <= k < some.len() && binds(#[trigger] some[k], x);
                    assert(more[k] == some[k]);
                }
                assert(more[r as int] == rows@[r as int]@);
            }
        }
        r = r + 1;
    }
    assert(rv.take(rv.len() as int) =~= rv);
    out
}

fn add_bound(out: &mut Vec<Term>, row: &Bindings)
    requires
        terms_view(old(out)@).no_duplicates(),
    ensures
        terms_view(final(out)@).no_duplicates(),
        forall|x: TermView| #[trigger]
            terms_view(final(out)@).contains(x) <==> terms_view(old(out)@).contains(x) || (binds(
                row@,
                x,
            ) && plain_text(x) is Some),
{
    let ghost start = terms_view(out@);
    let all = row.vars();
    let mut i: usize = 0;
    while i < all.len()
        invariant
            i <= all@.len(),
            forall|k: int|
                0 <= k < all@.len() ==> row@.contains_key((#[trigger] all@[k]).0@) && all@[k].1@
                    == row@[all@[k].0@],
            terms_view(out@).no_duplicates(),
            forall|x: TermView| #[trigger]
                terms_view(out@).contains(x) <==> start.contains(x) || (among(all@, i as int, x)
                    && plain_text(x) is Some),
        decreases all@.len() - i,
    {
        let ghost before = terms_view(out@);
        add_resource(out, all[i].1);
        proof {
            assert forall|x: TermView| #[trigger]
                terms_view(out@).contains(x) <==> start.contains(x) || (among(all@, i + 1, x)
                    && plain_text(x) is Some) by {
                assert(before.contains(x) <==> start.contains(x) || (among(all@, i as int, x)
                    && plain_text(x) is Some));
                if among(all@, i as int, x) {
                    let k = choose|k: int| 0 <= k < i && (#[trigger] all@[k]).1@ == x;
                    assert(all@[k].1@ == x);
                }
                if among(all@, i + 1, x) {
                    let k = choose|k: int| 0 <= k < i + 1 && (#[trigger] all@[k]).1@ == x;
                    if k < i {
                        assert(among(all@, i as int, x));
                    }
                }
                assert(all@[i as int].1@ == all@[i as int].1@);
            }
        }
        i = i + 1;
    }
    proof {
        assert forall|x: TermView| among(all@, all@.len() as int, x) == #[trigger] binds(row@, x) by {
            if among(all@, all@.len() as int, x) {
                let k = choose|k: int| 0 <= k < all@.len() && (#[trigger] all@[k]).1@ == x;
                assert(row@.contains_key(all@[k].0@));
            }
            if binds(row@, x) {
                let v = choose|v: Text| #[trigger] row@.contains_key(v) && row@[v] == x;
                let k = choose|k: int| 0 <= k < all@.len() && (#[trigger] all@[k]).0@ == v;
                assert(all@[k].1@ == x);
            }
        }
    }
}

/// Is a term among the first of a list of bindings?
spec fn among(s: Seq<(&String, &Term)>, n: int, x: TermView) -> bool {
    exists|k: int| 0 <= k < n && (#[trigger] s[k]).1@ == x
}

/// The triples a `DESCRIBE` query answers with: for each resource those with
/// it as subject.
pub fn describe_triples<E: Executor>(
    exec: &E,
    scope: &ScanScope<'_>,
    seeds: &Vec<Term>,
    rows: &Vec<Bindings>,
) -> (r: Result<Vec<TextTriple>, SparqlError>)
    ensures
        r matches Ok(out) ==> describes(
            exec,
            scope@,
            terms_view(seeds@),
            bindings_view(rows@),
            triples_view(out@),
        ),
        exec.reliable() && !(resolved(scope@) is UnboundGraphVar) ==> r is Ok,
{
    let resources = resources_of(seeds, rows);
    let ghost tv = terms_view(resources@);
    let ghost mut scans: Seq<BatchView> = Seq::empty();
    let mut out: Vec<TextTriple> = Vec::new();
    let mut k: usize = 0;
    while k < resources.len()
        invariant
            k <= resources@.len(),
            tv == terms_view(resources@),
            are_scans(exec, scope@, tv.take(k as int), scans),
            strictly_sorted(triples_view(out@)),
            forall|t: (Text, Text, Text)| #[trigger]
                triples_view(out@).contains(t) <==> in_scans(
                    exec.dict(),
                    tv.take(k as int),
                    scans,
                    t,
                ),
        decreases resources@.len() - k,
    {
        let resource = &resources[k];
        let mut patterns: Vec<TriplePattern> = Vec::new();
        patterns.push(
            TriplePattern {
                subject: resource.clone(),
                predicate: Term::Var(Var::new("p")),
                object: Term::Var(Var::new("o")),
            },
        );
        assert(patterns_view(patterns@) =~= seq![about(resource@)]);
        let b = match exec.scan_bgp_ids(&patterns, scope) {
            Ok(b) => b,
            Err(e) => {
                return Err(e);
            },
        };
        let ghost before = triples_view(out@);
        if let Err(e) = add_scan(exec, resource, &b, &mut out) {
            return Err(e);
        }
        proof {
            let some = tv.take(k as int);
            let more = tv.take(k + 1);
            let next = scans.push(b@);
            assert(more =~= some.push(resource@));
            assert forall|i: int| 0 <= i < more.len() implies (#[trigger] next[i]).wf()
                && exec.scans(seq![about(more[i])], scope@, next[i]) by {
                if i < some.len() {
                    assert(next[i] == scans[i] && more[i] == some[i]);
                }
            }
            assert forall|t: (Text, Text, Text)| #[trigger]
                triples_view(out@).contains(t) <==> in_scans(exec.dict(), more, next, t) by {
                assert(before.contains(t) <==> in_scans(exec.dict(), some, scans, t));
                if in_scans(exec.dict(), some, scans, t) {
                    let i = choose|i: int|
                        0 <= i < some.len() && in_scan(
                            exec.dict(),
                            #[trigger] some[i],
                            scans[i],
                            t,
                        );
                    assert(more[i] == some[i] && next[i] == scans[i]);
                }
                if in_scans(exec.dict(), more, next, t) {
                    let i = choose|i: int|
                        0 <= i < more.len() && in_scan(
                            exec.dict(),
                            #[trigger] more[i],
                            next[i],
                            t,
                        );
                    if i < some.len() {
                        assert(more[i] == some[i] && next[i] == scans[i]);
                    }
                }
                assert(more[k as int] == resource@ && next[k as int] == b@);
            }
            scans = next;
        }
        k = k + 1;
    }
    proof {
        assert(tv.take(tv.len() as int) =~= tv);
        assert(are_scans(exec, scope@, tv, scans));
    }
    Ok(out)
}

/// Puts the triples of a scan in their places.
fn add_scan<E: Executor>(exec: &E, resource: &Term, b: &Batch, out: &mut Vec<TextTriple>) -> (r: Result<
    (),
    SparqlError,
>)
    requires
        b@.wf(),
        strictly_sorted(triples_view(old(out)@)),
    ensures
        r is Ok ==> strictly_sorted(triples_view(final(out)@)) && forall|t: (Text, Text, Text)|
            #[trigger]
            triples_view(final(out)@).contains(t) <==> triples_view(old(out)@).contains(t)
                || in_scan(exec.dict(), resource@, b@, t),
        exec.reliable() ==> r is Ok,
{
    let ghost start = triples_view(out@);
    let ghost d = exec.dict();
    let mut i: usize = 0;
    while i < b.rows.len()
        invariant
            i <= b.rows@.len(),
            b@.wf(),
            d == exec.dict(),
            strictly_sorted(triples_view(out@)),
            forall|t: (Text, Text, Text)| #[trigger]
                triples_view(out@).contains(t) <==> start.contains(t) || in_rows(
                    d,
                    resource@,
                    b@,
                    i as int,
                    t,
                ),
        decreases b.rows@.len() - i,
    {
        assert(b@.rows[i as int] == b.rows@[i as int]@);
        let row = match decode_row(exec, &b.rows[i], &b.schema) {
            Ok(row) => row,
            Err(e) => {
                return Err(e);
            },
        };
        let ghost before = triples_view(out@);
        let s = text_of_term(resource);
        let p = resolve_term(&Term::Var(Var::new("p")), &row);
        let o = resolve_term(&Term::Var(Var::new("o")), &row);
        let ghost one = described_by(resource@, row@);
        if let (Some(s), Some(p), Some(o)) = (s, p, o) {
            insert_triple(out, (s, p, o));
        }
        proof {
            assert forall|t: (Text, Text, Text)| #[trigger]
                triples_view(out@).contains(t) <==> start.contains(t) || in_rows(
                    d,
                    resource@,
                    b@,
                    i + 1,
                    t,
                ) by {
                assert(before.contains(t) <==> start.contains(t) || in_rows(
                    d,
                    resource@,
                    b@,
                    i as int,
                    t,
                ));
                assert(triples_view(out@).contains(t) <==> before.contains(t) || one == Some(t));
                if in_rows(d, resource@, b@, i as int, t) {
                    let k = choose|k: int|
                        0 <= k < i && described_by(
                            resource@,
                            solution(d, b@.schema, #[trigger] b@.rows[k]),
                        ) == Some(t);
                    assert(0 <= k < i + 1);
                }
                if in_rows(d, resource@, b@, i + 1, t) {
                    let k = choose|k: int|
                        0 <= k < i + 1 && described_by(
                            resource@,
                            solution(d, b@.schema, #[trigger] b@.rows[k]),
                        ) == Some(t);
                    if k < i {
                        assert(in_rows(d, resource@, b@, i as int, t));
                    }
                }
            }
        }
        i = i + 1;
    }
    proof {
        assert forall|t: (Text, Text, Text)| in_rows(d, resource@, b@, b@.rows.len() as int, t)
            == #[trigger] in_scan(d, resource@, b@, t) by {}
    }
    Ok(())
}

/// Is a triple among those of the first rows of a scan?
spec fn in_rows(d: Dict, resource: TermView, b: BatchView, n: int, t: (Text, Text, Text)) -> bool {
    exists|i: int|
        0 <= i < n && described_by(resource, solution(d, b.schema, #[trigger] b.rows[i])) == Some(t)
}

}
