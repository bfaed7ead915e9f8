//! A store that keeps its quads in memory.
//!
//! Terms are interned: a quad holds positions in a list of distinct terms, and
//! a scan binds variables to those positions.

use crate::algebra::{
    patterns_view, terms_view, texts, DatasetSpec, DatasetView, PatternView, Term, TermView,
    TriplePattern,
};
use crate::error::SparqlError;
use crate::exec::batch::{slot_term, Batch, BatchView, Dict, Slot, SlotView};
use crate::exec::bgp::{solutions, solutions_bind_the_variables, solve, within, Ids};
use crate::exec::executor::{bound_to_their_names, Executor};
use crate::exec::literal::numeric_value;
use crate::exec::number::{Numbers, WholeNumbers};
use crate::exec::scope::{
    graph_var_needs_a_per_graph_node, graphs_view, is_reserved_graph, listed, reserved, resolved,
    NamedGraph, NamedGraphView, ResolvedScope, ResolvedView, ScanScope, ScopeView,
};
use crate::exec::store::{
    graph_part, graph_view, holds_graph, in_graph, quad_set, quad_view, quads_view, same_graph,
    triple_set, AlgebraQuad, AlgebraTriple, FullBackend, GraphName, QuadView, Store,
};
use crate::text::{same_text, Text};
use std::marker::PhantomData;
use vstd::prelude::*;
use vstd::string::*;

verus! {

/// A quad by the positions of its terms.
struct StoredQuad {
    graph: GraphName,
    ids: Ids,
}

#[verifier::ext_equal]
pub struct StoredView {
    pub graph: Option<Text>,
    pub ids: Ids,
}

/// A store of quads in memory.
pub struct MemStore<N: Numbers = WholeNumbers> {
    terms: Vec<Term>,
    quads: Vec<StoredQuad>,
    numbers: PhantomData<N>,
}

impl StoredQuad {
    spec fn view(&self) -> StoredView {
        StoredView { graph: graph_view(self.graph), ids: self.ids }
    }
}

spec fn stored_view(s: Seq<StoredQuad>) -> Seq<StoredView> {
    Seq::new(s.len(), |i: int| s[i]@)
}

/// Do the positions of all quads lie within the terms?
pub open spec fn all_within(terms: Seq<TermView>, stored: Seq<StoredView>) -> bool {
    forall|i: int| 0 <= i < stored.len() ==> within(terms, (#[trigger] stored[i]).ids)
}

/// The quad at a position.
pub open spec fn quad_at(terms: Seq<TermView>, s: StoredView) -> QuadView {
    QuadView {
        graph: s.graph,
        subject: terms[s.ids.0 as int],
        predicate: terms[s.ids.1 as int],
        object: terms[s.ids.2 as int],
    }
}

/// The set of the quads of a store.
pub open spec fn quads_of(terms: Seq<TermView>, stored: Seq<StoredView>) -> Set<QuadView> {
    Seq::new(stored.len(), |i: int| quad_at(terms, stored[i])).to_set()
}

/// Is a graph among those to read?
pub open spec fn visible(scope: ResolvedView, g: Option<Text>) -> bool {
    match scope {
        ResolvedView::DefaultUnion => match g {
            None => true,
            Some(iri) => !reserved(iri),
        },
        ResolvedView::DefaultStrict => g is None,
        ResolvedView::Union(list) => match g {
            None => false,
            Some(iri) => list.contains(iri),
        },
        ResolvedView::OneGraph(iri) => g == Some(iri),
        ResolvedView::UnboundGraphVar(_) => false,
    }
}

/// The triples of the graphs to read, as one set.
pub open spec fn triples_in(stored: Seq<StoredView>, scope: ResolvedView) -> Set<Ids> {
    Set::new(
        |t: Ids|
            exists|i: int|
                0 <= i < stored.len() && (#[trigger] stored[i]).ids == t && visible(
                    scope,
                    stored[i].graph,
                ),
    )
}

/// Is a pattern's term a variable, or the term at a position?
pub open spec fn fits(terms: Seq<TermView>, t: TermView, id: u64) -> bool {
    t is Var || terms[id as int] == t
}

/// The number of quads whose terms are those of a pattern.
pub open spec fn fitting(terms: Seq<TermView>, stored: Seq<StoredView>, p: PatternView) -> nat
    decreases stored.len(),
{
    if stored.len() == 0 {
        0
    } else {
        let before = fitting(terms, stored.drop_last(), p);
        let ids = stored.last().ids;
        if fits(terms, p.subject, ids.0) && fits(terms, p.predicate, ids.1) && fits(
            terms,
            p.object,
            ids.2,
        ) {
            before + 1
        } else {
            before
        }
    }
}

/// The estimated number of solutions: the number of quads that fit the pattern
/// that the fewest fit. Without patterns there is one solution.
pub open spec fn estimated(terms: Seq<TermView>, stored: Seq<StoredView>, ps: Seq<PatternView>) -> nat
    decreases ps.len(),
{
    if ps.len() == 0 {
        1
    } else {
        let last = fitting(terms, stored, ps.last());
        let before = estimated(terms, stored, ps.drop_last());
        if ps.len() == 1 || last < before {
            last
        } else {
            before
        }
    }
}

/// What a graph variable is bound to in the rows of a graph: the position of
/// the graph's IRI where it is a term of the store.
pub open spec fn graph_slot(terms: Seq<TermView>, iri: Text) -> SlotView {
    if terms.contains(TermView::Iri(iri)) {
        SlotView::Id(terms.index_of(TermView::Iri(iri)) as u64)
    } else {
        SlotView::Term(TermView::Iri(iri))
    }
}

/// Does a query's `GRAPH ?g` range over a graph? Over those of the dataset
/// clause, or else over those of the store that are not reserved.
pub open spec fn ranges_over(quads: Set<QuadView>, dataset: DatasetView, iri: Text) -> bool {
    match dataset.named {
        Some(list) => list.contains(iri),
        None => holds_graph(quads, iri) && !reserved(iri),
    }
}

impl<N: Numbers> MemStore<N> {
    pub closed spec fn terms(&self) -> Seq<TermView> {
        terms_view(self.terms@)
    }

    pub closed spec fn stored(&self) -> Seq<StoredView> {
        stored_view(self.quads@)
    }

    #[verifier::type_invariant]
    spec fn valid(self) -> bool {
        self.terms().no_duplicates() && all_within(self.terms(), self.stored())
    }

    pub fn new() -> (r: MemStore<N>)
        ensures
            r.quads() == Set::<QuadView>::empty(),
    {
        let r = MemStore { terms: Vec::new(), quads: Vec::new(), numbers: PhantomData };
        assert(r.quads() =~= Set::<QuadView>::empty());
        r
    }

    /// Puts a quad in.
    pub fn insert_quad(&mut self, q: AlgebraQuad)
        ensures
            final(self).quads() == old(self).quads().insert(quad_view(q)),
    {
        let ghost before = *self;
        proof {
            use_type_invariant(&*self);
        }
        let mut quads: Vec<StoredQuad> = Vec::new();
        let mut terms: Vec<Term> = Vec::new();
        std::mem::swap(&mut quads, &mut self.quads);
        std::mem::swap(&mut terms, &mut self.terms);
        put(&mut terms, &mut quads, q);
        *self = MemStore { terms, quads, numbers: PhantomData };
    }

    /// Puts a triple of IRIs into the default graph.
    pub fn insert(&mut self, t: (String, String, String))
        ensures
            final(self).quads() == old(self).quads().insert(
                QuadView {
                    graph: None,
                    subject: TermView::Iri(t.0@),
                    predicate: TermView::Iri(t.1@),
                    object: TermView::Iri(t.2@),
                },
            ),
    {
        self.insert_quad((None, Term::Iri(t.0), Term::Iri(t.1), Term::Iri(t.2)));
    }
}

impl<N: Numbers> Default for MemStore<N> {
    fn default() -> (r: MemStore<N>)
        ensures
            r.quads() == Set::<QuadView>::empty(),
    {
        MemStore::new()
    }
}

// ── Quads ───────────────────────────────────────────────────────────────────

proof fn quads_of_has(terms: Seq<TermView>, stored: Seq<StoredView>, q: QuadView)
    ensures
        quads_of(terms, stored).contains(q) <==> exists|i: int|
            0 <= i < stored.len() && quad_at(terms, #[trigger] stored[i]) == q,
{
    let s = Seq::new(stored.len(), |i: int| quad_at(terms, stored[i]));
    if s.contains(q) {
        let i = choose|i: int| 0 <= i < s.len() && s[i] == q;
        assert(quad_at(terms, stored[i]) == q);
    }
    if exists|i: int| 0 <= i < stored.len() && quad_at(terms, #[trigger] stored[i]) == q {
        let i = choose|i: int|
            0 <= i < stored.len() && quad_at(terms, #[trigger] stored[i]) == q;
        assert(s[i] == q);
    }
}

proof fn quads_of_push(terms: Seq<TermView>, stored: Seq<StoredView>, s: StoredView)
    ensures
        quads_of(terms, stored.push(s)) == quads_of(terms, stored).insert(quad_at(terms, s)),
{
    let more = stored.push(s);
    assert forall|q: QuadView|
        quads_of(terms, more).contains(q) <==> quads_of(terms, stored).insert(
            quad_at(terms, s),
        ).contains(q) by {
        quads_of_has(terms, more, q);
        quads_of_has(terms, stored, q);
        if quads_of(terms, more).contains(q) {
            let i = choose|i: int|
                0 <= i < more.len() && quad_at(terms, #[trigger] more[i]) == q;
            if i < stored.len() {
                assert(stored[i] == more[i]);
            }
        }
        if quads_of(terms, stored).contains(q) {
            let i = choose|i: int|
                0 <= i < stored.len() && quad_at(terms, #[trigger] stored[i]) == q;
            assert(more[i] == stored[i]);
        }
        assert(more[stored.len() as int] == s);
    }
    assert(quads_of(terms, more) =~= quads_of(terms, stored).insert(quad_at(terms, s)));
}

/// More terms change no quad.
proof fn quads_of_grow(terms: Seq<TermView>, more: Seq<TermView>, stored: Seq<StoredView>)
    requires
        terms.len() <= more.len(),
        more.take(terms.len() as int) == terms,
        all_within(terms, stored),
    ensures
        quads_of(terms, stored) == quads_of(more, stored),
        all_within(more, stored),
{
    assert forall|i: int| 0 <= i < terms.len() implies terms[i] == more[i] by {
        assert(more.take(terms.len() as int)[i] == more[i]);
    }
    assert forall|i: int| 0 <= i < stored.len() implies quad_at(terms, #[trigger] stored[i])
        == quad_at(more, stored[i]) by {
        assert(within(terms, stored[i].ids));
    }
    assert(Seq::new(stored.len(), |i: int| quad_at(terms, stored[i])) =~= Seq::new(
        stored.len(),
        |i: int| quad_at(more, stored[i]),
    ));
    assert forall|i: int| 0 <= i < stored.len() implies within(more, (#[trigger] stored[i]).ids) by {
        assert(within(terms, stored[i].ids));
    }
}

fn find_term(terms: &Vec<Term>, t: &Term) -> (r: Option<u64>)
    ensures
        match r {
            Some(id) => id < terms@.len() && terms@[id as int]@ == t@ && forall|j: int|
                0 <= j < id ==> (#[trigger] terms@[j])@ != t@,
            None => !terms_view(terms@).contains(t@),
        },
{
    let mut i: usize = 0;
    while i < terms.len()
        invariant
            i <= terms@.len(),
            forall|j: int| 0 <= j < i ==> (#[trigger] terms@[j])@ != t@,
        decreases terms@.len() - i,
    {
        if terms[i].same(t) {
            return Some(i as u64);
        }
        i = i + 1;
    }
    proof {
        if terms_view(terms@).contains(t@) {
            let j = choose|j: int| 0 <= j < terms@.len() && terms_view(terms@)[j] == t@;
            assert(terms@[j]@ == t@);
        }
    }
    None
}

/// The position of a term, which is added where it is new.
fn intern(terms: &mut Vec<Term>, t: Term) -> (id: u64)
    requires
        terms_view(old(terms)@).no_duplicates(),
    ensures
        terms_view(final(terms)@).no_duplicates(),
        old(terms)@.len() <= final(terms)@.len(),
        terms_view(final(terms)@).take(old(terms)@.len() as int) == terms_view(old(terms)@),
        id < final(terms)@.len(),
        terms_view(final(terms)@)[id as int] == t@,
{
    let ghost before = terms_view(terms@);
    match find_term(terms, &t) {
        Some(id) => {
            assert(before.take(before.len() as int) =~= before);
            id
        },
        None => {
            let id: usize = terms.len();
            let ghost tv = t@;
            terms.push(t);
            let ghost after = terms_view(terms@);
            proof {
                assert(after =~= before.push(tv));
                assert(after.take(before.len() as int) =~= before);
                assert forall|i: int, j: int|
                    0 <= i < j < after.len() implies after[i] != after[j] by {
                    if j == before.len() && after[i] == tv {
                        assert(before[i] == tv);
                        assert(before.contains(tv));
                    }
                }
            }
            id as u64
        },
    }
}

/// Is a stored quad this quad?
fn is_quad(terms: &Vec<Term>, s: &StoredQuad, q: &AlgebraQuad) -> (r: bool)
    requires
        within(terms_view(terms@), s.ids),
    ensures
        r == (quad_at(terms_view(terms@), s@) == quad_view(*q)),
{
    let n: usize = terms.len();
    let ghost tv = terms_view(terms@);
    proof {
        assert(tv[s.ids.0 as int] == terms@[s.ids.0 as int]@);
        assert(tv[s.ids.1 as int] == terms@[s.ids.1 as int]@);
        assert(tv[s.ids.2 as int] == terms@[s.ids.2 as int]@);
        assert(s.ids.0 < n && s.ids.1 < n && s.ids.2 < n);
    }
    same_graph(&s.graph, &q.0) && terms[s.ids.0 as usize].same(&q.1)
        && terms[s.ids.1 as usize].same(&q.2) && terms[s.ids.2 as usize].same(&q.3)
}

fn find_quad(terms: &Vec<Term>, quads: &Vec<StoredQuad>, q: &AlgebraQuad) -> (r: bool)
    requires
        all_within(terms_view(terms@), stored_view(quads@)),
    ensures
        r == quads_of(terms_view(terms@), stored_view(quads@)).contains(quad_view(*q)),
{
    let ghost tv = terms_view(terms@);
    let ghost sv = stored_view(quads@);
    proof {
        quads_of_has(tv, sv, quad_view(*q));
    }
    let mut i: usize = 0;
    while i < quads.len()
        invariant
            i <= quads@.len(),
            tv == terms_view(terms@),
            sv == stored_view(quads@),
            all_within(tv, sv),
            quads_of(tv, sv).contains(quad_view(*q)) <==> exists|k: int|
                0 <= k < sv.len() && quad_at(tv, #[trigger] sv[k]) == quad_view(*q),
            forall|k: int| 0 <= k < i ==> quad_at(tv, #[trigger] sv[k]) != quad_view(*q),
        decreases quads@.len() - i,
    {
        assert(sv[i as int] == quads@[i as int]@);
        if is_quad(terms, &quads[i], q) {
            return true;
        }
        i = i + 1;
    }
    false
}

/// Puts a quad in, unless it is there.
fn put(terms: &mut Vec<Term>, quads: &mut Vec<StoredQuad>, q: AlgebraQuad)
    requires
        terms_view(old(terms)@).no_duplicates(),
        all_within(terms_view(old(terms)@), stored_view(old(quads)@)),
    ensures
        terms_view(final(terms)@).no_duplicates(),
        all_within(terms_view(final(terms)@), stored_view(final(quads)@)),
        quads_of(terms_view(final(terms)@), stored_view(final(quads)@)) == quads_of(
            terms_view(old(terms)@),
            stored_view(old(quads)@),
        ).insert(quad_view(q)),
{
    let ghost tv = terms_view(terms@);
    let ghost sv = stored_view(quads@);
    if find_quad(terms, quads, &q) {
        assert(quads_of(tv, sv).insert(quad_view(q)) =~= quads_of(tv, sv));
        return;
    }
    let ghost qv = quad_view(q);
    let (graph, s, p, o) = q;
    let s = intern(terms, s);
    let ghost t1 = terms_view(terms@);
    let p = intern(terms, p);
    let ghost t2 = terms_view(terms@);
    let o = intern(terms, o);
    let ghost t3 = terms_view(terms@);
    proof {
        assert(t3.take(t2.len() as int)[s as int] == t3[s as int]);
        assert(t2.take(t1.len() as int)[s as int] == t2[s as int]);
        assert(t3.take(t2.len() as int)[p as int] == t3[p as int]);
        assert(t3.take(t1.len() as int) =~= t2.take(t1.len() as int));
        assert(t3.take(tv.len() as int) =~= t1.take(tv.len() as int));
        quads_of_grow(tv, t3, sv);
    }
    let new = StoredQuad { graph, ids: (s, p, o) };
    let ghost nv = new@;
    quads.push(new);
    proof {
        assert(stored_view(quads@) =~= sv.push(nv));
        quads_of_push(t3, sv, nv);
        assert(quad_at(t3, nv) == qv);
        assert(within(t3, nv.ids));
    }
}

impl<N: Numbers> Store for MemStore<N> {
    open spec fn quads(&self) -> Set<QuadView> {
        quads_of(self.terms(), self.stored())
    }

    open spec fn steady(&self) -> bool {
        true
    }

    open spec fn lasting(&self) -> bool {
        true
    }

    fn apply_quads(&mut self, dels: Vec<AlgebraQuad>, adds: Vec<AlgebraQuad>) -> (r: Result<
        (),
        SparqlError,
    >) {
        proof {
            use_type_invariant(&*self);
        }
        let ghost start = quads_of(self.terms(), self.stored());
        let mut quads: Vec<StoredQuad> = Vec::new();
        let mut terms: Vec<Term> = Vec::new();
        std::mem::swap(&mut quads, &mut self.quads);
        std::mem::swap(&mut terms, &mut self.terms);
        let mut quads = remove_all(&terms, quads, &dels);
        put_all(&mut terms, &mut quads, adds);
        *self = MemStore { terms, quads, numbers: PhantomData };
        Ok(())
    }

    fn clear_graph(&mut self, graph: &GraphName) -> (r: Result<(), SparqlError>) {
        proof {
            use_type_invariant(&*self);
        }
        let ghost start = quads_of(self.terms(), self.stored());
        let mut quads: Vec<StoredQuad> = Vec::new();
        std::mem::swap(&mut quads, &mut self.quads);
        let quads = remove_graph(&self.terms, quads, graph);
        self.quads = quads;
        Ok(())
    }

    fn graph_exists(&self, iri: &str) -> (r: bool) {
        let ghost tv = self.terms();
        let ghost sv = self.stored();
        let mut i: usize = 0;
        while i < self.quads.len()
            invariant
                i <= self.quads@.len(),
                tv == self.terms(),
                sv == self.stored(),
                forall|k: int| 0 <= k < i ==> (#[trigger] sv[k]).graph != Some(iri@),
            decreases self.quads@.len() - i,
        {
            assert(sv[i as int] == self.quads@[i as int]@);
            if let Some(g) = &self.quads[i].graph {
                if same_text(g.as_str(), iri) {
                    proof {
                        let q = quad_at(tv, sv[i as int]);
                        quads_of_has(tv, sv, q);
                        assert(self.quads().contains(q));
                    }
                    return true;
                }
            }
            i = i + 1;
        }
        proof {
            if holds_graph(self.quads(), iri@) {
                let q = choose|q: QuadView| #[trigger]
                    self.quads().contains(q) && q.graph == Some(iri@);
                quads_of_has(tv, sv, q);
            }
        }
        false
    }

    fn graphs(&self) -> (r: Vec<String>) {
        let ghost tv = self.terms();
        let ghost sv = self.stored();
        let mut out: Vec<String> = Vec::new();
        let mut i: usize = 0;
        while i < self.quads.len()
            invariant
                i <= self.quads@.len(),
                tv == self.terms(),
                sv == self.stored(),
                forall|k: int|
                    0 <= k < i ==> ((#[trigger] sv[k]).graph matches Some(g) ==> texts_has(
                        out@,
                        g,
                    )),
                forall|g: Text| #[trigger] texts_has(out@, g) ==> holds_graph(self.quads(), g),
            decreases self.quads@.len() - i,
        {
            assert(sv[i as int] == self.quads@[i as int]@);
            if let Some(g) = &self.quads[i].graph {
                if !listed(&out, g.as_str()) {
                    let ghost before = out@;
                    out.push(g.clone());
                    proof {
                        let q = quad_at(tv, sv[i as int]);
                        quads_of_has(tv, sv, q);
                        assert(self.quads().contains(q));
                        assert forall|x: Text| #[trigger] texts_has(before, x) implies texts_has(
                            out@,
                            x,
                        ) by {
                            let k = choose|k: int| 0 <= k < before.len() && (#[trigger] before[k])@ == x;
                            assert(out@[k] == before[k]);
                        }
                        assert(out@[before.len() as int]@ == g@);
                        assert forall|x: Text| #[trigger] texts_has(out@, x) implies holds_graph(
                            self.quads(),
                            x,
                        ) by {
                            let k = choose|k: int| 0 <= k < out@.len() && (#[trigger] out@[k])@ == x;
                            if k < before.len() {
                                assert(before[k]@ == x);
                                assert(texts_has(before, x));
                            }
                        }
                    }
                } else {
                    proof {
                        let k = choose|k: int|
                            0 <= k < out@.len() && texts(out@)[k] == g@;
                        assert(out@[k]@ == g@);
                    }
                }
            }
            i = i + 1;
        }
        proof {
            assert forall|iri: Text| #[trigger] holds_graph(self.quads(), iri) implies texts_has(
                out@,
                iri,
            ) by {
                let q = choose|q: QuadView| #[trigger]
                    self.quads().contains(q) && q.graph == Some(iri);
                quads_of_has(tv, sv, q);
                let k = choose|k: int| 0 <= k < sv.len() && quad_at(tv, #[trigger] sv[k]) == q;
                assert(sv[k].graph == Some(iri));
            }
            assert forall|iri: Text| #[trigger]
                holds_graph(self.quads(), iri) <==> exists|i: int|
                    0 <= i < out@.len() && (#[trigger] out@[i])@ == iri by {
                if exists|i: int| 0 <= i < out@.len() && (#[trigger] out@[i])@ == iri {
                    assert(texts_has(out@, iri));
                }
            }
        }
        out
    }

    fn quad_exists(&self, q: &AlgebraQuad) -> (r: bool) {
        proof {
            use_type_invariant(self);
        }
        find_quad(&self.terms, &self.quads, q)
    }

    fn scan_graph_quads(&self, graph: &GraphName) -> (r: Result<Vec<AlgebraTriple>, SparqlError>) {
        proof {
            use_type_invariant(self);
        }
        Ok(graph_triples(&self.terms, &self.quads, graph))
    }
}

/// Is a text among strings?
spec fn texts_has(s: Seq<String>, t: Text) -> bool {
    exists|i: int| 0 <= i < s.len() && (#[trigger] s[i])@ == t
}

fn remove_all(terms: &Vec<Term>, quads: Vec<StoredQuad>, dels: &Vec<AlgebraQuad>) -> (out: Vec<
    StoredQuad,
>)
    requires
        all_within(terms_view(terms@), stored_view(quads@)),
    ensures
        all_within(terms_view(terms@), stored_view(out@)),
        quads_of(terms_view(terms@), stored_view(out@)) == quads_of(
            terms_view(terms@),
            stored_view(quads@),
        ).difference(quad_set(dels@)),
{
    let ghost tv = terms_view(terms@);
    let ghost sv = stored_view(quads@);
    let ghost gone = quad_set(dels@);
    let mut out: Vec<StoredQuad> = Vec::new();
    let n: usize = quads.len();
    assert(quads_of(tv, stored_view(out@)) =~= quads_of(tv, sv.take(0)).difference(gone));
    let mut i: usize = 0;
    for q in it: quads
        invariant
            it.seq() == quads@,
            i == it.index(),
            n == quads@.len(),
            tv == terms_view(terms@),
            sv == stored_view(quads@),
            gone == quad_set(dels@),
            all_within(tv, sv),
            all_within(tv, stored_view(out@)),
            quads_of(tv, stored_view(out@)) == quads_of(tv, sv.take(i as int)).difference(gone),
    {
        proof {
            assert(sv[i as int] == quads@[i as int]@);
            assert(sv.take(i + 1) =~= sv.take(i as int).push(q@));
            quads_of_push(tv, sv.take(i as int), q@);
        }
        let mut named = false;
        let mut k: usize = 0;
        while k < dels.len()
            invariant
                k <= dels@.len(),
                tv == terms_view(terms@),
                within(tv, q@.ids),
                named <==> exists|j: int|
                    0 <= j < k && quad_at(tv, q@) == quad_view(#[trigger] dels@[j]),
            decreases dels@.len() - k,
        {
            if is_quad(terms, &q, &dels[k]) {
                named = true;
            }
            k = k + 1;
        }
        let ghost qv = quad_at(tv, q@);
        proof {
            let dv = quads_view(dels@);
            if named {
                let j = choose|j: int| 0 <= j < dels@.len() && qv == quad_view(#[trigger] dels@[j]);
                assert(dv[j] == qv);
                assert(gone.contains(qv));
            } else if dv.contains(qv) {
                let j = choose|j: int| 0 <= j < dv.len() && dv[j] == qv;
                assert(quad_view(dels@[j]) == qv);
            }
            assert(gone.contains(qv) == named);
        }
        if !named {
            let ghost before = stored_view(out@);
            let ghost nv = q@;
            out.push(q);
            proof {
                assert(stored_view(out@) =~= before.push(nv));
                quads_of_push(tv, before, nv);
            }
        }
        assert(quads_of(tv, stored_view(out@)) =~= quads_of(tv, sv.take(i + 1)).difference(gone));
        if i < n {
            i = i + 1;
        }
    }
    assert(sv.take(sv.len() as int) =~= sv);
    out
}

fn put_all(terms: &mut Vec<Term>, quads: &mut Vec<StoredQuad>, adds: Vec<AlgebraQuad>)
    requires
        terms_view(old(terms)@).no_duplicates(),
        all_within(terms_view(old(terms)@), stored_view(old(quads)@)),
    ensures
        terms_view(final(terms)@).no_duplicates(),
        all_within(terms_view(final(terms)@), stored_view(final(quads)@)),
        quads_of(terms_view(final(terms)@), stored_view(final(quads)@)) == quads_of(
            terms_view(old(terms)@),
            stored_view(old(quads)@),
        ).union(quad_set(adds@)),
{
    let ghost start = quads_of(terms_view(terms@), stored_view(quads@));
    let ghost av = quads_view(adds@);
    assert(start =~= start.union(av.take(0).to_set()));
    for q in it: adds
        invariant
            it.seq() == adds@,
            av == quads_view(adds@),
            terms_view(terms@).no_duplicates(),
            all_within(terms_view(terms@), stored_view(quads@)),
            quads_of(terms_view(terms@), stored_view(quads@)) == start.union(
                av.take(it.index() as int).to_set(),
            ),
    {
        let ghost i = it.index() as int;
        let ghost qv = quad_view(q);
        put(terms, quads, q);
        proof {
            assert(av.take(i + 1) =~= av.take(i).push(qv));
            assert(av.take(i).push(qv).to_set() =~= av.take(i).to_set().insert(qv)) by {
                pushed_set(av.take(i), qv);
            }
            assert(start.union(av.take(i).to_set()).insert(qv) =~= start.union(
                av.take(i + 1).to_set(),
            ));
        }
    }
    assert(av.take(av.len() as int) =~= av);
}

proof fn pushed_set(s: Seq<QuadView>, q: QuadView)
    ensures
        s.push(q).to_set() == s.to_set().insert(q),
{
    let more = s.push(q);
    assert forall|x: QuadView| more.to_set().contains(x) <==> s.to_set().insert(q).contains(x) by {
        if more.contains(x) {
            let i = choose|i: int| 0 <= i < more.len() && more[i] == x;
            if i < s.len() {
                assert(s[i] == x);
            }
        }
        if s.contains(x) {
            let i = choose|i: int| 0 <= i < s.len() && s[i] == x;
            assert(more[i] == x);
        }
        assert(more[s.len() as int] == q);
    }
    assert(more.to_set() =~= s.to_set().insert(q));
}

fn remove_graph(terms: &Vec<Term>, quads: Vec<StoredQuad>, graph: &GraphName) -> (out: Vec<StoredQuad>)
    requires
        all_within(terms_view(terms@), stored_view(quads@)),
    ensures
        all_within(terms_view(terms@), stored_view(out@)),
        quads_of(terms_view(terms@), stored_view(out@)) == quads_of(
            terms_view(terms@),
            stored_view(quads@),
        ).difference(
            graph_part(quads_of(terms_view(terms@), stored_view(quads@)), graph_view(*graph)),
        ),
{
    let ghost tv = terms_view(terms@);
    let ghost sv = stored_view(quads@);
    let ghost g = graph_view(*graph);
    let mut out: Vec<StoredQuad> = Vec::new();
    let ghost kept = |q: QuadView| q.graph != g;
    assert(quads_of(tv, stored_view(out@)) =~= quads_of(tv, sv.take(0)).filter(kept));
    for q in it: quads
        invariant
            it.seq() == quads@,
            tv == terms_view(terms@),
            sv == stored_view(quads@),
            g == graph_view(*graph),
            kept == (|q: QuadView| q.graph != g),
            all_within(tv, sv),
            all_within(tv, stored_view(out@)),
            quads_of(tv, stored_view(out@)) == quads_of(tv, sv.take(it.index() as int)).filter(
                kept,
            ),
    {
        let ghost i = it.index() as int;
        proof {
            assert(sv[i] == quads@[i]@);
            assert(sv.take(i + 1) =~= sv.take(i).push(q@));
            quads_of_push(tv, sv.take(i), q@);
        }
        if !same_graph(&q.graph, graph) {
            let ghost before = stored_view(out@);
            let ghost nv = q@;
            out.push(q);
            proof {
                assert(stored_view(out@) =~= before.push(nv));
                quads_of_push(tv, before, nv);
            }
        }
        assert(quads_of(tv, stored_view(out@)) =~= quads_of(tv, sv.take(i + 1)).filter(kept));
    }
    assert(sv.take(sv.len() as int) =~= sv);
    assert(quads_of(tv, sv).filter(kept) =~= quads_of(tv, sv).difference(
        graph_part(quads_of(tv, sv), g),
    ));
    out
}

fn graph_triples(terms: &Vec<Term>, quads: &Vec<StoredQuad>, graph: &GraphName) -> (out: Vec<
    AlgebraTriple,
>)
    requires
        all_within(terms_view(terms@), stored_view(quads@)),
    ensures
        triple_set(graph_view(*graph), out@) == graph_part(
            quads_of(terms_view(terms@), stored_view(quads@)),
            graph_view(*graph),
        ),
{
    let ghost tv = terms_view(terms@);
    let ghost sv = stored_view(quads@);
    let ghost g = graph_view(*graph);
    let n: usize = terms.len();
    let mut out: Vec<AlgebraTriple> = Vec::new();
    let mut i: usize = 0;
    assert(triple_set(g, out@) =~= graph_part(quads_of(tv, sv.take(0)), g));
    while i < quads.len()
        invariant
            i <= quads@.len(),
            n == terms@.len(),
            tv == terms_view(terms@),
            sv == stored_view(quads@),
            g == graph_view(*graph),
            all_within(tv, sv),
            triple_set(g, out@) == graph_part(quads_of(tv, sv.take(i as int)), g),
        decreases quads@.len() - i,
    {
        let q = &quads[i];
        proof {
            assert(sv[i as int] == quads@[i as int]@);
            assert(within(tv, sv[i as int].ids));
            assert(sv.take(i + 1) =~= sv.take(i as int).push(q@));
            quads_of_push(tv, sv.take(i as int), q@);
        }
        if same_graph(&q.graph, graph) {
            let ghost before = out@;
            let t = (
                terms[q.ids.0 as usize].clone(),
                terms[q.ids.1 as usize].clone(),
                terms[q.ids.2 as usize].clone(),
            );
            let ghost tt = in_graph(g, t);
            out.push(t);
            proof {
                let a = Seq::new(before.len(), |k: int| in_graph(g, before[k]));
                assert(Seq::new(out@.len(), |k: int| in_graph(g, out@[k])) =~= a.push(tt));
                pushed_set(a, tt);
                assert(tt == quad_at(tv, q@));
            }
        }
        assert(triple_set(g, out@) =~= graph_part(quads_of(tv, sv.take(i + 1)), g));
        i = i + 1;
    }
    assert(sv.take(sv.len() as int) =~= sv);
    out
}

// ── Queries ─────────────────────────────────────────────────────────────────

fn is_visible(scope: &ResolvedScope<'_>, g: &GraphName) -> (r: bool)
    ensures
        r == visible(scope@, graph_view(*g)),
{
    match (scope, g) {
        (ResolvedScope::DefaultUnion, None) => true,
        (ResolvedScope::DefaultUnion, Some(iri)) => !is_reserved_graph(iri.as_str()),
        (ResolvedScope::DefaultStrict, g) => g.is_none(),
        (ResolvedScope::Union(_), None) => false,
        (ResolvedScope::Union(list), Some(iri)) => slice_lists(list, iri.as_str()),
        (ResolvedScope::OneGraph(_), None) => false,
        (ResolvedScope::OneGraph(one), Some(iri)) => same_text(one, iri.as_str()),
        (ResolvedScope::UnboundGraphVar(_), _) => false,
    }
}

fn slice_lists(list: &[String], s: &str) -> (r: bool)
    ensures
        r == texts(list@).contains(s@),
{
    let ghost tv = texts(list@);
    let mut i: usize = 0;
    while i < list.len()
        invariant
            i <= list@.len(),
            tv == texts(list@),
            forall|j: int| 0 <= j < i ==> tv[j] != s@,
        decreases list@.len() - i,
    {
        if same_text(list[i].as_str(), s) {
            assert(tv[i as int] == s@);
            return true;
        }
        i = i + 1;
    }
    false
}

fn has_ids(list: &Vec<Ids>, t: Ids) -> (r: bool)
    ensures
        r == list@.contains(t),
{
    let mut i: usize = 0;
    while i < list.len()
        invariant
            i <= list@.len(),
            forall|j: int| 0 <= j < i ==> list@[j] != t,
        decreases list@.len() - i,
    {
        let x = list[i];
        if x.0 == t.0 && x.1 == t.1 && x.2 == t.2 {
            assert(list@[i as int] == t);
            return true;
        }
        i = i + 1;
    }
    false
}

fn visible_triples(quads: &Vec<StoredQuad>, scope: &ResolvedScope<'_>) -> (out: Vec<Ids>)
    ensures
        out@.no_duplicates(),
        out@.to_set() == triples_in(stored_view(quads@), scope@),
{
    let ghost sv = stored_view(quads@);
    let mut out: Vec<Ids> = Vec::new();
    let mut i: usize = 0;
    while i < quads.len()
        invariant
            i <= quads@.len(),
            sv == stored_view(quads@),
            out@.no_duplicates(),
            forall|k: int|
                0 <= k < i ==> (visible(scope@, (#[trigger] sv[k]).graph) ==> out@.contains(
                    sv[k].ids,
                )),
            forall|j: int|
                0 <= j < out@.len() ==> triples_in(sv, scope@).contains(#[trigger] out@[j]),
        decreases quads@.len() - i,
    {
        assert(sv[i as int] == quads@[i as int]@);
        if is_visible(scope, &quads[i].graph) {
            let t = quads[i].ids;
            if !has_ids(&out, t) {
                let ghost before = out@;
                out.push(t);
                proof {
                    assert(triples_in(sv, scope@).contains(sv[i as int].ids));
                    assert forall|k: int|
                        0 <= k < i && visible(
                            scope@,
                            (#[trigger] sv[k]).graph,
                        ) implies out@.contains(sv[k].ids) by {
                        let j = choose|j: int| 0 <= j < before.len() && before[j] == sv[k].ids;
                        assert(out@[j] == sv[k].ids);
                    }
                    assert(out@[before.len() as int] == t);
                }
            }
        }
        i = i + 1;
    }
    proof {
        assert forall|t: Ids| out@.to_set().contains(t) <==> triples_in(sv, scope@).contains(t) by {
            if out@.contains(t) {
                let j = choose|j: int| 0 <= j < out@.len() && out@[j] == t;
                assert(triples_in(sv, scope@).contains(out@[j]));
            }
            if triples_in(sv, scope@).contains(t) {
                let k = choose|k: int|
                    0 <= k < sv.len() && (#[trigger] sv[k]).ids == t && visible(
                        scope@,
                        sv[k].graph,
                    );
                assert(out@.contains(sv[k].ids));
            }
        }
        assert(out@.to_set() =~= triples_in(sv, scope@));
    }
    out
}

fn fits_term(terms: &Vec<Term>, t: &Term, id: u64) -> (r: bool)
    requires
        id < terms@.len(),
    ensures
        r == fits(terms_view(terms@), t@, id),
{
    let n: usize = terms.len();
    assert(id < n);
    let i: usize = id as usize;
    assert(terms_view(terms@)[id as int] == terms@[i as int]@);
    match t {
        Term::Var(_) => true,
        _ => terms[i].same(t),
    }
}

fn count_fitting(terms: &Vec<Term>, quads: &Vec<StoredQuad>, p: &TriplePattern) -> (n: u64)
    requires
        all_within(terms_view(terms@), stored_view(quads@)),
    ensures
        n == fitting(terms_view(terms@), stored_view(quads@), p@),
{
    let ghost tv = terms_view(terms@);
    let ghost sv = stored_view(quads@);
    let mut n: u64 = 0;
    let mut i: usize = 0;
    assert(sv.take(0) =~= Seq::empty());
    while i < quads.len()
        invariant
            i <= quads@.len(),
            tv == terms_view(terms@),
            sv == stored_view(quads@),
            all_within(tv, sv),
            n <= i,
            n == fitting(tv, sv.take(i as int), p@),
        decreases quads@.len() - i,
    {
        proof {
            assert(sv[i as int] == quads@[i as int]@);
            assert(within(tv, sv[i as int].ids));
            assert(sv.take(i + 1).drop_last() =~= sv.take(i as int));
            assert(sv.take(i + 1).last() == sv[i as int]);
        }
        let ids = quads[i].ids;
        if fits_term(terms, &p.subject, ids.0) && fits_term(terms, &p.predicate, ids.1)
            && fits_term(terms, &p.object, ids.2) {
            n = n + 1;
        }
        i = i + 1;
    }
    assert(sv.take(sv.len() as int) =~= sv);
    n
}

impl<N: Numbers> Executor for MemStore<N> {
    type N = N;

    /// A position that holds no term stands for the empty IRI.
    open spec fn dict(&self) -> Dict {
        Map::new(
            |id: u64| true,
            |id: u64|
                if id < self.terms().len() {
                    self.terms()[id as int]
                } else {
                    TermView::Iri(""@)
                },
        )
    }

    open spec fn scans(&self, patterns: Seq<PatternView>, scope: ScopeView, out: BatchView) -> bool {
        !(resolved(scope) is UnboundGraphVar) && solutions(
            self.terms(),
            triples_in(self.stored(), resolved(scope)),
            patterns,
            out,
        )
    }

    open spec fn enumerates(&self, dataset: DatasetView, out: Seq<NamedGraphView>) -> bool {
        &&& forall|i: int, j: int| 0 <= i < j < out.len() ==> out[i].iri != out[j].iri
        &&& forall|i: int|
            0 <= i < out.len() ==> (#[trigger] out[i]).binding == graph_slot(
                self.terms(),
                out[i].iri,
            )
        &&& forall|iri: Text| #[trigger]
            ranges_over(self.quads(), dataset, iri) <==> exists|i: int|
                0 <= i < out.len() && (#[trigger] out[i]).iri == iri
    }

    open spec fn estimate(&self, patterns: Seq<PatternView>) -> Option<u64> {
        Some(estimated(self.terms(), self.stored(), patterns) as u64)
    }

    open spec fn reliable(&self) -> bool {
        true
    }

    open spec fn knows(&self, id: u64) -> bool {
        true
    }

    fn decode_term(&self, id: u64) -> (r: Result<Term, SparqlError>) {
        let n: usize = self.terms.len();
        if id < n as u64 {
            let i: usize = id as usize;
            assert(self.terms()[id as int] == self.terms@[i as int]@);
            Ok(self.terms[i].clone())
        } else {
            Ok(Term::Iri("".to_owned()))
        }
    }

    fn decode_numeric(&self, id: u64) -> (r: Result<
        Option<<Self::N as Numbers>::Num>,
        SparqlError,
    >) {
        match self.decode_term(id) {
            Ok(t) => Ok(numeric_value::<N>(&t)),
            Err(e) => Err(e),
        }
    }

    fn scan_bgp_ids(&self, patterns: &Vec<TriplePattern>, scope: &ScanScope<'_>) -> (r: Result<
        Batch,
        SparqlError,
    >) {
        proof {
            use_type_invariant(self);
        }
        let graphs = scope.resolve();
        if let ResolvedScope::UnboundGraphVar(v) = &graphs {
            return Err(graph_var_needs_a_per_graph_node(v));
        }
        let triples = visible_triples(&self.quads, &graphs);
        proof {
            assert forall|i: int| 0 <= i < triples@.len() implies within(
                self.terms(),
                #[trigger] triples@[i],
            ) by {
                assert(triples@.to_set().contains(triples@[i]));
                let k = choose|k: int|
                    0 <= k < self.stored().len() && (#[trigger] self.stored()[k]).ids
                        == triples@[i] && visible(graphs@, self.stored()[k].graph);
                assert(within(self.terms(), self.stored()[k].ids));
            }
        }
        let b = solve(&self.terms, patterns, &triples);
        proof {
            solutions_bind_the_variables(
                self.terms(),
                triples@.to_set(),
                patterns_view(patterns@),
                b@,
            );
        }
        Ok(b)
    }

    fn count_bgp(&self, patterns: &Vec<TriplePattern>, scope: &ScanScope<'_>) -> (r: Result<
        Option<u64>,
        SparqlError,
    >) {
        Ok(None)
    }

    fn named_graphs(&self, dataset: &DatasetSpec) -> (r: Result<Vec<NamedGraph>, SparqlError>) {
        proof {
            use_type_invariant(self);
        }
        let mut out: Vec<NamedGraph> = Vec::new();
        match &dataset.named {
            Some(list) => {
                let ghost lv = texts(list@);
                let mut i: usize = 0;
                while i < list.len()
                    invariant
                        i <= list@.len(),
                        lv == texts(list@),
                        self.terms().no_duplicates(),
                        proper(self.terms(), graphs_view(out@)),
                        forall|iri: Text| #[trigger]
                            names_graph(graphs_view(out@), iri) <==> lv.take(i as int).contains(iri),
                    decreases list@.len() - i,
                {
                    let ghost before = graphs_view(out@);
                    add_graph(&self.terms, &mut out, list[i].as_str());
                    proof {
                        let more = lv.take(i + 1);
                        assert(more =~= lv.take(i as int).push(list@[i as int]@));
                        assert forall|iri: Text| #[trigger]
                            names_graph(graphs_view(out@), iri) <==> more.contains(iri) by {
                            if more.contains(iri) {
                                let k = choose|k: int| 0 <= k < more.len() && more[k] == iri;
                                if k < i {
                                    assert(lv.take(i as int)[k] == iri);
                                    assert(lv.take(i as int).contains(iri));
                                }
                            }
                            if lv.take(i as int).contains(iri) {
                                let k = choose|k: int|
                                    0 <= k < lv.take(i as int).len() && lv.take(i as int)[k] == iri;
                                assert(more[k] == iri);
                            }
                            assert(more[i as int] == list@[i as int]@);
                        }
                    }
                    i = i + 1;
                }
                assert(lv.take(lv.len() as int) =~= lv);
            },
            None => {
                let graphs = self.graphs();
                let mut i: usize = 0;
                while i < graphs.len()
                    invariant
                        i <= graphs@.len(),
                        self.terms().no_duplicates(),
                        proper(self.terms(), graphs_view(out@)),
                        forall|iri: Text| #[trigger]
                            names_graph(graphs_view(out@), iri) <==> texts_has(
                                graphs@.take(i as int),
                                iri,
                            ) && !reserved(iri),
                    decreases graphs@.len() - i,
                {
                    let ghost before = graphs_view(out@);
                    let ghost some = graphs@.take(i as int);
                    let ghost more = graphs@.take(i + 1);
                    let ghost g = graphs@[i as int]@;
                    if !is_reserved_graph(graphs[i].as_str()) {
                        add_graph(&self.terms, &mut out, graphs[i].as_str());
                    }
                    proof {
                        assert(more =~= some.push(graphs@[i as int]));
                        assert forall|iri: Text| #[trigger]
                            names_graph(graphs_view(out@), iri) <==> texts_has(more, iri)
                                && !reserved(iri) by {
                            if texts_has(more, iri) {
                                let k = choose|k: int|
                                    0 <= k < more.len() && (#[trigger] more[k])@ == iri;
                                if k < i {
                                    assert(some[k]@ == iri);
                                }
                            }
                            if texts_has(some, iri) {
                                let k = choose|k: int|
                                    0 <= k < some.len() && (#[trigger] some[k])@ == iri;
                                assert(more[k]@ == iri);
                            }
                            assert(more[i as int]@ == g);
                            assert(names_graph(before, iri) <==> texts_has(some, iri) && !reserved(
                                iri,
                            ));
                        }
                    }
                    i = i + 1;
                }
                assert(graphs@.take(graphs@.len() as int) =~= graphs@);
                assert forall|iri: Text|
                    texts_has(graphs@, iri) == #[trigger] holds_graph(self.quads(), iri) by {}
            },
        }
        proof {
            let gv = graphs_view(out@);
            assert forall|iri: Text| #[trigger]
                ranges_over(self.quads(), dataset@, iri) <==> exists|i: int|
                    0 <= i < gv.len() && (#[trigger] gv[i]).iri == iri by {
                assert(names_graph(gv, iri) <==> ranges_over(self.quads(), dataset@, iri));
            }
        }
        let n: usize = self.terms.len();
        assert(bound_to_their_names(self.dict(), graphs_view(out@))) by {
            let gv = graphs_view(out@);
            assert(self.terms().len() == n);
            assert forall|i: int| 0 <= i < gv.len() implies slot_term(
                self.dict(),
                (#[trigger] gv[i]).binding,
            ) == Some(TermView::Iri(gv[i].iri)) by {
                let t = TermView::Iri(gv[i].iri);
                if self.terms().contains(t) {
                    let k = self.terms().index_of(t);
                    assert(self.terms()[k] == t);
                    assert(self.dict().contains_key(k as u64));
                }
            }
        }
        Ok(out)
    }

    #[verifier::spinoff_prover]
    fn cardinality_estimate(&self, patterns: &Vec<TriplePattern>) -> (r: Option<u64>) {
        proof {
            use_type_invariant(self);
        }
        let ghost pv = patterns_view(patterns@);
        let mut least: u64 = 1;
        let mut i: usize = 0;
        assert(pv.take(0) =~= Seq::empty());
        while i < patterns.len()
            invariant
                i <= patterns@.len(),
                pv == patterns_view(patterns@),
                all_within(self.terms(), self.stored()),
                least == estimated(self.terms(), self.stored(), pv.take(i as int)),
            decreases patterns@.len() - i,
        {
            proof {
                assert(pv.take(i + 1).drop_last() =~= pv.take(i as int));
                assert(pv.take(i + 1).last() == patterns@[i as int]@);
            }
            let n: u64 = count_fitting(&self.terms, &self.quads, &patterns[i]);
            if i == 0 || n < least {
                least = n;
            }
            i = i + 1;
        }
        assert(pv.take(pv.len() as int) =~= pv);
        Some(least)
    }
}

/// Is a graph among those listed?
spec fn names_graph(s: Seq<NamedGraphView>, iri: Text) -> bool {
    exists|i: int| 0 <= i < s.len() && (#[trigger] s[i]).iri == iri
}

/// Is each graph listed once, with its slot?
spec fn proper(terms: Seq<TermView>, s: Seq<NamedGraphView>) -> bool {
    &&& forall|i: int, j: int| 0 <= i < j < s.len() ==> s[i].iri != s[j].iri
    &&& forall|i: int| 0 <= i < s.len() ==> (#[trigger] s[i]).binding == graph_slot(terms, s[i].iri)
}

/// Lists a graph, unless it is listed.
fn add_graph(terms: &Vec<Term>, out: &mut Vec<NamedGraph>, iri: &str)
    requires
        terms_view(terms@).no_duplicates(),
        proper(terms_view(terms@), graphs_view(old(out)@)),
    ensures
        proper(terms_view(terms@), graphs_view(final(out)@)),
        forall|g: Text| #[trigger]
            names_graph(graphs_view(final(out)@), g) <==> names_graph(graphs_view(old(out)@), g)
                || g == iri@,
{
    let ghost before = graphs_view(out@);
    let mut i: usize = 0;
    while i < out.len()
        invariant
            i <= out@.len(),
            before == graphs_view(out@),
            *old(out) == *out,
            proper(terms_view(terms@), before),
            forall|k: int| 0 <= k < i ==> (#[trigger] before[k]).iri != iri@,
        decreases out@.len() - i,
    {
        assert(before[i as int] == out@[i as int]@);
        if same_text(out[i].iri.as_str(), iri) {
            assert(names_graph(before, iri@));
            return;
        }
        i = i + 1;
    }
    let t = Term::Iri(iri.to_owned());
    let ghost tv = terms_view(terms@);
    let binding = match find_term(terms, &t) {
        Some(id) => {
            proof {
                assert(tv[id as int] == t@);
                assert(tv.contains(t@));
                let k = tv.index_of(t@);
                assert(tv[k] == t@);
                assert(k == id);
            }
            Slot::Id(id)
        },
        None => Slot::Term(t),
    };
    let new = NamedGraph { iri: iri.to_owned(), binding };
    let ghost nv = new@;
    out.push(new);
    let ghost after = graphs_view(out@);
    proof {
        assert(after =~= before.push(nv));
        assert(nv.binding == graph_slot(tv, iri@));
        assert forall|i: int, j: int| 0 <= i < j < after.len() implies after[i].iri
            != after[j].iri by {
            assert(before[i] == after[i]);
            if j < before.len() {
                assert(before[j] == after[j]);
            }
        }
        assert forall|i: int| 0 <= i < after.len() implies (#[trigger] after[i]).binding
            == graph_slot(tv, after[i].iri) by {
            if i < before.len() {
                assert(before[i] == after[i]);
            }
        }
        assert forall|g: Text| #[trigger] names_graph(after, g) <==> names_graph(before, g) || g
            == iri@ by {
            if names_graph(after, g) {
                let k = choose|k: int| 0 <= k < after.len() && (#[trigger] after[k]).iri == g;
                if k < before.len() {
                    assert(before[k].iri == g);
                }
            }
            if names_graph(before, g) {
                let k = choose|k: int| 0 <= k < before.len() && (#[trigger] before[k]).iri == g;
                assert(after[k].iri == g);
            }
            assert(after[before.len() as int].iri == iri@);
        }
    }
}

impl<N: Numbers> FullBackend for MemStore<N> {

}

}
