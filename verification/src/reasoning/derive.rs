//! What the views derive, written to their graphs.
//!
//! The rule engine is the caller's: it closes the spine once, and each view's
//! data together with the spine. This module says which triples to close next,
//! keeps of a closure what is new, and writes it. No data graph is ever
//! written.

use crate::algebra::{texts, Term, TermView};
use crate::collections::NameSet;
use crate::error::{ErrorView, SparqlError};
use crate::exec::scope::reserved;
use crate::exec::store::{
    graph_part, in_graph, quad_set, quad_view, quads_view, triple_set, AlgebraQuad, AlgebraTriple,
    GraphName, QuadView, Store,
};
use crate::reasoning::catalog::{
    catalog_rows, derived_record, dropped, fresh_state, has_source, rows_view, states_view,
    touched_view, Row, ViewCatalog, ViewRecord, ViewState,
};
use crate::reasoning::{
    inferred_iri, minting_is_reserved, Reasoning, ViewSource, SPINE_CLOSURE_GRAPH, VIEWS_GRAPH,
};
use crate::text::{starts, starts_with, strip_prefix, Text};
use vstd::prelude::*;
use vstd::string::*;

verus! {

// ── Sets of triples ─────────────────────────────────────────────────────────

pub type TripleView = (TermView, TermView, TermView);

pub open spec fn triple_view(t: AlgebraTriple) -> TripleView {
    (t.0@, t.1@, t.2@)
}

pub open spec fn triples_view(s: Seq<AlgebraTriple>) -> Seq<TripleView> {
    Seq::new(s.len(), |i: int| triple_view(s[i]))
}

/// The triples of a list that are not of another, in order.
pub open spec fn without(a: Seq<TripleView>, b: Seq<TripleView>) -> Seq<TripleView>
    decreases a.len(),
{
    if a.len() == 0 {
        Seq::empty()
    } else if b.contains(a.last()) {
        without(a.drop_last(), b)
    } else {
        without(a.drop_last(), b).push(a.last())
    }
}

pub proof fn without_is_difference(a: Seq<TripleView>, b: Seq<TripleView>)
    ensures
        forall|t: TripleView| #[trigger]
            without(a, b).contains(t) <==> a.contains(t) && !b.contains(t),
    decreases a.len(),
{
    if a.len() > 0 {
        let rest = a.drop_last();
        without_is_difference(rest, b);
        let w = without(rest, b);
        assert forall|t: TripleView| #[trigger]
            without(a, b).contains(t) <==> a.contains(t) && !b.contains(t) by {
            assert(a.contains(t) <==> rest.contains(t) || t == a.last()) by {
                if rest.contains(t) {
                    let j = choose|j: int| 0 <= j < rest.len() && rest[j] == t;
                    assert(a[j] == t);
                }
                if a.contains(t) {
                    let j = choose|j: int| 0 <= j < a.len() && a[j] == t;
                    if j < rest.len() {
                        assert(rest[j] == t);
                    }
                }
            }
            if !b.contains(a.last()) {
                let all = w.push(a.last());
                assert(all.contains(t) <==> w.contains(t) || t == a.last()) by {
                    if w.contains(t) {
                        let j = choose|j: int| 0 <= j < w.len() && w[j] == t;
                        assert(all[j] == t);
                    }
                    if t == a.last() {
                        assert(all[w.len() as int] == t);
                    }
                }
            }
        }
    }
}

fn same_triple(a: &AlgebraTriple, b: &AlgebraTriple) -> (r: bool)
    ensures
        r == (triple_view(*a) == triple_view(*b)),
{
    a.0.same(&b.0) && a.1.same(&b.1) && a.2.same(&b.2)
}

fn has_triple(s: &Vec<AlgebraTriple>, t: &AlgebraTriple) -> (r: bool)
    ensures
        r == triples_view(s@).contains(triple_view(*t)),
{
    let ghost sv = triples_view(s@);
    let mut i: usize = 0;
    while i < s.len()
        invariant
            i <= s@.len(),
            sv == triples_view(s@),
            forall|j: int| 0 <= j < i ==> (#[trigger] sv[j]) != triple_view(*t),
        decreases s@.len() - i,
    {
        assert(sv[i as int] == triple_view(s@[i as int]));
        if same_triple(&s[i], t) {
            return true;
        }
        i = i + 1;
    }
    false
}

/// The triples of `a` that are not in `b`.
pub fn difference(a: &Vec<AlgebraTriple>, b: &Vec<AlgebraTriple>) -> (out: Vec<AlgebraTriple>)
    ensures
        triples_view(out@) == without(triples_view(a@), triples_view(b@)),
{
    let ghost av = triples_view(a@);
    let ghost bv = triples_view(b@);
    let mut out: Vec<AlgebraTriple> = Vec::new();
    let mut i: usize = 0;
    assert(av.take(0) =~= Seq::empty());
    assert(triples_view(out@) =~= Seq::empty());
    while i < a.len()
        invariant
            i <= a@.len(),
            av == triples_view(a@),
            bv == triples_view(b@),
            triples_view(out@) == without(av.take(i as int), bv),
        decreases a@.len() - i,
    {
        proof {
            assert(av.take(i + 1).drop_last() =~= av.take(i as int));
            assert(av.take(i + 1).last() == triple_view(a@[i as int]));
        }
        if !has_triple(b, &a[i]) {
            let ghost before = out@;
            out.push((a[i].0.clone(), a[i].1.clone(), a[i].2.clone()));
            assert(triples_view(out@) =~= triples_view(before).push(triple_view(a@[i as int])));
        }
        i = i + 1;
    }
    assert(av.take(av.len() as int) =~= av);
    out
}

/// The triples as quads of a graph.
fn in_named_graph(graph: &str, s: &Vec<AlgebraTriple>) -> (out: Vec<AlgebraQuad>)
    ensures
        quad_set(out@) == triple_set(Some(graph@), s@),
{
    let mut out: Vec<AlgebraQuad> = Vec::new();
    let ghost all = Seq::new(s@.len(), |i: int| in_graph(Some(graph@), s@[i]));
    let mut i: usize = 0;
    while i < s.len()
        invariant
            i <= s@.len(),
            out@.len() == i,
            all == Seq::new(s@.len(), |i: int| in_graph(Some(graph@), s@[i])),
            forall|j: int| 0 <= j < i ==> quad_view(#[trigger] out@[j]) == all[j],
        decreases s@.len() - i,
    {
        out.push((Some(graph.to_owned()), s[i].0.clone(), s[i].1.clone(), s[i].2.clone()));
        i = i + 1;
    }
    assert(quads_view(out@) =~= all);
    out
}

/// A triple as a quad of a graph.
pub open spec fn placed(g: Text, t: TripleView) -> QuadView {
    QuadView { graph: Some(g), subject: t.0, predicate: t.1, object: t.2 }
}

proof fn placed_set(g: Text, s: Seq<AlgebraTriple>)
    ensures
        forall|t: TripleView| #[trigger]
            triple_set(Some(g), s).contains(placed(g, t)) <==> triples_view(s).contains(t),
        forall|q: QuadView| #[trigger]
            triple_set(Some(g), s).contains(q) ==> q == placed(
                g,
                (q.subject, q.predicate, q.object),
            ),
{
    let all = Seq::new(s.len(), |i: int| in_graph(Some(g), s[i]));
    let tv = triples_view(s);
    assert forall|t: TripleView| #[trigger]
        triple_set(Some(g), s).contains(placed(g, t)) <==> tv.contains(t) by {
        if tv.contains(t) {
            let j = choose|j: int| 0 <= j < tv.len() && tv[j] == t;
            assert(all[j] == placed(g, t));
        }
        if all.to_set().contains(placed(g, t)) {
            let j = choose|j: int| 0 <= j < all.len() && all[j] == placed(g, t);
            assert(tv[j] == t);
        }
    }
    assert forall|q: QuadView| #[trigger] triple_set(Some(g), s).contains(q) implies q == placed(
        g,
        (q.subject, q.predicate, q.object),
    ) by {
        let j = choose|j: int| 0 <= j < all.len() && all[j] == q;
        assert(all[j].graph == Some(g));
    }
}

// ── Writing a graph ─────────────────────────────────────────────────────────

/// A set of quads with one graph replaced.
pub open spec fn regraphed(quads: Set<QuadView>, g: Text, want: Seq<AlgebraTriple>) -> Set<
    QuadView,
> {
    quads.difference(graph_part(quads, Some(g))).union(triple_set(Some(g), want))
}

/// Makes a graph hold exactly these triples, in one batch of what differs.
/// Where nothing differs nothing is written.
pub fn write_graph<B: Store>(store: &mut B, graph: &str, want: &Vec<AlgebraTriple>) -> (r: Result<
    (),
    SparqlError,
>)
    ensures
        r is Ok ==> final(store).quads() == regraphed(old(store).quads(), graph@, want@),
        r is Err ==> final(store).quads() == old(store).quads() && !old(store).steady(),
        final(store).steady() == old(store).steady(),
{
    let name: GraphName = Some(graph.to_owned());
    let ghost g = graph@;
    let ghost was = store.quads();
    let current = match store.scan_graph_quads(&name) {
        Ok(t) => t,
        Err(e) => return Err(e),
    };
    let dels = difference(&current, want);
    let adds = difference(want, &current);
    proof {
        without_is_difference(triples_view(current@), triples_view(want@));
        without_is_difference(triples_view(want@), triples_view(current@));
        placed_set(g, current@);
        placed_set(g, want@);
        placed_set(g, dels@);
        placed_set(g, adds@);
        assert(triple_set(Some(g), current@) == graph_part(was, Some(g)));
        let after = was.difference(triple_set(Some(g), dels@)).union(
            triple_set(Some(g), adds@),
        );
        let goal = regraphed(was, g, want@);
        assert forall|q: QuadView| after.contains(q) <==> goal.contains(q) by {
            let t = (q.subject, q.predicate, q.object);
            if q.graph == Some(g) {
                assert(q == placed(g, t));
                assert(was.contains(q) <==> triple_set(Some(g), current@).contains(q)) by {
                    assert(graph_part(was, Some(g)).contains(q) <==> was.contains(q));
                }
                assert(triple_set(Some(g), current@).contains(placed(g, t))
                    <==> triples_view(current@).contains(t));
                assert(triple_set(Some(g), want@).contains(placed(g, t)) <==> triples_view(
                    want@,
                ).contains(t));
                assert(triple_set(Some(g), dels@).contains(placed(g, t)) <==> triples_view(
                    dels@,
                ).contains(t));
                assert(triple_set(Some(g), adds@).contains(placed(g, t)) <==> triples_view(
                    adds@,
                ).contains(t));
            } else {
                assert(!triple_set(Some(g), dels@).contains(q));
                assert(!triple_set(Some(g), adds@).contains(q));
                assert(!triple_set(Some(g), want@).contains(q));
            }
        }
        assert(after =~= goal);
        if dels@.len() == 0 && adds@.len() == 0 {
            assert(after =~= was) by {
                assert forall|q: QuadView| after.contains(q) <==> was.contains(q) by {
                    if triple_set(Some(g), dels@).contains(q) {
                        assert(triples_view(dels@).contains((q.subject, q.predicate, q.object)));
                    }
                    if triple_set(Some(g), adds@).contains(q) {
                        assert(triples_view(adds@).contains((q.subject, q.predicate, q.object)));
                    }
                }
            }
        }
    }
    if dels.len() == 0 && adds.len() == 0 {
        return Ok(());
    }
    store.apply_quads(in_named_graph(graph, &dels), in_named_graph(graph, &adds))
}

/// Writing a graph leaves every other graph as it was.
pub proof fn only_the_graph_changes(quads: Set<QuadView>, g: Text, want: Seq<AlgebraTriple>, q: QuadView)
    requires
        q.graph != Some(g),
    ensures
        regraphed(quads, g, want).contains(q) == quads.contains(q),
{
    placed_set(g, want);
}

/// A graph reads back as it was written.
pub proof fn a_graph_reads_back(quads: Set<QuadView>, g: Text, want: Seq<AlgebraTriple>)
    ensures
        graph_part(regraphed(quads, g, want), Some(g)) == triple_set(Some(g), want),
{
    placed_set(g, want);
    assert(graph_part(regraphed(quads, g, want), Some(g)) =~= triple_set(Some(g), want));
}

/// Writing a graph twice does what writing it once does.
pub proof fn rewriting_changes_nothing(quads: Set<QuadView>, g: Text, want: Seq<AlgebraTriple>)
    ensures
        regraphed(regraphed(quads, g, want), g, want) == regraphed(quads, g, want),
{
    a_graph_reads_back(quads, g, want);
    let once = regraphed(quads, g, want);
    assert(regraphed(once, g, want) =~= once);
}

// ── The manager ─────────────────────────────────────────────────────────────

/// What is to be done next.
#[derive(Debug, PartialEq, Eq)]
pub enum Step {
    /// Nothing: reasoning is off.
    Idle,
    /// The spine is to be closed.
    BuildSpine,
    /// The view is to be derived.
    Derive(ViewSource),
    /// The catalog is to be published; then all is done.
    Publish,
}

/// The catalog, and the closure of the spine.
#[derive(Debug)]
pub struct ViewManager {
    enabled: bool,
    include_spine: bool,
    show_inferred: bool,
    catalog: ViewCatalog,
    /// The closure of the spine, once there is one.
    spine: Option<Vec<AlgebraTriple>>,
}

/// A lexical form as a term: a literal in quotes, a blank node after `_:`, and
/// an IRI otherwise.
pub open spec fn lexical_term(s: Text) -> TermView {
    if starts(s, "\""@) {
        TermView::Literal(s)
    } else if starts(s, "_:"@) {
        TermView::BlankNode(s.skip("_:"@.len() as int))
    } else {
        TermView::Iri(s)
    }
}

fn term_of_lexical(s: &str) -> (r: Term)
    ensures
        r@ == lexical_term(s@),
{
    if starts_with(s, "\"") {
        return Term::Literal(s.to_owned());
    }
    match strip_prefix(s, "_:") {
        Some(label) => Term::BlankNode(label),
        None => Term::Iri(s.to_owned()),
    }
}

pub open spec fn lexical_triples(rows: Seq<Row>) -> Seq<TripleView> {
    Seq::new(
        rows.len(),
        |i: int|
            (lexical_term(rows[i].0), lexical_term(rows[i].1), lexical_term(rows[i].2)),
    )
}

/// What a view adds: its closure without the closure of the spine and without
/// its own data.
pub open spec fn beyond(
    closure: Seq<TripleView>,
    spine: Seq<TripleView>,
    asserted: Seq<TripleView>,
) -> Seq<TripleView> {
    without(without(closure, spine), asserted)
}

impl ViewManager {
    pub closed spec fn on(&self) -> bool {
        self.enabled
    }

    pub closed spec fn with_spine(&self) -> bool {
        self.include_spine
    }

    pub closed spec fn shows_inferred(&self) -> bool {
        self.show_inferred
    }

    pub closed spec fn views(&self) -> ViewCatalog {
        self.catalog
    }

    /// The closure of the spine, where it was built.
    pub closed spec fn closed_spine(&self) -> Option<Seq<TripleView>> {
        match self.spine {
            Some(s) => Some(triples_view(s@)),
            None => None,
        }
    }

    /// Are the two alike but for the catalog?
    pub open spec fn alike(&self, other: &ViewManager) -> bool {
        self.on() == other.on() && self.with_spine() == other.with_spine() && self.shows_inferred()
            == other.shows_inferred() && self.closed_spine() == other.closed_spine()
    }

    pub fn new(cfg: &Reasoning) -> (r: ViewManager)
        ensures
            r.on() == cfg.enabled,
            r.with_spine() == cfg.views.include_spine,
            r.shows_inferred() == cfg.default_dataset_includes_inferred,
            r.closed_spine() is None,
            r.views().valid(),
            r.views().entries().len() == 0,
            r.views().stale(),
            r.views().version() == 0,
            r.views().spine() == texts(cfg.spine@),
            r.views().select() == cfg.selected(),
    {
        ViewManager {
            enabled: cfg.enabled,
            include_spine: cfg.views.include_spine,
            show_inferred: cfg.default_dataset_includes_inferred,
            catalog: ViewCatalog::new(cfg),
            spine: None,
        }
    }

    pub fn catalog(&self) -> (r: &ViewCatalog)
        ensures
            *r == self.views(),
    {
        &self.catalog
    }

    /// Notes the graphs that writes touched.
    pub fn observe(&mut self, touched: &Vec<GraphName>)
        requires
            old(self).views().version() < u64::MAX,
        ensures
            final(self).alike(old(self)),
            final(self).views().entries() == old(self).views().routed(
                touched_view(touched@),
            ),
            final(self).views().spine() == old(self).views().spine(),
            final(self).views().select() == old(self).views().select(),
            final(self).views().version() == if old(self).views().touches_spine(
                touched_view(touched@),
            ) {
                (old(self).views().version() + 1) as u64
            } else {
                old(self).views().version()
            },
            final(self).views().stale() == (old(self).views().stale() || old(
                self,
            ).views().touches_spine(touched_view(touched@))),
            old(self).views().valid() ==> final(self).views().valid(),
    {
        self.catalog.route(touched);
    }

    /// Brings the views in line with the store's graphs, and returns the
    /// states of those that are gone.
    pub fn refresh(&mut self, graphs: &Vec<String>, default_non_empty: bool) -> (r: Vec<ViewState>)
        requires
            old(self).views().valid(),
        ensures
            final(self).alike(old(self)),
            final(self).views().valid(),
            final(self).views().spine() == old(self).views().spine(),
            final(self).views().select() == old(self).views().select(),
            final(self).views().version() == old(self).views().version(),
            final(self).views().stale() == old(self).views().stale(),
            forall|x: ViewRecord| #[trigger]
                final(self).views().entries().contains(x) ==> old(
                    self,
                ).views().entries().contains(x) || (!has_source(
                    old(self).views().entries(),
                    x.source,
                ) && x.state == fresh_state(x.source)),
            forall|s: Option<Text>| #[trigger]
                has_source(final(self).views().entries(), s) <==> old(
                    self,
                ).views().wants(texts(graphs@), default_non_empty, s),
            states_view(r@) == dropped(
                old(self).views().entries(),
                |s: Option<Text>|
                    old(self).views().wants(
                        texts(graphs@),
                        default_non_empty,
                        s,
                    ),
            ),
    {
        self.catalog.refresh_membership(graphs, default_non_empty)
    }

    /// The next step. Stale views come after the spine they are derived with.
    pub fn next_step(&self) -> (r: Step)
        ensures
            match r {
                Step::Idle => !self.on(),
                Step::BuildSpine => self.on() && self.views().stale(),
                Step::Derive(s) => self.on() && !self.views().stale() && exists|i: int|
                    0 <= i < self.views().entries().len() && (
                    #[trigger] self.views().entries()[i]).source == s@
                        && self.views().entries()[i].state.dirty && forall|j: int|
                        0 <= j < i ==> !(#[trigger] self.views().entries()[j]).state.dirty,
                Step::Publish => self.on() && !self.views().stale() && forall|j: int|
                    0 <= j < self.views().entries().len()
                        ==> !(#[trigger] self.views().entries()[j]).state.dirty,
            },
    {
        if !self.enabled {
            return Step::Idle;
        }
        if self.catalog.spine_stale() {
            return Step::BuildSpine;
        }
        match self.catalog.next_dirty() {
            Some(s) => Step::Derive(s),
            None => Step::Publish,
        }
    }

    /// Is the graph to be closed as part of the spine?
    pub fn reads_for_spine(&self, graph: &str) -> (r: bool)
        ensures
            r == (self.with_spine() && self.views().spine_graph(graph@)),
    {
        self.include_spine && self.catalog.is_spine_graph(graph)
    }

    /// Takes over the closure of the spine, and writes what it adds.
    pub fn build_spine<B: Store>(
        &mut self,
        store: &mut B,
        asserted: &Vec<AlgebraTriple>,
        closure: Vec<AlgebraTriple>,
    ) -> (r: Result<(), SparqlError>)
        ensures
            r is Ok ==> exists|want: Seq<AlgebraTriple>| #[trigger]
                triples_view(want) == without(triples_view(closure@), triples_view(asserted@))
                    && final(store).quads() == regraphed(
                    old(store).quads(),
                    SPINE_CLOSURE_GRAPH@,
                    want,
                ),
            r is Ok ==> final(self).closed_spine() == Some(triples_view(closure@))
                && !final(self).views().stale(),
            r is Err ==> final(store).quads() == old(store).quads() && !old(store).steady()
                && *final(self) == *old(self),
            final(store).steady() == old(store).steady(),
            final(self).on() == old(self).on(),
            final(self).with_spine() == old(self).with_spine(),
            final(self).shows_inferred() == old(self).shows_inferred(),
            final(self).views().entries() == old(self).views().entries(),
            final(self).views().version() == old(self).views().version(),
    {
        let want = difference(&closure, asserted);
        match write_graph(store, SPINE_CLOSURE_GRAPH, &want) {
            Ok(_) => {},
            Err(e) => return Err(e),
        }
        self.spine = Some(closure);
        self.catalog.mark_spine_fresh();
        Ok(())
    }

    /// Takes over the closure of a view and the spine, and writes what the
    /// view adds.
    pub fn derive_view<B: Store>(
        &mut self,
        store: &mut B,
        src: &ViewSource,
        asserted: &Vec<AlgebraTriple>,
        closure: &Vec<AlgebraTriple>,
        consistent: bool,
    ) -> (r: Result<(), SparqlError>)
        ensures
            old(self).closed_spine() is None ==> r is Err && r->Err_0@ == ErrorView::Executor(
                "derive_view before the spine template was built"@,
            ),
            r is Ok ==> old(self).closed_spine() is Some && exists|want: Seq<AlgebraTriple>|
                #[trigger] triples_view(want) == beyond(
                    triples_view(closure@),
                    old(self).closed_spine()->0,
                    triples_view(asserted@),
                ) && final(store).quads() == regraphed(
                    old(store).quads(),
                    inferred_iri(src@),
                    want,
                ),
            r is Ok ==> final(self).views().entries() == Seq::new(
                old(self).views().entries().len(),
                |i: int|
                    if old(self).views().entries()[i].source == src@ {
                        derived_record(
                            old(self).views().entries()[i],
                            old(self).views().version(),
                            consistent,
                        )
                    } else {
                        old(self).views().entries()[i]
                    },
            ),
            r is Err ==> final(store).quads() == old(store).quads() && *final(self) == *old(self)
                && (old(self).closed_spine() is None || !old(store).steady()),
            final(store).steady() == old(store).steady(),
            final(self).alike(old(self)),
            old(self).views().valid() ==> final(self).views().valid(),
    {
        let added = match &self.spine {
            Some(spine) => difference(closure, spine),
            None => {
                return Err(
                    SparqlError::Executor(
                        "derive_view before the spine template was built".to_owned(),
                    ),
                );
            },
        };
        let want = difference(&added, asserted);
        let graph = src.inferred_graph();
        match write_graph(store, graph.as_str(), &want) {
            Ok(_) => {},
            Err(e) => return Err(e),
        }
        self.catalog.mark_derived(src, consistent);
        Ok(())
    }

    /// Writes the catalog to its graph.
    pub fn publish<B: Store>(&self, store: &mut B) -> (r: Result<(), SparqlError>)
        ensures
            r is Ok ==> exists|want: Seq<AlgebraTriple>| #[trigger]
                triples_view(want) == lexical_triples(
                    catalog_rows(self.views().entries(), self.views().version()),
                ) && final(store).quads() == regraphed(old(store).quads(), VIEWS_GRAPH@, want),
            r is Err ==> final(store).quads() == old(store).quads() && !old(store).steady(),
            final(store).steady() == old(store).steady(),
    {
        let rows = self.catalog.catalog_triples();
        let ghost rv = rows_view(rows@);
        let mut want: Vec<AlgebraTriple> = Vec::new();
        let mut i: usize = 0;
        while i < rows.len()
            invariant
                i <= rows@.len(),
                want@.len() == i,
                rv == rows_view(rows@),
                forall|j: int|
                    0 <= j < i ==> triple_view(#[trigger] want@[j]) == lexical_triples(rv)[j],
            decreases rows@.len() - i,
        {
            assert(rv[i as int] == (rows@[i as int].0@, rows@[i as int].1@, rows@[i as int].2@));
            want.push(
                (
                    term_of_lexical(rows[i].0.as_str()),
                    term_of_lexical(rows[i].1.as_str()),
                    term_of_lexical(rows[i].2.as_str()),
                ),
            );
            i = i + 1;
        }
        assert(triples_view(want@) =~= lexical_triples(rv));
        write_graph(store, VIEWS_GRAPH, &want)
    }

    /// The graphs a query over the default dataset is shown beside the data,
    /// once the catalog is published: the inferred ones, where they are to be
    /// shown.
    pub fn visible(&self) -> (out: NameSet)
        ensures
            out@ == (if self.shows_inferred() {
                self.views().visible_graphs()
            } else {
                Set::empty()
            }),
    {
        if self.show_inferred {
            self.catalog.visible_inferred()
        } else {
            NameSet::new()
        }
    }

    /// Empties the graph of a view that is gone.
    pub fn clear_derived<B: Store>(&self, store: &mut B, graph: &str) -> (r: Result<
        (),
        SparqlError,
    >)
        ensures
            r is Ok ==> final(store).quads() == old(store).quads().difference(
                graph_part(old(store).quads(), Some(graph@)),
            ),
            r is Err ==> final(store).quads() == old(store).quads() && !old(store).steady(),
            final(store).steady() == old(store).steady(),
    {
        let none: Vec<AlgebraTriple> = Vec::new();
        let ghost was = store.quads();
        let r = write_graph(store, graph, &none);
        proof {
            assert(triple_set(Some(graph@), none@) =~= Set::empty());
            assert(regraphed(was, graph@, none@) =~= was.difference(
                graph_part(was, Some(graph@)),
            ));
        }
        r
    }
}

/// Deriving a view changes no graph but its inferred graph, which is reserved:
/// a data graph holds what was written to it.
pub proof fn deriving_spares_the_data(
    quads: Set<QuadView>,
    source: Option<Text>,
    want: Seq<AlgebraTriple>,
    q: QuadView,
)
    requires
        q.graph matches Some(iri) ==> !reserved(iri),
    ensures
        regraphed(quads, inferred_iri(source), want).contains(q) == quads.contains(q),
{
    minting_is_reserved(source);
    only_the_graph_changes(quads, inferred_iri(source), want, q);
}

}
