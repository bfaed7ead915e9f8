//! The view catalog: which views there are, and which of them are stale.
//!
//! The catalog is rebuilt from the store's graphs. A view it has not seen
//! before is stale, so nothing has to be recovered after a restart.

use crate::algebra::{clone_strings, texts};
use crate::collections::NameSet;
use crate::exec::scope::reserved;
use crate::exec::store::{graph_view, GraphName};
use crate::reasoning::{
    inferred_iri, is_reasoning_output, minting_is_apart, minting_is_injective, pattern_matches, select_patterns, Reasoning, ViewSource, NS,
    SPINE_CLOSURE_GRAPH, VIEWS_GRAPH,
};
use crate::text::{
    compare_text, decimal, decimal_text, same_text, starts, text_order, text_order_laws, Order,
    Text,
};
use std::mem::swap;
use vstd::prelude::*;
use vstd::string::*;

verus! {

/// What is known of a view.
#[derive(Debug, PartialEq, Eq)]
pub struct ViewState {
    /// Where it keeps what it derives.
    pub inferred_graph: String,
    /// The version of the spine it was derived with.
    pub derived_at_spine_version: u64,
    /// Is it to be derived again?
    pub dirty: bool,
    /// Did it derive no contradiction?
    pub consistent: bool,
}

#[allow(inconsistent_fields)]
#[verifier::ext_equal]
pub struct StateRecord {
    pub inferred_graph: Text,
    pub derived_at_spine_version: u64,
    pub dirty: bool,
    pub consistent: bool,
}

impl ViewState {
    pub open spec fn view(&self) -> StateRecord {
        StateRecord {
            inferred_graph: self.inferred_graph@,
            derived_at_spine_version: self.derived_at_spine_version,
            dirty: self.dirty,
            consistent: self.consistent,
        }
    }
}

pub open spec fn states_view(s: Seq<ViewState>) -> Seq<StateRecord> {
    Seq::new(s.len(), |i: int| s[i]@)
}

/// A view of the catalog.
#[derive(Debug, PartialEq, Eq)]
pub struct CatalogView {
    pub source: ViewSource,
    pub state: ViewState,
}

#[allow(inconsistent_fields)]
#[verifier::ext_equal]
pub struct ViewRecord {
    pub source: Option<Text>,
    pub state: StateRecord,
}

impl CatalogView {
    pub open spec fn view(&self) -> ViewRecord {
        ViewRecord { source: self.source@, state: self.state@ }
    }
}

pub open spec fn records(s: Seq<CatalogView>) -> Seq<ViewRecord> {
    Seq::new(s.len(), |i: int| s[i]@)
}

// ── Order ───────────────────────────────────────────────────────────────────

/// Does a source come before another? The default graph is first, and the
/// others follow by their IRI.
pub open spec fn source_before(a: Option<Text>, b: Option<Text>) -> bool {
    match (a, b) {
        (None, Some(_)) => true,
        (Some(x), Some(y)) => text_order(x, y) == Order::Less,
        _ => false,
    }
}

/// Are the views in order, each once?
pub open spec fn in_order(e: Seq<ViewRecord>) -> bool {
    forall|i: int, j: int|
        0 <= i < j < e.len() ==> source_before((#[trigger] e[i]).source, (#[trigger] e[j]).source)
}

/// Is the inferred graph of every view the one minted from its source?
pub open spec fn minted(e: Seq<ViewRecord>) -> bool {
    forall|i: int|
        0 <= i < e.len() ==> (#[trigger] e[i]).state.inferred_graph == inferred_iri(e[i].source)
}

/// Is there a view of the source?
pub open spec fn has_source(e: Seq<ViewRecord>, s: Option<Text>) -> bool {
    exists|i: int| 0 <= i < e.len() && (#[trigger] e[i]).source == s
}

proof fn source_order_laws(a: Option<Text>, b: Option<Text>, c: Option<Text>)
    ensures
        a == b || source_before(a, b) || source_before(b, a),
        !(source_before(a, b) && source_before(b, a)),
        !source_before(a, a),
        source_before(a, b) && source_before(b, c) ==> source_before(a, c),
{
    if let (Some(x), Some(y)) = (a, b) {
        text_order_laws(x, y, y);
        text_order_laws(y, x, x);
        text_order_laws(x, x, x);
        if let Some(z) = c {
            text_order_laws(x, y, z);
        }
    }
    if let Some(x) = a {
        text_order_laws(x, x, x);
    }
}

fn is_before(a: &ViewSource, b: &ViewSource) -> (r: bool)
    ensures
        r == source_before(a@, b@),
{
    match (a, b) {
        (ViewSource::Default, ViewSource::Named(_)) => true,
        (ViewSource::Named(x), ViewSource::Named(y)) => match compare_text(x.as_str(), y.as_str()) {
            Order::Less => true,
            _ => false,
        },
        _ => false,
    }
}

fn same_source(a: &ViewSource, b: &ViewSource) -> (r: bool)
    ensures
        r == (a@ == b@),
{
    match (a, b) {
        (ViewSource::Default, ViewSource::Default) => true,
        (ViewSource::Named(x), ViewSource::Named(y)) => same_text(x.as_str(), y.as_str()),
        _ => false,
    }
}

fn has_view(views: &Vec<CatalogView>, s: &ViewSource) -> (r: bool)
    ensures
        r == has_source(records(views@), s@),
{
    let mut i: usize = 0;
    while i < views.len()
        invariant
            i <= views@.len(),
            forall|j: int| 0 <= j < i ==> (#[trigger] records(views@)[j]).source != s@,
        decreases views@.len() - i,
    {
        assert(records(views@)[i as int] == views@[i as int]@);
        if same_source(&views[i].source, s) {
            return true;
        }
        i = i + 1;
    }
    false
}

/// Puts a view in its place.
fn insert_view(views: &mut Vec<CatalogView>, v: CatalogView)
    requires
        in_order(records(old(views)@)),
        !has_source(records(old(views)@), v@.source),
    ensures
        in_order(records(final(views)@)),
        forall|x: ViewRecord| #[trigger]
            records(final(views)@).contains(x) <==> records(old(views)@).contains(x) || x == v@,
{
    let ghost e = records(views@);
    let ghost vv = v@;
    let mut i: usize = 0;
    while i < views.len() && is_before(&views[i].source, &v.source)
        invariant
            i <= views@.len(),
            e == records(views@),
            v@ == vv,
            forall|j: int| 0 <= j < i ==> source_before((#[trigger] e[j]).source, vv.source),
        decreases views@.len() - i,
    {
        assert(e[i as int] == views@[i as int]@);
        i = i + 1;
    }
    proof {
        if i < e.len() {
            assert(e[i as int] == views@[i as int]@);
            source_order_laws(vv.source, e[i as int].source, None);
            assert(e[i as int].source != vv.source);
            assert(source_before(vv.source, e[i as int].source));
        }
    }
    views.insert(i, v);
    proof {
        let f = records(views@);
        let k = i as int;
        assert(f =~= e.insert(k, vv));
        assert forall|a: int, b: int| 0 <= a < b < f.len() implies source_before(
            (#[trigger] f[a]).source,
            (#[trigger] f[b]).source,
        ) by {
            if a < k && b > k {
                assert(source_before(e[a].source, e[b - 1].source));
            } else if a > k {
                assert(source_before(e[a - 1].source, e[b - 1].source));
            } else if a == k {
                if b - 1 > k {
                    source_order_laws(vv.source, e[k].source, e[b - 1].source);
                    assert(source_before(e[k].source, e[b - 1].source));
                }
            } else if b < k {
                assert(source_before(e[a].source, e[b].source));
            }
        }
        assert forall|x: ViewRecord| #[trigger] f.contains(x) <==> e.contains(x) || x == vv by {
            if e.contains(x) {
                let j = choose|j: int| 0 <= j < e.len() && e[j] == x;
                if j < k {
                    assert(f[j] == x);
                } else {
                    assert(f[j + 1] == x);
                }
            }
            if x == vv {
                assert(f[k] == x);
            }
            if f.contains(x) {
                let j = choose|j: int| 0 <= j < f.len() && f[j] == x;
                if j < k {
                    assert(e[j] == x);
                } else if j > k {
                    assert(e[j - 1] == x);
                }
            }
        }
    }
}

// ── The catalog ─────────────────────────────────────────────────────────────

/// The views, and the version of the spine.
#[derive(Debug)]
pub struct ViewCatalog {
    spine_patterns: Vec<String>,
    select_patterns: Vec<String>,
    spine_version: u64,
    spine_stale: bool,
    views: Vec<CatalogView>,
}

/// Does one of the patterns select the graph?
pub open spec fn any_selects(patterns: Seq<Text>, iri: Text) -> bool {
    exists|i: int| 0 <= i < patterns.len() && starts(iri, #[trigger] patterns[i])
}

fn any_matches(patterns: &Vec<String>, iri: &str) -> (r: bool)
    ensures
        r == any_selects(texts(patterns@), iri@),
{
    let ghost pv = texts(patterns@);
    let mut i: usize = 0;
    while i < patterns.len()
        invariant
            i <= patterns@.len(),
            pv == texts(patterns@),
            forall|j: int| 0 <= j < i ==> !starts(iri@, #[trigger] pv[j]),
        decreases patterns@.len() - i,
    {
        assert(pv[i as int] == patterns@[i as int]@);
        if pattern_matches(patterns[i].as_str(), iri) {
            return true;
        }
        i = i + 1;
    }
    false
}

/// The state of a view that was never derived. It is stale, and behind every
/// version of the spine that a change of the spine made.
pub open spec fn fresh_state(source: Option<Text>) -> StateRecord {
    StateRecord {
        inferred_graph: inferred_iri(source),
        derived_at_spine_version: 0,
        dirty: true,
        consistent: true,
    }
}

/// The states of the views that are not wanted any more, in order.
pub open spec fn dropped(e: Seq<ViewRecord>, wanted: spec_fn(Option<Text>) -> bool) -> Seq<
    StateRecord,
>
    decreases e.len(),
{
    if e.len() == 0 {
        Seq::empty()
    } else if wanted(e.last().source) {
        dropped(e.drop_last(), wanted)
    } else {
        dropped(e.drop_last(), wanted).push(e.last().state)
    }
}

/// The number of stale views.
pub open spec fn dirty_views(e: Seq<ViewRecord>) -> nat
    decreases e.len(),
{
    if e.len() == 0 {
        0
    } else {
        dirty_views(e.drop_last()) + if e.last().state.dirty {
            1nat
        } else {
            0nat
        }
    }
}

/// The graphs of a write.
pub open spec fn touched_view(s: Seq<GraphName>) -> Seq<Option<Text>> {
    Seq::new(s.len(), |i: int| graph_view(s[i]))
}

impl ViewCatalog {
    /// The patterns of the spine.
    pub closed spec fn spine(&self) -> Seq<Text> {
        texts(self.spine_patterns@)
    }

    /// The patterns of the views.
    pub closed spec fn select(&self) -> Seq<Text> {
        texts(self.select_patterns@)
    }

    pub closed spec fn version(&self) -> u64 {
        self.spine_version
    }

    pub closed spec fn stale(&self) -> bool {
        self.spine_stale
    }

    /// The views, in order.
    pub closed spec fn entries(&self) -> Seq<ViewRecord> {
        records(self.views@)
    }

    /// Are the views in order, each once, and does each keep what it derives
    /// in the graph that is minted from its source?
    pub open spec fn valid(&self) -> bool {
        in_order(self.entries()) && minted(self.entries())
    }

    /// The graph of the spine's closure and the inferred graphs.
    pub open spec fn visible_graphs(&self) -> Set<Text> {
        Set::new(
            |g: Text|
                g == SPINE_CLOSURE_GRAPH@ || exists|i: int|
                    0 <= i < self.entries().len() && (
                    #[trigger] self.entries()[i]).state.inferred_graph == g,
        )
    }

    /// Is the graph of the shared vocabulary?
    pub open spec fn spine_graph(&self, iri: Text) -> bool {
        any_selects(self.spine(), iri)
    }

    /// Does the graph get a view?
    pub open spec fn selected(&self, iri: Text) -> bool {
        !self.spine_graph(iri) && !reserved(iri) && (self.select().len() == 0 || any_selects(
            self.select(),
            iri,
        ))
    }

    /// Does a write to the graph make its own view stale?
    pub open spec fn data_graph(&self, g: Option<Text>) -> bool {
        g matches Some(iri) ==> !reserved(iri) && !self.spine_graph(iri)
    }

    /// Is one of the graphs of the spine?
    pub open spec fn touches_spine(&self, touched: Seq<Option<Text>>) -> bool {
        exists|i: int|
            0 <= i < touched.len() && ((#[trigger] touched[i]) matches Some(iri) && !reserved(iri)
                && self.spine_graph(iri))
    }

    /// The views after writes to graphs: a data graph makes its own view
    /// stale, the spine makes all of them stale, and a reserved graph none.
    pub open spec fn routed(&self, touched: Seq<Option<Text>>) -> Seq<ViewRecord> {
        let all = self.touches_spine(touched);
        Seq::new(
            self.entries().len(),
            |i: int|
                {
                    let e = self.entries()[i];
                    if all || (touched.contains(e.source) && self.data_graph(e.source)) {
                        stale_record(e)
                    } else {
                        e
                    }
                },
        )
    }

    /// A catalog without views.
    pub fn new(cfg: &Reasoning) -> (r: ViewCatalog)
        ensures
            r.valid(),
            r.spine() == texts(cfg.spine@),
            r.select() == cfg.selected(),
            r.version() == 0,
            r.stale(),
            r.entries() == Seq::<ViewRecord>::empty(),
    {
        let r = ViewCatalog {
            spine_patterns: clone_strings(&cfg.spine),
            select_patterns: select_patterns(cfg),
            spine_version: 0,
            spine_stale: true,
            views: Vec::new(),
        };
        assert(r.entries() =~= Seq::<ViewRecord>::empty());
        r
    }

    pub fn is_spine_graph(&self, iri: &str) -> (r: bool)
        ensures
            r == self.spine_graph(iri@),
    {
        any_matches(&self.spine_patterns, iri)
    }

    /// Does the graph get a view? One of the spine does not, nor a reserved
    /// one.
    pub fn selects(&self, iri: &str) -> (r: bool)
        ensures
            r == self.selected(iri@),
    {
        if self.is_spine_graph(iri) || is_reasoning_output(iri) {
            return false;
        }
        self.select_patterns.len() == 0 || any_matches(&self.select_patterns, iri)
    }

    /// Is a view of the source wanted, for these graphs?
    pub open spec fn wants(
        &self,
        graphs: Seq<Text>,
        default_non_empty: bool,
        source: Option<Text>,
    ) -> bool {
        match source {
            None => default_non_empty,
            Some(iri) => graphs.contains(iri) && self.selected(iri),
        }
    }

    fn is_wanted(&self, graphs: &Vec<String>, default_non_empty: bool, source: &ViewSource) -> (r:
        bool)
        ensures
            r == self.wants(texts(graphs@), default_non_empty, source@),
    {
        match source {
            ViewSource::Default => default_non_empty,
            ViewSource::Named(iri) => {
                if !self.selects(iri.as_str()) {
                    return false;
                }
                let ghost gv = texts(graphs@);
                let mut i: usize = 0;
                while i < graphs.len()
                    invariant
                        i <= graphs@.len(),
                        gv == texts(graphs@),
                        self.selected(iri@),
                        source@ == Some(iri@),
                        forall|j: int| 0 <= j < i ==> (#[trigger] gv[j]) != iri@,
                    decreases graphs@.len() - i,
                {
                    assert(gv[i as int] == graphs@[i as int]@);
                    if same_text(graphs[i].as_str(), iri.as_str()) {
                        return true;
                    }
                    i = i + 1;
                }
                false
            },
        }
    }

    /// Brings the views in line with the store's graphs. A new view is stale;
    /// a view that stays keeps its state; the states of the others are
    /// returned.
    pub fn refresh_membership(&mut self, graphs: &Vec<String>, default_non_empty: bool) -> (r: Vec<
        ViewState,
    >)
        requires
            old(self).valid(),
        ensures
            final(self).valid(),
            final(self).spine() == old(self).spine(),
            final(self).select() == old(self).select(),
            final(self).version() == old(self).version(),
            final(self).stale() == old(self).stale(),
            forall|s: Option<Text>| #[trigger]
                has_source(final(self).entries(), s) <==> old(self).wants(
                    texts(graphs@),
                    default_non_empty,
                    s,
                ),
            forall|x: ViewRecord| #[trigger]
                final(self).entries().contains(x) ==> old(self).entries().contains(x) || (
                !has_source(old(self).entries(), x.source) && x.state == fresh_state(x.source)),
            old(self).version() >= 1 ==> forall|x: ViewRecord| #[trigger]
                final(self).entries().contains(x) && !has_source(old(self).entries(), x.source)
                    ==> x.state.derived_at_spine_version < final(self).version(),
            states_view(r@) == dropped(
                old(self).entries(),
                |s: Option<Text>| old(self).wants(texts(graphs@), default_non_empty, s),
            ),
    {
        let ghost was = self.entries();
        let ghost gv = texts(graphs@);
        let ghost wanted = |s: Option<Text>| old(self).wants(gv, default_non_empty, s);
        let mut before: Vec<CatalogView> = Vec::new();
        swap(&mut before, &mut self.views);
        let mut kept: Vec<CatalogView> = Vec::new();
        let mut gone: Vec<ViewState> = Vec::new();
        assert(records(kept@) =~= Seq::empty());
        assert(states_view(gone@) =~= Seq::empty());
        assert(was.take(0) =~= Seq::empty());
        for v in it: before
            invariant
                was == records(it.seq()),
                in_order(was),
                gv == texts(graphs@),
                wanted == (|s: Option<Text>| old(self).wants(gv, default_non_empty, s)),
                self.spine() == old(self).spine(),
                self.select() == old(self).select(),
                self.version() == old(self).version(),
                self.stale() == old(self).stale(),
                in_order(records(kept@)),
                forall|x: ViewRecord| #[trigger]
                    records(kept@).contains(x) <==> was.take(it.index() as int).contains(x)
                        && wanted(x.source),
                states_view(gone@) == dropped(was.take(it.index() as int), wanted),
        {
            let ghost k = it.index() as int;
            let ghost vv = v@;
            let ghost so_far = was.take(k);
            proof {
                assert(was[k] == vv);
                assert(was.take(k + 1) =~= so_far.push(vv));
                assert(was.take(k + 1).drop_last() =~= so_far);
                assert forall|x: ViewRecord| was.take(k + 1).contains(x) <==> so_far.contains(x)
                    || x == vv by {
                    if so_far.contains(x) {
                        let j = choose|j: int| 0 <= j < so_far.len() && so_far[j] == x;
                        assert(was.take(k + 1)[j] == x);
                    }
                    if x == vv {
                        assert(was.take(k + 1)[k] == x);
                    }
                }
                assert forall|j: int| 0 <= j < records(kept@).len() implies source_before(
                    (#[trigger] records(kept@)[j]).source,
                    vv.source,
                ) by {
                    let x = records(kept@)[j];
                    assert(records(kept@).contains(x));
                    let m = choose|m: int| 0 <= m < so_far.len() && so_far[m] == x;
                    assert(source_before(was[m].source, was[k].source));
                }
            }
            let stays = self.is_wanted(graphs, default_non_empty, &v.source);
            proof {
                assert(self.wants(gv, default_non_empty, vv.source) == old(self).wants(
                    gv,
                    default_non_empty,
                    vv.source,
                ));
                assert(stays == wanted(vv.source));
            }
            if stays {
                let ghost held = kept@;
                kept.push(v);
                proof {
                    assert(records(kept@) =~= records(held).push(vv));
                    assert forall|x: ViewRecord| #[trigger]
                        records(kept@).contains(x) <==> records(held).contains(x) || x == vv by {
                        if records(held).contains(x) {
                            let j = choose|j: int|
                                0 <= j < records(held).len() && records(held)[j] == x;
                            assert(records(kept@)[j] == x);
                        }
                        if x == vv {
                            assert(records(kept@)[records(held).len() as int] == x);
                        }
                    }
                    assert forall|x: ViewRecord| #[trigger]
                        records(kept@).contains(x) <==> was.take(k + 1).contains(x) && wanted(
                        x.source,
                    ) by {
                        assert(records(held).contains(x) <==> so_far.contains(x) && wanted(
                            x.source,
                        ));
                    }
                }
            } else {
                let ghost held = gone@;
                gone.push(v.state);
                assert(states_view(gone@) =~= states_view(held).push(vv.state));
            }
        }
        assert(was.take(was.len() as int) =~= was);
        self.views = kept;
        assert forall|i: int| 0 <= i < self.entries().len() implies (
        #[trigger] self.entries()[i]).state.inferred_graph == inferred_iri(
            self.entries()[i].source,
        ) by {
            let x = self.entries()[i];
            assert(self.entries().contains(x));
            let j = choose|j: int| 0 <= j < was.len() && was[j] == x;
            assert(was[j].state.inferred_graph == inferred_iri(was[j].source));
        }
        let mut i: usize = 0;
        while i < graphs.len()
            invariant
                i <= graphs@.len(),
                gv == texts(graphs@),
                was == old(self).entries(),
                self.spine() == old(self).spine(),
                self.select() == old(self).select(),
                self.version() == old(self).version(),
                self.stale() == old(self).stale(),
                self.valid(),
                forall|x: ViewRecord| #[trigger]
                    self.entries().contains(x) ==> old(self).wants(gv, default_non_empty, x.source)
                        && (was.contains(x) || (!has_source(was, x.source) && x.state
                        == fresh_state(x.source))),
                forall|x: ViewRecord| #[trigger]
                    was.contains(x) && old(self).wants(gv, default_non_empty, x.source)
                        ==> self.entries().contains(x),
                forall|j: int|
                    0 <= j < i && old(self).selected(#[trigger] gv[j]) ==> has_source(
                        self.entries(),
                        Some(gv[j]),
                    ),
            decreases graphs@.len() - i,
        {
            assert(gv[i as int] == graphs@[i as int]@);
            if self.selects(graphs[i].as_str()) {
                let ghost before_add = self.entries();
                let source = ViewSource::Named(graphs[i].clone());
                let ghost sv = source@;
                self.add_view(source, Ghost(was));
                proof {
                    assert(gv.contains(gv[i as int]));
                    assert forall|j: int|
                        0 <= j < i + 1 && old(self).selected(#[trigger] gv[j]) implies has_source(
                        self.entries(),
                        Some(gv[j]),
                    ) by {
                        if j < i {
                            let m = choose|m: int|
                                0 <= m < before_add.len() && (#[trigger] before_add[m]).source
                                    == Some(gv[j]);
                            assert(before_add.contains(before_add[m]));
                            assert(self.entries().contains(before_add[m]));
                        }
                    }
                    assert forall|x: ViewRecord| #[trigger]
                        was.contains(x) && old(self).wants(
                            gv,
                            default_non_empty,
                            x.source,
                        ) implies self.entries().contains(x) by {
                        assert(before_add.contains(x));
                    }
                }
            }
            i = i + 1;
        }
        if default_non_empty {
            let ghost before_add = self.entries();
            self.add_view(ViewSource::Default, Ghost(was));
            proof {
                assert forall|j: int|
                    0 <= j < gv.len() && old(self).selected(#[trigger] gv[j]) implies has_source(
                    self.entries(),
                    Some(gv[j]),
                ) by {
                    let m = choose|m: int|
                        0 <= m < before_add.len() && (#[trigger] before_add[m]).source == Some(
                            gv[j],
                        );
                    assert(before_add.contains(before_add[m]));
                    assert(self.entries().contains(before_add[m]));
                }
            }
        }
        proof {
            assert forall|s: Option<Text>| #[trigger]
                has_source(self.entries(), s) <==> old(self).wants(gv, default_non_empty, s) by {
                if has_source(self.entries(), s) {
                    let m = choose|m: int|
                        0 <= m < self.entries().len() && (#[trigger] self.entries()[m]).source == s;
                    assert(self.entries().contains(self.entries()[m]));
                }
                if old(self).wants(gv, default_non_empty, s) {
                    if let Some(iri) = s {
                        let j = choose|j: int| 0 <= j < gv.len() && gv[j] == iri;
                        assert(old(self).selected(gv[j]));
                    }
                }
            }
        }
        gone
    }

    /// Adds a view that was never derived, unless there is one.
    fn add_view(&mut self, source: ViewSource, Ghost(was): Ghost<Seq<ViewRecord>>)
        requires
            old(self).valid(),
            forall|x: ViewRecord| #[trigger]
                was.contains(x) && x.source == source@ ==> old(self).entries().contains(x),
        ensures
            final(self).valid(),
            final(self).spine() == old(self).spine(),
            final(self).select() == old(self).select(),
            final(self).version() == old(self).version(),
            final(self).stale() == old(self).stale(),
            has_source(final(self).entries(), source@),
            forall|x: ViewRecord| #[trigger]
                old(self).entries().contains(x) ==> final(self).entries().contains(x),
            forall|x: ViewRecord| #[trigger]
                final(self).entries().contains(x) ==> old(self).entries().contains(x) || (x.source
                    == source@ && !has_source(was, source@) && x.state == fresh_state(source@)),
    {
        if has_view(&self.views, &source) {
            return;
        }
        let ghost sv = source@;
        let state = ViewState {
            inferred_graph: source.inferred_graph(),
            derived_at_spine_version: 0,
            dirty: true,
            consistent: true,
        };
        let v = CatalogView { source, state };
        let ghost vv = v@;
        insert_view(&mut self.views, v);
        proof {
            let m = choose|m: int| 0 <= m < self.entries().len() && self.entries()[m] == vv;
            assert(self.entries().contains(vv));
            assert(self.entries()[m].source == sv);
            if has_source(was, sv) {
                let k = choose|k: int| 0 <= k < was.len() && (#[trigger] was[k]).source == sv;
                assert(was.contains(was[k]));
                let x = was[k];
                assert(old(self).entries().contains(x));
                let j = choose|j: int|
                    0 <= j < old(self).entries().len() && old(self).entries()[j] == x;
                assert(has_source(old(self).entries(), sv));
            }
            assert forall|i: int| 0 <= i < self.entries().len() implies (
            #[trigger] self.entries()[i]).state.inferred_graph == inferred_iri(
                self.entries()[i].source,
            ) by {
                let x = self.entries()[i];
                assert(self.entries().contains(x));
                if x != vv {
                    let j = choose|j: int|
                        0 <= j < old(self).entries().len() && old(self).entries()[j] == x;
                    assert(old(self).entries()[j].state.inferred_graph == inferred_iri(x.source));
                }
            }
        }
    }

    /// Marks the view of a source stale.
    fn mark_dirty(&mut self, source: &ViewSource)
        ensures
            final(self).spine() == old(self).spine(),
            final(self).select() == old(self).select(),
            final(self).version() == old(self).version(),
            final(self).stale() == old(self).stale(),
            final(self).entries() == Seq::new(
                old(self).entries().len(),
                |i: int|
                    if old(self).entries()[i].source == source@ {
                        stale_record(old(self).entries()[i])
                    } else {
                        old(self).entries()[i]
                    },
            ),
    {
        let ghost was = self.entries();
        let mut i: usize = 0;
        while i < self.views.len()
            invariant
                i <= self.views@.len(),
                was == old(self).entries(),
                self.views@.len() == was.len(),
                self.spine() == old(self).spine(),
                self.select() == old(self).select(),
                self.version() == old(self).version(),
                self.stale() == old(self).stale(),
                forall|j: int|
                    0 <= j < was.len() ==> (#[trigger] self.views@[j])@ == if j < i && was[j].source
                        == source@ {
                        stale_record(was[j])
                    } else {
                        was[j]
                    },
            decreases self.views@.len() - i,
        {
            assert(self.views@[i as int]@ == was[i as int]);
            if same_source(&self.views[i].source, source) {
                self.views[i].state.dirty = true;
            }
            i = i + 1;
        }
        assert(self.entries() =~= Seq::new(
            was.len(),
            |i: int|
                if was[i].source == source@ {
                    stale_record(was[i])
                } else {
                    was[i]
                },
        ));
    }

    /// Marks every view stale.
    fn mark_all_dirty(&mut self)
        ensures
            final(self).spine() == old(self).spine(),
            final(self).select() == old(self).select(),
            final(self).version() == old(self).version(),
            final(self).stale() == old(self).stale(),
            final(self).entries() == Seq::new(
                old(self).entries().len(),
                |i: int| stale_record(old(self).entries()[i]),
            ),
    {
        let ghost was = self.entries();
        let mut i: usize = 0;
        while i < self.views.len()
            invariant
                i <= self.views@.len(),
                was == old(self).entries(),
                self.views@.len() == was.len(),
                self.spine() == old(self).spine(),
                self.select() == old(self).select(),
                self.version() == old(self).version(),
                self.stale() == old(self).stale(),
                forall|j: int|
                    0 <= j < was.len() ==> (#[trigger] self.views@[j])@ == if j < i {
                        stale_record(was[j])
                    } else {
                        was[j]
                    },
            decreases self.views@.len() - i,
        {
            assert(self.views@[i as int]@ == was[i as int]);
            self.views[i].state.dirty = true;
            i = i + 1;
        }
        assert(self.entries() =~= Seq::new(was.len(), |i: int| stale_record(was[i])));
    }

    /// Notes that the spine changed: every view is stale.
    pub fn bump_spine(&mut self)
        requires
            old(self).version() < u64::MAX,
        ensures
            final(self).spine() == old(self).spine(),
            final(self).select() == old(self).select(),
            final(self).version() == old(self).version() + 1,
            final(self).stale(),
            final(self).entries() == Seq::new(
                old(self).entries().len(),
                |i: int| stale_record(old(self).entries()[i]),
            ),
            old(self).valid() ==> final(self).valid(),
    {
        self.spine_version = self.spine_version + 1;
        self.spine_stale = true;
        let ghost was = self.entries();
        self.mark_all_dirty();
        proof {
            if old(self).valid() {
                still_minted(was, self.entries());
            }
        }
    }

    /// Notes writes to graphs.
    pub fn route(&mut self, touched: &Vec<GraphName>)
        requires
            old(self).version() < u64::MAX,
        ensures
            final(self).spine() == old(self).spine(),
            final(self).select() == old(self).select(),
            final(self).version() == if old(self).touches_spine(touched_view(touched@)) {
                (old(self).version() + 1) as u64
            } else {
                old(self).version()
            },
            final(self).stale() == (old(self).stale() || old(self).touches_spine(
                touched_view(touched@),
            )),
            final(self).entries() == old(self).routed(touched_view(touched@)),
            old(self).valid() ==> final(self).valid(),
    {
        let ghost was = self.entries();
        let ghost tv = touched_view(touched@);
        let mut spine_touched = false;
        let mut k: usize = 0;
        while k < touched.len()
            invariant
                k <= touched@.len(),
                tv == touched_view(touched@),
                was == old(self).entries(),
                self.spine() == old(self).spine(),
                self.select() == old(self).select(),
                self.version() == old(self).version(),
                self.stale() == old(self).stale(),
                spine_touched == old(self).touches_spine(tv.take(k as int)),
                self.entries().len() == was.len(),
                forall|i: int|
                    0 <= i < was.len() ==> (#[trigger] self.entries()[i]) == if tv.take(
                        k as int,
                    ).contains(was[i].source) && old(self).data_graph(was[i].source) {
                        stale_record(was[i])
                    } else {
                        was[i]
                    },
            decreases touched@.len() - k,
        {
            let ghost t = tv[k as int];
            let ghost before = tv.take(k as int);
            let ghost after = tv.take(k + 1);
            proof {
                assert(t == graph_view(touched@[k as int]));
                assert(after =~= before.push(t));
                assert forall|s: Option<Text>| after.contains(s) <==> before.contains(s) || s == t by {
                    if before.contains(s) {
                        let j = choose|j: int| 0 <= j < before.len() && before[j] == s;
                        assert(after[j] == s);
                    }
                    if s == t {
                        assert(after[k as int] == s);
                    }
                }
                if old(self).touches_spine(before) {
                    let j = choose|j: int|
                        0 <= j < before.len() && ((#[trigger] before[j]) matches Some(iri)
                            && !reserved(iri) && old(self).spine_graph(iri));
                    assert(after[j] == before[j]);
                }
                if t matches Some(iri) && !reserved(iri) && old(self).spine_graph(iri) {
                    assert(after[k as int] == t);
                }
                if old(self).touches_spine(after) {
                    let j = choose|j: int|
                        0 <= j < after.len() && ((#[trigger] after[j]) matches Some(iri)
                            && !reserved(iri) && old(self).spine_graph(iri));
                    if j < k {
                        assert(before[j] == after[j]);
                    }
                }
            }
            match &touched[k] {
                Some(iri) => {
                    if is_reasoning_output(iri.as_str()) {
                    } else if self.is_spine_graph(iri.as_str()) {
                        spine_touched = true;
                    } else {
                        self.mark_dirty(&ViewSource::Named(iri.clone()));
                    }
                },
                None => {
                    self.mark_dirty(&ViewSource::Default);
                },
            }
            k = k + 1;
        }
        assert(tv.take(tv.len() as int) =~= tv);
        if spine_touched {
            self.bump_spine();
        }
        assert(self.entries() =~= old(self).routed(tv));
        proof {
            if old(self).valid() {
                assert forall|i: int, j: int| 0 <= i < j < self.entries().len() implies source_before(
                    (#[trigger] self.entries()[i]).source,
                    (#[trigger] self.entries()[j]).source,
                ) by {
                    assert(source_before(was[i].source, was[j].source));
                }
                still_minted(was, self.entries());
            }
        }
    }

    pub fn spine_version(&self) -> (r: u64)
        ensures
            r == self.version(),
    {
        self.spine_version
    }

    pub fn spine_stale(&self) -> (r: bool)
        ensures
            r == self.stale(),
    {
        self.spine_stale
    }

    pub fn mark_spine_fresh(&mut self)
        ensures
            final(self).spine() == old(self).spine(),
            final(self).select() == old(self).select(),
            final(self).version() == old(self).version(),
            !final(self).stale(),
            final(self).entries() == old(self).entries(),
    {
        self.spine_stale = false;
    }

    /// The views, in order.
    pub fn views(&self) -> (r: &Vec<CatalogView>)
        ensures
            records(r@) == self.entries(),
    {
        &self.views
    }

    /// The first stale view.
    pub fn next_dirty(&self) -> (r: Option<ViewSource>)
        ensures
            match r {
                Some(s) => exists|i: int|
                    0 <= i < self.entries().len() && (#[trigger] self.entries()[i]).source == s@
                        && self.entries()[i].state.dirty && forall|j: int|
                        0 <= j < i ==> !(#[trigger] self.entries()[j]).state.dirty,
                None => forall|j: int|
                    0 <= j < self.entries().len() ==> !(#[trigger] self.entries()[j]).state.dirty,
            },
    {
        let mut i: usize = 0;
        while i < self.views.len()
            invariant
                i <= self.views@.len(),
                forall|j: int| 0 <= j < i ==> !(#[trigger] self.entries()[j]).state.dirty,
            decreases self.views@.len() - i,
        {
            assert(self.entries()[i as int] == self.views@[i as int]@);
            if self.views[i].state.dirty {
                return Some(self.views[i].source.clone());
            }
            i = i + 1;
        }
        None
    }

    pub fn dirty_count(&self) -> (r: usize)
        ensures
            r == dirty_views(self.entries()),
    {
        let ghost e = self.entries();
        let mut n: usize = 0;
        let mut i: usize = 0;
        assert(e.take(0) =~= Seq::empty());
        while i < self.views.len()
            invariant
                i <= self.views@.len(),
                e == self.entries(),
                n <= i,
                n == dirty_views(e.take(i as int)),
            decreases self.views@.len() - i,
        {
            proof {
                assert(e.take(i + 1).drop_last() =~= e.take(i as int));
                assert(e.take(i + 1).last() == self.views@[i as int]@);
            }
            if self.views[i].state.dirty {
                n = n + 1;
            }
            i = i + 1;
        }
        assert(e.take(e.len() as int) =~= e);
        n
    }

    /// Notes that a view was derived.
    pub fn mark_derived(&mut self, src: &ViewSource, consistent: bool)
        ensures
            final(self).spine() == old(self).spine(),
            final(self).select() == old(self).select(),
            final(self).version() == old(self).version(),
            final(self).stale() == old(self).stale(),
            final(self).entries() == Seq::new(
                old(self).entries().len(),
                |i: int|
                    if old(self).entries()[i].source == src@ {
                        derived_record(old(self).entries()[i], old(self).version(), consistent)
                    } else {
                        old(self).entries()[i]
                    },
            ),
            old(self).valid() ==> final(self).valid(),
    {
        let ghost was = self.entries();
        let version: u64 = self.spine_version;
        let mut i: usize = 0;
        while i < self.views.len()
            invariant
                i <= self.views@.len(),
                was == old(self).entries(),
                version == old(self).version(),
                self.views@.len() == was.len(),
                self.spine() == old(self).spine(),
                self.select() == old(self).select(),
                self.version() == old(self).version(),
                self.stale() == old(self).stale(),
                forall|j: int|
                    0 <= j < was.len() ==> (#[trigger] self.views@[j])@ == if j < i && was[j].source
                        == src@ {
                        derived_record(was[j], version, consistent)
                    } else {
                        was[j]
                    },
            decreases self.views@.len() - i,
        {
            assert(self.views@[i as int]@ == was[i as int]);
            if same_source(&self.views[i].source, src) {
                self.views[i].state.dirty = false;
                self.views[i].state.consistent = consistent;
                self.views[i].state.derived_at_spine_version = version;
            }
            i = i + 1;
        }
        proof {
            assert(self.entries() =~= Seq::new(
                was.len(),
                |i: int|
                    if was[i].source == src@ {
                        derived_record(was[i], version, consistent)
                    } else {
                        was[i]
                    },
            ));
            if old(self).valid() {
                assert forall|i: int, j: int| 0 <= i < j < self.entries().len() implies source_before(
                    (#[trigger] self.entries()[i]).source,
                    (#[trigger] self.entries()[j]).source,
                ) by {
                    assert(source_before(was[i].source, was[j].source));
                }
                still_minted(was, self.entries());
            }
        }
    }

    /// The graphs a client may be shown beside the data: the inferred graphs
    /// and the graph of the spine's closure, and no other.
    pub fn visible_inferred(&self) -> (out: NameSet)
        ensures
            out@ == self.visible_graphs(),
            self.valid() ==> out@.finite() && out@.len() == self.entries().len() + 1,
            self.valid() ==> forall|g: Text| #[trigger]
                out@.contains(g) <==> g == SPINE_CLOSURE_GRAPH@ || exists|s: Option<Text>|
                    has_source(self.entries(), s) && g == #[trigger] inferred_iri(s),
    {
        let ghost e = self.entries();
        let mut out = NameSet::new();
        let mut i: usize = 0;
        while i < self.views.len()
            invariant
                i <= self.views@.len(),
                e == self.entries(),
                forall|g: Text| #[trigger]
                    out@.contains(g) <==> exists|j: int|
                        0 <= j < i && (#[trigger] e[j]).state.inferred_graph == g,
                self.valid() ==> out@.finite() && out@.len() == i,
            decreases self.views@.len() - i,
        {
            assert(e[i as int] == self.views@[i as int]@);
            proof {
                if self.valid() {
                    let g = e[i as int].state.inferred_graph;
                    if out@.contains(g) {
                        let j = choose|j: int|
                            0 <= j < i && (#[trigger] e[j]).state.inferred_graph == g;
                        assert(source_before(e[j].source, e[i as int].source));
                        minting_is_injective(e[j].source, e[i as int].source);
                        source_order_laws(e[j].source, e[j].source, None);
                    }
                }
            }
            out.insert(self.views[i].state.inferred_graph.as_str());
            i = i + 1;
        }
        proof {
            if self.valid() {
                assert forall|j: int| 0 <= j < e.len() implies (
                #[trigger] e[j]).state.inferred_graph != SPINE_CLOSURE_GRAPH@ by {
                    minting_is_apart(e[j].source);
                }
            }
        }
        out.insert(SPINE_CLOSURE_GRAPH);
        proof {
            assert(out@ =~= self.visible_graphs());
            if self.valid() {
                assert forall|g: Text| #[trigger]
                    out@.contains(g) <==> g == SPINE_CLOSURE_GRAPH@ || exists|s: Option<Text>|
                        has_source(self.entries(), s) && g == #[trigger] inferred_iri(s) by {
                    if exists|s: Option<Text>|
                        has_source(self.entries(), s) && g == #[trigger] inferred_iri(s) {
                        let s = choose|s: Option<Text>|
                            has_source(self.entries(), s) && g == #[trigger] inferred_iri(s);
                        let j = choose|j: int| 0 <= j < e.len() && (#[trigger] e[j]).source == s;
                        assert(e[j].state.inferred_graph == g);
                    }
                    if out@.contains(g) && g != SPINE_CLOSURE_GRAPH@ {
                        let j = choose|j: int|
                            0 <= j < e.len() && (#[trigger] e[j]).state.inferred_graph == g;
                        assert(has_source(e, e[j].source));
                        assert(g == inferred_iri(e[j].source));
                    }
                }
            }
        }
        out
    }

    /// The catalog as triples of its own graph. A view is named by its
    /// inferred graph.
    pub fn catalog_triples(&self) -> (out: Vec<(String, String, String)>)
        ensures
            rows_view(out@) == catalog_rows(self.entries(), self.version()),
    {
        let ghost e = self.entries();
        let mut out: Vec<(String, String, String)> = vec![
            (VIEWS_GRAPH.to_owned(), term("spineVersion"), int_literal(self.spine_version)),
            (VIEWS_GRAPH.to_owned(), term("spineClosureGraph"), SPINE_CLOSURE_GRAPH.to_owned()),
        ];
        assert(e.take(0) =~= Seq::empty());
        assert(rows_view(out@) =~= catalog_rows(e.take(0), self.version()));
        let mut i: usize = 0;
        while i < self.views.len()
            invariant
                i <= self.views@.len(),
                e == self.entries(),
                rows_view(out@) == catalog_rows(e.take(i as int), self.version()),
            decreases self.views@.len() - i,
        {
            let ghost before = out@;
            let v = &self.views[i];
            push_row(&mut out, &v.state, "type", term("View"), true);
            push_row(&mut out, &v.state, "inferredGraph", v.state.inferred_graph.clone(), false);
            match &v.source {
                ViewSource::Named(s) => push_row(&mut out, &v.state, "source", s.clone(), false),
                ViewSource::Default => push_row(
                    &mut out,
                    &v.state,
                    "type",
                    term("DefaultGraphView"),
                    true,
                ),
            }
            push_row(
                &mut out,
                &v.state,
                "derivedAtSpineVersion",
                int_literal(v.state.derived_at_spine_version),
                false,
            );
            push_row(&mut out, &v.state, "stale", bool_literal(v.state.dirty), false);
            push_row(&mut out, &v.state, "consistent", bool_literal(v.state.consistent), false);
            proof {
                assert(e.take(i + 1).drop_last() =~= e.take(i as int));
                assert(e.take(i + 1).last() == v@);
                assert(rows_view(out@) =~= rows_view(before) + view_rows(v@));
            }
            i = i + 1;
        }
        assert(e.take(e.len() as int) =~= e);
        out
    }
}

/// What keeps the sources and the inferred graphs keeps them minted.
proof fn still_minted(a: Seq<ViewRecord>, b: Seq<ViewRecord>)
    requires
        minted(a),
        a.len() == b.len(),
        forall|i: int|
            0 <= i < a.len() ==> (#[trigger] b[i]).source == a[i].source
                && b[i].state.inferred_graph == a[i].state.inferred_graph,
    ensures
        minted(b),
{
    assert forall|i: int| 0 <= i < b.len() implies (#[trigger] b[i]).state.inferred_graph
        == inferred_iri(b[i].source) by {
        assert(a[i].state.inferred_graph == inferred_iri(a[i].source));
    }
}

/// A view that is to be derived again.
pub open spec fn stale_record(e: ViewRecord) -> ViewRecord {
    ViewRecord { source: e.source, state: StateRecord { dirty: true, ..e.state } }
}

/// A view that was derived.
pub open spec fn derived_record(e: ViewRecord, version: u64, consistent: bool) -> ViewRecord {
    ViewRecord {
        source: e.source,
        state: StateRecord {
            inferred_graph: e.state.inferred_graph,
            derived_at_spine_version: version,
            dirty: false,
            consistent,
        },
    }
}

// ── Triples ─────────────────────────────────────────────────────────────────

pub const RDF_TYPE: &'static str = "http://www.w3.org/1999/02/22-rdf-syntax-ns#type";

pub type Row = (Text, Text, Text);

pub open spec fn rows_view(s: Seq<(String, String, String)>) -> Seq<Row> {
    Seq::new(s.len(), |i: int| (s[i].0@, s[i].1@, s[i].2@))
}

pub open spec fn int_text(n: u64) -> Text {
    "\""@ + decimal(n as nat) + "\"^^<http://www.w3.org/2001/XMLSchema#integer>"@
}

pub open spec fn bool_text(b: bool) -> Text {
    if b {
        "\"true\"^^<http://www.w3.org/2001/XMLSchema#boolean>"@
    } else {
        "\"false\"^^<http://www.w3.org/2001/XMLSchema#boolean>"@
    }
}

/// What the catalog says of one view.
pub open spec fn view_rows(v: ViewRecord) -> Seq<Row> {
    let node = v.state.inferred_graph;
    seq![
        (node, RDF_TYPE@, NS@ + "View"@),
        (node, NS@ + "inferredGraph"@, node),
        match v.source {
            Some(s) => (node, NS@ + "source"@, s),
            None => (node, RDF_TYPE@, NS@ + "DefaultGraphView"@),
        },
        (node, NS@ + "derivedAtSpineVersion"@, int_text(v.state.derived_at_spine_version)),
        (node, NS@ + "stale"@, bool_text(v.state.dirty)),
        (node, NS@ + "consistent"@, bool_text(v.state.consistent)),
    ]
}

/// What the catalog says.
pub open spec fn catalog_rows(e: Seq<ViewRecord>, version: u64) -> Seq<Row>
    decreases e.len(),
{
    if e.len() == 0 {
        seq![
            (VIEWS_GRAPH@, NS@ + "spineVersion"@, int_text(version)),
            (VIEWS_GRAPH@, NS@ + "spineClosureGraph"@, SPINE_CLOSURE_GRAPH@),
        ]
    } else {
        catalog_rows(e.drop_last(), version) + view_rows(e.last())
    }
}

fn term(local: &str) -> (r: String)
    ensures
        r@ == NS@ + local@,
{
    let mut out = NS.to_owned();
    out.append(local);
    out
}

fn int_literal(n: u64) -> (r: String)
    ensures
        r@ == int_text(n),
{
    let mut out = "\"".to_owned();
    out.append(decimal_text(n).as_str());
    out.append("\"^^<http://www.w3.org/2001/XMLSchema#integer>");
    out
}

fn bool_literal(b: bool) -> (r: String)
    ensures
        r@ == bool_text(b),
{
    if b {
        "\"true\"^^<http://www.w3.org/2001/XMLSchema#boolean>".to_owned()
    } else {
        "\"false\"^^<http://www.w3.org/2001/XMLSchema#boolean>".to_owned()
    }
}

fn push_row(
    out: &mut Vec<(String, String, String)>,
    state: &ViewState,
    local: &str,
    object: String,
    is_type: bool,
)
    ensures
        rows_view(final(out)@) == rows_view(old(out)@).push(
            (
                state@.inferred_graph,
                if is_type {
                    RDF_TYPE@
                } else {
                    NS@ + local@
                },
                object@,
            ),
        ),
{
    let ghost before = rows_view(out@);
    let predicate = if is_type {
        RDF_TYPE.to_owned()
    } else {
        term(local)
    };
    let ghost row = (state@.inferred_graph, predicate@, object@);
    out.push((state.inferred_graph.clone(), predicate, object));
    assert(rows_view(out@) =~= before.push(row));
}

// ── Laws ────────────────────────────────────────────────────────────────────

/// Writes to reserved graphs make nothing stale: deriving comes to an end.
pub proof fn own_writes_stale_nothing(c: &ViewCatalog, touched: Seq<Option<Text>>)
    requires
        forall|i: int|
            0 <= i < touched.len() ==> ((#[trigger] touched[i]) matches Some(iri) && reserved(iri)),
    ensures
        c.routed(touched) == c.entries(),
        !c.touches_spine(touched),
{
    assert forall|i: int| 0 <= i < c.entries().len() implies c.routed(touched)[i]
        == #[trigger] c.entries()[i] by {
        let s = c.entries()[i].source;
        if touched.contains(s) {
            let k = choose|k: int| 0 <= k < touched.len() && touched[k] == s;
            assert(touched[k] matches Some(iri) && reserved(iri));
        }
    }
    assert(c.routed(touched) =~= c.entries());
}

/// A write to one data graph makes its own view stale and no other.
pub proof fn a_data_write_stales_its_own_view(c: &ViewCatalog, g: Option<Text>, i: int)
    requires
        c.data_graph(g),
        0 <= i < c.entries().len(),
    ensures
        c.routed(seq![g])[i] == if c.entries()[i].source == g {
            stale_record(c.entries()[i])
        } else {
            c.entries()[i]
        },
{
    assert(seq![g][0] == g);
    assert(seq![g].contains(g));
}

/// A write to the spine makes every view stale.
pub proof fn a_spine_write_stales_every_view(c: &ViewCatalog, iri: Text, i: int)
    requires
        c.spine_graph(iri),
        !reserved(iri),
        0 <= i < c.entries().len(),
    ensures
        c.routed(seq![Some(iri)])[i] == stale_record(c.entries()[i]),
{
    let t = seq![Some(iri)];
    assert(t[0] == Some(iri));
    assert(c.touches_spine(t));
}

}
