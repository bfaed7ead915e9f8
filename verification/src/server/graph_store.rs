//! The graph store protocol: one graph, read, replaced, merged into or emptied.
//!
//! A replacement is a difference over the quads of the store, so that what is
//! in both stays untouched. Reserved graphs can be read and not written.

use crate::algebra::{Term, TermView};
use crate::error::SparqlError;
use crate::exec::literal::{literal_parts, opt_text, parts_of, unescape_ntriples, unescaped};
use crate::exec::scope::reserved;
use crate::exec::store::{
    clone_graph, graph_part, graph_view, in_graph, quad_set, quad_view, quads_view, triple_set,
    AlgebraQuad, AlgebraTriple, GraphName, QuadView, Store,
};
use crate::results::xml::{bare_label, strip_marks};
use crate::server::form::{before_char, before_char_facts, pair_view, pairs_view, Pair};
use crate::text::{
    chars_of, contains_text, find_from, lower, same_text, slice_text, starts, starts_with, to_lower,
    trim, trimmed, Text,
};
use crate::update::template::{reserved_iri_write_check, reserved_write};
use oxrdf::{BlankNode, Literal, NamedNode, Triple};
use oxttl::{NTriplesSerializer, TurtleSerializer};
use vstd::prelude::*;
use vstd::string::*;

verus! {

// ── Which graph ─────────────────────────────────────────────────────────────

/// The graph a request names.
#[derive(Debug, PartialEq, Eq)]
pub enum Target {
    Default,
    Named(String),
}

/// The message of `oxrdf` on a text that is no IRI.
pub uninterp spec fn iri_fault(s: Text) -> Option<Text>;

/// Calls `oxrdf::NamedNode::new`. The contract names the message of its error,
/// where there is one.
#[verifier::external_body]
fn fault_of_iri(s: &str) -> (r: Option<String>)
    ensures
        opt_text(r) == iri_fault(s@),
{
    oxrdf::NamedNode::new(s).err().map(|e| e.to_string())
}

impl Target {
    /// The graph; the default graph has no name.
    pub open spec fn graph(&self) -> Option<Text> {
        match *self {
            Target::Default => None,
            Target::Named(iri) => Some(iri@),
        }
    }

    pub fn graph_name(&self) -> (r: GraphName)
        ensures
            graph_view(r) == self.graph(),
    {
        match self {
            Target::Default => None,
            Target::Named(iri) => Some(iri.clone()),
        }
    }

    /// What relative IRIs of a document are resolved against.
    pub fn base_iri(&self) -> (r: &str)
        ensures
            r@ == match self.graph() {
                None => "urn:horndb:default-graph"@,
                Some(iri) => iri,
            },
    {
        match self {
            Target::Default => "urn:horndb:default-graph",
            Target::Named(iri) => iri.as_str(),
        }
    }
}

/// The first key that names nothing.
pub open spec fn unknown_key(params: Seq<(Text, Text)>) -> Option<Text>
    decreases params.len(),
{
    if params.len() == 0 {
        None
    } else if params[0].0 != "graph"@ && params[0].0 != "default"@ {
        Some(params[0].0)
    } else {
        unknown_key(params.skip(1))
    }
}

/// The value of a key: the last, where it is given more than once.
pub open spec fn last_value(params: Seq<(Text, Text)>, key: Text) -> Option<Text>
    decreases params.len(),
{
    if params.len() == 0 {
        None
    } else if params.last().0 == key {
        Some(params.last().1)
    } else {
        last_value(params.drop_last(), key)
    }
}

/// The graph that parameters name, or why they name none. What is wrong with
/// the name, if anything, is given.
pub open spec fn target_given(params: Seq<(Text, Text)>, fault: Option<Text>) -> Result<
    Option<Text>,
    Text,
> {
    match unknown_key(params) {
        Some(k) => Err("unknown query parameter `"@ + k + "`"@),
        None => match (last_value(params, "graph"@), last_value(params, "default"@) is Some) {
            (Some(g), false) => match fault {
                Some(m) => Err(m),
                None => Ok(Some(g)),
            },
            (None, true) => Ok(None),
            (None, false) => Err("one of `graph=<iri>` or `default` is required"@),
            (Some(_), true) => Err("`graph` and `default` are mutually exclusive"@),
        },
    }
}

/// The graph that parameters name, or why they name none.
pub open spec fn target_of(params: Seq<(Text, Text)>) -> Result<Option<Text>, Text> {
    target_given(
        params,
        match last_value(params, "graph"@) {
            Some(g) => iri_fault(g),
            None => None,
        },
    )
}

pub open spec fn target_view(r: Result<Target, String>) -> Result<Option<Text>, Text> {
    match r {
        Ok(t) => Ok(t.graph()),
        Err(s) => Err(s@),
    }
}

fn find_last(params: &Vec<Pair>, key: &str) -> (r: Option<String>)
    ensures
        opt_text(r) == last_value(pairs_view(params@), key@),
{
    let ghost pv = pairs_view(params@);
    let mut i: usize = params.len();
    assert(pv.take(pv.len() as int) =~= pv);
    while i > 0
        invariant
            i <= params@.len(),
            pv == pairs_view(params@),
            last_value(pv, key@) == last_value(pv.take(i as int), key@),
        decreases i,
    {
        i = i - 1;
        proof {
            assert(pv.take(i + 1).last() == pair_view(params@[i as int]));
            assert(pv.take(i + 1).drop_last() =~= pv.take(i as int));
        }
        if same_text(params[i].0.as_str(), key) {
            return Some(params[i].1.clone());
        }
    }
    None
}

fn find_unknown(params: &Vec<Pair>) -> (r: Option<String>)
    ensures
        opt_text(r) == unknown_key(pairs_view(params@)),
{
    let ghost pv = pairs_view(params@);
    let mut i: usize = 0;
    assert(pv.skip(0) =~= pv);
    while i < params.len()
        invariant
            i <= params@.len(),
            pv == pairs_view(params@),
            unknown_key(pv) == unknown_key(pv.skip(i as int)),
        decreases params@.len() - i,
    {
        proof {
            assert(pv.skip(i as int)[0] == pair_view(params@[i as int]));
            assert(pv.skip(i as int).skip(1) =~= pv.skip(i + 1));
        }
        let key = params[i].0.as_str();
        if !same_text(key, "graph") && !same_text(key, "default") {
            return Some(params[i].0.clone());
        }
        i = i + 1;
    }
    None
}

/// The graph that a request names, given what is wrong with the name.
pub fn target_with(params: &Vec<Pair>, fault: Option<String>) -> (r: Result<Target, String>)
    ensures
        target_view(r) == target_given(pairs_view(params@), opt_text(fault)),
{
    if let Some(k) = find_unknown(params) {
        let mut s = "unknown query parameter `".to_owned();
        s.append(k.as_str());
        s.append("`");
        return Err(s);
    }
    match (find_last(params, "graph"), find_last(params, "default").is_some()) {
        (Some(g), false) => match fault {
            Some(m) => Err(m),
            None => Ok(Target::Named(g)),
        },
        (None, true) => Ok(Target::Default),
        (None, false) => Err("one of `graph=<iri>` or `default` is required".to_owned()),
        (Some(_), true) => Err("`graph` and `default` are mutually exclusive".to_owned()),
    }
}

/// The graph that a request names.
pub fn target(params: &Vec<Pair>) -> (r: Result<Target, String>)
    ensures
        target_view(r) == target_of(pairs_view(params@)),
{
    let fault = match find_last(params, "graph") {
        Some(g) => fault_of_iri(g.as_str()),
        None => None,
    };
    target_with(params, fault)
}

// ── What may be written ─────────────────────────────────────────────────────

/// Why a graph may not be written.
pub enum WriteRefusal {
    /// The database keeps the graph for itself.
    Reserved(SparqlError),
    /// The default graph also holds what was inferred.
    Materialized,
}

/// What a client is told of a refusal to write the default graph.
pub const MATERIALIZED_DEFAULT: &'static str =
    "GSP writes to ?default are refused on a --materialize store: the closure's inferred triples share the default graph with the asserted ones, so a whole-graph write would delete inferences the request never sent";

/// Refuses to write a reserved graph, and the default graph of a store that
/// holds inferences in it.
pub fn check_writable(t: &Target, materialized: bool) -> (r: Result<(), WriteRefusal>)
    ensures
        match t.graph() {
            Some(iri) => if reserved(iri) {
                r is Err && r->Err_0 is Reserved && r->Err_0->Reserved_0@ == reserved_write(iri)
            } else {
                r is Ok
            },
            None => if materialized {
                r is Err && r->Err_0 is Materialized
            } else {
                r is Ok
            },
        },
{
    match t {
        Target::Named(iri) => match reserved_iri_write_check(iri.as_str()) {
            Ok(_) => Ok(()),
            Err(e) => Err(WriteRefusal::Reserved(e)),
        },
        Target::Default => if materialized {
            Err(WriteRefusal::Materialized)
        } else {
            Ok(())
        },
    }
}

/// The media type of a content type: what stands before its parameters.
pub open spec fn media_type(content_type: Text) -> Text {
    lower(trimmed(content_type.take(before_char(content_type, ';') as int)))
}

/// The file extension of the format a body is in. The formats of whole
/// datasets have none: a graph has no room for them.
pub open spec fn extension_for(content_type: Text) -> Option<Text> {
    let m = media_type(content_type);
    if m == ""@ || m == "text/turtle"@ {
        Some("ttl"@)
    } else if m == "application/n-triples"@ {
        Some("nt"@)
    } else {
        None
    }
}

/// The file extension of the format a body is in; without a content type it is
/// Turtle.
pub fn payload_extension(content_type: &str) -> (r: Option<&'static str>)
    ensures
        match r {
            Some(x) => extension_for(content_type@) == Some(x@),
            None => extension_for(content_type@) is None,
        },
{
    let cs = chars_of(content_type);
    let mut end: usize = 0;
    proof {
        before_char_facts(cs@, ';');
        assert(cs@.skip(0) =~= cs@);
    }
    while end < cs.len() && cs[end] != ';'
        invariant
            end <= cs@.len(),
            cs@ == content_type@,
            before_char(cs@, ';') == end + before_char(cs@.skip(end as int), ';'),
        decreases cs@.len() - end,
    {
        assert(cs@.skip(end as int).skip(1) =~= cs@.skip(end + 1));
        assert(cs@.skip(end as int)[0] == cs@[end as int]);
        end = end + 1;
    }
    proof {
        if end < cs@.len() {
            assert(cs@.skip(end as int)[0] == cs@[end as int]);
        }
        assert(cs@.subrange(0, end as int) =~= cs@.take(end as int));
    }
    let m = to_lower(trim(slice_text(&cs, 0, end).as_str()).as_str());
    if same_text(m.as_str(), "") || same_text(m.as_str(), "text/turtle") {
        Some("ttl")
    } else if same_text(m.as_str(), "application/n-triples") {
        Some("nt")
    } else {
        None
    }
}

// ── Differences ─────────────────────────────────────────────────────────────

pub open spec fn fact_view(t: AlgebraTriple) -> (TermView, TermView, TermView) {
    (t.0@, t.1@, t.2@)
}

pub open spec fn facts_view(s: Seq<AlgebraTriple>) -> Seq<(TermView, TermView, TermView)> {
    Seq::new(s.len(), |i: int| fact_view(s[i]))
}

/// The triples of a list that are not in another.
pub open spec fn outside(
    s: Seq<(TermView, TermView, TermView)>,
    other: Seq<(TermView, TermView, TermView)>,
) -> Seq<(TermView, TermView, TermView)>
    decreases s.len(),
{
    if s.len() == 0 {
        Seq::empty()
    } else if other.contains(s.last()) {
        outside(s.drop_last(), other)
    } else {
        outside(s.drop_last(), other).push(s.last())
    }
}

/// The difference of two lists holds what is in the first and not in the
/// second.
pub proof fn outside_has(
    s: Seq<(TermView, TermView, TermView)>,
    other: Seq<(TermView, TermView, TermView)>,
)
    ensures
        forall|t: (TermView, TermView, TermView)| #[trigger]
            outside(s, other).contains(t) <==> s.contains(t) && !other.contains(t),
    decreases s.len(),
{
    if s.len() > 0 {
        let rest = s.drop_last();
        let last = s.last();
        outside_has(rest, other);
        let before = outside(rest, other);
        let all = outside(s, other);
        assert forall|t: (TermView, TermView, TermView)| #[trigger]
            all.contains(t) <==> s.contains(t) && !other.contains(t) by {
            if s.contains(t) {
                let i = choose|i: int| 0 <= i < s.len() && s[i] == t;
                if i < rest.len() {
                    assert(rest[i] == t);
                }
            }
            if rest.contains(t) {
                let i = choose|i: int| 0 <= i < rest.len() && rest[i] == t;
                assert(s[i] == t);
            }
            assert(s[s.len() - 1] == last);
            assert(before.contains(t) <==> rest.contains(t) && !other.contains(t));
            if !other.contains(last) {
                if before.contains(t) {
                    let i = choose|i: int| 0 <= i < before.len() && before[i] == t;
                    assert(all[i] == t);
                }
                assert(all[before.len() as int] == last);
                if all.contains(t) {
                    let i = choose|i: int| 0 <= i < all.len() && all[i] == t;
                    if i < before.len() {
                        assert(before[i] == t);
                    }
                }
            }
        }
    }
}

fn same_triple(a: &AlgebraTriple, b: &AlgebraTriple) -> (r: bool)
    ensures
        r == (fact_view(*a) == fact_view(*b)),
{
    a.0.same(&b.0) && a.1.same(&b.1) && a.2.same(&b.2)
}

fn holds(s: &Vec<AlgebraTriple>, t: &AlgebraTriple) -> (r: bool)
    ensures
        r == facts_view(s@).contains(fact_view(*t)),
{
    let ghost sv = facts_view(s@);
    let mut i: usize = 0;
    while i < s.len()
        invariant
            i <= s@.len(),
            sv == facts_view(s@),
            forall|k: int| 0 <= k < i ==> sv[k] != fact_view(*t),
        decreases s@.len() - i,
    {
        assert(sv[i as int] == fact_view(s@[i as int]));
        if same_triple(&s[i], t) {
            assert(sv.contains(fact_view(*t)));
            return true;
        }
        i = i + 1;
    }
    false
}

fn not_in(s: &Vec<AlgebraTriple>, other: &Vec<AlgebraTriple>) -> (out: Vec<AlgebraTriple>)
    ensures
        facts_view(out@) == outside(facts_view(s@), facts_view(other@)),
{
    let ghost sv = facts_view(s@);
    let ghost ov = facts_view(other@);
    let mut out: Vec<AlgebraTriple> = Vec::new();
    let mut i: usize = 0;
    assert(sv.take(0) =~= Seq::empty());
    assert(facts_view(out@) =~= outside(sv.take(0), ov));
    while i < s.len()
        invariant
            i <= s@.len(),
            sv == facts_view(s@),
            ov == facts_view(other@),
            facts_view(out@) == outside(sv.take(i as int), ov),
        decreases s@.len() - i,
    {
        proof {
            assert(sv.take(i + 1).drop_last() =~= sv.take(i as int));
            assert(sv.take(i + 1).last() == fact_view(s@[i as int]));
        }
        if !holds(other, &s[i]) {
            let ghost before = facts_view(out@);
            let t = (s[i].0.clone(), s[i].1.clone(), s[i].2.clone());
            out.push(t);
            assert(facts_view(out@) =~= before.push(fact_view(s@[i as int])));
        }
        i = i + 1;
    }
    assert(sv.take(sv.len() as int) =~= sv);
    out
}

/// What makes a graph of one list that of another: what to take out, and what
/// to put in.
pub fn graph_diff(base: &Vec<AlgebraTriple>, payload: &Vec<AlgebraTriple>) -> (r: (
    Vec<AlgebraTriple>,
    Vec<AlgebraTriple>,
))
    ensures
        facts_view(r.0@) == outside(facts_view(base@), facts_view(payload@)),
        facts_view(r.1@) == outside(facts_view(payload@), facts_view(base@)),
{
    (not_in(base, payload), not_in(payload, base))
}

/// A graph does not differ from itself.
pub proof fn a_graph_equals_itself(s: Seq<(TermView, TermView, TermView)>)
    ensures
        outside(s, s) == Seq::<(TermView, TermView, TermView)>::empty(),
{
    outside_has(s, s);
    let out = outside(s, s);
    if out.len() > 0 {
        assert(out.contains(out[0]));
    }
    assert(out =~= Seq::<(TermView, TermView, TermView)>::empty());
}

/// Triples as quads of a graph.
pub fn quads(graph: &GraphName, triples: &Vec<AlgebraTriple>) -> (out: Vec<AlgebraQuad>)
    ensures
        quads_view(out@) == Seq::new(
            triples@.len(),
            |i: int| in_graph(graph_view(*graph), triples@[i]),
        ),
{
    let ghost want = Seq::new(
        triples@.len(),
        |i: int| in_graph(graph_view(*graph), triples@[i]),
    );
    let mut out: Vec<AlgebraQuad> = Vec::new();
    let mut i: usize = 0;
    while i < triples.len()
        invariant
            i <= triples@.len(),
            want == Seq::new(
                triples@.len(),
                |i: int| in_graph(graph_view(*graph), triples@[i]),
            ),
            quads_view(out@) == want.take(i as int),
        decreases triples@.len() - i,
    {
        let ghost before = quads_view(out@);
        let t = &triples[i];
        let q = (clone_graph(graph), t.0.clone(), t.1.clone(), t.2.clone());
        let ghost qv = quad_view(q);
        out.push(q);
        proof {
            assert(quads_view(out@) =~= before.push(qv));
            assert(qv == want[i as int]);
            assert(want.take(i + 1) =~= want.take(i as int).push(want[i as int]));
        }
        i = i + 1;
    }
    assert(want.take(want.len() as int) =~= want);
    out
}

// ── Reading and writing ─────────────────────────────────────────────────────

/// What came of writing a graph.
#[derive(Debug, Clone, Copy, PartialEq, Eq, Structural)]
pub enum WriteOutcome {
    /// There was no such graph before.
    Created,
    Changed,
}

/// The status of an outcome.
pub fn write_status(o: WriteOutcome) -> (r: u16)
    ensures
        r == match o {
            WriteOutcome::Created => 201u16,
            WriteOutcome::Changed => 204u16,
        },
{
    match o {
        WriteOutcome::Created => 201,
        WriteOutcome::Changed => 204,
    }
}

/// The quads after a graph is replaced by triples, or gets them.
pub open spec fn after_write(
    quads: Set<QuadView>,
    graph: Option<Text>,
    payload: Set<QuadView>,
    replace: bool,
) -> Set<QuadView> {
    if replace {
        quads.difference(graph_part(quads, graph)).union(payload)
    } else {
        quads.union(payload)
    }
}

proof fn triple_set_has(g: Option<Text>, s: Seq<AlgebraTriple>, q: QuadView)
    ensures
        triple_set(g, s).contains(q) <==> q.graph == g && facts_view(s).contains(
            (q.subject, q.predicate, q.object),
        ),
{
    let list = Seq::new(s.len(), |i: int| in_graph(g, s[i]));
    let f = (q.subject, q.predicate, q.object);
    if list.contains(q) {
        let i = choose|i: int| 0 <= i < list.len() && list[i] == q;
        assert(facts_view(s)[i] == f);
    }
    if q.graph == g && facts_view(s).contains(f) {
        let i = choose|i: int| 0 <= i < s.len() && facts_view(s)[i] == f;
        assert(list[i] == q);
    }
}

/// Replaces a graph by triples, or merges them into it. Where nothing differs
/// nothing is written.
pub fn write_graph<B: Store>(
    store: &mut B,
    graph: &GraphName,
    payload: &Vec<AlgebraTriple>,
    replace: bool,
) -> (r: Result<WriteOutcome, SparqlError>)
    ensures
        r matches Ok(o) ==> {
            &&& final(store).quads() == after_write(
                old(store).quads(),
                graph_view(*graph),
                triple_set(graph_view(*graph), payload@),
                replace,
            )
            &&& (o == WriteOutcome::Created) == (graph_part(
                old(store).quads(),
                graph_view(*graph),
            ).is_empty() && payload@.len() > 0)
        },
        r is Ok && final(store).quads() == old(store).quads() ==> *final(store) == *old(store),
        r is Err ==> final(store).quads() == old(store).quads() && !old(store).steady(),
{
    let ghost g = graph_view(*graph);
    let ghost start = store.quads();
    let base = match store.scan_graph_quads(graph) {
        Ok(b) => b,
        Err(e) => {
            return Err(e);
        },
    };
    let (gone, new) = graph_diff(&base, payload);
    let dels = if replace {
        quads(graph, &gone)
    } else {
        Vec::new()
    };
    let adds = quads(graph, &new);
    let created = base.len() == 0 && adds.len() > 0;
    let ghost bv = facts_view(base@);
    let ghost pv = facts_view(payload@);
    let ghost want = after_write(start, g, triple_set(g, payload@), replace);
    proof {
        outside_has(bv, pv);
        outside_has(pv, bv);
        assert(adds@.len() == quads_view(adds@).len());
        assert(dels@.len() == quads_view(dels@).len());
        assert(adds@.len() == new@.len());
        assert(quads_view(adds@).to_set() =~= triple_set(g, new@));
        if replace {
            assert(quads_view(dels@).to_set() =~= triple_set(g, gone@));
        } else {
            assert(quads_view(dels@) =~= Seq::empty());
        }
        assert forall|q: QuadView|
            start.difference(quad_set(dels@)).union(quad_set(adds@)).contains(q)
                <==> want.contains(q) by {
            triple_set_has(g, base@, q);
            triple_set_has(g, payload@, q);
            triple_set_has(g, new@, q);
            triple_set_has(g, gone@, q);
            let f = (q.subject, q.predicate, q.object);
            assert(triple_set(g, base@).contains(q) == graph_part(start, g).contains(q));
            assert(facts_view(new@).contains(f) <==> pv.contains(f) && !bv.contains(f));
            assert(facts_view(gone@).contains(f) <==> bv.contains(f) && !pv.contains(f));
            if !replace {
                assert(!quads_view(dels@).contains(q));
            }
        }
        assert(start.difference(quad_set(dels@)).union(quad_set(adds@)) =~= want);
        assert(graph_part(start, g).is_empty() <==> base@.len() == 0) by {
            if base@.len() > 0 {
                let q = in_graph(g, base@[0]);
                assert(facts_view(base@)[0] == fact_view(base@[0]));
                triple_set_has(g, base@, q);
                assert(graph_part(start, g).contains(q));
            } else {
                assert forall|q: QuadView| !graph_part(start, g).contains(q) by {
                    triple_set_has(g, base@, q);
                    assert(triple_set(g, base@).contains(q) == graph_part(start, g).contains(q));
                }
                assert(graph_part(start, g) =~= Set::empty());
            }
        }
        if base@.len() == 0 {
            assert(new@.len() > 0 <==> payload@.len() > 0) by {
                if new@.len() > 0 {
                    assert(facts_view(new@).contains(facts_view(new@)[0]));
                }
                if payload@.len() > 0 {
                    assert(pv.contains(pv[0]));
                    assert(facts_view(new@).contains(pv[0]));
                }
            }
        }
        if dels@.len() == 0 && adds@.len() == 0 {
            assert(start.difference(quad_set(dels@)).union(quad_set(adds@)) =~= start);
        } else if adds@.len() > 0 {
            let f = facts_view(new@)[0];
            let q = in_graph(g, new@[0]);
            assert(facts_view(new@).contains(f));
            triple_set_has(g, base@, q);
            triple_set_has(g, new@, q);
            assert(!graph_part(start, g).contains(q));
            assert(want.contains(q) && !start.contains(q));
        } else {
            let f = facts_view(gone@)[0];
            let q = in_graph(g, gone@[0]);
            assert(facts_view(gone@).contains(f));
            triple_set_has(g, base@, q);
            triple_set_has(g, payload@, q);
            triple_set_has(g, gone@, q);
            assert(graph_part(start, g).contains(q));
            assert(start.contains(q) && !want.contains(q));
        }
    }
    if dels.len() > 0 || adds.len() > 0 {
        if let Err(e) = store.apply_quads(dels, adds) {
            return Err(e);
        }
    }
    Ok(
        if created {
            WriteOutcome::Created
        } else {
            WriteOutcome::Changed
        },
    )
}

/// A graph that was replaced holds what was sent, and no other graph changes.
pub proof fn a_replaced_graph_is_what_was_sent(
    quads: Set<QuadView>,
    graph: Option<Text>,
    payload: Seq<AlgebraTriple>,
    other: Option<Text>,
)
    requires
        other != graph,
    ensures
        ({
            let after = after_write(quads, graph, triple_set(graph, payload), true);
            &&& graph_part(after, graph) == triple_set(graph, payload)
            &&& graph_part(after, other) == graph_part(quads, other)
        }),
{
    let sent = triple_set(graph, payload);
    let after = after_write(quads, graph, sent, true);
    assert forall|q: QuadView| #[trigger] sent.contains(q) implies q.graph == graph by {
        triple_set_has(graph, payload, q);
    }
    assert(graph_part(after, graph) =~= sent);
    assert(graph_part(after, other) =~= graph_part(quads, other));
}

/// Merging triples into a graph twice is merging them once, and takes nothing
/// out.
pub proof fn merging_again_changes_nothing(
    quads: Set<QuadView>,
    graph: Option<Text>,
    payload: Seq<AlgebraTriple>,
)
    ensures
        ({
            let sent = triple_set(graph, payload);
            let once = after_write(quads, graph, sent, false);
            &&& after_write(once, graph, sent, false) == once
            &&& quads.subset_of(once)
        }),
{
    let sent = triple_set(graph, payload);
    let once = after_write(quads, graph, sent, false);
    assert(after_write(once, graph, sent, false) =~= once);
}

/// Empties a graph. Says whether there was one: a graph exists where it holds a
/// quad.
pub fn delete_graph<B: Store>(store: &mut B, graph: &GraphName) -> (r: Result<bool, SparqlError>)
    ensures
        r matches Ok(was) ==> {
            &&& was == !graph_part(old(store).quads(), graph_view(*graph)).is_empty()
            &&& final(store).quads() == old(store).quads().difference(
                graph_part(old(store).quads(), graph_view(*graph)),
            )
        },
        r is Err ==> final(store).quads() == old(store).quads() && !old(store).steady(),
{
    let ghost g = graph_view(*graph);
    let ghost start = store.quads();
    let base = match store.scan_graph_quads(graph) {
        Ok(b) => b,
        Err(e) => {
            return Err(e);
        },
    };
    if base.len() == 0 {
        proof {
            assert forall|q: QuadView| !graph_part(start, g).contains(q) by {
                triple_set_has(g, base@, q);
                assert(triple_set(g, base@).contains(q) == graph_part(start, g).contains(q));
            }
            assert(graph_part(start, g) =~= Set::empty());
            assert(start.difference(graph_part(start, g)) =~= start);
        }
        return Ok(false);
    }
    proof {
        let q = in_graph(g, base@[0]);
        assert(facts_view(base@)[0] == fact_view(base@[0]));
        triple_set_has(g, base@, q);
        assert(graph_part(start, g).contains(q));
    }
    match store.clear_graph(graph) {
        Ok(_) => Ok(true),
        Err(e) => Err(e),
    }
}

// ── Documents ───────────────────────────────────────────────────────────────

/// A term of a document.
pub enum RdfTerm {
    Iri(String),
    Blank(String),
    Tagged(String, String),
    Typed(String, String),
}

/// A term of a document: an IRI, the label of a blank node, or a literal's
/// value with its language or its datatype.
pub enum RdfTermView {
    Iri(Text),
    Blank(Text),
    Tagged(Text, Text),
    Typed(Text, Text),
}

impl RdfTerm {
    pub open spec fn view(&self) -> RdfTermView {
        match *self {
            RdfTerm::Iri(s) => RdfTermView::Iri(s@),
            RdfTerm::Blank(s) => RdfTermView::Blank(s@),
            RdfTerm::Tagged(v, l) => RdfTermView::Tagged(v@, l@),
            RdfTerm::Typed(v, d) => RdfTermView::Typed(v@, d@),
        }
    }
}

/// A triple of a document.
pub struct RdfTriple {
    pub subject: RdfTerm,
    pub predicate: RdfTerm,
    pub object: RdfTerm,
}

pub struct RdfTripleView {
    pub subject: RdfTermView,
    pub predicate: RdfTermView,
    pub object: RdfTermView,
}

impl RdfTriple {
    pub open spec fn view(&self) -> RdfTripleView {
        RdfTripleView {
            subject: self.subject@,
            predicate: self.predicate@,
            object: self.object@,
        }
    }
}

pub open spec fn rdf_view(s: Seq<RdfTriple>) -> Seq<RdfTripleView> {
    Seq::new(s.len(), |i: int| s[i]@)
}

/// The term of a document that a literal is. Without a language or a datatype
/// it is a string.
pub open spec fn rdf_literal(raw: Text) -> RdfTermView {
    if starts(raw, "\""@) {
        let p = parts_of(raw);
        match (p.lang, p.datatype) {
            (Some(lang), _) => RdfTermView::Tagged(unescaped(p.value), lang),
            (None, Some(dt)) => RdfTermView::Typed(unescaped(p.value), dt),
            (None, None) => RdfTermView::Typed(
                unescaped(p.value),
                "http://www.w3.org/2001/XMLSchema#string"@,
            ),
        }
    } else {
        RdfTermView::Typed(raw, "http://www.w3.org/2001/XMLSchema#string"@)
    }
}

fn document_literal(raw: &str) -> (r: RdfTerm)
    ensures
        r@ == rdf_literal(raw@),
{
    let string = "http://www.w3.org/2001/XMLSchema#string".to_owned();
    if !starts_with(raw, "\"") {
        return RdfTerm::Typed(raw.to_owned(), string);
    }
    let (quoted, lang, datatype) = literal_parts(raw);
    let value = unescape_ntriples(quoted.as_str());
    match (lang, datatype) {
        (Some(lang), _) => RdfTerm::Tagged(value, lang),
        (None, Some(dt)) => RdfTerm::Typed(value, dt),
        (None, None) => RdfTerm::Typed(value, string),
    }
}

/// The term of a document that a term is. A variable is none, nor is a triple
/// term.
pub open spec fn rdf_term(t: TermView) -> Option<RdfTermView> {
    match t {
        TermView::Iri(s) => Some(RdfTermView::Iri(s)),
        TermView::BlankNode(s) => Some(RdfTermView::Blank(bare_label(s))),
        TermView::Literal(s) => Some(rdf_literal(s)),
        TermView::Var(_) => None,
        TermView::Triple(_) => None,
    }
}

pub open spec fn opt_rdf_view(o: Option<RdfTerm>) -> Option<RdfTermView> {
    match o {
        Some(t) => Some(t@),
        None => None,
    }
}

fn document_term(t: &Term) -> (r: Option<RdfTerm>)
    ensures
        opt_rdf_view(r) == rdf_term(t@),
{
    match t {
        Term::Iri(s) => Some(RdfTerm::Iri(s.clone())),
        Term::BlankNode(s) => Some(RdfTerm::Blank(strip_marks(s.as_str()))),
        Term::Literal(s) => Some(document_literal(s.as_str())),
        Term::Var(_) => None,
        Term::Triple(_) => None,
    }
}

/// The triple of a document that a triple is. One whose predicate is no IRI, or
/// whose subject is a literal, is none.
pub open spec fn rdf_triple(t: (TermView, TermView, TermView)) -> Option<RdfTripleView> {
    match (rdf_term(t.0), rdf_term(t.1), rdf_term(t.2)) {
        (Some(subject), Some(predicate), Some(object)) => if t.0 is Literal || !(t.1 is Iri) {
            None
        } else {
            Some(RdfTripleView { subject, predicate, object })
        },
        _ => None,
    }
}

/// The triples of a document.
pub open spec fn rdf_triples(s: Seq<(TermView, TermView, TermView)>) -> Seq<RdfTripleView>
    decreases s.len(),
{
    if s.len() == 0 {
        Seq::empty()
    } else {
        match rdf_triple(s.last()) {
            Some(t) => rdf_triples(s.drop_last()).push(t),
            None => rdf_triples(s.drop_last()),
        }
    }
}

fn document_triples(s: &Vec<AlgebraTriple>) -> (out: Vec<RdfTriple>)
    ensures
        rdf_view(out@) == rdf_triples(facts_view(s@)),
{
    let ghost sv = facts_view(s@);
    let mut out: Vec<RdfTriple> = Vec::new();
    let mut i: usize = 0;
    assert(sv.take(0) =~= Seq::empty());
    assert(rdf_view(out@) =~= rdf_triples(sv.take(0)));
    while i < s.len()
        invariant
            i <= s@.len(),
            sv == facts_view(s@),
            rdf_view(out@) == rdf_triples(sv.take(i as int)),
        decreases s@.len() - i,
    {
        proof {
            assert(sv.take(i + 1).drop_last() =~= sv.take(i as int));
            assert(sv.take(i + 1).last() == fact_view(s@[i as int]));
        }
        let t = &s[i];
        let fitting = match (&t.0, &t.1) {
            (Term::Literal(_), _) => false,
            (_, Term::Iri(_)) => true,
            _ => false,
        };
        if fitting {
            let ghost before = rdf_view(out@);
            match (document_term(&t.0), document_term(&t.1), document_term(&t.2)) {
                (Some(subject), Some(predicate), Some(object)) => {
                    let triple = RdfTriple { subject, predicate, object };
                    let ghost tv = triple@;
                    out.push(triple);
                    assert(rdf_view(out@) =~= before.push(tv));
                },
                _ => {},
            }
        }
        i = i + 1;
    }
    assert(sv.take(sv.len() as int) =~= sv);
    out
}

/// The N-Triples document of triples, by `oxttl`.
pub uninterp spec fn ntriples_document(triples: Seq<RdfTripleView>) -> Seq<u8>;

/// The Turtle document of triples, by `oxttl`.
pub uninterp spec fn turtle_document(triples: Seq<RdfTripleView>) -> Seq<u8>;

/// Writes triples by `oxttl::NTriplesSerializer`, each built of its terms by
/// `oxrdf::Triple::from_terms`. The contract gives the document a name.
#[verifier::external_body]
fn ntriples_of(triples: &Vec<RdfTriple>) -> (r: Vec<u8>)
    ensures
        r@ == ntriples_document(rdf_view(triples@)),
{
    let mut w = NTriplesSerializer::new().for_writer(Vec::new());
    for t in triples {
        let [s, p, o] = [&t.subject, &t.predicate, &t.object].map(|x| match x {
            RdfTerm::Iri(i) => oxrdf::Term::from(NamedNode::new_unchecked(i)),
            RdfTerm::Blank(b) => BlankNode::new_unchecked(b).into(),
            RdfTerm::Tagged(v, l) => Literal::new_language_tagged_literal_unchecked(v, l).into(),
            RdfTerm::Typed(v, d) => Literal::new_typed_literal(v, NamedNode::new_unchecked(d)).into(),
        });
        let _ = Triple::from_terms(s, p, o).map(|t| w.serialize_triple(&t));
    }
    w.finish()
}

/// Writes triples by `oxttl::TurtleSerializer`, each built of its terms by
/// `oxrdf::Triple::from_terms`. The contract gives the document a name.
#[verifier::external_body]
fn turtle_of(triples: &Vec<RdfTriple>) -> (r: Vec<u8>)
    ensures
        r@ == turtle_document(rdf_view(triples@)),
{
    let mut w = TurtleSerializer::new().for_writer(Vec::new());
    for t in triples {
        let [s, p, o] = [&t.subject, &t.predicate, &t.object].map(|x| match x {
            RdfTerm::Iri(i) => oxrdf::Term::from(NamedNode::new_unchecked(i)),
            RdfTerm::Blank(b) => BlankNode::new_unchecked(b).into(),
            RdfTerm::Tagged(v, l) => Literal::new_language_tagged_literal_unchecked(v, l).into(),
            RdfTerm::Typed(v, d) => Literal::new_typed_literal(v, NamedNode::new_unchecked(d)).into(),
        });
        let _ = Triple::from_terms(s, p, o).map(|t| w.serialize_triple(&t));
    }
    w.finish().unwrap_or_default()
}

/// Does a client accept N-Triples? Otherwise it gets Turtle.
pub open spec fn accepts_ntriples(accept: Text) -> bool {
    find_from(lower(accept), "application/n-triples"@, 0) is Some
}

/// A graph as a document: its content type, and its bytes.
pub fn serialize(triples: &Vec<AlgebraTriple>, accept: &str) -> (r: (&'static str, Vec<u8>))
    ensures
        ({
            let document = rdf_triples(facts_view(triples@));
            if accepts_ntriples(accept@) {
                r.0@ == "application/n-triples"@ && r.1@ == ntriples_document(document)
            } else {
                r.0@ == "text/turtle"@ && r.1@ == turtle_document(document)
            }
        }),
{
    let document = document_triples(triples);
    if contains_text(to_lower(accept).as_str(), "application/n-triples") {
        ("application/n-triples", ntriples_of(&document))
    } else {
        ("text/turtle", turtle_of(&document))
    }
}

}
