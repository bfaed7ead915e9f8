//! Reasoning views: a shared vocabulary, the spine, and one view for each data
//! graph. What a view derives goes to an inferred graph of its own, under the
//! reserved prefix, so that a data graph holds only what was written to it.

pub mod catalog;
pub mod derive;
pub mod laws;

use crate::algebra::{clone_strings, texts};
use crate::exec::scope::{reserved, RESERVED_GRAPH_PREFIX};
use crate::exec::store::{graph_view, GraphName};
use crate::percent::{
    percent_decode_segment, percent_encode_segment, segment_of, segment_text, segments_read_back,
};
use crate::text::{same_text, starts, starts_with, strip_prefix, Text};
use vstd::prelude::*;
use vstd::string::*;

verus! {

/// The prefix of the inferred graphs.
pub const INFERRED_GRAPH_PREFIX: &'static str = "https://horndb.io/graph/inferred/";

/// The graph of what the spine derives beyond itself.
pub const SPINE_CLOSURE_GRAPH: &'static str = "https://horndb.io/graph/spine-closure";

/// The graph of the view catalog.
pub const VIEWS_GRAPH: &'static str = "https://horndb.io/graph/views";

/// The vocabulary of the catalog.
pub const NS: &'static str = "https://horndb.io/ns/reasoning#";

/// The segment of the default graph, which has no IRI.
pub const DEFAULT_SOURCE_SEGMENT: &'static str = "default";

/// The segment before that of a named graph. What follows it holds no slash,
/// so no named graph is taken for the default graph.
pub const NAMED_SOURCE_SEGMENT: &'static str = "g/";

/// The data graph of a view.
#[derive(Debug, PartialEq, Eq, PartialOrd, Ord, Hash)]
pub enum ViewSource {
    Default,
    Named(String),
}

impl Clone for ViewSource {
    fn clone(&self) -> (r: ViewSource)
        ensures
            r == *self,
    {
        match self {
            ViewSource::Default => ViewSource::Default,
            ViewSource::Named(iri) => ViewSource::Named(iri.clone()),
        }
    }
}

/// The inferred graph of a data graph.
pub open spec fn inferred_iri(source: Option<Text>) -> Text {
    INFERRED_GRAPH_PREFIX@ + match source {
        None => DEFAULT_SOURCE_SEGMENT@,
        Some(iri) => NAMED_SOURCE_SEGMENT@ + segment_of(iri),
    }
}

impl ViewSource {
    /// The graph; `None` is the default graph.
    pub open spec fn view(&self) -> Option<Text> {
        match *self {
            ViewSource::Default => None,
            ViewSource::Named(iri) => Some(iri@),
        }
    }

    pub fn graph_name(&self) -> (r: GraphName)
        ensures
            graph_view(r) == self@,
    {
        match self {
            ViewSource::Default => None,
            ViewSource::Named(iri) => Some(iri.clone()),
        }
    }

    /// The inferred graph of the view. [`source_of_inferred_graph`] reads it
    /// back.
    pub fn inferred_graph(&self) -> (r: String)
        ensures
            r@ == inferred_iri(self@),
    {
        let mut out = INFERRED_GRAPH_PREFIX.to_owned();
        let mut segment = String::new();
        match self {
            ViewSource::Default => {
                segment.append(DEFAULT_SOURCE_SEGMENT);
                assert(segment@ =~= DEFAULT_SOURCE_SEGMENT@);
            },
            ViewSource::Named(iri) => {
                segment.append(NAMED_SOURCE_SEGMENT);
                segment.append(percent_encode_segment(iri.as_str()).as_str());
                assert(segment@ =~= NAMED_SOURCE_SEGMENT@ + segment_of(iri@));
            },
        }
        out.append(segment.as_str());
        out
    }
}

/// The data graph of an inferred graph; `None` where the IRI is none of ours.
pub open spec fn source_of(iri: Text) -> Option<Option<Text>> {
    if starts(iri, INFERRED_GRAPH_PREFIX@) {
        let segment = iri.skip(INFERRED_GRAPH_PREFIX@.len() as int);
        if segment == DEFAULT_SOURCE_SEGMENT@ {
            Some(None)
        } else if starts(segment, NAMED_SOURCE_SEGMENT@) {
            match segment_text(segment.skip(NAMED_SOURCE_SEGMENT@.len() as int)) {
                Some(source) => Some(Some(source)),
                None => None,
            }
        } else {
            None
        }
    } else {
        None
    }
}

pub fn source_of_inferred_graph(iri: &str) -> (r: Option<ViewSource>)
    ensures
        match r {
            Some(s) => source_of(iri@) == Some(s@),
            None => source_of(iri@) is None,
        },
{
    let segment = match strip_prefix(iri, INFERRED_GRAPH_PREFIX) {
        Some(s) => s,
        None => return None,
    };
    if same_text(segment.as_str(), DEFAULT_SOURCE_SEGMENT) {
        return Some(ViewSource::Default);
    }
    match strip_prefix(segment.as_str(), NAMED_SOURCE_SEGMENT) {
        Some(coded) => match percent_decode_segment(coded.as_str()) {
            Some(source) => Some(ViewSource::Named(source)),
            None => None,
        },
        None => None,
    }
}

proof fn prefix_strips(p: Text, s: Text)
    ensures
        starts(p + s, p),
        (p + s).skip(p.len() as int) == s,
{
    assert((p + s).take(p.len() as int) =~= p);
    assert((p + s).subrange(0, p.len() as int) =~= p);
    assert((p + s).skip(p.len() as int) =~= s);
}

/// The data graph reads back from its inferred graph. So no two data graphs
/// share one.
pub proof fn minting_reads_back(source: Option<Text>)
    ensures
        source_of(inferred_iri(source)) == Some(source),
{
    match source {
        None => prefix_strips(INFERRED_GRAPH_PREFIX@, DEFAULT_SOURCE_SEGMENT@),
        Some(iri) => {
            let named = NAMED_SOURCE_SEGMENT@ + segment_of(iri);
            prefix_strips(INFERRED_GRAPH_PREFIX@, named);
            prefix_strips(NAMED_SOURCE_SEGMENT@, segment_of(iri));
            segments_read_back(iri);
            reveal_strlit("default");
            reveal_strlit("g/");
            assert(named[0] == 'g');
            assert(DEFAULT_SOURCE_SEGMENT@[0] == 'd');
        },
    }
}

/// Two data graphs with one inferred graph are one graph.
pub proof fn minting_is_injective(a: Option<Text>, b: Option<Text>)
    requires
        inferred_iri(a) == inferred_iri(b),
    ensures
        a == b,
{
    minting_reads_back(a);
    minting_reads_back(b);
}

/// No inferred graph is that of the spine's closure.
pub proof fn minting_is_apart(source: Option<Text>)
    ensures
        inferred_iri(source) != SPINE_CLOSURE_GRAPH@,
{
    reveal_strlit("https://horndb.io/graph/inferred/");
    reveal_strlit("https://horndb.io/graph/spine-closure");
    assert(inferred_iri(source)[24] == 'i');
    assert(SPINE_CLOSURE_GRAPH@[24] == 's');
}

/// Every inferred graph is under the reserved prefix.
pub proof fn minting_is_reserved(source: Option<Text>)
    ensures
        reserved(inferred_iri(source)),
        reserved(SPINE_CLOSURE_GRAPH@),
        reserved(VIEWS_GRAPH@),
{
    reveal_strlit("https://horndb.io/graph/");
    reveal_strlit("https://horndb.io/graph/inferred/");
    reveal_strlit("https://horndb.io/graph/spine-closure");
    reveal_strlit("https://horndb.io/graph/views");
    let p = RESERVED_GRAPH_PREFIX@;
    let i = inferred_iri(source);
    assert(i.subrange(0, p.len() as int) =~= p);
    assert(i.take(p.len() as int) =~= p);
    assert(SPINE_CLOSURE_GRAPH@.subrange(0, p.len() as int) =~= p);
    assert(SPINE_CLOSURE_GRAPH@.take(p.len() as int) =~= p);
    assert(VIEWS_GRAPH@.subrange(0, p.len() as int) =~= p);
    assert(VIEWS_GRAPH@.take(p.len() as int) =~= p);
}

/// Is the graph one that reasoning writes?
pub fn is_reasoning_output(iri: &str) -> (r: bool)
    ensures
        r == reserved(iri@),
{
    starts_with(iri, RESERVED_GRAPH_PREFIX)
}

/// Does a pattern, an IRI or the start of one, select a graph?
pub fn pattern_matches(pattern: &str, iri: &str) -> (r: bool)
    ensures
        r == starts(iri@, pattern@),
{
    starts_with(iri, pattern)
}

// ── Settings ────────────────────────────────────────────────────────────────

/// Which graphs get a view.
#[derive(Debug)]
pub enum ViewSelect {
    /// All but the spine.
    AllExceptSpine,
    /// Those that a pattern selects.
    Patterns(Vec<String>),
}

/// Where a view keeps what it derives.
#[derive(Debug, Clone, Copy, PartialEq, Eq, Structural)]
pub enum ViewOutput {
    /// In its inferred graph.
    Graph,
    /// Nowhere: it is derived when asked for. Spelled `none` in the settings.
    Virtual,
}

#[derive(Debug)]
pub struct Views {
    pub select: ViewSelect,
    /// Do views reason with the spine?
    pub include_spine: bool,
    pub output: ViewOutput,
}

/// The settings of reasoning.
#[derive(Debug)]
pub struct Reasoning {
    pub enabled: bool,
    /// The graphs of the shared vocabulary, as patterns.
    pub spine: Vec<String>,
    pub views: Views,
    /// Does the default dataset hold the inferred graphs?
    pub default_dataset_includes_inferred: bool,
}

impl Reasoning {
    /// The patterns of the views; none where all graphs but the spine get one.
    pub open spec fn selected(&self) -> Seq<Text> {
        match self.views.select {
            ViewSelect::AllExceptSpine => Seq::empty(),
            ViewSelect::Patterns(p) => texts(p@),
        }
    }
}

fn no_patterns() -> (r: Vec<String>)
    ensures
        texts(r@) == Seq::<Text>::empty(),
{
    let none: Vec<String> = Vec::new();
    assert(texts(none@) =~= Seq::<Text>::empty());
    none
}

/// The patterns of the views.
pub fn select_patterns(cfg: &Reasoning) -> (r: Vec<String>)
    ensures
        texts(r@) == cfg.selected(),
{
    match &cfg.views.select {
        ViewSelect::AllExceptSpine => no_patterns(),
        ViewSelect::Patterns(p) => clone_strings(p),
    }
}

/// A text in quotes, as Rust's `Debug` writes it.
pub uninterp spec fn debug_form(s: Text) -> Text;

/// Calls the `Debug` of `str`, which puts a text in quotes and escapes what
/// would not show. The contract gives the result a name.
#[verifier::external_body]
fn debug_text(s: &str) -> (r: String)
    ensures
        r@ == debug_form(s@),
{
    format!("{:?}", s)
}

/// Do two patterns select a graph in common?
pub open spec fn overlap(a: Text, b: Text) -> bool {
    starts(a, b) || starts(b, a)
}

fn patterns_overlap(a: &str, b: &str) -> (r: bool)
    ensures
        r == overlap(a@, b@),
{
    pattern_matches(a, b) || pattern_matches(b, a)
}

/// The first pattern that selects a reserved graph.
pub open spec fn first_reserved(ps: Seq<Text>) -> Option<Text>
    decreases ps.len(),
{
    if ps.len() == 0 {
        None
    } else if overlap(ps[0], RESERVED_GRAPH_PREFIX@) {
        Some(ps[0])
    } else {
        first_reserved(ps.drop_first())
    }
}

/// The first pattern that overlaps with another.
pub open spec fn first_overlap(p: Text, others: Seq<Text>) -> Option<Text>
    decreases others.len(),
{
    if others.len() == 0 {
        None
    } else if overlap(p, others[0]) {
        Some(others[0])
    } else {
        first_overlap(p, others.drop_first())
    }
}

/// The first two patterns that overlap.
pub open spec fn first_clash(spine: Seq<Text>, select: Seq<Text>) -> Option<(Text, Text)>
    decreases spine.len(),
{
    if spine.len() == 0 {
        None
    } else {
        match first_overlap(spine[0], select) {
            Some(s) => Some((spine[0], s)),
            None => first_clash(spine.drop_first(), select),
        }
    }
}

pub open spec fn reserved_pattern(key: Text, pattern: Text) -> Text {
    key + " pattern "@ + debug_form(pattern) + " matches the reserved namespace "@ + debug_form(
        RESERVED_GRAPH_PREFIX@,
    ) + ", which HornDB writes its own derived graphs into"@
}

pub open spec fn clashing_patterns(spine: Text, select: Text) -> Text {
    "[reasoning].spine pattern "@ + debug_form(spine)
        + " and [reasoning].views.select pattern "@ + debug_form(select)
        + " select the same graphs; a graph is either spine or a view source, never both"@
}

pub open spec fn virtual_views() -> Text {
    "[reasoning].views.output = \"none\" (virtual, backward-chained views) is P4 and not implemented; use \"graph\""@
}

pub open spec fn empty_spine() -> Text {
    "[reasoning].enabled is set with an empty [reasoning].spine: every view will derive only from its own graph, so no shared vocabulary axiom (rdfs:subClassOf and friends) will fire. This is legal but rarely intended."@
}

/// What is to be said of the settings: warnings, or the error that names the
/// setting at fault.
pub open spec fn verdict(cfg: &Reasoning) -> Result<Seq<Text>, Text> {
    let spine = texts(cfg.spine@);
    let select = cfg.selected();
    if first_reserved(spine) is Some {
        Err(reserved_pattern("[reasoning].spine"@, first_reserved(spine)->0))
    } else if first_reserved(select) is Some {
        Err(reserved_pattern("[reasoning].views.select"@, first_reserved(select)->0))
    } else if first_clash(spine, select) is Some {
        let (a, b) = first_clash(spine, select)->0;
        Err(clashing_patterns(a, b))
    } else if cfg.views.output == ViewOutput::Virtual {
        Err(virtual_views())
    } else if cfg.enabled && spine.len() == 0 {
        Ok(seq![empty_spine()])
    } else {
        Ok(Seq::empty())
    }
}

fn find_reserved(ps: &Vec<String>) -> (r: Option<&String>)
    ensures
        match r {
            Some(p) => first_reserved(texts(ps@)) == Some(p@),
            None => first_reserved(texts(ps@)) is None,
        },
{
    let ghost pv = texts(ps@);
    let mut i: usize = 0;
    assert(pv.skip(0) =~= pv);
    while i < ps.len()
        invariant
            i <= ps@.len(),
            pv == texts(ps@),
            first_reserved(pv) == first_reserved(pv.skip(i as int)),
        decreases ps@.len() - i,
    {
        proof {
            assert(pv.skip(i as int).drop_first() =~= pv.skip(i + 1));
            assert(pv.skip(i as int)[0] == ps@[i as int]@);
        }
        if patterns_overlap(ps[i].as_str(), RESERVED_GRAPH_PREFIX) {
            return Some(&ps[i]);
        }
        i = i + 1;
    }
    None
}

fn find_overlap<'a>(p: &str, others: &'a Vec<String>) -> (r: Option<&'a String>)
    ensures
        match r {
            Some(o) => first_overlap(p@, texts(others@)) == Some(o@),
            None => first_overlap(p@, texts(others@)) is None,
        },
{
    let ghost ov = texts(others@);
    let mut i: usize = 0;
    assert(ov.skip(0) =~= ov);
    while i < others.len()
        invariant
            i <= others@.len(),
            ov == texts(others@),
            first_overlap(p@, ov) == first_overlap(p@, ov.skip(i as int)),
        decreases others@.len() - i,
    {
        proof {
            assert(ov.skip(i as int).drop_first() =~= ov.skip(i + 1));
            assert(ov.skip(i as int)[0] == others@[i as int]@);
        }
        if patterns_overlap(p, others[i].as_str()) {
            return Some(&others[i]);
        }
        i = i + 1;
    }
    None
}

fn find_clash<'a>(spine: &'a Vec<String>, select: &'a Vec<String>) -> (r: Option<
    (&'a String, &'a String),
>)
    ensures
        match r {
            Some((a, b)) => first_clash(texts(spine@), texts(select@)) == Some((a@, b@)),
            None => first_clash(texts(spine@), texts(select@)) is None,
        },
{
    let ghost sv = texts(spine@);
    let mut i: usize = 0;
    assert(sv.skip(0) =~= sv);
    while i < spine.len()
        invariant
            i <= spine@.len(),
            sv == texts(spine@),
            first_clash(sv, texts(select@)) == first_clash(sv.skip(i as int), texts(select@)),
        decreases spine@.len() - i,
    {
        proof {
            assert(sv.skip(i as int).drop_first() =~= sv.skip(i + 1));
            assert(sv.skip(i as int)[0] == spine@[i as int]@);
        }
        match find_overlap(spine[i].as_str(), select) {
            Some(o) => {
                return Some((&spine[i], o));
            },
            None => {},
        }
        i = i + 1;
    }
    None
}

fn reserved_pattern_error(key: &str, pattern: &str) -> (r: String)
    ensures
        r@ == reserved_pattern(key@, pattern@),
{
    let mut msg = key.to_owned();
    msg.append(" pattern ");
    msg.append(debug_text(pattern).as_str());
    msg.append(" matches the reserved namespace ");
    msg.append(debug_text(RESERVED_GRAPH_PREFIX).as_str());
    msg.append(", which HornDB writes its own derived graphs into");
    msg
}

/// Checks the settings. A pattern may not reach into the reserved graphs, and
/// none may select a graph that one of the other kind selects: a graph is
/// either of the spine or of a view.
pub fn validate(cfg: &Reasoning) -> (r: Result<Vec<String>, String>)
    ensures
        match (r, verdict(cfg)) {
            (Ok(w), Ok(v)) => texts(w@) == v,
            (Err(e), Err(f)) => e@ == f,
            _ => false,
        },
{
    let select = select_patterns(cfg);
    if let Some(p) = find_reserved(&cfg.spine) {
        return Err(reserved_pattern_error("[reasoning].spine", p.as_str()));
    }
    if let Some(p) = find_reserved(&select) {
        return Err(reserved_pattern_error("[reasoning].views.select", p.as_str()));
    }
    if let Some((a, b)) = find_clash(&cfg.spine, &select) {
        let mut msg = "[reasoning].spine pattern ".to_owned();
        msg.append(debug_text(a.as_str()).as_str());
        msg.append(" and [reasoning].views.select pattern ");
        msg.append(debug_text(b.as_str()).as_str());
        msg.append(
            " select the same graphs; a graph is either spine or a view source, never both",
        );
        return Err(msg);
    }
    if cfg.views.output == ViewOutput::Virtual {
        return Err(
            "[reasoning].views.output = \"none\" (virtual, backward-chained views) is P4 and not implemented; use \"graph\"".to_owned(),
        );
    }
    let mut warnings: Vec<String> = Vec::new();
    if cfg.enabled && cfg.spine.len() == 0 {
        warnings.push(
            "[reasoning].enabled is set with an empty [reasoning].spine: every view will derive only from its own graph, so no shared vocabulary axiom (rdfs:subClassOf and friends) will fire. This is legal but rarely intended.".to_owned(),
        );
        assert(texts(warnings@) =~= seq![empty_spine()]);
    } else {
        assert(texts(warnings@) =~= Seq::empty());
    }
    Ok(warnings)
}

}
