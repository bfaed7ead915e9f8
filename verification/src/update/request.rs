//! Update requests, and what they are refused before anything is written.

use crate::algebra::{
    patterns_view, Algebra, AlgebraView, DatasetSpec, DatasetView, PatternView, Term, TriplePattern,
};
use crate::error::{ErrorView, SparqlError};
use crate::exec::literal::opt_text;
use crate::exec::scope::reserved;
use crate::exec::store::{
    graph_view, holds_graph, quad_view, quads_view, AlgebraQuad, GraphName, QuadView, Store,
};
use crate::text::Text;
use crate::update::hints::{
    hints_of, hints_view, recover_amc_hints, AmcHint, AmcSource, HintView, SourceView,
};
use crate::update::load::{dataset_format, is_dataset_format};
use crate::update::template::{
    ground_reserved, reserved_iri_write_check, reserved_template_check, reserved_write,
    reserved_write_check, templates_view, writable, QuadTemplate, QuadTemplateView,
};
use crate::SparqlConfig;
use vstd::prelude::*;
use vstd::string::*;

verus! {

// ── Requests ────────────────────────────────────────────────────────────────

/// The graphs a `CLEAR` or `DROP` is about.
#[derive(Debug, PartialEq, Eq)]
pub enum GraphTarget {
    DefaultGraph,
    NamedNode(String),
    /// Every named graph.
    NamedGraphs,
    /// The default graph and every named graph.
    AllGraphs,
}

#[allow(inconsistent_fields)]
#[verifier::ext_equal]
pub enum TargetView {
    DefaultGraph,
    NamedNode(Text),
    NamedGraphs,
    AllGraphs,
}

impl GraphTarget {
    pub open spec fn view(&self) -> TargetView {
        match *self {
            GraphTarget::DefaultGraph => TargetView::DefaultGraph,
            GraphTarget::NamedNode(s) => TargetView::NamedNode(s@),
            GraphTarget::NamedGraphs => TargetView::NamedGraphs,
            GraphTarget::AllGraphs => TargetView::AllGraphs,
        }
    }
}

/// The pattern of an update.
pub enum WherePattern {
    Algebra(Algebra),
    /// A pattern with no algebra, and why.
    Unsupported(String),
}

#[allow(inconsistent_fields)]
#[verifier::ext_equal]
pub enum WhereView {
    Algebra(AlgebraView),
    Unsupported(Text),
}

impl WherePattern {
    pub open spec fn view(&self) -> WhereView {
        match *self {
            WherePattern::Algebra(a) => WhereView::Algebra(a@),
            WherePattern::Unsupported(s) => WhereView::Unsupported(s@),
        }
    }
}

/// What came of reading the document of a `LOAD`.
#[derive(Debug)]
pub enum Document {
    Quads(Vec<AlgebraQuad>),
    Failed(SparqlError),
}

#[allow(inconsistent_fields)]
#[verifier::ext_equal]
pub enum DocumentView {
    Quads(Seq<QuadView>),
    Failed(ErrorView),
}

impl Document {
    pub open spec fn view(&self) -> DocumentView {
        match *self {
            Document::Quads(q) => DocumentView::Quads(quads_view(q@)),
            Document::Failed(e) => DocumentView::Failed(e@),
        }
    }
}

/// One operation of a request. `ADD`, `MOVE` and `COPY` are written with the
/// others.
#[allow(inconsistent_fields)]
pub enum UpdateOp {
    InsertData { data: Vec<AlgebraQuad> },
    DeleteData { data: Vec<AlgebraQuad> },
    DeleteInsert {
        delete: Vec<QuadTemplate>,
        insert: Vec<QuadTemplate>,
        using: DatasetSpec,
        pattern: WherePattern,
    },
    Load { silent: bool, source: String, destination: GraphName, document: Document },
    Clear { silent: bool, graph: GraphTarget },
    Drop { silent: bool, graph: GraphTarget },
    Create { silent: bool, graph: String },
}

#[allow(inconsistent_fields)]
#[verifier::ext_equal]
pub enum OpView {
    InsertData { data: Seq<QuadView> },
    DeleteData { data: Seq<QuadView> },
    DeleteInsert {
        delete: Seq<QuadTemplateView>,
        insert: Seq<QuadTemplateView>,
        using: DatasetView,
        pattern: WhereView,
    },
    Load { silent: bool, source: Text, destination: Option<Text>, document: DocumentView },
    Clear { silent: bool, graph: TargetView },
    Drop { silent: bool, graph: TargetView },
    Create { silent: bool, graph: Text },
}

impl UpdateOp {
    pub open spec fn view(&self) -> OpView {
        match *self {
            UpdateOp::InsertData { data } => OpView::InsertData { data: quads_view(data@) },
            UpdateOp::DeleteData { data } => OpView::DeleteData { data: quads_view(data@) },
            UpdateOp::DeleteInsert { delete, insert, using, pattern } => OpView::DeleteInsert {
                delete: templates_view(delete@),
                insert: templates_view(insert@),
                using: using@,
                pattern: pattern@,
            },
            UpdateOp::Load { silent, source, destination, document } => OpView::Load {
                silent,
                source: source@,
                destination: graph_view(destination),
                document: document@,
            },
            UpdateOp::Clear { silent, graph } => OpView::Clear { silent, graph: graph@ },
            UpdateOp::Drop { silent, graph } => OpView::Drop { silent, graph: graph@ },
            UpdateOp::Create { silent, graph } => OpView::Create { silent, graph: graph@ },
        }
    }
}

pub open spec fn ops_view(s: Seq<UpdateOp>) -> Seq<OpView> {
    Seq::new(s.len(), |i: int| s[i]@)
}

/// An update request.
pub struct UpdateRequest {
    pub operations: Vec<UpdateOp>,
    /// The text of the request.
    pub source: String,
    /// The base from outside the text.
    pub base_iri: Option<String>,
}

#[allow(inconsistent_fields)]
#[verifier::ext_equal]
pub struct UpdateView {
    pub operations: Seq<OpView>,
    pub source: Text,
    pub base_iri: Option<Text>,
}

impl UpdateRequest {
    pub open spec fn view(&self) -> UpdateView {
        UpdateView {
            operations: ops_view(self.operations@),
            source: self.source@,
            base_iri: opt_text(self.base_iri),
        }
    }
}

// ── Errors ──────────────────────────────────────────────────────────────────

pub open spec fn triple_term_error() -> ErrorView {
    ErrorView::UnsupportedAlgebra("RDF 1.2 triple term in update (SPARQL 1.1 mode)"@)
}

fn triple_term_unsupported() -> (r: SparqlError)
    ensures
        r@ == triple_term_error(),
{
    SparqlError::UnsupportedAlgebra("RDF 1.2 triple term in update (SPARQL 1.1 mode)".to_owned())
}

pub open spec fn graph_exists_error(iri: Text) -> ErrorView {
    ErrorView::Executor(
        "CREATE GRAPH <"@ + iri + ">: graph already exists (use SILENT to make it a no-op)"@,
    )
}

fn create_graph_exists_error(iri: &str) -> (r: SparqlError)
    ensures
        r@ == graph_exists_error(iri@),
{
    let mut msg = "CREATE GRAPH <".to_owned();
    msg.append(iri);
    msg.append(">: graph already exists (use SILENT to make it a no-op)");
    SparqlError::Executor(msg)
}

pub open spec fn graph_missing_error(verb: Text, iri: Text) -> ErrorView {
    ErrorView::Executor(
        verb + " GRAPH <"@ + iri + ">: graph does not exist (use SILENT to make it a no-op)"@,
    )
}

fn missing_graph_error(verb: &str, iri: &str) -> (r: SparqlError)
    ensures
        r@ == graph_missing_error(verb@, iri@),
{
    let mut msg = verb.to_owned();
    msg.append(" GRAPH <");
    msg.append(iri);
    msg.append(">: graph does not exist (use SILENT to make it a no-op)");
    SparqlError::Executor(msg)
}

pub open spec fn source_missing_error(iri: Text) -> ErrorView {
    ErrorView::Executor(
        "source graph <"@ + iri + "> does not exist (use SILENT to make it a no-op)"@,
    )
}

fn amc_source_missing_error(iri: &str) -> (r: SparqlError)
    ensures
        r@ == source_missing_error(iri@),
{
    let mut msg = "source graph <".to_owned();
    msg.append(iri);
    msg.append("> does not exist (use SILENT to make it a no-op)");
    SparqlError::Executor(msg)
}

pub open spec fn source_unresolvable_error() -> ErrorView {
    ErrorView::Executor(
        "ADD/MOVE/COPY source graph uses an IRI escape (\\uXXXX or a PN_LOCAL_ESC backslash) that the SILENT-recovery scan cannot resolve; a non-silent op fails closed here to avoid writing the wrong graph (use SILENT to make it a no-op)"@,
    )
}

fn amc_source_unresolvable_error() -> (r: SparqlError)
    ensures
        r@ == source_unresolvable_error(),
{
    SparqlError::Executor(
        "ADD/MOVE/COPY source graph uses an IRI escape (\\uXXXX or a PN_LOCAL_ESC backslash) that the SILENT-recovery scan cannot resolve; a non-silent op fails closed here to avoid writing the wrong graph (use SILENT to make it a no-op)".to_owned(),
    )
}

pub open spec fn dataset_into_graph_error(source: Text, dest: Text) -> ErrorView {
    ErrorView::UnsupportedAlgebra(
        "LOAD of a dataset format <"@ + source + "> INTO GRAPH <"@ + dest
            + "> is not defined: a quad source already carries its own graph names, so redirecting them into one graph has no meaning (W3C LOAD is a graph operation)."@,
    )
}

fn load_dataset_into_graph_error(source: &str, dest: &str) -> (r: SparqlError)
    ensures
        r@ == dataset_into_graph_error(source@, dest@),
{
    let mut msg = "LOAD of a dataset format <".to_owned();
    msg.append(source);
    msg.append("> INTO GRAPH <");
    msg.append(dest);
    msg.append(
        "> is not defined: a quad source already carries its own graph names, so redirecting them into one graph has no meaning (W3C LOAD is a graph operation).",
    );
    SparqlError::UnsupportedAlgebra(msg)
}

// ── Preflight ───────────────────────────────────────────────────────────────

/// Does the result match the error that is due, if one is?
pub open spec fn reports(r: Result<(), SparqlError>, due: Option<ErrorView>) -> bool {
    match (r, due) {
        (Ok(_), None) => true,
        (Err(e), Some(d)) => e@ == d,
        _ => false,
    }
}

/// The first error of quad data: a reserved graph, or a triple term.
pub open spec fn data_error(data: Seq<QuadView>) -> Option<ErrorView>
    decreases data.len(),
{
    if data.len() == 0 {
        None
    } else if !writable(data[0].graph) {
        Some(reserved_write(data[0].graph->0))
    } else if data[0].object is Triple {
        Some(triple_term_error())
    } else {
        data_error(data.drop_first())
    }
}

/// The first quad in a reserved graph, as an error.
pub open spec fn reserved_error(data: Seq<QuadView>) -> Option<ErrorView>
    decreases data.len(),
{
    if data.len() == 0 {
        None
    } else if !writable(data[0].graph) {
        Some(reserved_write(data[0].graph->0))
    } else {
        reserved_error(data.drop_first())
    }
}

/// The first template that names a reserved graph, as an error.
pub open spec fn template_error(ts: Seq<QuadTemplateView>) -> Option<ErrorView>
    decreases ts.len(),
{
    if ts.len() == 0 {
        None
    } else if ground_reserved(ts[0].graph) {
        Some(reserved_write(ts[0].graph->NamedNode_0))
    } else {
        template_error(ts.drop_first())
    }
}

/// Is a template's subject or object a triple term?
pub open spec fn has_triple_term(t: QuadTemplateView) -> bool {
    t.subject is Triple || t.object is Triple
}

pub open spec fn any_triple_term(ts: Seq<QuadTemplateView>) -> bool {
    exists|i: int| 0 <= i < ts.len() && has_triple_term(#[trigger] ts[i])
}

/// Does a pattern match triple terms?
pub open spec fn triple_pattern(p: PatternView) -> bool {
    p.subject is Triple || p.object is Triple
}

pub open spec fn any_triple_pattern(ps: Seq<PatternView>) -> bool {
    exists|i: int| 0 <= i < ps.len() && triple_pattern(#[trigger] ps[i])
}

/// Does an algebra match triple terms?
pub open spec fn uses_triple_terms(a: AlgebraView) -> bool
    decreases a,
{
    match a {
        AlgebraView::Bgp { patterns } => any_triple_pattern(patterns),
        AlgebraView::Join { left, right } => uses_triple_terms(*left) || uses_triple_terms(*right),
        AlgebraView::LeftJoin { left, right, .. } => uses_triple_terms(*left)
            || uses_triple_terms(*right),
        AlgebraView::Minus { left, right } => uses_triple_terms(*left) || uses_triple_terms(*right),
        AlgebraView::Union { left, right } => uses_triple_terms(*left) || uses_triple_terms(*right),
        AlgebraView::Filter { inner, .. } => uses_triple_terms(*inner),
        AlgebraView::Project { inner, .. } => uses_triple_terms(*inner),
        AlgebraView::Distinct { inner } => uses_triple_terms(*inner),
        AlgebraView::Slice { inner, .. } => uses_triple_terms(*inner),
        AlgebraView::OrderBy { inner, .. } => uses_triple_terms(*inner),
        AlgebraView::Extend { inner, .. } => uses_triple_terms(*inner),
        AlgebraView::Values { .. } => false,
        AlgebraView::Group { inner, .. } => uses_triple_terms(*inner),
        AlgebraView::PathClosure { edge, .. } => uses_triple_terms(*edge),
        AlgebraView::Graph { inner, .. } => uses_triple_terms(*inner),
    }
}

/// The error of an update's pattern.
pub open spec fn where_error(pattern: WhereView, cfg: SparqlConfig) -> Option<ErrorView> {
    match pattern {
        WhereView::Unsupported(why) => Some(ErrorView::UnsupportedAlgebra(why)),
        WhereView::Algebra(a) => if uses_triple_terms(a) && !cfg.rdf12 {
            Some(triple_term_error())
        } else {
            None
        },
    }
}

/// The error of a pattern update, before any solution is known.
pub open spec fn delete_insert_error(
    delete: Seq<QuadTemplateView>,
    insert: Seq<QuadTemplateView>,
    pattern: WhereView,
    cfg: SparqlConfig,
) -> Option<ErrorView> {
    if template_error(delete) is Some {
        template_error(delete)
    } else if template_error(insert) is Some {
        template_error(insert)
    } else if any_triple_term(delete) || any_triple_term(insert) {
        Some(triple_term_error())
    } else {
        where_error(pattern, cfg)
    }
}

/// The error of a `CLEAR` or `DROP`: a reserved graph, or a named graph that
/// is not there.
pub open spec fn clear_error(
    verb: Text,
    silent: bool,
    graph: TargetView,
    quads: Set<QuadView>,
) -> Option<ErrorView> {
    match graph {
        TargetView::NamedNode(iri) => if reserved(iri) {
            Some(reserved_write(iri))
        } else if !holds_graph(quads, iri) && !silent {
            Some(graph_missing_error(verb, iri))
        } else {
            None
        },
        _ => None,
    }
}

/// The error of a `CREATE`: a reserved graph, or one that is there.
pub open spec fn create_error(silent: bool, iri: Text, quads: Set<QuadView>) -> Option<ErrorView> {
    if reserved(iri) {
        Some(reserved_write(iri))
    } else if holds_graph(quads, iri) && !silent {
        Some(graph_exists_error(iri))
    } else {
        None
    }
}

/// The error of a `LOAD`. A reserved graph is refused, `SILENT` or not, be it
/// the destination or a graph that the document names.
pub open spec fn load_error(
    silent: bool,
    source: Text,
    destination: Option<Text>,
    document: DocumentView,
) -> Option<ErrorView> {
    if !writable(destination) {
        Some(reserved_write(destination->0))
    } else if destination is None && document is Quads && reserved_error(document->Quads_0) is Some {
        reserved_error(document->Quads_0)
    } else if silent {
        None
    } else if destination is Some && dataset_format(source) {
        Some(dataset_into_graph_error(source, destination->0))
    } else {
        match document {
            DocumentView::Failed(e) => Some(e),
            DocumentView::Quads(_) => None,
        }
    }
}

/// The error of an operation against the quads of a store, before anything is
/// written.
pub open spec fn op_error(op: OpView, quads: Set<QuadView>, cfg: SparqlConfig) -> Option<ErrorView> {
    match op {
        OpView::InsertData { data } => data_error(data),
        OpView::DeleteData { data } => data_error(data),
        OpView::DeleteInsert { delete, insert, pattern, .. } => delete_insert_error(
            delete,
            insert,
            pattern,
            cfg,
        ),
        OpView::Clear { silent, graph } => clear_error("CLEAR"@, silent, graph, quads),
        OpView::Drop { silent, graph } => clear_error("DROP"@, silent, graph, quads),
        OpView::Create { silent, graph } => create_error(silent, graph, quads),
        OpView::Load { silent, source, destination, document } => load_error(
            silent,
            source,
            destination,
            document,
        ),
    }
}

/// The first error of operations, each against the same quads.
pub open spec fn ops_error(ops: Seq<OpView>, quads: Set<QuadView>, cfg: SparqlConfig) -> Option<
    ErrorView,
>
    decreases ops.len(),
{
    if ops.len() == 0 {
        None
    } else if op_error(ops[0], quads, cfg) is Some {
        op_error(ops[0], quads, cfg)
    } else {
        ops_error(ops.drop_first(), quads, cfg)
    }
}

/// The error of one `ADD`, `MOVE` or `COPY`: its source is not there, or
/// cannot be told.
pub open spec fn hint_error(h: HintView, quads: Set<QuadView>) -> Option<ErrorView> {
    if h.silent || h.is_identity {
        None
    } else {
        match h.source {
            SourceView::Default => None,
            SourceView::Named(g) => if holds_graph(quads, g) {
                None
            } else {
                Some(source_missing_error(g))
            },
            SourceView::Unknown => Some(source_unresolvable_error()),
        }
    }
}

pub open spec fn hints_error(hs: Seq<HintView>, quads: Set<QuadView>) -> Option<ErrorView>
    decreases hs.len(),
{
    if hs.len() == 0 {
        None
    } else if hint_error(hs[0], quads) is Some {
        hint_error(hs[0], quads)
    } else {
        hints_error(hs.drop_first(), quads)
    }
}

/// The error a request is refused with before anything is written.
pub open spec fn request_error(u: UpdateView, quads: Set<QuadView>, cfg: SparqlConfig) -> Option<
    ErrorView,
> {
    let sources = hints_error(hints_of(u.source, u.base_iri), quads);
    if sources is Some {
        sources
    } else {
        ops_error(u.operations, quads, cfg)
    }
}

proof fn data_error_step(data: Seq<QuadView>, i: int)
    requires
        0 <= i < data.len(),
    ensures
        data.skip(i)[0] == data[i],
        data.skip(i).drop_first() == data.skip(i + 1),
{
    assert(data.skip(i).drop_first() =~= data.skip(i + 1));
}

fn validate_data(data: &Vec<AlgebraQuad>) -> (r: Result<(), SparqlError>)
    ensures
        reports(r, data_error(quads_view(data@))),
{
    let ghost dv = quads_view(data@);
    let mut i: usize = 0;
    assert(dv.skip(0) =~= dv);
    while i < data.len()
        invariant
            i <= data@.len(),
            dv == quads_view(data@),
            data_error(dv) == data_error(dv.skip(i as int)),
        decreases data@.len() - i,
    {
        proof {
            data_error_step(dv, i as int);
            assert(dv[i as int] == quad_view(data@[i as int]));
        }
        match reserved_write_check(&data[i].0) {
            Ok(_) => {},
            Err(e) => return Err(e),
        }
        match &data[i].3 {
            Term::Triple(_) => {
                return Err(triple_term_unsupported());
            },
            _ => {},
        }
        i = i + 1;
    }
    assert(dv.skip(i as int).len() == 0);
    Ok(())
}

/// Refuses quads in reserved graphs.
pub fn reserved_quads_check(data: &Vec<AlgebraQuad>) -> (r: Result<(), SparqlError>)
    ensures
        reports(r, reserved_error(quads_view(data@))),
{
    let ghost dv = quads_view(data@);
    let mut i: usize = 0;
    assert(dv.skip(0) =~= dv);
    while i < data.len()
        invariant
            i <= data@.len(),
            dv == quads_view(data@),
            reserved_error(dv) == reserved_error(dv.skip(i as int)),
        decreases data@.len() - i,
    {
        proof {
            data_error_step(dv, i as int);
            assert(dv[i as int] == quad_view(data@[i as int]));
        }
        match reserved_write_check(&data[i].0) {
            Ok(_) => {},
            Err(e) => return Err(e),
        }
        i = i + 1;
    }
    assert(dv.skip(i as int).len() == 0);
    Ok(())
}

fn validate_templates(ts: &Vec<QuadTemplate>) -> (r: Result<(), SparqlError>)
    ensures
        reports(r, template_error(templates_view(ts@))),
{
    let ghost tv = templates_view(ts@);
    let mut i: usize = 0;
    assert(tv.skip(0) =~= tv);
    while i < ts.len()
        invariant
            i <= ts@.len(),
            tv == templates_view(ts@),
            template_error(tv) == template_error(tv.skip(i as int)),
        decreases ts@.len() - i,
    {
        proof {
            assert(tv.skip(i as int).drop_first() =~= tv.skip(i + 1));
            assert(tv.skip(i as int)[0] == ts@[i as int]@);
        }
        match reserved_template_check(&ts[i].graph) {
            Ok(_) => {},
            Err(e) => return Err(e),
        }
        i = i + 1;
    }
    assert(tv.skip(i as int).len() == 0);
    Ok(())
}

fn is_triple(t: &Term) -> (r: bool)
    ensures
        r == (t@ is Triple),
{
    match t {
        Term::Triple(_) => true,
        _ => false,
    }
}

fn templates_have_triple_term(ts: &Vec<QuadTemplate>) -> (r: bool)
    ensures
        r == any_triple_term(templates_view(ts@)),
{
    let ghost tv = templates_view(ts@);
    let mut i: usize = 0;
    while i < ts.len()
        invariant
            i <= ts@.len(),
            tv == templates_view(ts@),
            forall|j: int| 0 <= j < i ==> !has_triple_term(#[trigger] tv[j]),
        decreases ts@.len() - i,
    {
        assert(tv[i as int] == ts@[i as int]@);
        if is_triple(&ts[i].subject) || is_triple(&ts[i].object) {
            assert(has_triple_term(tv[i as int]));
            return true;
        }
        i = i + 1;
    }
    false
}

fn patterns_have_triple_term(ps: &Vec<TriplePattern>) -> (r: bool)
    ensures
        r == any_triple_pattern(patterns_view(ps@)),
{
    let ghost pv = patterns_view(ps@);
    let mut i: usize = 0;
    while i < ps.len()
        invariant
            i <= ps@.len(),
            pv == patterns_view(ps@),
            forall|j: int| 0 <= j < i ==> !triple_pattern(#[trigger] pv[j]),
        decreases ps@.len() - i,
    {
        assert(pv[i as int] == ps@[i as int]@);
        if is_triple(&ps[i].subject) || is_triple(&ps[i].object) {
            assert(triple_pattern(pv[i as int]));
            return true;
        }
        i = i + 1;
    }
    false
}

fn matches_triple_terms(a: &Algebra) -> (r: bool)
    ensures
        r == uses_triple_terms(a@),
    decreases a,
{
    match a {
        Algebra::Bgp { patterns } => patterns_have_triple_term(patterns),
        Algebra::Join { left, right } | Algebra::LeftJoin { left, right, .. } | Algebra::Minus {
            left,
            right,
        } | Algebra::Union { left, right } => matches_triple_terms(left) || matches_triple_terms(
            right,
        ),
        Algebra::Filter { inner, .. } | Algebra::Project { inner, .. } | Algebra::Distinct { inner }
        | Algebra::Slice { inner, .. } | Algebra::OrderBy { inner, .. } | Algebra::Extend {
            inner,
            ..
        } | Algebra::Group { inner, .. } | Algebra::Graph { inner, .. } => matches_triple_terms(
            inner,
        ),
        Algebra::PathClosure { edge, .. } => matches_triple_terms(edge),
        Algebra::Values { .. } => false,
    }
}

/// The checks of a pattern update that need no solution.
pub fn validate_delete_insert(
    delete: &Vec<QuadTemplate>,
    insert: &Vec<QuadTemplate>,
    pattern: &WherePattern,
    cfg: &SparqlConfig,
) -> (r: Result<(), SparqlError>)
    ensures
        reports(
            r,
            delete_insert_error(templates_view(delete@), templates_view(insert@), pattern@, *cfg),
        ),
{
    match validate_templates(delete) {
        Ok(_) => {},
        Err(e) => return Err(e),
    }
    match validate_templates(insert) {
        Ok(_) => {},
        Err(e) => return Err(e),
    }
    if templates_have_triple_term(delete) || templates_have_triple_term(insert) {
        return Err(triple_term_unsupported());
    }
    match pattern {
        WherePattern::Unsupported(why) => Err(SparqlError::UnsupportedAlgebra(why.clone())),
        WherePattern::Algebra(a) => {
            if matches_triple_terms(a) && !cfg.rdf12 {
                return Err(triple_term_unsupported());
            }
            Ok(())
        },
    }
}

/// The checks of a `CLEAR` or `DROP`.
pub fn validate_clear_drop<B: Store>(
    verb: &str,
    silent: bool,
    graph: &GraphTarget,
    store: &B,
) -> (r: Result<(), SparqlError>)
    ensures
        reports(r, clear_error(verb@, silent, graph@, store.quads())),
{
    match graph {
        GraphTarget::NamedNode(iri) => {
            match reserved_iri_write_check(iri.as_str()) {
                Ok(_) => {},
                Err(e) => return Err(e),
            }
            if !store.graph_exists(iri.as_str()) && !silent {
                return Err(missing_graph_error(verb, iri.as_str()));
            }
            Ok(())
        },
        _ => Ok(()),
    }
}

/// The checks of a `CREATE`.
pub fn validate_create<B: Store>(silent: bool, iri: &str, store: &B) -> (r: Result<(), SparqlError>)
    ensures
        reports(r, create_error(silent, iri@, store.quads())),
{
    match reserved_iri_write_check(iri) {
        Ok(_) => {},
        Err(e) => return Err(e),
    }
    if store.graph_exists(iri) && !silent {
        return Err(create_graph_exists_error(iri));
    }
    Ok(())
}

/// The checks of a `LOAD`.
pub fn validate_load(
    silent: bool,
    source: &str,
    destination: &GraphName,
    document: &Document,
) -> (r: Result<(), SparqlError>)
    ensures
        reports(r, load_error(silent, source@, graph_view(*destination), document@)),
{
    match reserved_write_check(destination) {
        Ok(_) => {},
        Err(e) => return Err(e),
    }
    if destination.is_none() {
        if let Document::Quads(quads) = document {
            match reserved_quads_check(quads) {
                Ok(_) => {},
                Err(e) => return Err(e),
            }
        }
    }
    if silent {
        return Ok(());
    }
    if let Some(dest) = destination {
        if is_dataset_format(source) {
            return Err(load_dataset_into_graph_error(source, dest.as_str()));
        }
    }
    match document {
        Document::Failed(e) => Err(e.clone()),
        Document::Quads(_) => Ok(()),
    }
}

/// Checks one operation against the store, without writing.
pub fn validate_op<B: Store>(op: &UpdateOp, cfg: &SparqlConfig, store: &B) -> (r: Result<
    (),
    SparqlError,
>)
    ensures
        reports(r, op_error(op@, store.quads(), *cfg)),
{
    match op {
        UpdateOp::InsertData { data } => validate_data(data),
        UpdateOp::DeleteData { data } => validate_data(data),
        UpdateOp::DeleteInsert { delete, insert, pattern, .. } => validate_delete_insert(
            delete,
            insert,
            pattern,
            cfg,
        ),
        UpdateOp::Clear { silent, graph } => validate_clear_drop("CLEAR", *silent, graph, store),
        UpdateOp::Drop { silent, graph } => validate_clear_drop("DROP", *silent, graph, store),
        UpdateOp::Create { silent, graph } => validate_create(*silent, graph.as_str(), store),
        UpdateOp::Load { silent, source, destination, document } => validate_load(
            *silent,
            source.as_str(),
            destination,
            document,
        ),
    }
}

fn validate_hint<B: Store>(h: &AmcHint, store: &B) -> (r: Result<(), SparqlError>)
    ensures
        reports(r, hint_error(h@, store.quads())),
{
    if h.silent || h.is_identity {
        return Ok(());
    }
    match &h.source {
        AmcSource::Default => Ok(()),
        AmcSource::Named(g) => if store.graph_exists(g.as_str()) {
            Ok(())
        } else {
            Err(amc_source_missing_error(g.as_str()))
        },
        AmcSource::Unknown => Err(amc_source_unresolvable_error()),
    }
}

/// Checks a request against the store, without writing: first the sources of
/// its `ADD`, `MOVE` and `COPY`, then every operation in order.
pub fn validate_update<B: Store>(u: &UpdateRequest, cfg: &SparqlConfig, store: &B) -> (r: Result<
    (),
    SparqlError,
>)
    ensures
        reports(r, request_error(u@, store.quads(), *cfg)),
{
    let hints = recover_amc_hints(u.source.as_str(), &u.base_iri);
    let ghost hv = hints_view(hints@);
    let mut i: usize = 0;
    assert(hv.skip(0) =~= hv);
    while i < hints.len()
        invariant
            i <= hints@.len(),
            hv == hints_view(hints@),
            hv == hints_of(u@.source, u@.base_iri),
            hints_error(hv, store.quads()) == hints_error(hv.skip(i as int), store.quads()),
        decreases hints@.len() - i,
    {
        proof {
            assert(hv.skip(i as int).drop_first() =~= hv.skip(i + 1));
            assert(hv.skip(i as int)[0] == hints@[i as int]@);
        }
        match validate_hint(&hints[i], store) {
            Ok(_) => {},
            Err(e) => return Err(e),
        }
        i = i + 1;
    }
    assert(hv.skip(i as int).len() == 0);
    let ghost ov = ops_view(u.operations@);
    let mut k: usize = 0;
    assert(ov.skip(0) =~= ov);
    while k < u.operations.len()
        invariant
            k <= u.operations@.len(),
            ov == ops_view(u.operations@),
            hints_error(hints_of(u@.source, u@.base_iri), store.quads()) is None,
            ops_error(ov, store.quads(), *cfg) == ops_error(ov.skip(k as int), store.quads(), *cfg),
        decreases u.operations@.len() - k,
    {
        proof {
            assert(ov.skip(k as int).drop_first() =~= ov.skip(k + 1));
            assert(ov.skip(k as int)[0] == u.operations@[k as int]@);
        }
        match validate_op(&u.operations[k], cfg, store) {
            Ok(_) => {},
            Err(e) => return Err(e),
        }
        k = k + 1;
    }
    assert(ov.skip(k as int).len() == 0);
    Ok(())
}

}
