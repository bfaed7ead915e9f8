//! `LOAD`: the document a source names, and the quads it holds.
//!
//! Reading the document is the caller's: these functions say which file to
//! read, and what its bytes mean.

use crate::algebra::{Term, TermView};
use crate::error::{ErrorView, SparqlError};
use crate::exec::store::{graph_view, quad_view, quads_view, AlgebraQuad, GraphName, QuadView};
use crate::percent::{decoded_text, percent_decode};
use crate::text::{
    chars_of, decimal, decimal_text, digit, lower, same_text, slice_text, starts, starts_with,
    strip_prefix, to_lower, Text,
};
use oxttl::{NQuadsParser, NTriplesParser, TriGParser, TurtleParser};
use vstd::prelude::*;
use vstd::string::*;

verus! {

// ── Sources ─────────────────────────────────────────────────────────────────

/// The position behind the last occurrence of a character, or the start.
pub open spec fn behind_last(s: Text, c: char) -> int
    decreases s.len(),
{
    if s.len() == 0 {
        0
    } else if s.last() == c {
        s.len() as int
    } else {
        behind_last(s.drop_last(), c)
    }
}

/// What follows the last dot, in lower case; all of it where there is no dot.
pub open spec fn extension_of(source: Text) -> Text {
    lower(source.skip(behind_last(source, '.')))
}

pub fn source_extension(source: &str) -> (r: String)
    ensures
        r@ == extension_of(source@),
{
    let cs = chars_of(source);
    let n: usize = cs.len();
    let mut i: usize = n;
    assert(cs@.take(n as int) =~= cs@);
    while i > 0 && cs[i - 1] != '.'
        invariant
            i <= n,
            n == cs@.len(),
            behind_last(cs@, '.') == behind_last(cs@.take(i as int), '.'),
        decreases i,
    {
        assert(cs@.take(i as int).drop_last() =~= cs@.take(i - 1));
        i = i - 1;
    }
    let tail = slice_text(&cs, i, n);
    assert(tail@ =~= source@.skip(behind_last(source@, '.')));
    to_lower(tail.as_str())
}

/// Is the format of a source one of quads?
pub open spec fn dataset_format(source: Text) -> bool {
    extension_of(source) == "nq"@ || extension_of(source) == "trig"@
}

pub fn is_dataset_format(source: &str) -> (r: bool)
    ensures
        r == dataset_format(source@),
{
    let ext = source_extension(source);
    same_text(ext.as_str(), "nq") || same_text(ext.as_str(), "trig")
}

/// The first position of a character, or the end.
pub open spec fn first_of(s: Text, c: char) -> int
    decreases s.len(),
{
    if s.len() == 0 {
        0
    } else if s[0] == c {
        0
    } else {
        1 + first_of(s.drop_first(), c)
    }
}

proof fn first_of_step(s: Text, i: int, c: char)
    requires
        0 <= i < s.len(),
        s[i] != c,
    ensures
        first_of(s.skip(i), c) == 1 + first_of(s.skip(i + 1), c),
{
    assert(s.skip(i).drop_first() =~= s.skip(i + 1));
}

fn find_first(s: &[char], c: char) -> (r: usize)
    ensures
        r == first_of(s@, c),
        r <= s@.len(),
{
    let n: usize = s.len();
    let mut i: usize = 0;
    assert(s@.skip(0) =~= s@);
    while i < n && s[i] != c
        invariant
            i <= n,
            n == s@.len(),
            first_of(s@, c) == i + first_of(s@.skip(i as int), c),
        decreases n - i,
    {
        proof {
            first_of_step(s@, i as int, c);
        }
        i = i + 1;
    }
    i
}

/// The path of a `file:` IRI, still with its escapes, or the error of a source
/// that is none: only local files are read.
pub open spec fn file_path(source: Text) -> Result<Text, ErrorView> {
    if starts(source, "file://"@) {
        let rest = source.skip("file://"@.len() as int);
        let at = first_of(rest, '/');
        if at == 0 || lower(rest.take(at)) == "localhost"@ {
            Ok(rest.skip(at))
        } else {
            Err(
                ErrorView::UnsupportedAlgebra(
                    "LOAD of a non-local file authority (Stage-1 fetches local files only): "@
                        + source,
                ),
            )
        }
    } else if starts(source, "file:"@) {
        Ok(source.skip("file:"@.len() as int))
    } else {
        Err(
            ErrorView::UnsupportedAlgebra(
                "LOAD of a non-file source (Stage-1 fetches file: IRIs only): "@ + source,
            ),
        )
    }
}

pub fn file_iri_to_path(source: &str) -> (r: Result<String, SparqlError>)
    ensures
        match (r, file_path(source@)) {
            (Ok(p), Ok(q)) => p@ == q,
            (Err(e), Err(f)) => e@ == f,
            _ => false,
        },
{
    if let Some(rest) = strip_prefix(source, "file://") {
        let cs = chars_of(rest.as_str());
        let at: usize = find_first(&cs, '/');
        let authority = to_lower(slice_text(&cs, 0, at).as_str());
        assert(rest@.subrange(0, at as int) =~= rest@.take(at as int));
        if at == 0 || same_text(authority.as_str(), "localhost") {
            let path = slice_text(&cs, at, cs.len());
            assert(path@ =~= rest@.skip(at as int));
            Ok(path)
        } else {
            let mut msg =
                "LOAD of a non-local file authority (Stage-1 fetches local files only): ".to_owned();
            msg.append(source);
            Err(SparqlError::UnsupportedAlgebra(msg))
        }
    } else if let Some(path) = strip_prefix(source, "file:") {
        Ok(path)
    } else {
        let mut msg = "LOAD of a non-file source (Stage-1 fetches file: IRIs only): ".to_owned();
        msg.append(source);
        Err(SparqlError::UnsupportedAlgebra(msg))
    }
}

/// The file to read for a source, with its escapes replaced.
pub fn source_path(source: &str) -> (r: Result<String, SparqlError>)
    ensures
        match (r, file_path(source@)) {
            (Ok(p), Ok(q)) => p@ == decoded_text(q),
            (Err(e), Err(f)) => e@ == f,
            _ => false,
        },
{
    match file_iri_to_path(source) {
        Ok(p) => Ok(percent_decode(p.as_str())),
        Err(e) => Err(e),
    }
}

// ── Blank nodes ─────────────────────────────────────────────────────────────

/// The label of a blank node of a document. Labels are the document's own, so
/// each is marked with the document's tag.
pub open spec fn scoped_label(tag: u64, label: Text) -> Text {
    "d"@ + decimal(tag as nat) + "_"@ + label
}

pub fn scope_blank_node_label(tag: u64, label: &str) -> (r: String)
    ensures
        r@ == scoped_label(tag, label@),
{
    let mut out = "d".to_owned();
    out.append(decimal_text(tag).as_str());
    out.append("_");
    out.append(label);
    out
}

proof fn decimal_digits(n: nat)
    ensures
        decimal(n).len() > 0,
        forall|i: int| 0 <= i < decimal(n).len() ==> '0' <= #[trigger] decimal(n)[i] <= '9',
    decreases n,
{
    if n >= 10 {
        decimal_digits(n / 10);
    }
}

proof fn digits_differ(a: nat, b: nat)
    requires
        a < 10,
        b < 10,
        digit(a) == digit(b),
    ensures
        a == b,
{
    assert(digit(a) as u32 == a + 48);
    assert(digit(b) as u32 == b + 48);
}

proof fn decimals_differ(a: nat, b: nat)
    requires
        decimal(a) == decimal(b),
    ensures
        a == b,
    decreases a,
{
    decimal_digits(a);
    decimal_digits(b);
    if a < 10 && b < 10 {
        assert(decimal(a) == seq![digit(a)]);
        assert(decimal(b) == seq![digit(b)]);
        assert(decimal(a)[0] == digit(a));
        assert(decimal(b)[0] == digit(b));
        digits_differ(a, b);
    } else if a >= 10 && b >= 10 {
        assert(decimal(a).drop_last() =~= decimal(a / 10));
        assert(decimal(b).drop_last() =~= decimal(b / 10));
        decimals_differ(a / 10, b / 10);
        assert(decimal(a).last() == digit(a % 10));
        assert(decimal(b).last() == digit(b % 10));
        digits_differ(a % 10, b % 10);
    } else if a < 10 {
        decimal_digits(b / 10);
        assert(decimal(b).len() == decimal(b / 10).len() + 1);
    } else {
        decimal_digits(a / 10);
        assert(decimal(a).len() == decimal(a / 10).len() + 1);
    }
}

/// Two blank nodes get the same label only where they are one node of one
/// document.
pub proof fn scoped_labels_are_distinct(t: u64, a: Text, u: u64, b: Text)
    ensures
        scoped_label(t, a) == scoped_label(u, b) ==> t == u && a == b,
{
    reveal_strlit("d");
    reveal_strlit("_");
    if scoped_label(t, a) == scoped_label(u, b) {
        let (x, y) = (scoped_label(t, a), scoped_label(u, b));
        let (p, q) = (decimal(t as nat), decimal(u as nat));
        decimal_digits(t as nat);
        decimal_digits(u as nat);
        assert forall|i: int| 0 <= i < p.len() implies x[i + 1] == p[i] by {}
        assert forall|i: int| 0 <= i < q.len() implies y[i + 1] == q[i] by {}
        assert(x[p.len() as int + 1] == '_');
        assert(y[q.len() as int + 1] == '_');
        if p.len() < q.len() {
            assert(y[p.len() as int + 1] == q[p.len() as int]);
        }
        if q.len() < p.len() {
            assert(x[q.len() as int + 1] == p[q.len() as int]);
        }
        assert(p =~= q) by {
            assert forall|i: int| 0 <= i < p.len() implies p[i] == q[i] by {
                assert(x[i + 1] == y[i + 1]);
            }
        }
        decimals_differ(t as nat, u as nat);
        assert(a =~= b) by {
            assert(x.len() == y.len());
            assert forall|i: int| 0 <= i < a.len() implies a[i] == b[i] by {
                assert(x[i + 2 + p.len()] == a[i]);
                assert(y[i + 2 + q.len()] == b[i]);
            }
        }
    }
}

// ── Documents ───────────────────────────────────────────────────────────────

/// A quad as a document's parser gives it, each part in N-Triples syntax; the
/// default graph is written `DEFAULT`.
#[derive(Debug)]
pub struct RawQuad {
    pub graph: String,
    pub subject: String,
    pub predicate: String,
    pub object: String,
}

#[allow(inconsistent_fields)]
#[verifier::ext_equal]
pub struct RawView {
    pub graph: Text,
    pub subject: Text,
    pub predicate: Text,
    pub object: Text,
}

impl RawQuad {
    pub open spec fn view(&self) -> RawView {
        RawView {
            graph: self.graph@,
            subject: self.subject@,
            predicate: self.predicate@,
            object: self.object@,
        }
    }
}

pub open spec fn raw_view(s: Seq<RawQuad>) -> Seq<RawView> {
    Seq::new(s.len(), |i: int| s[i]@)
}

/// Why a document could not be read.
#[derive(Debug)]
pub enum ReadError {
    /// The document's IRI is no base.
    Base(String),
    /// The document does not follow its syntax.
    Syntax(String),
}

#[allow(inconsistent_fields)]
#[verifier::ext_equal]
pub enum ReadErrorView {
    Base(Text),
    Syntax(Text),
}

impl ReadError {
    pub open spec fn view(&self) -> ReadErrorView {
        match *self {
            ReadError::Base(s) => ReadErrorView::Base(s@),
            ReadError::Syntax(s) => ReadErrorView::Syntax(s@),
        }
    }
}

pub open spec fn read_view(r: Result<Vec<RawQuad>, ReadError>) -> Result<
    Seq<RawView>,
    ReadErrorView,
> {
    match r {
        Ok(q) => Ok(raw_view(q@)),
        Err(e) => Err(e@),
    }
}

/// What `oxttl` reads from N-Triples.
pub uninterp spec fn ntriples_read(bytes: Seq<u8>) -> Result<Seq<RawView>, ReadErrorView>;

/// What `oxttl` reads from N-Quads.
pub uninterp spec fn nquads_read(bytes: Seq<u8>) -> Result<Seq<RawView>, ReadErrorView>;

/// May `oxttl` read this from TriG, with a base for relative IRIs? The label of
/// a blank node without one is left open.
pub uninterp spec fn trig_may_read(
    bytes: Seq<u8>,
    base: Text,
    read: Result<Seq<RawView>, ReadErrorView>,
) -> bool;

/// May `oxttl` read this from Turtle, with a base for relative IRIs? The label
/// of a blank node without one is left open.
pub uninterp spec fn turtle_may_read(
    bytes: Seq<u8>,
    base: Text,
    read: Result<Seq<RawView>, ReadErrorView>,
) -> bool;

/// Calls `oxttl::NTriplesParser::for_slice` and writes each part of each
/// triple with `oxrdf`'s `Display`. The contract gives the result a name.
#[verifier::external_body]
fn read_ntriples(bytes: &[u8]) -> (r: Result<Vec<RawQuad>, ReadError>)
    ensures
        read_view(r) == ntriples_read(bytes@),
{
    let mut out = Vec::new();
    for t in NTriplesParser::new().for_slice(bytes) {
        let t = t.map_err(|e| ReadError::Syntax(e.to_string()))?;
        let (s, p, o) = (t.subject.to_string(), t.predicate.to_string(), t.object.to_string());
        out.push(RawQuad { graph: "DEFAULT".to_owned(), subject: s, predicate: p, object: o });
    }
    Ok(out)
}

/// Calls `oxttl::NQuadsParser::for_slice` and writes each part of each quad
/// with `oxrdf`'s `Display`. The contract gives the result a name.
#[verifier::external_body]
fn read_nquads(bytes: &[u8]) -> (r: Result<Vec<RawQuad>, ReadError>)
    ensures
        read_view(r) == nquads_read(bytes@),
{
    let mut out = Vec::new();
    for q in NQuadsParser::new().for_slice(bytes) {
        let q = q.map_err(|e| ReadError::Syntax(e.to_string()))?;
        let (s, p, o) = (q.subject.to_string(), q.predicate.to_string(), q.object.to_string());
        out.push(RawQuad { graph: q.graph_name.to_string(), subject: s, predicate: p, object: o });
    }
    Ok(out)
}

/// Calls `oxttl::TriGParser::for_slice`, with the base, and writes each part of
/// each quad with `oxrdf`'s `Display`. The contract says of the result that it
/// may be read from the bytes with that base, and no more: a blank node without
/// a label gets a random one.
#[verifier::external_body]
fn read_trig(bytes: &[u8], base: &str) -> (r: Result<Vec<RawQuad>, ReadError>)
    ensures
        trig_may_read(bytes@, base@, read_view(r)),
{
    let parser = TriGParser::new().with_base_iri(base);
    let parser = parser.map_err(|e| ReadError::Base(e.to_string()))?;
    let mut out = Vec::new();
    for q in parser.for_slice(bytes) {
        let q = q.map_err(|e| ReadError::Syntax(e.to_string()))?;
        let (s, p, o) = (q.subject.to_string(), q.predicate.to_string(), q.object.to_string());
        out.push(RawQuad { graph: q.graph_name.to_string(), subject: s, predicate: p, object: o });
    }
    Ok(out)
}

/// Calls `oxttl::TurtleParser::for_slice`, with the base, and writes each part
/// of each triple with `oxrdf`'s `Display`. The contract says of the result that
/// it may be read from the bytes with that base, and that no graph is named: a
/// blank node without a label gets a random one.
#[verifier::external_body]
fn read_turtle(bytes: &[u8], base: &str) -> (r: Result<Vec<RawQuad>, ReadError>)
    ensures
        turtle_may_read(bytes@, base@, read_view(r)),
        r matches Ok(q) ==> forall|i: int|
            0 <= i < q@.len() ==> (#[trigger] q@[i]).graph@ == "DEFAULT"@,
{
    let parser = TurtleParser::new().with_base_iri(base);
    let parser = parser.map_err(|e| ReadError::Base(e.to_string()))?;
    let mut out = Vec::new();
    for t in parser.for_slice(bytes) {
        let t = t.map_err(|e| ReadError::Syntax(e.to_string()))?;
        let (s, p, o) = (t.subject.to_string(), t.predicate.to_string(), t.object.to_string());
        out.push(RawQuad { graph: "DEFAULT".to_owned(), subject: s, predicate: p, object: o });
    }
    Ok(out)
}

/// A text without so many characters at either end.
pub open spec fn inner_text(s: Text, n: int) -> Text {
    if s.len() >= 2 * n {
        s.subrange(n, s.len() - n)
    } else {
        Seq::empty()
    }
}

/// The term of a part in N-Triples syntax. A triple term is kept as the text
/// of its triple.
pub open spec fn read_term(tag: u64, s: Text) -> TermView {
    if starts(s, "<<( "@) {
        TermView::Literal(inner_text(s, 4))
    } else if starts(s, "<"@) {
        TermView::Iri(inner_text(s, 1))
    } else if starts(s, "_:"@) {
        TermView::BlankNode(scoped_label(tag, s.skip("_:"@.len() as int)))
    } else {
        TermView::Literal(s)
    }
}

/// The graph of a part in N-Triples syntax.
pub open spec fn read_graph(tag: u64, s: Text) -> Option<Text> {
    if s == "DEFAULT"@ {
        None
    } else {
        match read_term(tag, s) {
            TermView::Iri(g) => Some(g),
            TermView::BlankNode(g) => Some(g),
            _ => Some(s),
        }
    }
}

/// The quad of a parsed one.
pub open spec fn read_quad(tag: u64, q: RawView) -> QuadView {
    QuadView {
        graph: read_graph(tag, q.graph),
        subject: read_term(tag, q.subject),
        predicate: read_term(tag, q.predicate),
        object: read_term(tag, q.object),
    }
}

/// The quads of parsed ones.
pub open spec fn read_quads(tag: u64, s: Seq<RawView>) -> Seq<QuadView> {
    Seq::new(s.len(), |i: int| read_quad(tag, s[i]))
}

fn inside(s: &str, n: usize) -> (r: String)
    requires
        n <= 4,
    ensures
        r@ == inner_text(s@, n as int),
{
    let cs = chars_of(s);
    if cs.len() >= 2 * n {
        slice_text(&cs, n, cs.len() - n)
    } else {
        let r = String::new();
        assert(r@ =~= Seq::empty());
        r
    }
}

fn term_of_text(tag: u64, s: &str) -> (r: Term)
    ensures
        r@ == read_term(tag, s@),
{
    if starts_with(s, "<<( ") {
        Term::Literal(inside(s, 4))
    } else if starts_with(s, "<") {
        Term::Iri(inside(s, 1))
    } else {
        match strip_prefix(s, "_:") {
            Some(label) => Term::BlankNode(scope_blank_node_label(tag, label.as_str())),
            None => Term::Literal(s.to_owned()),
        }
    }
}

fn graph_of_text(tag: u64, s: &str) -> (r: GraphName)
    ensures
        graph_view(r) == read_graph(tag, s@),
{
    if same_text(s, "DEFAULT") {
        return None;
    }
    match term_of_text(tag, s) {
        Term::Iri(g) => Some(g),
        Term::BlankNode(g) => Some(g),
        _ => Some(s.to_owned()),
    }
}

/// What a document holds, by what its parser read: its quads, or the error to
/// report.
pub open spec fn document_of(
    tag: u64,
    base: Text,
    read: Result<Seq<RawView>, ReadErrorView>,
) -> Result<Seq<QuadView>, ErrorView> {
    match read {
        Ok(raw) => Ok(read_quads(tag, raw)),
        Err(ReadErrorView::Syntax(e)) => Err(
            ErrorView::Executor("parsing "@ + base + ": "@ + e),
        ),
        Err(ReadErrorView::Base(e)) => Err(
            ErrorView::Executor("LOAD base IRI invalid ("@ + base + "): "@ + e),
        ),
    }
}

pub open spec fn document_view(r: Result<Vec<AlgebraQuad>, SparqlError>) -> Result<
    Seq<QuadView>,
    ErrorView,
> {
    match r {
        Ok(q) => Ok(quads_view(q@)),
        Err(e) => Err(e@),
    }
}

/// The quads of what a parser read, their blank nodes marked with `tag`.
pub fn document_quads(tag: u64, base: &str, read: Result<Vec<RawQuad>, ReadError>) -> (r: Result<
    Vec<AlgebraQuad>,
    SparqlError,
>)
    ensures
        document_view(r) == document_of(tag, base@, read_view(read)),
{
    let raw = match read {
        Ok(raw) => raw,
        Err(ReadError::Syntax(e)) => {
            let mut msg = "parsing ".to_owned();
            msg.append(base);
            msg.append(": ");
            msg.append(e.as_str());
            return Err(SparqlError::Executor(msg));
        },
        Err(ReadError::Base(e)) => {
            let mut msg = "LOAD base IRI invalid (".to_owned();
            msg.append(base);
            msg.append("): ");
            msg.append(e.as_str());
            return Err(SparqlError::Executor(msg));
        },
    };
    let mut out: Vec<AlgebraQuad> = Vec::new();
    let mut i: usize = 0;
    while i < raw.len()
        invariant
            i <= raw@.len(),
            out@.len() == i,
            forall|j: int|
                0 <= j < i ==> quad_view(#[trigger] out@[j]) == read_quad(tag, raw@[j]@),
        decreases raw@.len() - i,
    {
        let q = &raw[i];
        out.push(
            (
                graph_of_text(tag, q.graph.as_str()),
                term_of_text(tag, q.subject.as_str()),
                term_of_text(tag, q.predicate.as_str()),
                term_of_text(tag, q.object.as_str()),
            ),
        );
        i = i + 1;
    }
    assert(quads_view(out@) =~= read_quads(tag, raw_view(raw@)));
    Ok(out)
}

/// Parses a document: N-Triples for the extension `nt`, N-Quads for `nq`, TriG
/// for `trig`, and Turtle for everything else. Only the quad formats name
/// graphs. Relative IRIs of Turtle and TriG are resolved against `base`, which
/// also stands in the error.
pub fn parse_rdf_bytes(tag: u64, bytes: &[u8], extension: Option<&str>, base: &str) -> (r: Result<
    Vec<AlgebraQuad>,
    SparqlError,
>)
    ensures
        extension matches Some(e) && e@ == "nt"@ ==> document_view(r) == document_of(
            tag,
            base@,
            ntriples_read(bytes@),
        ),
        extension matches Some(e) && e@ == "nq"@ ==> document_view(r) == document_of(
            tag,
            base@,
            nquads_read(bytes@),
        ),
        !(extension matches Some(e) && (e@ == "nq"@ || e@ == "trig"@ || e@ == "nt"@)) ==> (
        r matches Ok(q) ==> forall|i: int| 0 <= i < q@.len() ==> (#[trigger] q@[i]).0 is None),
        extension matches Some(e) && e@ == "trig"@ ==> exists|
            read: Result<Seq<RawView>, ReadErrorView>,
        | #[trigger]
            trig_may_read(bytes@, base@, read) && document_view(r) == document_of(
                tag,
                base@,
                read,
            ),
        !(extension matches Some(e) && (e@ == "nq"@ || e@ == "trig"@ || e@ == "nt"@)) ==> exists|
            read: Result<Seq<RawView>, ReadErrorView>,
        | #[trigger]
            turtle_may_read(bytes@, base@, read) && document_view(r) == document_of(
                tag,
                base@,
                read,
            ),
{
    proof {
        reveal_strlit("nt");
        reveal_strlit("nq");
        reveal_strlit("trig");
    }
    let ext = match extension {
        Some(e) => e,
        None => "ttl",
    };
    proof {
        reveal_strlit("ttl");
        assert("ttl"@ != "nt"@) by {
            assert("ttl"@.len() != "nt"@.len());
        }
        assert("ttl"@ != "nq"@) by {
            assert("ttl"@.len() != "nq"@.len());
        }
        assert("ttl"@ != "trig"@) by {
            assert("ttl"@.len() != "trig"@.len());
        }
        assert("nt"@ != "nq"@) by {
            assert("nt"@[1] != "nq"@[1]);
        }
    }
    if same_text(ext, "nt") {
        let read = read_ntriples(bytes);
        document_quads(tag, base, read)
    } else if same_text(ext, "nq") {
        let read = read_nquads(bytes);
        document_quads(tag, base, read)
    } else if same_text(ext, "trig") {
        let read = read_trig(bytes, base);
        document_quads(tag, base, read)
    } else {
        let read = read_turtle(bytes, base);
        let ghost rv = read_view(read);
        let r = document_quads(tag, base, read);
        proof {
            if r is Ok {
                let q = r->Ok_0@;
                assert(document_view(r) == Ok::<Seq<QuadView>, ErrorView>(quads_view(q)));
                let raw = rv->Ok_0;
                assert(quads_view(q) == read_quads(tag, raw));
                assert(quads_view(q).len() == q.len());
                assert(read_quads(tag, raw).len() == raw.len());
                assert forall|i: int| 0 <= i < q.len() implies (#[trigger] q[i]).0 is None by {
                    assert(quads_view(q)[i] == quad_view(q[i]));
                    assert(read_quads(tag, raw)[i] == read_quad(tag, raw[i]));
                    assert(quad_view(q[i]).graph is None);
                }
            }
        }
        r
    }
}

}
