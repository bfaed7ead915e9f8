//! Query results as text: JSON, XML, CSV and TSV.
//!
//! A result is written in pieces, a header, the rows in any number of chunks,
//! and a footer, and the pieces make the same document however the rows are
//! cut into chunks.

pub mod csv;
pub mod json;
pub mod laws;
pub mod tsv;
pub mod xml;

use crate::algebra::{texts, TermView};
use crate::exec::bindings::{bindings_view, Bindings};
use crate::text::{
    contains_text, find_from, find_from_facts, lower, occurs_at, to_lower, Text,
};
use vstd::prelude::*;
use vstd::string::*;

verus! {

/// A format of results.
#[derive(Debug, Clone, Copy, PartialEq, Eq, Structural)]
pub enum ResultFormat {
    Json,
    Xml,
    Csv,
    Tsv,
}

/// Does a text occur in another?
pub open spec fn mentions(s: Text, p: Text) -> bool {
    find_from(s, p, 0) is Some
}

/// The format an `Accept` value asks for. JSON goes before XML, XML before
/// CSV and CSV before TSV; a value that asks for none of them gets XML.
pub open spec fn accepted(accept: Text) -> ResultFormat {
    let a = lower(accept);
    if mentions(a, "application/sparql-results+json"@) || mentions(a, "application/json"@) {
        ResultFormat::Json
    } else if mentions(a, "application/sparql-results+xml"@) || mentions(a, "application/xml"@) {
        ResultFormat::Xml
    } else if mentions(a, "text/csv"@) {
        ResultFormat::Csv
    } else if mentions(a, "text/tab-separated-values"@) || mentions(a, "tsv"@) {
        ResultFormat::Tsv
    } else {
        ResultFormat::Xml
    }
}

impl ResultFormat {
    pub fn from_accept(accept: &str) -> (r: ResultFormat)
        ensures
            r == accepted(accept@),
    {
        let a = to_lower(accept);
        let s = a.as_str();
        if contains_text(s, "application/sparql-results+json") || contains_text(
            s,
            "application/json",
        ) {
            ResultFormat::Json
        } else if contains_text(s, "application/sparql-results+xml") || contains_text(
            s,
            "application/xml",
        ) {
            ResultFormat::Xml
        } else if contains_text(s, "text/csv") {
            ResultFormat::Csv
        } else if contains_text(s, "text/tab-separated-values") || contains_text(s, "tsv") {
            ResultFormat::Tsv
        } else {
            ResultFormat::Xml
        }
    }

    pub open spec fn media_type(self) -> Text {
        match self {
            ResultFormat::Json => "application/sparql-results+json"@,
            ResultFormat::Xml => "application/sparql-results+xml"@,
            ResultFormat::Csv => "text/csv"@,
            ResultFormat::Tsv => "text/tab-separated-values"@,
        }
    }

    /// The media type of the format.
    pub fn content_type(self) -> (r: &'static str)
        ensures
            r@ == self.media_type(),
    {
        match self {
            ResultFormat::Json => "application/sparql-results+json",
            ResultFormat::Xml => "application/sparql-results+xml",
            ResultFormat::Csv => "text/csv",
            ResultFormat::Tsv => "text/tab-separated-values",
        }
    }
}

/// A text occurs in itself.
proof fn mentions_itself(s: Text)
    ensures
        mentions(s, s),
{
    assert(s.subrange(0, s.len() as int) =~= s);
    assert(occurs_at(s, s, 0));
}

/// A longer text does not occur in a shorter one.
proof fn too_long(s: Text, p: Text)
    requires
        p.len() > s.len(),
    ensures
        !mentions(s, p),
{
    find_from_facts(s, p, 0);
}

/// A text does not occur in one that lacks one of its characters.
proof fn not_mentioned(s: Text, p: Text, c: char)
    requires
        p.contains(c),
        !s.contains(c),
    ensures
        !mentions(s, p),
{
    find_from_facts(s, p, 0);
    if let Some(i) = find_from(s, p, 0) {
        let k = choose|k: int| 0 <= k < p.len() && p[k] == c;
        assert(s.subrange(i, i + p.len())[k] == p[k]);
        assert(s[i + k] == c);
    }
}

/// A format is what its own media type asks for, in whatever case that is
/// written.
pub proof fn a_media_type_asks_for_its_format(f: ResultFormat, accept: Text)
    requires
        lower(accept) == f.media_type(),
    ensures
        accepted(accept) == f,
{
    reveal_strlit("application/sparql-results+json");
    reveal_strlit("application/sparql-results+xml");
    reveal_strlit("text/csv");
    reveal_strlit("text/tab-separated-values");
    reveal_strlit("application/json");
    reveal_strlit("application/xml");
    let a = lower(accept);
    mentions_itself(a);
    match f {
        ResultFormat::Json => {},
        ResultFormat::Xml => {
            let j = "application/sparql-results+json"@;
            let k = "application/json"@;
            assert(j[27] == 'j' && k[12] == 'j');
            assert(j.contains('j') && k.contains('j'));
            not_mentioned(a, j, 'j');
            not_mentioned(a, k, 'j');
        },
        ResultFormat::Csv => {
            too_long(a, "application/sparql-results+json"@);
            too_long(a, "application/json"@);
            too_long(a, "application/sparql-results+xml"@);
            too_long(a, "application/xml"@);
        },
        ResultFormat::Tsv => {
            too_long(a, "application/sparql-results+json"@);
            too_long(a, "application/sparql-results+xml"@);
            let k = "application/json"@;
            let x = "application/xml"@;
            let c = "text/csv"@;
            assert(k[5] == 'c' && x[5] == 'c' && c[5] == 'c');
            assert(k.contains('c') && x.contains('c') && c.contains('c'));
            not_mentioned(a, k, 'c');
            not_mentioned(a, x, 'c');
            not_mentioned(a, c, 'c');
        },
    }
}

/// A solution.
pub type Solution = Map<Text, TermView>;

/// The header of a result.
pub open spec fn header_text(format: ResultFormat, vars: Seq<Text>) -> Text {
    match format {
        ResultFormat::Json => json::json_header(vars),
        ResultFormat::Xml => xml::xml_header(vars),
        ResultFormat::Csv => csv::csv_header(vars),
        ResultFormat::Tsv => tsv::tsv_header(vars),
    }
}

/// One row, the first one or a later one.
pub open spec fn row_text(format: ResultFormat, first: bool, vars: Seq<Text>, row: Solution) -> Text {
    match format {
        ResultFormat::Json => json::json_row(first, vars, row),
        ResultFormat::Xml => xml::xml_row(vars, row),
        ResultFormat::Csv => csv::csv_row(vars, row),
        ResultFormat::Tsv => tsv::tsv_row(vars, row),
    }
}

/// The footer of a result.
pub open spec fn footer_text(format: ResultFormat) -> Text {
    match format {
        ResultFormat::Json => "]}}"@,
        ResultFormat::Xml => "  </results>\n</sparql>\n"@,
        ResultFormat::Csv => ""@,
        ResultFormat::Tsv => ""@,
    }
}

/// Rows, the first of all among them or not.
pub open spec fn rows_text(
    format: ResultFormat,
    started: bool,
    vars: Seq<Text>,
    rows: Seq<Solution>,
) -> Text
    decreases rows.len(),
{
    if rows.len() == 0 {
        Seq::empty()
    } else {
        rows_text(format, started, vars, rows.drop_last()) + row_text(
            format,
            !started && rows.len() == 1,
            vars,
            rows.last(),
        )
    }
}

/// A whole result.
pub open spec fn document(format: ResultFormat, vars: Seq<Text>, rows: Seq<Solution>) -> Text {
    header_text(format, vars) + rows_text(format, false, vars, rows) + footer_text(format)
}

/// Rows written in two chunks are the rows written in one.
pub proof fn chunks_join(
    format: ResultFormat,
    started: bool,
    vars: Seq<Text>,
    a: Seq<Solution>,
    b: Seq<Solution>,
)
    ensures
        rows_text(format, started, vars, a + b) == rows_text(format, started, vars, a) + rows_text(
            format,
            started || a.len() > 0,
            vars,
            b,
        ),
    decreases b.len(),
{
    let later = started || a.len() > 0;
    if b.len() == 0 {
        assert(a + b =~= a);
        assert(rows_text(format, started, vars, a) + rows_text(format, later, vars, b)
            =~= rows_text(format, started, vars, a));
    } else {
        chunks_join(format, started, vars, a, b.drop_last());
        assert((a + b).drop_last() =~= a + b.drop_last());
        assert((a + b).last() == b.last());
        assert((!started && (a + b).len() == 1) == (!later && b.len() == 1));
        assert(rows_text(format, started, vars, a + b) =~= rows_text(format, started, vars, a)
            + rows_text(format, later, vars, b));
    }
}

/// Writes a result in pieces.
pub trait SelectSerializer {
    open spec fn format(&self) -> ResultFormat {
        arbitrary()
    }

    /// Was a row written?
    open spec fn started(&self) -> bool {
        arbitrary()
    }

    fn header(&mut self, vars: &Vec<String>) -> (r: String)
        ensures
            r@ == header_text(old(self).format(), texts(vars@)),
            final(self).started() == old(self).started(),
            final(self).format() == old(self).format(),
    ;

    /// Some of the rows.
    fn chunk(&mut self, vars: &Vec<String>, rows: &Vec<Bindings>) -> (r: String)
        ensures
            r@ == rows_text(
                old(self).format(),
                old(self).started(),
                texts(vars@),
                bindings_view(rows@),
            ),
            final(self).started() == (old(self).started() || rows@.len() > 0),
            final(self).format() == old(self).format(),
    ;

    fn footer(&mut self) -> (r: String)
        ensures
            r@ == footer_text(old(self).format()),
            final(self).started() == old(self).started(),
            final(self).format() == old(self).format(),
    ;
}

/// Writes a whole result.
pub fn write_document<S: SelectSerializer>(ser: &mut S, vars: &Vec<String>, rows: &Vec<Bindings>) -> (out:
    String)
    requires
        !old(ser).started(),
    ensures
        out@ == document(old(ser).format(), texts(vars@), bindings_view(rows@)),
{
    let mut out = ser.header(vars);
    out.append(ser.chunk(vars, rows).as_str());
    out.append(ser.footer().as_str());
    out
}

/// A serializer of any format.
pub enum AnySerializer {
    Json(json::JsonSelectSerializer),
    Xml(xml::XmlSelectSerializer),
    Csv(csv::CsvSelectSerializer),
    Tsv(tsv::TsvSelectSerializer),
}

/// The serializer of a format.
pub fn select_serializer(format: ResultFormat) -> (r: AnySerializer)
    ensures
        r.format() == format,
        !r.started(),
{
    match format {
        ResultFormat::Json => AnySerializer::Json(json::JsonSelectSerializer::new()),
        ResultFormat::Xml => AnySerializer::Xml(xml::XmlSelectSerializer::new()),
        ResultFormat::Csv => AnySerializer::Csv(csv::CsvSelectSerializer::new()),
        ResultFormat::Tsv => AnySerializer::Tsv(tsv::TsvSelectSerializer::new()),
    }
}

impl SelectSerializer for AnySerializer {
    open spec fn format(&self) -> ResultFormat {
        match *self {
            AnySerializer::Json(_) => ResultFormat::Json,
            AnySerializer::Xml(_) => ResultFormat::Xml,
            AnySerializer::Csv(_) => ResultFormat::Csv,
            AnySerializer::Tsv(_) => ResultFormat::Tsv,
        }
    }

    open spec fn started(&self) -> bool {
        match *self {
            AnySerializer::Json(s) => s.started(),
            AnySerializer::Xml(s) => s.started(),
            AnySerializer::Csv(s) => s.started(),
            AnySerializer::Tsv(s) => s.started(),
        }
    }

    fn header(&mut self, vars: &Vec<String>) -> (r: String) {
        match self {
            AnySerializer::Json(s) => s.header(vars),
            AnySerializer::Xml(s) => s.header(vars),
            AnySerializer::Csv(s) => s.header(vars),
            AnySerializer::Tsv(s) => s.header(vars),
        }
    }

    fn chunk(&mut self, vars: &Vec<String>, rows: &Vec<Bindings>) -> (r: String) {
        match self {
            AnySerializer::Json(s) => s.chunk(vars, rows),
            AnySerializer::Xml(s) => s.chunk(vars, rows),
            AnySerializer::Csv(s) => s.chunk(vars, rows),
            AnySerializer::Tsv(s) => s.chunk(vars, rows),
        }
    }

    fn footer(&mut self) -> (r: String) {
        match self {
            AnySerializer::Json(s) => s.footer(),
            AnySerializer::Xml(s) => s.footer(),
            AnySerializer::Csv(s) => s.footer(),
            AnySerializer::Tsv(s) => s.footer(),
        }
    }
}

// ── Texts ───────────────────────────────────────────────────────────────────

/// Texts with a separator between them.
pub open spec fn separated(parts: Seq<Text>, sep: Text) -> Text
    decreases parts.len(),
{
    if parts.len() == 0 {
        Seq::empty()
    } else if parts.len() == 1 {
        parts[0]
    } else {
        separated(parts.drop_last(), sep) + sep + parts.last()
    }
}

/// Joins texts with a separator between them.
pub fn join_texts(parts: &Vec<String>, sep: &str) -> (out: String)
    ensures
        out@ == separated(texts(parts@), sep@),
{
    let ghost pv = texts(parts@);
    let mut out = String::new();
    let mut i: usize = 0;
    assert(pv.take(0) =~= Seq::empty());
    assert(out@ =~= separated(pv.take(0), sep@));
    while i < parts.len()
        invariant
            i <= parts@.len(),
            pv == texts(parts@),
            out@ == separated(pv.take(i as int), sep@),
        decreases parts@.len() - i,
    {
        proof {
            assert(pv.take(i + 1).drop_last() =~= pv.take(i as int));
            assert(pv.take(i + 1).last() == parts@[i as int]@);
            assert(pv.take(i + 1)[0] == pv[0]);
        }
        if i > 0 {
            out.append(sep);
        }
        out.append(parts[i].as_str());
        proof {
            if i == 0 {
                assert(out@ =~= pv[0]);
            }
        }
        i = i + 1;
    }
    assert(pv.take(pv.len() as int) =~= pv);
    out
}

}
