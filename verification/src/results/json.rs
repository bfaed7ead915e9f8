//! Results as JSON.

use crate::algebra::{texts, Term, TermView};
use crate::exec::bindings::{bindings_view, Bindings};
use crate::exec::literal::{literal_parts, parts_of};
use crate::results::xml::{bare_label, strip_marks};
use crate::results::{
    document, rows_text, write_document, ResultFormat, SelectSerializer, Solution,
};
use crate::text::Text;
use vstd::prelude::*;
use vstd::string::*;

verus! {

/// Writes JSON. Rows are separated by commas, so it keeps whether there was
/// one.
pub struct JsonSelectSerializer {
    pub any_rows: bool,
}

// ── Objects ─────────────────────────────────────────────────────────────────

/// The members of an object of strings.
pub open spec fn pairs_view(members: Seq<(String, String)>) -> Seq<(Text, Text)> {
    Seq::new(members.len(), |i: int| (members[i].0@, members[i].1@))
}

/// The members of an object whose values are objects of strings.
pub open spec fn members_view(members: Seq<(String, Vec<(String, String)>)>) -> Seq<
    (Text, Seq<(Text, Text)>),
> {
    Seq::new(members.len(), |i: int| (members[i].0@, pairs_view(members[i].1@)))
}

/// The text of an object whose members, put in one after the other, are
/// objects of strings, by `serde_json`.
pub uninterp spec fn json_object(members: Seq<(Text, Seq<(Text, Text)>)>) -> Text;

/// Calls `serde_json::Value::to_string` on an object that
/// `serde_json::Map::from_iter` collects. The contract gives the text a name:
/// the order of the members and the escapes in them are the crate's.
#[verifier::external_body]
fn print_object(members: Vec<(String, Vec<(String, String)>)>) -> (r: String)
    ensures
        r@ == json_object(members_view(members@)),
{
    let object = members.into_iter().map(
        |(name, pairs)|
            {
                let value = pairs.into_iter().map(|(n, s)| (n, serde_json::Value::String(s)));
                (name, serde_json::Value::Object(value.collect()))
            },
    );
    serde_json::Value::Object(object.collect()).to_string()
}

/// The text of an array of strings, by `serde_json`.
pub uninterp spec fn json_strings(items: Seq<Text>) -> Text;

/// Calls `serde_json::Value::to_string` on an array of strings. The contract
/// gives the text a name.
#[verifier::external_body]
fn print_strings(items: &Vec<String>) -> (r: String)
    ensures
        r@ == json_strings(texts(items@)),
{
    serde_json::Value::from(items.as_slice()).to_string()
}

// ── Terms ───────────────────────────────────────────────────────────────────

/// A type and a value.
pub open spec fn typed_value(kind: Text, value: Text) -> Seq<(Text, Text)> {
    seq![("type"@, kind), ("value"@, value)]
}

fn write_typed_value(kind: &str, value: &str) -> (r: Vec<(String, String)>)
    ensures
        pairs_view(r@) == typed_value(kind@, value@),
{
    let mut out: Vec<(String, String)> = Vec::new();
    out.push(("type".to_owned(), kind.to_owned()));
    out.push(("value".to_owned(), value.to_owned()));
    assert(pairs_view(out@) =~= typed_value(kind@, value@));
    out
}

/// The members of a literal.
pub open spec fn literal_json(raw: Text) -> Seq<(Text, Text)> {
    let p = parts_of(raw);
    let typed = typed_value("literal"@, p.value);
    match (p.lang, p.datatype) {
        (Some(lang), _) => typed.push(("xml:lang"@, lang)),
        (None, Some(dt)) => typed.push(("datatype"@, dt)),
        (None, None) => typed,
    }
}

fn parse_literal_to_json(raw: &str) -> (r: Vec<(String, String)>)
    ensures
        pairs_view(r@) == literal_json(raw@),
{
    let (value, lang, datatype) = literal_parts(raw);
    let mut out = write_typed_value("literal", value.as_str());
    match (lang, datatype) {
        (Some(lang), _) => out.push(("xml:lang".to_owned(), lang)),
        (None, Some(dt)) => out.push(("datatype".to_owned(), dt)),
        (None, None) => {},
    }
    assert(pairs_view(out@) =~= literal_json(raw@));
    out
}

/// The members of a term.
pub open spec fn term_json(t: TermView) -> Seq<(Text, Text)> {
    match t {
        TermView::Iri(s) => typed_value("uri"@, s),
        TermView::BlankNode(s) => typed_value("bnode"@, bare_label(s)),
        TermView::Literal(raw) => literal_json(raw),
        TermView::Var(_) => typed_value("literal"@, "<unbound>"@),
        TermView::Triple(_) => typed_value("literal"@, "<rdf-12-triple-term unsupported>"@),
    }
}

fn term_to_json(t: &Term) -> (r: Vec<(String, String)>)
    ensures
        pairs_view(r@) == term_json(t@),
{
    match t {
        Term::Iri(s) => write_typed_value("uri", s.as_str()),
        Term::BlankNode(s) => write_typed_value("bnode", strip_marks(s.as_str()).as_str()),
        Term::Literal(raw) => parse_literal_to_json(raw.as_str()),
        Term::Var(_) => write_typed_value("literal", "<unbound>"),
        Term::Triple(_) => write_typed_value("literal", "<rdf-12-triple-term unsupported>"),
    }
}

// ── Rows ────────────────────────────────────────────────────────────────────

/// The members of a row: one for each variable that is bound.
pub open spec fn row_members(vars: Seq<Text>, row: Solution) -> Seq<(Text, Seq<(Text, Text)>)>
    decreases vars.len(),
{
    if vars.len() == 0 {
        Seq::empty()
    } else {
        let before = row_members(vars.drop_last(), row);
        if row.contains_key(vars.last()) {
            before.push((vars.last(), term_json(row[vars.last()])))
        } else {
            before
        }
    }
}

/// A row as an object, after a comma where it is not the first.
pub open spec fn json_row(first: bool, vars: Seq<Text>, row: Solution) -> Text {
    (if first {
        ""@
    } else {
        ","@
    }) + json_object(row_members(vars, row))
}

pub open spec fn json_header(vars: Seq<Text>) -> Text {
    "{\"head\":{\"vars\":"@ + json_strings(vars) + "},\"results\":{\"bindings\":["@
}

fn row_object(vars: &Vec<String>, row: &Bindings) -> (out: Vec<(String, Vec<(String, String)>)>)
    ensures
        members_view(out@) == row_members(texts(vars@), row@),
{
    let ghost vv = texts(vars@);
    let mut out: Vec<(String, Vec<(String, String)>)> = Vec::new();
    let mut i: usize = 0;
    assert(vv.take(0) =~= Seq::empty());
    assert(members_view(out@) =~= row_members(vv.take(0), row@));
    while i < vars.len()
        invariant
            i <= vars@.len(),
            vv == texts(vars@),
            members_view(out@) == row_members(vv.take(i as int), row@),
        decreases vars@.len() - i,
    {
        proof {
            assert(vv.take(i + 1).drop_last() =~= vv.take(i as int));
            assert(vv.take(i + 1).last() == vars@[i as int]@);
        }
        let ghost before = members_view(out@);
        if let Some(t) = row.get(vars[i].as_str()) {
            let members = term_to_json(t);
            out.push((vars[i].as_str().to_owned(), members));
            assert(members_view(out@) =~= before.push((vars@[i as int]@, term_json(t@))));
        }
        i = i + 1;
    }
    assert(vv.take(vv.len() as int) =~= vv);
    out
}

impl JsonSelectSerializer {
    pub open spec fn wrote(&self) -> bool {
        self.any_rows
    }

    pub fn new() -> (r: JsonSelectSerializer)
        ensures
            !r.started(),
            r.format() == ResultFormat::Json,
    {
        JsonSelectSerializer { any_rows: false }
    }
}

impl SelectSerializer for JsonSelectSerializer {
    open spec fn format(&self) -> ResultFormat {
        ResultFormat::Json
    }

    open spec fn started(&self) -> bool {
        self.wrote()
    }

    fn header(&mut self, vars: &Vec<String>) -> (r: String) {
        let mut out = "{\"head\":{\"vars\":".to_owned();
        out.append(print_strings(vars).as_str());
        out.append("},\"results\":{\"bindings\":[");
        out
    }

    fn chunk(&mut self, vars: &Vec<String>, rows: &Vec<Bindings>) -> (out: String) {
        let ghost vv = texts(vars@);
        let ghost rv = bindings_view(rows@);
        let ghost was = self.any_rows;
        let mut out = String::new();
        let mut i: usize = 0;
        assert(rv.take(0) =~= Seq::empty());
        assert(out@ =~= rows_text(ResultFormat::Json, was, vv, rv.take(0)));
        while i < rows.len()
            invariant
                i <= rows@.len(),
                vv == texts(vars@),
                rv == bindings_view(rows@),
                self.any_rows == (was || i > 0),
                out@ == rows_text(ResultFormat::Json, was, vv, rv.take(i as int)),
            decreases rows@.len() - i,
        {
            proof {
                assert(rv.take(i + 1).drop_last() =~= rv.take(i as int));
                assert(rv.take(i + 1).last() == rows@[i as int]@);
            }
            let ghost before = out@;
            out.append(if self.any_rows {
                ","
            } else {
                ""
            });
            self.any_rows = true;
            out.append(print_object(row_object(vars, &rows[i])).as_str());
            assert(out@ =~= before + json_row(!was && i == 0, vv, rows@[i as int]@));
            i = i + 1;
        }
        assert(rv.take(rv.len() as int) =~= rv);
        out
    }

    fn footer(&mut self) -> (r: String) {
        "]}}".to_owned()
    }
}

/// Writes a result as JSON.
pub fn write_select_json(vars: &Vec<String>, rows: &Vec<Bindings>) -> (out: String)
    ensures
        out@ == document(ResultFormat::Json, texts(vars@), bindings_view(rows@)),
{
    let mut ser = JsonSelectSerializer::new();
    write_document(&mut ser, vars, rows)
}

/// Writes an answer to `ASK` as JSON.
pub fn write_ask_json(answer: bool) -> (out: String)
    ensures
        out@ == if answer {
            "{\"boolean\":true,\"head\":{}}"@
        } else {
            "{\"boolean\":false,\"head\":{}}"@
        },
{
    if answer {
        "{\"boolean\":true,\"head\":{}}".to_owned()
    } else {
        "{\"boolean\":false,\"head\":{}}".to_owned()
    }
}

}
