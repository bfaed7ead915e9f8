//! Results as XML.

use crate::algebra::{texts, Term, TermView};
use crate::exec::bindings::{bindings_view, Bindings};
use crate::exec::literal::{literal_parts, parts_of};
use crate::results::{
    document, rows_text, write_document, ResultFormat, SelectSerializer, Solution,
};
use crate::text::{chars_of, push_char, starts, strip_prefix, Text};
use vstd::prelude::*;
use vstd::string::*;

verus! {

/// Writes XML.
pub struct XmlSelectSerializer {
    pub any_rows: bool,
}

// ── Escapes ─────────────────────────────────────────────────────────────────

/// A character of text, or of an attribute.
pub open spec fn xml_char(c: char, attribute: bool) -> Text {
    if c == '&' {
        "&amp;"@
    } else if c == '<' {
        "&lt;"@
    } else if c == '>' {
        "&gt;"@
    } else if c == '"' && attribute {
        "&quot;"@
    } else {
        seq![c]
    }
}

/// Text, or an attribute.
pub open spec fn xml_escaped(s: Text, attribute: bool) -> Text
    decreases s.len(),
{
    if s.len() == 0 {
        Seq::empty()
    } else {
        xml_escaped(s.drop_last(), attribute) + xml_char(s.last(), attribute)
    }
}

/// Escaped text holds no markup: no angle bracket and, in an attribute, no
/// quote.
pub proof fn escaped_text_holds_no_markup(s: Text, attribute: bool)
    ensures
        !xml_escaped(s, attribute).contains('<'),
        !xml_escaped(s, attribute).contains('>'),
        attribute ==> !xml_escaped(s, attribute).contains('"'),
    decreases s.len(),
{
    if s.len() > 0 {
        escaped_text_holds_no_markup(s.drop_last(), attribute);
        reveal_strlit("&amp;");
        reveal_strlit("&lt;");
        reveal_strlit("&gt;");
        reveal_strlit("&quot;");
        let (x, y) = (xml_escaped(s.drop_last(), attribute), xml_char(s.last(), attribute));
        assert forall|c: char| #[trigger] (x + y).contains(c) implies x.contains(c) || y.contains(c) by {
            let i = choose|i: int| 0 <= i < (x + y).len() && (x + y)[i] == c;
            if i < x.len() {
                assert(x[i] == c);
            } else {
                assert(y[i - x.len()] == c);
            }
        }
    }
}

fn xml_escape(s: &str, attribute: bool) -> (out: String)
    ensures
        out@ == xml_escaped(s@, attribute),
{
    let cs = chars_of(s);
    let mut out = String::new();
    let mut i: usize = 0;
    assert(cs@.take(0) =~= Seq::empty());
    assert(out@ =~= xml_escaped(cs@.take(0), attribute));
    while i < cs.len()
        invariant
            i <= cs@.len(),
            out@ == xml_escaped(cs@.take(i as int), attribute),
        decreases cs@.len() - i,
    {
        let c = cs[i];
        let ghost before = out@;
        if c == '&' {
            out.append("&amp;");
        } else if c == '<' {
            out.append("&lt;");
        } else if c == '>' {
            out.append("&gt;");
        } else if c == '"' && attribute {
            out.append("&quot;");
        } else {
            push_char(&mut out, c);
            assert(out@ =~= before + seq![c]);
        }
        proof {
            assert(out@ == before + xml_char(c, attribute));
            assert(cs@.take(i + 1).drop_last() =~= cs@.take(i as int));
            assert(cs@.take(i + 1).last() == c);
        }
        i = i + 1;
    }
    assert(cs@.take(cs@.len() as int) =~= cs@);
    out
}

// ── Terms ───────────────────────────────────────────────────────────────────

/// A blank node's label without the marks before it.
pub open spec fn bare_label(s: Text) -> Text
    decreases s.len(),
    when "_:"@.len() == 2
{
    if starts(s, "_:"@) {
        bare_label(s.skip(2))
    } else {
        s
    }
}

/// A blank node's label without the marks before it.
pub fn strip_marks(s: &str) -> (r: String)
    ensures
        r@ == bare_label(s@),
    decreases s@.len(),
{
    proof {
        reveal_strlit("_:");
    }
    match strip_prefix(s, "_:") {
        Some(rest) => strip_marks(rest.as_str()),
        None => s.to_owned(),
    }
}

/// A literal as an element.
pub open spec fn literal_xml(raw: Text) -> Text {
    let p = parts_of(raw);
    match (p.lang, p.datatype) {
        (Some(lang), _) => "<literal xml:lang=\""@ + xml_escaped(lang, true) + "\">"@ + xml_escaped(
            p.value,
            false,
        ) + "</literal>"@,
        (None, Some(dt)) => "<literal datatype=\""@ + xml_escaped(dt, true) + "\">"@ + xml_escaped(
            p.value,
            false,
        ) + "</literal>"@,
        (None, None) => "<literal>"@ + xml_escaped(p.value, false) + "</literal>"@,
    }
}

fn parse_literal_to_xml(raw: &str) -> (r: String)
    ensures
        r@ == literal_xml(raw@),
{
    let (value, lang, datatype) = literal_parts(raw);
    match (lang, datatype) {
        (Some(lang), _) => {
            let mut out = "<literal xml:lang=\"".to_owned();
            out.append(xml_escape(lang.as_str(), true).as_str());
            out.append("\">");
            out.append(xml_escape(value.as_str(), false).as_str());
            out.append("</literal>");
            out
        },
        (None, Some(dt)) => {
            let mut out = "<literal datatype=\"".to_owned();
            out.append(xml_escape(dt.as_str(), true).as_str());
            out.append("\">");
            out.append(xml_escape(value.as_str(), false).as_str());
            out.append("</literal>");
            out
        },
        (None, None) => {
            let mut out = "<literal>".to_owned();
            out.append(xml_escape(value.as_str(), false).as_str());
            out.append("</literal>");
            out
        },
    }
}

/// A term as an element. What has no text is an empty literal.
pub open spec fn term_xml(t: TermView) -> Text {
    match t {
        TermView::Iri(s) => "<uri>"@ + xml_escaped(s, false) + "</uri>"@,
        TermView::BlankNode(s) => "<bnode>"@ + xml_escaped(bare_label(s), false) + "</bnode>"@,
        TermView::Literal(raw) => literal_xml(raw),
        TermView::Var(_) => "<literal></literal>"@,
        TermView::Triple(_) => "<literal></literal>"@,
    }
}

fn term_to_xml(t: &Term) -> (r: String)
    ensures
        r@ == term_xml(t@),
{
    match t {
        Term::Iri(s) => {
            let mut out = "<uri>".to_owned();
            out.append(xml_escape(s.as_str(), false).as_str());
            out.append("</uri>");
            out
        },
        Term::BlankNode(s) => {
            let mut out = "<bnode>".to_owned();
            out.append(xml_escape(strip_marks(s.as_str()).as_str(), false).as_str());
            out.append("</bnode>");
            out
        },
        Term::Literal(raw) => parse_literal_to_xml(raw.as_str()),
        Term::Var(_) => "<literal></literal>".to_owned(),
        Term::Triple(_) => "<literal></literal>".to_owned(),
    }
}

// ── Documents ───────────────────────────────────────────────────────────────

/// The variables of the header.
pub open spec fn variables_xml(vars: Seq<Text>) -> Text
    decreases vars.len(),
{
    if vars.len() == 0 {
        Seq::empty()
    } else {
        variables_xml(vars.drop_last()) + "    <variable name=\""@ + xml_escaped(
            vars.last(),
            true,
        ) + "\"/>\n"@
    }
}

pub open spec fn xml_header(vars: Seq<Text>) -> Text {
    "<?xml version=\"1.0\"?>"@
        + "\n<sparql xmlns=\"http://www.w3.org/2005/sparql-results#\">\n"@ + "  <head>\n"@
        + variables_xml(vars) + "  </head>\n"@ + "  <results>\n"@
}

/// The bindings of a row; an unbound variable has none.
pub open spec fn bindings_xml(vars: Seq<Text>, row: Solution) -> Text
    decreases vars.len(),
{
    if vars.len() == 0 {
        Seq::empty()
    } else {
        let before = bindings_xml(vars.drop_last(), row);
        if row.contains_key(vars.last()) {
            before + "      <binding name=\""@ + xml_escaped(vars.last(), true) + "\">"@ + term_xml(
                row[vars.last()],
            ) + "</binding>\n"@
        } else {
            before
        }
    }
}

pub open spec fn xml_row(vars: Seq<Text>, row: Solution) -> Text {
    "    <result>\n"@ + bindings_xml(vars, row) + "    </result>\n"@
}

fn write_variables(vars: &Vec<String>) -> (out: String)
    ensures
        out@ == variables_xml(texts(vars@)),
{
    let ghost vv = texts(vars@);
    let mut out = String::new();
    let mut i: usize = 0;
    assert(vv.take(0) =~= Seq::empty());
    assert(out@ =~= variables_xml(vv.take(0)));
    while i < vars.len()
        invariant
            i <= vars@.len(),
            vv == texts(vars@),
            out@ == variables_xml(vv.take(i as int)),
        decreases vars@.len() - i,
    {
        proof {
            assert(vv.take(i + 1).drop_last() =~= vv.take(i as int));
            assert(vv.take(i + 1).last() == vars@[i as int]@);
        }
        out.append("    <variable name=\"");
        out.append(xml_escape(vars[i].as_str(), true).as_str());
        out.append("\"/>\n");
        i = i + 1;
    }
    assert(vv.take(vv.len() as int) =~= vv);
    out
}

fn write_bindings(vars: &Vec<String>, row: &Bindings) -> (out: String)
    ensures
        out@ == bindings_xml(texts(vars@), row@),
{
    let ghost vv = texts(vars@);
    let mut out = String::new();
    let mut i: usize = 0;
    assert(vv.take(0) =~= Seq::empty());
    assert(out@ =~= bindings_xml(vv.take(0), row@));
    while i < vars.len()
        invariant
            i <= vars@.len(),
            vv == texts(vars@),
            out@ == bindings_xml(vv.take(i as int), row@),
        decreases vars@.len() - i,
    {
        proof {
            assert(vv.take(i + 1).drop_last() =~= vv.take(i as int));
            assert(vv.take(i + 1).last() == vars@[i as int]@);
        }
        if let Some(t) = row.get(vars[i].as_str()) {
            out.append("      <binding name=\"");
            out.append(xml_escape(vars[i].as_str(), true).as_str());
            out.append("\">");
            out.append(term_to_xml(t).as_str());
            out.append("</binding>\n");
        }
        i = i + 1;
    }
    assert(vv.take(vv.len() as int) =~= vv);
    out
}

impl XmlSelectSerializer {
    pub open spec fn wrote(&self) -> bool {
        self.any_rows
    }

    pub fn new() -> (r: XmlSelectSerializer)
        ensures
            !r.started(),
            r.format() == ResultFormat::Xml,
    {
        XmlSelectSerializer { any_rows: false }
    }
}

impl SelectSerializer for XmlSelectSerializer {
    open spec fn format(&self) -> ResultFormat {
        ResultFormat::Xml
    }

    open spec fn started(&self) -> bool {
        self.wrote()
    }

    fn header(&mut self, vars: &Vec<String>) -> (r: String) {
        let mut out = "<?xml version=\"1.0\"?>".to_owned();
        out.append("\n<sparql xmlns=\"http://www.w3.org/2005/sparql-results#\">\n");
        out.append("  <head>\n");
        out.append(write_variables(vars).as_str());
        out.append("  </head>\n");
        out.append("  <results>\n");
        out
    }

    fn chunk(&mut self, vars: &Vec<String>, rows: &Vec<Bindings>) -> (out: String) {
        let ghost vv = texts(vars@);
        let ghost rv = bindings_view(rows@);
        let ghost was = self.any_rows;
        let mut out = String::new();
        let mut i: usize = 0;
        assert(rv.take(0) =~= Seq::empty());
        assert(out@ =~= rows_text(ResultFormat::Xml, was, vv, rv.take(0)));
        while i < rows.len()
            invariant
                i <= rows@.len(),
                vv == texts(vars@),
                rv == bindings_view(rows@),
                out@ == rows_text(ResultFormat::Xml, was, vv, rv.take(i as int)),
            decreases rows@.len() - i,
        {
            proof {
                assert(rv.take(i + 1).drop_last() =~= rv.take(i as int));
                assert(rv.take(i + 1).last() == rows@[i as int]@);
            }
            let ghost before = out@;
            out.append("    <result>\n");
            out.append(write_bindings(vars, &rows[i]).as_str());
            out.append("    </result>\n");
            assert(out@ =~= before + xml_row(vv, rows@[i as int]@));
            i = i + 1;
        }
        assert(rv.take(rv.len() as int) =~= rv);
        self.any_rows = self.any_rows || rows.len() > 0;
        out
    }

    fn footer(&mut self) -> (r: String) {
        "  </results>\n</sparql>\n".to_owned()
    }
}

/// Writes a result as XML.
pub fn write_select_xml(vars: &Vec<String>, rows: &Vec<Bindings>) -> (out: String)
    ensures
        out@ == document(ResultFormat::Xml, texts(vars@), bindings_view(rows@)),
{
    let mut ser = XmlSelectSerializer::new();
    write_document(&mut ser, vars, rows)
}

/// An answer to `ASK` as XML.
pub open spec fn ask_xml(answer: bool) -> Text {
    "<?xml version=\"1.0\"?>"@
        + "\n<sparql xmlns=\"http://www.w3.org/2005/sparql-results#\">\n"@ + "  <head/>\n"@
        + "  <boolean>"@ + (if answer {
        "true"@
    } else {
        "false"@
    }) + "</boolean>\n"@ + "</sparql>\n"@
}

/// Writes an answer to `ASK` as XML.
pub fn write_ask_xml(answer: bool) -> (out: String)
    ensures
        out@ == ask_xml(answer),
{
    let mut out = "<?xml version=\"1.0\"?>".to_owned();
    out.append("\n<sparql xmlns=\"http://www.w3.org/2005/sparql-results#\">\n");
    out.append("  <head/>\n");
    out.append("  <boolean>");
    out.append(if answer {
        "true"
    } else {
        "false"
    });
    out.append("</boolean>\n");
    out.append("</sparql>\n");
    out
}

}
