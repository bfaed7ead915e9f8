//! Results as tab-separated values.

use crate::algebra::{texts, Term, TermView};
use crate::exec::bindings::{bindings_view, Bindings};
use crate::results::{
    document, join_texts, rows_text, separated, write_document, ResultFormat, SelectSerializer,
    Solution,
};
use crate::text::{starts, starts_with, Text};
use vstd::prelude::*;
use vstd::string::*;

verus! {

/// Writes tab-separated values.
pub struct TsvSelectSerializer {
    pub any_rows: bool,
}

/// A term in a field. A triple term has no text.
pub open spec fn term_field(t: TermView) -> Text {
    match t {
        TermView::Iri(s) => "<"@ + s + ">"@,
        TermView::BlankNode(s) => if starts(s, "_:"@) {
            s
        } else {
            "_:"@ + s
        },
        TermView::Literal(s) => s,
        TermView::Var(v) => "?"@ + v,
        TermView::Triple(_) => ""@,
    }
}

fn write_term(t: &Term) -> (r: String)
    ensures
        r@ == term_field(t@),
{
    match t {
        Term::Iri(s) => {
            let mut out = "<".to_owned();
            out.append(s.as_str());
            out.append(">");
            out
        },
        Term::BlankNode(s) => if starts_with(s.as_str(), "_:") {
            s.clone()
        } else {
            let mut out = "_:".to_owned();
            out.append(s.as_str());
            out
        },
        Term::Literal(s) => s.clone(),
        Term::Var(v) => {
            let mut out = "?".to_owned();
            out.append(v.name());
            out
        },
        Term::Triple(_) => "".to_owned(),
    }
}

/// The field of a variable.
pub open spec fn cell(row: Solution, v: Text) -> Text {
    if row.contains_key(v) {
        term_field(row[v])
    } else {
        ""@
    }
}

pub open spec fn cells(row: Solution, vars: Seq<Text>) -> Seq<Text> {
    Seq::new(vars.len(), |i: int| cell(row, vars[i]))
}

fn row_cells(vars: &Vec<String>, row: &Bindings) -> (out: Vec<String>)
    ensures
        texts(out@) == cells(row@, texts(vars@)),
{
    let mut out: Vec<String> = Vec::new();
    let mut i: usize = 0;
    while i < vars.len()
        invariant
            i <= vars@.len(),
            out@.len() == i,
            forall|j: int| 0 <= j < i ==> (#[trigger] out@[j])@ == cell(row@, vars@[j]@),
        decreases vars@.len() - i,
    {
        let c = match row.get(vars[i].as_str()) {
            Some(t) => write_term(t),
            None => "".to_owned(),
        };
        out.push(c);
        i = i + 1;
    }
    assert(texts(out@) =~= cells(row@, texts(vars@)));
    out
}

/// The variables as they are written in the header.
pub open spec fn marked(vars: Seq<Text>) -> Seq<Text> {
    Seq::new(vars.len(), |i: int| "?"@ + vars[i])
}

fn mark(vars: &Vec<String>) -> (out: Vec<String>)
    ensures
        texts(out@) == marked(texts(vars@)),
{
    let mut out: Vec<String> = Vec::new();
    let mut i: usize = 0;
    while i < vars.len()
        invariant
            i <= vars@.len(),
            out@.len() == i,
            forall|j: int| 0 <= j < i ==> (#[trigger] out@[j])@ == "?"@ + vars@[j]@,
        decreases vars@.len() - i,
    {
        let mut name = "?".to_owned();
        name.append(vars[i].as_str());
        out.push(name);
        i = i + 1;
    }
    assert(texts(out@) =~= marked(texts(vars@)));
    out
}

pub open spec fn tsv_header(vars: Seq<Text>) -> Text {
    separated(marked(vars), "\t"@) + "\n"@
}

pub open spec fn tsv_row(vars: Seq<Text>, row: Solution) -> Text {
    separated(cells(row, vars), "\t"@) + "\n"@
}

impl TsvSelectSerializer {
    pub open spec fn wrote(&self) -> bool {
        self.any_rows
    }

    pub fn new() -> (r: TsvSelectSerializer)
        ensures
            !r.started(),
            r.format() == ResultFormat::Tsv,
    {
        TsvSelectSerializer { any_rows: false }
    }
}

impl SelectSerializer for TsvSelectSerializer {
    open spec fn format(&self) -> ResultFormat {
        ResultFormat::Tsv
    }

    open spec fn started(&self) -> bool {
        self.wrote()
    }

    fn header(&mut self, vars: &Vec<String>) -> (r: String) {
        let mut out = join_texts(&mark(vars), "\t");
        out.append("\n");
        out
    }

    fn chunk(&mut self, vars: &Vec<String>, rows: &Vec<Bindings>) -> (out: String) {
        let ghost vv = texts(vars@);
        let ghost rv = bindings_view(rows@);
        let ghost was = self.any_rows;
        let mut out = String::new();
        let mut i: usize = 0;
        assert(rv.take(0) =~= Seq::empty());
        assert(out@ =~= rows_text(ResultFormat::Tsv, was, vv, rv.take(0)));
        while i < rows.len()
            invariant
                i <= rows@.len(),
                vv == texts(vars@),
                rv == bindings_view(rows@),
                out@ == rows_text(ResultFormat::Tsv, was, vv, rv.take(i as int)),
            decreases rows@.len() - i,
        {
            proof {
                assert(rv.take(i + 1).drop_last() =~= rv.take(i as int));
                assert(rv.take(i + 1).last() == rows@[i as int]@);
            }
            let ghost before = out@;
            out.append(join_texts(&row_cells(vars, &rows[i]), "\t").as_str());
            out.append("\n");
            assert(out@ =~= before + tsv_row(vv, rows@[i as int]@));
            i = i + 1;
        }
        assert(rv.take(rv.len() as int) =~= rv);
        self.any_rows = self.any_rows || rows.len() > 0;
        out
    }

    fn footer(&mut self) -> (r: String) {
        "".to_owned()
    }
}

/// Writes a result as tab-separated values.
pub fn write_select_tsv(vars: &Vec<String>, rows: &Vec<Bindings>) -> (out: String)
    ensures
        out@ == document(ResultFormat::Tsv, texts(vars@), bindings_view(rows@)),
{
    let mut ser = TsvSelectSerializer::new();
    write_document(&mut ser, vars, rows)
}

}
