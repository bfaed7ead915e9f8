//! Results as comma-separated values.

use crate::algebra::{texts, Term, TermView};
use crate::exec::bindings::{bindings_view, Bindings};
use crate::results::{
    document, join_texts, rows_text, separated, write_document, ResultFormat, SelectSerializer,
    Solution,
};
use crate::text::{chars_of, push_char, Text};
use vstd::prelude::*;
use vstd::string::*;

verus! {

/// Writes comma-separated values.
pub struct CsvSelectSerializer {
    pub any_rows: bool,
}

/// The text of a term. A triple term has none.
pub open spec fn plain_text(t: TermView) -> Text {
    match t {
        TermView::Iri(s) => s,
        TermView::Literal(s) => s,
        TermView::BlankNode(s) => s,
        TermView::Var(v) => v,
        TermView::Triple(_) => Seq::empty(),
    }
}

fn term_to_lex(t: &Term) -> (r: String)
    ensures
        r@ == plain_text(t@),
{
    match t {
        Term::Iri(s) | Term::Literal(s) | Term::BlankNode(s) => s.clone(),
        Term::Var(v) => v.name().to_owned(),
        Term::Triple(_) => {
            let none = String::new();
            assert(none@ =~= Seq::empty());
            none
        },
    }
}

/// Must a field with the character be quoted?
pub open spec fn special(c: char) -> bool {
    c == ',' || c == '"' || c == '\n' || c == '\r'
}

/// A text with its quotes doubled.
pub open spec fn quotes_doubled(s: Text) -> Text
    decreases s.len(),
{
    if s.len() == 0 {
        Seq::empty()
    } else if s.last() == '"' {
        quotes_doubled(s.drop_last()).push('"').push('"')
    } else {
        quotes_doubled(s.drop_last()).push(s.last())
    }
}

/// A text as a field.
pub open spec fn field(s: Text) -> Text {
    if exists|i: int| 0 <= i < s.len() && special(#[trigger] s[i]) {
        seq!['"'] + quotes_doubled(s) + seq!['"']
    } else {
        s
    }
}

/// A text with its doubled quotes made single.
pub open spec fn quotes_single(s: Text) -> Text
    decreases s.len(),
{
    if s.len() == 0 {
        Seq::empty()
    } else if s.last() == '"' && s.len() > 1 {
        quotes_single(s.drop_last().drop_last()).push('"')
    } else {
        quotes_single(s.drop_last()).push(s.last())
    }
}

/// The text a field stands for.
pub open spec fn field_text(f: Text) -> Text {
    if f.len() >= 2 && f[0] == '"' {
        quotes_single(f.subrange(1, f.len() - 1))
    } else {
        f
    }
}

proof fn doubling_is_undone(s: Text)
    ensures
        quotes_single(quotes_doubled(s)) == s,
    decreases s.len(),
{
    let q = quotes_doubled(s);
    if s.len() > 0 {
        let rest = s.drop_last();
        doubling_is_undone(rest);
        if s.last() == '"' {
            assert(q.drop_last().drop_last() =~= quotes_doubled(rest));
        } else {
            assert(q.drop_last() =~= quotes_doubled(rest));
        }
        assert(rest.push(s.last()) =~= s);
    } else {
        assert(quotes_single(q) =~= s);
    }
}

/// A field reads back as the text it was made of.
pub proof fn a_field_reads_back(s: Text)
    ensures
        field_text(field(s)) == s,
{
    let f = field(s);
    if exists|i: int| 0 <= i < s.len() && special(#[trigger] s[i]) {
        assert(f.subrange(1, f.len() - 1) =~= quotes_doubled(s));
        doubling_is_undone(s);
    } else if f.len() > 0 {
        assert(!special(s[0]));
    }
}

pub fn csv_escape(s: &str) -> (out: String)
    ensures
        out@ == field(s@),
{
    let cs = chars_of(s);
    let n: usize = cs.len();
    let mut found = false;
    let mut i: usize = 0;
    while i < n
        invariant
            i <= n,
            n == cs@.len(),
            found == (exists|j: int| 0 <= j < i && special(#[trigger] cs@[j])),
        decreases n - i,
    {
        let c = cs[i];
        if c == ',' || c == '"' || c == '\n' || c == '\r' {
            assert(special(cs@[i as int]));
            found = true;
        }
        i = i + 1;
    }
    if !found {
        return s.to_owned();
    }
    let mut out = String::new();
    push_char(&mut out, '"');
    let mut k: usize = 0;
    assert(cs@.take(0) =~= Seq::empty());
    assert(out@ =~= seq!['"'] + quotes_doubled(cs@.take(0)));
    while k < n
        invariant
            k <= n,
            n == cs@.len(),
            out@ == seq!['"'] + quotes_doubled(cs@.take(k as int)),
        decreases n - k,
    {
        let ghost before = out@;
        proof {
            assert(cs@.take(k + 1).drop_last() =~= cs@.take(k as int));
            assert(cs@.take(k + 1).last() == cs@[k as int]);
        }
        if cs[k] == '"' {
            push_char(&mut out, '"');
        }
        push_char(&mut out, cs[k]);
        assert(out@ =~= seq!['"'] + quotes_doubled(cs@.take(k + 1)));
        k = k + 1;
    }
    push_char(&mut out, '"');
    proof {
        assert(cs@.take(n as int) =~= cs@);
        assert(out@ =~= field(s@));
    }
    out
}

/// The field of a variable.
pub open spec fn cell(row: Solution, v: Text) -> Text {
    if row.contains_key(v) {
        field(plain_text(row[v]))
    } else {
        Seq::empty()
    }
}

pub open spec fn cells(row: Solution, vars: Seq<Text>) -> Seq<Text> {
    Seq::new(vars.len(), |i: int| cell(row, vars[i]))
}

fn row_cells(vars: &Vec<String>, row: &Bindings) -> (out: Vec<String>)
    ensures
        texts(out@) == cells(row@, texts(vars@)),
{
    let mut out: Vec<String> = Vec::new();
    let mut i: usize = 0;
    while i < vars.len()
        invariant
            i <= vars@.len(),
            out@.len() == i,
            forall|j: int| 0 <= j < i ==> (#[trigger] out@[j])@ == cell(row@, vars@[j]@),
        decreases vars@.len() - i,
    {
        let c = match row.get(vars[i].as_str()) {
            Some(t) => csv_escape(term_to_lex(t).as_str()),
            None => {
                let none = String::new();
                assert(none@ =~= Seq::empty());
                none
            },
        };
        out.push(c);
        i = i + 1;
    }
    assert(texts(out@) =~= cells(row@, texts(vars@)));
    out
}

pub open spec fn csv_header(vars: Seq<Text>) -> Text {
    separated(vars, ","@) + "\r\n"@
}

pub open spec fn csv_row(vars: Seq<Text>, row: Solution) -> Text {
    separated(cells(row, vars), ","@) + "\r\n"@
}

impl CsvSelectSerializer {
    pub open spec fn wrote(&self) -> bool {
        self.any_rows
    }

    pub fn new() -> (r: CsvSelectSerializer)
        ensures
            !r.started(),
            r.format() == ResultFormat::Csv,
    {
        CsvSelectSerializer { any_rows: false }
    }
}

impl SelectSerializer for CsvSelectSerializer {
    open spec fn format(&self) -> ResultFormat {
        ResultFormat::Csv
    }

    open spec fn started(&self) -> bool {
        self.wrote()
    }

    fn header(&mut self, vars: &Vec<String>) -> (r: String) {
        let mut out = join_texts(vars, ",");
        out.append("\r\n");
        out
    }

    fn chunk(&mut self, vars: &Vec<String>, rows: &Vec<Bindings>) -> (out: String) {
        let ghost vv = texts(vars@);
        let ghost rv = bindings_view(rows@);
        let ghost was = self.any_rows;
        let mut out = String::new();
        let mut i: usize = 0;
        assert(rv.take(0) =~= Seq::empty());
        assert(out@ =~= rows_text(ResultFormat::Csv, was, vv, rv.take(0)));
        while i < rows.len()
            invariant
                i <= rows@.len(),
                vv == texts(vars@),
                rv == bindings_view(rows@),
                out@ == rows_text(ResultFormat::Csv, was, vv, rv.take(i as int)),
            decreases rows@.len() - i,
        {
            proof {
                assert(rv.take(i + 1).drop_last() =~= rv.take(i as int));
                assert(rv.take(i + 1).last() == rows@[i as int]@);
            }
            let ghost before = out@;
            out.append(join_texts(&row_cells(vars, &rows[i]), ",").as_str());
            out.append("\r\n");
            assert(out@ =~= before + csv_row(vv, rows@[i as int]@));
            i = i + 1;
        }
        assert(rv.take(rv.len() as int) =~= rv);
        self.any_rows = self.any_rows || rows.len() > 0;
        out
    }

    fn footer(&mut self) -> (r: String) {
        "".to_owned()
    }
}

/// Writes a result as comma-separated values.
pub fn write_select_csv(vars: &Vec<String>, rows: &Vec<Bindings>) -> (out: String)
    ensures
        out@ == document(ResultFormat::Csv, texts(vars@), bindings_view(rows@)),
{
    let mut ser = CsvSelectSerializer::new();
    write_document(&mut ser, vars, rows)
}

}
