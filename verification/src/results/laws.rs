//! Results read back: what was written is what a reader of the format gets.

use crate::algebra::TermView;
use crate::exec::literal::{
    escaped, lang_literal_round_trips, lang_view, plain_literal_round_trips, plain_view,
};
use crate::exec::value_laws::{is_simple, typed_comes_apart};
use crate::results::csv::{cell, cells, csv_header, csv_row, field, quotes_doubled, special};
use crate::results::json::{json_object, json_strings, row_members, term_json};
use crate::results::tsv;
use crate::results::xml::{
    bare_label, bindings_xml, term_xml, variables_xml, xml_char, xml_escaped,
};
use crate::results::{
    document, header_text, row_text, rows_text, separated, ResultFormat, Solution,
};
use crate::text::{starts, white, Text};
use vstd::prelude::*;

verus! {

/// The text a term was made of. A triple term has none.
pub open spec fn own_text(t: TermView) -> Text {
    match t {
        TermView::Iri(s) => s,
        TermView::BlankNode(s) => s,
        TermView::Literal(s) => s,
        TermView::Var(s) => s,
        TermView::Triple(_) => Seq::empty(),
    }
}

/// The texts of a row: that of the term of each variable, and an empty one for a
/// variable that is not bound.
pub open spec fn own_texts(vars: Seq<Text>, row: Solution) -> Seq<Text> {
    Seq::new(
        vars.len(),
        |i: int|
            if row.contains_key(vars[i]) {
                own_text(row[vars[i]])
            } else {
                Seq::empty()
            },
    )
}

// ── Reading comma-separated values ──────────────────────────────────────────

/// Where a reader of comma-separated values is.
pub enum CsvAt {
    /// At the start of a field.
    Start,
    /// In a field without quotes.
    Plain,
    /// In a field with quotes.
    Quoted,
    /// Behind a quote in a field with quotes.
    Quote,
    /// Behind a carriage return.
    Return,
}

/// A reader of comma-separated values: the records read, the fields of the one
/// being read, and the text of the field.
#[verifier::ext_equal]
pub struct CsvReader {
    pub records: Seq<Seq<Text>>,
    pub fields: Seq<Text>,
    pub text: Text,
    pub at: CsvAt,
}

impl CsvReader {
    pub open spec fn new() -> CsvReader {
        CsvReader {
            records: Seq::empty(),
            fields: Seq::empty(),
            text: Seq::empty(),
            at: CsvAt::Start,
        }
    }

    /// The reader with one more character of the field.
    pub open spec fn taking(self, c: char, at: CsvAt) -> CsvReader {
        CsvReader { records: self.records, fields: self.fields, text: self.text.push(c), at }
    }

    /// The reader at another place.
    pub open spec fn moved(self, at: CsvAt) -> CsvReader {
        CsvReader { records: self.records, fields: self.fields, text: self.text, at }
    }

    /// The reader behind the field.
    pub open spec fn next_field(self) -> CsvReader {
        CsvReader {
            records: self.records,
            fields: self.fields.push(self.text),
            text: Seq::empty(),
            at: CsvAt::Start,
        }
    }

    /// The reader behind the record.
    pub open spec fn next_record(self) -> CsvReader {
        CsvReader {
            records: self.records.push(self.fields.push(self.text)),
            fields: Seq::empty(),
            text: Seq::empty(),
            at: CsvAt::Start,
        }
    }

    /// The reader behind a character. A comma ends a field, and a carriage return
    /// with a line feed the record, but for those within quotes; two quotes
    /// within quotes are one.
    pub open spec fn read(self, c: char) -> CsvReader {
        match self.at {
            CsvAt::Start => if c == '"' {
                self.moved(CsvAt::Quoted)
            } else if c == ',' {
                self.next_field()
            } else if c == '\r' {
                self.moved(CsvAt::Return)
            } else {
                self.taking(c, CsvAt::Plain)
            },
            CsvAt::Plain => if c == ',' {
                self.next_field()
            } else if c == '\r' {
                self.moved(CsvAt::Return)
            } else {
                self.taking(c, CsvAt::Plain)
            },
            CsvAt::Quoted => if c == '"' {
                self.moved(CsvAt::Quote)
            } else {
                self.taking(c, CsvAt::Quoted)
            },
            CsvAt::Quote => if c == '"' {
                self.taking(c, CsvAt::Quoted)
            } else if c == ',' {
                self.next_field()
            } else if c == '\r' {
                self.moved(CsvAt::Return)
            } else {
                self.taking(c, CsvAt::Plain)
            },
            CsvAt::Return => if c == '\n' {
                self.next_record()
            } else {
                self.taking(c, CsvAt::Plain)
            },
        }
    }

    /// The reader behind a text.
    pub open spec fn reads(self, s: Text) -> CsvReader
        decreases s.len(),
    {
        if s.len() == 0 {
            self
        } else {
            self.reads(s.drop_last()).read(s.last())
        }
    }

    /// Is the reader behind a whole field that stands for a text?
    spec fn has(self, text: Text) -> bool {
        self.text == text && (self.at is Plain || self.at is Quote || (self.at is Start
            && text.len() == 0))
    }
}

/// The records of comma-separated values.
pub open spec fn csv_records(s: Text) -> Seq<Seq<Text>> {
    CsvReader::new().reads(s).records
}

proof fn reads_on(r: CsvReader, a: Text, b: Text)
    ensures
        r.reads(a + b) == r.reads(a).reads(b),
    decreases b.len(),
{
    if b.len() == 0 {
        assert(a + b =~= a);
    } else {
        reads_on(r, a, b.drop_last());
        assert((a + b).drop_last() =~= a + b.drop_last());
        assert((a + b).last() == b.last());
    }
}

proof fn reads_one(r: CsvReader, c: char)
    ensures
        r.reads(seq![c]) == r.read(c),
{
    assert(seq![c].drop_last() =~= Seq::<char>::empty());
    assert(r.reads(seq![c].drop_last()) == r);
}

proof fn reads_quoted(r: CsvReader, s: Text)
    requires
        r.at is Quoted,
    ensures
        r.reads(quotes_doubled(s)) == (CsvReader {
            records: r.records,
            fields: r.fields,
            text: r.text + s,
            at: CsvAt::Quoted,
        }),
    decreases s.len(),
{
    let d = quotes_doubled(s);
    if s.len() == 0 {
        assert(r.text + s =~= r.text);
        assert(d =~= Seq::empty());
    } else {
        let rest = s.drop_last();
        let e = quotes_doubled(rest);
        reads_quoted(r, rest);
        let mid = r.reads(e);
        assert(r.text + s =~= (r.text + rest).push(s.last()));
        if s.last() == '"' {
            assert(d.drop_last() =~= e.push('"'));
            assert(d.last() == '"');
            assert(e.push('"').drop_last() =~= e);
            assert(r.reads(e.push('"')) == mid.read('"'));
        } else {
            assert(d.drop_last() =~= e);
            assert(d.last() == s.last());
        }
        assert(r.reads(d) =~= (CsvReader {
            records: r.records,
            fields: r.fields,
            text: r.text + s,
            at: CsvAt::Quoted,
        }));
    }
}

proof fn reads_plain(r: CsvReader, s: Text)
    requires
        r.at is Start,
        r.text.len() == 0,
        forall|i: int| 0 <= i < s.len() ==> !special(#[trigger] s[i]),
    ensures
        r.reads(s).records == r.records,
        r.reads(s).fields == r.fields,
        r.reads(s).text == s,
        r.reads(s).at == if s.len() == 0 {
            CsvAt::Start
        } else {
            CsvAt::Plain
        },
    decreases s.len(),
{
    if s.len() == 0 {
        assert(r.text =~= s);
    } else {
        let rest = s.drop_last();
        assert forall|i: int| 0 <= i < rest.len() implies !special(#[trigger] rest[i]) by {
            assert(rest[i] == s[i]);
        }
        reads_plain(r, rest);
        assert(!special(s[s.len() - 1]));
        assert(rest.push(s.last()) =~= s);
    }
}

/// A field is read as the text it stands for.
proof fn reads_field(r: CsvReader, s: Text)
    requires
        r.at is Start,
        r.text.len() == 0,
    ensures
        r.reads(field(s)).records == r.records,
        r.reads(field(s)).fields == r.fields,
        r.reads(field(s)).has(s),
{
    if exists|i: int| 0 <= i < s.len() && special(#[trigger] s[i]) {
        let q = seq!['"'];
        reads_one(r, '"');
        let inside = r.reads(q);
        reads_quoted(inside, s);
        assert(inside.text + s =~= s);
        reads_on(r, q, quotes_doubled(s));
        reads_on(r, q + quotes_doubled(s), q);
        reads_one(r.reads(q + quotes_doubled(s)), '"');
    } else {
        reads_plain(r, s);
    }
}

spec fn fields_for(ts: Seq<Text>) -> Seq<Text> {
    Seq::new(ts.len(), |i: int| field(ts[i]))
}

proof fn reads_fields(r: CsvReader, ts: Seq<Text>)
    requires
        r.at is Start,
        r.text.len() == 0,
        ts.len() > 0,
    ensures
        ({
            let after = r.reads(separated(fields_for(ts), ","@));
            &&& after.records == r.records
            &&& after.fields == r.fields + ts.drop_last()
            &&& after.has(ts.last())
        }),
    decreases ts.len(),
{
    let fs = fields_for(ts);
    reveal_strlit(",");
    assert(","@ =~= seq![',']);
    if ts.len() == 1 {
        assert(fs[0] == field(ts[0]));
        reads_field(r, ts[0]);
        assert(r.fields + ts.drop_last() =~= r.fields);
    } else {
        let rest = ts.drop_last();
        reads_fields(r, rest);
        assert(fs.drop_last() =~= fields_for(rest));
        assert(fs.last() == field(ts.last()));
        let front = separated(fields_for(rest), ","@);
        let mid = r.reads(front);
        reads_one(mid, ',');
        reads_on(r, front, ","@);
        reads_on(r, front + ","@, field(ts.last()));
        let next = mid.read(',');
        assert(next.at is Start && next.text.len() == 0);
        reads_field(next, ts.last());
        assert(next.fields =~= r.fields + ts.drop_last()) by {
            assert(rest =~= rest.drop_last().push(rest.last()));
        }
    }
}

proof fn reads_record(r: CsvReader, ts: Seq<Text>)
    requires
        r.at is Start,
        r.text.len() == 0,
        r.fields.len() == 0,
        ts.len() > 0,
    ensures
        r.reads(separated(fields_for(ts), ","@) + "\r\n"@) == (CsvReader {
            records: r.records.push(ts),
            fields: Seq::empty(),
            text: Seq::empty(),
            at: CsvAt::Start,
        }),
{
    reveal_strlit("\r\n");
    let line = separated(fields_for(ts), ","@);
    reads_fields(r, ts);
    let mid = r.reads(line);
    let end = "\r\n"@;
    assert(end =~= seq!['\r'] + seq!['\n']);
    reads_on(r, line, end);
    reads_on(mid, seq!['\r'], seq!['\n']);
    reads_one(mid, '\r');
    reads_one(mid.read('\r'), '\n');
    assert(r.fields + ts.drop_last() =~= ts.drop_last());
    assert(ts.drop_last().push(ts.last()) =~= ts);
}

spec fn row_records(vars: Seq<Text>, rows: Seq<Solution>) -> Seq<Seq<Text>> {
    Seq::new(rows.len(), |i: int| own_texts(vars, rows[i]))
}

proof fn reads_rows(r: CsvReader, vars: Seq<Text>, rows: Seq<Solution>)
    requires
        r.at is Start,
        r.text.len() == 0,
        r.fields.len() == 0,
        vars.len() > 0,
    ensures
        r.reads(rows_text(ResultFormat::Csv, false, vars, rows)) == (CsvReader {
            records: r.records + row_records(vars, rows),
            fields: Seq::empty(),
            text: Seq::empty(),
            at: CsvAt::Start,
        }),
    decreases rows.len(),
{
    if rows.len() == 0 {
        assert(r.records + row_records(vars, rows) =~= r.records);
        assert(r.fields =~= Seq::empty());
        assert(r.text =~= Seq::empty());
    } else {
        let rest = rows.drop_last();
        reads_rows(r, vars, rest);
        let before = rows_text(ResultFormat::Csv, false, vars, rest);
        let mid = r.reads(before);
        let ts = own_texts(vars, rows.last());
        assert(cells(rows.last(), vars) =~= fields_for(ts)) by {
            assert forall|i: int| 0 <= i < vars.len() implies cells(rows.last(), vars)[i]
                == fields_for(ts)[i] by {
                let none = Seq::<char>::empty();
                assert(field(none) =~= none);
            }
        }
        reads_record(mid, ts);
        reads_on(r, before, csv_row(vars, rows.last()));
        assert(r.records + row_records(vars, rows) =~= (r.records + row_records(vars, rest)).push(
            ts,
        ));
    }
}

/// A result in comma-separated values reads back: its records are the names of
/// the variables and then, row by row, the texts of the terms.
pub proof fn csv_reads_back(vars: Seq<Text>, rows: Seq<Solution>)
    requires
        vars.len() > 0,
        forall|k: int, i: int|
            0 <= k < vars.len() && 0 <= i < vars[k].len() ==> !special(#[trigger] vars[k][i]),
    ensures
        ({
            let records = csv_records(document(ResultFormat::Csv, vars, rows));
            &&& records.len() == 1 + rows.len()
            &&& records[0] == vars
            &&& forall|i: int|
                0 <= i < rows.len() ==> #[trigger] records[1 + i] == own_texts(vars, rows[i])
        }),
{
    let r = CsvReader::new();
    assert(fields_for(vars) =~= vars) by {
        assert forall|k: int| 0 <= k < vars.len() implies fields_for(vars)[k] == vars[k] by {
            if exists|i: int| 0 <= i < vars[k].len() && special(#[trigger] vars[k][i]) {
                let i = choose|i: int| 0 <= i < vars[k].len() && special(#[trigger] vars[k][i]);
                assert(!special(vars[k][i]));
            }
        }
    }
    reads_record(r, vars);
    let head = csv_header(vars);
    let body = rows_text(ResultFormat::Csv, false, vars, rows);
    let mid = r.reads(head);
    reads_rows(mid, vars, rows);
    reads_on(r, head, body);
    reveal_strlit("");
    assert(document(ResultFormat::Csv, vars, rows) =~= head + body);
    let records = csv_records(document(ResultFormat::Csv, vars, rows));
    assert(records =~= seq![vars] + row_records(vars, rows));
    assert forall|i: int| 0 <= i < rows.len() implies #[trigger] records[1 + i] == own_texts(
        vars,
        rows[i],
    ) by {
        assert(records[1 + i] == row_records(vars, rows)[i]);
    }
}

proof fn lone_row(format: ResultFormat, vars: Seq<Text>, row: Solution)
    ensures
        rows_text(format, false, vars, seq![row]) == row_text(format, true, vars, row),
{
    let one = seq![row];
    assert(one.drop_last() =~= Seq::empty());
    let before = rows_text(format, false, vars, one.drop_last());
    assert(before =~= Seq::empty());
    assert(one.last() == row);
    assert(before + row_text(format, true, vars, row) =~= row_text(format, true, vars, row));
}

/// Rows that differ in the text of a term give different lines, among
/// comma-separated values.
pub proof fn csv_lines_differ(vars: Seq<Text>, a: Solution, b: Solution, i: int)
    requires
        0 <= i < vars.len(),
        a.contains_key(vars[i]) && b.contains_key(vars[i]),
        own_text(a[vars[i]]) != own_text(b[vars[i]]),
    ensures
        csv_row(vars, a) != csv_row(vars, b),
{
    let r = CsvReader::new();
    let (x, y) = (seq![a], seq![b]);
    reads_rows(r, vars, x);
    reads_rows(r, vars, y);
    assert(x.drop_last() =~= Seq::empty() && y.drop_last() =~= Seq::empty());
    lone_row(ResultFormat::Csv, vars, a);
    lone_row(ResultFormat::Csv, vars, b);
    let (p, q) = (row_records(vars, x), row_records(vars, y));
    assert((r.records + p)[0] == own_texts(vars, a));
    assert((r.records + q)[0] == own_texts(vars, b));
    assert(own_texts(vars, a)[i] != own_texts(vars, b)[i]);
}

// ── Reading tab-separated values ────────────────────────────────────────────

/// A reader of tab-separated values.
#[verifier::ext_equal]
pub struct TsvReader {
    pub records: Seq<Seq<Text>>,
    pub fields: Seq<Text>,
    pub text: Text,
}

impl TsvReader {
    pub open spec fn new() -> TsvReader {
        TsvReader { records: Seq::empty(), fields: Seq::empty(), text: Seq::empty() }
    }

    /// The reader behind a character: a tab ends a field, a line feed a record.
    pub open spec fn read(self, c: char) -> TsvReader {
        if c == '\t' {
            TsvReader {
                records: self.records,
                fields: self.fields.push(self.text),
                text: Seq::empty(),
            }
        } else if c == '\n' {
            TsvReader {
                records: self.records.push(self.fields.push(self.text)),
                fields: Seq::empty(),
                text: Seq::empty(),
            }
        } else {
            TsvReader { records: self.records, fields: self.fields, text: self.text.push(c) }
        }
    }

    /// The reader behind a text.
    pub open spec fn reads(self, s: Text) -> TsvReader
        decreases s.len(),
    {
        if s.len() == 0 {
            self
        } else {
            self.reads(s.drop_last()).read(s.last())
        }
    }
}

/// The records of tab-separated values.
pub open spec fn tsv_records(s: Text) -> Seq<Seq<Text>> {
    TsvReader::new().reads(s).records
}

/// Does a text hold neither tabs nor line feeds?
pub open spec fn is_flat(s: Text) -> bool {
    forall|i: int| 0 <= i < s.len() ==> #[trigger] s[i] != '\t' && s[i] != '\n'
}

/// The term a field stands for: an IRI in angle brackets, a blank node behind
/// its mark, or a literal; an empty field stands for none.
pub open spec fn term_read(f: Text) -> Option<TermView> {
    if f.len() == 0 {
        None
    } else if f[0] == '<' {
        Some(TermView::Iri(f.subrange(1, f.len() - 1)))
    } else if f.len() > 1 && f[0] == '_' && f[1] == ':' {
        Some(TermView::BlankNode(f))
    } else {
        Some(TermView::Literal(f))
    }
}

/// Is a term written as terms of a store are: without tabs and line feeds, a
/// blank node with its mark and a literal in quotes?
pub open spec fn is_tidy(t: TermView) -> bool {
    match t {
        TermView::Iri(s) => is_flat(s),
        TermView::BlankNode(s) => is_flat(s) && s.len() > 1 && s[0] == '_' && s[1] == ':',
        TermView::Literal(s) => is_flat(s) && s.len() > 0 && s[0] == '"',
        _ => false,
    }
}

proof fn tab_reads_on(r: TsvReader, a: Text, b: Text)
    ensures
        r.reads(a + b) == r.reads(a).reads(b),
    decreases b.len(),
{
    if b.len() == 0 {
        assert(a + b =~= a);
    } else {
        tab_reads_on(r, a, b.drop_last());
        assert((a + b).drop_last() =~= a + b.drop_last());
        assert((a + b).last() == b.last());
    }
}

proof fn tab_reads_one(r: TsvReader, c: char)
    ensures
        r.reads(seq![c]) == r.read(c),
{
    assert(seq![c].drop_last() =~= Seq::<char>::empty());
    assert(r.reads(seq![c].drop_last()) == r);
}

proof fn tab_reads_flat(r: TsvReader, s: Text)
    requires
        is_flat(s),
    ensures
        r.reads(s) == (TsvReader { records: r.records, fields: r.fields, text: r.text + s }),
    decreases s.len(),
{
    if s.len() == 0 {
        assert(r.text + s =~= r.text);
    } else {
        let rest = s.drop_last();
        assert forall|i: int| 0 <= i < rest.len() implies #[trigger] rest[i] != '\t' && rest[i]
            != '\n' by {
            assert(rest[i] == s[i]);
        }
        tab_reads_flat(r, rest);
        assert(s[s.len() - 1] != '\t');
        assert((r.text + rest).push(s.last()) =~= r.text + s);
    }
}

proof fn tab_reads_fields(r: TsvReader, fs: Seq<Text>)
    requires
        r.text.len() == 0,
        fs.len() > 0,
        forall|i: int| 0 <= i < fs.len() ==> is_flat(#[trigger] fs[i]),
    ensures
        r.reads(separated(fs, "\t"@)) == (TsvReader {
            records: r.records,
            fields: r.fields + fs.drop_last(),
            text: fs.last(),
        }),
    decreases fs.len(),
{
    reveal_strlit("\t");
    assert("\t"@ =~= seq!['\t']);
    assert(is_flat(fs[fs.len() - 1]));
    if fs.len() == 1 {
        tab_reads_flat(r, fs[0]);
        assert(r.text + fs[0] =~= fs[0]);
        assert(r.fields + fs.drop_last() =~= r.fields);
    } else {
        let rest = fs.drop_last();
        assert forall|i: int| 0 <= i < rest.len() implies is_flat(#[trigger] rest[i]) by {
            assert(rest[i] == fs[i]);
        }
        tab_reads_fields(r, rest);
        let front = separated(rest, "\t"@);
        let mid = r.reads(front);
        tab_reads_one(mid, '\t');
        tab_reads_on(r, front, "\t"@);
        tab_reads_on(r, front + "\t"@, fs.last());
        let next = mid.read('\t');
        tab_reads_flat(next, fs.last());
        assert(next.text + fs.last() =~= fs.last());
        assert(next.fields =~= r.fields + rest) by {
            assert(rest =~= rest.drop_last().push(rest.last()));
        }
    }
}

proof fn tab_reads_record(r: TsvReader, fs: Seq<Text>)
    requires
        r.text.len() == 0,
        r.fields.len() == 0,
        fs.len() > 0,
        forall|i: int| 0 <= i < fs.len() ==> is_flat(#[trigger] fs[i]),
    ensures
        r.reads(separated(fs, "\t"@) + "\n"@) == (TsvReader {
            records: r.records.push(fs),
            fields: Seq::empty(),
            text: Seq::empty(),
        }),
{
    reveal_strlit("\n");
    assert("\n"@ =~= seq!['\n']);
    let line = separated(fs, "\t"@);
    tab_reads_fields(r, fs);
    tab_reads_on(r, line, "\n"@);
    tab_reads_one(r.reads(line), '\n');
    assert(r.fields + fs.drop_last() =~= fs.drop_last());
    assert(fs.drop_last().push(fs.last()) =~= fs);
}

/// Are the terms of all rows tidy?
pub open spec fn all_tidy(rows: Seq<Solution>) -> bool {
    forall|i: int, v: Text|
        0 <= i < rows.len() && #[trigger] rows[i].contains_key(v) ==> is_tidy(rows[i][v])
}

proof fn tidy_fields(vars: Seq<Text>, row: Solution)
    requires
        forall|v: Text| #[trigger] row.contains_key(v) ==> is_tidy(row[v]),
    ensures
        forall|i: int| 0 <= i < vars.len() ==> is_flat(#[trigger] tsv::cells(row, vars)[i]),
        forall|i: int|
            0 <= i < vars.len() ==> term_read(#[trigger] tsv::cells(row, vars)[i]) == (
            if row.contains_key(vars[i]) {
                Some(row[vars[i]])
            } else {
                None
            }),
{
    reveal_strlit("");
    reveal_strlit("<");
    reveal_strlit(">");
    reveal_strlit("_:");
    let fs = tsv::cells(row, vars);
    assert forall|i: int| 0 <= i < vars.len() implies is_flat(#[trigger] fs[i]) && term_read(fs[i])
        == (if row.contains_key(vars[i]) {
        Some(row[vars[i]])
    } else {
        None
    }) by {
        let f = fs[i];
        assert(f == tsv::cell(row, vars[i]));
        if row.contains_key(vars[i]) {
            let t = row[vars[i]];
            assert(is_tidy(t));
            match t {
                TermView::Iri(s) => {
                    assert(f =~= seq!['<'] + s + seq!['>']);
                    assert(f.subrange(1, f.len() - 1) =~= s);
                    assert forall|k: int| 0 <= k < f.len() implies #[trigger] f[k] != '\t' && f[k]
                        != '\n' by {
                        if 0 < k < f.len() - 1 {
                            assert(f[k] == s[k - 1]);
                        }
                    }
                },
                TermView::BlankNode(s) => {
                    assert(s.subrange(0, 2) =~= "_:"@);
                },
                _ => {},
            }
        }
    }
}

/// The fields of a row are those of its cells.
spec fn tab_records(vars: Seq<Text>, rows: Seq<Solution>) -> Seq<Seq<Text>> {
    Seq::new(rows.len(), |i: int| tsv::cells(rows[i], vars))
}

proof fn tab_reads_rows(r: TsvReader, vars: Seq<Text>, rows: Seq<Solution>)
    requires
        r.text.len() == 0,
        r.fields.len() == 0,
        vars.len() > 0,
        all_tidy(rows),
    ensures
        r.reads(rows_text(ResultFormat::Tsv, false, vars, rows)) == (TsvReader {
            records: r.records + tab_records(vars, rows),
            fields: Seq::empty(),
            text: Seq::empty(),
        }),
    decreases rows.len(),
{
    if rows.len() == 0 {
        assert(r.records + tab_records(vars, rows) =~= r.records);
        assert(r.fields =~= Seq::empty());
        assert(r.text =~= Seq::empty());
    } else {
        let rest = rows.drop_last();
        assert forall|i: int, v: Text|
            0 <= i < rest.len() && #[trigger] rest[i].contains_key(v) implies is_tidy(
            rest[i][v],
        ) by {
            assert(rest[i] == rows[i]);
            assert(rows[i].contains_key(v));
        }
        tab_reads_rows(r, vars, rest);
        let last = rows.last();
        assert forall|v: Text| #[trigger] last.contains_key(v) implies is_tidy(last[v]) by {
            assert(rows[rows.len() - 1].contains_key(v));
        }
        tidy_fields(vars, last);
        let before = rows_text(ResultFormat::Tsv, false, vars, rest);
        let mid = r.reads(before);
        tab_reads_record(mid, tsv::cells(last, vars));
        tab_reads_on(r, before, tsv::tsv_row(vars, last));
        assert(r.records + tab_records(vars, rows) =~= (r.records + tab_records(vars, rest)).push(
            tsv::cells(last, vars),
        ));
    }
}

/// A result in tab-separated values reads back: its records are the names of the
/// variables, each behind a question mark, and then row by row the terms.
pub proof fn tsv_reads_back(vars: Seq<Text>, rows: Seq<Solution>)
    requires
        vars.len() > 0,
        forall|k: int| 0 <= k < vars.len() ==> is_flat(#[trigger] vars[k]),
        all_tidy(rows),
    ensures
        ({
            let records = tsv_records(document(ResultFormat::Tsv, vars, rows));
            &&& records.len() == 1 + rows.len()
            &&& records[0].len() == vars.len()
            &&& forall|k: int|
                0 <= k < vars.len() ==> #[trigger] records[0][k] == seq!['?'] + vars[k]
            &&& forall|i: int, k: int|
                0 <= i < rows.len() && 0 <= k < vars.len() ==> records[1 + i].len() == vars.len()
                    && term_read(#[trigger] records[1 + i][k]) == (if rows[i].contains_key(
                    vars[k],
                ) {
                    Some(rows[i][vars[k]])
                } else {
                    None
                })
        }),
{
    reveal_strlit("?");
    reveal_strlit("");
    let r = TsvReader::new();
    let names = tsv::marked(vars);
    assert forall|k: int| 0 <= k < names.len() implies is_flat(#[trigger] names[k]) && names[k]
        == seq!['?'] + vars[k] by {
        assert(names[k] =~= seq!['?'] + vars[k]);
        assert(is_flat(vars[k]));
        assert forall|i: int| 0 <= i < names[k].len() implies #[trigger] names[k][i] != '\t'
            && names[k][i] != '\n' by {
            if i > 0 {
                assert(names[k][i] == vars[k][i - 1]);
            }
        }
    }
    tab_reads_record(r, names);
    let head = tsv::tsv_header(vars);
    let body = rows_text(ResultFormat::Tsv, false, vars, rows);
    tab_reads_rows(r.reads(head), vars, rows);
    tab_reads_on(r, head, body);
    assert(document(ResultFormat::Tsv, vars, rows) =~= head + body);
    let records = tsv_records(document(ResultFormat::Tsv, vars, rows));
    assert(records =~= seq![names] + tab_records(vars, rows));
    assert forall|i: int, k: int| 0 <= i < rows.len() && 0 <= k < vars.len() implies records[1
        + i].len() == vars.len() && term_read(#[trigger] records[1 + i][k]) == (
    if rows[i].contains_key(vars[k]) {
        Some(rows[i][vars[k]])
    } else {
        None
    }) by {
        assert(records[1 + i] == tab_records(vars, rows)[i]);
        assert forall|v: Text| #[trigger] rows[i].contains_key(v) implies is_tidy(rows[i][v]) by {}
        tidy_fields(vars, rows[i]);
        assert(records[1 + i][k] == tsv::cells(rows[i], vars)[k]);
    }
}

// ── Reading XML ─────────────────────────────────────────────────────────────

/// A text with its references to characters resolved.
pub open spec fn xml_read(s: Text) -> Text
    decreases s.len(),
{
    if s.len() == 0 {
        Seq::empty()
    } else if starts(s, seq!['&', 'a', 'm', 'p', ';']) {
        seq!['&'] + xml_read(s.skip(5))
    } else if starts(s, seq!['&', 'l', 't', ';']) {
        seq!['<'] + xml_read(s.skip(4))
    } else if starts(s, seq!['&', 'g', 't', ';']) {
        seq!['>'] + xml_read(s.skip(4))
    } else if starts(s, seq!['&', 'q', 'u', 'o', 't', ';']) {
        seq!['"'] + xml_read(s.skip(6))
    } else {
        seq![s[0]] + xml_read(s.drop_first())
    }
}

proof fn escaped_from_the_front(s: Text, attribute: bool)
    requires
        s.len() > 0,
    ensures
        xml_escaped(s, attribute) == xml_char(s[0], attribute) + xml_escaped(
            s.drop_first(),
            attribute,
        ),
    decreases s.len(),
{
    let rest = s.drop_last();
    if rest.len() == 0 {
        assert(s.drop_first() =~= Seq::empty());
        assert(rest =~= Seq::empty());
        assert(xml_escaped(rest, attribute) =~= Seq::empty());
        assert(s.last() == s[0]);
        assert(xml_escaped(s, attribute) == xml_escaped(rest, attribute) + xml_char(
            s[0],
            attribute,
        ));
        assert(xml_escaped(s, attribute) =~= xml_char(s[0], attribute));
        assert(xml_char(s[0], attribute) + xml_escaped(s.drop_first(), attribute) =~= xml_char(
            s[0],
            attribute,
        ));
    } else {
        escaped_from_the_front(rest, attribute);
        assert(rest.drop_first() =~= s.drop_first().drop_last());
        assert(s.drop_first().last() == s.last());
        assert(xml_escaped(s, attribute) =~= xml_char(s[0], attribute) + xml_escaped(
            s.drop_first(),
            attribute,
        ));
    }
}

/// Text and attributes read back as they were.
pub proof fn xml_text_reads_back(s: Text, attribute: bool)
    ensures
        xml_read(xml_escaped(s, attribute)) == s,
    decreases s.len(),
{
    let e = xml_escaped(s, attribute);
    if s.len() > 0 {
        let rest = s.drop_first();
        xml_text_reads_back(rest, attribute);
        escaped_from_the_front(s, attribute);
        reveal_strlit("&amp;");
        reveal_strlit("&lt;");
        reveal_strlit("&gt;");
        reveal_strlit("&quot;");
        let x = xml_char(s[0], attribute);
        let more = xml_escaped(rest, attribute);
        let (a, l, g, q) = (
            seq!['&', 'a', 'm', 'p', ';'],
            seq!['&', 'l', 't', ';'],
            seq!['&', 'g', 't', ';'],
            seq!['&', 'q', 'u', 'o', 't', ';'],
        );
        assert(s =~= seq![s[0]] + rest);
        if starts(e, a) {
            assert(e.subrange(0, 5)[0] == a[0] && e.subrange(0, 5)[1] == a[1]);
        }
        if starts(e, l) {
            assert(e.subrange(0, 4)[0] == l[0] && e.subrange(0, 4)[1] == l[1]);
        }
        if starts(e, g) {
            assert(e.subrange(0, 4)[0] == g[0] && e.subrange(0, 4)[1] == g[1]);
        }
        if starts(e, q) {
            assert(e.subrange(0, 6)[0] == q[0] && e.subrange(0, 6)[1] == q[1]);
        }
        assert(e[0] == x[0]);
        if s[0] == '&' {
            assert(x =~= a);
            assert(e.subrange(0, 5) =~= a);
            assert(e.skip(5) =~= more);
        } else if s[0] == '<' {
            assert(x =~= l);
            assert(e.subrange(0, 4) =~= l);
            assert(e[1] == 'l');
            assert(e.skip(4) =~= more);
        } else if s[0] == '>' {
            assert(x =~= g);
            assert(e.subrange(0, 4) =~= g);
            assert(e[1] == 'g');
            assert(e.skip(4) =~= more);
        } else if s[0] == '"' && attribute {
            assert(x =~= q);
            assert(e.subrange(0, 6) =~= q);
            assert(e[1] == 'q');
            assert(e.skip(6) =~= more);
        } else {
            assert(x =~= seq![s[0]]);
            assert(e.drop_first() =~= more);
        }
    } else {
        assert(xml_read(e) =~= s);
    }
}

/// Is a text an element, from its opening to its closing, that reads as this?
pub open spec fn encloses(element: Text, open: Text, close: Text, content: Text) -> bool {
    exists|inner: Text| #[trigger] xml_read(inner) == content && element == open + inner + close
}

/// A term is an element of its kind, which reads as its text: an IRI as it is, a
/// blank node without its mark, a literal as its value, with its language or its
/// datatype where it has one.
pub proof fn xml_terms_read_back(s: Text, lang: Text, datatype: Text)
    requires
        lang.len() > 0 ==> !white(lang.last()),
        datatype.len() > 0 && datatype[0] != '<' && datatype.last() != '>',
    ensures
        encloses(term_xml(TermView::Iri(s)), "<uri>"@, "</uri>"@, s),
        encloses(term_xml(TermView::BlankNode(s)), "<bnode>"@, "</bnode>"@, bare_label(s)),
        encloses(term_xml(plain_view(s)), "<literal>"@, "</literal>"@, escaped(s)),
        exists|tag: Text| #[trigger]
            xml_read(tag) == lang && encloses(
                term_xml(lang_view(s, lang)),
                "<literal xml:lang=\""@ + tag + "\">"@,
                "</literal>"@,
                escaped(s),
            ),
        is_simple(s) ==> exists|dt: Text| #[trigger]
            xml_read(dt) == datatype && encloses(
                term_xml(
                    TermView::Literal(
                        seq!['"'] + s + seq!['"', '^', '^', '<'] + datatype + seq!['>'],
                    ),
                ),
                "<literal datatype=\""@ + dt + "\">"@,
                "</literal>"@,
                s,
            ),
{
    xml_text_reads_back(s, false);
    xml_text_reads_back(bare_label(s), false);
    xml_text_reads_back(escaped(s), false);
    xml_text_reads_back(lang, true);
    xml_text_reads_back(datatype, true);
    plain_literal_round_trips(s);
    lang_literal_round_trips(s, lang);
    let inner = xml_escaped(escaped(s), false);
    let tag = xml_escaped(lang, true);
    let open = "<literal xml:lang=\""@ + tag + "\">"@;
    assert(term_xml(lang_view(s, lang)) == open + inner + "</literal>"@);
    assert(encloses(term_xml(lang_view(s, lang)), open, "</literal>"@, escaped(s)));
    if is_simple(s) {
        typed_comes_apart(s, datatype);
        let dt = xml_escaped(datatype, true);
        let t = TermView::Literal(seq!['"'] + s + seq!['"', '^', '^', '<'] + datatype + seq!['>']);
        let head = "<literal datatype=\""@ + dt + "\">"@;
        assert(term_xml(t) == head + xml_escaped(s, false) + "</literal>"@);
        assert(encloses(term_xml(t), head, "</literal>"@, s));
    }
}

/// A row in XML holds an element for each variable that is bound, in their
/// order: its name reads back and its term is inside. A variable that is not
/// bound has none.
pub proof fn xml_rows_hold_their_bindings(a: Seq<Text>, b: Seq<Text>, v: Text, row: Solution)
    ensures
        bindings_xml(a + b, row) == bindings_xml(a, row) + bindings_xml(b, row),
        !row.contains_key(v) ==> bindings_xml(seq![v], row).len() == 0,
        row.contains_key(v) ==> exists|name: Text| #[trigger]
            xml_read(name) == v && bindings_xml(seq![v], row) == "      <binding name=\""@ + name
                + "\">"@ + term_xml(row[v]) + "</binding>\n"@,
    decreases b.len(),
{
    let one = seq![v];
    assert(one.drop_last() =~= Seq::empty());
    assert(one.last() == v);
    let none = bindings_xml(one.drop_last(), row);
    assert(none =~= Seq::empty());
    xml_text_reads_back(v, true);
    let name = xml_escaped(v, true);
    if row.contains_key(v) {
        assert(bindings_xml(one, row) =~= "      <binding name=\""@ + name + "\">"@ + term_xml(
            row[v],
        ) + "</binding>\n"@);
        assert(xml_read(name) == v);
    }
    if b.len() == 0 {
        assert(a + b =~= a);
        assert(bindings_xml(a, row) + bindings_xml(b, row) =~= bindings_xml(a, row));
    } else {
        xml_rows_hold_their_bindings(a, b.drop_last(), v, row);
        assert((a + b).drop_last() =~= a + b.drop_last());
        assert((a + b).last() == b.last());
        assert(bindings_xml(a + b, row) =~= bindings_xml(a, row) + bindings_xml(b, row));
    }
}

// ── JSON ────────────────────────────────────────────────────────────────────

/// Does an object have a member?
pub open spec fn has_member(members: Seq<(Text, Text)>, name: Text, value: Text) -> bool {
    exists|i: int| 0 <= i < members.len() && #[trigger] members[i] == (name, value)
}

/// A term in JSON says its kind and its text: an IRI as it is, a blank node
/// without its mark, a literal as its value with its language or datatype.
pub proof fn json_terms_say_what_they_are(s: Text, lang: Text, datatype: Text)
    requires
        lang.len() > 0 ==> !white(lang.last()),
        datatype.len() > 0 && datatype[0] != '<' && datatype.last() != '>',
    ensures
        ({
            let (i, b, p, l, d) = (
                term_json(TermView::Iri(s)),
                term_json(TermView::BlankNode(s)),
                term_json(plain_view(s)),
                term_json(lang_view(s, lang)),
                term_json(
                    TermView::Literal(
                        seq!['"'] + s + seq!['"', '^', '^', '<'] + datatype + seq!['>'],
                    ),
                ),
            );
            &&& i.len() == 2 && has_member(i, "type"@, "uri"@) && has_member(i, "value"@, s)
            &&& b.len() == 2 && has_member(b, "type"@, "bnode"@) && has_member(
                b,
                "value"@,
                bare_label(s),
            )
            &&& p.len() == 2 && has_member(p, "type"@, "literal"@) && has_member(
                p,
                "value"@,
                escaped(s),
            )
            &&& l.len() == 3 && has_member(l, "type"@, "literal"@) && has_member(
                l,
                "value"@,
                escaped(s),
            ) && has_member(l, "xml:lang"@, lang)
            &&& is_simple(s) ==> d.len() == 3 && has_member(d, "type"@, "literal"@) && has_member(
                d,
                "value"@,
                s,
            ) && has_member(d, "datatype"@, datatype)
        }),
{
    plain_literal_round_trips(s);
    lang_literal_round_trips(s, lang);
    let (i, b, p, l) = (
        term_json(TermView::Iri(s)),
        term_json(TermView::BlankNode(s)),
        term_json(plain_view(s)),
        term_json(lang_view(s, lang)),
    );
    assert(i[0] == ("type"@, "uri"@) && i[1] == ("value"@, s));
    assert(b[0] == ("type"@, "bnode"@) && b[1] == ("value"@, bare_label(s)));
    assert(p[0] == ("type"@, "literal"@) && p[1] == ("value"@, escaped(s)));
    assert(l[0] == ("type"@, "literal"@) && l[1] == ("value"@, escaped(s)) && l[2] == (
        "xml:lang"@,
        lang,
    ));
    if is_simple(s) {
        typed_comes_apart(s, datatype);
        let t = TermView::Literal(seq!['"'] + s + seq!['"', '^', '^', '<'] + datatype + seq!['>']);
        let d = term_json(t);
        assert(d[0] == ("type"@, "literal"@) && d[1] == ("value"@, s) && d[2] == (
            "datatype"@,
            datatype,
        ));
    }
}

/// A row in JSON has a member for each variable that is bound, in their order,
/// and none for another.
pub proof fn json_rows_hold_their_bindings(a: Seq<Text>, b: Seq<Text>, v: Text, row: Solution)
    ensures
        row_members(a + b, row) == row_members(a, row) + row_members(b, row),
        row.contains_key(v) ==> row_members(seq![v], row) == seq![(v, term_json(row[v]))],
        !row.contains_key(v) ==> row_members(seq![v], row).len() == 0,
    decreases b.len(),
{
    let one = seq![v];
    assert(one.drop_last() =~= Seq::empty());
    assert(row_members(one.drop_last(), row) =~= Seq::empty());
    assert(one.last() == v);
    if row.contains_key(v) {
        assert(row_members(one, row) =~= seq![(v, term_json(row[v]))]);
    }
    if b.len() == 0 {
        assert(a + b =~= a);
        assert(row_members(a, row) + row_members(b, row) =~= row_members(a, row));
    } else {
        json_rows_hold_their_bindings(a, b.drop_last(), v, row);
        assert((a + b).drop_last() =~= a + b.drop_last());
        assert((a + b).last() == b.last());
        assert(row_members(a + b, row) =~= row_members(a, row) + row_members(b, row));
    }
}

/// The objects of rows.
pub open spec fn row_objects(vars: Seq<Text>, rows: Seq<Solution>) -> Seq<Text> {
    Seq::new(rows.len(), |i: int| json_object(row_members(vars, rows[i])))
}

proof fn json_rows_are_separated(vars: Seq<Text>, rows: Seq<Solution>)
    ensures
        rows_text(ResultFormat::Json, false, vars, rows) == separated(
            row_objects(vars, rows),
            ","@,
        ),
    decreases rows.len(),
{
    let objects = row_objects(vars, rows);
    reveal_strlit("");
    if rows.len() > 0 {
        let rest = rows.drop_last();
        json_rows_are_separated(vars, rest);
        assert(objects.drop_last() =~= row_objects(vars, rest));
        let last = json_object(row_members(vars, rows.last()));
        assert(objects.last() == last);
        let before = rows_text(ResultFormat::Json, false, vars, rest);
        if rows.len() == 1 {
            assert(before =~= Seq::empty());
            assert(objects[0] == last);
            assert(before + (""@ + last) =~= last);
        } else {
            assert(before + (","@ + last) =~= before + ","@ + last);
        }
    }
}

/// A result in JSON is the array of the names of the variables in a head, and
/// the array of the objects of the rows, separated by commas.
pub proof fn json_is_head_and_bindings(vars: Seq<Text>, rows: Seq<Solution>)
    ensures
        document(ResultFormat::Json, vars, rows) == "{\"head\":{\"vars\":"@ + json_strings(vars)
            + "},\"results\":{\"bindings\":["@ + separated(row_objects(vars, rows), ","@)
            + "]}}"@,
{
    json_rows_are_separated(vars, rows);
}

/// A result in XML is a head with an element for each variable, whose name reads
/// back, and an element for each row with its bindings.
pub proof fn xml_is_head_and_results(
    vars: Seq<Text>,
    rows: Seq<Solution>,
    row: Solution,
    v: Text,
)
    ensures
        document(ResultFormat::Xml, vars, rows + seq![row]) == header_text(ResultFormat::Xml, vars)
            + rows_text(ResultFormat::Xml, false, vars, rows) + "    <result>\n"@ + bindings_xml(
            vars,
            row,
        ) + "    </result>\n"@ + "  </results>\n</sparql>\n"@,
        exists|name: Text| #[trigger]
            xml_read(name) == v && variables_xml(vars.push(v)) == variables_xml(vars)
                + "    <variable name=\""@ + name + "\"/>\n"@,
        header_text(ResultFormat::Xml, vars) == "<?xml version=\"1.0\"?>"@
            + "\n<sparql xmlns=\"http://www.w3.org/2005/sparql-results#\">\n"@ + "  <head>\n"@
            + variables_xml(vars) + "  </head>\n"@ + "  <results>\n"@,
{
    let all = rows + seq![row];
    assert(all.drop_last() =~= rows);
    assert(all.last() == row);
    let before = header_text(ResultFormat::Xml, vars) + rows_text(
        ResultFormat::Xml,
        false,
        vars,
        rows,
    );
    let end = "  </results>\n</sparql>\n"@;
    assert(document(ResultFormat::Xml, vars, all) =~= before + "    <result>\n"@ + bindings_xml(
        vars,
        row,
    ) + "    </result>\n"@ + end);
    xml_text_reads_back(v, true);
    let name = xml_escaped(v, true);
    assert(vars.push(v).drop_last() =~= vars);
    assert(variables_xml(vars.push(v)) =~= variables_xml(vars) + "    <variable name=\""@ + name
        + "\"/>\n"@);
    assert(xml_read(name) == v);
}

/// A blank node has its mark in tab-separated values, once, and not in JSON and
/// XML.
pub proof fn blank_nodes_are_marked_where_it_tells(s: Text)
    requires
        !starts(s, "_:"@),
    ensures
        tsv::term_field(TermView::BlankNode(s)) == seq!['_', ':'] + s,
        tsv::term_field(TermView::BlankNode(seq!['_', ':'] + s)) == seq!['_', ':'] + s,
        bare_label(s) == s,
        bare_label(seq!['_', ':'] + s) == s,
{
    reveal_strlit("_:");
    let m = seq!['_', ':'] + s;
    assert("_:"@ =~= seq!['_', ':']);
    assert(m.subrange(0, 2) =~= "_:"@);
    assert(m.skip(2) =~= s);
}

}
