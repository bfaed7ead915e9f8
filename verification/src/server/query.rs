//! Answering queries: what is sent of a result, and when an error still can be
//! a status.

use crate::algebra::texts;
use crate::error::{ErrorView, SparqlError};
use crate::exec::bindings::{bindings_view, Bindings};
use crate::exec::construct::{triple_view, triples_view, TextTriple};
use crate::results::csv::write_select_csv;
use crate::results::json::{write_ask_json, write_select_json};
use crate::results::tsv::write_select_tsv;
use crate::results::xml::{ask_xml, write_ask_xml, write_select_xml};
use crate::results::{
    chunks_join, document, footer_text, header_text, rows_text, select_serializer, AnySerializer,
    ResultFormat, SelectSerializer, Solution,
};
use crate::text::Text;
use vstd::prelude::*;
use vstd::string::*;

verus! {

// ── Errors ──────────────────────────────────────────────────────────────────

/// The status of an error, before anything is sent. Running out of time is the
/// server's doing, anything else the request's.
pub open spec fn status_of(e: ErrorView) -> u16 {
    if e is QueryTimeout {
        504
    } else {
        400
    }
}

pub fn error_status(e: &SparqlError) -> (r: u16)
    ensures
        r == status_of(e@),
{
    match e {
        SparqlError::QueryTimeout => 504,
        _ => 400,
    }
}

/// An error of a query that may have been cancelled: the deadline is then the
/// reason, whatever the executor reported.
pub open spec fn classified(e: ErrorView, cancelled: bool) -> ErrorView {
    if cancelled {
        ErrorView::QueryTimeout
    } else {
        e
    }
}

pub fn classify(e: SparqlError, cancelled: bool) -> (r: SparqlError)
    ensures
        r@ == classified(e@, cancelled),
{
    if cancelled {
        SparqlError::QueryTimeout
    } else {
        e
    }
}

// ── Streams ─────────────────────────────────────────────────────────────────

/// How much of a result was read.
#[derive(Debug, Clone, Copy, PartialEq, Eq, Structural)]
pub enum Phase {
    /// Nothing.
    First,
    /// One chunk, and nothing is sent.
    Second,
    /// More, and the answer is under way.
    Later,
    /// The answer is over.
    Done,
}

/// What the executor comes up with next.
pub enum StreamEvent {
    Rows(Vec<Bindings>),
    End,
    Failed(SparqlError),
}

#[allow(inconsistent_fields)]
#[verifier::ext_equal]
pub enum EventView {
    Rows(Seq<Solution>),
    End,
    Failed(ErrorView),
}

/// What to do about it.
pub enum StreamAction {
    /// Read on; nothing is sent yet.
    Next,
    /// Answer with the error's status.
    Refuse(SparqlError),
    /// Answer with a whole document.
    Whole(String),
    /// Start the answer with these two pieces, and read on.
    Commit { head: String, chunk: String },
    /// Start the answer, then break it off.
    CommitAbort { head: String, error: SparqlError },
    /// Send a piece, and read on.
    Send(String),
    /// Send the last piece.
    Close(String),
    /// Break the answer off.
    Abort(SparqlError),
    /// The answer is over.
    Idle,
}

#[allow(inconsistent_fields)]
#[verifier::ext_equal]
pub enum ActionView {
    Next,
    Refuse(ErrorView),
    Whole(Text),
    Commit { head: Text, chunk: Text },
    CommitAbort { head: Text, error: ErrorView },
    Send(Text),
    Close(Text),
    Abort(ErrorView),
    Idle,
}

impl StreamEvent {
    pub open spec fn view(&self) -> EventView {
        match *self {
            StreamEvent::Rows(rows) => EventView::Rows(bindings_view(rows@)),
            StreamEvent::End => EventView::End,
            StreamEvent::Failed(e) => EventView::Failed(e@),
        }
    }
}

impl StreamAction {
    pub open spec fn view(&self) -> ActionView {
        match *self {
            StreamAction::Next => ActionView::Next,
            StreamAction::Refuse(e) => ActionView::Refuse(e@),
            StreamAction::Whole(s) => ActionView::Whole(s@),
            StreamAction::Commit { head, chunk } => ActionView::Commit { head: head@, chunk: chunk@ },
            StreamAction::CommitAbort { head, error } => ActionView::CommitAbort {
                head: head@,
                error: error@,
            },
            StreamAction::Send(s) => ActionView::Send(s@),
            StreamAction::Close(s) => ActionView::Close(s@),
            StreamAction::Abort(e) => ActionView::Abort(e@),
            StreamAction::Idle => ActionView::Idle,
        }
    }
}

/// A `SELECT` result on its way to the client. The first chunk is read before
/// anything is sent, and the second one too: a result of one chunk is sent
/// whole, and an error of the first is a status. A limit on the rows never
/// shortens a result; it fails it.
pub struct SelectStream {
    serializer: AnySerializer,
    vars: Vec<String>,
    max_rows: u64,
    emitted: u64,
    phase: Phase,
    head: String,
}

#[allow(inconsistent_fields)]
#[verifier::ext_equal]
pub struct StreamView {
    pub format: ResultFormat,
    pub vars: Seq<Text>,
    pub max_rows: u64,
    pub emitted: nat,
    /// Was a row written?
    pub started: bool,
    pub phase: Phase,
    /// What is written and not sent.
    pub head: Text,
}

/// A result of which nothing is read.
pub open spec fn fresh(format: ResultFormat, vars: Seq<Text>, max_rows: u64) -> StreamView {
    StreamView {
        format,
        vars,
        max_rows,
        emitted: 0,
        started: false,
        phase: Phase::First,
        head: Seq::empty(),
    }
}

/// The stream once the answer is over.
pub open spec fn over(s: StreamView) -> StreamView {
    StreamView { phase: Phase::Done, head: Seq::empty(), ..s }
}

/// The text of the next rows.
pub open spec fn chunk_text(s: StreamView, rows: Seq<Solution>) -> Text {
    rows_text(s.format, s.started, s.vars, rows)
}

/// The stream after more rows.
pub open spec fn grown(s: StreamView, rows: Seq<Solution>, phase: Phase, head: Text) -> StreamView {
    StreamView {
        emitted: s.emitted + rows.len(),
        started: s.started || rows.len() > 0,
        phase,
        head,
        ..s
    }
}

/// Are these rows too many?
pub open spec fn too_many(s: StreamView, rows: Seq<Solution>) -> bool {
    s.emitted + rows.len() > s.max_rows
}

/// What comes of an event.
pub open spec fn stepped(s: StreamView, e: EventView, cancelled: bool) -> (StreamView, ActionView) {
    match s.phase {
        Phase::First => match e {
            EventView::Failed(x) => (over(s), ActionView::Refuse(classified(x, cancelled))),
            EventView::End => (
                over(s),
                ActionView::Whole(header_text(s.format, s.vars) + footer_text(s.format)),
            ),
            EventView::Rows(rows) => if too_many(s, rows) {
                (over(s), ActionView::Refuse(ErrorView::ResultRowLimit(s.max_rows)))
            } else {
                (
                    grown(
                        s,
                        rows,
                        Phase::Second,
                        header_text(s.format, s.vars) + chunk_text(s, rows),
                    ),
                    ActionView::Next,
                )
            },
        },
        Phase::Second => match e {
            EventView::Failed(x) => (
                over(s),
                ActionView::CommitAbort { head: s.head, error: classified(x, cancelled) },
            ),
            EventView::End => (over(s), ActionView::Whole(s.head + footer_text(s.format))),
            EventView::Rows(rows) => if too_many(s, rows) {
                (over(s), ActionView::Refuse(ErrorView::ResultRowLimit(s.max_rows)))
            } else {
                (
                    grown(s, rows, Phase::Later, Seq::empty()),
                    ActionView::Commit { head: s.head, chunk: chunk_text(s, rows) },
                )
            },
        },
        Phase::Later => match e {
            EventView::Failed(x) => (over(s), ActionView::Abort(classified(x, cancelled))),
            EventView::End => (over(s), ActionView::Close(footer_text(s.format))),
            EventView::Rows(rows) => if too_many(s, rows) {
                (over(s), ActionView::Abort(ErrorView::ResultRowLimit(s.max_rows)))
            } else {
                (
                    grown(s, rows, Phase::Later, Seq::empty()),
                    ActionView::Send(chunk_text(s, rows)),
                )
            },
        },
        Phase::Done => (s, ActionView::Idle),
    }
}

impl SelectStream {
    pub closed spec fn view(&self) -> StreamView {
        StreamView {
            format: self.serializer.format(),
            vars: texts(self.vars@),
            max_rows: self.max_rows,
            emitted: self.emitted as nat,
            started: self.serializer.started(),
            phase: self.phase,
            head: self.head@,
        }
    }

    pub fn new(format: ResultFormat, vars: Vec<String>, max_rows: u64) -> (r: SelectStream)
        ensures
            r@ == fresh(format, texts(vars@), max_rows),
    {
        let r = SelectStream {
            serializer: select_serializer(format),
            vars,
            max_rows,
            emitted: 0,
            phase: Phase::First,
            head: String::new(),
        };
        assert(r@ =~= fresh(format, texts(vars@), max_rows));
        r
    }

    /// Is the answer over?
    pub fn done(&self) -> (r: bool)
        ensures
            r == (self@.phase == Phase::Done),
    {
        self.phase == Phase::Done
    }

    /// Breaks the answer off where the deadline passed while it was under way.
    /// To be asked before each further chunk.
    pub fn interrupt(&mut self, cancelled: bool) -> (r: Option<SparqlError>)
        ensures
            cancelled && old(self)@.phase == Phase::Later ==> r is Some && r->0@
                == ErrorView::QueryTimeout && final(self)@ == over(old(self)@),
            !(cancelled && old(self)@.phase == Phase::Later) ==> r is None && final(self)@ == old(
                self,
            )@,
    {
        if cancelled && self.phase == Phase::Later {
            self.finish();
            Some(SparqlError::QueryTimeout)
        } else {
            None
        }
    }

    fn finish(&mut self)
        ensures
            final(self)@ == over(old(self)@),
    {
        let ghost before = self@;
        self.phase = Phase::Done;
        self.head = String::new();
        assert(self@ =~= over(before));
    }

    /// Are these rows too many?
    fn exceeds(&self, rows: &Vec<Bindings>) -> (r: bool)
        ensures
            r == too_many(self@, bindings_view(rows@)),
    {
        let n: usize = rows.len();
        match self.emitted.checked_add(n as u64) {
            Some(total) => total > self.max_rows,
            None => true,
        }
    }

    /// Writes rows.
    fn write(&mut self, rows: &Vec<Bindings>, phase: Phase) -> (r: String)
        requires
            !too_many(old(self)@, bindings_view(rows@)),
        ensures
            r@ == chunk_text(old(self)@, bindings_view(rows@)),
            final(self)@ == grown(old(self)@, bindings_view(rows@), phase, old(self)@.head),
    {
        let ghost before = self@;
        let n: usize = rows.len();
        self.emitted = self.emitted + n as u64;
        self.phase = phase;
        let r = self.serializer.chunk(&self.vars, rows);
        assert(self@ =~= grown(before, bindings_view(rows@), phase, before.head));
        r
    }

    /// Takes in what the executor came up with.
    pub fn step(&mut self, e: StreamEvent, cancelled: bool) -> (r: StreamAction)
        ensures
            (final(self)@, r@) == stepped(old(self)@, e@, cancelled),
    {
        let ghost before = self@;
        match self.phase {
            Phase::First => match e {
                StreamEvent::Failed(x) => {
                    self.finish();
                    StreamAction::Refuse(classify(x, cancelled))
                },
                StreamEvent::End => {
                    let mut text = self.serializer.header(&self.vars);
                    text.append(self.serializer.footer().as_str());
                    self.finish();
                    assert(self@ =~= over(before));
                    StreamAction::Whole(text)
                },
                StreamEvent::Rows(rows) => if self.exceeds(&rows) {
                    self.finish();
                    StreamAction::Refuse(SparqlError::ResultRowLimit(self.max_rows))
                } else {
                    let mut head = self.serializer.header(&self.vars);
                    assert(self@ =~= before);
                    let chunk = self.write(&rows, Phase::Second);
                    head.append(chunk.as_str());
                    self.head = head;
                    assert(self@ =~= stepped(before, e@, cancelled).0);
                    StreamAction::Next
                },
            },
            Phase::Second => match e {
                StreamEvent::Failed(x) => {
                    let head = self.head.clone();
                    self.finish();
                    StreamAction::CommitAbort { head, error: classify(x, cancelled) }
                },
                StreamEvent::End => {
                    let mut text = self.head.clone();
                    text.append(self.serializer.footer().as_str());
                    self.finish();
                    assert(self@ =~= over(before));
                    StreamAction::Whole(text)
                },
                StreamEvent::Rows(rows) => if self.exceeds(&rows) {
                    self.finish();
                    StreamAction::Refuse(SparqlError::ResultRowLimit(self.max_rows))
                } else {
                    let head = self.head.clone();
                    let chunk = self.write(&rows, Phase::Later);
                    self.head = String::new();
                    assert(self@ =~= stepped(before, e@, cancelled).0);
                    StreamAction::Commit { head, chunk }
                },
            },
            Phase::Later => match e {
                StreamEvent::Failed(x) => {
                    self.finish();
                    StreamAction::Abort(classify(x, cancelled))
                },
                StreamEvent::End => {
                    let text = self.serializer.footer();
                    self.finish();
                    assert(self@ =~= over(before));
                    StreamAction::Close(text)
                },
                StreamEvent::Rows(rows) => if self.exceeds(&rows) {
                    self.finish();
                    StreamAction::Abort(SparqlError::ResultRowLimit(self.max_rows))
                } else {
                    let chunk = self.write(&rows, Phase::Later);
                    self.head = String::new();
                    assert(self@ =~= stepped(before, e@, cancelled).0);
                    StreamAction::Send(chunk)
                },
            },
            Phase::Done => StreamAction::Idle,
        }
    }
}

/// What an action sends.
pub open spec fn sent(a: ActionView) -> Text {
    match a {
        ActionView::Whole(s) => s,
        ActionView::Commit { head, chunk } => head + chunk,
        ActionView::CommitAbort { head, error: _ } => head,
        ActionView::Send(s) => s,
        ActionView::Close(s) => s,
        _ => Seq::empty(),
    }
}

/// What is sent of a result that comes in chunks.
pub open spec fn played(s: StreamView, chunks: Seq<Seq<Solution>>) -> Text
    decreases chunks.len(),
{
    if chunks.len() == 0 {
        sent(stepped(s, EventView::End, false).1)
    } else {
        let (next, action) = stepped(s, EventView::Rows(chunks[0]), false);
        sent(action) + played(next, chunks.skip(1))
    }
}

/// Does an action end the answer well?
pub open spec fn completes(a: ActionView) -> bool {
    a is Whole || a is Close
}

/// Does the answer end well?
pub open spec fn ends_well(s: StreamView, chunks: Seq<Seq<Solution>>) -> bool
    decreases chunks.len(),
{
    if chunks.len() == 0 {
        completes(stepped(s, EventView::End, false).1)
    } else {
        let (next, action) = stepped(s, EventView::Rows(chunks[0]), false);
        completes(action) || ends_well(next, chunks.skip(1))
    }
}

/// The rows of chunks.
pub open spec fn flat(chunks: Seq<Seq<Solution>>) -> Seq<Solution>
    decreases chunks.len(),
{
    if chunks.len() == 0 {
        Seq::empty()
    } else {
        chunks[0] + flat(chunks.skip(1))
    }
}

/// What is sent from here on: what is kept back, the rows and the footer.
proof fn played_from(s: StreamView, chunks: Seq<Seq<Solution>>)
    requires
        s.emitted + flat(chunks).len() <= s.max_rows,
        s.phase == Phase::Second || (s.phase == Phase::Later && s.head.len() == 0),
    ensures
        played(s, chunks) == s.head + rows_text(s.format, s.started, s.vars, flat(chunks))
            + footer_text(s.format),
        ends_well(s, chunks),
    decreases chunks.len(),
{
    let footer = footer_text(s.format);
    if chunks.len() == 0 {
        assert(s.head + rows_text(s.format, s.started, s.vars, flat(chunks)) =~= s.head);
        if s.phase == Phase::Later {
            assert(s.head + footer =~= footer);
        }
    } else {
        let rows = chunks[0];
        let rest = chunks.skip(1);
        assert(flat(chunks).len() == rows.len() + flat(rest).len());
        let (next, action) = stepped(s, EventView::Rows(rows), false);
        played_from(next, rest);
        chunks_join(s.format, s.started, s.vars, rows, flat(rest));
        assert(sent(action) =~= s.head + chunk_text(s, rows));
        assert(next.head + rows_text(s.format, next.started, s.vars, flat(rest)) =~= rows_text(
            s.format,
            next.started,
            s.vars,
            flat(rest),
        ));
        assert(played(s, chunks) =~= s.head + rows_text(s.format, s.started, s.vars, flat(chunks))
            + footer);
    }
}

/// A result within the limit is sent as one document of all its rows, however
/// it was cut into chunks.
pub proof fn a_result_is_sent_whole(
    format: ResultFormat,
    vars: Seq<Text>,
    max_rows: u64,
    chunks: Seq<Seq<Solution>>,
)
    requires
        flat(chunks).len() <= max_rows,
    ensures
        played(fresh(format, vars, max_rows), chunks) == document(format, vars, flat(chunks)),
        ends_well(fresh(format, vars, max_rows), chunks),
{
    let s = fresh(format, vars, max_rows);
    let header = header_text(format, vars);
    let footer = footer_text(format);
    if chunks.len() == 0 {
        assert(header + rows_text(format, false, vars, flat(chunks)) =~= header);
    } else {
        let rows = chunks[0];
        let rest = chunks.skip(1);
        assert(flat(chunks).len() == rows.len() + flat(rest).len());
        let (next, action) = stepped(s, EventView::Rows(rows), false);
        played_from(next, rest);
        chunks_join(format, false, vars, rows, flat(rest));
        assert(played(s, chunks) =~= document(format, vars, flat(chunks)));
    }
}

/// A result over the limit never ends well: the limit shortens nothing.
pub proof fn a_limit_never_shortens(s: StreamView, chunks: Seq<Seq<Solution>>)
    requires
        s.emitted + flat(chunks).len() > s.max_rows,
        s.emitted <= s.max_rows || s.phase == Phase::Done,
    ensures
        !ends_well(s, chunks),
    decreases chunks.len(),
{
    if chunks.len() > 0 {
        let rows = chunks[0];
        let rest = chunks.skip(1);
        assert(flat(chunks).len() == rows.len() + flat(rest).len());
        let (next, action) = stepped(s, EventView::Rows(rows), false);
        if next.phase == Phase::Done {
            done_stays_done(next, rest);
        } else {
            a_limit_never_shortens(next, rest);
        }
    }
}

proof fn done_stays_done(s: StreamView, chunks: Seq<Seq<Solution>>)
    requires
        s.phase == Phase::Done,
    ensures
        !ends_well(s, chunks),
    decreases chunks.len(),
{
    if chunks.len() > 0 {
        done_stays_done(s, chunks.skip(1));
    }
}

// ── Whole answers ───────────────────────────────────────────────────────────

/// The answer to a query.
pub enum QueryAnswer {
    Solutions { vars: Vec<String>, rows: Vec<Bindings> },
    Boolean(bool),
    Triples(Vec<TextTriple>),
    Explanation { text: String, json: bool },
}

/// A triple as a line.
pub open spec fn triple_line(t: (Text, Text, Text)) -> Text {
    "<"@ + t.0 + "> <"@ + t.1 + "> <"@ + t.2 + "> .\n"@
}

/// Triples as lines.
pub open spec fn triple_lines(s: Seq<(Text, Text, Text)>) -> Text
    decreases s.len(),
{
    if s.len() == 0 {
        Seq::empty()
    } else {
        triple_lines(s.drop_last()) + triple_line(s.last())
    }
}

fn write_triples(s: &Vec<TextTriple>) -> (out: String)
    ensures
        out@ == triple_lines(triples_view(s@)),
{
    let ghost sv = triples_view(s@);
    let mut out = String::new();
    let mut i: usize = 0;
    assert(sv.take(0) =~= Seq::empty());
    assert(out@ =~= triple_lines(sv.take(0)));
    while i < s.len()
        invariant
            i <= s@.len(),
            sv == triples_view(s@),
            out@ == triple_lines(sv.take(i as int)),
        decreases s@.len() - i,
    {
        proof {
            assert(sv.take(i + 1).drop_last() =~= sv.take(i as int));
            assert(sv.take(i + 1).last() == triple_view(s@[i as int]));
        }
        let mut line = "<".to_owned();
        line.append(s[i].0.as_str());
        line.append("> <");
        line.append(s[i].1.as_str());
        line.append("> <");
        line.append(s[i].2.as_str());
        line.append("> .\n");
        out.append(line.as_str());
        i = i + 1;
    }
    assert(sv.take(sv.len() as int) =~= sv);
    out
}

/// The content type of an answer. A truth value has no form of its own as
/// comma- or tab-separated values.
pub open spec fn answer_type(format: ResultFormat, a: QueryAnswer) -> Text {
    match a {
        QueryAnswer::Solutions { .. } => format.media_type(),
        QueryAnswer::Boolean(_) => if format == ResultFormat::Json {
            ResultFormat::Json.media_type()
        } else {
            ResultFormat::Xml.media_type()
        },
        QueryAnswer::Triples(_) => "application/n-triples"@,
        QueryAnswer::Explanation { text: _, json } => if json {
            "application/json"@
        } else {
            "text/plain; charset=utf-8"@
        },
    }
}

/// The text of an answer.
pub open spec fn answer_text(format: ResultFormat, a: QueryAnswer) -> Text {
    match a {
        QueryAnswer::Solutions { vars, rows } => document(
            format,
            texts(vars@),
            bindings_view(rows@),
        ),
        QueryAnswer::Boolean(b) => if format == ResultFormat::Json {
            if b {
                "{\"boolean\":true,\"head\":{}}"@
            } else {
                "{\"boolean\":false,\"head\":{}}"@
            }
        } else {
            ask_xml(b)
        },
        QueryAnswer::Triples(s) => triple_lines(triples_view(s@)),
        QueryAnswer::Explanation { text, json: _ } => text@,
    }
}

/// The content type and the text of an answer.
pub fn answer_body(format: ResultFormat, a: &QueryAnswer) -> (r: (&'static str, String))
    ensures
        r.0@ == answer_type(format, *a),
        r.1@ == answer_text(format, *a),
{
    match a {
        QueryAnswer::Solutions { vars, rows } => {
            let text = match format {
                ResultFormat::Json => write_select_json(vars, rows),
                ResultFormat::Xml => write_select_xml(vars, rows),
                ResultFormat::Csv => write_select_csv(vars, rows),
                ResultFormat::Tsv => write_select_tsv(vars, rows),
            };
            (format.content_type(), text)
        },
        QueryAnswer::Boolean(b) => match format {
            ResultFormat::Json => (ResultFormat::Json.content_type(), write_ask_json(*b)),
            _ => (ResultFormat::Xml.content_type(), write_ask_xml(*b)),
        },
        QueryAnswer::Triples(s) => ("application/n-triples", write_triples(s)),
        QueryAnswer::Explanation { text, json } => (
            if *json {
                "application/json"
            } else {
                "text/plain; charset=utf-8"
            },
            text.clone(),
        ),
    }
}

}
