//! The slot of a change feed: how far its consumer has come, kept in a
//! reserved graph of the store.
//!
//! A request may carry a feed position. The slot takes it over once every
//! operation of the request is done, so it is never ahead of the data. The
//! position is the consumer's own: it is stored and given back as it is.

use crate::algebra::{Term, TermView};
use crate::error::{ErrorView, SparqlError};
use crate::exec::literal::opt_text;
use crate::exec::number::{all_digits, digit_value, digits_value, i64_of, int_of, is_digit, parse_i64};
use crate::exec::store::{
    graph_part, in_graph, quad_set, quad_view, quads_view, triple_set, AlgebraQuad, AlgebraTriple,
    GraphName, QuadView, Store,
};
use crate::text::{
    chars_of, decimal, digit, push_char, same_text, signed_decimal, signed_text, slice_text, Text,
};
use time::format_description::well_known::Rfc3339;
use time::OffsetDateTime;
use vstd::prelude::*;
use vstd::string::*;

verus! {

/// The graph of the slot.
pub const FEED_GRAPH: &'static str = "https://horndb.io/graph/feed";

/// The subject of the slot.
pub const FEED_SLOT_SUBJECT: &'static str = "https://horndb.io/graph/feed#slot";

pub const PRED_ID: &'static str = "https://horndb.io/ns/feed#id";

pub const PRED_GENERATION: &'static str = "https://horndb.io/ns/feed#generation";

pub const PRED_POSITION: &'static str = "https://horndb.io/ns/feed#position";

pub const PRED_ADVANCED_AT: &'static str = "https://horndb.io/ns/feed#advancedAt";

pub const XSD_INTEGER: &'static str = "http://www.w3.org/2001/XMLSchema#integer";

pub const XSD_DATETIME: &'static str = "http://www.w3.org/2001/XMLSchema#dateTime";

/// A feed and a position in it.
#[derive(Debug, PartialEq, Eq)]
pub struct FeedPosition {
    pub id: String,
    pub position: String,
}

/// What the slot holds.
#[derive(Debug, PartialEq, Eq)]
pub struct Slot {
    pub id: String,
    pub generation: i64,
    pub position: String,
    pub advanced_at: String,
}

#[allow(inconsistent_fields)]
#[verifier::ext_equal]
pub struct SlotRecord {
    pub id: Text,
    pub generation: i64,
    pub position: Text,
    pub advanced_at: Text,
}

impl Slot {
    pub open spec fn view(&self) -> SlotRecord {
        SlotRecord {
            id: self.id@,
            generation: self.generation,
            position: self.position@,
            advanced_at: self.advanced_at@,
        }
    }
}

pub open spec fn opt_slot_view(s: Option<Slot>) -> Option<SlotRecord> {
    match s {
        Some(s) => Some(s@),
        None => None,
    }
}

// ── Literals ────────────────────────────────────────────────────────────────

/// A character inside quotes.
pub open spec fn quoted_char(c: char) -> Text {
    if c == '\\' {
        seq!['\\', '\\']
    } else if c == '"' {
        seq!['\\', '"']
    } else if c == '\n' {
        seq!['\\', 'n']
    } else if c == '\r' {
        seq!['\\', 'r']
    } else if c == '\t' {
        seq!['\\', 't']
    } else {
        seq![c]
    }
}

/// A text inside quotes.
pub open spec fn quoted_body(s: Text) -> Text
    decreases s.len(),
{
    if s.len() == 0 {
        Seq::empty()
    } else {
        quoted_body(s.drop_last()) + quoted_char(s.last())
    }
}

/// A text in quotes.
pub open spec fn quoted(s: Text) -> Text {
    seq!['"'] + quoted_body(s) + seq!['"']
}

pub fn escape_literal(s: &str) -> (out: String)
    ensures
        out@ == quoted(s@),
{
    let cs = chars_of(s);
    let mut out = String::new();
    push_char(&mut out, '"');
    let mut i: usize = 0;
    assert(cs@.take(0) =~= Seq::empty());
    assert(out@ =~= seq!['"'] + quoted_body(cs@.take(0)));
    while i < cs.len()
        invariant
            i <= cs@.len(),
            out@ == seq!['"'] + quoted_body(cs@.take(i as int)),
        decreases cs@.len() - i,
    {
        let c = cs[i];
        let ghost before = out@;
        if c == '\\' || c == '"' {
            push_char(&mut out, '\\');
            push_char(&mut out, c);
        } else if c == '\n' {
            push_char(&mut out, '\\');
            push_char(&mut out, 'n');
        } else if c == '\r' {
            push_char(&mut out, '\\');
            push_char(&mut out, 'r');
        } else if c == '\t' {
            push_char(&mut out, '\\');
            push_char(&mut out, 't');
        } else {
            push_char(&mut out, c);
        }
        proof {
            assert(out@ =~= before + quoted_char(c));
            let next = cs@.take(i + 1);
            assert(next.drop_last() =~= cs@.take(i as int));
            assert(out@ =~= seq!['"'] + quoted_body(next));
        }
        i = i + 1;
    }
    push_char(&mut out, '"');
    proof {
        assert(cs@.take(cs@.len() as int) =~= cs@);
        assert(out@ =~= quoted(s@));
    }
    out
}

/// What an escape stands for.
pub open spec fn escape_value(c: char) -> Text {
    if c == '\\' {
        seq!['\\']
    } else if c == '"' {
        seq!['"']
    } else if c == 'n' {
        seq!['\n']
    } else if c == 'r' {
        seq!['\r']
    } else if c == 't' {
        seq!['\t']
    } else {
        seq!['\\', c]
    }
}

/// The text inside quotes read back. An escape that is none of ours stays.
pub open spec fn unquoted_body(s: Text) -> Text
    decreases s.len(),
{
    if s.len() == 0 {
        Seq::empty()
    } else if s[0] != '\\' {
        seq![s[0]] + unquoted_body(s.skip(1))
    } else if s.len() == 1 {
        seq!['\\']
    } else {
        escape_value(s[1]) + unquoted_body(s.skip(2))
    }
}

fn unescape_literal_body(body: &str) -> (out: String)
    ensures
        out@ == unquoted_body(body@),
{
    let cs = chars_of(body);
    let n: usize = cs.len();
    let mut out = String::new();
    let mut i: usize = 0;
    assert(cs@.skip(0) =~= cs@);
    assert(out@ + unquoted_body(cs@) =~= unquoted_body(cs@));
    while i < n
        invariant
            i <= n,
            n == cs@.len(),
            out@ + unquoted_body(cs@.skip(i as int)) == unquoted_body(cs@),
        decreases n - i,
    {
        let c = cs[i];
        let ghost rest = cs@.skip(i as int);
        let ghost before = out@;
        if c != '\\' {
            push_char(&mut out, c);
            i = i + 1;
            proof {
                assert(rest.skip(1) =~= cs@.skip(i as int));
                assert(before + (seq![c] + unquoted_body(rest.skip(1))) =~= out@ + unquoted_body(
                    cs@.skip(i as int),
                ));
            }
        } else if n - i == 1 {
            push_char(&mut out, c);
            i = i + 1;
            proof {
                assert(cs@.skip(i as int) =~= Seq::empty());
                assert(before + seq![c] =~= out@ + unquoted_body(cs@.skip(i as int)));
            }
        } else {
            let d = cs[i + 1];
            if d == '\\' || d == '"' {
                push_char(&mut out, d);
            } else if d == 'n' {
                push_char(&mut out, '\n');
            } else if d == 'r' {
                push_char(&mut out, '\r');
            } else if d == 't' {
                push_char(&mut out, '\t');
            } else {
                push_char(&mut out, '\\');
                push_char(&mut out, d);
            }
            i = i + 2;
            proof {
                assert(rest[1] == d);
                assert(out@ =~= before + escape_value(d));
                assert(rest.skip(2) =~= cs@.skip(i as int));
                assert(before + (escape_value(d) + unquoted_body(rest.skip(2))) =~= out@
                    + unquoted_body(cs@.skip(i as int)));
            }
        }
    }
    assert(cs@.skip(n as int) =~= Seq::empty());
    assert(out@ + unquoted_body(cs@.skip(n as int)) =~= out@);
    out
}

/// How far the text goes before a quote that no backslash escapes.
pub open spec fn body_len(s: Text) -> Option<nat>
    decreases s.len(),
{
    if s.len() == 0 {
        None
    } else if s[0] == '"' {
        Some(0)
    } else if s[0] == '\\' && s.len() == 1 {
        None
    } else {
        let step: nat = if s[0] == '\\' {
            2
        } else {
            1
        };
        match body_len(s.skip(step as int)) {
            Some(n) => Some(n + step),
            None => None,
        }
    }
}

/// The text between the quotes a literal starts with.
pub open spec fn body_of(lex: Text) -> Option<Text> {
    if lex.len() > 0 && lex[0] == '"' {
        match body_len(lex.skip(1)) {
            Some(n) => Some(lex.subrange(1, 1 + n as int)),
            None => None,
        }
    } else {
        None
    }
}

fn literal_body(lex: &str) -> (r: Option<String>)
    ensures
        opt_text(r) == body_of(lex@),
{
    let cs = chars_of(lex);
    let n: usize = cs.len();
    if n == 0 || cs[0] != '"' {
        return None;
    }
    let mut i: usize = 1;
    while i < n
        invariant
            1 <= i <= n,
            n == cs@.len(),
            cs@ == lex@,
            lex@[0] == '"',
            match body_len(lex@.skip(i as int)) {
                Some(k) => body_len(lex@.skip(1)) == Some((k + i - 1) as nat),
                None => body_len(lex@.skip(1)) is None,
            },
        decreases n - i,
    {
        let ghost rest = lex@.skip(i as int);
        assert(rest[0] == cs@[i as int]);
        if cs[i] == '"' {
            return Some(slice_text(&cs, 1, i));
        }
        if cs[i] == '\\' {
            if n - i == 1 {
                return None;
            }
            assert(rest.skip(2) =~= lex@.skip(i + 2));
            i = i + 2;
        } else {
            assert(rest.skip(1) =~= lex@.skip(i + 1));
            i = i + 1;
        }
    }
    assert(lex@.skip(n as int).len() == 0);
    None
}

/// A plain literal.
pub open spec fn plain(s: Text) -> TermView {
    TermView::Literal(quoted(s))
}

pub fn plain_literal(value: &str) -> (r: Term)
    ensures
        r@ == plain(value@),
{
    Term::Literal(escape_literal(value))
}

/// A typed literal.
pub open spec fn typed(s: Text, datatype: Text) -> TermView {
    TermView::Literal(quoted(s) + "^^<"@ + datatype + ">"@)
}

pub fn typed_literal(value: &str, datatype_iri: &str) -> (r: Term)
    ensures
        r@ == typed(value@, datatype_iri@),
{
    let mut out = escape_literal(value);
    out.append("^^<");
    out.append(datatype_iri);
    out.append(">");
    Term::Literal(out)
}

/// The text of a literal.
pub open spec fn literal_text(t: TermView) -> Option<Text> {
    match t {
        TermView::Literal(lex) => match body_of(lex) {
            Some(b) => Some(unquoted_body(b)),
            None => None,
        },
        _ => None,
    }
}

pub fn decode_literal(t: &Term) -> (r: Option<String>)
    ensures
        opt_text(r) == literal_text(t@),
{
    match t {
        Term::Literal(lex) => match literal_body(lex.as_str()) {
            Some(b) => Some(unescape_literal_body(b.as_str())),
            None => None,
        },
        _ => None,
    }
}

proof fn body_reads_back(s: Text, t: Text)
    ensures
        unquoted_body(quoted_body(s) + t) == s + unquoted_body(t),
        match body_len(t) {
            Some(n) => body_len(quoted_body(s) + t) == Some(quoted_body(s).len() + n),
            None => body_len(quoted_body(s) + t) is None,
        },
    decreases s.len(),
{
    if s.len() == 0 {
        assert(quoted_body(s) + t =~= t);
        assert(s + unquoted_body(t) =~= unquoted_body(t));
    } else {
        let q = quoted_char(s.last());
        let u = q + t;
        body_reads_back(s.drop_last(), u);
        assert(quoted_body(s) + t =~= quoted_body(s.drop_last()) + u);
        if q.len() == 1 {
            assert(u.skip(1) =~= t);
            assert(u[0] == s.last());
        } else {
            assert(u.skip(2) =~= t);
            assert(u[0] == '\\');
            assert(u[1] == q[1]);
        }
        assert(unquoted_body(u) =~= seq![s.last()] + unquoted_body(t));
        assert(s.drop_last() + (seq![s.last()] + unquoted_body(t)) =~= s + unquoted_body(t));
    }
}

proof fn quoted_reads_back(s: Text, suffix: Text)
    ensures
        literal_text(TermView::Literal(quoted(s) + suffix)) == Some(s),
{
    let lex = quoted(s) + suffix;
    let tail = seq!['"'] + suffix;
    body_reads_back(s, tail);
    assert(lex.skip(1) =~= quoted_body(s) + tail);
    assert(body_len(tail) == Some(0nat));
    assert(lex.subrange(1, 1 + quoted_body(s).len() as int) =~= quoted_body(s));
    body_reads_back(s, Seq::empty());
    assert(quoted_body(s) + Seq::<char>::empty() =~= quoted_body(s));
    assert(s + Seq::<char>::empty() =~= s);
}

/// A text reads back from the literal it is written as, plain or typed.
pub proof fn literals_read_back(s: Text, datatype: Text)
    ensures
        literal_text(plain(s)) == Some(s),
        literal_text(typed(s, datatype)) == Some(s),
{
    quoted_reads_back(s, Seq::empty());
    assert(quoted(s) + Seq::<char>::empty() =~= quoted(s));
    quoted_reads_back(s, "^^<"@ + datatype + ">"@);
    assert(quoted(s) + ("^^<"@ + datatype + ">"@) =~= quoted(s) + "^^<"@ + datatype + ">"@);
}

// ── The slot ────────────────────────────────────────────────────────────────

/// A quad of the slot.
pub open spec fn slot_quad(predicate: Text, object: TermView) -> QuadView {
    QuadView {
        graph: Some(FEED_GRAPH@),
        subject: TermView::Iri(FEED_SLOT_SUBJECT@),
        predicate: TermView::Iri(predicate),
        object,
    }
}

/// The quads of the slot.
pub open spec fn slot_record(s: SlotRecord) -> Seq<QuadView> {
    seq![
        slot_quad(PRED_ID@, plain(s.id)),
        slot_quad(PRED_GENERATION@, typed(signed_decimal(s.generation as int), XSD_INTEGER@)),
        slot_quad(PRED_POSITION@, plain(s.position)),
        slot_quad(PRED_ADVANCED_AT@, typed(s.advanced_at, XSD_DATETIME@)),
    ]
}

fn make_quad(predicate: &str, object: Term) -> (r: AlgebraQuad)
    ensures
        quad_view(r) == slot_quad(predicate@, object@),
{
    (
        Some(FEED_GRAPH.to_owned()),
        Term::Iri(FEED_SLOT_SUBJECT.to_owned()),
        Term::Iri(predicate.to_owned()),
        object,
    )
}

/// The quads that say what the slot holds.
pub fn slot_quads(slot: &Slot) -> (r: Vec<AlgebraQuad>)
    ensures
        quads_view(r@) == slot_record(slot@),
{
    let r = vec![
        make_quad(PRED_ID, plain_literal(slot.id.as_str())),
        make_quad(
            PRED_GENERATION,
            typed_literal(signed_text(slot.generation).as_str(), XSD_INTEGER),
        ),
        make_quad(PRED_POSITION, plain_literal(slot.position.as_str())),
        make_quad(PRED_ADVANCED_AT, typed_literal(slot.advanced_at.as_str(), XSD_DATETIME)),
    ];
    assert(quads_view(r@) =~= slot_record(slot@));
    r
}

/// Does a predicate say something of the slot?
pub open spec fn is_slot_predicate(p: TermView) -> bool {
    p == TermView::Iri(PRED_ID@) || p == TermView::Iri(PRED_GENERATION@) || p == TermView::Iri(
        PRED_POSITION@,
    ) || p == TermView::Iri(PRED_ADVANCED_AT@)
}

/// The quads of a set that say something of the slot, whether or not they say
/// all of it.
pub open spec fn slot_part(quads: Set<QuadView>) -> Set<QuadView> {
    quads.filter(|q: QuadView| q.graph == Some(FEED_GRAPH@) && is_slot_predicate(q.predicate))
}

fn names_slot(p: &Term) -> (r: bool)
    ensures
        r == is_slot_predicate(p@),
{
    match p {
        Term::Iri(s) => same_text(s.as_str(), PRED_ID) || same_text(s.as_str(), PRED_GENERATION)
            || same_text(s.as_str(), PRED_POSITION) || same_text(s.as_str(), PRED_ADVANCED_AT),
        _ => false,
    }
}

/// The quads of the slot among the triples of its graph.
pub fn slot_quads_in(triples: &Vec<AlgebraTriple>) -> (r: Vec<AlgebraQuad>)
    ensures
        quad_set(r@) == slot_part(triple_set(Some(FEED_GRAPH@), triples@)),
{
    let ghost g = Some(FEED_GRAPH@);
    let ghost all = Seq::new(triples@.len(), |i: int| in_graph(g, triples@[i]));
    let mut out: Vec<AlgebraQuad> = Vec::new();
    let mut i: usize = 0;
    while i < triples.len()
        invariant
            i <= triples@.len(),
            g == Some(FEED_GRAPH@),
            all == Seq::new(triples@.len(), |i: int| in_graph(g, triples@[i])),
            forall|k: int|
                0 <= k < out@.len() ==> all.contains(#[trigger] quad_view(out@[k]))
                    && is_slot_predicate(quad_view(out@[k]).predicate),
            forall|j: int|
                0 <= j < i && is_slot_predicate((#[trigger] all[j]).predicate) ==> quads_view(
                    out@,
                ).contains(all[j]),
        decreases triples@.len() - i,
    {
        let ghost before = out@;
        assert(all[i as int].predicate == triples@[i as int].1@);
        if names_slot(&triples[i].1) {
            let t = &triples[i];
            out.push((Some(FEED_GRAPH.to_owned()), t.0.clone(), t.1.clone(), t.2.clone()));
            proof {
                assert(quad_view(out@[before.len() as int]) == all[i as int]);
                assert forall|j: int|
                    0 <= j < i + 1 && is_slot_predicate(
                        (#[trigger] all[j]).predicate,
                    ) implies quads_view(out@).contains(all[j]) by {
                    if j < i {
                        let k = choose|k: int|
                            0 <= k < quads_view(before).len() && quads_view(before)[k] == all[j];
                        assert(quads_view(out@)[k] == all[j]);
                    } else {
                        assert(quads_view(out@)[before.len() as int] == all[j]);
                    }
                }
                assert forall|k: int| 0 <= k < out@.len() implies all.contains(
                    #[trigger] quad_view(out@[k]),
                ) && is_slot_predicate(quad_view(out@[k]).predicate) by {
                    if k < before.len() {
                        assert(out@[k] == before[k]);
                    }
                }
            }
        }
        i = i + 1;
    }
    proof {
        let found = slot_part(triple_set(g, triples@));
        assert forall|q: QuadView| quad_set(out@).contains(q) <==> found.contains(q) by {
            if quad_set(out@).contains(q) {
                let k = choose|k: int| 0 <= k < quads_view(out@).len() && quads_view(out@)[k] == q;
                assert(quad_view(out@[k]) == q);
                assert(all.contains(q));
                assert(all.to_set().contains(q));
            }
            if found.contains(q) {
                assert(all.to_set().contains(q));
                let j = choose|j: int| 0 <= j < all.len() && all[j] == q;
                assert(quads_view(out@).contains(all[j]));
            }
        }
        assert(quad_set(out@) =~= found);
    }
    out
}

/// The predicates and objects of triples.
pub open spec fn facts_view(s: Seq<AlgebraTriple>) -> Seq<(TermView, TermView)> {
    Seq::new(s.len(), |i: int| (s[i].1@, s[i].2@))
}

/// The text of the last object a predicate has.
pub open spec fn last_text(facts: Seq<(TermView, TermView)>, predicate: Text) -> Option<Text>
    decreases facts.len(),
{
    if facts.len() == 0 {
        None
    } else if facts.last().0 == TermView::Iri(predicate) {
        literal_text(facts.last().1)
    } else {
        last_text(facts.drop_last(), predicate)
    }
}

/// What the slot holds by its facts. Without an id or a position there is no
/// slot.
pub open spec fn slot_of(facts: Seq<(TermView, TermView)>) -> Option<SlotRecord> {
    match (last_text(facts, PRED_ID@), last_text(facts, PRED_POSITION@)) {
        (Some(id), Some(position)) => Some(
            SlotRecord {
                id,
                position,
                generation: match last_text(facts, PRED_GENERATION@) {
                    Some(g) => match i64_of(g) {
                        Some(n) => n,
                        None => 0,
                    },
                    None => 0,
                },
                advanced_at: match last_text(facts, PRED_ADVANCED_AT@) {
                    Some(t) => t,
                    None => Seq::empty(),
                },
            },
        ),
        _ => None,
    }
}

fn last_object(triples: &Vec<AlgebraTriple>, predicate: &str) -> (r: Option<String>)
    ensures
        opt_text(r) == last_text(facts_view(triples@), predicate@),
{
    let ghost fv = facts_view(triples@);
    let mut i: usize = triples.len();
    assert(fv.take(i as int) =~= fv);
    while i > 0
        invariant
            i <= triples@.len(),
            fv == facts_view(triples@),
            last_text(fv, predicate@) == last_text(fv.take(i as int), predicate@),
        decreases i,
    {
        proof {
            assert(fv.take(i as int).drop_last() =~= fv.take(i - 1));
            assert(fv.take(i as int).last() == fv[i - 1]);
        }
        let found = match &triples[i - 1].1 {
            Term::Iri(p) => same_text(p.as_str(), predicate),
            _ => false,
        };
        if found {
            return decode_literal(&triples[i - 1].2);
        }
        i = i - 1;
    }
    None
}

/// What the slot holds by the triples of its graph.
pub fn slot_from(triples: &Vec<AlgebraTriple>) -> (r: Option<Slot>)
    ensures
        opt_slot_view(r) == slot_of(facts_view(triples@)),
{
    match (last_object(triples, PRED_ID), last_object(triples, PRED_POSITION)) {
        (Some(id), Some(position)) => {
            let generation: i64 = match last_object(triples, PRED_GENERATION) {
                Some(g) => match parse_i64(g.as_str()) {
                    Some(n) => n,
                    None => 0,
                },
                None => 0,
            };
            let advanced_at = match last_object(triples, PRED_ADVANCED_AT) {
                Some(t) => t,
                None => {
                    let none = String::new();
                    assert(none@ =~= Seq::empty());
                    none
                },
            };
            Some(Slot { id, generation, position, advanced_at })
        },
        _ => None,
    }
}

/// May the slot be read as this from a set of quads?
pub open spec fn reads_as(quads: Set<QuadView>, slot: Option<SlotRecord>) -> bool {
    exists|triples: Seq<AlgebraTriple>|
        triple_set(Some(FEED_GRAPH@), triples) == graph_part(quads, Some(FEED_GRAPH@)) && slot
            == slot_of(#[trigger] facts_view(triples))
}

/// Reads the slot of a store.
pub fn read_slot<B: Store>(store: &B) -> (r: Result<Option<Slot>, SparqlError>)
    ensures
        r matches Ok(s) ==> reads_as(store.quads(), opt_slot_view(s)),
        store.steady() ==> r is Ok,
{
    let graph: GraphName = Some(FEED_GRAPH.to_owned());
    match store.scan_graph_quads(&graph) {
        Ok(triples) => {
            let s = slot_from(&triples);
            proof {
                let t = triples@;
                assert(triple_set(Some(FEED_GRAPH@), t) == graph_part(
                    store.quads(),
                    Some(FEED_GRAPH@),
                ));
                assert(opt_slot_view(s) == slot_of(facts_view(t)));
            }
            Ok(s)
        },
        Err(e) => Err(e),
    }
}

/// The quads to take out and those to put in, to put a slot in the place of
/// the slot quads there are.
pub fn slot_delta(there: Vec<AlgebraQuad>, new_slot: &Slot) -> (r: (
    Vec<AlgebraQuad>,
    Vec<AlgebraQuad>,
))
    ensures
        r.0@ == there@,
        quads_view(r.1@) == slot_record(new_slot@),
{
    (there, slot_quads(new_slot))
}

/// Refuses a feed other than the slot's. An empty slot takes any feed. A slot
/// that cannot be read takes none.
pub fn check_feed_id<B: Store>(store: &B, feed: &FeedPosition) -> (r: Result<(), SparqlError>)
    ensures
        r is Ok ==> exists|s: Option<SlotRecord>| #[trigger]
            reads_as(store.quads(), s) && (s matches Some(x) ==> x.id == feed.id@),
        r is Err ==> !store.steady() || exists|s: SlotRecord| #[trigger]
            reads_as(store.quads(), Some(s)) && s.id != feed.id@ && r->Err_0@ == (
            ErrorView::FeedIdMismatch { slot: s.id, request: feed.id@ }),
{
    match read_slot(store) {
        Ok(Some(slot)) => {
            let ghost rec = slot@;
            assert(reads_as(store.quads(), Some(rec)));
            if !same_text(slot.id.as_str(), feed.id.as_str()) {
                return Err(
                    SparqlError::FeedIdMismatch { slot: slot.id, request: feed.id.clone() },
                );
            }
            Ok(())
        },
        Ok(None) => {
            assert(reads_as(store.quads(), None));
            Ok(())
        },
        Err(e) => Err(e),
    }
}

/// Calls `time::OffsetDateTime::now_utc` and formats it by RFC 3339. Nothing is
/// claimed of the result: it is the time.
#[verifier::external_body]
fn now_xsd_datetime() -> (r: String) {
    OffsetDateTime::now_utc().format(&Rfc3339).unwrap_or_default()
}

/// The slot a feed position makes at a time.
pub open spec fn advanced(feed: &FeedPosition, at: Text) -> SlotRecord {
    SlotRecord { id: feed.id@, generation: 0, position: feed.position@, advanced_at: at }
}

/// The quads after the slot has been moved: whatever said something of the
/// slot is gone, and the new slot is there.
pub open spec fn moved(before: Set<QuadView>, new_slot: SlotRecord) -> Set<QuadView> {
    before.difference(slot_part(before)).union(slot_record(new_slot).to_set())
}

/// Moves the slot to a feed position, as of the given time, in one batch.
pub fn advance_slot_at<B: Store>(store: &mut B, feed: &FeedPosition, now: String) -> (r: Result<
    (),
    SparqlError,
>)
    ensures
        r is Ok ==> final(store).quads() == moved(old(store).quads(), advanced(feed, now@)),
        r is Err ==> final(store).quads() == old(store).quads() && !old(store).steady(),
        final(store).steady() == old(store).steady(),
{
    let graph: GraphName = Some(FEED_GRAPH.to_owned());
    let triples = match store.scan_graph_quads(&graph) {
        Ok(t) => t,
        Err(e) => return Err(e),
    };
    let new_slot = Slot {
        id: feed.id.clone(),
        generation: 0,
        position: feed.position.clone(),
        advanced_at: now,
    };
    let (dels, adds) = slot_delta(slot_quads_in(&triples), &new_slot);
    assert(quad_set(dels@) =~= slot_part(store.quads()));
    store.apply_quads(dels, adds)
}

/// Moves the slot to a feed position, as of now. Called once every operation
/// of the request is done. Which time that is, the contract does not say.
pub fn advance_slot<B: Store>(store: &mut B, feed: &FeedPosition) -> (r: Result<(), SparqlError>)
    ensures
        r is Ok ==> exists|at: Text|
            final(store).quads() == moved(old(store).quads(), #[trigger] advanced(feed, at)),
        r is Err ==> final(store).quads() == old(store).quads() && !old(store).steady(),
        final(store).steady() == old(store).steady(),
{
    let now = now_xsd_datetime();
    let ghost at = now@;
    let r = advance_slot_at(store, feed, now);
    proof {
        assert(advanced(feed, at) == advanced(feed, at));
    }
    r
}

// ── What is written reads back ──────────────────────────────────────────────

/// The digits of a number read back as it.
pub proof fn decimal_reads_back(n: nat)
    ensures
        decimal(n).len() > 0,
        all_digits(decimal(n)),
        digits_value(decimal(n)) == n,
    decreases n,
{
    let d = n % 10;
    assert(is_digit(digit(d)) && digit_value(digit(d)) == d);
    if n < 10 {
        assert(decimal(n) == seq![digit(n)]);
        assert(decimal(n).drop_last() =~= Seq::empty());
        assert(digits_value(decimal(n).drop_last()) == 0);
    } else {
        decimal_reads_back(n / 10);
        assert(decimal(n).drop_last() =~= decimal(n / 10));
        assert(decimal(n).last() == digit(d));
    }
}

/// An integer reads back from its decimal form.
pub proof fn integers_read_back(n: i64)
    ensures
        i64_of(signed_decimal(n as int)) == Some(n),
{
    let s = signed_decimal(n as int);
    if n < 0 {
        let m = (-n) as nat;
        decimal_reads_back(m);
        assert(s[0] == '-');
        assert(s.drop_first() =~= decimal(m));
    } else {
        let m = n as nat;
        decimal_reads_back(m);
        assert(is_digit(s[0]));
    }
    assert(int_of(s) == Some(n as int));
}

proof fn predicates_differ()
    ensures
        PRED_ID@ != PRED_GENERATION@,
        PRED_ID@ != PRED_POSITION@,
        PRED_ID@ != PRED_ADVANCED_AT@,
        PRED_GENERATION@ != PRED_POSITION@,
        PRED_GENERATION@ != PRED_ADVANCED_AT@,
        PRED_POSITION@ != PRED_ADVANCED_AT@,
{
    reveal_strlit("https://horndb.io/ns/feed#id");
    reveal_strlit("https://horndb.io/ns/feed#generation");
    reveal_strlit("https://horndb.io/ns/feed#position");
    reveal_strlit("https://horndb.io/ns/feed#advancedAt");
    assert(PRED_ID@[26] == 'i');
    assert(PRED_GENERATION@[26] == 'g');
    assert(PRED_POSITION@[26] == 'p');
    assert(PRED_ADVANCED_AT@[26] == 'a');
}

/// Where every fact of a predicate has one object, and there is one, that is
/// the object read.
proof fn only_text(facts: Seq<(TermView, TermView)>, p: Text, o: TermView)
    requires
        facts.contains((TermView::Iri(p), o)),
        forall|i: int|
            0 <= i < facts.len() && (#[trigger] facts[i]).0 == TermView::Iri(p) ==> facts[i].1 == o,
    ensures
        last_text(facts, p) == literal_text(o),
    decreases facts.len(),
{
    let k = choose|k: int| 0 <= k < facts.len() && facts[k] == (TermView::Iri(p), o);
    if facts.last().0 != TermView::Iri(p) {
        let rest = facts.drop_last();
        assert(rest[k] == facts[k]);
        assert forall|i: int|
            0 <= i < rest.len() && (#[trigger] rest[i]).0 == TermView::Iri(p) implies rest[i].1
            == o by {
            assert(facts[i] == rest[i]);
        }
        only_text(rest, p, o);
    } else {
        assert(facts[facts.len() - 1].1 == o);
    }
}

/// A slot reads back as it was written where nothing else says anything of the
/// slot, in whatever order the store lists the graph.
pub proof fn a_slot_reads_back(quads: Set<QuadView>, slot: SlotRecord, read: Option<SlotRecord>)
    requires
        slot_part(quads) == slot_record(slot).to_set(),
        reads_as(quads, read),
    ensures
        read == Some(slot),
{
    let g = Some(FEED_GRAPH@);
    let triples = choose|triples: Seq<AlgebraTriple>|
        triple_set(g, triples) == graph_part(quads, g) && read == slot_of(
            #[trigger] facts_view(triples),
        );
    let facts = facts_view(triples);
    let all = Seq::new(triples.len(), |i: int| in_graph(g, triples[i]));
    let rec = slot_record(slot);
    assert forall|k: int| 0 <= k < rec.len() implies facts.contains(
        ((#[trigger] rec[k]).predicate, rec[k].object),
    ) by {
        assert(rec.to_set().contains(rec[k]));
        assert(slot_part(quads).contains(rec[k]));
        assert(graph_part(quads, g).contains(rec[k]));
        assert(all.to_set().contains(rec[k]));
        let i = choose|i: int| 0 <= i < all.len() && all[i] == rec[k];
        assert(facts[i] == (rec[k].predicate, rec[k].object));
    }
    predicates_differ();
    assert forall|i: int, k: int|
        0 <= i < facts.len() && 0 <= k < 4 && (#[trigger] facts[i]).0 == (
        #[trigger] rec[k]).predicate implies facts[i].1 == rec[k].object by {
        assert(all.to_set().contains(all[i]));
        assert(graph_part(quads, g).contains(all[i]));
        assert(is_slot_predicate(all[i].predicate));
        assert(slot_part(quads).contains(all[i]));
        assert(rec.to_set().contains(all[i]));
        let m = choose|m: int| 0 <= m < 4 && #[trigger] rec[m] == all[i];
        assert(rec[m].predicate == facts[i].0);
    }
    assert(rec[0].predicate == TermView::Iri(PRED_ID@));
    assert(rec[1].predicate == TermView::Iri(PRED_GENERATION@));
    assert(rec[2].predicate == TermView::Iri(PRED_POSITION@));
    assert(rec[3].predicate == TermView::Iri(PRED_ADVANCED_AT@));
    only_text(facts, PRED_ID@, rec[0].object);
    only_text(facts, PRED_GENERATION@, rec[1].object);
    only_text(facts, PRED_POSITION@, rec[2].object);
    only_text(facts, PRED_ADVANCED_AT@, rec[3].object);
    literals_read_back(slot.id, XSD_INTEGER@);
    literals_read_back(signed_decimal(slot.generation as int), XSD_INTEGER@);
    literals_read_back(slot.position, XSD_INTEGER@);
    literals_read_back(slot.advanced_at, XSD_DATETIME@);
    integers_read_back(slot.generation);
}

/// An advance replaces the slot: whatever was said of it before, the new slot
/// is all that is said of it, and is what is read next. Nothing else changes.
pub proof fn an_advance_replaces_the_slot(
    before: Set<QuadView>,
    new_slot: SlotRecord,
    read: Option<SlotRecord>,
)
    requires
        reads_as(moved(before, new_slot), read),
    ensures
        slot_part(moved(before, new_slot)) == slot_record(new_slot).to_set(),
        read == Some(new_slot),
        moved(before, new_slot).difference(slot_part(moved(before, new_slot)))
            == before.difference(slot_part(before)),
{
    let after = moved(before, new_slot);
    let rec = slot_record(new_slot);
    assert forall|q: QuadView| rec.to_set().contains(q) implies q.graph == Some(FEED_GRAPH@)
        && is_slot_predicate(q.predicate) by {
        let k = choose|k: int| 0 <= k < rec.len() && rec[k] == q;
    }
    assert(slot_part(after) =~= rec.to_set());
    assert(after.difference(slot_part(after)) =~= before.difference(slot_part(before)));
    a_slot_reads_back(after, new_slot, read);
}

/// An advance is to the position of the feed, at its time, in the first
/// generation.
pub proof fn an_advance_is_to_the_position(feed: &FeedPosition, at: Text)
    ensures
        advanced(feed, at).id == feed.id@,
        advanced(feed, at).position == feed.position@,
        advanced(feed, at).advanced_at == at,
        advanced(feed, at).generation == 0,
{
}

/// A text in quotes is one line, and holds a quote or a tab only behind a
/// backslash, as a letter.
pub proof fn a_quoted_text_is_one_line(s: Text, i: int)
    requires
        0 <= i < quoted_body(s).len(),
    ensures
        quoted_body(s)[i] != '\n' && quoted_body(s)[i] != '\r' && quoted_body(s)[i] != '\t',
        quoted_body(s)[i] == '"' ==> i > 0 && quoted_body(s)[i - 1] == '\\',
    decreases s.len(),
{
    if s.len() > 0 {
        let (rest, x) = (quoted_body(s.drop_last()), quoted_char(s.last()));
        assert(quoted_body(s) == rest + x);
        if i < rest.len() {
            a_quoted_text_is_one_line(s.drop_last(), i);
            assert(quoted_body(s)[i] == rest[i]);
            if i > 0 {
                assert(quoted_body(s)[i - 1] == rest[i - 1]);
            }
        } else {
            assert(quoted_body(s)[i] == x[i - rest.len()]);
            if i > rest.len() {
                assert(quoted_body(s)[i - 1] == x[i - rest.len() - 1]);
            }
        }
    }
}

}
