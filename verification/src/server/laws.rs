//! What a server does with requests, told by what was sent.

use crate::algebra::{texts, TermView};
use crate::error::ErrorView;
use crate::exec::bindings::bindings_view;
use crate::exec::construct::triples_view;
use crate::exec::literal::{
    lang_literal_round_trips, lang_view, plain_literal_round_trips, plain_view,
    string_literal_round_trips, string_view, unescape_inverts_escape,
};
use crate::percent::{decoded, encoded, encoded_byte, hex_byte, unreserved, upper_hex};
use crate::results::xml::bare_label;
use crate::results::{accepted, document, ResultFormat, Solution};
use crate::server::form::{
    before_char, before_char_facts, first_value, form_pairs, form_text, get_query, is_form, pair_of,
    pairs_of, pieces, post_pairs, post_query, post_update, settings_of, spaced,
};
use crate::server::graph_store::{
    accepts_ntriples, extension_for, last_value, media_type, rdf_term, rdf_triple, rdf_triples,
    target_given, unknown_key, RdfTermView, RdfTripleView,
};
use crate::server::query::{
    answer_text, answer_type, classified, completes, sent, status_of, stepped, triple_lines,
    ActionView, EventView, Phase, QueryAnswer, StreamView,
};
use crate::text::{find_from, find_from_facts, lower, lower_char, occurs_at, trimmed, white, Text};
use vstd::prelude::*;

verus! {

// ── Finding a text ──────────────────────────────────────────────────────────

/// Does a text stand somewhere in another?
pub open spec fn stands_in(s: Text, p: Text) -> bool {
    exists|a: Text, b: Text| s == #[trigger] (a + p + b)
}

/// A text is found wherever it stands, and nowhere else.
pub proof fn a_text_is_found_where_it_stands(s: Text, p: Text)
    ensures
        find_from(s, p, 0) is Some <==> stands_in(s, p),
{
    find_from_facts(s, p, 0);
    if let Some(k) = find_from(s, p, 0) {
        let (a, b) = (s.take(k), s.skip(k + p.len()));
        assert(s.subrange(k, k + p.len()) == p);
        assert(s =~= a + p + b);
    }
    if stands_in(s, p) {
        let (a, b) = choose|a: Text, b: Text| s == #[trigger] (a + p + b);
        assert(s.subrange(a.len() as int, a.len() as int + p.len()) =~= p);
        assert(occurs_at(s, p, a.len() as int));
    }
}

// ── Forms ───────────────────────────────────────────────────────────────────

/// Texts with a character between each two.
pub open spec fn with_between(parts: Seq<Text>, c: char) -> Text
    decreases parts.len(),
{
    if parts.len() == 0 {
        Seq::empty()
    } else if parts.len() == 1 {
        parts[0]
    } else {
        parts[0] + seq![c] + with_between(parts.skip(1), c)
    }
}

proof fn cut_at_first(a: Text, c: char, b: Text)
    requires
        !a.contains(c),
    ensures
        before_char(a + seq![c] + b, c) == a.len(),
        before_char(a, c) == a.len(),
{
    before_char_facts(a + seq![c] + b, c);
    before_char_facts(a, c);
    let s = a + seq![c] + b;
    let n = before_char(s, c) as int;
    assert(s[a.len() as int] == c);
    if n < a.len() {
        assert(s[n] == a[n]);
        assert(a.contains(a[n]));
    }
    let m = before_char(a, c) as int;
    if m < a.len() {
        assert(a.contains(a[m]));
    }
}

/// A text is taken apart at a character into what it was put together from.
pub proof fn parts_come_apart(parts: Seq<Text>, c: char)
    requires
        parts.len() > 0,
        forall|i: int| 0 <= i < parts.len() ==> !(#[trigger] parts[i]).contains(c),
    ensures
        pieces(with_between(parts, c), c) == parts,
    decreases parts.len(),
{
    let s = with_between(parts, c);
    assert(!parts[0].contains(c));
    if parts.len() == 1 {
        cut_at_first(parts[0], c, Seq::empty());
        assert(pieces(s, c) =~= parts);
    } else {
        let rest = parts.skip(1);
        assert forall|i: int| 0 <= i < rest.len() implies !(#[trigger] rest[i]).contains(c) by {
            assert(rest[i] == parts[i + 1]);
        }
        parts_come_apart(rest, c);
        let t = with_between(rest, c);
        cut_at_first(parts[0], c, t);
        let n = parts[0].len() as int;
        assert(s.take(n) =~= parts[0]);
        assert(s.skip(n + 1) =~= t);
        assert(pieces(s, c) =~= parts);
    }
}

/// What a pair is written as: key and value around an equals sign.
pub open spec fn written(p: (Text, Text)) -> Text {
    p.0 + seq!['='] + p.1
}

proof fn pairs_of_written(pairs: Seq<(Text, Text)>, parts: Seq<Text>)
    requires
        parts.len() == pairs.len(),
        forall|i: int| 0 <= i < pairs.len() ==> #[trigger] parts[i] == written(pairs[i]),
        forall|i: int| 0 <= i < pairs.len() ==> !(#[trigger] pairs[i]).0.contains('='),
    ensures
        pairs_of(parts).len() == pairs.len(),
        forall|i: int|
            0 <= i < pairs.len() ==> #[trigger] pairs_of(parts)[i] == (
                form_text(pairs[i].0),
                form_text(pairs[i].1),
            ),
    decreases pairs.len(),
{
    if pairs.len() > 0 {
        let (rest, more) = (pairs.skip(1), parts.skip(1));
        assert forall|i: int| 0 <= i < rest.len() implies #[trigger] more[i] == written(rest[i]) by {
            assert(more[i] == parts[i + 1] && rest[i] == pairs[i + 1]);
        }
        assert forall|i: int| 0 <= i < rest.len() implies !(#[trigger] rest[i]).0.contains('=') by {
            assert(rest[i] == pairs[i + 1]);
        }
        pairs_of_written(rest, more);
        let (k, v) = pairs[0];
        assert(!pairs[0].0.contains('='));
        assert(parts[0] == written(pairs[0]));
        cut_at_first(k, '=', v);
        assert(parts[0].take(k.len() as int) =~= k);
        assert(parts[0].skip(k.len() as int + 1) =~= v);
        assert(pair_of(parts[0]) == Some((form_text(k), form_text(v))));
        assert forall|i: int| 0 <= i < pairs.len() implies #[trigger] pairs_of(parts)[i] == (
            form_text(pairs[i].0),
            form_text(pairs[i].1),
        ) by {
            if i > 0 {
                assert(pairs_of(parts)[i] == pairs_of(more)[i - 1]);
                assert(rest[i - 1] == pairs[i]);
            }
        }
    }
}

/// A form has the pairs it was written from, in order, each decoded.
pub proof fn a_form_has_its_pairs(pairs: Seq<(Text, Text)>)
    requires
        pairs.len() > 0,
        forall|i: int|
            0 <= i < pairs.len() ==> !(#[trigger] pairs[i]).0.contains('=')
                && !pairs[i].0.contains('&') && !pairs[i].1.contains('&'),
    ensures
        ({
            let body = with_between(Seq::new(pairs.len(), |i: int| written(pairs[i])), '&');
            &&& form_pairs(body).len() == pairs.len()
            &&& forall|i: int|
                0 <= i < pairs.len() ==> #[trigger] form_pairs(body)[i] == (
                    form_text(pairs[i].0),
                    form_text(pairs[i].1),
                )
        }),
{
    let parts = Seq::new(pairs.len(), |i: int| written(pairs[i]));
    assert forall|i: int| 0 <= i < parts.len() implies !(#[trigger] parts[i]).contains('&') by {
        assert(!pairs[i].0.contains('&') && !pairs[i].1.contains('&'));
        if parts[i].contains('&') {
            let k = choose|k: int| 0 <= k < parts[i].len() && parts[i][k] == '&';
            let n = pairs[i].0.len() as int;
            if k < n {
                assert(pairs[i].0[k] == '&');
            } else if k > n {
                assert(pairs[i].1[k - n - 1] == '&');
            }
        }
    }
    parts_come_apart(parts, '&');
    pairs_of_written(pairs, parts);
}

/// A plus sign stands for a space, and every other character for itself.
pub proof fn a_plus_is_a_space(s: Text, i: int)
    requires
        0 <= i < s.len(),
    ensures
        spaced(s).len() == s.len(),
        s[i] == '+' ==> spaced(s)[i] == ' ',
        s[i] != '+' ==> spaced(s)[i] == s[i],
{
}

/// Any bytes decode to what they were before they were written with escapes.
pub proof fn escapes_are_undone(b: Seq<u8>)
    ensures
        decoded(encoded(b)) == b,
    decreases b.len(),
{
    if b.len() == 0 {
        assert(decoded(encoded(b)) =~= b);
    } else {
        let rest = b.skip(1);
        escapes_are_undone(rest);
        let (x, e) = (encoded_byte(b[0]), encoded(b));
        let more = encoded(rest);
        assert(b =~= seq![b[0]] + rest);
        if unreserved(b[0]) {
            assert(e[0] == b[0]);
            assert(e.skip(1) =~= more);
        } else {
            let v = b[0];
            assert(hex_byte(upper_hex(v / 16), upper_hex(v % 16)) == Some(v)) by {
                assert(v / 16 < 16 && v % 16 < 16 && v / 16 * 16 + v % 16 == v) by (bit_vector);
            }
            assert(e[0] == 37 && e[1] == upper_hex(v / 16) && e[2] == upper_hex(v % 16));
            assert(e.skip(3) =~= more);
        }
    }
}

/// The value of a key is that of the first pair with it; there is none where no
/// pair has it.
pub proof fn the_first_pair_counts(a: Seq<(Text, Text)>, key: Text, v: Text, b: Seq<(Text, Text)>)
    requires
        forall|i: int| 0 <= i < a.len() ==> (#[trigger] a[i]).0 != key,
    ensures
        first_value(a, key) is None,
        first_value(a + seq![(key, v)] + b, key) == Some(v),
    decreases a.len(),
{
    let s = a + seq![(key, v)] + b;
    if a.len() > 0 {
        let rest = a.skip(1);
        assert forall|i: int| 0 <= i < rest.len() implies (#[trigger] rest[i]).0 != key by {
            assert(rest[i] == a[i + 1]);
        }
        the_first_pair_counts(rest, key, v, b);
        assert(s.skip(1) =~= rest + seq![(key, v)] + b);
        assert(s[0] == a[0]);
    } else {
        assert(s[0] == (key, v));
    }
}

/// A request that is no form has its body for its query or update; a form has
/// the value of the field, and is refused without it.
pub proof fn bodies_are_read(content_type: Text, body: Text, v: Text)
    ensures
        is_form(content_type) <==> stands_in(content_type, "application/x-www-form-urlencoded"@),
        !is_form(content_type) ==> post_query(content_type, body) == Ok::<Text, Text>(body)
            && post_update(content_type, body) == Ok::<Text, Text>(body) && post_pairs(
            content_type,
            body,
        ).len() == 0,
        is_form(content_type) ==> {
            let pairs = form_pairs(body);
            &&& post_pairs(content_type, body) == pairs
            &&& post_query(content_type, body) == Ok::<Text, Text>(v) <==> first_value(
                pairs,
                "query"@,
            ) == Some(v)
            &&& post_query(content_type, body) is Err <==> first_value(pairs, "query"@) is None
            &&& post_update(content_type, body) == Ok::<Text, Text>(v) <==> first_value(
                pairs,
                "update"@,
            ) == Some(v)
            &&& post_update(content_type, body) is Err <==> first_value(pairs, "update"@) is None
        },
{
    a_text_is_found_where_it_stands(content_type, "application/x-www-form-urlencoded"@);
}

/// A query in the parameters is found there, and missed where it is not.
pub proof fn parameters_are_read(params: Seq<(Text, Text)>, v: Text)
    ensures
        get_query(params) == Ok::<Text, Text>(v) <==> first_value(params, "query"@) == Some(v),
        get_query(params) is Err <==> first_value(params, "query"@) is None,
{
}

/// The settings of a request are its pairs but for those of the protocol.
pub proof fn settings_are_the_other_pairs(pairs: Seq<(Text, Text)>, p: (Text, Text))
    ensures
        settings_of(pairs).contains(p) <==> pairs.contains(p) && p.0 != "query"@ && p.0
            != "default-graph-uri"@ && p.0 != "named-graph-uri"@,
    decreases pairs.len(),
{
    reveal(Seq::filter);
    if pairs.len() > 0 {
        let rest = pairs.drop_last();
        settings_are_the_other_pairs(rest, p);
        let (x, y) = (settings_of(rest), settings_of(pairs));
        assert(pairs.contains(p) <==> rest.contains(p) || pairs.last() == p) by {
            if pairs.contains(p) {
                let i = choose|i: int| 0 <= i < pairs.len() && pairs[i] == p;
                if i < rest.len() {
                    assert(rest[i] == p);
                }
            }
            if rest.contains(p) {
                let i = choose|i: int| 0 <= i < rest.len() && rest[i] == p;
                assert(pairs[i] == p);
            }
        }
        assert(x.push(pairs.last()).contains(p) <==> x.contains(p) || pairs.last() == p) by {
            let z = x.push(pairs.last());
            if z.contains(p) {
                let i = choose|i: int| 0 <= i < z.len() && z[i] == p;
                if i < x.len() {
                    assert(x[i] == p);
                }
            }
            if x.contains(p) {
                let i = choose|i: int| 0 <= i < x.len() && x[i] == p;
                assert(z[i] == p);
            }
            assert(z[x.len() as int] == pairs.last());
        }
        assert(y == x || y == x.push(pairs.last()));
    } else {
        assert(!settings_of(pairs).contains(p));
    }
}

// ── Graphs ──────────────────────────────────────────────────────────────────

/// Does some parameter have a key?
pub open spec fn has_key(params: Seq<(Text, Text)>, key: Text) -> bool {
    exists|i: int| 0 <= i < params.len() && (#[trigger] params[i]).0 == key
}

/// The value of a parameter is that of the last with its key; there is none
/// where no parameter has it.
pub proof fn the_last_parameter_counts(
    a: Seq<(Text, Text)>,
    key: Text,
    v: Text,
    b: Seq<(Text, Text)>,
)
    requires
        forall|i: int| 0 <= i < b.len() ==> (#[trigger] b[i]).0 != key,
    ensures
        last_value(b, key) is None,
        last_value(a + seq![(key, v)] + b, key) == Some(v),
    decreases b.len(),
{
    let s = a + seq![(key, v)] + b;
    if b.len() > 0 {
        let rest = b.drop_last();
        assert forall|i: int| 0 <= i < rest.len() implies (#[trigger] rest[i]).0 != key by {
            assert(rest[i] == b[i]);
        }
        the_last_parameter_counts(a, key, v, rest);
        assert(s.drop_last() =~= a + seq![(key, v)] + rest);
        assert(s.last() == b.last());
        assert(b[b.len() - 1].0 != key);
    } else {
        assert(s.last() == (key, v));
    }
}

proof fn keys_have_values(params: Seq<(Text, Text)>, key: Text)
    ensures
        last_value(params, key) is Some <==> has_key(params, key),
    decreases params.len(),
{
    if params.len() > 0 {
        let rest = params.drop_last();
        keys_have_values(rest, key);
        if has_key(rest, key) {
            let i = choose|i: int| 0 <= i < rest.len() && (#[trigger] rest[i]).0 == key;
            assert(params[i].0 == key);
        }
        if has_key(params, key) {
            let i = choose|i: int| 0 <= i < params.len() && (#[trigger] params[i]).0 == key;
            if i < rest.len() {
                assert(rest[i].0 == key);
            }
        }
        if params.last().0 == key {
            assert(params[params.len() - 1].0 == key);
        }
    }
}

proof fn unknown_keys(params: Seq<(Text, Text)>)
    ensures
        unknown_key(params) is None <==> forall|i: int|
            0 <= i < params.len() ==> (#[trigger] params[i]).0 == "graph"@ || params[i].0
                == "default"@,
    decreases params.len(),
{
    if params.len() > 0 {
        let rest = params.skip(1);
        unknown_keys(rest);
        assert forall|i: int| 0 <= i < rest.len() implies #[trigger] rest[i] == params[i + 1] by {}
        if unknown_key(params) is None {
            assert forall|i: int| 0 <= i < params.len() implies (#[trigger] params[i]).0
                == "graph"@ || params[i].0 == "default"@ by {
                if i > 0 {
                    assert(rest[i - 1] == params[i]);
                }
            }
        }
    }
}

/// Parameters name one graph: the default graph, or that of the value of
/// `graph`. They are refused where they name both or neither, where there is
/// another, and where something is wrong with the name.
pub proof fn parameters_name_one_graph(params: Seq<(Text, Text)>, fault: Option<Text>)
    ensures
        ({
            let known = forall|i: int|
                0 <= i < params.len() ==> (#[trigger] params[i]).0 == "graph"@ || params[i].0
                    == "default"@;
            let (named, default) = (has_key(params, "graph"@), has_key(params, "default"@));
            let t = target_given(params, fault);
            &&& t == Ok::<Option<Text>, Text>(None) <==> known && default && !named
            &&& t matches Ok(Some(g)) ==> known && named && !default && fault is None && last_value(
                params,
                "graph"@,
            ) == Some(g)
            &&& known && named && !default && fault is None ==> t is Ok
            &&& known && named && !default && fault is Some ==> t == Err::<Option<Text>, Text>(
                fault->0,
            )
        }),
{
    unknown_keys(params);
    keys_have_values(params, "graph"@);
    keys_have_values(params, "default"@);
}

/// The format of a body goes by what stands before the parameters of its
/// content type, in either case; without one it is Turtle.
pub proof fn parameters_of_a_content_type_do_not_count(m: Text, rest: Text)
    requires
        !m.contains(';'),
    ensures
        media_type(m + seq![';'] + rest) == media_type(m),
        extension_for(m + seq![';'] + rest) == extension_for(m),
        media_type(m) == lower(trimmed(m)),
        media_type(m) == "text/turtle"@ || media_type(m) == ""@ ==> extension_for(m) == Some(
            "ttl"@,
        ),
        media_type(m) != "text/turtle"@ && media_type(m) == "application/n-triples"@ && media_type(
            m,
        ) != ""@ ==> extension_for(m) == Some("nt"@),
        media_type(m) != "text/turtle"@ && media_type(m) != ""@ && media_type(m)
            != "application/n-triples"@ ==> extension_for(m) is None,
{
    cut_at_first(m, ';', rest);
    let s = m + seq![';'] + rest;
    assert(s.take(m.len() as int) =~= m);
    assert(m.take(m.len() as int) =~= m);
}

/// N-Triples are sent to those who mention them, in either case.
pub proof fn ntriples_are_asked_for(accept: Text)
    ensures
        accepts_ntriples(accept) <==> stands_in(lower(accept), "application/n-triples"@),
{
    a_text_is_found_where_it_stands(lower(accept), "application/n-triples"@);
}

/// Results are sent in the first of JSON, XML, CSV and TSV that is mentioned,
/// in either case, and in XML where none is.
pub proof fn the_first_format_mentioned_is_sent(accept: Text)
    ensures
        ({
            let a = lower(accept);
            let json = stands_in(a, "application/sparql-results+json"@) || stands_in(
                a,
                "application/json"@,
            );
            let xml = stands_in(a, "application/sparql-results+xml"@) || stands_in(
                a,
                "application/xml"@,
            );
            let csv = stands_in(a, "text/csv"@);
            let tsv = stands_in(a, "text/tab-separated-values"@) || stands_in(a, "tsv"@);
            &&& accepted(accept) == ResultFormat::Json <==> json
            &&& accepted(accept) == ResultFormat::Csv <==> !json && !xml && csv
            &&& accepted(accept) == ResultFormat::Tsv <==> !json && !xml && !csv && tsv
        }),
{
    let a = lower(accept);
    a_text_is_found_where_it_stands(a, "application/sparql-results+json"@);
    a_text_is_found_where_it_stands(a, "application/json"@);
    a_text_is_found_where_it_stands(a, "application/sparql-results+xml"@);
    a_text_is_found_where_it_stands(a, "application/xml"@);
    a_text_is_found_where_it_stands(a, "text/csv"@);
    a_text_is_found_where_it_stands(a, "text/tab-separated-values"@);
    a_text_is_found_where_it_stands(a, "tsv"@);
}

/// Lower case changes the capital letters, each to the small letter, and
/// nothing else.
pub proof fn lower_case_is_of_letters(c: char)
    ensures
        !('A' <= c && c <= 'Z') ==> lower_char(c) == c,
        'A' <= c && c <= 'Z' ==> 'a' <= lower_char(c) && lower_char(c) <= 'z' && lower_char(c)
            as int - 'a' as int == c as int - 'A' as int,
{
}

/// A literal of a document has its value, and the language or the datatype that
/// it was made with; one without either is a string.
pub proof fn literals_are_sent_whole(s: Text, lang: Text)
    requires
        lang.len() > 0 ==> !white(lang.last()),
    ensures
        rdf_term(plain_view(s)) == Some(
            RdfTermView::Typed(s, "http://www.w3.org/2001/XMLSchema#string"@),
        ),
        rdf_term(string_view(s)) == Some(
            RdfTermView::Typed(s, "http://www.w3.org/2001/XMLSchema#string"@),
        ),
        rdf_term(lang_view(s, lang)) == Some(RdfTermView::Tagged(s, lang)),
        rdf_term(TermView::Iri(s)) == Some(RdfTermView::Iri(s)),
        rdf_term(TermView::BlankNode(s)) == Some(RdfTermView::Blank(bare_label(s))),
{
    plain_literal_round_trips(s);
    string_literal_round_trips(s);
    lang_literal_round_trips(s, lang);
    unescape_inverts_escape(s);
    reveal_strlit("\"");
    let q = "\""@;
    if let TermView::Literal(x) = plain_view(s) {
        assert(x.subrange(0, 1) =~= q);
    }
    if let TermView::Literal(x) = string_view(s) {
        assert(x.subrange(0, 1) =~= q);
    }
    if let TermView::Literal(x) = lang_view(s, lang) {
        assert(x.subrange(0, 1) =~= q);
    }
}

/// A document has the triples of a graph that can stand in one: with an IRI or a
/// blank node before an IRI.
pub proof fn documents_have_the_triples(
    s: Seq<(TermView, TermView, TermView)>,
    t: RdfTripleView,
)
    ensures
        rdf_triples(s).contains(t) <==> exists|i: int|
            0 <= i < s.len() && is_sent_as(#[trigger] s[i], t),
        rdf_triples(s).len() <= s.len(),
    decreases s.len(),
{
    if s.len() > 0 {
        let rest = s.drop_last();
        documents_have_the_triples(rest, t);
        let (a, b) = (rdf_triples(rest), rdf_triples(s));
        assert(rdf_triple(s.last()) == Some(t) <==> is_sent_as(s.last(), t));
        if b.contains(t) {
            let k = choose|k: int| 0 <= k < b.len() && b[k] == t;
            if k < a.len() {
                assert(a[k] == t);
                let i = choose|i: int| 0 <= i < rest.len() && is_sent_as(#[trigger] rest[i], t);
                assert(is_sent_as(s[i], t));
            } else {
                assert(is_sent_as(s[s.len() - 1], t));
            }
        }
        if exists|i: int| 0 <= i < s.len() && is_sent_as(#[trigger] s[i], t) {
            let i = choose|i: int| 0 <= i < s.len() && is_sent_as(#[trigger] s[i], t);
            if i < rest.len() {
                assert(is_sent_as(rest[i], t));
                let k = choose|k: int| 0 <= k < a.len() && a[k] == t;
                assert(b[k] == t);
            } else {
                assert(b.last() == t);
            }
        }
    } else {
        assert(!rdf_triples(s).contains(t));
    }
}

/// Is a triple of a graph this triple of a document?
pub open spec fn is_sent_as(x: (TermView, TermView, TermView), t: RdfTripleView) -> bool {
    &&& x.0 is Iri || x.0 is BlankNode
    &&& x.1 is Iri
    &&& rdf_term(x.0) == Some(t.subject)
    &&& rdf_term(x.1) == Some(t.predicate)
    &&& rdf_term(x.2) == Some(t.object)
}

// ── Answers ─────────────────────────────────────────────────────────────────

/// Running out of time is answered otherwise than any other error, and a query
/// that was cancelled has run out of time.
pub proof fn time_outs_are_told_apart(e: ErrorView)
    ensures
        status_of(ErrorView::QueryTimeout) != status_of(e) <==> !(e is QueryTimeout),
        status_of(ErrorView::QueryTimeout) >= 500,
        !(e is QueryTimeout) ==> 400 <= status_of(e) < 500,
        classified(e, true) == ErrorView::QueryTimeout,
        classified(e, false) == e,
{
}

/// What went wrong ends the answer, and never well. Before anything was sent it
/// is refused with the error; later the answer breaks off, with what was kept
/// back and nothing more.
pub proof fn a_failure_ends_the_answer(s: StreamView, e: ErrorView, cancelled: bool)
    requires
        s.phase != Phase::Done,
    ensures
        ({
            let (next, action) = stepped(s, EventView::Failed(e), cancelled);
            let told = if cancelled {
                ErrorView::QueryTimeout
            } else {
                e
            };
            &&& next.phase == Phase::Done
            &&& !completes(action)
            &&& s.phase == Phase::First ==> action == ActionView::Refuse(told) && sent(
                action,
            ).len() == 0
            &&& s.phase == Phase::Second ==> sent(action) == s.head && (
            action matches ActionView::CommitAbort { head: _, error } && error == told)
            &&& s.phase == Phase::Later ==> action == ActionView::Abort(told)
        }),
{
}

/// An answer that is over stays so, and sends nothing more.
pub proof fn an_answer_over_sends_nothing(s: StreamView, e: EventView, cancelled: bool)
    requires
        s.phase == Phase::Done,
    ensures
        stepped(s, e, cancelled).0 == s,
        sent(stepped(s, e, cancelled).1).len() == 0,
        !completes(stepped(s, e, cancelled).1),
{
}

/// Rows beyond the limit are refused while nothing was sent, and break the
/// answer off later.
pub proof fn rows_beyond_the_limit_are_refused(s: StreamView, rows: Seq<Solution>, cancelled: bool)
    requires
        s.phase != Phase::Done,
    ensures
        ({
            let (next, action) = stepped(s, EventView::Rows(rows), cancelled);
            let limit = ErrorView::ResultRowLimit(s.max_rows);
            &&& s.emitted + rows.len() > s.max_rows ==> next.phase == Phase::Done && (if s.phase
                == Phase::Later {
                action == ActionView::Abort(limit)
            } else {
                action == ActionView::Refuse(limit)
            })
            &&& s.emitted + rows.len() <= s.max_rows ==> next.phase != Phase::Done && next.emitted
                == s.emitted + rows.len()
        }),
{
}

/// Triples are sent as lines, one behind the other.
pub proof fn triples_are_lines(a: Seq<(Text, Text, Text)>, b: Seq<(Text, Text, Text)>, t: (Text, Text, Text))
    ensures
        triple_lines(a + b) == triple_lines(a) + triple_lines(b),
        triple_lines(seq![t]) == seq!['<'] + t.0 + seq!['>', ' ', '<'] + t.1 + seq!['>', ' ', '<']
            + t.2 + seq!['>', ' ', '.', '\n'],
    decreases b.len(),
{
    reveal_strlit("<");
    reveal_strlit("> <");
    reveal_strlit("> .\n");
    let one = seq![t];
    assert(one.drop_last() =~= Seq::empty());
    assert(triple_lines(one.drop_last()) =~= Seq::empty());
    assert(one.last() == t);
    assert(triple_lines(one) =~= seq!['<'] + t.0 + seq!['>', ' ', '<'] + t.1 + seq!['>', ' ', '<']
        + t.2 + seq!['>', ' ', '.', '\n']);
    if b.len() == 0 {
        assert(a + b =~= a);
        assert(triple_lines(a) + triple_lines(b) =~= triple_lines(a));
    } else {
        triples_are_lines(a, b.drop_last(), t);
        assert((a + b).drop_last() =~= a + b.drop_last());
        assert((a + b).last() == b.last());
        assert(triple_lines(a + b) =~= triple_lines(a) + triple_lines(b));
    }
}

/// An answer is sent as what it is: solutions as the document of the format, a
/// truth value as a document that says it, triples as lines, and an explanation
/// as it is.
pub proof fn answers_are_sent_as_they_are(format: ResultFormat, a: QueryAnswer)
    ensures
        a matches QueryAnswer::Solutions { vars, rows } ==> answer_text(format, a) == document(
            format,
            texts(vars@),
            bindings_view(rows@),
        ) && answer_type(format, a) == format.media_type(),
        a matches QueryAnswer::Boolean(b) ==> {
            &&& format == ResultFormat::Json <==> answer_type(format, a)
                == "application/sparql-results+json"@
            &&& format != ResultFormat::Json <==> answer_type(format, a)
                == "application/sparql-results+xml"@
            &&& format == ResultFormat::Json ==> stands_in(
                answer_text(format, a),
                if b {
                    "true"@
                } else {
                    "false"@
                },
            )
            &&& format != ResultFormat::Json ==> stands_in(
                answer_text(format, a),
                "<boolean>"@ + (if b {
                    "true"@
                } else {
                    "false"@
                }) + "</boolean>"@,
            )
        },
        a matches QueryAnswer::Triples(s) ==> answer_text(format, a) == triple_lines(
            triples_view(s@),
        ) && answer_type(format, a) == "application/n-triples"@,
        a matches QueryAnswer::Explanation { text, json } ==> answer_text(format, a) == text@ && (
        json <==> answer_type(format, a) == "application/json"@),
{
    reveal_strlit("application/sparql-results+json");
    reveal_strlit("application/sparql-results+xml");
    reveal_strlit("application/json");
    reveal_strlit("text/plain; charset=utf-8");
    assert("application/sparql-results+json"@[27] == 'j');
    assert("application/sparql-results+xml"@[27] == 'x');
    assert("application/json"@[0] == 'a' && "text/plain; charset=utf-8"@[0] == 't');
    if let QueryAnswer::Boolean(b) = a {
        let s = answer_text(format, a);
        reveal_strlit("{\"boolean\":true,\"head\":{}}");
        reveal_strlit("{\"boolean\":false,\"head\":{}}");
        reveal_strlit("true");
        reveal_strlit("false");
        reveal_strlit("  <boolean>");
        reveal_strlit("<boolean>");
        reveal_strlit("</boolean>\n");
        reveal_strlit("</boolean>");
        let word = if b {
            "true"@
        } else {
            "false"@
        };
        if format == ResultFormat::Json {
            let n = 11 + word.len() as int;
            assert(s =~= s.take(11) + word + s.skip(n));
        } else {
            let front = "<?xml version=\"1.0\"?>"@
                + "\n<sparql xmlns=\"http://www.w3.org/2005/sparql-results#\">\n"@
                + "  <head/>\n"@ + seq![' ', ' '];
            let back = seq!['\n'] + "</sparql>\n"@;
            assert(s =~= front + ("<boolean>"@ + word + "</boolean>"@) + back);
        }
    }
}

}
