//! URL parameters and form bodies.

use crate::percent::{decoded_text, percent_decode};
use crate::text::{chars_of, contains_text, find_from, push_char, same_text, slice_text, Text};
use vstd::prelude::*;
use vstd::string::*;

verus! {

/// A key and its value.
pub type Pair = (String, String);

pub open spec fn pair_view(p: Pair) -> (Text, Text) {
    (p.0@, p.1@)
}

pub open spec fn pairs_view(s: Seq<Pair>) -> Seq<(Text, Text)> {
    Seq::new(s.len(), |i: int| pair_view(s[i]))
}

// ── Splitting ───────────────────────────────────────────────────────────────

/// The number of characters before the first `c`; all of them where there is
/// none.
pub open spec fn before_char(s: Text, c: char) -> nat
    decreases s.len(),
{
    if s.len() == 0 || s[0] == c {
        0
    } else {
        1 + before_char(s.skip(1), c)
    }
}

/// It is in range, and the first place of the character.
pub proof fn before_char_facts(s: Text, c: char)
    ensures
        before_char(s, c) <= s.len(),
        before_char(s, c) < s.len() ==> s[before_char(s, c) as int] == c,
        forall|j: int| 0 <= j < before_char(s, c) ==> s[j] != c,
    decreases s.len(),
{
    if s.len() > 0 && s[0] != c {
        let rest = s.skip(1);
        before_char_facts(rest, c);
        assert forall|j: int| 0 <= j < before_char(s, c) implies s[j] != c by {
            if j > 0 {
                assert(rest[j - 1] == s[j]);
            }
        }
    }
}

/// The parts of a text between the `c`s.
pub open spec fn pieces(s: Text, c: char) -> Seq<Text>
    decreases s.len(),
{
    let n = before_char(s, c);
    if n < s.len() {
        seq![s.take(n as int)] + pieces(s.skip(n as int + 1), c)
    } else {
        seq![s]
    }
}

/// The place of the next `c`, or the end.
fn next_char(cs: &Vec<char>, from: usize, c: char) -> (r: usize)
    requires
        from <= cs@.len(),
    ensures
        from <= r <= cs@.len(),
        r - from == before_char(cs@.skip(from as int), c),
{
    let mut i: usize = from;
    while i < cs.len() && cs[i] != c
        invariant
            from <= i <= cs@.len(),
            before_char(cs@.skip(from as int), c) == (i - from) + before_char(
                cs@.skip(i as int),
                c,
            ),
        decreases cs@.len() - i,
    {
        assert(cs@.skip(i as int).skip(1) =~= cs@.skip(i + 1));
        assert(cs@.skip(i as int)[0] == cs@[i as int]);
        i = i + 1;
    }
    i
}

// ── Pairs ───────────────────────────────────────────────────────────────────

/// A form's text with its spaces.
pub open spec fn spaced(s: Text) -> Text {
    s.map_values(
        |c: char|
            if c == '+' {
                ' '
            } else {
                c
            },
    )
}

/// A form's text, decoded.
pub open spec fn form_text(s: Text) -> Text {
    decoded_text(spaced(s))
}

fn decode_form(s: &str) -> (r: String)
    ensures
        r@ == form_text(s@),
{
    let cs = chars_of(s);
    let mut out = String::new();
    let mut i: usize = 0;
    assert(spaced(s@).take(0) =~= Seq::empty());
    while i < cs.len()
        invariant
            i <= cs@.len(),
            cs@ == s@,
            out@ == spaced(s@).take(i as int),
        decreases cs@.len() - i,
    {
        push_char(
            &mut out,
            if cs[i] == '+' {
                ' '
            } else {
                cs[i]
            },
        );
        assert(spaced(s@).take(i + 1) =~= spaced(s@).take(i as int).push(spaced(s@)[i as int]));
        i = i + 1;
    }
    assert(spaced(s@).take(s@.len() as int) =~= spaced(s@));
    percent_decode(out.as_str())
}

/// The pair that a part of a form writes. A part without `=` writes none.
pub open spec fn pair_of(piece: Text) -> Option<(Text, Text)> {
    let n = before_char(piece, '=');
    if n < piece.len() {
        Some((form_text(piece.take(n as int)), form_text(piece.skip(n as int + 1))))
    } else {
        None
    }
}

/// The pairs that the parts of a form write.
pub open spec fn pairs_of(parts: Seq<Text>) -> Seq<(Text, Text)>
    decreases parts.len(),
{
    if parts.len() == 0 {
        Seq::empty()
    } else {
        let rest = pairs_of(parts.skip(1));
        match pair_of(parts[0]) {
            Some(p) => seq![p] + rest,
            None => rest,
        }
    }
}

/// The pairs of a form body.
pub open spec fn form_pairs(body: Text) -> Seq<(Text, Text)> {
    pairs_of(pieces(body, '&'))
}

/// Reads the pairs of a form body, in order.
pub fn url_form_pairs(body: &str) -> (out: Vec<Pair>)
    ensures
        pairs_view(out@) == form_pairs(body@),
{
    let cs = chars_of(body);
    let n: usize = cs.len();
    let mut out: Vec<Pair> = Vec::new();
    let mut from: usize = 0;
    let mut more = true;
    assert(cs@.skip(0) =~= cs@);
    assert(pairs_view(out@) + form_pairs(body@) =~= form_pairs(body@));
    while more
        invariant
            cs@ == body@,
            n == cs@.len(),
            from <= n,
            more ==> pairs_view(out@) + pairs_of(pieces(cs@.skip(from as int), '&')) == form_pairs(
                body@,
            ),
            !more ==> pairs_view(out@) == form_pairs(body@),
        decreases (if more {
            n - from + 1
        } else {
            0
        }),
    {
        let ghost rest = cs@.skip(from as int);
        let ghost done = pairs_view(out@);
        let end: usize = next_char(&cs, from, '&');
        proof {
            before_char_facts(rest, '&');
        }
        let ghost piece = cs@.subrange(from as int, end as int);
        let ghost parts = pieces(rest, '&');
        let eq: usize = next_char_upto(&cs, from, end, '=');
        if eq < end {
            let key = decode_form(slice_text(&cs, from, eq).as_str());
            let value = decode_form(slice_text(&cs, eq + 1, end).as_str());
            out.push((key, value));
            proof {
                assert(piece.take(eq - from) =~= cs@.subrange(from as int, eq as int));
                assert(piece.skip(eq - from + 1) =~= cs@.subrange(eq + 1, end as int));
                assert(pairs_view(out@) =~= done.push(pair_view(out@.last())));
                assert(pair_of(piece) == Some(pair_view(out@.last())));
            }
        } else {
            assert(pair_of(piece) is None);
        }
        proof {
            if end < n {
                assert(rest.take(end - from) =~= piece);
                assert(rest.skip(end - from + 1) =~= cs@.skip(end + 1));
                assert(parts[0] == piece);
                assert(parts.skip(1) =~= pieces(cs@.skip(end + 1), '&'));
                assert(pairs_view(out@) + pairs_of(parts.skip(1)) =~= done + pairs_of(parts));
            } else {
                assert(piece =~= rest);
                assert(parts =~= seq![piece]);
                assert(parts[0] == piece);
                assert(parts.skip(1) =~= Seq::empty());
                assert(pairs_of(parts.skip(1)) =~= Seq::empty());
                assert(pairs_view(out@) =~= done + pairs_of(parts));
            }
        }
        if end < n {
            from = end + 1;
        } else {
            more = false;
        }
    }
    out
}

/// The place of the next `c` within a part, or its end.
fn next_char_upto(cs: &Vec<char>, from: usize, to: usize, c: char) -> (r: usize)
    requires
        from <= to <= cs@.len(),
    ensures
        from <= r <= to,
        r - from == before_char(cs@.subrange(from as int, to as int), c),
{
    let mut i: usize = from;
    while i < to && cs[i] != c
        invariant
            from <= i <= to,
            to <= cs@.len(),
            before_char(cs@.subrange(from as int, to as int), c) == (i - from) + before_char(
                cs@.subrange(i as int, to as int),
                c,
            ),
        decreases to - i,
    {
        assert(cs@.subrange(i as int, to as int).skip(1) =~= cs@.subrange(i + 1, to as int));
        assert(cs@.subrange(i as int, to as int)[0] == cs@[i as int]);
        i = i + 1;
    }
    i
}

/// The value of a key: the first, where it is given more than once.
pub open spec fn first_value(pairs: Seq<(Text, Text)>, key: Text) -> Option<Text>
    decreases pairs.len(),
{
    if pairs.len() == 0 {
        None
    } else if pairs[0].0 == key {
        Some(pairs[0].1)
    } else {
        first_value(pairs.skip(1), key)
    }
}

/// The value of a key.
pub fn param<'a>(params: &'a Vec<Pair>, key: &str) -> (r: Option<&'a str>)
    ensures
        match r {
            Some(v) => first_value(pairs_view(params@), key@) == Some(v@),
            None => first_value(pairs_view(params@), key@) is None,
        },
{
    let ghost pv = pairs_view(params@);
    let mut i: usize = 0;
    assert(pv.skip(0) =~= pv);
    while i < params.len()
        invariant
            i <= params@.len(),
            pv == pairs_view(params@),
            first_value(pv, key@) == first_value(pv.skip(i as int), key@),
        decreases params@.len() - i,
    {
        proof {
            assert(pv.skip(i as int)[0] == pair_view(params@[i as int]));
            assert(pv.skip(i as int).skip(1) =~= pv.skip(i + 1));
        }
        if same_text(params[i].0.as_str(), key) {
            return Some(params[i].1.as_str());
        }
        i = i + 1;
    }
    None
}

/// The value of a field of a form body.
pub fn url_form_field(body: &str, key: &str) -> (r: Option<String>)
    ensures
        match r {
            Some(v) => first_value(form_pairs(body@), key@) == Some(v@),
            None => first_value(form_pairs(body@), key@) is None,
        },
{
    let pairs = url_form_pairs(body);
    match param(&pairs, key) {
        Some(v) => Some(v.to_owned()),
        None => None,
    }
}

/// Is a request body a form, by its content type?
pub open spec fn is_form(content_type: Text) -> bool {
    find_from(content_type, "application/x-www-form-urlencoded"@, 0) is Some
}

pub fn form_encoded(content_type: &str) -> (r: bool)
    ensures
        r == is_form(content_type@),
{
    contains_text(content_type, "application/x-www-form-urlencoded")
}

// ── Overrides ───────────────────────────────────────────────────────────────

/// Is a key of a query request one of the protocol, and no setting?
pub open spec fn is_protocol_key(key: Text) -> bool {
    key == "query"@ || key == "default-graph-uri"@ || key == "named-graph-uri"@
}

fn protocol_key(key: &str) -> (r: bool)
    ensures
        r == is_protocol_key(key@),
{
    same_text(key, "query") || same_text(key, "default-graph-uri") || same_text(
        key,
        "named-graph-uri",
    )
}

/// The settings among the pairs of a request.
pub open spec fn settings_of(pairs: Seq<(Text, Text)>) -> Seq<(Text, Text)> {
    pairs.filter(|p: (Text, Text)| !is_protocol_key(p.0))
}

/// The settings of a request in the order they apply: those of the URL, then
/// those of the body, so that the body wins.
pub fn setting_overrides(url: &Vec<Pair>, body: &Vec<Pair>) -> (out: Vec<Pair>)
    ensures
        pairs_view(out@) == settings_of(pairs_view(url@)) + settings_of(pairs_view(body@)),
{
    let mut out: Vec<Pair> = Vec::new();
    add_settings(url, &mut out);
    assert(pairs_view(out@) =~= settings_of(pairs_view(url@)));
    add_settings(body, &mut out);
    out
}

fn add_settings(pairs: &Vec<Pair>, out: &mut Vec<Pair>)
    ensures
        pairs_view(final(out)@) == pairs_view(old(out)@) + settings_of(pairs_view(pairs@)),
{
    let ghost pv = pairs_view(pairs@);
    let ghost start = pairs_view(out@);
    let ghost kept = |p: (Text, Text)| !is_protocol_key(p.0);
    let mut i: usize = 0;
    proof {
        reveal(Seq::filter);
        assert(pv.take(0).filter(kept) =~= Seq::empty());
    }
    assert(pairs_view(out@) =~= start + settings_of(pv.take(0)));
    while i < pairs.len()
        invariant
            i <= pairs@.len(),
            pv == pairs_view(pairs@),
            kept == (|p: (Text, Text)| !is_protocol_key(p.0)),
            pairs_view(out@) == start + settings_of(pv.take(i as int)),
        decreases pairs@.len() - i,
    {
        proof {
            reveal(Seq::filter);
            assert(pv.take(i + 1).drop_last() =~= pv.take(i as int));
            assert(pv.take(i + 1).last() == pair_view(pairs@[i as int]));
        }
        if !protocol_key(pairs[i].0.as_str()) {
            let ghost before = pairs_view(out@);
            let p = (pairs[i].0.clone(), pairs[i].1.clone());
            out.push(p);
            assert(pairs_view(out@) =~= before.push(pair_view(pairs@[i as int])));
        }
        assert(pairs_view(out@) =~= start + settings_of(pv.take(i + 1)));
        i = i + 1;
    }
    assert(pv.take(pv.len() as int) =~= pv);
}

// ── Request texts ───────────────────────────────────────────────────────────

/// The query of a `GET` request, or what is missing.
pub open spec fn get_query(params: Seq<(Text, Text)>) -> Result<Text, Text> {
    match first_value(params, "query"@) {
        Some(q) => Ok(q),
        None => Err("missing `query` parameter"@),
    }
}

pub open spec fn result_view(r: Result<String, String>) -> Result<Text, Text> {
    match r {
        Ok(s) => Ok(s@),
        Err(s) => Err(s@),
    }
}

/// The query of a `GET` request.
pub fn query_of_get(params: &Vec<Pair>) -> (r: Result<String, String>)
    ensures
        result_view(r) == get_query(pairs_view(params@)),
{
    match param(params, "query") {
        Some(q) => Ok(q.to_owned()),
        None => Err("missing `query` parameter".to_owned()),
    }
}

/// The query of a `POST` request: the field of a form, or else the body.
pub open spec fn post_query(content_type: Text, body: Text) -> Result<Text, Text> {
    if is_form(content_type) {
        match first_value(form_pairs(body), "query"@) {
            Some(q) => Ok(q),
            None => Err("form missing `query`"@),
        }
    } else {
        Ok(body)
    }
}

/// The settings that the body of a `POST` request may give.
pub open spec fn post_pairs(content_type: Text, body: Text) -> Seq<(Text, Text)> {
    if is_form(content_type) {
        form_pairs(body)
    } else {
        Seq::empty()
    }
}

/// The query of a `POST` request, with the pairs of its body.
pub fn query_of_post(content_type: &str, body: &str) -> (r: (Result<String, String>, Vec<Pair>))
    ensures
        result_view(r.0) == post_query(content_type@, body@),
        pairs_view(r.1@) == post_pairs(content_type@, body@),
{
    if form_encoded(content_type) {
        let pairs = url_form_pairs(body);
        let q = match param(&pairs, "query") {
            Some(q) => Ok(q.to_owned()),
            None => Err("form missing `query`".to_owned()),
        };
        (q, pairs)
    } else {
        let none: Vec<Pair> = Vec::new();
        assert(pairs_view(none@) =~= Seq::empty());
        (Ok(body.to_owned()), none)
    }
}

/// The update of a request: the field of a form, or else the body.
pub open spec fn post_update(content_type: Text, body: Text) -> Result<Text, Text> {
    if is_form(content_type) {
        match first_value(form_pairs(body), "update"@) {
            Some(u) => Ok(u),
            None => Err("form missing `update`"@),
        }
    } else {
        Ok(body)
    }
}

/// The update of a request.
pub fn update_of_post(content_type: &str, body: &str) -> (r: Result<String, String>)
    ensures
        result_view(r) == post_update(content_type@, body@),
{
    if form_encoded(content_type) {
        match url_form_field(body, "update") {
            Some(u) => Ok(u),
            None => Err("form missing `update`".to_owned()),
        }
    } else {
        Ok(body.to_owned())
    }
}

}
