//! String literals by kind, effective boolean values, and the fields of a
//! date-time.

use crate::algebra::{opt_term_view, Term, TermView};
use crate::exec::literal::{
    is_numeric_datatype, kind_of, lang_literal, lang_literal_round_trips, lang_view, lex, lex_of,
    literal_parts, literal_value, numeric_datatype, parts_of, plain_literal,
    plain_literal_round_trips, plain_view, string_literal_round_trips, string_view, tags_are_tight,
    term_kind, typed_string_literal, value_of, TermKind,
};
use crate::exec::number::{i64_of, parse_i64, Numbers};
use crate::text::{
    chars_of, find_chars, find_from, find_from_facts, occurs_at, same_text, slice_text, starts, starts_with,
    text_of, trim, trimmed, Text,
};
use vstd::prelude::*;
use vstd::string::*;
use vstd::utf8::encode_utf8;

verus! {

/// The kind of a string literal.
#[derive(Debug, PartialEq, Eq)]
pub enum StrKind {
    /// Neither a language tag nor a datatype.
    Simple,
    Lang(String),
    XsdString,
}

#[verifier::ext_equal]
pub enum StrKindView {
    Simple,
    Lang(Text),
    XsdString,
}

impl StrKind {
    pub open spec fn view(&self) -> StrKindView {
        match *self {
            StrKind::Simple => StrKindView::Simple,
            StrKind::Lang(l) => StrKindView::Lang(l@),
            StrKind::XsdString => StrKindView::XsdString,
        }
    }

    fn same(&self, other: &StrKind) -> (r: bool)
        ensures
            r == (self@ == other@),
    {
        match (self, other) {
            (StrKind::Simple, StrKind::Simple) => true,
            (StrKind::XsdString, StrKind::XsdString) => true,
            (StrKind::Lang(a), StrKind::Lang(b)) => *a == *b,
            _ => false,
        }
    }
}

impl Clone for StrKind {
    fn clone(&self) -> (r: StrKind)
        ensures
            r@ == self@,
    {
        match self {
            StrKind::Simple => StrKind::Simple,
            StrKind::Lang(l) => StrKind::Lang(l.clone()),
            StrKind::XsdString => StrKind::XsdString,
        }
    }
}

/// The kind of a term as a string literal; a term that is no literal, or a
/// literal of another datatype, has none.
pub open spec fn str_kind_of(t: TermView) -> Option<StrKindView> {
    let p = parts_of(lex_of(t));
    if kind_of(t) != TermKind::Literal {
        None
    } else {
        match (p.lang, p.datatype) {
            (Some(l), _) => Some(StrKindView::Lang(l)),
            (None, None) => Some(StrKindView::Simple),
            (None, Some(dt)) => if dt == "http://www.w3.org/2001/XMLSchema#string"@ {
                Some(StrKindView::XsdString)
            } else {
                None
            },
        }
    }
}

pub open spec fn opt_kind(o: Option<StrKind>) -> Option<StrKindView> {
    match o {
        Some(k) => Some(k@),
        None => None,
    }
}

pub fn str_kind(t: &Term) -> (r: Option<StrKind>)
    ensures
        opt_kind(r) == str_kind_of(t@),
{
    if term_kind(t) != TermKind::Literal {
        return None;
    }
    let raw = lex(t);
    let (_value, lang, dt) = literal_parts(raw.as_str());
    match lang {
        Some(l) => Some(StrKind::Lang(l)),
        None => match dt {
            None => Some(StrKind::Simple),
            Some(d) => if same_text(d.as_str(), "http://www.w3.org/2001/XMLSchema#string") {
                Some(StrKind::XsdString)
            } else {
                None
            },
        },
    }
}

/// The literal of a kind with a lexical value.
pub open spec fn of_kind(value: Text, kind: StrKindView) -> TermView {
    match kind {
        StrKindView::Simple => plain_view(value),
        StrKindView::Lang(l) => lang_view(value, l),
        StrKindView::XsdString => string_view(value),
    }
}

pub fn literal_with_kind(value: &str, kind: &StrKind) -> (r: Term)
    ensures
        r@ == of_kind(value@, kind@),
{
    match kind {
        StrKind::Simple => plain_literal(value),
        StrKind::Lang(l) => lang_literal(value, l.as_str()),
        StrKind::XsdString => typed_string_literal(value),
    }
}

pub open spec fn kinds_view(s: Seq<StrKind>) -> Seq<StrKindView> {
    s.map_values(|k: StrKind| k@)
}

/// The kind of a concatenation: the kind all its parts share, else simple.
pub open spec fn shared_kind(kinds: Seq<StrKindView>) -> StrKindView {
    if kinds.len() > 0 && (forall|i: int|
        0 <= i < kinds.len() ==> #[trigger] kinds[i] == kinds[0]) {
        kinds[0]
    } else {
        StrKindView::Simple
    }
}

pub fn concat_kind(kinds: &Vec<StrKind>) -> (r: StrKind)
    ensures
        r@ == shared_kind(kinds_view(kinds@)),
{
    let ghost ks = kinds_view(kinds@);
    if kinds.len() == 0 {
        return StrKind::Simple;
    }
    let mut i: usize = 0;
    while i < kinds.len()
        invariant
            0 <= i <= kinds@.len(),
            kinds@.len() > 0,
            ks == kinds_view(kinds@),
            forall|j: int| 0 <= j < i ==> #[trigger] ks[j] == ks[0],
        decreases kinds@.len() - i,
    {
        if !kinds[i].same(&kinds[0]) {
            assert(ks[i as int] != ks[0]);
            return StrKind::Simple;
        }
        i = i + 1;
    }
    kinds[0].clone()
}

/// May the second string be looked for in the first?
pub open spec fn compatible(a: StrKindView, b: StrKindView) -> bool {
    match (a, b) {
        (StrKindView::Lang(x), StrKindView::Lang(y)) => x == y,
        (_, StrKindView::Lang(_)) => false,
        _ => true,
    }
}

pub fn str_args_compatible(a: &StrKind, b: &StrKind) -> (r: bool)
    ensures
        r == compatible(a@, b@),
{
    match (a, b) {
        (StrKind::Lang(x), StrKind::Lang(y)) => *x == *y,
        (StrKind::Lang(_), _) => true,
        (_, StrKind::Lang(_)) => false,
        _ => true,
    }
}

/// What stands before (or after) the first occurrence of one string literal
/// in another, as a literal of the latter's kind; an empty simple literal
/// where it does not occur.
pub open spec fn before_after(hay: TermView, needle: TermView, before: bool) -> Option<TermView> {
    match (str_kind_of(hay), str_kind_of(needle)) {
        (Some(hk), Some(nk)) => if !compatible(hk, nk) {
            None
        } else {
            let h = value_of(hay);
            let n = value_of(needle);
            Some(
                match find_from(h, n, 0) {
                    Some(i) => of_kind(
                        if before {
                            h.take(i)
                        } else {
                            h.skip(i + n.len())
                        },
                        hk,
                    ),
                    None => plain_view(Seq::empty()),
                },
            )
        },
        _ => None,
    }
}

pub fn str_before_after(hay: &Term, needle: &Term, before: bool) -> (r: Option<Term>)
    ensures
        opt_term_view(r) == before_after(hay@, needle@, before),
{
    let hay_kind = match str_kind(hay) {
        Some(k) => k,
        None => return None,
    };
    let needle_kind = match str_kind(needle) {
        Some(k) => k,
        None => return None,
    };
    if !str_args_compatible(&hay_kind, &needle_kind) {
        return None;
    }
    let hay_value = literal_value(hay);
    let needle_value = literal_value(needle);
    let h = chars_of(hay_value.as_str());
    let n = chars_of(needle_value.as_str());
    proof {
        find_from_facts(h@, n@, 0);
    }
    match find_chars(h.as_slice(), n.as_slice()) {
        Some(i) => {
            let end: usize = h.len();
            let piece = if before {
                slice_text(h.as_slice(), 0, i)
            } else {
                slice_text(h.as_slice(), i + n.len(), end)
            };
            assert(before ==> piece@ =~= h@.take(i as int));
            assert(!before ==> piece@ =~= h@.skip(i + n@.len()));
            Some(literal_with_kind(piece.as_str(), &hay_kind))
        },
        None => {
            proof {
                reveal_strlit("");
                assert(""@ =~= Seq::<char>::empty());
            }
            Some(plain_literal(""))
        },
    }
}

/// A literal of a kind reads back as it was made: its value and its kind.
pub proof fn a_kind_reads_back(hay: TermView, value: Text)
    requires
        str_kind_of(hay) is Some,
    ensures
        ({
            let t = of_kind(value, str_kind_of(hay)->0);
            value_of(t) == value && str_kind_of(t) == str_kind_of(hay)
        }),
{
    match str_kind_of(hay)->0 {
        StrKindView::Simple => plain_literal_round_trips(value),
        StrKindView::Lang(l) => {
            tags_are_tight(lex_of(hay));
            lang_literal_round_trips(value, l);
        },
        StrKindView::XsdString => string_literal_round_trips(value),
    }
}

/// What stands before and after an occurrence has the kind of the whole, and
/// the three make it up; the occurrence is the first. Without one, both are
/// the empty simple literal.
pub proof fn before_and_after_make_the_whole(hay: TermView, needle: TermView)
    requires
        str_kind_of(hay) is Some,
        str_kind_of(needle) is Some,
        compatible(str_kind_of(hay)->0, str_kind_of(needle)->0),
    ensures
        ({
            let (h, n) = (value_of(hay), value_of(needle));
            let (b, a) = (before_after(hay, needle, true), before_after(hay, needle, false));
            &&& b is Some && a is Some
            &&& (exists|i: int| #[trigger] occurs_at(h, n, i)) ==> {
                &&& str_kind_of(b->0) == str_kind_of(hay)
                &&& str_kind_of(a->0) == str_kind_of(hay)
                &&& value_of(b->0) + n + value_of(a->0) == h
                &&& occurs_at(h, n, value_of(b->0).len() as int)
                &&& forall|j: int| 0 <= j < value_of(b->0).len() ==> !#[trigger] occurs_at(h, n, j)
                &&& n.len() == 0 ==> value_of(b->0).len() == 0
            }
            &&& !(exists|i: int| #[trigger] occurs_at(h, n, i)) ==> b == Some(
                plain_view(Seq::empty()),
            ) && a == b
        }),
{
    let (h, n) = (value_of(hay), value_of(needle));
    find_from_facts(h, n, 0);
    if let Some(i) = find_from(h, n, 0) {
        a_kind_reads_back(hay, h.take(i));
        a_kind_reads_back(hay, h.skip(i + n.len()));
        assert(occurs_at(h, n, i));
        assert(h.take(i) + n + h.skip(i + n.len()) =~= h);
        if n.len() == 0 {
            assert(h.subrange(0, 0) =~= n);
            assert(occurs_at(h, n, 0));
        }
    } else {
        assert forall|i: int| !#[trigger] occurs_at(h, n, i) by {
            if i < 0 && occurs_at(h, n, i) {
                assert(false);
            }
        }
    }
}

// ── Effective boolean values ────────────────────────────────────────────────

/// The effective boolean value of a term. An unquoted literal is an internal
/// result and read by its text; a quoted one by its datatype. Anything without
/// a boolean value is false.
pub open spec fn truth_of<N: Numbers>(t: TermView) -> bool {
    let raw = lex_of(t);
    let p = parts_of(raw);
    if kind_of(t) != TermKind::Literal {
        false
    } else if !starts(raw, "\""@) {
        if raw == "true"@ {
            true
        } else if raw == "false"@ {
            false
        } else {
            match N::parsed(trimmed(raw)) {
                Some(n) => !N::is_zero(n),
                None => raw.len() > 0,
            }
        }
    } else {
        match p.datatype {
            None => p.value.len() > 0,
            Some(dt) => if dt == "http://www.w3.org/2001/XMLSchema#boolean"@ {
                p.value == "true"@ || p.value == "1"@
            } else if numeric_datatype(dt) {
                match N::parsed(trimmed(p.value)) {
                    Some(n) => !N::is_zero(n) && !N::unordered(n),
                    None => false,
                }
            } else if dt == "http://www.w3.org/2001/XMLSchema#string"@ {
                p.value.len() > 0
            } else {
                false
            },
        }
    }
}

pub fn ebv<N: Numbers>(t: &Term) -> (r: bool)
    ensures
        r == truth_of::<N>(t@),
{
    if term_kind(t) != TermKind::Literal {
        return false;
    }
    let raw = lex(t);
    if !starts_with(raw.as_str(), "\"") {
        if same_text(raw.as_str(), "true") {
            return true;
        }
        if same_text(raw.as_str(), "false") {
            return false;
        }
        let s = trim(raw.as_str());
        return match N::parse(s.as_str()) {
            Some(n) => !N::equals_zero(&n),
            None => !raw.as_str().is_empty(),
        };
    }
    let (value, _lang, datatype) = literal_parts(raw.as_str());
    match datatype {
        None => !value.as_str().is_empty(),
        Some(dt) => if same_text(dt.as_str(), "http://www.w3.org/2001/XMLSchema#boolean") {
            same_text(value.as_str(), "true") || same_text(value.as_str(), "1")
        } else if is_numeric_datatype(dt.as_str()) {
            let s = trim(value.as_str());
            match N::parse(s.as_str()) {
                Some(n) => !N::equals_zero(&n) && !N::is_unordered(&n),
                None => false,
            }
        } else if same_text(dt.as_str(), "http://www.w3.org/2001/XMLSchema#string") {
            !value.as_str().is_empty()
        } else {
            false
        },
    }
}

// ── Date-times ──────────────────────────────────────────────────────────────

/// Do the bytes of a text have the shape `YYYY-MM-DDThh:mm:ss…`? Only the year
/// is required to be digits.
pub open spec fn datetime_shaped(b: Seq<u8>) -> bool {
    b.len() >= 19 && b[4] == 45 && b[7] == 45 && (b[10] == 84 || b[10] == 32) && b[13] == 58
        && b[16] == 58 && (forall|i: int| 0 <= i < 4 ==> 48 <= #[trigger] b[i] && b[i] <= 57)
}

pub fn is_datetime(b: &[u8]) -> (r: bool)
    ensures
        r == datetime_shaped(b@),
{
    if b.len() < 19 {
        return false;
    }
    let year = 48 <= b[0] && b[0] <= 57 && 48 <= b[1] && b[1] <= 57 && 48 <= b[2] && b[2] <= 57
        && 48 <= b[3] && b[3] <= 57;
    b[4] == 45 && b[7] == 45 && (b[10] == 84 || b[10] == 32) && b[13] == 58 && b[16] == 58 && year
}

/// Bytes read as characters, one for one.
pub open spec fn byte_text(b: Seq<u8>) -> Text {
    Seq::new(b.len(), |i: int| b[i] as char)
}

/// The integer in a field of a date-time.
pub open spec fn datetime_field(b: Seq<u8>, from: int, to: int) -> Option<i64> {
    i64_of(byte_text(b.subrange(from, to)))
}

fn bytes_as_text(b: &[u8], from: usize, to: usize) -> (r: String)
    requires
        from <= to <= b@.len(),
    ensures
        r@ == byte_text(b@.subrange(from as int, to as int)),
{
    let mut cs: Vec<char> = Vec::new();
    let mut i: usize = from;
    while i < to
        invariant
            from <= i <= to <= b@.len(),
            cs@ == byte_text(b@.subrange(from as int, i as int)),
        decreases to - i,
    {
        cs.push(b[i] as char);
        i = i + 1;
        assert(cs@ =~= byte_text(b@.subrange(from as int, i as int)));
    }
    text_of(cs.as_slice())
}

pub fn read_datetime_field(b: &[u8], from: usize, to: usize) -> (r: Option<i64>)
    requires
        from <= to <= b@.len(),
    ensures
        r == datetime_field(b@, from as int, to as int),
{
    let s = bytes_as_text(b, from, to);
    parse_i64(s.as_str())
}

/// The end of the run of digits and points that starts at `i`.
pub open spec fn seconds_end(b: Seq<u8>, i: int) -> int
    decreases b.len() - i,
{
    if 0 <= i < b.len() && ((48 <= b[i] && b[i] <= 57) || b[i] == 46) {
        seconds_end(b, i + 1)
    } else {
        i
    }
}

/// The seconds of a date-time, with any fraction.
pub open spec fn seconds_text(b: Seq<u8>) -> Text {
    byte_text(b.subrange(17, seconds_end(b, 17)))
}

pub fn read_seconds(b: &[u8]) -> (r: String)
    requires
        b@.len() >= 17,
    ensures
        r@ == seconds_text(b@),
{
    let n: usize = b.len();
    let mut i: usize = 17;
    while i < n && ((48 <= b[i] && b[i] <= 57) || b[i] == 46)
        invariant
            17 <= i <= n,
            n == b@.len(),
            seconds_end(b@, 17) == seconds_end(b@, i as int),
        decreases n - i,
    {
        i = i + 1;
    }
    bytes_as_text(b, 17, i)
}

}
