//! Literals in N-Triples lexical form: taking them apart, putting them
//! together, and the escapes inside their quotes.

use crate::algebra::{Term, TermView};
use crate::exec::number::{integer_literal_string, integer_literal_text, Numbers};
use crate::text::{
    chars_of, push_char, same_text, slice_text, starts, starts_with, strip_prefix, trim, trim_back,
    trim_front, trimmed, white, Text,
};
use vstd::prelude::*;
use vstd::string::*;

verus! {

/// `char::from_u32`: the character of a Unicode scalar value; `None` for a
/// surrogate or a number past the last code point.
#[verifier::external_body]
fn char_of(u: u32) -> (r: Option<char>)
    ensures
        r == scalar_char(u),
{
    char::from_u32(u)
}

/// The character of a Unicode scalar value.
pub open spec fn scalar_char(u: u32) -> Option<char> {
    if u < 0xD800 || (0xE000 <= u && u <= 0x10FFFF) {
        Some(u as char)
    } else {
        None
    }
}

// ── Escapes ─────────────────────────────────────────────────────────────────

/// The escaped form of one character.
pub open spec fn escaped_char(c: char) -> Text {
    if c == '\\' {
        seq!['\\', '\\']
    } else if c == '"' {
        seq!['\\', '"']
    } else if c == '\n' {
        seq!['\\', 'n']
    } else if c == '\r' {
        seq!['\\', 'r']
    } else if c == '\t' {
        seq!['\\', 't']
    } else if c == '\u{0008}' {
        seq!['\\', 'b']
    } else if c == '\u{000C}' {
        seq!['\\', 'f']
    } else {
        seq![c]
    }
}

/// The escaped form of a text.
pub open spec fn escaped(s: Text) -> Text
    decreases s.len(),
{
    if s.len() == 0 {
        Seq::empty()
    } else {
        escaped_char(s[0]) + escaped(s.drop_first())
    }
}

/// Is the character a hexadecimal digit?
pub open spec fn is_hex(c: char) -> bool {
    ('0' <= c && c <= '9') || ('a' <= c && c <= 'f') || ('A' <= c && c <= 'F')
}

pub open spec fn hex_digit(c: char) -> int {
    if '0' <= c && c <= '9' {
        c as u32 as int - 48
    } else if 'a' <= c && c <= 'f' {
        c as u32 as int - 87
    } else {
        c as u32 as int - 55
    }
}

pub open spec fn hex_value(s: Text) -> int
    decreases s.len(),
{
    if s.len() == 0 {
        0
    } else {
        hex_value(s.drop_last()) * 16 + hex_digit(s.last())
    }
}

pub open spec fn all_hex(s: Text) -> bool {
    forall|i: int| 0 <= i < s.len() ==> is_hex(#[trigger] s[i])
}

/// The number at most eight characters spell in hexadecimal: an optional plus
/// sign and at least one digit.
pub open spec fn hex_number(s: Text) -> Option<u32> {
    let digits = if s.len() > 0 && s[0] == '+' {
        s.drop_first()
    } else {
        s
    };
    if digits.len() == 0 || !all_hex(digits) {
        None
    } else {
        Some(hex_value(digits) as u32)
    }
}

/// The character a numeric escape stands for.
pub open spec fn hex_char(s: Text) -> Option<char> {
    match hex_number(s) {
        Some(u) => scalar_char(u),
        None => None,
    }
}

/// The character a one-letter escape stands for.
pub open spec fn simple_escape(c: char) -> Option<char> {
    if c == 'n' {
        Some('\n')
    } else if c == 't' {
        Some('\t')
    } else if c == 'r' {
        Some('\r')
    } else if c == 'b' {
        Some('\u{0008}')
    } else if c == 'f' {
        Some('\u{000C}')
    } else if c == '"' {
        Some('"')
    } else if c == '\'' {
        Some('\'')
    } else if c == '\\' {
        Some('\\')
    } else {
        None
    }
}

pub open spec fn hex_width(c: char) -> int {
    if c == 'u' {
        4
    } else {
        8
    }
}

pub open spec fn min_int(a: int, b: int) -> int {
    if a < b {
        a
    } else {
        b
    }
}

/// A text with its escapes decoded; an unknown or malformed escape stays as
/// it is.
pub open spec fn unescaped(s: Text) -> Text
    decreases s.len(),
{
    if s.len() == 0 {
        Seq::empty()
    } else if s[0] != '\\' {
        seq![s[0]] + unescaped(s.drop_first())
    } else if s.len() == 1 {
        seq!['\\']
    } else if simple_escape(s[1]) is Some {
        seq![simple_escape(s[1])->0] + unescaped(s.skip(2))
    } else if s[1] == 'u' || s[1] == 'U' {
        let rest = s.skip(2);
        let n = min_int(hex_width(s[1]), rest.len() as int);
        let hex = rest.take(n);
        (match hex_char(hex) {
            Some(c) => seq![c],
            None => seq!['\\', s[1]] + hex,
        }) + unescaped(s.skip(2 + n))
    } else {
        seq!['\\', s[1]] + unescaped(s.skip(2))
    }
}

/// Decoding what was escaped gives the text back.
pub proof fn unescape_inverts_escape(s: Text)
    ensures
        unescaped(escaped(s)) == s,
    decreases s.len(),
{
    if s.len() == 0 {
        assert(unescaped(escaped(s)) =~= s);
    } else {
        let c = s[0];
        let rest = s.drop_first();
        unescape_inverts_escape(rest);
        let e = escaped(s);
        let head = escaped_char(c);
        assert(e =~= head + escaped(rest));
        if head.len() == 1 {
            assert(e[0] == c);
            assert(e.drop_first() =~= escaped(rest));
        } else {
            assert(e[0] == '\\');
            assert(e[1] == head[1]);
            assert(e.skip(2) =~= escaped(rest));
            assert(simple_escape(head[1]) == Some(c));
        }
        assert(s =~= seq![c] + rest);
        assert(unescaped(e) =~= seq![c] + rest);
    }
}

fn push_text(out: &mut String, cs: &[char], from: usize, to: usize)
    requires
        from <= to <= cs@.len(),
    ensures
        final(out)@ == old(out)@ + cs@.subrange(from as int, to as int),
{
    let piece = slice_text(cs, from, to);
    out.append(piece.as_str());
}

/// Escapes a text for use between quotes.
pub fn escape_ntriples(s: &str) -> (r: String)
    ensures
        r@ == escaped(s@),
{
    let cs = chars_of(s);
    let mut out = String::new();
    let mut i: usize = 0;
    assert(cs@.skip(0) =~= cs@);
    assert(out@ + escaped(cs@) =~= escaped(cs@));
    while i < cs.len()
        invariant
            i <= cs@.len(),
            cs@ == s@,
            out@ + escaped(cs@.skip(i as int)) == escaped(s@),
        decreases cs@.len() - i,
    {
        let ghost before = out@;
        let ghost rest = cs@.skip(i as int);
        let c: char = cs[i];
        if c == '\\' {
            out.append("\\\\");
        } else if c == '"' {
            out.append("\\\"");
        } else if c == '\n' {
            out.append("\\n");
        } else if c == '\r' {
            out.append("\\r");
        } else if c == '\t' {
            out.append("\\t");
        } else if c == '\u{0008}' {
            out.append("\\b");
        } else if c == '\u{000C}' {
            out.append("\\f");
        } else {
            push_char(&mut out, c);
        }
        proof {
            reveal_strlit("\\\\");
            reveal_strlit("\\\"");
            reveal_strlit("\\n");
            reveal_strlit("\\r");
            reveal_strlit("\\t");
            reveal_strlit("\\b");
            reveal_strlit("\\f");
            assert(rest[0] == c);
            assert(rest.drop_first() =~= cs@.skip(i + 1));
            assert(out@ =~= before + escaped_char(c));
            assert(out@ + escaped(cs@.skip(i + 1)) =~= before + escaped(rest));
        }
        i = i + 1;
    }
    assert(cs@.skip(cs@.len() as int) =~= Seq::<char>::empty());
    assert(out@ + Seq::<char>::empty() =~= out@);
    out
}

fn hex_digit_of(c: char) -> (r: Option<u32>)
    ensures
        match r {
            Some(d) => is_hex(c) && d == hex_digit(c) && d < 16,
            None => !is_hex(c),
        },
{
    if '0' <= c && c <= '9' {
        Some(c as u32 - 48)
    } else if 'a' <= c && c <= 'f' {
        Some(c as u32 - 87)
    } else if 'A' <= c && c <= 'F' {
        Some(c as u32 - 55)
    } else {
        None
    }
}

/// At most eight hexadecimal digits fit 32 bits.
proof fn hex_fits(s: Text)
    requires
        all_hex(s),
        s.len() <= 8,
    ensures
        0 <= hex_value(s),
        s.len() <= 1 ==> hex_value(s) < 0x10,
        s.len() <= 2 ==> hex_value(s) < 0x100,
        s.len() <= 3 ==> hex_value(s) < 0x1000,
        s.len() <= 4 ==> hex_value(s) < 0x1_0000,
        s.len() <= 5 ==> hex_value(s) < 0x10_0000,
        s.len() <= 6 ==> hex_value(s) < 0x100_0000,
        s.len() <= 7 ==> hex_value(s) < 0x1000_0000,
        hex_value(s) < 0x1_0000_0000,
    decreases s.len(),
{
    if s.len() > 0 {
        assert forall|i: int| 0 <= i < s.drop_last().len() implies is_hex(
            #[trigger] s.drop_last()[i],
        ) by {
            assert(s.drop_last()[i] == s[i]);
        }
        hex_fits(s.drop_last());
        assert(is_hex(s[s.len() - 1]));
    }
}

/// The character the numeric escape in `cs[from..to]` stands for.
#[verifier::loop_isolation(false)]
fn parse_hex_char(cs: &[char], from: usize, to: usize) -> (r: Option<char>)
    requires
        from <= to <= cs@.len(),
        to - from <= 8,
    ensures
        r == hex_char(cs@.subrange(from as int, to as int)),
{
    let ghost hex = cs@.subrange(from as int, to as int);
    let signed = from < to && cs[from] == '+';
    let start: usize = if signed {
        from + 1
    } else {
        from
    };
    let ghost digits = if signed {
        hex.drop_first()
    } else {
        hex
    };
    assert(digits =~= cs@.subrange(start as int, to as int));
    if start == to {
        return None;
    }
    let mut acc: u32 = 0;
    let mut i: usize = start;
    while i < to
        invariant
            start <= i <= to <= cs@.len(),
            digits == cs@.subrange(start as int, to as int),
            forall|j: int| 0 <= j < i - start ==> is_hex(#[trigger] digits[j]),
            acc == hex_value(digits.take(i - start)),
            i - start <= 8,
        decreases to - i,
    {
        let ghost m = i - start;
        match hex_digit_of(cs[i]) {
            Some(d) => {
                proof {
                    assert(digits[m] == cs@[i as int]);
                    let t = digits.take(m + 1);
                    assert(t.drop_last() =~= digits.take(m));
                    assert(t.last() == digits[m]);
                    assert forall|j: int| 0 <= j < t.len() implies is_hex(#[trigger] t[j]) by {
                        assert(t[j] == digits[j]);
                    }
                    hex_fits(t);
                }
                acc = acc * 16 + d;
            },
            None => {
                assert(!is_hex(digits[m]));
                return None;
            },
        }
        i = i + 1;
    }
    assert(digits.take(digits.len() as int) =~= digits);
    char_of(acc)
}

/// Decodes the escapes of a literal's lexical form.
#[verifier::rlimit(40)]
pub fn unescape_ntriples(s: &str) -> (r: String)
    ensures
        r@ == unescaped(s@),
{
    let cs = chars_of(s);
    let n: usize = cs.len();
    let mut out = String::new();
    let mut i: usize = 0;
    assert(cs@.skip(0) =~= cs@);
    assert(out@ + unescaped(cs@) =~= unescaped(cs@));
    while i < n
        invariant
            i <= n,
            n == cs@.len(),
            cs@ == s@,
            out@ + unescaped(cs@.skip(i as int)) == unescaped(s@),
        decreases n - i,
    {
        let ghost before = out@;
        let ghost rest = cs@.skip(i as int);
        let c: char = cs[i];
        assert(rest[0] == c);
        if c != '\\' {
            push_char(&mut out, c);
            assert(rest.drop_first() =~= cs@.skip(i + 1));
            assert(out@ + unescaped(cs@.skip(i + 1)) =~= before + unescaped(rest));
            i = i + 1;
        } else if n - i == 1 {
            push_char(&mut out, '\\');
            assert(cs@.skip(i + 1) =~= Seq::<char>::empty());
            assert(out@ + unescaped(cs@.skip(i + 1)) =~= before + unescaped(rest));
            i = i + 1;
        } else {
            let e: char = cs[i + 1];
            assert(rest[1] == e);
            assert(rest.skip(2) =~= cs@.skip(i + 2));
            match decode_simple(e) {
                Some(d) => {
                    push_char(&mut out, d);
                    assert(out@ + unescaped(cs@.skip(i + 2)) =~= before + unescaped(rest));
                    i = i + 2;
                },
                None => {
                    if e == 'u' || e == 'U' {
                        let width: usize = if e == 'u' {
                            4
                        } else {
                            8
                        };
                        let left: usize = n - i - 2;
                        let take: usize = if width < left {
                            width
                        } else {
                            left
                        };
                        let to: usize = i + 2 + take;
                        let ghost hex = rest.skip(2).take(take as int);
                        assert(hex =~= cs@.subrange(i + 2, to as int));
                        assert(rest.skip(2 + take) =~= cs@.skip(to as int));
                        match parse_hex_char(cs.as_slice(), i + 2, to) {
                            Some(d) => {
                                push_char(&mut out, d);
                                assert(out@ + unescaped(cs@.skip(to as int)) =~= before + unescaped(
                                    rest,
                                ));
                            },
                            None => {
                                push_char(&mut out, '\\');
                                push_char(&mut out, e);
                                push_text(&mut out, cs.as_slice(), i + 2, to);
                                assert(out@ + unescaped(cs@.skip(to as int)) =~= before + unescaped(
                                    rest,
                                ));
                            },
                        }
                        i = to;
                    } else {
                        push_char(&mut out, '\\');
                        push_char(&mut out, e);
                        assert(out@ + unescaped(cs@.skip(i + 2)) =~= before + unescaped(rest));
                        i = i + 2;
                    }
                },
            }
        }
    }
    assert(cs@.skip(n as int) =~= Seq::<char>::empty());
    assert(out@ + Seq::<char>::empty() =~= out@);
    out
}

fn decode_simple(c: char) -> (r: Option<char>)
    ensures
        r == simple_escape(c),
{
    if c == 'n' {
        Some('\n')
    } else if c == 't' {
        Some('\t')
    } else if c == 'r' {
        Some('\r')
    } else if c == 'b' {
        Some('\u{0008}')
    } else if c == 'f' {
        Some('\u{000C}')
    } else if c == '"' {
        Some('"')
    } else if c == '\'' {
        Some('\'')
    } else if c == '\\' {
        Some('\\')
    } else {
        None
    }
}

// ── Taking literals apart ───────────────────────────────────────────────────

/// The position of the first unescaped quote at or after `i`.
pub open spec fn closing_quote(s: Text, i: int) -> Option<int>
    decreases s.len() - i,
{
    if i < 0 || i >= s.len() {
        None
    } else if s[i] == '\\' && i + 1 < s.len() {
        closing_quote(s, i + 2)
    } else if s[i] == '"' {
        Some(i)
    } else {
        closing_quote(s, i + 1)
    }
}

fn find_closing_quote(cs: &[char], from: usize) -> (r: Option<usize>)
    requires
        from <= cs@.len(),
    ensures
        match r {
            Some(i) => closing_quote(cs@, from as int) == Some(i as int) && from <= i < cs@.len(),
            None => closing_quote(cs@, from as int) is None,
        },
{
    let n: usize = cs.len();
    let mut i: usize = from;
    while i < n
        invariant
            from <= i <= n,
            n == cs@.len(),
            closing_quote(cs@, from as int) == closing_quote(cs@, i as int),
        decreases n - i,
    {
        if cs[i] == '\\' && n - i > 1 {
            i = i + 2;
        } else if cs[i] == '"' {
            return Some(i);
        } else {
            i = i + 1;
        }
    }
    None
}

/// The lexical value of a literal's raw form: what stands between its quotes,
/// decoded. A form without quotes, or without a closing one, stands for
/// itself.
pub open spec fn lexical_of(raw: Text) -> Text {
    let s = trimmed(raw);
    if s.len() == 0 || s[0] != '"' {
        s
    } else {
        match closing_quote(s, 1) {
            Some(i) => unescaped(s.subrange(1, i)),
            None => s,
        }
    }
}

pub fn literal_lexical(raw: &str) -> (r: String)
    ensures
        r@ == lexical_of(raw@),
{
    let s = trim(raw);
    let cs = chars_of(s.as_str());
    if cs.len() == 0 || cs[0] != '"' {
        return s;
    }
    match find_closing_quote(cs.as_slice(), 1) {
        Some(i) => {
            let inner = slice_text(cs.as_slice(), 1, i);
            unescape_ntriples(inner.as_str())
        },
        None => s,
    }
}

/// A text without any leading `<`.
pub open spec fn strip_open(s: Text) -> Text
    decreases s.len(),
{
    if s.len() > 0 && s[0] == '<' {
        strip_open(s.drop_first())
    } else {
        s
    }
}

/// A text without any trailing `>`.
pub open spec fn strip_close(s: Text) -> Text
    decreases s.len(),
{
    if s.len() > 0 && s.last() == '>' {
        strip_close(s.drop_last())
    } else {
        s
    }
}

/// The parts of a literal: its value as written, its language tag, and its
/// datatype.
#[verifier::ext_equal]
pub struct PartsView {
    pub value: Text,
    pub lang: Option<Text>,
    pub datatype: Option<Text>,
}

/// The parts of a literal's raw form. A form without quotes, or without a
/// closing one, is all value.
pub open spec fn parts_of(raw: Text) -> PartsView {
    let s = trimmed(raw);
    if s.len() == 0 || s[0] != '"' {
        PartsView { value: s, lang: None, datatype: None }
    } else {
        match closing_quote(s, 1) {
            None => PartsView { value: s, lang: None, datatype: None },
            Some(i) => {
                let value = s.subrange(1, i);
                let tail = s.skip(i + 1);
                if tail.len() > 0 && tail[0] == '@' {
                    PartsView { value, lang: Some(tail.drop_first()), datatype: None }
                } else if tail.len() > 1 && tail[0] == '^' && tail[1] == '^' {
                    PartsView {
                        value,
                        lang: None,
                        datatype: Some(strip_close(strip_open(tail.skip(2)))),
                    }
                } else {
                    PartsView { value, lang: None, datatype: None }
                }
            },
        }
    }
}

pub open spec fn opt_text(o: Option<String>) -> Option<Text> {
    match o {
        Some(s) => Some(s@),
        None => None,
    }
}

/// `cs[from..]` without leading `<` and trailing `>`.
fn angle_stripped(cs: &[char], from: usize) -> (r: String)
    requires
        from <= cs@.len(),
    ensures
        r@ == strip_close(strip_open(cs@.skip(from as int))),
{
    let n: usize = cs.len();
    let ghost all = cs@.skip(from as int);
    let mut a: usize = from;
    while a < n && cs[a] == '<'
        invariant
            from <= a <= n,
            n == cs@.len(),
            strip_open(all) == strip_open(cs@.skip(a as int)),
        decreases n - a,
    {
        assert(cs@.skip(a as int).drop_first() =~= cs@.skip(a + 1));
        a = a + 1;
    }
    let ghost front = cs@.skip(a as int);
    assert(strip_open(all) == front);
    let mut z: usize = n;
    assert(cs@.subrange(a as int, z as int) =~= front);
    while z > a && cs[z - 1] == '>'
        invariant
            a <= z <= n,
            n == cs@.len(),
            strip_close(front) == strip_close(cs@.subrange(a as int, z as int)),
        decreases z - a,
    {
        assert(cs@.subrange(a as int, z as int).drop_last() =~= cs@.subrange(a as int, z - 1));
        z = z - 1;
    }
    slice_text(cs, a, z)
}

/// Splits a literal's raw form into value, language tag and datatype.
pub fn literal_parts(raw: &str) -> (r: (String, Option<String>, Option<String>))
    ensures
        r.0@ == parts_of(raw@).value,
        opt_text(r.1) == parts_of(raw@).lang,
        opt_text(r.2) == parts_of(raw@).datatype,
{
    let s = trim(raw);
    let cs = chars_of(s.as_str());
    let n: usize = cs.len();
    if n == 0 || cs[0] != '"' {
        return (s, None, None);
    }
    match find_closing_quote(cs.as_slice(), 1) {
        Some(i) => {
            let value = slice_text(cs.as_slice(), 1, i);
            let at: usize = i + 1;
            let ghost tail = cs@.skip(at as int);
            if at < n && cs[at] == '@' {
                assert(tail[0] == '@');
                let lang = slice_text(cs.as_slice(), at + 1, n);
                assert(lang@ =~= tail.drop_first());
                (value, Some(lang), None)
            } else if n - at > 1 && cs[at] == '^' && cs[at + 1] == '^' {
                assert(tail[0] == '^' && tail[1] == '^');
                assert(tail.skip(2) =~= cs@.skip(at + 2));
                let dt = angle_stripped(cs.as_slice(), at + 2);
                (value, None, Some(dt))
            } else {
                (value, None, None)
            }
        },
        None => (s, None, None),
    }
}

/// The lexical form of a term; a triple term has none.
pub open spec fn lex_of(t: TermView) -> Text {
    match t {
        TermView::Iri(s) => s,
        TermView::Literal(s) => s,
        TermView::BlankNode(s) => s,
        TermView::Var(v) => v,
        TermView::Triple(_) => Seq::empty(),
    }
}

pub fn lex(t: &Term) -> (r: String)
    ensures
        r@ == lex_of(t@),
{
    match t {
        Term::Iri(s) => s.clone(),
        Term::Literal(s) => s.clone(),
        Term::BlankNode(s) => s.clone(),
        Term::Var(v) => v.name().to_owned(),
        Term::Triple(_) => String::new(),
    }
}

/// The value of a term for comparison and aggregation. A store may hand back a
/// literal in another variant, so every lexical form is read as a literal
/// would be.
pub open spec fn value_of(t: TermView) -> Text {
    match t {
        TermView::Literal(s) => lexical_of(s),
        TermView::Iri(s) => lexical_of(s),
        TermView::BlankNode(s) => lexical_of(s),
        TermView::Var(v) => v,
        TermView::Triple(_) => Seq::empty(),
    }
}

pub fn literal_value(t: &Term) -> (r: String)
    ensures
        r@ == value_of(t@),
{
    match t {
        Term::Literal(s) => literal_lexical(s.as_str()),
        Term::Iri(s) => literal_lexical(s.as_str()),
        Term::BlankNode(s) => literal_lexical(s.as_str()),
        Term::Var(v) => v.name().to_owned(),
        Term::Triple(_) => String::new(),
    }
}

/// The plain number a term's value reads as.
pub open spec fn number_of<N: Numbers>(t: TermView) -> Option<N::Num> {
    N::parsed(trimmed(value_of(t)))
}

pub fn numeric_value<N: Numbers>(t: &Term) -> (r: Option<N::Num>)
    ensures
        r == number_of::<N>(t@),
{
    let v = literal_value(t);
    let s = trim(v.as_str());
    N::parse(s.as_str())
}

/// The typed number of a literal with a numeric datatype.
pub open spec fn typed_of<N: Numbers>(t: TermView) -> Option<N::Typed> {
    let p = parts_of(lex_of(t));
    match (p.lang, p.datatype) {
        (None, Some(dt)) => N::typed(p.value, dt),
        _ => None,
    }
}

pub fn numeric_of<N: Numbers>(t: &Term) -> (r: Option<N::Typed>)
    ensures
        r == typed_of::<N>(t@),
{
    let raw = lex(t);
    let (value, lang, datatype) = literal_parts(raw.as_str());
    match lang {
        Some(_) => None,
        None => match datatype {
            Some(dt) => N::parse_typed(value.as_str(), dt.as_str()),
            None => None,
        },
    }
}

/// Is `local` the local name of a numeric XSD datatype?
pub open spec fn numeric_local(local: Text) -> bool {
    local == "integer"@ || local == "decimal"@ || local == "double"@ || local == "float"@ || local
        == "long"@ || local == "int"@ || local == "short"@ || local == "byte"@ || local
        == "nonNegativeInteger"@ || local == "nonPositiveInteger"@ || local == "negativeInteger"@
        || local == "positiveInteger"@ || local == "unsignedLong"@ || local == "unsignedInt"@
        || local == "unsignedShort"@ || local == "unsignedByte"@
}

/// Is `dt` a numeric XSD datatype?
pub open spec fn numeric_datatype(dt: Text) -> bool {
    starts(dt, "http://www.w3.org/2001/XMLSchema#"@) && numeric_local(
        dt.skip("http://www.w3.org/2001/XMLSchema#"@.len() as int),
    )
}

pub fn is_numeric_datatype(dt: &str) -> (r: bool)
    ensures
        r == numeric_datatype(dt@),
{
    match strip_prefix(dt, "http://www.w3.org/2001/XMLSchema#") {
        None => false,
        Some(local) => {
            let l = local.as_str();
            same_text(l, "integer") || same_text(l, "decimal") || same_text(l, "double")
                || same_text(l, "float") || same_text(l, "long") || same_text(l, "int")
                || same_text(l, "short") || same_text(l, "byte") || same_text(
                l,
                "nonNegativeInteger",
            ) || same_text(l, "nonPositiveInteger") || same_text(l, "negativeInteger") || same_text(
                l,
                "positiveInteger",
            ) || same_text(l, "unsignedLong") || same_text(l, "unsignedInt") || same_text(
                l,
                "unsignedShort",
            ) || same_text(l, "unsignedByte")
        },
    }
}

/// The kind of a term, by the shape of its lexical form.
#[derive(Debug, Clone, Copy, PartialEq, Eq, Structural)]
pub enum TermKind {
    Iri,
    Blank,
    Literal,
    Other,
}

pub open spec fn kind_of(t: TermView) -> TermKind {
    match t {
        TermView::Literal(_) => TermKind::Literal,
        TermView::BlankNode(_) => TermKind::Blank,
        TermView::Iri(s) => if starts(s, "\""@) {
            TermKind::Literal
        } else if starts(s, "_:"@) {
            TermKind::Blank
        } else {
            TermKind::Iri
        },
        _ => TermKind::Other,
    }
}

pub fn term_kind(t: &Term) -> (r: TermKind)
    ensures
        r == kind_of(t@),
{
    match t {
        Term::Literal(_) => TermKind::Literal,
        Term::BlankNode(_) => TermKind::Blank,
        Term::Iri(s) => if starts_with(s.as_str(), "\"") {
            TermKind::Literal
        } else if starts_with(s.as_str(), "_:") {
            TermKind::Blank
        } else {
            TermKind::Iri
        },
        _ => TermKind::Other,
    }
}

// ── Putting literals together ───────────────────────────────────────────────

pub open spec fn plain_view(s: Text) -> TermView {
    TermView::Literal("\""@ + escaped(s) + "\""@)
}

pub open spec fn lang_view(s: Text, lang: Text) -> TermView {
    TermView::Literal("\""@ + escaped(s) + "\"@"@ + lang)
}

pub open spec fn string_view(s: Text) -> TermView {
    TermView::Literal(
        "\""@ + escaped(s) + "\"^^<http://www.w3.org/2001/XMLSchema#string>"@,
    )
}

pub open spec fn bool_text(v: bool) -> Text {
    if v {
        "true"@
    } else {
        "false"@
    }
}

pub open spec fn bool_view(v: bool) -> TermView {
    TermView::Literal(
        "\""@ + bool_text(v) + "\"^^<http://www.w3.org/2001/XMLSchema#boolean>"@,
    )
}

pub open spec fn integer_view(n: int) -> TermView {
    TermView::Literal(integer_literal_text(n))
}

/// A simple literal.
pub fn plain_literal(s: &str) -> (r: Term)
    ensures
        r@ == plain_view(s@),
{
    let mut out = "\"".to_owned();
    let body = escape_ntriples(s);
    out.append(body.as_str());
    out.append("\"");
    Term::Literal(out)
}

/// A language-tagged literal.
pub fn lang_literal(s: &str, lang: &str) -> (r: Term)
    ensures
        r@ == lang_view(s@, lang@),
{
    let mut out = "\"".to_owned();
    let body = escape_ntriples(s);
    out.append(body.as_str());
    out.append("\"@");
    out.append(lang);
    Term::Literal(out)
}

/// An `xsd:string` literal.
pub fn typed_string_literal(s: &str) -> (r: Term)
    ensures
        r@ == string_view(s@),
{
    let mut out = "\"".to_owned();
    let body = escape_ntriples(s);
    out.append(body.as_str());
    out.append("\"^^<http://www.w3.org/2001/XMLSchema#string>");
    Term::Literal(out)
}

/// An `xsd:boolean` literal.
pub fn bool_typed_literal(v: bool) -> (r: Term)
    ensures
        r@ == bool_view(v),
{
    let mut out = "\"".to_owned();
    if v {
        out.append("true");
    } else {
        out.append("false");
    }
    out.append("\"^^<http://www.w3.org/2001/XMLSchema#boolean>");
    Term::Literal(out)
}

/// An `xsd:integer` literal.
pub fn integer_literal(n: i64) -> (r: Term)
    ensures
        r@ == integer_view(n as int),
{
    Term::Literal(integer_literal_string(n))
}

/// The quoted form of an escaped text closes at its last quote.
proof fn escaped_closes(pre: Text, s: Text, tail: Text)
    ensures
        closing_quote(pre + escaped(s) + seq!['"'] + tail, pre.len() as int) == Some(
            (pre.len() + escaped(s).len()) as int,
        ),
    decreases s.len(),
{
    let whole = pre + escaped(s) + seq!['"'] + tail;
    if s.len() == 0 {
        assert(whole[pre.len() as int] == '"');
    } else {
        let c = s[0];
        let rest = s.drop_first();
        let head = escaped_char(c);
        let pre2 = pre + head;
        escaped_closes(pre2, rest, tail);
        assert(escaped(s) == head + escaped(rest));
        assert(whole =~= pre2 + escaped(rest) + seq!['"'] + tail);
        let p = pre.len() as int;
        assert(whole[p] == head[0]);
        if head.len() == 2 {
            assert(whole[p + 1] == head[1]);
            assert(closing_quote(whole, p) == closing_quote(whole, p + 2));
        } else {
            assert(closing_quote(whole, p) == closing_quote(whole, p + 1));
        }
    }
}

/// White space at neither end leaves a text as it is.
pub proof fn trimmed_tight(s: Text)
    requires
        s.len() > 0,
        !white(s[0]),
        !white(s.last()),
    ensures
        trimmed(s) == s,
{
}

/// The last character of a trimmed text is not white space.
proof fn trimmed_end(s: Text)
    ensures
        trim_back(s).len() > 0 ==> !white(trim_back(s).last()),
    decreases s.len(),
{
    if s.len() > 0 && white(s.last()) {
        trimmed_end(s.drop_last());
    }
}

proof fn closes_inside(s: Text, i: int)
    requires
        0 <= i,
    ensures
        closing_quote(s, i) matches Some(k) ==> i <= k < s.len(),
    decreases s.len() - i,
{
    if i < s.len() {
        closes_inside(s, i + 1);
        if i + 1 < s.len() {
            closes_inside(s, i + 2);
        }
    }
}

/// A language tag ends in no white space.
pub proof fn tags_are_tight(raw: Text)
    ensures
        parts_of(raw).lang matches Some(l) ==> l.len() > 0 ==> !white(l.last()),
{
    trimmed_end(trim_front(raw));
    let s = trimmed(raw);
    if let Some(l) = parts_of(raw).lang {
        if l.len() > 0 {
            closes_inside(s, 1);
            let tail = s.skip(closing_quote(s, 1)->0 + 1);
            assert(l == tail.drop_first());
            assert(tail.last() == s.last());
            assert(l.last() == s.last());
        }
    }
}

/// An escaped text in quotes, and what follows, come apart again.
pub proof fn quoted_comes_apart(s: Text, tail: Text)
    requires
        tail.len() > 0 ==> !white(tail.last()),
    ensures
        ({
            let raw = seq!['"'] + escaped(s) + seq!['"'] + tail;
            let i = 1 + escaped(s).len() as int;
            &&& trimmed(raw) == raw
            &&& raw[0] == '"'
            &&& closing_quote(raw, 1) == Some(i)
            &&& raw.subrange(1, i) == escaped(s)
            &&& raw.skip(i + 1) == tail
        }),
{
    let pre = seq!['"'];
    let raw = pre + escaped(s) + seq!['"'] + tail;
    let i = 1 + escaped(s).len() as int;
    escaped_closes(pre, s, tail);
    assert(raw[0] == '"');
    assert(raw.last() == if tail.len() > 0 {
        tail.last()
    } else {
        '"'
    });
    trimmed_tight(raw);
    assert(raw.subrange(1, i) =~= escaped(s));
    assert(raw.skip(i + 1) =~= tail);
}

/// The value of a simple literal made from a text is that text: making a
/// literal and reading it back loses nothing.
pub proof fn plain_literal_round_trips(s: Text)
    ensures
        value_of(plain_view(s)) == s,
        parts_of(lex_of(plain_view(s))) == (PartsView {
            value: escaped(s),
            lang: None,
            datatype: None,
        }),
{
    reveal_strlit("\"");
    assert("\""@ + escaped(s) + "\""@ =~= seq!['"'] + escaped(s) + seq!['"'] + Seq::<char>::empty());
    quoted_comes_apart(s, Seq::empty());
    unescape_inverts_escape(s);
}

/// The value and the tag of a language-tagged literal read back.
pub proof fn lang_literal_round_trips(s: Text, lang: Text)
    requires
        lang.len() > 0 ==> !white(lang.last()),
    ensures
        value_of(lang_view(s, lang)) == s,
        parts_of(lex_of(lang_view(s, lang))) == (PartsView {
            value: escaped(s),
            lang: Some(lang),
            datatype: None,
        }),
{
    reveal_strlit("\"");
    reveal_strlit("\"@");
    let tail = seq!['@'] + lang;
    assert("\""@ + escaped(s) + "\"@"@ + lang =~= seq!['"'] + escaped(s) + seq!['"'] + tail);
    quoted_comes_apart(s, tail);
    assert(tail.drop_first() =~= lang);
    unescape_inverts_escape(s);
}

/// The value and the datatype of an `xsd:string` literal read back.
pub proof fn string_literal_round_trips(s: Text)
    ensures
        value_of(string_view(s)) == s,
        parts_of(lex_of(string_view(s))) == (PartsView {
            value: escaped(s),
            lang: None,
            datatype: Some("http://www.w3.org/2001/XMLSchema#string"@),
        }),
{
    reveal_strlit("\"");
    reveal_strlit("\"^^<http://www.w3.org/2001/XMLSchema#string>");
    reveal_strlit("http://www.w3.org/2001/XMLSchema#string");
    let iri = "http://www.w3.org/2001/XMLSchema#string"@;
    let tail = seq!['^', '^', '<'] + iri + seq!['>'];
    assert("\""@ + escaped(s) + "\"^^<http://www.w3.org/2001/XMLSchema#string>"@ =~= seq!['"']
        + escaped(s) + seq!['"'] + tail);
    quoted_comes_apart(s, tail);
    let angled = tail.skip(2);
    assert(angled.drop_first() =~= iri + seq!['>']);
    assert((iri + seq!['>'])[0] == 'h');
    assert(strip_open(angled) == strip_open(iri + seq!['>']));
    assert((iri + seq!['>']).drop_last() =~= iri);
    assert(iri.last() == 'g');
    assert(strip_close(iri + seq!['>']) == strip_close(iri));
    unescape_inverts_escape(s);
}

}
