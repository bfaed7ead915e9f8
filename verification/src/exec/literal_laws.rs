//! What the texts of literals and numbers stand for.

use crate::exec::literal::{
    all_hex, escaped, escaped_char, hex_value, numeric_datatype, numeric_local, unescaped,
};
use crate::exec::number::{all_digits, digits_value, i64_of, int_of, is_digit};
use crate::text::Text;
use vstd::prelude::*;

verus! {

// ── Escapes ─────────────────────────────────────────────────────────────────

/// The character that a letter behind a backslash stands for, as literals are
/// written in N-Triples.
pub open spec fn letter_escape(c: char) -> Option<char> {
    match c {
        't' => Some('\t'),
        'b' => Some('\u{0008}'),
        'n' => Some('\n'),
        'r' => Some('\r'),
        'f' => Some('\u{000C}'),
        '"' => Some('"'),
        '\'' => Some('\''),
        '\\' => Some('\\'),
        _ => None,
    }
}

/// Escapes are read from the front: a letter behind a backslash as what it
/// stands for, four or eight hexadecimal digits as the character of that number,
/// and any other character as itself.
pub proof fn escapes_are_read(c: char, hex: Text, s: Text)
    ensures
        letter_escape(c) is Some ==> unescaped(seq!['\\', c] + s) == seq![letter_escape(c)->0]
            + unescaped(s),
        c != '\\' ==> unescaped(seq![c] + s) == seq![c] + unescaped(s),
        all_hex(hex) && (c == 'u' && hex.len() == 4 || c == 'U' && hex.len() == 8) && (hex_value(
            hex,
        ) < 0xD800 || 0xE000 <= hex_value(hex) <= 0x10FFFF) && hex_value(hex) >= 0 ==> unescaped(
            seq!['\\', c] + hex + s,
        ) == seq![(hex_value(hex) as u32) as char] + unescaped(s),
{
    let a = seq!['\\', c] + s;
    assert(a[0] == '\\' && a[1] == c);
    assert(a.skip(2) =~= s);
    let b = seq![c] + s;
    assert(b[0] == c);
    assert(b.drop_first() =~= s);
    let x = seq!['\\', c] + hex + s;
    if all_hex(hex) && (c == 'u' && hex.len() == 4 || c == 'U' && hex.len() == 8) {
        assert(x[0] == '\\' && x[1] == c);
        let n = hex.len() as int;
        assert(x.skip(2).take(n) =~= hex);
        assert(x.skip(2 + n) =~= s);
        assert(hex[0] != '+') by {
            assert(crate::exec::literal::is_hex(hex[0]));
        }
    }
}

/// The value of hexadecimal digits, digit by digit.
pub proof fn hexadecimal_is_by_sixteens(s: Text, c: char)
    ensures
        hex_value(Seq::empty()) == 0,
        '0' <= c && c <= '9' ==> hex_value(s.push(c)) == hex_value(s) * 16 + (c as int - '0' as int),
        'a' <= c && c <= 'f' ==> hex_value(s.push(c)) == hex_value(s) * 16 + 10 + (c as int
            - 'a' as int),
        'A' <= c && c <= 'F' ==> hex_value(s.push(c)) == hex_value(s) * 16 + 10 + (c as int
            - 'A' as int),
{
    assert(s.push(c).drop_last() =~= s);
}

/// An escaped text is one line without control characters that have a letter,
/// and holds a quote only behind a backslash.
pub proof fn an_escaped_text_is_one_line(s: Text, i: int)
    requires
        0 <= i < escaped(s).len(),
    ensures
        escaped(s)[i] != '\n' && escaped(s)[i] != '\r' && escaped(s)[i] != '\t',
        escaped(s)[i] != '\u{0008}' && escaped(s)[i] != '\u{000C}',
        escaped(s)[i] == '"' ==> i > 0 && escaped(s)[i - 1] == '\\',
    decreases s.len(),
{
    if s.len() > 0 {
        let (x, rest) = (escaped_char(s[0]), escaped(s.drop_first()));
        assert(escaped(s) == x + rest);
        if i >= x.len() {
            an_escaped_text_is_one_line(s.drop_first(), i - x.len());
            assert(escaped(s)[i] == rest[i - x.len()]);
            if i > x.len() {
                assert(escaped(s)[i - 1] == rest[i - x.len() - 1]);
            }
        } else {
            assert(escaped(s)[i] == x[i]);
            if i > 0 {
                assert(escaped(s)[i - 1] == x[i - 1]);
            }
        }
    }
}

/// Texts are escaped character by character, and those that need it not stay as
/// they are.
pub proof fn texts_are_escaped_by_character(a: Text, b: Text)
    ensures
        escaped(a + b) == escaped(a) + escaped(b),
        (forall|i: int|
            0 <= i < a.len() ==> #[trigger] a[i] != '\\' && a[i] != '"' && a[i] != '\n' && a[i]
                != '\r' && a[i] != '\t' && a[i] != '\u{0008}' && a[i] != '\u{000C}') ==> escaped(a)
            == a,
    decreases a.len(),
{
    if a.len() == 0 {
        assert(a + b =~= b);
        assert(escaped(a) + escaped(b) =~= escaped(b));
        assert(escaped(a) =~= a);
    } else {
        let rest = a.drop_first();
        texts_are_escaped_by_character(rest, b);
        assert((a + b)[0] == a[0]);
        assert((a + b).drop_first() =~= rest + b);
        assert(escaped(a + b) =~= escaped(a) + escaped(b));
        if forall|i: int|
            0 <= i < a.len() ==> #[trigger] a[i] != '\\' && a[i] != '"' && a[i] != '\n' && a[i]
                != '\r' && a[i] != '\t' && a[i] != '\u{0008}' && a[i] != '\u{000C}' {
            assert forall|i: int| 0 <= i < rest.len() implies #[trigger] rest[i] != '\\' && rest[i]
                != '"' && rest[i] != '\n' && rest[i] != '\r' && rest[i] != '\t' && rest[i]
                != '\u{0008}' && rest[i] != '\u{000C}' by {
                assert(rest[i] == a[i + 1]);
            }
            assert(a[0] != '\\');
            assert(escaped(a) =~= seq![a[0]] + rest);
            assert(a =~= seq![a[0]] + rest);
        }
    }
}

// ── Numbers ─────────────────────────────────────────────────────────────────

/// An integer is written with digits, the last counting ones, each before it ten
/// times as much; with a minus before them it is negative, with a plus it is the
/// same.
pub proof fn integers_are_written_in_tens(d: Text, c: char)
    requires
        all_digits(d),
    ensures
        is_digit(c) <==> '0' <= c && c <= '9',
        is_digit(c) ==> digits_value(d.push(c)) == digits_value(d) * 10 + (c as int - '0' as int),
        d.len() > 0 ==> int_of(d) == Some(digits_value(d)) && int_of(seq!['-'] + d) == Some(
            -digits_value(d),
        ) && int_of(seq!['+'] + d) == Some(digits_value(d)),
        !is_digit(c) ==> int_of(d.push(c)) is None,
        int_of(Seq::empty()) is None,
{
    assert(d.push(c).drop_last() =~= d);
    if d.len() > 0 {
        assert(is_digit(d[0]));
        let (m, p) = (seq!['-'] + d, seq!['+'] + d);
        assert(m.drop_first() =~= d);
        assert(p.drop_first() =~= d);
        assert(m[0] == '-' && p[0] == '+');
    }
    if !is_digit(c) {
        let s = d.push(c);
        if d.len() > 0 {
            assert(s[0] == d[0]);
            assert(s[d.len() as int] == c);
            assert(!all_digits(s));
        } else {
            assert(s =~= seq![c]);
            assert(s.drop_first() =~= Seq::empty());
            assert(s[0] == c);
        }
    }
}

/// An integer beyond 64 bits is none.
pub proof fn integers_fit(s: Text)
    ensures
        i64_of(s) matches Some(n) ==> int_of(s) == Some(n as int),
        int_of(s) matches Some(n) ==> (i64_of(s) is None <==> n < i64::MIN || n > i64::MAX),
        int_of(s) is None ==> i64_of(s) is None,
{
}

/// A datatype is numeric where its name is numeric behind the namespace of XML
/// Schema, and nowhere else.
pub proof fn numeric_datatypes_are_of_the_schema(dt: Text, local: Text)
    ensures
        numeric_datatype("http://www.w3.org/2001/XMLSchema#"@ + local) <==> numeric_local(local),
        numeric_datatype(dt) ==> exists|name: Text|
            dt == #[trigger] ("http://www.w3.org/2001/XMLSchema#"@ + name) && numeric_local(name),
{
    let ns = "http://www.w3.org/2001/XMLSchema#"@;
    let s = ns + local;
    assert(s.subrange(0, ns.len() as int) =~= ns);
    assert(s.skip(ns.len() as int) =~= local);
    if numeric_datatype(dt) {
        assert(dt.subrange(0, ns.len() as int) == ns);
        assert(dt =~= ns + dt.skip(ns.len() as int));
    }
}

}
