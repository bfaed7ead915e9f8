//! Literals stand for values: what is written for a number or a truth value
//! reads back as it.

use crate::algebra::TermView;
use crate::exec::literal::{
    bool_view, escaped, escaped_char, integer_view, kind_of, lex_of, number_of, parts_of,
    quoted_comes_apart, strip_close, strip_open, trimmed_tight, typed_of, unescape_inverts_escape,
    value_of, PartsView, TermKind,
};
use crate::exec::number::{is_digit, Numbers, WholeNumbers};
use crate::exec::strings::truth_of;
use crate::feed::{decimal_reads_back, integers_read_back};
use crate::text::{decimal, signed_decimal, starts, trimmed, white, Text};
use vstd::prelude::*;

verus! {

/// Is a character a letter, a digit, a hyphen or a colon?
pub open spec fn simple_char(c: char) -> bool {
    is_digit(c) || c == '-' || c == ':' || ('a' <= c && c <= 'z') || ('A' <= c && c <= 'Z')
}

/// Does a text hold letters, digits, hyphens and colons alone?
pub open spec fn is_simple(s: Text) -> bool {
    forall|i: int| 0 <= i < s.len() ==> simple_char(#[trigger] s[i])
}

/// A simple text has nothing to escape.
pub proof fn simple_is_unescaped(s: Text)
    requires
        is_simple(s),
    ensures
        escaped(s) == s,
    decreases s.len(),
{
    if s.len() > 0 {
        let rest = s.drop_first();
        assert forall|i: int| 0 <= i < rest.len() implies simple_char(#[trigger] rest[i]) by {
            assert(rest[i] == s[i + 1]);
        }
        assert(simple_char(s[0]));
        simple_is_unescaped(rest);
        let c = s[0];
        assert(escaped_char(c) == seq![c]);
        assert(seq![c] + rest =~= s);
    } else {
        assert(escaped(s) =~= s);
    }
}

/// The text of an integer has no white space at its ends.
pub proof fn integer_text_is_tight(n: int)
    ensures
        trimmed(signed_decimal(n)) == signed_decimal(n),
{
    integers_are_simple(n);
}

proof fn integers_are_simple(n: int)
    ensures
        is_simple(signed_decimal(n)),
        signed_decimal(n).len() > 0,
        trimmed(signed_decimal(n)) == signed_decimal(n),
{
    let s = signed_decimal(n);
    let m = if n < 0 {
        (-n) as nat
    } else {
        n as nat
    };
    decimal_reads_back(m);
    let d = decimal(m);
    assert forall|i: int| 0 <= i < s.len() implies is_digit(#[trigger] s[i]) || s[i] == '-' by {
        if n < 0 {
            if i > 0 {
                assert(s[i] == d[i - 1]);
            }
        } else {
            assert(s[i] == d[i]);
        }
    }
    assert(s.len() > 0);
    assert(is_digit(s[s.len() - 1]) || s[s.len() - 1] == '-');
    assert(is_digit(s[0]) || s[0] == '-');
    assert(!white(s[0]) && !white(s.last()));
    trimmed_tight(s);
}

/// A text in quotes with a datatype behind it comes apart again.
pub proof fn typed_comes_apart(s: Text, datatype: Text)
    requires
        is_simple(s),
        datatype.len() > 0,
        datatype[0] != '<',
        datatype.last() != '>',
    ensures
        parts_of(seq!['"'] + s + seq!['"', '^', '^', '<'] + datatype + seq!['>']) == (PartsView {
            value: s,
            lang: None,
            datatype: Some(datatype),
        }),
        value_of(
            TermView::Literal(seq!['"'] + s + seq!['"', '^', '^', '<'] + datatype + seq!['>']),
        ) == s,
{
    simple_is_unescaped(s);
    unescape_inverts_escape(s);
    let tail = seq!['^', '^', '<'] + datatype + seq!['>'];
    let raw = seq!['"'] + s + seq!['"', '^', '^', '<'] + datatype + seq!['>'];
    assert(raw =~= seq!['"'] + s + seq!['"'] + tail);
    quoted_comes_apart(s, tail);
    let angled = tail.skip(2);
    assert(angled.drop_first() =~= datatype + seq!['>']);
    assert((datatype + seq!['>'])[0] == datatype[0]);
    assert(strip_open(angled) == strip_open(datatype + seq!['>']));
    assert((datatype + seq!['>']).drop_last() =~= datatype);
    assert(strip_close(datatype + seq!['>']) == strip_close(datatype));
}

/// The literal of an integer reads back as the integer: as a value, as a number
/// and as a typed number.
pub proof fn integer_literal_round_trips(n: i64)
    ensures
        value_of(integer_view(n as int)) == signed_decimal(n as int),
        number_of::<WholeNumbers>(integer_view(n as int)) == Some(n),
        typed_of::<WholeNumbers>(integer_view(n as int)) == Some(n),
        parts_of(lex_of(integer_view(n as int))) == (PartsView {
            value: signed_decimal(n as int),
            lang: None,
            datatype: Some("http://www.w3.org/2001/XMLSchema#integer"@),
        }),
        kind_of(integer_view(n as int)) == TermKind::Literal,
{
    reveal_strlit("\"");
    reveal_strlit("\"^^<http://www.w3.org/2001/XMLSchema#integer>");
    reveal_strlit("http://www.w3.org/2001/XMLSchema#integer");
    let s = signed_decimal(n as int);
    let dt = "http://www.w3.org/2001/XMLSchema#integer"@;
    integers_are_simple(n as int);
    integers_read_back(n);
    typed_comes_apart(s, dt);
    assert(lex_of(integer_view(n as int)) =~= seq!['"'] + s + seq!['"', '^', '^', '<'] + dt + seq![
        '>',
    ]);
}

/// Two integers have two literals.
pub proof fn integer_literals_differ(a: i64, b: i64)
    ensures
        integer_view(a as int) == integer_view(b as int) <==> a == b,
{
    integer_literal_round_trips(a);
    integer_literal_round_trips(b);
}

/// The literal of a truth value has that truth, and the two differ.
pub proof fn truth_literal_round_trips<N: Numbers>(v: bool)
    ensures
        truth_of::<N>(bool_view(v)) == v,
        bool_view(true) != bool_view(false),
        parts_of(lex_of(bool_view(v))) == (PartsView {
            value: if v {
                "true"@
            } else {
                "false"@
            },
            lang: None,
            datatype: Some("http://www.w3.org/2001/XMLSchema#boolean"@),
        }),
{
    reveal_strlit("\"");
    reveal_strlit("true");
    reveal_strlit("false");
    reveal_strlit("1");
    reveal_strlit("\"^^<http://www.w3.org/2001/XMLSchema#boolean>");
    reveal_strlit("http://www.w3.org/2001/XMLSchema#boolean");
    let dt = "http://www.w3.org/2001/XMLSchema#boolean"@;
    let (y, n) = ("true"@, "false"@);
    assert(y =~= seq!['t', 'r', 'u', 'e']);
    assert(n =~= seq!['f', 'a', 'l', 's', 'e']);
    assert(y.len() != n.len() && "1"@.len() != n.len());
    typed_comes_apart(y, dt);
    typed_comes_apart(n, dt);
    assert(lex_of(bool_view(true)) =~= seq!['"'] + y + seq!['"', '^', '^', '<'] + dt + seq!['>']);
    assert(lex_of(bool_view(false)) =~= seq!['"'] + n + seq!['"', '^', '^', '<'] + dt + seq!['>']);
    let raw = lex_of(bool_view(v));
    assert(raw.subrange(0, 1) =~= "\""@);
    assert(starts(raw, "\""@));
}

}
