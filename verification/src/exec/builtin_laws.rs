//! What the builtin functions return, by their arguments.

use crate::algebra::{Func, TermView};
use crate::exec::builtin::{
    arg_kinds, concat_texts, cut, decimal_view, flag_view, func_value, is_string, lower_case,
    regex_match, regex_replace, upper_case,
};
use crate::exec::literal::{
    escaped, integer_view, lang_literal_round_trips, lang_view, lex_of, numeric_datatype,
    plain_literal_round_trips, plain_view, string_literal_round_trips, string_view, typed_of,
    value_of,
};
use crate::exec::number::{
    all_digits, digit_value, digits_value, is_digit, Numbers, Unary, WholeNumbers,
};
use crate::exec::strings::{
    a_kind_reads_back, before_and_after_make_the_whole, byte_text, compatible, datetime_field,
    datetime_shaped, seconds_end, shared_kind, str_kind_of, truth_of, StrKindView,
};
use crate::exec::value_laws::{
    integer_literal_round_trips, integer_text_is_tight, is_simple, simple_char, typed_comes_apart,
};
use crate::text::{
    decimal, ends, find_from, find_from_facts, lower, lower_char, occurs_at, starts, trimmed,
    white, Text,
};
use vstd::prelude::*;
use vstd::utf8::{encode_utf8, is_ascii_chars, is_ascii_chars_encode_utf8};

verus! {

/// A call with one argument.
pub open spec fn call<N: Numbers>(f: Func, t: TermView) -> Option<TermView> {
    func_value::<N>(f, seq![Some(t)])
}

/// A call with two arguments.
pub open spec fn call_two<N: Numbers>(f: Func, s: TermView, t: TermView) -> Option<TermView> {
    func_value::<N>(f, seq![Some(s), Some(t)])
}

/// A call with three arguments.
pub open spec fn call_three<N: Numbers>(f: Func, s: TermView, t: TermView, u: TermView) -> Option<
    TermView,
> {
    func_value::<N>(f, seq![Some(s), Some(t), Some(u)])
}

/// Does a call return a true value?
pub open spec fn says<N: Numbers>(r: Option<TermView>, v: bool) -> bool {
    r matches Some(t) && truth_of::<N>(t) == v
}

/// The truth a function returns is read back as it.
pub proof fn a_flag_reads_back<N: Numbers>(v: bool)
    ensures
        says::<N>(Some(flag_view(v)), v),
{
    reveal_strlit("true");
    reveal_strlit("false");
    reveal_strlit("\"");
    let raw = lex_of(flag_view(v));
    assert("true"@.len() != "false"@.len());
    assert(raw.subrange(0, 1)[0] != '"');
    assert("\""@[0] == '"');
}

// ── Kinds of terms ──────────────────────────────────────────────────────────

/// An IRI, a blank node and a literal are told apart. An IRI is taken for what
/// it says unless it is written as a literal or a blank node.
pub proof fn kinds_are_told_apart<N: Numbers>(s: Text)
    ensures
        ({
            let (i, b, l) = (TermView::Iri(s), TermView::BlankNode(s), TermView::Literal(s));
            &&& says::<N>(call::<N>(Func::IsBlank, b), true)
            &&& says::<N>(call::<N>(Func::IsIri, b), false)
            &&& says::<N>(call::<N>(Func::IsLiteral, b), false)
            &&& says::<N>(call::<N>(Func::IsLiteral, l), true)
            &&& says::<N>(call::<N>(Func::IsIri, l), false)
            &&& says::<N>(call::<N>(Func::IsBlank, l), false)
            &&& s.len() > 0 && s[0] != '"' && s[0] != '_' ==> {
                &&& says::<N>(call::<N>(Func::IsIri, i), true)
                &&& says::<N>(call::<N>(Func::IsLiteral, i), false)
                &&& says::<N>(call::<N>(Func::IsBlank, i), false)
            }
        }),
{
    a_flag_reads_back::<N>(true);
    a_flag_reads_back::<N>(false);
    reveal_strlit("\"");
    reveal_strlit("_:");
    if s.len() > 0 && s[0] != '"' && s[0] != '_' {
        if starts(s, "\""@) {
            assert(s.subrange(0, 1)[0] == "\""@[0]);
        }
        if starts(s, "_:"@) {
            assert(s.subrange(0, 2)[0] == "_:"@[0]);
        }
    }
}

/// An integer is a number, a string is none.
pub proof fn integers_are_numbers(n: i64, s: Text)
    ensures
        says::<WholeNumbers>(
            call::<WholeNumbers>(Func::IsNumeric, integer_view(n as int)),
            true,
        ),
        says::<WholeNumbers>(call::<WholeNumbers>(Func::IsNumeric, plain_view(s)), false),
{
    a_flag_reads_back::<WholeNumbers>(true);
    a_flag_reads_back::<WholeNumbers>(false);
    integer_literal_round_trips(n);
    plain_literal_round_trips(s);
    reveal_strlit("http://www.w3.org/2001/XMLSchema#integer");
    reveal_strlit("http://www.w3.org/2001/XMLSchema#");
    reveal_strlit("integer");
    let dt = "http://www.w3.org/2001/XMLSchema#integer"@;
    let ns = "http://www.w3.org/2001/XMLSchema#"@;
    assert(dt.subrange(0, ns.len() as int) =~= ns);
    assert(dt.skip(ns.len() as int) =~= "integer"@);
}

// ── Parts of literals ───────────────────────────────────────────────────────

/// `STR` is a simple literal with the value of its argument.
pub proof fn str_keeps_the_value<N: Numbers>(t: TermView)
    ensures
        call::<N>(Func::Str, t) matches Some(r) && value_of(r) == value_of(t) && str_kind_of(r)
            == Some(StrKindView::Simple),
{
    plain_literal_round_trips(value_of(t));
}

/// `LANG` and `DATATYPE` of a literal are the tag and the datatype it was made
/// with.
pub proof fn a_literal_has_what_it_was_made_with<N: Numbers>(s: Text, lang: Text, n: i64)
    requires
        lang.len() > 0 ==> !white(lang.last()),
    ensures
        call::<N>(Func::Lang, lang_view(s, lang)) matches Some(r) && value_of(r) == lang,
        call::<N>(Func::Lang, plain_view(s)) matches Some(r) && value_of(r).len() == 0,
        call::<N>(Func::Lang, string_view(s)) matches Some(r) && value_of(r).len() == 0,
        call::<N>(Func::Lang, TermView::BlankNode(s)) is None,
        call::<N>(Func::Datatype, lang_view(s, lang)) == Some(
            TermView::Iri("http://www.w3.org/1999/02/22-rdf-syntax-ns#langString"@),
        ),
        call::<N>(Func::Datatype, plain_view(s)) == Some(
            TermView::Iri("http://www.w3.org/2001/XMLSchema#string"@),
        ),
        call::<N>(Func::Datatype, string_view(s)) == Some(
            TermView::Iri("http://www.w3.org/2001/XMLSchema#string"@),
        ),
        call::<N>(Func::Datatype, integer_view(n as int)) == Some(
            TermView::Iri("http://www.w3.org/2001/XMLSchema#integer"@),
        ),
        call::<N>(Func::Datatype, TermView::BlankNode(s)) is None,
{
    plain_literal_round_trips(s);
    lang_literal_round_trips(s, lang);
    string_literal_round_trips(s);
    integer_literal_round_trips(n);
    plain_literal_round_trips(lang);
    plain_literal_round_trips(Seq::empty());
}

/// `LANGMATCHES`: a tag is in the range of itself, of a range it extends behind
/// a hyphen, and where it is not empty in that of the asterisk, whatever the
/// case; a tag that does not begin as the range does is in none.
pub proof fn a_range_takes_its_extensions<N: Numbers>(tag: Text, more: Text, range: Text)
    ensures
        says::<N>(call_two::<N>(Func::LangMatches, plain_view(tag), plain_view(lower(tag))), lower(
            tag,
        ) != "*"@ || lower(tag).len() > 0),
        lower(tag) != "*"@ ==> says::<N>(
            call_two::<N>(Func::LangMatches, plain_view(tag + "-"@ + more), plain_view(tag)),
            true,
        ),
        says::<N>(
            call_two::<N>(Func::LangMatches, plain_view(tag), plain_view("*"@)),
            tag.len() > 0,
        ),
        lower(range) != "*"@ && !starts(lower(tag), lower(range)) ==> says::<N>(
            call_two::<N>(Func::LangMatches, plain_view(tag), plain_view(range)),
            false,
        ),
{
    reveal_strlit("*");
    reveal_strlit("-");
    a_flag_reads_back::<N>(true);
    a_flag_reads_back::<N>(false);
    let longer = tag + "-"@ + more;
    plain_literal_round_trips(tag);
    plain_literal_round_trips(range);
    plain_literal_round_trips(lower(tag));
    plain_literal_round_trips(longer);
    plain_literal_round_trips("*"@);
    assert(lower("*"@) =~= "*"@);
    lower_again(tag);
    let l = lower(tag) + "-"@;
    assert(lower(longer).subrange(0, l.len() as int) =~= l) by {
        assert forall|i: int| 0 <= i < l.len() implies lower(longer)[i] == l[i] by {}
    }
    let r = lower(range);
    if !starts(lower(tag), r) {
        if starts(lower(tag), r + "-"@) {
            assert(lower(tag).subrange(0, r.len() as int) =~= r) by {
                let p = r + "-"@;
                assert forall|i: int| 0 <= i < r.len() implies lower(tag)[i] == r[i] by {
                    assert(lower(tag).subrange(0, p.len() as int)[i] == p[i]);
                }
            }
        }
        if lower(tag) == r {
            assert(lower(tag).subrange(0, r.len() as int) =~= r);
        }
    }
}

proof fn lower_again(s: Text)
    ensures
        lower(lower(s)) == lower(s),
{
    assert forall|i: int| 0 <= i < s.len() implies lower(lower(s))[i] == lower(s)[i] by {
        let c = s[i];
        assert(lower_char(lower_char(c)) == lower_char(c));
    }
    assert(lower(lower(s)) =~= lower(s));
}

// ── Strings ─────────────────────────────────────────────────────────────────

/// `STRLEN` is the number of characters of the value.
pub proof fn a_length_is_how_long<N: Numbers>(t: TermView)
    requires
        value_of(t).len() <= i64::MAX,
    ensures
        call::<N>(Func::StrLen, t) == Some(integer_view(value_of(t).len() as int)),
{
}

/// `STRSTARTS` holds where the first value is the second and some rest,
/// `STRENDS` where it is some front and the second, and `CONTAINS` where it is
/// some front, the second and some rest.
pub proof fn parts_are_found<N: Numbers>(s: TermView, t: TermView)
    ensures
        ({
            let (a, b) = (value_of(s), value_of(t));
            &&& says::<N>(
                call_two::<N>(Func::StrStarts, s, t),
                exists|rest: Text| a == #[trigger] (b + rest),
            )
            &&& says::<N>(
                call_two::<N>(Func::StrEnds, s, t),
                exists|front: Text| a == #[trigger] (front + b),
            )
            &&& says::<N>(
                call_two::<N>(Func::Contains, s, t),
                exists|front: Text, rest: Text| a == #[trigger] (front + b + rest),
            )
        }),
{
    a_flag_reads_back::<N>(true);
    a_flag_reads_back::<N>(false);
    let (a, b) = (value_of(s), value_of(t));
    if starts(a, b) {
        let rest = a.skip(b.len() as int);
        assert(a =~= b + rest);
    }
    if exists|rest: Text| a == #[trigger] (b + rest) {
        let rest = choose|rest: Text| a == #[trigger] (b + rest);
        assert(a.subrange(0, b.len() as int) =~= b);
    }
    if ends(a, b) {
        let front = a.take(a.len() - b.len());
        assert(a =~= front + b);
    }
    if exists|front: Text| a == #[trigger] (front + b) {
        let front = choose|front: Text| a == #[trigger] (front + b);
        assert(a.subrange(a.len() - b.len(), a.len() as int) =~= b);
    }
    find_from_facts(a, b, 0);
    if let Some(i) = find_from(a, b, 0) {
        let (front, rest) = (a.take(i), a.skip(i + b.len()));
        assert(a =~= front + b + rest) by {
            assert(a.subrange(i, i + b.len()) == b);
            assert forall|k: int| 0 <= k < a.len() implies a[k] == (front + b + rest)[k] by {
                if i <= k < i + b.len() {
                    assert(a.subrange(i, i + b.len())[k - i] == b[k - i]);
                }
            }
        }
    }
    if exists|front: Text, rest: Text| a == #[trigger] (front + b + rest) {
        let (front, rest) = choose|front: Text, rest: Text| a == #[trigger] (front + b + rest);
        let i = front.len() as int;
        assert(a.subrange(i, i + b.len()) =~= b);
        assert(occurs_at(a, b, i));
    }
}

/// `STRBEFORE` and `STRAFTER` are what stands before and after the first
/// occurrence; the three make up the whole.
pub proof fn before_and_after<N: Numbers>(s: TermView, t: TermView)
    requires
        str_kind_of(s) is Some,
        str_kind_of(t) is Some,
        compatible(str_kind_of(s)->0, str_kind_of(t)->0),
    ensures
        call_two::<N>(Func::StrBefore, s, t) is Some,
        call_two::<N>(Func::StrAfter, s, t) is Some,
        ({
            let (a, b) = (value_of(s), value_of(t));
            let (x, y) = (
                call_two::<N>(Func::StrBefore, s, t)->0,
                call_two::<N>(Func::StrAfter, s, t)->0,
            );
            &&& (exists|i: int| #[trigger] occurs_at(a, b, i)) ==> {
                &&& value_of(x) + b + value_of(y) == a
                &&& forall|i: int| 0 <= i < value_of(x).len() ==> !#[trigger] occurs_at(a, b, i)
                &&& str_kind_of(x) == str_kind_of(s) && str_kind_of(y) == str_kind_of(s)
            }
            &&& !(exists|i: int| #[trigger] occurs_at(a, b, i)) ==> value_of(x).len() == 0
                && value_of(y).len() == 0
        }),
{
    before_and_after_make_the_whole(s, t);
    plain_literal_round_trips(Seq::empty());
}

/// Strings of two languages, or a string with a language in one without, are
/// not looked for in each other.
pub proof fn languages_do_not_mix<N: Numbers>(s: Text, t: Text, a: Text, b: Text)
    requires
        a.len() > 0 && !white(a.last()),
        b.len() > 0 && !white(b.last()),
    ensures
        a != b ==> call_two::<N>(Func::StrBefore, lang_view(s, a), lang_view(t, b)) is None,
        call_two::<N>(Func::StrBefore, lang_view(s, a), lang_view(t, a)) is Some,
        call_two::<N>(Func::StrAfter, plain_view(s), lang_view(t, a)) is None,
        call_two::<N>(Func::StrAfter, lang_view(s, a), plain_view(t)) is Some,
{
    plain_literal_round_trips(s);
    plain_literal_round_trips(t);
    lang_literal_round_trips(s, a);
    lang_literal_round_trips(t, b);
    lang_literal_round_trips(t, a);
}

/// `SUBSTR` of a string from a position on is its characters from there, and
/// with a length the first so many of these; positions count from one. It has
/// the kind of the string.
pub proof fn a_part_is_cut_out(t: TermView, from: i64, count: i64)
    requires
        str_kind_of(t) is Some,
        1 <= from,
        0 <= count <= usize::MAX,
    ensures
        ({
            let s = value_of(t);
            let rest = call_two::<WholeNumbers>(Func::SubStr, t, integer_view(from as int));
            let part = call_three::<WholeNumbers>(
                Func::SubStr,
                t,
                integer_view(from as int),
                integer_view(count as int),
            );
            &&& rest is Some && part is Some
            &&& str_kind_of(rest->0) == str_kind_of(t) && str_kind_of(part->0) == str_kind_of(t)
            &&& from - 1 <= s.len() ==> s == s.take(from - 1) + value_of(rest->0)
            &&& from - 1 > s.len() ==> value_of(rest->0).len() == 0
            &&& count <= value_of(rest->0).len() ==> value_of(part->0) == value_of(rest->0).take(
                count as int,
            )
            &&& count > value_of(rest->0).len() ==> value_of(part->0) == value_of(rest->0)
        }),
{
    let s = value_of(t);
    integer_literal_round_trips(from);
    integer_literal_round_trips(count);
    let start = from - 1;
    let rest = cut(s, start, s.len() as int);
    let part = cut(s, start, count as int);
    a_kind_reads_back(t, rest);
    a_kind_reads_back(t, part);
    let two = seq![Some(t), Some(integer_view(from as int))];
    let three = seq![
        Some(t),
        Some(integer_view(from as int)),
        Some(integer_view(count as int)),
    ];
    assert(two[0] == Some(t) && two[1] == Some(integer_view(from as int)));
    assert(three[0] == Some(t) && three[1] == Some(integer_view(from as int)) && three[2] == Some(
        integer_view(count as int),
    ));
    if start < s.len() {
        assert(rest =~= s.skip(start));
        assert(s =~= s.take(start) + rest);
        if count <= rest.len() {
            assert(part =~= rest.take(count as int));
        } else {
            assert(part =~= rest);
        }
    } else {
        assert(rest =~= Seq::empty());
        assert(part =~= rest);
        if count == 0 {
            assert(rest.take(0) =~= part);
        }
        if start == s.len() {
            assert(s =~= s.take(start) + rest);
        }
    }
}

/// `CONCAT` of one string is its value; of two lists it is the value of the
/// first and then that of the second. It has the kind its parts share.
pub proof fn concatenation_is_end_to_end<N: Numbers>(
    a: Seq<Option<TermView>>,
    b: Seq<Option<TermView>>,
    t: TermView,
)
    requires
        forall|i: int| 0 <= i < a.len() ==> is_string(#[trigger] a[i]),
        forall|i: int| 0 <= i < b.len() ==> is_string(#[trigger] b[i]),
        str_kind_of(t) is Some,
    ensures
        ({
            let (x, y, z) = (
                func_value::<N>(Func::Concat, a),
                func_value::<N>(Func::Concat, b),
                func_value::<N>(Func::Concat, a + b),
            );
            &&& x is Some && y is Some && z is Some
            &&& value_of(z->0) == value_of(x->0) + value_of(y->0)
            &&& call::<N>(Func::Concat, t) matches Some(r) && value_of(r) == value_of(t)
                && str_kind_of(r) == str_kind_of(t)
        }),
{
    let all = a + b;
    assert forall|i: int| 0 <= i < all.len() implies is_string(#[trigger] all[i]) by {
        if i < a.len() {
            assert(all[i] == a[i]);
        } else {
            assert(all[i] == b[i - a.len()]);
        }
    }
    concat_reads_back::<N>(a);
    concat_reads_back::<N>(b);
    concat_reads_back::<N>(all);
    texts_append(a, b);
    let one = seq![Some(t)];
    assert(is_string(one[0]));
    assert forall|i: int| 0 <= i < one.len() implies is_string(#[trigger] one[i]) by {}
    concat_reads_back::<N>(one);
    assert(one.drop_last() =~= Seq::empty());
    assert(concat_texts(one.drop_last()) =~= Seq::empty());
    assert(concat_texts(one) =~= value_of(t));
    a_kind_reads_back(t, value_of(t));
    let kinds = arg_kinds(one);
    assert(kinds[0] == str_kind_of(t)->0);
    assert(shared_kind(kinds) == kinds[0]);
}

proof fn texts_append(a: Seq<Option<TermView>>, b: Seq<Option<TermView>>)
    ensures
        concat_texts(a + b) == concat_texts(a) + concat_texts(b),
    decreases b.len(),
{
    if b.len() == 0 {
        assert(a + b =~= a);
        assert(concat_texts(a) + concat_texts(b) =~= concat_texts(a));
    } else {
        texts_append(a, b.drop_last());
        assert((a + b).drop_last() =~= a + b.drop_last());
        assert((a + b).last() == b.last());
        assert(concat_texts(a + b) =~= concat_texts(a) + concat_texts(b));
    }
}

proof fn concat_reads_back<N: Numbers>(args: Seq<Option<TermView>>)
    requires
        forall|i: int| 0 <= i < args.len() ==> is_string(#[trigger] args[i]),
    ensures
        func_value::<N>(Func::Concat, args) is Some,
        value_of(func_value::<N>(Func::Concat, args)->0) == concat_texts(args),
{
    let kinds = arg_kinds(args);
    let text = concat_texts(args);
    plain_literal_round_trips(text);
    if args.len() > 0 {
        assert(is_string(args[0]));
        assert(kinds[0] == str_kind_of(args[0]->0)->0);
        a_kind_reads_back(args[0]->0, text);
    }
}

/// `UCASE` and `LCASE` are the upper and the lower case of the value, in a
/// literal of the same kind.
pub proof fn case_is_changed<N: Numbers>(t: TermView)
    requires
        str_kind_of(t) is Some,
    ensures
        call::<N>(Func::UCase, t) matches Some(r) && value_of(r) == upper_case(value_of(t))
            && str_kind_of(r) == str_kind_of(t),
        call::<N>(Func::LCase, t) matches Some(r) && value_of(r) == lower_case(value_of(t))
            && str_kind_of(r) == str_kind_of(t),
{
    a_kind_reads_back(t, upper_case(value_of(t)));
    a_kind_reads_back(t, lower_case(value_of(t)));
}

/// `REGEX` tells whether the pattern, its second argument, matches in the first,
/// under no switches or under those its third names, each by its letter.
pub proof fn a_pattern_is_looked_for<N: Numbers>(s: TermView, p: TermView, m: bool, flag: char)
    requires
        flag == 'i' || flag == 's' || flag == 'm' || flag == 'x',
    ensures
        regex_match(value_of(p), false, false, false, false, value_of(s)) == Some(m)
            ==> says::<N>(call_two::<N>(Func::Regex, s, p), m),
        regex_match(
            value_of(p),
            flag == 'i',
            flag == 's',
            flag == 'm',
            flag == 'x',
            value_of(s),
        ) == Some(m) ==> says::<N>(
            call_three::<N>(Func::Regex, s, p, plain_view(seq![flag])),
            m,
        ),
{
    a_flag_reads_back::<N>(true);
    a_flag_reads_back::<N>(false);
    let f = seq![flag];
    plain_literal_round_trips(f);
    assert(f[0] == flag);
    assert forall|c: char| f.contains(c) == (c == flag) by {
        if c == flag {
            assert(f[0] == c);
        }
    }
    let none = Seq::<char>::empty();
    assert(!none.contains('i') && !none.contains('s') && !none.contains('m') && !none.contains(
        'x',
    ));
    let two = seq![Some(s), Some(p)];
    assert(two[0] == Some(s) && two[1] == Some(p));
    let three = seq![Some(s), Some(p), Some(plain_view(f))];
    assert(three[0] == Some(s) && three[1] == Some(p) && three[2] == Some(plain_view(f)));
}

/// `REPLACE` is the first argument with the matches of the second replaced by
/// the third, in a literal of the same kind.
pub proof fn matches_are_replaced<N: Numbers>(s: TermView, p: TermView, w: TermView, out: Text)
    requires
        str_kind_of(s) is Some,
        regex_replace(value_of(p), false, false, false, false, value_of(s), value_of(w)) == Some(
            out,
        ),
    ensures
        call_three::<N>(Func::Replace, s, p, w) matches Some(r) && value_of(r) == out
            && str_kind_of(r) == str_kind_of(s),
{
    a_kind_reads_back(s, out);
    let none = Seq::<char>::empty();
    assert(!none.contains('i') && !none.contains('s') && !none.contains('m') && !none.contains(
        'x',
    ));
    let three = seq![Some(s), Some(p), Some(w)];
    assert(three[0] == Some(s) && three[1] == Some(p) && three[2] == Some(w));
}

// ── Numbers ─────────────────────────────────────────────────────────────────

/// `ABS` of an integer is its distance from zero; an integer is rounded already.
pub proof fn integers_are_rounded(n: i64)
    ensures
        n >= 0 ==> call::<WholeNumbers>(Func::Abs, integer_view(n as int)) == Some(
            integer_view(n as int),
        ),
        i64::MIN < n < 0 ==> call::<WholeNumbers>(Func::Abs, integer_view(n as int)) == Some(
            integer_view(-n),
        ),
        call::<WholeNumbers>(Func::Ceil, integer_view(n as int)) == Some(integer_view(n as int)),
        call::<WholeNumbers>(Func::Floor, integer_view(n as int)) == Some(integer_view(n as int)),
        call::<WholeNumbers>(Func::Round, integer_view(n as int)) == Some(integer_view(n as int)),
{
    integer_literal_round_trips(n);
}

// ── Truth ───────────────────────────────────────────────────────────────────

/// A string is true where it is not empty, an integer where it is not zero; an
/// IRI and a blank node are not.
pub proof fn what_is_true(s: Text, n: i64)
    ensures
        truth_of::<WholeNumbers>(plain_view(s)) <==> s.len() > 0,
        truth_of::<WholeNumbers>(string_view(s)) <==> s.len() > 0,
        truth_of::<WholeNumbers>(integer_view(n as int)) <==> n != 0,
        !truth_of::<WholeNumbers>(TermView::BlankNode(s)),
        s.len() > 0 && s[0] != '"' ==> !truth_of::<WholeNumbers>(TermView::Iri(s)),
{
    plain_literal_round_trips(s);
    string_literal_round_trips(s);
    integer_literal_round_trips(n);
    integers_are_numbers(n, s);
    escaping_keeps_emptiness(s);
    reveal_strlit("\"");
    reveal_strlit("http://www.w3.org/2001/XMLSchema#string");
    reveal_strlit("http://www.w3.org/2001/XMLSchema#boolean");
    reveal_strlit("http://www.w3.org/2001/XMLSchema#integer");
    reveal_strlit("http://www.w3.org/2001/XMLSchema#");
    reveal_strlit("integer");
    reveal_strlit("\"^^<http://www.w3.org/2001/XMLSchema#integer>");
    reveal_strlit("\"^^<http://www.w3.org/2001/XMLSchema#string>");
    let ns = "http://www.w3.org/2001/XMLSchema#"@;
    let dt = "http://www.w3.org/2001/XMLSchema#integer"@;
    let st = "http://www.w3.org/2001/XMLSchema#string"@;
    assert(dt.subrange(0, ns.len() as int) =~= ns);
    assert(dt.skip(ns.len() as int) =~= "integer"@);
    assert(dt.len() != "http://www.w3.org/2001/XMLSchema#boolean"@.len() || dt[33] != 'b');
    assert("http://www.w3.org/2001/XMLSchema#boolean"@[33] == 'b');
    assert(st[33] == 's' && dt[33] == 'i');
    string_is_no_number();
    assert(lex_of(plain_view(s)).subrange(0, 1) =~= "\""@);
    assert(lex_of(string_view(s)).subrange(0, 1) =~= "\""@);
    assert(lex_of(integer_view(n as int)).subrange(0, 1) =~= "\""@);
    integer_text_is_tight(n as int);
    if s.len() > 0 && s[0] != '"' {
        if starts(s, "\""@) {
            assert(s.subrange(0, 1)[0] == "\""@[0]);
        }
    }
}

proof fn escaping_keeps_emptiness(s: Text)
    ensures
        escaped(s).len() == 0 <==> s.len() == 0,
{
}

proof fn string_is_no_number()
    ensures
        !numeric_datatype("http://www.w3.org/2001/XMLSchema#string"@),
{
    reveal_strlit("http://www.w3.org/2001/XMLSchema#string");
    reveal_strlit("http://www.w3.org/2001/XMLSchema#");
    let ns = "http://www.w3.org/2001/XMLSchema#"@;
    let st = "http://www.w3.org/2001/XMLSchema#string"@;
    let local = st.skip(ns.len() as int);
    assert(local =~= seq!['s', 't', 'r', 'i', 'n', 'g']);
    reveal_strlit("integer");
    reveal_strlit("decimal");
    reveal_strlit("double");
    reveal_strlit("float");
    reveal_strlit("long");
    reveal_strlit("int");
    reveal_strlit("short");
    reveal_strlit("byte");
    reveal_strlit("nonNegativeInteger");
    reveal_strlit("nonPositiveInteger");
    reveal_strlit("negativeInteger");
    reveal_strlit("positiveInteger");
    reveal_strlit("unsignedLong");
    reveal_strlit("unsignedInt");
    reveal_strlit("unsignedShort");
    reveal_strlit("unsignedByte");
    assert("double"@[0] == 'd');
    assert(local.len() == 6);
}

// ── Date-times ──────────────────────────────────────────────────────────────

/// A date and a time, written out.
pub open spec fn written(
    year: Text,
    month: Text,
    day: Text,
    hours: Text,
    minutes: Text,
    seconds: Text,
) -> Text {
    year + seq!['-'] + month + seq!['-'] + day + seq!['T'] + hours + seq![':'] + minutes + seq![':']
        + seconds
}

/// The literal of a date and a time.
pub open spec fn datetime_view(s: Text) -> TermView {
    TermView::Literal(
        seq!['"'] + s + seq!['"', '^', '^', '<'] + "http://www.w3.org/2001/XMLSchema#dateTime"@
            + seq!['>'],
    )
}

proof fn field_reads_back(s: Text, from: int, part: Text)
    requires
        is_ascii_chars(s),
        all_digits(part),
        part.len() > 0,
        part.len() <= 4,
        0 <= from,
        from + part.len() <= s.len(),
        s.subrange(from, from + part.len()) == part,
    ensures
        datetime_field(encode_utf8(s), from, from + part.len()) == Some(digits_value(part) as i64),
        0 <= digits_value(part) <= 9999,
{
    is_ascii_chars_encode_utf8(s);
    let b = encode_utf8(s);
    let t = byte_text(b.subrange(from, from + part.len()));
    assert(t =~= part) by {
        assert forall|i: int| 0 <= i < part.len() implies t[i] == part[i] by {
            assert(s.subrange(from, from + part.len())[i] == part[i]);
            assert(b[from + i] as char == s[from + i]);
        }
    }
    small_digits(part);
    assert(is_digit(part[0]));
}

proof fn small_digits(s: Text)
    requires
        all_digits(s),
        s.len() <= 4,
    ensures
        0 <= digits_value(s) <= 9999,
{
    reveal_with_fuel(digits_value, 5);
    assert forall|i: int| 0 <= i < s.len() implies 0 <= digit_value(
        #[trigger] s[i],
    ) <= 9 by {
        assert(is_digit(s[i]));
    }
    if s.len() > 0 {
        assert(s.last() == s[s.len() - 1]);
        let a = s.drop_last();
        if a.len() > 0 {
            assert(a.last() == s[a.len() - 1]);
            let b = a.drop_last();
            if b.len() > 0 {
                assert(b.last() == s[b.len() - 1]);
                let c = b.drop_last();
                if c.len() > 0 {
                    assert(c.last() == s[c.len() - 1]);
                    assert(c.drop_last().len() == 0);
                }
            }
        }
    }
}

/// The fields of a date-time are the numbers it is written with.
pub proof fn a_datetime_has_its_fields<N: Numbers>(
    year: Text,
    month: Text,
    day: Text,
    hours: Text,
    minutes: Text,
    seconds: Text,
)
    requires
        all_digits(year) && year.len() == 4,
        all_digits(month) && month.len() == 2,
        all_digits(day) && day.len() == 2,
        all_digits(hours) && hours.len() == 2,
        all_digits(minutes) && minutes.len() == 2,
        all_digits(seconds) && seconds.len() == 2,
    ensures
        ({
            let t = datetime_view(written(year, month, day, hours, minutes, seconds));
            &&& call::<N>(Func::Year, t) == Some(integer_view(digits_value(year)))
            &&& call::<N>(Func::Month, t) == Some(integer_view(digits_value(month)))
            &&& call::<N>(Func::Day, t) == Some(integer_view(digits_value(day)))
            &&& call::<N>(Func::Hours, t) == Some(integer_view(digits_value(hours)))
            &&& call::<N>(Func::Minutes, t) == Some(integer_view(digits_value(minutes)))
            &&& N::parsed(seconds) matches Some(x) ==> call::<N>(Func::Seconds, t) == Some(
                decimal_view(N::shown(x)),
            )
        }),
{
    let s = written(year, month, day, hours, minutes, seconds);
    let dt = "http://www.w3.org/2001/XMLSchema#dateTime"@;
    reveal_strlit("http://www.w3.org/2001/XMLSchema#dateTime");
    assert forall|i: int| 0 <= i < s.len() implies simple_char(#[trigger] s[i]) && (s[i] as u32)
        < 128 by {
        if i < 4 {
            assert(s[i] == year[i]);
        } else if 5 <= i < 7 {
            assert(s[i] == month[i - 5]);
        } else if 8 <= i < 10 {
            assert(s[i] == day[i - 8]);
        } else if 11 <= i < 13 {
            assert(s[i] == hours[i - 11]);
        } else if 14 <= i < 16 {
            assert(s[i] == minutes[i - 14]);
        } else if 17 <= i {
            assert(s[i] == seconds[i - 17]);
        }
    }
    assert(is_ascii_chars(s));
    typed_comes_apart(s, dt);
    is_ascii_chars_encode_utf8(s);
    let b = encode_utf8(s);
    assert(s.subrange(0, 4) =~= year);
    assert(s.subrange(5, 7) =~= month);
    assert(s.subrange(8, 10) =~= day);
    assert(s.subrange(11, 13) =~= hours);
    assert(s.subrange(14, 16) =~= minutes);
    field_reads_back(s, 0, year);
    field_reads_back(s, 5, month);
    field_reads_back(s, 8, day);
    field_reads_back(s, 11, hours);
    field_reads_back(s, 14, minutes);
    assert(b.len() == 19);
    assert(s[4] == '-' && s[7] == '-' && s[10] == 'T' && s[13] == ':' && s[16] == ':');
    assert forall|i: int| 0 <= i < 4 implies 48 <= #[trigger] b[i] && b[i] <= 57 by {
        assert(s[i] == year[i]);
        assert(is_digit(year[i]));
        assert(b[i] as char == s[i]);
    }
    assert(datetime_shaped(b));
    assert(s[17] == seconds[0] && s[18] == seconds[1]);
    assert(is_digit(seconds[0]) && is_digit(seconds[1]));
    reveal_with_fuel(seconds_end, 3);
    assert(seconds_end(b, 17) == 19);
    assert(byte_text(b.subrange(17, 19)) =~= seconds);
}

/// What comes of a number of the domain, as a term.
pub open spec fn number_term<N: Numbers>(n: Option<N::Typed>) -> Option<TermView> {
    match n {
        Some(r) => Some(TermView::Literal(N::literal(r))),
        None => None,
    }
}

/// Each function on numbers is the operation of its name.
pub proof fn numbers_are_rounded_by_name<N: Numbers>(t: TermView, n: N::Typed)
    requires
        typed_of::<N>(t) == Some(n),
    ensures
        call::<N>(Func::Abs, t) == number_term::<N>(N::unary(Unary::Abs, n)),
        call::<N>(Func::Ceil, t) == number_term::<N>(N::unary(Unary::Ceil, n)),
        call::<N>(Func::Floor, t) == number_term::<N>(N::unary(Unary::Floor, n)),
        call::<N>(Func::Round, t) == number_term::<N>(N::unary(Unary::Round, n)),
{
}

/// A literal is numeric where its datatype is and its value reads as a number.
pub proof fn numbers_are_by_datatype_and_value<N: Numbers>(s: Text, datatype: Text)
    requires
        is_simple(s),
        datatype.len() > 0,
        datatype[0] != '<',
        datatype.last() != '>',
    ensures
        says::<N>(
            call::<N>(
                Func::IsNumeric,
                TermView::Literal(seq!['"'] + s + seq!['"', '^', '^', '<'] + datatype + seq!['>']),
            ),
            numeric_datatype(datatype) && N::parsed(trimmed(s)) is Some,
        ),
{
    typed_comes_apart(s, datatype);
    a_flag_reads_back::<N>(numeric_datatype(datatype) && N::parsed(trimmed(s)) is Some);
}

}
