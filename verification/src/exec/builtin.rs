//! The builtin functions, over argument values.
//!
//! An argument without a value (an expression error, or an argument that was
//! not given) is `None`, and so is the result of a call that is in error.

use crate::algebra::{cells_view, opt_term_view, Func, Term, TermView};
use crate::exec::literal::{
    integer_literal, integer_view, is_numeric_datatype, kind_of, lex, lex_of, literal_parts,
    literal_value, number_of, numeric_datatype, numeric_of, numeric_value, parts_of, plain_literal,
    plain_view, term_kind, typed_of, value_of, TermKind,
};
use crate::exec::number::{Arith, Numbers, Unary};
use crate::exec::strings::{
    before_after, concat_kind, datetime_field, datetime_shaped, is_datetime, kinds_view,
    literal_with_kind, of_kind, read_datetime_field, read_seconds, seconds_text, shared_kind,
    str_before_after, str_kind, str_kind_of, StrKind, StrKindView,
};
use crate::text::{
    chars_of, contains_text, ends, ends_with, find_from, lower, same_text, slice_text, starts,
    starts_with, to_lower, trim, trimmed, Text,
};
use vstd::prelude::*;
use vstd::string::*;
use vstd::utf8::encode_utf8;

verus! {

// ── Case mapping and regular expressions ────────────────────────────────────

/// The text `str::to_uppercase` makes of a text.
pub uninterp spec fn upper_case(s: Text) -> Text;

/// The text `str::to_lowercase` makes of a text.
pub uninterp spec fn lower_case(s: Text) -> Text;

/// `str::to_uppercase`: the Unicode uppercase of a text, by name only.
#[verifier::external_body]
fn to_upper_case(s: &str) -> (r: String)
    ensures
        r@ == upper_case(s@),
{
    s.to_uppercase()
}

/// `str::to_lowercase`: the Unicode lowercase of a text, by name only.
#[verifier::external_body]
fn to_lower_case(s: &str) -> (r: String)
    ensures
        r@ == lower_case(s@),
{
    s.to_lowercase()
}

/// The switches of a regular expression.
#[derive(Debug, Clone, Copy, PartialEq, Eq, Structural)]
pub struct RegexFlags {
    pub case_insensitive: bool,
    pub dot_matches_new_line: bool,
    pub multi_line: bool,
    pub ignore_whitespace: bool,
}

/// Does a pattern match somewhere in a text? `None` where the pattern is no
/// valid regular expression.
pub uninterp spec fn regex_match(
    pattern: Text,
    case_insensitive: bool,
    dot_matches_new_line: bool,
    multi_line: bool,
    ignore_whitespace: bool,
    text: Text,
) -> Option<bool>;

/// A text with every match of a pattern replaced. `None` where the pattern is
/// no valid regular expression.
pub uninterp spec fn regex_replace(
    pattern: Text,
    case_insensitive: bool,
    dot_matches_new_line: bool,
    multi_line: bool,
    ignore_whitespace: bool,
    text: Text,
    replacement: Text,
) -> Option<Text>;

/// `regex::RegexBuilder::build` and `regex::Regex::is_match`: compiles the
/// pattern under the four switches and looks for a match anywhere in the text.
/// The outcome is a function of the arguments and is claimed by name only.
#[verifier::external_body]
fn regex_is_match(pattern: &str, flags: RegexFlags, text: &str) -> (r: Option<bool>)
    ensures
        r == regex_match(
            pattern@,
            flags.case_insensitive,
            flags.dot_matches_new_line,
            flags.multi_line,
            flags.ignore_whitespace,
            text@,
        ),
{
    match regex::RegexBuilder::new(pattern)
        .case_insensitive(flags.case_insensitive)
        .dot_matches_new_line(flags.dot_matches_new_line)
        .multi_line(flags.multi_line)
        .ignore_whitespace(flags.ignore_whitespace)
        .build()
    {
        Ok(re) => Some(re.is_match(text)),
        Err(_) => None,
    }
}

/// `regex::RegexBuilder::build` and `regex::Regex::replace_all`: compiles the
/// pattern under the four switches and replaces every match, `$` references in
/// the replacement expanded. The outcome is a function of the arguments and is
/// claimed by name only.
#[verifier::external_body]
fn regex_replace_all(pattern: &str, flags: RegexFlags, text: &str, replacement: &str) -> (r: Option<
    String,
>)
    ensures
        opt_string(r) == regex_replace(
            pattern@,
            flags.case_insensitive,
            flags.dot_matches_new_line,
            flags.multi_line,
            flags.ignore_whitespace,
            text@,
            replacement@,
        ),
{
    match regex::RegexBuilder::new(pattern)
        .case_insensitive(flags.case_insensitive)
        .dot_matches_new_line(flags.dot_matches_new_line)
        .multi_line(flags.multi_line)
        .ignore_whitespace(flags.ignore_whitespace)
        .build()
    {
        Ok(re) => Some(re.replace_all(text, replacement).into_owned()),
        Err(_) => None,
    }
}

pub open spec fn opt_string(o: Option<String>) -> Option<Text> {
    match o {
        Some(s) => Some(s@),
        None => None,
    }
}

/// The switches a flags text turns on: `i`, `s`, `m` and `x`, in any order and
/// number. Any other character is in error.
pub open spec fn flags_of(s: Text) -> Option<RegexFlags> {
    if forall|i: int|
        0 <= i < s.len() ==> #[trigger] s[i] == 'i' || s[i] == 's' || s[i] == 'm' || s[i] == 'x' {
        Some(
            RegexFlags {
                case_insensitive: s.contains('i'),
                dot_matches_new_line: s.contains('s'),
                multi_line: s.contains('m'),
                ignore_whitespace: s.contains('x'),
            },
        )
    } else {
        None
    }
}

/// Reads a flags text.
pub fn regex_flags(flags: &str) -> (r: Option<RegexFlags>)
    ensures
        r == flags_of(flags@),
{
    let cs = chars_of(flags);
    let mut out = RegexFlags {
        case_insensitive: false,
        dot_matches_new_line: false,
        multi_line: false,
        ignore_whitespace: false,
    };
    let mut i: usize = 0;
    while i < cs.len()
        invariant
            i <= cs@.len(),
            cs@ == flags@,
            forall|j: int|
                0 <= j < i ==> #[trigger] cs@[j] == 'i' || cs@[j] == 's' || cs@[j] == 'm' || cs@[j]
                    == 'x',
            out.case_insensitive == cs@.take(i as int).contains('i'),
            out.dot_matches_new_line == cs@.take(i as int).contains('s'),
            out.multi_line == cs@.take(i as int).contains('m'),
            out.ignore_whitespace == cs@.take(i as int).contains('x'),
        decreases cs@.len() - i,
    {
        let c: char = cs[i];
        proof {
            let t = cs@.take(i as int);
            let u = cs@.take(i + 1);
            assert(u =~= t.push(c));
            assert(u[i as int] == c);
            assert forall|d: char| u.contains(d) == (t.contains(d) || d == c) by {
                if t.contains(d) {
                    let k = choose|k: int| 0 <= k < t.len() && t[k] == d;
                    assert(u[k] == d);
                }
                if u.contains(d) && d != c {
                    let k = choose|k: int| 0 <= k < u.len() && u[k] == d;
                    assert(t[k] == d);
                }
            }
        }
        if c == 'i' {
            out.case_insensitive = true;
        } else if c == 's' {
            out.dot_matches_new_line = true;
        } else if c == 'm' {
            out.multi_line = true;
        } else if c == 'x' {
            out.ignore_whitespace = true;
        } else {
            return None;
        }
        i = i + 1;
    }
    assert(cs@.take(cs@.len() as int) =~= cs@);
    Some(out)
}

// ── What each function returns ──────────────────────────────────────────────

/// The value of an argument; `None` for one that was not given.
pub open spec fn arg(args: Seq<Option<TermView>>, i: int) -> Option<TermView> {
    if 0 <= i < args.len() {
        args[i]
    } else {
        None
    }
}

/// The lexical value of an argument.
pub open spec fn arg_text(args: Seq<Option<TermView>>, i: int) -> Option<Text> {
    match arg(args, i) {
        Some(t) => Some(value_of(t)),
        None => None,
    }
}

/// An argument as a plain number.
pub open spec fn arg_number<N: Numbers>(args: Seq<Option<TermView>>, i: int) -> Option<N::Num> {
    match arg(args, i) {
        Some(t) => number_of::<N>(t),
        None => None,
    }
}

/// A boolean result, which stands unquoted.
pub open spec fn flag_view(v: bool) -> TermView {
    TermView::Literal(
        if v {
            "true"@
        } else {
            "false"@
        },
    )
}

pub open spec fn lang_value(t: TermView) -> Option<TermView> {
    if kind_of(t) != TermKind::Literal {
        None
    } else {
        Some(
            plain_view(
                match parts_of(lex_of(t)).lang {
                    Some(l) => l,
                    None => Seq::empty(),
                },
            ),
        )
    }
}

/// Basic language-range matching: `*` takes any tag but the empty one, another
/// range takes itself and its extensions, ignoring ASCII case.
pub open spec fn lang_in_range(tag: Text, range: Text) -> bool {
    let t = lower(tag);
    let r = lower(range);
    if r == "*"@ {
        t.len() > 0
    } else {
        t == r || starts(t, r + "-"@)
    }
}

pub open spec fn datatype_value(t: TermView) -> Option<TermView> {
    let p = parts_of(lex_of(t));
    if kind_of(t) != TermKind::Literal {
        None
    } else {
        Some(
            TermView::Iri(
                match p.datatype {
                    Some(dt) => dt,
                    None => if p.lang is Some {
                        "http://www.w3.org/1999/02/22-rdf-syntax-ns#langString"@
                    } else {
                        "http://www.w3.org/2001/XMLSchema#string"@
                    },
                },
            ),
        )
    }
}

/// The characters from position `start` on, at most `count` of them.
pub open spec fn cut(s: Text, start: int, count: int) -> Text {
    if start >= s.len() {
        Seq::empty()
    } else if start + count >= s.len() {
        s.skip(start)
    } else {
        s.subrange(start, start + count)
    }
}

/// `SUBSTR`: positions count from one, and the length may be left out.
pub open spec fn substr_value<N: Numbers>(args: Seq<Option<TermView>>) -> Option<TermView> {
    match (arg(args, 0), arg_number::<N>(args, 1)) {
        (Some(t), Some(from)) => match str_kind_of(t) {
            Some(kind) => {
                let text = value_of(t);
                let start = if N::nearest(from) >= 1 {
                    N::nearest(from) - 1
                } else {
                    0
                };
                if args.len() == 2 {
                    Some(of_kind(cut(text, start, text.len() as int), kind))
                } else if args.len() == 3 {
                    match arg_number::<N>(args, 2) {
                        Some(l) => Some(of_kind(cut(text, start, N::nearest_count(l) as int), kind)),
                        None => None,
                    }
                } else {
                    None
                }
            },
            None => None,
        },
        _ => None,
    }
}

/// The texts of string literals end to end, with the kind they share.
pub open spec fn concat_texts(args: Seq<Option<TermView>>) -> Text
    decreases args.len(),
{
    if args.len() == 0 {
        Seq::empty()
    } else {
        concat_texts(args.drop_last()) + value_of(args.last()->0)
    }
}

pub open spec fn arg_kinds(args: Seq<Option<TermView>>) -> Seq<StrKindView> {
    Seq::new(args.len(), |i: int| str_kind_of(args[i]->0)->0)
}

pub open spec fn is_string(a: Option<TermView>) -> bool {
    a is Some && str_kind_of(a->0) is Some
}

pub open spec fn concat_value(args: Seq<Option<TermView>>) -> Option<TermView> {
    if forall|i: int| 0 <= i < args.len() ==> is_string(#[trigger] args[i]) {
        Some(of_kind(concat_texts(args), shared_kind(arg_kinds(args))))
    } else {
        None
    }
}

/// The flags argument at position `i`; no argument stands for no flags.
pub open spec fn arg_flags(args: Seq<Option<TermView>>, i: int) -> Option<RegexFlags> {
    if args.len() == i + 1 {
        match arg_text(args, i) {
            Some(f) => flags_of(f),
            None => None,
        }
    } else {
        flags_of(Seq::empty())
    }
}

pub open spec fn replace_value(args: Seq<Option<TermView>>) -> Option<TermView> {
    match (arg(args, 0), arg_text(args, 1), arg_text(args, 2), arg_flags(args, 3)) {
        (Some(t), Some(pattern), Some(replacement), Some(f)) => match str_kind_of(t) {
            Some(kind) => match regex_replace(
                pattern,
                f.case_insensitive,
                f.dot_matches_new_line,
                f.multi_line,
                f.ignore_whitespace,
                value_of(t),
                replacement,
            ) {
                Some(s) => Some(of_kind(s, kind)),
                None => None,
            },
            None => None,
        },
        _ => None,
    }
}

pub open spec fn regex_value(args: Seq<Option<TermView>>) -> Option<TermView> {
    match (arg_text(args, 0), arg_text(args, 1), arg_flags(args, 2)) {
        (Some(text), Some(pattern), Some(f)) => match regex_match(
            pattern,
            f.case_insensitive,
            f.dot_matches_new_line,
            f.multi_line,
            f.ignore_whitespace,
            text,
        ) {
            Some(m) => Some(flag_view(m)),
            None => None,
        },
        _ => None,
    }
}

/// The result of a unary operator on a literal with a numeric datatype.
pub open spec fn unary_value<N: Numbers>(op: Unary, t: Option<TermView>) -> Option<TermView> {
    match t {
        Some(t) => match typed_of::<N>(t) {
            Some(n) => match N::unary(op, n) {
                Some(r) => Some(TermView::Literal(N::literal(r))),
                None => None,
            },
            None => None,
        },
        None => None,
    }
}

/// The result of a binary operator on literals with numeric datatypes.
pub open spec fn binary_value<N: Numbers>(
    op: Arith,
    a: Option<TermView>,
    b: Option<TermView>,
) -> Option<TermView> {
    match (a, b) {
        (Some(x), Some(y)) => match (typed_of::<N>(x), typed_of::<N>(y)) {
            (Some(m), Some(n)) => match N::binary(op, m, n) {
                Some(r) => Some(TermView::Literal(N::literal(r))),
                None => None,
            },
            _ => None,
        },
        _ => None,
    }
}

/// Is the term a literal of a numeric datatype whose value reads as a number?
pub open spec fn is_number<N: Numbers>(t: TermView) -> bool {
    let p = parts_of(lex_of(t));
    kind_of(t) == TermKind::Literal && p.datatype is Some && numeric_datatype(p.datatype->0)
        && N::parsed(trimmed(p.value)) is Some
}

pub open spec fn integer_field(n: Option<i64>) -> Option<TermView> {
    match n {
        Some(n) => Some(integer_view(n as int)),
        None => None,
    }
}

/// The field of a date-time literal that a function reads.
pub open spec fn datetime_value<N: Numbers>(f: Func, t: TermView) -> Option<TermView> {
    let p = parts_of(lex_of(t));
    let b = encode_utf8(p.value);
    if p.datatype != Some("http://www.w3.org/2001/XMLSchema#dateTime"@) || !datetime_shaped(b) {
        None
    } else {
        match f {
            Func::Year => integer_field(datetime_field(b, 0, 4)),
            Func::Month => integer_field(datetime_field(b, 5, 7)),
            Func::Day => integer_field(datetime_field(b, 8, 10)),
            Func::Hours => integer_field(datetime_field(b, 11, 13)),
            Func::Minutes => integer_field(datetime_field(b, 14, 16)),
            _ => match N::parsed(seconds_text(b)) {
                Some(x) => Some(decimal_view(N::shown(x))),
                None => None,
            },
        }
    }
}

pub open spec fn decimal_view(s: Text) -> TermView {
    TermView::Literal("\""@ + s + "\"^^<http://www.w3.org/2001/XMLSchema#decimal>"@)
}

/// The result of a builtin function on argument values.
pub open spec fn func_value<N: Numbers>(f: Func, args: Seq<Option<TermView>>) -> Option<TermView> {
    let first = arg(args, 0);
    match f {
        Func::Str => match first {
            Some(t) => Some(plain_view(value_of(t))),
            None => None,
        },
        Func::Lang => match first {
            Some(t) => lang_value(t),
            None => None,
        },
        Func::LangMatches => match (arg_text(args, 0), arg_text(args, 1)) {
            (Some(tag), Some(range)) => Some(flag_view(lang_in_range(tag, range))),
            _ => None,
        },
        Func::Datatype => match first {
            Some(t) => datatype_value(t),
            None => None,
        },
        Func::StrLen => match first {
            Some(t) => Some(integer_view(value_of(t).len() as i64 as int)),
            None => None,
        },
        Func::SubStr => substr_value::<N>(args),
        Func::UCase => match first {
            Some(t) => match str_kind_of(t) {
                Some(k) => Some(of_kind(upper_case(value_of(t)), k)),
                None => None,
            },
            None => None,
        },
        Func::LCase => match first {
            Some(t) => match str_kind_of(t) {
                Some(k) => Some(of_kind(lower_case(value_of(t)), k)),
                None => None,
            },
            None => None,
        },
        Func::StrStarts => match (arg_text(args, 0), arg_text(args, 1)) {
            (Some(a), Some(b)) => Some(flag_view(starts(a, b))),
            _ => None,
        },
        Func::StrEnds => match (arg_text(args, 0), arg_text(args, 1)) {
            (Some(a), Some(b)) => Some(flag_view(ends(a, b))),
            _ => None,
        },
        Func::Contains => match (arg_text(args, 0), arg_text(args, 1)) {
            (Some(a), Some(b)) => Some(flag_view(find_from(a, b, 0) is Some)),
            _ => None,
        },
        Func::StrBefore => match (first, arg(args, 1)) {
            (Some(a), Some(b)) => before_after(a, b, true),
            _ => None,
        },
        Func::StrAfter => match (first, arg(args, 1)) {
            (Some(a), Some(b)) => before_after(a, b, false),
            _ => None,
        },
        Func::Concat => concat_value(args),
        Func::Replace => replace_value(args),
        Func::Regex => regex_value(args),
        Func::Abs => unary_value::<N>(Unary::Abs, first),
        Func::Ceil => unary_value::<N>(Unary::Ceil, first),
        Func::Floor => unary_value::<N>(Unary::Floor, first),
        Func::Round => unary_value::<N>(Unary::Round, first),
        Func::IsIri => match first {
            Some(t) => Some(flag_view(kind_of(t) == TermKind::Iri)),
            None => None,
        },
        Func::IsBlank => match first {
            Some(t) => Some(flag_view(kind_of(t) == TermKind::Blank)),
            None => None,
        },
        Func::IsLiteral => match first {
            Some(t) => Some(flag_view(kind_of(t) == TermKind::Literal)),
            None => None,
        },
        Func::IsNumeric => match first {
            Some(t) => Some(flag_view(is_number::<N>(t))),
            None => None,
        },
        _ => match first {
            Some(t) => datetime_value::<N>(f, t),
            None => None,
        },
    }
}

// ── Calling the functions ───────────────────────────────────────────────────

fn get_arg(args: &Vec<Option<Term>>, i: usize) -> (r: Option<&Term>)
    ensures
        match r {
            Some(t) => arg(cells_view(args@), i as int) == Some(t@),
            None => arg(cells_view(args@), i as int) is None,
        },
{
    if i < args.len() {
        match &args[i] {
            Some(t) => Some(t),
            None => None,
        }
    } else {
        None
    }
}

fn get_text(args: &Vec<Option<Term>>, i: usize) -> (r: Option<String>)
    ensures
        opt_string(r) == arg_text(cells_view(args@), i as int),
{
    match get_arg(args, i) {
        Some(t) => Some(literal_value(t)),
        None => None,
    }
}

fn get_number<N: Numbers>(args: &Vec<Option<Term>>, i: usize) -> (r: Option<N::Num>)
    ensures
        r == arg_number::<N>(cells_view(args@), i as int),
{
    match get_arg(args, i) {
        Some(t) => numeric_value::<N>(t),
        None => None,
    }
}

fn get_flags(args: &Vec<Option<Term>>, i: usize) -> (r: Option<RegexFlags>)
    requires
        i < usize::MAX,
    ensures
        r == arg_flags(cells_view(args@), i as int),
{
    if args.len() == i + 1 {
        match get_text(args, i) {
            Some(f) => regex_flags(f.as_str()),
            None => None,
        }
    } else {
        proof {
            reveal_strlit("");
            assert(""@ =~= Seq::<char>::empty());
        }
        regex_flags("")
    }
}

fn flag(v: bool) -> (r: Option<Term>)
    ensures
        opt_term_view(r) == Some(flag_view(v)),
{
    if v {
        Some(Term::Literal("true".to_owned()))
    } else {
        Some(Term::Literal("false".to_owned()))
    }
}

fn lang_of(t: &Term) -> (r: Option<Term>)
    ensures
        opt_term_view(r) == lang_value(t@),
{
    if term_kind(t) != TermKind::Literal {
        return None;
    }
    let raw = lex(t);
    let (_value, lang, _datatype) = literal_parts(raw.as_str());
    match lang {
        Some(l) => Some(plain_literal(l.as_str())),
        None => {
            proof {
                reveal_strlit("");
                assert(""@ =~= Seq::<char>::empty());
            }
            Some(plain_literal(""))
        },
    }
}

/// Does a language tag lie in a language range?
pub fn lang_matches(tag: &str, range: &str) -> (r: bool)
    ensures
        r == lang_in_range(tag@, range@),
{
    let t = to_lower(tag);
    let mut r = to_lower(range);
    if same_text(r.as_str(), "*") {
        !t.as_str().is_empty()
    } else if same_text(t.as_str(), r.as_str()) {
        true
    } else {
        r.append("-");
        starts_with(t.as_str(), r.as_str())
    }
}

fn datatype_of(t: &Term) -> (r: Option<Term>)
    ensures
        opt_term_view(r) == datatype_value(t@),
{
    if term_kind(t) != TermKind::Literal {
        return None;
    }
    let raw = lex(t);
    let (_value, lang, datatype) = literal_parts(raw.as_str());
    match datatype {
        Some(dt) => Some(Term::Iri(dt)),
        None => if lang.is_some() {
            Some(Term::Iri("http://www.w3.org/1999/02/22-rdf-syntax-ns#langString".to_owned()))
        } else {
            Some(Term::Iri("http://www.w3.org/2001/XMLSchema#string".to_owned()))
        },
    }
}

/// The characters of `s` from position `start` on, at most `count` of them.
pub fn cut_text(s: &str, start: usize, count: usize) -> (r: String)
    ensures
        r@ == cut(s@, start as int, count as int),
{
    let cs = chars_of(s);
    let n: usize = cs.len();
    if start >= n {
        String::new()
    } else if count >= n - start {
        let r = slice_text(cs.as_slice(), start, n);
        assert(r@ =~= s@.skip(start as int));
        r
    } else {
        slice_text(cs.as_slice(), start, start + count)
    }
}

/// `SUBSTR`'s start position as an index; a position past every index is the
/// largest index.
fn start_index(n: i64) -> (r: usize)
    ensures
        n >= 1 && n - 1 <= usize::MAX ==> r == n - 1,
        n < 1 ==> r == 0,
        n - 1 > usize::MAX ==> r == usize::MAX,
{
    if n < 1 {
        0
    } else if (n - 1) as u64 <= usize::MAX as u64 {
        (n - 1) as usize
    } else {
        usize::MAX
    }
}

fn substr<N: Numbers>(args: &Vec<Option<Term>>) -> (r: Option<Term>)
    ensures
        opt_term_view(r) == substr_value::<N>(cells_view(args@)),
{
    let source = match get_arg(args, 0) {
        Some(t) => t,
        None => return None,
    };
    let from = match get_number::<N>(args, 1) {
        Some(n) => n,
        None => return None,
    };
    let kind = match str_kind(source) {
        Some(k) => k,
        None => return None,
    };
    let text = literal_value(source);
    let start: usize = start_index(N::to_nearest(&from));
    let cs = chars_of(text.as_str());
    let n: usize = cs.len();
    let taken = if args.len() == 2 {
        cut_text(text.as_str(), start, n)
    } else if args.len() == 3 {
        match get_number::<N>(args, 2) {
            Some(l) => cut_text(text.as_str(), start, N::to_count(&l)),
            None => return None,
        }
    } else {
        return None;
    };
    Some(literal_with_kind(taken.as_str(), &kind))
}

fn concat(args: &Vec<Option<Term>>) -> (r: Option<Term>)
    ensures
        opt_term_view(r) == concat_value(cells_view(args@)),
{
    let ghost av = cells_view(args@);
    let mut out = String::new();
    let mut kinds: Vec<StrKind> = Vec::new();
    let mut i: usize = 0;
    assert(av.take(0) =~= Seq::empty());
    while i < args.len()
        invariant
            i <= args@.len(),
            av == cells_view(args@),
            forall|j: int| 0 <= j < i ==> is_string(#[trigger] av[j]),
            out@ == concat_texts(av.take(i as int)),
            kinds_view(kinds@) == arg_kinds(av.take(i as int)),
        decreases args@.len() - i,
    {
        proof {
            assert(av.take(i + 1).drop_last() =~= av.take(i as int));
            assert(av.take(i + 1).last() == av[i as int]);
        }
        match &args[i] {
            Some(t) => match str_kind(t) {
                Some(k) => {
                    let v = literal_value(t);
                    out.append(v.as_str());
                    let ghost before = kinds_view(kinds@);
                    let ghost kv = k@;
                    kinds.push(k);
                    assert(kinds_view(kinds@) =~= before.push(kv));
                    assert(arg_kinds(av.take(i + 1)) =~= arg_kinds(av.take(i as int)).push(kv));
                },
                None => {
                    assert(!is_string(av[i as int]));
                    return None;
                },
            },
            None => {
                assert(!is_string(av[i as int]));
                return None;
            },
        }
        i = i + 1;
    }
    assert(av.take(av.len() as int) =~= av);
    let kind = concat_kind(&kinds);
    Some(literal_with_kind(out.as_str(), &kind))
}

fn replace(args: &Vec<Option<Term>>) -> (r: Option<Term>)
    ensures
        opt_term_view(r) == replace_value(cells_view(args@)),
{
    let source = match get_arg(args, 0) {
        Some(t) => t,
        None => return None,
    };
    let pattern = match get_text(args, 1) {
        Some(s) => s,
        None => return None,
    };
    let replacement = match get_text(args, 2) {
        Some(s) => s,
        None => return None,
    };
    let kind = match str_kind(source) {
        Some(k) => k,
        None => return None,
    };
    let flags = match get_flags(args, 3) {
        Some(f) => f,
        None => return None,
    };
    let text = literal_value(source);
    match regex_replace_all(pattern.as_str(), flags, text.as_str(), replacement.as_str()) {
        Some(s) => Some(literal_with_kind(s.as_str(), &kind)),
        None => None,
    }
}

fn regex_test(args: &Vec<Option<Term>>) -> (r: Option<Term>)
    ensures
        opt_term_view(r) == regex_value(cells_view(args@)),
{
    let text = match get_text(args, 0) {
        Some(s) => s,
        None => return None,
    };
    let pattern = match get_text(args, 1) {
        Some(s) => s,
        None => return None,
    };
    let flags = match get_flags(args, 2) {
        Some(f) => f,
        None => return None,
    };
    match regex_is_match(pattern.as_str(), flags, text.as_str()) {
        Some(m) => flag(m),
        None => None,
    }
}

fn apply_unary<N: Numbers>(op: Unary, t: Option<&Term>) -> (r: Option<Term>)
    ensures
        opt_term_view(r) == unary_value::<N>(
            op,
            match t {
                Some(t) => Some(t@),
                None => None,
            },
        ),
{
    match t {
        Some(t) => match numeric_of::<N>(t) {
            Some(n) => match N::apply_unary(op, n) {
                Some(v) => Some(Term::Literal(N::to_literal(v))),
                None => None,
            },
            None => None,
        },
        None => None,
    }
}

/// Negation as an expression.
pub fn negate<N: Numbers>(t: &Option<Term>) -> (r: Option<Term>)
    ensures
        opt_term_view(r) == unary_value::<N>(Unary::Negate, opt_term_view(*t)),
{
    match t {
        Some(t) => apply_unary::<N>(Unary::Negate, Some(t)),
        None => None,
    }
}

/// A binary arithmetic operator on two values.
pub fn arith<N: Numbers>(op: Arith, a: &Option<Term>, b: &Option<Term>) -> (r: Option<Term>)
    ensures
        opt_term_view(r) == binary_value::<N>(op, opt_term_view(*a), opt_term_view(*b)),
{
    match (a, b) {
        (Some(x), Some(y)) => {
            let m = match numeric_of::<N>(x) {
                Some(m) => m,
                None => return None,
            };
            let n = match numeric_of::<N>(y) {
                Some(n) => n,
                None => return None,
            };
            match N::apply_binary(op, m, n) {
                Some(v) => Some(Term::Literal(N::to_literal(v))),
                None => None,
            }
        },
        _ => None,
    }
}

fn is_numeric<N: Numbers>(t: &Term) -> (r: bool)
    ensures
        r == is_number::<N>(t@),
{
    if term_kind(t) != TermKind::Literal {
        return false;
    }
    let raw = lex(t);
    let (value, _lang, datatype) = literal_parts(raw.as_str());
    match datatype {
        Some(dt) => {
            let s = trim(value.as_str());
            is_numeric_datatype(dt.as_str()) && N::parse(s.as_str()).is_some()
        },
        None => false,
    }
}

fn as_integer(n: Option<i64>) -> (r: Option<Term>)
    ensures
        opt_term_view(r) == integer_field(n),
{
    match n {
        Some(n) => Some(integer_literal(n)),
        None => None,
    }
}

/// An `xsd:decimal` literal.
fn decimal_literal(s: &str) -> (r: Term)
    ensures
        r@ == decimal_view(s@),
{
    let mut out = "\"".to_owned();
    out.append(s);
    out.append("\"^^<http://www.w3.org/2001/XMLSchema#decimal>");
    Term::Literal(out)
}

fn datetime_part<N: Numbers>(f: Func, t: &Term) -> (r: Option<Term>)
    ensures
        opt_term_view(r) == datetime_value::<N>(f, t@),
{
    let raw = lex(t);
    let (value, _lang, datatype) = literal_parts(raw.as_str());
    let dated = match datatype {
        Some(dt) => same_text(dt.as_str(), "http://www.w3.org/2001/XMLSchema#dateTime"),
        None => false,
    };
    if !dated {
        return None;
    }
    let b = value.as_str().as_bytes();
    if !is_datetime(b) {
        return None;
    }
    match f {
        Func::Year => as_integer(read_datetime_field(b, 0, 4)),
        Func::Month => as_integer(read_datetime_field(b, 5, 7)),
        Func::Day => as_integer(read_datetime_field(b, 8, 10)),
        Func::Hours => as_integer(read_datetime_field(b, 11, 13)),
        Func::Minutes => as_integer(read_datetime_field(b, 14, 16)),
        _ => {
            let s = read_seconds(b);
            match N::parse(s.as_str()) {
                Some(x) => {
                    let shown = N::show(&x);
                    Some(decimal_literal(shown.as_str()))
                },
                None => None,
            }
        },
    }
}

fn change_case(t: &Term, upper: bool) -> (r: Option<Term>)
    ensures
        opt_term_view(r) == (match str_kind_of(t@) {
            Some(k) => Some(
                of_kind(
                    if upper {
                        upper_case(value_of(t@))
                    } else {
                        lower_case(value_of(t@))
                    },
                    k,
                ),
            ),
            None => None,
        }),
{
    match str_kind(t) {
        Some(k) => {
            let v = literal_value(t);
            let s = if upper {
                to_upper_case(v.as_str())
            } else {
                to_lower_case(v.as_str())
            };
            Some(literal_with_kind(s.as_str(), &k))
        },
        None => None,
    }
}

/// Calls a builtin function on argument values.
pub fn apply_func<N: Numbers>(f: Func, args: &Vec<Option<Term>>) -> (r: Option<Term>)
    ensures
        opt_term_view(r) == func_value::<N>(f, cells_view(args@)),
{
    match f {
        Func::SubStr => return substr::<N>(args),
        Func::Concat => return concat(args),
        Func::Replace => return replace(args),
        Func::Regex => return regex_test(args),
        _ => {},
    }
    let first = match get_arg(args, 0) {
        Some(t) => t,
        None => return None,
    };
    match f {
        Func::Str => {
            let v = literal_value(first);
            Some(plain_literal(v.as_str()))
        },
        Func::Lang => lang_of(first),
        Func::Datatype => datatype_of(first),
        Func::StrLen => {
            let v = literal_value(first);
            let cs = chars_of(v.as_str());
            Some(integer_literal(cs.len() as i64))
        },
        Func::UCase => change_case(first, true),
        Func::LCase => change_case(first, false),
        Func::Abs => apply_unary::<N>(Unary::Abs, Some(first)),
        Func::Ceil => apply_unary::<N>(Unary::Ceil, Some(first)),
        Func::Floor => apply_unary::<N>(Unary::Floor, Some(first)),
        Func::Round => apply_unary::<N>(Unary::Round, Some(first)),
        Func::IsIri => flag(term_kind(first) == TermKind::Iri),
        Func::IsBlank => flag(term_kind(first) == TermKind::Blank),
        Func::IsLiteral => flag(term_kind(first) == TermKind::Literal),
        Func::IsNumeric => flag(is_numeric::<N>(first)),
        Func::StrBefore => match get_arg(args, 1) {
            Some(b) => str_before_after(first, b, true),
            None => None,
        },
        Func::StrAfter => match get_arg(args, 1) {
            Some(b) => str_before_after(first, b, false),
            None => None,
        },
        Func::LangMatches | Func::StrStarts | Func::StrEnds | Func::Contains => match get_text(
            args,
            1,
        ) {
            Some(b) => {
                let a = literal_value(first);
                match f {
                    Func::LangMatches => flag(lang_matches(a.as_str(), b.as_str())),
                    Func::StrStarts => flag(starts_with(a.as_str(), b.as_str())),
                    Func::StrEnds => flag(ends_with(a.as_str(), b.as_str())),
                    _ => flag(contains_text(a.as_str(), b.as_str())),
                }
            },
            None => None,
        },
        _ => datetime_part::<N>(f, first),
    }
}

}
