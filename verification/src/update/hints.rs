//! What the text of an update says of its `ADD`, `MOVE` and `COPY` operations.
//!
//! The parser rewrites these into simpler operations and forgets whether they
//! were `SILENT`. This scan reads the text once more and recovers, for each of
//! them, the flag, the source graph, and whether source and destination are
//! the same. Graph names are resolved against the text's own `PREFIX` and
//! `BASE` declarations. A name that needs an escape is not guessed at: it
//! counts as unknown.

use crate::collections::Table;
use crate::exec::literal::opt_text;
use crate::text::{chars_of, lower, same_text, slice_text, to_lower, Text};
use oxiri::Iri;
use vstd::prelude::*;
use vstd::string::*;

verus! {

// ── IRIs ────────────────────────────────────────────────────────────────────

/// Is the text an absolute IRI, by `oxiri`?
pub uninterp spec fn absolute_iri(s: Text) -> bool;

/// What a reference resolves to against a base, by `oxiri`.
pub uninterp spec fn resolved_iri(base: Text, reference: Text) -> Option<Text>;

/// Calls `oxiri::Iri::parse`, which accepts a text that is an absolute IRI.
/// The contract gives its verdict a name.
#[verifier::external_body]
fn is_absolute_iri(s: &str) -> (r: bool)
    ensures
        r == absolute_iri(s@),
{
    Iri::parse(s).is_ok()
}

/// Calls `oxiri::Iri::resolve`, on a base read by `oxiri::Iri::parse`. The
/// contract gives the result a name; it is `None` where the base is no IRI or
/// the reference does not resolve.
#[verifier::external_body]
fn resolve_against(base: &str, reference: &str) -> (r: Option<String>)
    ensures
        opt_text(r) == resolved_iri(base@, reference@),
{
    let base = Iri::parse(base).ok()?;
    base.resolve(reference).ok().map(|iri| iri.into_inner())
}

/// The absolute IRI of a reference: against the base where there is one, and
/// otherwise the reference itself where it is absolute.
pub open spec fn iri_of(raw: Text, base: Option<Text>) -> Option<Text> {
    match base {
        Some(b) => resolved_iri(b, raw),
        None => if absolute_iri(raw) {
            Some(raw)
        } else {
            None
        },
    }
}

pub fn resolve_iri(raw: &str, base: &Option<String>) -> (r: Option<String>)
    ensures
        opt_text(r) == iri_of(raw@, opt_text(*base)),
{
    match base {
        Some(b) => resolve_against(b.as_str(), raw),
        None => if is_absolute_iri(raw) {
            Some(raw.to_owned())
        } else {
            None
        },
    }
}

// ── Tokens ──────────────────────────────────────────────────────────────────

/// A token of the scan. Everything that is no keyword the scan looks for, no
/// IRI and no prefixed name is `Other`; it is kept, so that tokens stand next
/// to each other as in the text.
#[derive(Debug, PartialEq, Eq)]
pub enum AmcTok {
    /// `ADD`, `MOVE` or `COPY`.
    Amc,
    Silent,
    Default,
    Graph,
    Prefix,
    Base,
    /// The text between `<` and `>`.
    Iri(String),
    /// A prefixed name or a namespace.
    PName(String),
    /// An IRI or a name with an escape in it.
    Escaped,
    Other,
}

#[allow(inconsistent_fields)]
#[verifier::ext_equal]
pub enum TokView {
    Amc,
    Silent,
    Default,
    Graph,
    Prefix,
    Base,
    Iri(Text),
    PName(Text),
    Escaped,
    Other,
}

impl AmcTok {
    pub open spec fn view(&self) -> TokView {
        match *self {
            AmcTok::Amc => TokView::Amc,
            AmcTok::Silent => TokView::Silent,
            AmcTok::Default => TokView::Default,
            AmcTok::Graph => TokView::Graph,
            AmcTok::Prefix => TokView::Prefix,
            AmcTok::Base => TokView::Base,
            AmcTok::Iri(s) => TokView::Iri(s@),
            AmcTok::PName(s) => TokView::PName(s@),
            AmcTok::Escaped => TokView::Escaped,
            AmcTok::Other => TokView::Other,
        }
    }
}

pub open spec fn toks_view(s: Seq<AmcTok>) -> Seq<TokView> {
    Seq::new(s.len(), |i: int| s[i]@)
}

/// A class of characters.
#[derive(Clone, Copy)]
pub enum Class {
    LineEnd,
    /// `>`, or white space.
    IriEnd,
    /// A character that is not part of a name.
    NameEnd,
    Backslash,
    Colon,
}

pub open spec fn name_start(c: char) -> bool {
    ('a' <= c <= 'z') || ('A' <= c <= 'Z') || ('0' <= c <= '9') || c == '_' || c == ':'
}

pub open spec fn name_part(c: char) -> bool {
    name_start(c) || c == '-' || c == '.' || c == '%'
}

pub open spec fn in_class(class: Class, c: char) -> bool {
    match class {
        Class::LineEnd => c == '\n',
        Class::IriEnd => c == '>' || c == ' ' || c == '\t' || c == '\n' || c == '\x0c' || c == '\r',
        Class::NameEnd => !name_part(c),
        Class::Backslash => c == '\\',
        Class::Colon => c == ':',
    }
}

/// The first position from `i` on of a character of a class, or the end.
pub open spec fn first_in(s: Text, i: int, class: Class) -> int
    decreases s.len() - i,
{
    if i >= s.len() {
        s.len() as int
    } else if in_class(class, s[i]) {
        i
    } else {
        first_in(s, i + 1, class)
    }
}

pub proof fn first_in_facts(s: Text, i: int, class: Class)
    requires
        0 <= i <= s.len(),
    ensures
        i <= first_in(s, i, class) <= s.len(),
        forall|j: int| i <= j < first_in(s, i, class) ==> !in_class(class, #[trigger] s[j]),
        first_in(s, i, class) < s.len() ==> in_class(class, s[first_in(s, i, class)]),
    decreases s.len() - i,
{
    if i < s.len() && !in_class(class, s[i]) {
        first_in_facts(s, i + 1, class);
    }
}

fn is_name_start(c: char) -> (r: bool)
    ensures
        r == name_start(c),
{
    ('a' <= c && c <= 'z') || ('A' <= c && c <= 'Z') || ('0' <= c && c <= '9') || c == '_' || c
        == ':'
}

fn is_in_class(class: Class, c: char) -> (r: bool)
    ensures
        r == in_class(class, c),
{
    match class {
        Class::LineEnd => c == '\n',
        Class::IriEnd => c == '>' || c == ' ' || c == '\t' || c == '\n' || c == '\x0c' || c == '\r',
        Class::NameEnd => !(is_name_start(c) || c == '-' || c == '.' || c == '%'),
        Class::Backslash => c == '\\',
        Class::Colon => c == ':',
    }
}

fn find_in(s: &[char], from: usize, class: Class) -> (r: usize)
    requires
        from <= s@.len(),
    ensures
        r == first_in(s@, from as int, class),
        from <= r <= s@.len(),
{
    let mut i: usize = from;
    while i < s.len()
        invariant_except_break
            from <= i <= s@.len(),
            first_in(s@, from as int, class) == first_in(s@, i as int, class),
        ensures
            from <= i <= s@.len(),
            i == first_in(s@, from as int, class),
        decreases s@.len() - i,
    {
        if is_in_class(class, s[i]) {
            break;
        }
        i = i + 1;
    }
    i
}

/// The end of a name without the dots at its end.
pub open spec fn dots_off(s: Text, start: int, end: int) -> int
    decreases end - start,
{
    if end > start && s[end - 1] == '.' {
        dots_off(s, start, end - 1)
    } else {
        end
    }
}

/// The position behind a string whose opening quotes end before `i`: behind
/// the next closing quotes that no backslash escapes, or the end.
pub open spec fn string_close(s: Text, i: int, q: char, triple: bool) -> int
    decreases s.len() + 2 - i,
{
    if i >= s.len() {
        s.len() as int
    } else if s[i] == '\\' {
        string_close(s, i + 2, q, triple)
    } else if !triple && s[i] == q {
        i + 1
    } else if triple && i + 2 < s.len() && s[i] == q && s[i + 1] == q && s[i + 2] == q {
        i + 3
    } else {
        string_close(s, i + 1, q, triple)
    }
}

/// The position behind the string that starts at `i`.
pub open spec fn string_end(s: Text, i: int) -> int {
    let q = s[i];
    if i + 2 < s.len() && s[i + 1] == q && s[i + 2] == q {
        string_close(s, i + 3, q, true)
    } else {
        string_close(s, i + 1, q, false)
    }
}

fn close_string(s: &[char], from: usize, q: char, triple: bool) -> (r: usize)
    requires
        from <= s@.len(),
    ensures
        r == string_close(s@, from as int, q, triple),
        from <= r <= s@.len(),
{
    let n: usize = s.len();
    let mut i: usize = from;
    while i < n
        invariant
            from <= i <= n,
            n == s@.len(),
            string_close(s@, from as int, q, triple) == string_close(s@, i as int, q, triple),
        decreases n - i,
    {
        if s[i] == '\\' {
            if n - i <= 2 {
                assert(string_close(s@, i + 2, q, triple) == n);
                return n;
            }
            i = i + 2;
        } else if !triple && s[i] == q {
            return i + 1;
        } else if triple && n - i > 2 && s[i] == q && s[i + 1] == q && s[i + 2] == q {
            return i + 3;
        } else {
            i = i + 1;
        }
    }
    n
}

/// Skips the string that starts at `start`.
fn skip_string(s: &[char], start: usize) -> (r: usize)
    requires
        start < s@.len(),
    ensures
        r == string_end(s@, start as int),
        start < r <= s@.len(),
{
    let q = s[start];
    if s.len() - start > 2 && s[start + 1] == q && s[start + 2] == q {
        close_string(s, start + 3, q, true)
    } else {
        close_string(s, start + 1, q, false)
    }
}

/// The token of a word. A variable is no word, and a name that a backslash
/// follows is cut off.
pub open spec fn word_tok(s: Text, start: int, stop: int) -> TokView {
    let word = s.subrange(start, dots_off(s, start, stop));
    let small = lower(word);
    if start > 0 && (s[start - 1] == '?' || s[start - 1] == '$') {
        TokView::Other
    } else if stop < s.len() && s[stop] == '\\' {
        TokView::Escaped
    } else if word.contains(':') {
        TokView::PName(word)
    } else if small == "add"@ || small == "move"@ || small == "copy"@ {
        TokView::Amc
    } else if small == "silent"@ {
        TokView::Silent
    } else if small == "default"@ {
        TokView::Default
    } else if small == "graph"@ {
        TokView::Graph
    } else if small == "prefix"@ {
        TokView::Prefix
    } else if small == "base"@ {
        TokView::Base
    } else {
        TokView::Other
    }
}

/// The token of the text between `<` and its end.
pub open spec fn iri_tok(inner: Text) -> TokView {
    if inner.contains('\\') {
        TokView::Escaped
    } else {
        TokView::Iri(inner)
    }
}

/// The number of bytes of a character in UTF-8.
pub open spec fn byte_width(c: char) -> nat {
    if (c as u32) < 0x80 {
        1
    } else if (c as u32) < 0x800 {
        2
    } else if (c as u32) < 0x10000 {
        3
    } else {
        4
    }
}

/// As many `Other` tokens.
pub open spec fn others(n: nat) -> Seq<TokView> {
    Seq::new(n, |i: int| TokView::Other)
}

/// The tokens of the text from a position on. Spaces, line ends and comments
/// give none; a character that starts nothing gives one for each of its bytes.
pub open spec fn toks_from(s: Text, i: int) -> Seq<TokView>
    decreases s.len() - i,
    when 0 <= i
{
    if i >= s.len() {
        Seq::empty()
    } else if s[i] == ' ' || s[i] == '\t' || s[i] == '\r' || s[i] == '\n' {
        toks_from(s, i + 1)
    } else if s[i] == '#' {
        let end = first_in(s, i + 1, Class::LineEnd);
        if i < end <= s.len() {
            toks_from(s, end)
        } else {
            Seq::empty()
        }
    } else if s[i] == '<' {
        let end = first_in(s, i + 1, Class::IriEnd);
        let next = if end < s.len() && s[end] == '>' {
            end + 1
        } else {
            end
        };
        if i < next <= s.len() {
            seq![iri_tok(s.subrange(i + 1, end))] + toks_from(s, next)
        } else {
            Seq::empty()
        }
    } else if s[i] == '"' || s[i] == '\'' {
        let end = string_end(s, i);
        if i < end <= s.len() {
            seq![TokView::Other] + toks_from(s, end)
        } else {
            Seq::empty()
        }
    } else if name_start(s[i]) {
        let end = first_in(s, i + 1, Class::NameEnd);
        if i < end <= s.len() {
            seq![word_tok(s, i, end)] + toks_from(s, end)
        } else {
            Seq::empty()
        }
    } else {
        others(byte_width(s[i])) + toks_from(s, i + 1)
    }
}

fn trim_dots(s: &[char], start: usize, end: usize) -> (r: usize)
    requires
        start <= end <= s@.len(),
    ensures
        r == dots_off(s@, start as int, end as int),
        start <= r <= end,
{
    let mut e: usize = end;
    while e > start && s[e - 1] == '.'
        invariant
            start <= e <= end <= s@.len(),
            dots_off(s@, start as int, end as int) == dots_off(s@, start as int, e as int),
        decreases e - start,
    {
        e = e - 1;
    }
    e
}

fn has_char(s: &str, class: Class, Ghost(c): Ghost<char>) -> (r: bool)
    requires
        forall|d: char| in_class(class, d) <==> d == c,
    ensures
        r == s@.contains(c),
{
    let cs = chars_of(s);
    let at: usize = find_in(&cs, 0, class);
    proof {
        first_in_facts(s@, 0, class);
        if at < s@.len() {
            assert(s@[at as int] == c);
        }
    }
    at < cs.len()
}

fn word_token(s: &[char], start: usize, stop: usize) -> (r: AmcTok)
    requires
        start < stop <= s@.len(),
    ensures
        r@ == word_tok(s@, start as int, stop as int),
{
    let end: usize = trim_dots(s, start, stop);
    let word = slice_text(s, start, end);
    let small = to_lower(word.as_str());
    if start > 0 && (s[start - 1] == '?' || s[start - 1] == '$') {
        AmcTok::Other
    } else if stop < s.len() && s[stop] == '\\' {
        AmcTok::Escaped
    } else if has_char(word.as_str(), Class::Colon, Ghost(':')) {
        AmcTok::PName(word)
    } else if same_text(small.as_str(), "add") || same_text(small.as_str(), "move") || same_text(
        small.as_str(),
        "copy",
    ) {
        AmcTok::Amc
    } else if same_text(small.as_str(), "silent") {
        AmcTok::Silent
    } else if same_text(small.as_str(), "default") {
        AmcTok::Default
    } else if same_text(small.as_str(), "graph") {
        AmcTok::Graph
    } else if same_text(small.as_str(), "prefix") {
        AmcTok::Prefix
    } else if same_text(small.as_str(), "base") {
        AmcTok::Base
    } else {
        AmcTok::Other
    }
}

fn width_of(c: char) -> (r: usize)
    ensures
        r == byte_width(c),
{
    let code: u32 = c as u32;
    if code < 0x80 {
        1
    } else if code < 0x800 {
        2
    } else if code < 0x10000 {
        3
    } else {
        4
    }
}

fn push_others(out: &mut Vec<AmcTok>, n: usize)
    ensures
        toks_view(final(out)@) == toks_view(old(out)@) + others(n as nat),
{
    let ghost base = toks_view(out@);
    let mut i: usize = 0;
    assert(base + others(0) =~= base);
    while i < n
        invariant
            i <= n,
            toks_view(out@) == base + others(i as nat),
        decreases n - i,
    {
        let ghost before = out@;
        out.push(AmcTok::Other);
        assert(toks_view(out@) =~= toks_view(before).push(TokView::Other));
        assert(others((i + 1) as nat) =~= others(i as nat).push(TokView::Other));
        assert(toks_view(out@) =~= base + others((i + 1) as nat));
        i = i + 1;
    }
}

fn push_tok(out: &mut Vec<AmcTok>, t: AmcTok)
    ensures
        toks_view(final(out)@) == toks_view(old(out)@) + seq![t@],
{
    let ghost tv = t@;
    let ghost base = toks_view(out@);
    out.push(t);
    assert(toks_view(out@) =~= base + seq![tv]);
}

/// The tokens of a text.
pub fn amc_tokenize(src: &str) -> (out: Vec<AmcTok>)
    ensures
        toks_view(out@) == toks_from(src@, 0),
{
    let s = chars_of(src);
    let n: usize = s.len();
    let mut out: Vec<AmcTok> = Vec::new();
    let mut i: usize = 0;
    assert(toks_view(out@) + toks_from(s@, 0) =~= toks_from(s@, 0));
    while i < n
        invariant
            i <= n,
            n == s@.len(),
            toks_view(out@) + toks_from(s@, i as int) == toks_from(s@, 0),
        decreases n - i,
    {
        let c = s[i];
        let ghost done = toks_view(out@);
        let ghost rest = toks_from(s@, i as int);
        if c == ' ' || c == '\t' || c == '\r' || c == '\n' {
            i = i + 1;
        } else if c == '#' {
            i = find_in(&s, i + 1, Class::LineEnd);
        } else if c == '<' {
            let end: usize = find_in(&s, i + 1, Class::IriEnd);
            let inner = slice_text(&s, i + 1, end);
            let tok = if has_char(inner.as_str(), Class::Backslash, Ghost('\\')) {
                AmcTok::Escaped
            } else {
                AmcTok::Iri(inner)
            };
            let ghost tv = tok@;
            push_tok(&mut out, tok);
            i = if end < n && s[end] == '>' {
                end + 1
            } else {
                end
            };
            assert(done + (seq![tv] + toks_from(s@, i as int)) =~= done + seq![tv] + toks_from(
                s@,
                i as int,
            ));
        } else if c == '"' || c == '\'' {
            i = skip_string(&s, i);
            push_tok(&mut out, AmcTok::Other);
            assert(done + (seq![TokView::Other] + toks_from(s@, i as int)) =~= done
                + seq![TokView::Other] + toks_from(s@, i as int));
        } else if is_name_start(c) {
            let stop: usize = find_in(&s, i + 1, Class::NameEnd);
            let tok = word_token(&s, i, stop);
            let ghost tv = tok@;
            push_tok(&mut out, tok);
            i = stop;
            assert(done + (seq![tv] + toks_from(s@, i as int)) =~= done + seq![tv] + toks_from(
                s@,
                i as int,
            ));
        } else {
            let w: usize = width_of(c);
            push_others(&mut out, w);
            i = i + 1;
            assert(done + (others(w as nat) + toks_from(s@, i as int)) =~= done + others(w as nat)
                + toks_from(s@, i as int));
        }
    }
    assert(toks_view(out@) + toks_from(s@, n as int) =~= toks_view(out@));
    out
}

// ── Hints ───────────────────────────────────────────────────────────────────

/// The source of an operation.
#[derive(Debug, PartialEq, Eq)]
pub enum AmcSource {
    /// The default graph, which always exists.
    Default,
    /// A named graph, by its absolute IRI.
    Named(String),
    /// A name the scan cannot resolve.
    Unknown,
}

#[allow(inconsistent_fields)]
#[verifier::ext_equal]
pub enum SourceView {
    Default,
    Named(Text),
    Unknown,
}

impl AmcSource {
    pub open spec fn view(&self) -> SourceView {
        match *self {
            AmcSource::Default => SourceView::Default,
            AmcSource::Named(s) => SourceView::Named(s@),
            AmcSource::Unknown => SourceView::Unknown,
        }
    }
}

/// One `ADD`, `MOVE` or `COPY` of the text.
#[derive(Debug, PartialEq, Eq)]
pub struct AmcHint {
    pub silent: bool,
    pub source: AmcSource,
    /// Are source and destination the same graph?
    pub is_identity: bool,
}

#[allow(inconsistent_fields)]
#[verifier::ext_equal]
pub struct HintView {
    pub silent: bool,
    pub source: SourceView,
    pub is_identity: bool,
}

impl AmcHint {
    pub open spec fn view(&self) -> HintView {
        HintView { silent: self.silent, source: self.source@, is_identity: self.is_identity }
    }
}

pub open spec fn hints_view(s: Seq<AmcHint>) -> Seq<HintView> {
    Seq::new(s.len(), |i: int| s[i]@)
}

/// The graph an IRI reference names.
pub open spec fn named_source(raw: Text, base: Option<Text>) -> SourceView {
    match iri_of(raw, base) {
        Some(iri) => SourceView::Named(iri),
        None => SourceView::Unknown,
    }
}

/// The part of a name before its first colon.
pub open spec fn name_prefix(name: Text) -> Text {
    name.take(first_in(name, 0, Class::Colon))
}

/// The graph a prefixed name names.
pub open spec fn expanded(name: Text, prefixes: Map<Text, Text>) -> SourceView {
    let at = first_in(name, 0, Class::Colon);
    if at < name.len() && prefixes.contains_key(name.take(at)) {
        SourceView::Named(prefixes[name.take(at)] + name.skip(at + 1))
    } else {
        SourceView::Unknown
    }
}

/// The graph a token names, where it names one.
pub open spec fn graph_tok(t: TokView, prefixes: Map<Text, Text>, base: Option<Text>) -> Option<
    SourceView,
> {
    match t {
        TokView::Iri(raw) => Some(named_source(raw, base)),
        TokView::PName(name) => Some(expanded(name, prefixes)),
        TokView::Escaped => Some(SourceView::Unknown),
        _ => None,
    }
}

/// The operand at a token, and the position behind it; without a position
/// where there is no operand.
pub open spec fn operand(
    toks: Seq<TokView>,
    k: int,
    prefixes: Map<Text, Text>,
    base: Option<Text>,
) -> (SourceView, Option<int>) {
    if k >= toks.len() {
        (SourceView::Unknown, None)
    } else if toks[k] is Default {
        (SourceView::Default, Some(k + 1))
    } else if toks[k] is Graph {
        if k + 1 < toks.len() && graph_tok(toks[k + 1], prefixes, base) is Some {
            (graph_tok(toks[k + 1], prefixes, base)->0, Some(k + 2))
        } else {
            (SourceView::Unknown, None)
        }
    } else {
        match graph_tok(toks[k], prefixes, base) {
            Some(s) => (s, Some(k + 1)),
            None => (SourceView::Unknown, None),
        }
    }
}

/// The hint of the verb at a token.
pub open spec fn hint_at(
    toks: Seq<TokView>,
    i: int,
    prefixes: Map<Text, Text>,
    base: Option<Text>,
) -> HintView {
    let silent = i + 1 < toks.len() && toks[i + 1] is Silent;
    let at = if silent {
        i + 2
    } else {
        i + 1
    };
    let (source, behind) = operand(toks, at, prefixes, base);
    let is_identity = match behind {
        Some(k) => !(source is Unknown) && operand(toks, k + 1, prefixes, base).0 == source,
        None => false,
    };
    HintView { silent, source, is_identity }
}

/// The base after a `BASE` declaration.
pub open spec fn rebased(raw: Text, base: Option<Text>) -> Option<Text> {
    match iri_of(raw, base) {
        Some(iri) => if absolute_iri(iri) {
            Some(iri)
        } else {
            base
        },
        None => base,
    }
}

/// The hints of the tokens from a position on, under the declarations before.
pub open spec fn hints_from(
    toks: Seq<TokView>,
    i: int,
    prefixes: Map<Text, Text>,
    base: Option<Text>,
) -> Seq<HintView>
    decreases toks.len() - i,
{
    if i >= toks.len() {
        Seq::empty()
    } else {
        match toks[i] {
            TokView::Base => if i + 1 < toks.len() && toks[i + 1] is Iri {
                hints_from(toks, i + 2, prefixes, rebased(toks[i + 1]->Iri_0, base))
            } else {
                hints_from(toks, i + 1, prefixes, base)
            },
            TokView::Prefix => if i + 2 < toks.len() && toks[i + 1] is PName && toks[i + 2] is Iri {
                let more = match iri_of(toks[i + 2]->Iri_0, base) {
                    Some(iri) => prefixes.insert(name_prefix(toks[i + 1]->PName_0), iri),
                    None => prefixes,
                };
                hints_from(toks, i + 3, more, base)
            } else {
                hints_from(toks, i + 1, prefixes, base)
            },
            TokView::Amc => seq![hint_at(toks, i, prefixes, base)] + hints_from(
                toks,
                i + 1,
                prefixes,
                base,
            ),
            _ => hints_from(toks, i + 1, prefixes, base),
        }
    }
}

/// The hints of a text.
pub open spec fn hints_of(src: Text, base: Option<Text>) -> Seq<HintView> {
    hints_from(toks_from(src, 0), 0, Map::empty(), base)
}

/// The prefixes declared so far.
pub open spec fn prefix_map(t: Table<String>) -> Map<Text, Text> {
    t@.map_values(|s: String| s@)
}

fn resolve_named(raw: &str, base: &Option<String>) -> (r: AmcSource)
    ensures
        r@ == named_source(raw@, opt_text(*base)),
{
    match resolve_iri(raw, base) {
        Some(iri) => AmcSource::Named(iri),
        None => AmcSource::Unknown,
    }
}

fn expand_pname(name: &str, prefixes: &Table<String>) -> (r: AmcSource)
    ensures
        r@ == expanded(name@, prefix_map(*prefixes)),
{
    let cs = chars_of(name);
    let at: usize = find_in(&cs, 0, Class::Colon);
    if at >= cs.len() {
        return AmcSource::Unknown;
    }
    let prefix = slice_text(&cs, 0, at);
    let local = slice_text(&cs, at + 1, cs.len());
    proof {
        assert(name@.subrange(0, at as int) =~= name@.take(at as int));
        assert(name@.subrange(at + 1, name@.len() as int) =~= name@.skip(at + 1));
    }
    match prefixes.get(prefix.as_str()) {
        Some(ns) => {
            let mut iri = ns.clone();
            iri.append(local.as_str());
            AmcSource::Named(iri)
        },
        None => AmcSource::Unknown,
    }
}

fn graph_of_token(t: &AmcTok, prefixes: &Table<String>, base: &Option<String>) -> (r: Option<
    AmcSource,
>)
    ensures
        match (r, graph_tok(t@, prefix_map(*prefixes), opt_text(*base))) {
            (Some(a), Some(b)) => a@ == b,
            (None, None) => true,
            _ => false,
        },
{
    match t {
        AmcTok::Iri(raw) => Some(resolve_named(raw.as_str(), base)),
        AmcTok::PName(name) => Some(expand_pname(name.as_str(), prefixes)),
        AmcTok::Escaped => Some(AmcSource::Unknown),
        _ => None,
    }
}

/// Reads one operand: `DEFAULT`, or a graph name with or without `GRAPH`.
fn amc_parse_operand(
    toks: &Vec<AmcTok>,
    k: usize,
    prefixes: &Table<String>,
    base: &Option<String>,
) -> (r: (AmcSource, Option<usize>))
    requires
        k <= toks@.len() + 1,
    ensures
        r.0@ == operand(toks_view(toks@), k as int, prefix_map(*prefixes), opt_text(*base)).0,
        match (r.1, operand(toks_view(toks@), k as int, prefix_map(*prefixes), opt_text(*base)).1) {
            (Some(a), Some(b)) => a == b && a <= toks@.len(),
            (None, None) => true,
            _ => false,
        },
{
    let n: usize = toks.len();
    if k >= n {
        return (AmcSource::Unknown, None);
    }
    assert(toks_view(toks@)[k as int] == toks@[k as int]@);
    match &toks[k] {
        AmcTok::Default => (AmcSource::Default, Some(k + 1)),
        AmcTok::Graph => {
            if n - k <= 1 {
                return (AmcSource::Unknown, None);
            }
            assert(toks_view(toks@)[k + 1] == toks@[k + 1]@);
            match graph_of_token(&toks[k + 1], prefixes, base) {
                Some(s) => (s, Some(k + 2)),
                None => (AmcSource::Unknown, None),
            }
        },
        other => match graph_of_token(other, prefixes, base) {
            Some(s) => (s, Some(k + 1)),
            None => (AmcSource::Unknown, None),
        },
    }
}

fn same_source(a: &AmcSource, b: &AmcSource) -> (r: bool)
    ensures
        r == (!(a@ is Unknown) && a@ == b@),
{
    match (a, b) {
        (AmcSource::Default, AmcSource::Default) => true,
        (AmcSource::Named(x), AmcSource::Named(y)) => same_text(x.as_str(), y.as_str()),
        _ => false,
    }
}

fn read_hint(toks: &Vec<AmcTok>, i: usize, prefixes: &Table<String>, base: &Option<String>) -> (r:
    AmcHint)
    requires
        i < toks@.len(),
    ensures
        r@ == hint_at(toks_view(toks@), i as int, prefix_map(*prefixes), opt_text(*base)),
{
    let n: usize = toks.len();
    let silent = if n - i > 1 {
        assert(toks_view(toks@)[i + 1] == toks@[i + 1]@);
        match &toks[i + 1] {
            AmcTok::Silent => true,
            _ => false,
        }
    } else {
        false
    };
    let at: usize = if silent {
        i + 2
    } else {
        i + 1
    };
    let (source, behind) = amc_parse_operand(toks, at, prefixes, base);
    let is_identity = match behind {
        Some(k) => if k < n {
            let (destination, _) = amc_parse_operand(toks, k + 1, prefixes, base);
            same_source(&source, &destination)
        } else {
            false
        },
        None => false,
    };
    AmcHint { silent, source, is_identity }
}

fn iri_at(toks: &Vec<AmcTok>, i: usize) -> (r: Option<&String>)
    ensures
        match r {
            Some(raw) => i < toks@.len() && toks_view(toks@)[i as int] == TokView::Iri(raw@),
            None => !(i < toks@.len() && toks_view(toks@)[i as int] is Iri),
        },
{
    if i >= toks.len() {
        return None;
    }
    assert(toks_view(toks@)[i as int] == toks@[i as int]@);
    match &toks[i] {
        AmcTok::Iri(raw) => Some(raw),
        _ => None,
    }
}

fn name_at(toks: &Vec<AmcTok>, i: usize) -> (r: Option<&String>)
    ensures
        match r {
            Some(raw) => i < toks@.len() && toks_view(toks@)[i as int] == TokView::PName(raw@),
            None => !(i < toks@.len() && toks_view(toks@)[i as int] is PName),
        },
{
    if i >= toks.len() {
        return None;
    }
    assert(toks_view(toks@)[i as int] == toks@[i as int]@);
    match &toks[i] {
        AmcTok::PName(raw) => Some(raw),
        _ => None,
    }
}

/// Recovers the hints of a text, in order. `base_iri` is the base from outside
/// the text, where there is one.
pub fn recover_amc_hints(src: &str, base_iri: &Option<String>) -> (hints: Vec<AmcHint>)
    ensures
        hints_view(hints@) == hints_of(src@, opt_text(*base_iri)),
{
    let toks = amc_tokenize(src);
    let ghost tv = toks_view(toks@);
    let n: usize = toks.len();
    let mut prefixes: Table<String> = Table::new();
    let mut base: Option<String> = match base_iri {
        Some(b) => Some(b.clone()),
        None => None,
    };
    let mut hints: Vec<AmcHint> = Vec::new();
    let mut i: usize = 0;
    let ghost goal = hints_of(src@, opt_text(*base_iri));
    assert(prefix_map(prefixes) =~= Map::empty());
    assert(hints_view(hints@) + goal =~= goal);
    while i < n
        invariant
            i <= n,
            n == toks@.len(),
            tv == toks_view(toks@),
            hints_view(hints@) + hints_from(tv, i as int, prefix_map(prefixes), opt_text(base))
                == goal,
        decreases n - i,
    {
        assert(tv[i as int] == toks@[i as int]@);
        let ghost pm = prefix_map(prefixes);
        let ghost bv = opt_text(base);
        match &toks[i] {
            AmcTok::Base => match iri_at(&toks, i + 1) {
                Some(raw) => {
                    let rebase = match resolve_iri(raw.as_str(), &base) {
                        Some(iri) => if is_absolute_iri(iri.as_str()) {
                            Some(iri)
                        } else {
                            None
                        },
                        None => None,
                    };
                    if let Some(iri) = rebase {
                        base = Some(iri);
                    }
                    assert(opt_text(base) == rebased(raw@, bv));
                    i = i + 2;
                },
                None => {
                    i = i + 1;
                },
            },
            AmcTok::Prefix => {
                let name = name_at(&toks, i + 1);
                let iri = if n - i > 2 {
                    iri_at(&toks, i + 2)
                } else {
                    None
                };
                match (name, iri) {
                    (Some(ns), Some(raw)) => {
                        if let Some(resolved) = resolve_iri(raw.as_str(), &base) {
                            let cs = chars_of(ns.as_str());
                            let at: usize = find_in(&cs, 0, Class::Colon);
                            let prefix = slice_text(&cs, 0, at);
                            let ghost rv = resolved@;
                            proof {
                                assert(ns@.subrange(0, at as int) =~= name_prefix(ns@));
                            }
                            prefixes.insert(prefix.as_str(), resolved);
                            assert(prefix_map(prefixes) =~= pm.insert(name_prefix(ns@), rv));
                        }
                        i = i + 3;
                    },
                    _ => {
                        i = i + 1;
                    },
                }
            },
            AmcTok::Amc => {
                let hint = read_hint(&toks, i, &prefixes, &base);
                let ghost hv = hint@;
                let ghost before = hints_view(hints@);
                hints.push(hint);
                assert(hints_view(hints@) =~= before + seq![hv]);
                i = i + 1;
                assert(before + (seq![hv] + hints_from(tv, i as int, pm, bv)) =~= before + seq![hv]
                    + hints_from(tv, i as int, pm, bv));
            },
            _ => {
                i = i + 1;
            },
        }
    }
    assert(hints_view(hints@) + hints_from(tv, n as int, prefix_map(prefixes), opt_text(base))
        =~= hints_view(hints@));
    hints
}

}
