//! What is read of the graphs that `ADD`, `MOVE` and `COPY` name.

use crate::exec::store::QuadView;
use crate::text::{lower, Text};
use crate::update::hints::{
    dots_off, expanded, first_in, first_in_facts, hint_at, hints_from, in_class, name_part,
    named_source, toks_from, word_tok, Class, HintView, SourceView, TokView,
};
use crate::update::request::{hint_error, hints_error};
use vstd::prelude::*;

verus! {

/// A verb with its source and destination: `SILENT` and `GRAPH` may stand before
/// them.
pub open spec fn phrase(silent: bool, graph: bool, source: TokView, dest: TokView) -> Seq<TokView> {
    seq![TokView::Amc] + (if silent {
        seq![TokView::Silent]
    } else {
        Seq::empty()
    }) + (if graph {
        seq![TokView::Graph, source]
    } else {
        seq![source]
    }) + seq![TokView::Other, dest]
}

/// The source of a verb is the IRI behind it, with or without `SILENT` and
/// `GRAPH` before it. Where the destination is the same graph, the verb does
/// nothing.
pub proof fn the_source_follows_the_verb(
    before: Seq<TokView>,
    silent: bool,
    graph: bool,
    source: Text,
    dest: Text,
    behind: Seq<TokView>,
    prefixes: Map<Text, Text>,
    base: Option<Text>,
)
    ensures
        ({
            let words = phrase(silent, graph, TokView::Iri(source), TokView::Iri(dest));
            let hint = hint_at(before + words + behind, before.len() as int, prefixes, base);
            let (s, d) = (named_source(source, base), named_source(dest, base));
            &&& hint.silent == silent
            &&& hint.source == s
            &&& hint.is_identity <==> !(s is Unknown) && d == s
        }),
{
    let words = phrase(silent, graph, TokView::Iri(source), TokView::Iri(dest));
    let toks = before + words + behind;
    let i = before.len() as int;
    let at = i + (if silent {
        2int
    } else {
        1int
    });
    let src = at + (if graph {
        1int
    } else {
        0int
    });
    assert(toks.len() == before.len() + words.len() + behind.len());
    assert(toks[i + 1] == words[1]);
    assert(silent ==> words[1] is Silent);
    assert(toks[at] == words[at - i]);
    assert(toks[src] == words[src - i]);
    assert(words[src - i] == TokView::Iri(source));
    assert(toks[src + 2] == words[src + 2 - i]);
    assert(words[src + 2 - i] == TokView::Iri(dest));
}

/// The default graph is a source by its name.
pub proof fn the_default_graph_is_a_source(
    before: Seq<TokView>,
    silent: bool,
    dest: Text,
    behind: Seq<TokView>,
    prefixes: Map<Text, Text>,
    base: Option<Text>,
)
    ensures
        ({
            let words = phrase(silent, false, TokView::Default, TokView::Iri(dest));
            let hint = hint_at(before + words + behind, before.len() as int, prefixes, base);
            hint.silent == silent && hint.source == SourceView::Default && !hint.is_identity
        }),
        ({
            let words = phrase(silent, false, TokView::Default, TokView::Default);
            let hint = hint_at(before + words + behind, before.len() as int, prefixes, base);
            hint.is_identity
        }),
{
    let i = before.len() as int;
    let at = i + (if silent {
        2int
    } else {
        1int
    });
    let one = phrase(silent, false, TokView::Default, TokView::Iri(dest));
    let two = phrase(silent, false, TokView::Default, TokView::Default);
    let (a, b) = (before + one + behind, before + two + behind);
    assert(a[i + 1] == one[1] && b[i + 1] == two[1]);
    assert(a[at] == one[at - i] && b[at] == two[at - i]);
    assert(one[at - i] is Default && two[at - i] is Default);
    assert(a[at + 2] == one[at + 2 - i] && b[at + 2] == two[at + 2 - i]);
    assert(one[at + 2 - i] == TokView::Iri(dest) && two[at + 2 - i] is Default);
}

/// A prefixed name is what its prefix stands for with the rest behind it; an
/// unknown prefix names nothing.
pub proof fn prefixes_stand_for_iris(prefix: Text, local: Text, prefixes: Map<Text, Text>)
    requires
        !prefix.contains(':'),
    ensures
        prefixes.contains_key(prefix) ==> expanded(prefix + seq![':'] + local, prefixes)
            == SourceView::Named(prefixes[prefix] + local),
        !prefixes.contains_key(prefix) ==> expanded(prefix + seq![':'] + local, prefixes)
            == SourceView::Unknown,
{
    let name = prefix + seq![':'] + local;
    first_in_facts(name, 0, Class::Colon);
    let at = first_in(name, 0, Class::Colon);
    assert(name[prefix.len() as int] == ':');
    if at < prefix.len() {
        assert(name[at] == prefix[at]);
        assert(prefix.contains(prefix[at]));
    }
    if at > prefix.len() {
        assert(!in_class(Class::Colon, name[prefix.len() as int]));
    }
    assert(name.take(at) =~= prefix);
    assert(name.skip(at + 1) =~= local);
}

/// Every verb has a hint.
pub proof fn every_verb_has_a_hint(
    toks: Seq<TokView>,
    i: int,
    prefixes: Map<Text, Text>,
    base: Option<Text>,
)
    requires
        0 <= i <= toks.len(),
    ensures
        hints_from(toks, i, prefixes, base).len() == verbs(toks.skip(i)),
    decreases toks.len() - i,
{
    let rest = toks.skip(i);
    if i < toks.len() {
        assert(rest[0] == toks[i]);
        assert(rest.drop_first() =~= toks.skip(i + 1));
        assert(verbs(rest) == verbs(toks.skip(i + 1)) + if toks[i] is Amc {
            1nat
        } else {
            0nat
        });
        match toks[i] {
            TokView::Base => {
                if i + 1 < toks.len() && toks[i + 1] is Iri {
                    let next = crate::update::hints::rebased(toks[i + 1]->Iri_0, base);
                    every_verb_has_a_hint(toks, i + 2, prefixes, next);
                    let more = toks.skip(i + 1);
                    assert(more[0] == toks[i + 1]);
                    assert(more.drop_first() =~= toks.skip(i + 2));
                    assert(verbs(more) == verbs(toks.skip(i + 2)));
                } else {
                    every_verb_has_a_hint(toks, i + 1, prefixes, base);
                }
            },
            TokView::Prefix => {
                if i + 2 < toks.len() && toks[i + 1] is PName && toks[i + 2] is Iri {
                    let names = match crate::update::hints::iri_of(toks[i + 2]->Iri_0, base) {
                        Some(iri) => prefixes.insert(
                            crate::update::hints::name_prefix(toks[i + 1]->PName_0),
                            iri,
                        ),
                        None => prefixes,
                    };
                    every_verb_has_a_hint(toks, i + 3, names, base);
                    let (one, two) = (toks.skip(i + 1), toks.skip(i + 2));
                    assert(one[0] == toks[i + 1]);
                    assert(one.drop_first() =~= two);
                    assert(two[0] == toks[i + 2]);
                    assert(two.drop_first() =~= toks.skip(i + 3));
                    assert(verbs(one) == verbs(two));
                    assert(verbs(two) == verbs(toks.skip(i + 3)));
                } else {
                    every_verb_has_a_hint(toks, i + 1, prefixes, base);
                }
            },
            _ => {
                every_verb_has_a_hint(toks, i + 1, prefixes, base);
            },
        }
    } else {
        assert(rest.len() == 0);
    }
}

/// How many words are verbs.
pub open spec fn verbs(toks: Seq<TokView>) -> nat
    decreases toks.len(),
{
    if toks.len() == 0 {
        0
    } else {
        verbs(toks.drop_first()) + if toks[0] is Amc {
            1nat
        } else {
            0nat
        }
    }
}

/// A verb is refused where its source is a graph that holds no quad or that
/// could not be read, unless it is `SILENT` or does nothing.
pub proof fn missing_sources_are_refused(h: HintView, quads: Set<QuadView>)
    ensures
        hint_error(h, quads) is Some <==> !h.silent && !h.is_identity && match h.source {
            SourceView::Default => false,
            SourceView::Unknown => true,
            SourceView::Named(g) => !(exists|q: QuadView| #[trigger]
                quads.contains(q) && q.graph == Some(g)),
        },
{
}

/// Verbs are refused with the error of the first that is.
pub proof fn the_first_refused_verb_counts(
    a: Seq<HintView>,
    h: HintView,
    b: Seq<HintView>,
    quads: Set<QuadView>,
)
    requires
        forall|i: int| 0 <= i < a.len() ==> hint_error(#[trigger] a[i], quads) is None,
    ensures
        hints_error(a, quads) is None,
        hint_error(h, quads) is Some ==> hints_error(a + seq![h] + b, quads) == hint_error(
            h,
            quads,
        ),
    decreases a.len(),
{
    let all = a + seq![h] + b;
    if a.len() > 0 {
        let rest = a.drop_first();
        assert forall|i: int| 0 <= i < rest.len() implies hint_error(
            #[trigger] rest[i],
            quads,
        ) is None by {
            assert(rest[i] == a[i + 1]);
        }
        the_first_refused_verb_counts(rest, h, b, quads);
        assert(all.drop_first() =~= rest + seq![h] + b);
        assert(all[0] == a[0]);
    } else {
        assert(all[0] == h);
    }
}

// ── Words ───────────────────────────────────────────────────────────────────

/// Spaces, tabs and line ends say nothing, nor does a comment to the end of its
/// line.
pub proof fn blanks_and_comments_say_nothing(s: Text, i: int, end: int)
    requires
        0 <= i < s.len(),
    ensures
        s[i] == ' ' || s[i] == '\t' || s[i] == '\r' || s[i] == '\n' ==> toks_from(s, i)
            == toks_from(s, i + 1),
        s[i] == '#' && i < end <= s.len() && (forall|k: int|
            i < k < end ==> #[trigger] s[k] != '\n') && (end < s.len() ==> s[end] == '\n')
            ==> toks_from(s, i) == toks_from(s, end),
{
    if s[i] == '#' && i < end <= s.len() && (forall|k: int|
        i < k < end ==> #[trigger] s[k] != '\n') && (end < s.len() ==> s[end] == '\n') {
        first_in_facts(s, i + 1, Class::LineEnd);
        let f = first_in(s, i + 1, Class::LineEnd);
        if f < end {
            assert(s[f] != '\n');
        }
        if f > end {
            assert(!in_class(Class::LineEnd, s[end]));
        }
    }
}

/// What stands in angle brackets is an IRI, where it holds no white space and no
/// backslash.
pub proof fn angle_brackets_hold_an_iri(s: Text, i: int, end: int)
    requires
        0 <= i < end < s.len(),
        s[i] == '<',
        s[end] == '>',
        forall|k: int| i < k < end ==> !in_class(Class::IriEnd, #[trigger] s[k]) && s[k] != '\\',
    ensures
        toks_from(s, i) == seq![TokView::Iri(s.subrange(i + 1, end))] + toks_from(s, end + 1),
{
    first_in_facts(s, i + 1, Class::IriEnd);
    let f = first_in(s, i + 1, Class::IriEnd);
    if f < end {
        assert(!in_class(Class::IriEnd, s[f]));
    }
    if f > end {
        assert(!in_class(Class::IriEnd, s[end]));
    }
    let inner = s.subrange(i + 1, end);
    assert(!inner.contains('\\')) by {
        if inner.contains('\\') {
            let k = choose|k: int| 0 <= k < inner.len() && inner[k] == '\\';
            assert(s[i + 1 + k] == '\\');
        }
    }
}

/// Is this a whole word of letters, not behind the sign of a variable?
pub open spec fn is_word(s: Text, i: int, end: int) -> bool {
    &&& 0 <= i < end <= s.len()
    &&& forall|k: int| i <= k < end ==> is_letter(#[trigger] s[k])
    &&& end < s.len() ==> !name_part(s[end]) && s[end] != '\\'
    &&& i > 0 ==> s[i - 1] != '?' && s[i - 1] != '$'
}

pub open spec fn is_letter(c: char) -> bool {
    ('a' <= c && c <= 'z') || ('A' <= c && c <= 'Z')
}

/// The words of the language are read in either case, and any other word is
/// none.
pub proof fn words_are_read_in_either_case(s: Text, i: int, end: int)
    requires
        is_word(s, i, end),
    ensures
        ({
            let small = lower(s.subrange(i, end));
            let tok = toks_from(s, i)[0];
            &&& toks_from(s, i) == seq![tok] + toks_from(s, end)
            &&& tok is Amc <==> small == "add"@ || small == "move"@ || small == "copy"@
            &&& small == "silent"@ ==> tok is Silent
            &&& small == "default"@ ==> tok is Default
            &&& small == "graph"@ ==> tok is Graph
            &&& small == "prefix"@ ==> tok is Prefix
            &&& small == "base"@ ==> tok is Base
            &&& tok is Silent ==> small == "silent"@
            &&& tok is Default ==> small == "default"@
            &&& tok is Graph ==> small == "graph"@
        }),
{
    reveal_strlit("add");
    reveal_strlit("move");
    reveal_strlit("copy");
    reveal_strlit("silent");
    reveal_strlit("default");
    reveal_strlit("graph");
    reveal_strlit("prefix");
    reveal_strlit("base");
    assert("add"@[0] == 'a' && "move"@[0] == 'm' && "copy"@[0] == 'c' && "silent"@[0] == 's');
    assert("default"@[0] == 'd' && "graph"@[0] == 'g' && "prefix"@[0] == 'p' && "base"@[0] == 'b');
    assert(is_letter(s[i]));
    first_in_facts(s, i + 1, Class::NameEnd);
    let f = first_in(s, i + 1, Class::NameEnd);
    if f < end {
        assert(is_letter(s[f]));
    }
    if f > end {
        assert(!in_class(Class::NameEnd, s[end]));
    }
    assert(is_letter(s[end - 1]));
    assert(dots_off(s, i, end) == end);
    let word = s.subrange(i, end);
    assert(!word.contains(':')) by {
        if word.contains(':') {
            let k = choose|k: int| 0 <= k < word.len() && word[k] == ':';
            assert(is_letter(s[i + k]));
        }
    }
    assert(toks_from(s, i) =~= seq![word_tok(s, i, end)] + toks_from(s, end));
    assert(toks_from(s, i)[0] == word_tok(s, i, end));
}

}
