//! Recursive property paths: the transitive closure of an edge relation,
//! matched against the endpoints of a query.

use crate::algebra::{Term, TermView, PATH_DST_VAR, PATH_SRC_VAR};
use crate::exec::bindings::{bindings_view, Bindings};
use crate::exec::literal::{lex, lex_of};
use crate::text::{compare_text, text_order, text_order_laws, Order, Text};
use vstd::prelude::*;

verus! {

// ── What a path denotes ─────────────────────────────────────────────────────

/// Does a row bind both ends of an edge?
pub open spec fn is_edge(b: Map<Text, TermView>) -> bool {
    b.contains_key(PATH_SRC_VAR@) && b.contains_key(PATH_DST_VAR@)
}

/// The edges of some rows, by the lexical forms of their ends.
pub open spec fn edges_of(rows: Seq<Map<Text, TermView>>) -> Seq<(Text, Text)>
    decreases rows.len(),
{
    if rows.len() == 0 {
        Seq::empty()
    } else {
        let rest = edges_of(rows.drop_last());
        let b = rows.last();
        if is_edge(b) {
            rest.push((lex_of(b[PATH_SRC_VAR@]), lex_of(b[PATH_DST_VAR@])))
        } else {
            rest
        }
    }
}

/// The ends of the edges, in order.
pub open spec fn edge_terms(rows: Seq<Map<Text, TermView>>) -> Seq<TermView>
    decreases rows.len(),
{
    if rows.len() == 0 {
        Seq::empty()
    } else {
        let rest = edge_terms(rows.drop_last());
        let b = rows.last();
        if is_edge(b) {
            rest.push(b[PATH_SRC_VAR@]).push(b[PATH_DST_VAR@])
        } else {
            rest
        }
    }
}

/// An endpoint, where it is no variable.
pub open spec fn ground_end(t: TermView) -> Seq<TermView> {
    if t is Var {
        Seq::empty()
    } else {
        seq![t]
    }
}

/// The terms a path may visit. Under the reflexive closure a ground endpoint
/// is visited even where no edge touches it.
pub open spec fn path_terms(
    subject: TermView,
    object: TermView,
    rows: Seq<Map<Text, TermView>>,
    reflexive: bool,
) -> Seq<TermView> {
    if reflexive {
        edge_terms(rows) + ground_end(subject) + ground_end(object)
    } else {
        edge_terms(rows)
    }
}

pub open spec fn has_lex(terms: Seq<TermView>, k: Text) -> bool {
    exists|i: int| 0 <= i < terms.len() && lex_of(#[trigger] terms[i]) == k
}

/// The first of some terms with a lexical form.
pub open spec fn first_with(terms: Seq<TermView>, k: Text) -> TermView
    decreases terms.len(),
{
    if terms.len() == 0 {
        arbitrary()
    } else if has_lex(terms.drop_last(), k) {
        first_with(terms.drop_last(), k)
    } else {
        terms.last()
    }
}

/// Is the `i`-th step of a sequence of nodes an edge?
pub open spec fn is_step(edges: Seq<(Text, Text)>, w: Seq<Text>, i: int) -> bool {
    edges.contains((w[i], w[i + 1]))
}

/// Is a sequence of nodes a walk of at least one edge?
pub open spec fn is_walk(edges: Seq<(Text, Text)>, w: Seq<Text>) -> bool {
    w.len() >= 2 && forall|i: int| 0 <= i < w.len() - 1 ==> #[trigger] is_step(edges, w, i)
}

/// Does a walk lead from one node to the other?
pub open spec fn reachable(edges: Seq<(Text, Text)>, a: Text, b: Text) -> bool {
    exists|w: Seq<Text>| #[trigger] is_walk(edges, w) && w[0] == a && w.last() == b
}

/// The pairs of a path: those a walk connects and, for the reflexive closure,
/// each node with itself.
pub open spec fn in_path(
    edges: Seq<(Text, Text)>,
    terms: Seq<TermView>,
    reflexive: bool,
    p: (Text, Text),
) -> bool {
    reachable(edges, p.0, p.1) || (reflexive && p.0 == p.1 && has_lex(terms, p.0))
}

/// Matches an endpoint of the query against a node: a variable is bound to it,
/// or must already be; a ground endpoint must have its lexical form.
pub open spec fn bind_end(endpoint: TermView, node: TermView, b: Map<Text, TermView>) -> Option<
    Map<Text, TermView>,
> {
    match endpoint {
        TermView::Var(v) => if b.contains_key(v) {
            if b[v] == node {
                Some(b)
            } else {
                None
            }
        } else {
            Some(b.insert(v, node))
        },
        _ => if lex_of(endpoint) == lex_of(node) {
            Some(b)
        } else {
            None
        },
    }
}

/// Matches both endpoints of the query against a pair of nodes.
pub open spec fn bind_pair(
    subject: TermView,
    object: TermView,
    terms: Seq<TermView>,
    p: (Text, Text),
) -> Option<Map<Text, TermView>> {
    match bind_end(subject, first_with(terms, p.0), Map::empty()) {
        Some(b) => bind_end(object, first_with(terms, p.1), b),
        None => None,
    }
}

/// The solutions of a sequence of pairs, in order.
pub open spec fn pair_solutions(
    subject: TermView,
    object: TermView,
    terms: Seq<TermView>,
    pairs: Seq<(Text, Text)>,
) -> Seq<Map<Text, TermView>>
    decreases pairs.len(),
{
    if pairs.len() == 0 {
        Seq::empty()
    } else {
        let rest = pair_solutions(subject, object, terms, pairs.drop_last());
        match bind_pair(subject, object, terms, pairs.last()) {
            Some(b) => rest.push(b),
            None => rest,
        }
    }
}

pub open spec fn pair_before(a: (Text, Text), b: (Text, Text)) -> bool {
    text_order(a.0, b.0) == Order::Less || (a.0 == b.0 && text_order(a.1, b.1) == Order::Less)
}

pub open spec fn pairs_sorted(ps: Seq<(Text, Text)>) -> bool {
    forall|i: int, j: int| 0 <= i < j < ps.len() ==> pair_before(#[trigger] ps[i], #[trigger] ps[j])
}

/// Are these the solutions of a path: those of its pairs, in the order of the
/// pairs?
pub open spec fn path_solutions(
    subject: TermView,
    object: TermView,
    rows: Seq<Map<Text, TermView>>,
    reflexive: bool,
    out: Seq<Map<Text, TermView>>,
) -> bool {
    let edges = edges_of(rows);
    let terms = path_terms(subject, object, rows, reflexive);
    exists|ps: Seq<(Text, Text)>| #[trigger]
        pairs_sorted(ps) && (forall|p: (Text, Text)| #[trigger]
            ps.contains(p) <==> in_path(edges, terms, reflexive, p)) && out == pair_solutions(
            subject,
            object,
            terms,
            ps,
        )
}

// ── Laws of reachability ────────────────────────────────────────────────────

/// One edge is a walk.
pub proof fn edge_reaches(edges: Seq<(Text, Text)>, a: Text, b: Text)
    requires
        edges.contains((a, b)),
    ensures
        reachable(edges, a, b),
{
    let w = seq![a, b];
    assert forall|i: int| 0 <= i < w.len() - 1 implies #[trigger] is_step(edges, w, i) by {
        assert(i == 0);
    }
    assert(is_walk(edges, w));
}

/// Walks compose: the closure is transitive.
pub proof fn reachable_is_transitive(edges: Seq<(Text, Text)>, a: Text, b: Text, c: Text)
    requires
        reachable(edges, a, b),
        reachable(edges, b, c),
    ensures
        reachable(edges, a, c),
{
    let v = choose|w: Seq<Text>| #[trigger] is_walk(edges, w) && w[0] == a && w.last() == b;
    let w = choose|w: Seq<Text>| #[trigger] is_walk(edges, w) && w[0] == b && w.last() == c;
    let u = v + w.drop_first();
    assert forall|i: int| 0 <= i < u.len() - 1 implies #[trigger] is_step(edges, u, i) by {
        if i < v.len() - 1 {
            assert(is_step(edges, v, i));
            assert(u[i] == v[i] && u[i + 1] == v[i + 1]);
        } else {
            let j = i - v.len() + 1;
            assert(is_step(edges, w, j));
            assert(u[i] == w[j]);
            assert(u[i + 1] == w[j + 1]);
        }
    }
    assert(is_walk(edges, u));
    assert(u[0] == a);
    assert(u.last() == c);
}

/// The closure is the least: a relation that holds of every edge and passes
/// along edges holds of every pair a walk connects.
pub proof fn reachable_is_least(edges: Seq<(Text, Text)>, a: Text, s: Set<Text>, b: Text)
    requires
        forall|x: Text| #[trigger] edges.contains((a, x)) ==> s.contains(x),
        forall|x: Text, y: Text| s.contains(x) && #[trigger] edges.contains((x, y)) ==> s.contains(y),
        reachable(edges, a, b),
    ensures
        s.contains(b),
{
    let w = choose|w: Seq<Text>| #[trigger] is_walk(edges, w) && w[0] == a && w.last() == b;
    walk_stays(edges, a, s, w, w.len() - 1);
}

proof fn walk_stays(edges: Seq<(Text, Text)>, a: Text, s: Set<Text>, w: Seq<Text>, i: int)
    requires
        forall|x: Text| #[trigger] edges.contains((a, x)) ==> s.contains(x),
        forall|x: Text, y: Text| s.contains(x) && #[trigger] edges.contains((x, y)) ==> s.contains(y),
        is_walk(edges, w),
        w[0] == a,
        1 <= i < w.len(),
    ensures
        s.contains(w[i]),
    decreases i,
{
    assert(is_step(edges, w, i - 1));
    assert(edges.contains((w[i - 1], w[i])));
    if i > 1 {
        walk_stays(edges, a, s, w, i - 1);
    }
}

/// A walk ends in the end of an edge, and starts in the start of one.
pub proof fn reachable_ends(edges: Seq<(Text, Text)>, a: Text, b: Text)
    requires
        reachable(edges, a, b),
    ensures
        exists|x: Text| edges.contains((a, x)),
        exists|x: Text| edges.contains((x, b)),
{
    let w = choose|w: Seq<Text>| #[trigger] is_walk(edges, w) && w[0] == a && w.last() == b;
    let (z, n) = (0int, w.len() - 2);
    assert(is_step(edges, w, z) && is_step(edges, w, n));
    assert(edges.contains((a, w[1])));
    assert(edges.contains((w[n], b)));
}

/// The ends of an edge are among the edge terms.
pub proof fn edge_ends_are_terms(rows: Seq<Map<Text, TermView>>, a: Text, b: Text)
    requires
        edges_of(rows).contains((a, b)),
    ensures
        has_lex(edge_terms(rows), a),
        has_lex(edge_terms(rows), b),
    decreases rows.len(),
{
    let es = edges_of(rows);
    let k = choose|k: int| 0 <= k < es.len() && es[k] == (a, b);
    if rows.len() > 0 {
        let rest = rows.drop_last();
        let ts = edge_terms(rows);
        let tr = edge_terms(rest);
        if k < edges_of(rest).len() {
            assert(edges_of(rest)[k] == (a, b));
            assert(edges_of(rest).contains((a, b)));
            edge_ends_are_terms(rest, a, b);
            let i = choose|i: int| 0 <= i < tr.len() && lex_of(#[trigger] tr[i]) == a;
            let j = choose|j: int| 0 <= j < tr.len() && lex_of(#[trigger] tr[j]) == b;
            assert(ts[i] == tr[i] && ts[j] == tr[j]);
        } else {
            assert(ts[tr.len() as int] == rows.last()[PATH_SRC_VAR@]);
            assert(ts[tr.len() as int + 1] == rows.last()[PATH_DST_VAR@]);
        }
    }
}

// ── The table of nodes ──────────────────────────────────────────────────────

/// The nodes of a relation, sorted by lexical form, each with the first term
/// that was seen for it.
struct Nodes {
    keys: Vec<String>,
    terms: Vec<Term>,
}

spec fn keys_sorted(ks: Seq<String>) -> bool {
    forall|i: int, j: int|
        0 <= i < j < ks.len() ==> text_order(#[trigger] ks[i]@, #[trigger] ks[j]@) == Order::Less
}

impl Nodes {
    spec fn holds(&self, seen: Seq<TermView>) -> bool {
        &&& self.keys@.len() == self.terms@.len()
        &&& keys_sorted(self.keys@)
        &&& forall|i: int|
            0 <= i < self.keys@.len() ==> has_lex(seen, #[trigger] self.keys@[i]@)
                && self.terms@[i]@ == first_with(seen, self.keys@[i]@)
        &&& forall|k: Text| #[trigger]
            has_lex(seen, k) ==> exists|i: int| 0 <= i < self.keys@.len() && self.keys@[i]@ == k
    }

    /// The position of a key, or where it belongs.
    fn find(&self, key: &str) -> (r: (usize, bool))
        requires
            keys_sorted(self.keys@),
        ensures
            r.0 <= self.keys@.len(),
            r.1 ==> r.0 < self.keys@.len() && self.keys@[r.0 as int]@ == key@,
            forall|i: int|
                0 <= i < r.0 ==> text_order(#[trigger] self.keys@[i]@, key@) == Order::Less,
            !r.1 ==> forall|i: int|
                r.0 <= i < self.keys@.len() ==> text_order(key@, #[trigger] self.keys@[i]@)
                    == Order::Less,
    {
        let mut i: usize = 0;
        while i < self.keys.len()
            invariant
                i <= self.keys@.len(),
                keys_sorted(self.keys@),
                forall|j: int|
                    0 <= j < i ==> text_order(#[trigger] self.keys@[j]@, key@) == Order::Less,
            decreases self.keys@.len() - i,
        {
            match compare_text(self.keys[i].as_str(), key) {
                Order::Less => {},
                Order::Equal => {
                    proof {
                        text_order_laws(self.keys@[i as int]@, key@, key@);
                    }
                    return (i, true);
                },
                Order::Greater => {
                    proof {
                        let k = self.keys@[i as int]@;
                        text_order_laws(k, key@, key@);
                        assert forall|j: int| i <= j < self.keys@.len() implies text_order(
                            key@,
                            #[trigger] self.keys@[j]@,
                        ) == Order::Less by {
                            if j > i {
                                text_order_laws(key@, k, self.keys@[j]@);
                            }
                        }
                    }
                    return (i, false);
                },
            }
            i = i + 1;
        }
        (i, false)
    }

    /// Enters a term; the first term of a lexical form stays.
    fn enter(&mut self, t: &Term, Ghost(seen): Ghost<Seq<TermView>>)
        requires
            old(self).holds(seen),
        ensures
            final(self).holds(seen.push(t@)),
    {
        let key = lex(t);
        let (at, found) = self.find(key.as_str());
        let ghost ks = self.keys@;
        let ghost ts = self.terms@;
        let ghost seen2 = seen.push(t@);
        proof {
            assert(seen2.drop_last() =~= seen);
            assert forall|k: Text| has_lex(seen, k) implies #[trigger] has_lex(seen2, k) by {
                let i = choose|i: int| 0 <= i < seen.len() && lex_of(#[trigger] seen[i]) == k;
                assert(seen2[i] == seen[i]);
            }
            assert(has_lex(seen2, key@)) by {
                assert(lex_of(seen2[seen.len() as int]) == key@);
            }
            assert forall|k: Text| #[trigger] has_lex(seen2, k) implies has_lex(seen, k) || k
                == key@ by {
                let i = choose|i: int| 0 <= i < seen2.len() && lex_of(#[trigger] seen2[i]) == k;
                if i < seen.len() {
                    assert(seen[i] == seen2[i]);
                }
            }
        }
        if !found {
            let copy = t.clone();
            proof {
                if has_lex(seen, key@) {
                    let i = choose|i: int| 0 <= i < ks.len() && ks[i]@ == key@;
                    text_order_laws(key@, key@, key@);
                }
            }
            self.keys.insert(at, key);
            self.terms.insert(at, copy);
            proof {
                let ns = self.keys@;
                assert(ns == ks.insert(at as int, key));
                assert(keys_sorted(ns)) by {
                    assert forall|i: int, j: int| 0 <= i < j < ns.len() implies text_order(
                        #[trigger] ns[i]@,
                        #[trigger] ns[j]@,
                    ) == Order::Less by {
                        if i < at && j > at {
                            assert(ns[i] == ks[i] && ns[j] == ks[j - 1]);
                        } else if j < at {
                            assert(ns[i] == ks[i] && ns[j] == ks[j]);
                        } else if i > at {
                            assert(ns[i] == ks[i - 1] && ns[j] == ks[j - 1]);
                        } else if i == at {
                            assert(ns[j] == ks[j - 1]);
                        } else {
                            assert(ns[i] == ks[i]);
                        }
                    }
                }
                assert forall|i: int| 0 <= i < ns.len() implies has_lex(seen2, #[trigger] ns[i]@)
                    && self.terms@[i]@ == first_with(seen2, ns[i]@) by {
                    if i < at {
                        assert(ns[i] == ks[i] && self.terms@[i] == ts[i]);
                    } else if i > at {
                        assert(ns[i] == ks[i - 1] && self.terms@[i] == ts[i - 1]);
                    }
                }
                assert forall|k: Text| #[trigger] has_lex(seen2, k) implies exists|i: int|
                    0 <= i < ns.len() && ns[i]@ == k by {
                    if k == key@ {
                        assert(ns[at as int]@ == k);
                    } else {
                        let i = choose|i: int| 0 <= i < ks.len() && ks[i]@ == k;
                        if i < at {
                            assert(ns[i]@ == k);
                        } else {
                            assert(ns[i + 1]@ == k);
                        }
                    }
                }
            }
        } else {
            proof {
                assert(has_lex(seen, ks[at as int]@));
                assert forall|i: int| 0 <= i < ks.len() implies has_lex(seen2, #[trigger] ks[i]@)
                    && ts[i]@ == first_with(seen2, ks[i]@) by {}
                assert forall|k: Text| #[trigger] has_lex(seen2, k) implies exists|i: int|
                    0 <= i < ks.len() && ks[i]@ == k by {
                    if k == key@ {
                        assert(ks[at as int]@ == k);
                    }
                }
            }
        }
    }
}

// ── Walking the relation ────────────────────────────────────────────────────

/// The number of nodes not yet visited.
spec fn unvisited(v: Seq<bool>) -> nat
    decreases v.len(),
{
    if v.len() == 0 {
        0
    } else {
        unvisited(v.drop_last()) + (if v.last() {
            0nat
        } else {
            1nat
        })
    }
}

proof fn visiting_counts(v: Seq<bool>, i: int)
    requires
        0 <= i < v.len(),
        !v[i],
    ensures
        unvisited(v.update(i, true)) + 1 == unvisited(v),
    decreases v.len(),
{
    let u = v.update(i, true);
    if i == v.len() - 1 {
        assert(u.drop_last() =~= v.drop_last());
    } else {
        assert(u.drop_last() =~= v.drop_last().update(i, true));
        assert(u.last() == v.last());
        visiting_counts(v.drop_last(), i);
    }
}

/// Visits the neighbours of a node, noting those not visited before.
fn visit_all(nbrs: &Vec<usize>, visited: &mut Vec<bool>, work: &mut Vec<usize>)
    requires
        forall|k: int| 0 <= k < nbrs@.len() ==> #[trigger] nbrs@[k] < old(visited)@.len(),
    ensures
        final(visited)@.len() == old(visited)@.len(),
        forall|x: int|
            0 <= x < final(visited)@.len() ==> (#[trigger] final(visited)@[x] <==> old(visited)@[x]
                || nbrs@.contains(x as usize)),
        forall|x: usize| #[trigger]
            final(work)@.contains(x) <==> old(work)@.contains(x) || (nbrs@.contains(x)
                && !old(visited)@[x as int]),
        unvisited(final(visited)@) + final(work)@.len() == unvisited(old(visited)@)
            + old(work)@.len(),
{
    let ghost v0 = visited@;
    let ghost w0 = work@;
    let total: usize = visited.len();
    let mut i: usize = 0;
    assert(forall|x: usize| !nbrs@.take(0).contains(x));
    while i < nbrs.len()
        invariant
            i <= nbrs@.len(),
            total == v0.len(),
            v0 == old(visited)@,
            w0 == old(work)@,
            visited@.len() == v0.len(),
            forall|k: int| 0 <= k < nbrs@.len() ==> #[trigger] nbrs@[k] < v0.len(),
            forall|x: int|
                0 <= x < visited@.len() ==> (#[trigger] visited@[x] <==> v0[x] || nbrs@.take(
                    i as int,
                ).contains(x as usize)),
            forall|x: usize| #[trigger]
                work@.contains(x) <==> w0.contains(x) || (nbrs@.take(i as int).contains(x)
                    && !v0[x as int]),
            unvisited(visited@) + work@.len() == unvisited(v0) + w0.len(),
        decreases nbrs@.len() - i,
    {
        let n: usize = nbrs[i];
        let ghost t = nbrs@.take(i as int);
        let ghost u = nbrs@.take(i + 1);
        let ghost w1 = work@;
        proof {
            assert(u =~= t.push(n));
            assert forall|x: usize| #[trigger] u.contains(x) <==> t.contains(x) || x == n by {
                if t.contains(x) {
                    let k = choose|k: int| 0 <= k < t.len() && t[k] == x;
                    assert(u[k] == x);
                }
                if x == n {
                    assert(u[i as int] == x);
                }
                if u.contains(x) {
                    let k = choose|k: int| 0 <= k < u.len() && u[k] == x;
                    if k < i {
                        assert(t[k] == x);
                    }
                }
            }
        }
        if !visited[n] {
            proof {
                visiting_counts(visited@, n as int);
            }
            visited.set(n, true);
            work.push(n);
            assert forall|x: usize| #[trigger] work@.contains(x) <==> w1.contains(x) || x == n by {
                if w1.contains(x) {
                    let k = choose|k: int| 0 <= k < w1.len() && w1[k] == x;
                    assert(work@[k] == x);
                }
                if x == n {
                    assert(work@[w1.len() as int] == x);
                }
                if work@.contains(x) {
                    let k = choose|k: int| 0 <= k < work@.len() && work@[k] == x;
                    if k < w1.len() {
                        assert(w1[k] == x);
                    }
                }
            }
        }
        i = i + 1;
    }
    assert(nbrs@.take(nbrs@.len() as int) =~= nbrs@);
}

/// Do the neighbour lists stand for the edges?
spec fn adjacent(adj: Seq<Vec<usize>>, ks: Seq<String>, edges: Seq<(Text, Text)>) -> bool {
    &&& adj.len() == ks.len()
    &&& forall|i: int, k: int|
        #![trigger adj[i]@[k]]
        0 <= i < adj.len() && 0 <= k < adj[i]@.len() ==> adj[i]@[k] < ks.len()
    &&& forall|i: int, j: usize|
        #![trigger adj[i]@.contains(j)]
        0 <= i < adj.len() && j < ks.len() ==> (adj[i]@.contains(j) <==> edges.contains(
            (ks[i]@, ks[j as int]@),
        ))
}

/// Are the ends of every edge among the keys?
spec fn ends_known(ks: Seq<String>, edges: Seq<(Text, Text)>) -> bool {
    forall|a: Text, b: Text| #[trigger]
        edges.contains((a, b)) ==> known(ks, a) && known(ks, b)
}

spec fn known(ks: Seq<String>, k: Text) -> bool {
    exists|i: int| 0 <= i < ks.len() && (#[trigger] ks[i])@ == k
}

/// The nodes a walk reaches from a node.
fn reach_from(
    adj: &Vec<Vec<usize>>,
    from: usize,
    Ghost(ks): Ghost<Seq<String>>,
    Ghost(edges): Ghost<Seq<(Text, Text)>>,
) -> (r: Vec<bool>)
    requires
        adjacent(adj@, ks, edges),
        ends_known(ks, edges),
        keys_sorted(ks),
        from < adj@.len(),
    ensures
        r@.len() == adj@.len(),
        forall|x: int|
            0 <= x < r@.len() ==> (#[trigger] r@[x] <==> reachable(
                edges,
                ks[from as int]@,
                ks[x]@,
            )),
{
    let n: usize = adj.len();
    let ghost src = ks[from as int]@;
    let mut visited: Vec<bool> = Vec::new();
    while visited.len() < n
        invariant
            visited@.len() <= n,
            forall|x: int| 0 <= x < visited@.len() ==> !#[trigger] visited@[x],
        decreases n - visited@.len(),
    {
        visited.push(false);
    }
    let mut work: Vec<usize> = Vec::new();
    visit_all(&adj[from], &mut visited, &mut work);
    assert forall|x: int| 0 <= x < n && visited@[x] implies reachable(edges, src, #[trigger] ks[x]@) by {
        assert(adj@[from as int]@.contains(x as usize));
        edge_reaches(edges, src, ks[x]@);
    }
    assert forall|x: usize| #[trigger] work@.contains(x) implies x < n by {
        let k = choose|k: int| 0 <= k < adj@[from as int]@.len() && adj@[from as int]@[k] == x;
        assert(adj@[from as int]@[k] < ks.len());
    }
    while work.len() > 0
        invariant
            adjacent(adj@, ks, edges),
            from < n,
            n == adj@.len(),
            src == ks[from as int]@,
            visited@.len() == n,
            forall|x: int| 0 <= x < n && visited@[x] ==> reachable(edges, src, #[trigger] ks[x]@),
            forall|x: usize| #[trigger] work@.contains(x) ==> x < n && visited@[x as int],
            forall|y: int|
                0 <= y < n && edges.contains((src, #[trigger] ks[y]@)) ==> visited@[y],
            forall|x: int, y: int|
                #![trigger ks[x]@, ks[y]@]
                0 <= x < n && 0 <= y < n && visited@[x] && !work@.contains(x as usize)
                    && edges.contains((ks[x]@, ks[y]@)) ==> visited@[y],
        decreases unvisited(visited@) + work@.len(),
    {
        let ghost w0 = work@;
        let ghost v0 = visited@;
        let last: usize = work.len() - 1;
        let cur: usize = work[last];
        assert(w0.contains(cur));
        work.pop();
        let ghost w1 = work@;
        proof {
            assert forall|x: usize| w1.contains(x) implies #[trigger] w0.contains(x) by {
                let k = choose|k: int| 0 <= k < w1.len() && w1[k] == x;
                assert(w0[k] == x);
            }
            assert forall|x: usize| #[trigger] w0.contains(x) implies w1.contains(x) || x == cur by {
                let k = choose|k: int| 0 <= k < w0.len() && w0[k] == x;
                if k < w1.len() {
                    assert(w1[k] == x);
                }
            }
        }
        visit_all(&adj[cur], &mut visited, &mut work);
        proof {
            let row = adj@[cur as int]@;
            assert forall|x: int| 0 <= x < n && visited@[x] implies reachable(
                edges,
                src,
                #[trigger] ks[x]@,
            ) by {
                if !v0[x] {
                    assert(row.contains(x as usize));
                    assert(edges.contains((ks[cur as int]@, ks[x]@)));
                    edge_reaches(edges, ks[cur as int]@, ks[x]@);
                    reachable_is_transitive(edges, src, ks[cur as int]@, ks[x]@);
                }
            }
            assert forall|x: usize| #[trigger] work@.contains(x) implies x < n
                && visited@[x as int] by {
                if w1.contains(x) {
                    assert(w0.contains(x));
                } else {
                    let k = choose|k: int| 0 <= k < row.len() && row[k] == x;
                    assert(adj@[cur as int]@[k] < ks.len());
                }
            }
            assert forall|x: int, y: int|
                #![trigger ks[x]@, ks[y]@]
                0 <= x < n && 0 <= y < n && visited@[x] && !work@.contains(x as usize)
                    && edges.contains((ks[x]@, ks[y]@)) implies visited@[y] by {
                if x == cur {
                    assert(row.contains(y as usize));
                } else if v0[x] {
                    assert(!w0.contains(x as usize));
                } else {
                    assert(row.contains(x as usize));
                }
            }
        }
    }
    proof {
        let s = Set::new(|t: Text| exists|x: int| 0 <= x < n && visited@[x] && #[trigger] ks[x]@ == t);
        assert forall|x: int| 0 <= x < n implies (#[trigger] visited@[x] <==> reachable(
            edges,
            src,
            ks[x]@,
        )) by {
            if reachable(edges, src, ks[x]@) {
                assert forall|t: Text| #[trigger] edges.contains((src, t)) implies s.contains(t) by {
                    assert(known(ks, t));
                    let y = choose|y: int| 0 <= y < ks.len() && (#[trigger] ks[y])@ == t;
                    assert(visited@[y]);
                }
                assert forall|t: Text, u: Text| s.contains(t) && #[trigger] edges.contains(
                    (t, u),
                ) implies s.contains(u) by {
                    let y = choose|y: int| 0 <= y < n && visited@[y] && #[trigger] ks[y]@ == t;
                    assert(known(ks, u));
                    let z = choose|z: int| 0 <= z < ks.len() && (#[trigger] ks[z])@ == u;
                    assert(!work@.contains(y as usize));
                    assert(visited@[z]);
                }
                reachable_is_least(edges, src, s, ks[x]@);
                let y = choose|y: int| 0 <= y < n && visited@[y] && #[trigger] ks[y]@ == ks[x]@;
                text_order_laws(ks[x]@, ks[x]@, ks[x]@);
                assert(x == y) by {
                    if x < y {
                        assert(text_order(ks[x]@, ks[y]@) == Order::Less);
                    } else if y < x {
                        assert(text_order(ks[y]@, ks[x]@) == Order::Less);
                    }
                }
            }
        }
    }
    visited
}

/// Matches an endpoint of the query against a node.
pub fn bind_endpoint(endpoint: &Term, node: &Term, b: &mut Bindings) -> (r: bool)
    ensures
        r ==> bind_end(endpoint@, node@, old(b)@) == Some(final(b)@),
        !r ==> bind_end(endpoint@, node@, old(b)@) is None,
{
    match endpoint {
        Term::Var(v) => {
            match b.get(v.name()) {
                Some(existing) => return existing.same(node),
                None => {},
            }
            b.set(v.name().to_owned(), node.clone());
            true
        },
        ground => {
            let x = lex(ground);
            let y = lex(node);
            x == y
        },
    }
}

fn empty_lists(n: usize) -> (r: Vec<Vec<usize>>)
    ensures
        r@.len() == n,
        forall|i: int| 0 <= i < n ==> (#[trigger] r@[i])@ == Seq::<usize>::empty(),
{
    let mut out: Vec<Vec<usize>> = Vec::new();
    while out.len() < n
        invariant
            out@.len() <= n,
            forall|i: int| 0 <= i < out@.len() ==> (#[trigger] out@[i])@ == Seq::<usize>::empty(),
        decreases n - out@.len(),
    {
        out.push(Vec::new());
    }
    out
}

/// Distinct positions hold distinct keys.
proof fn keys_distinct(ks: Seq<String>, i: int, j: int)
    requires
        keys_sorted(ks),
        0 <= i < ks.len(),
        0 <= j < ks.len(),
        ks[i]@ == ks[j]@,
    ensures
        i == j,
{
    text_order_laws(ks[i]@, ks[i]@, ks[i]@);
    if i < j {
        assert(text_order(ks[i]@, ks[j]@) == Order::Less);
    } else if j < i {
        assert(text_order(ks[j]@, ks[i]@) == Order::Less);
    }
}

/// A key that stands in the table is found.
fn locate(nodes: &Nodes, key: &str, Ghost(seen): Ghost<Seq<TermView>>) -> (r: usize)
    requires
        nodes.holds(seen),
        has_lex(seen, key@),
    ensures
        r < nodes.keys@.len(),
        nodes.keys@[r as int]@ == key@,
{
    let (at, found) = nodes.find(key);
    proof {
        if !found {
            let i = choose|i: int| 0 <= i < nodes.keys@.len() && nodes.keys@[i]@ == key@;
            text_order_laws(key@, key@, key@);
            if i < at {
                assert(text_order(nodes.keys@[i]@, key@) == Order::Less);
            } else {
                assert(text_order(key@, nodes.keys@[i]@) == Order::Less);
            }
        }
    }
    at
}

proof fn has_lex_in_prefix(a: Seq<TermView>, b: Seq<TermView>, k: Text)
    requires
        has_lex(a, k),
    ensures
        has_lex(a + b, k),
{
    let i = choose|i: int| 0 <= i < a.len() && lex_of(#[trigger] a[i]) == k;
    assert((a + b)[i] == a[i]);
}

/// The table of the nodes a path may visit.
fn collect_nodes(subject: &Term, object: &Term, rows: &Vec<Bindings>, reflexive: bool) -> (r: Nodes)
    ensures
        r.holds(path_terms(subject@, object@, bindings_view(rows@), reflexive)),
{
    let ghost rv = bindings_view(rows@);
    let mut nodes = Nodes { keys: Vec::new(), terms: Vec::new() };
    let mut i: usize = 0;
    assert(nodes.holds(edge_terms(rv.take(0)))) by {
        assert(edge_terms(rv.take(0)) =~= Seq::<TermView>::empty());
    }
    while i < rows.len()
        invariant
            i <= rows@.len(),
            rv == bindings_view(rows@),
            nodes.holds(edge_terms(rv.take(i as int))),
        decreases rows@.len() - i,
    {
        proof {
            assert(rv.take(i + 1).drop_last() =~= rv.take(i as int));
            assert(rv.take(i + 1).last() == rv[i as int]);
        }
        let ghost seen = edge_terms(rv.take(i as int));
        match (rows[i].get(PATH_SRC_VAR), rows[i].get(PATH_DST_VAR)) {
            (Some(s), Some(o)) => {
                nodes.enter(s, Ghost(seen));
                nodes.enter(o, Ghost(seen.push(s@)));
            },
            _ => {},
        }
        i = i + 1;
    }
    assert(rv.take(rv.len() as int) =~= rv);
    if reflexive {
        let ghost seen = edge_terms(rv);
        assert(seen + Seq::<TermView>::empty() =~= seen);
        let ghost seen_s = seen + ground_end(subject@);
        match subject {
            Term::Var(_) => {},
            ground => {
                nodes.enter(ground, Ghost(seen));
                assert(seen.push(subject@) =~= seen_s);
            },
        }
        assert(nodes.holds(seen_s));
        assert(seen_s + Seq::<TermView>::empty() =~= seen_s);
        match object {
            Term::Var(_) => {},
            ground => {
                nodes.enter(ground, Ghost(seen_s));
                assert(seen_s.push(object@) =~= seen_s + ground_end(object@));
            },
        }
    }
    nodes
}

/// The neighbour lists of the edges.
#[verifier::rlimit(40)]
fn collect_edges(nodes: &Nodes, rows: &Vec<Bindings>, Ghost(seen): Ghost<Seq<TermView>>) -> (r: Vec<
    Vec<usize>,
>)
    requires
        nodes.holds(seen),
        exists|rest: Seq<TermView>| seen == edge_terms(bindings_view(rows@)) + rest,
    ensures
        adjacent(r@, nodes.keys@, edges_of(bindings_view(rows@))),
        ends_known(nodes.keys@, edges_of(bindings_view(rows@))),
{
    let ghost rv = bindings_view(rows@);
    let ghost edges = edges_of(rv);
    let ghost rest = choose|rest: Seq<TermView>| seen == edge_terms(rv) + rest;
    let ghost ks = nodes.keys@;
    let n: usize = nodes.keys.len();
    let mut adj = empty_lists(n);
    let mut i: usize = 0;
    assert(edges_of(rv.take(0)) =~= Seq::<(Text, Text)>::empty());
    assert(rv.take(rv.len() as int) =~= rv);
    while i < rows.len()
        invariant
            i <= rows@.len(),
            rv == bindings_view(rows@),
            edges == edges_of(rv),
            seen == edge_terms(rv) + rest,
            nodes.holds(seen),
            ks == nodes.keys@,
            n == ks.len(),
            adjacent(adj@, ks, edges_of(rv.take(i as int))),
        decreases rows@.len() - i,
    {
        proof {
            assert(rv.take(i + 1).drop_last() =~= rv.take(i as int));
            assert(rv.take(i + 1).last() == rv[i as int]);
        }
        let ghost before = edges_of(rv.take(i as int));
        let ghost now = edges_of(rv.take(i + 1));
        match (rows[i].get(PATH_SRC_VAR), rows[i].get(PATH_DST_VAR)) {
            (Some(s), Some(o)) => {
                let sk = lex(s);
                let ok = lex(o);
                proof {
                    assert(now == before.push((sk@, ok@)));
                    assert(now.contains((sk@, ok@))) by {
                        assert(now[before.len() as int] == (sk@, ok@));
                    }
                    edge_in_prefix(rv, i + 1, (sk@, ok@));
                    edge_ends_are_terms(rv, sk@, ok@);
                    has_lex_in_prefix(edge_terms(rv), rest, sk@);
                    has_lex_in_prefix(edge_terms(rv), rest, ok@);
                }
                let a = locate(nodes, sk.as_str(), Ghost(seen));
                let b = locate(nodes, ok.as_str(), Ghost(seen));
                let ghost adj0 = adj@;
                let ghost row0 = adj@[a as int]@;
                adj[a].push(b);
                proof {
                    let row1 = adj@[a as int]@;
                    assert(row1 == row0.push(b));
                    assert forall|p: int, k: int|
                        #![trigger adj@[p]@[k]]
                        0 <= p < adj@.len() && 0 <= k < adj@[p]@.len() implies adj@[p]@[k]
                        < ks.len() by {
                        if p == a {
                            if k < row0.len() {
                                assert(adj0[p]@[k] == row1[k]);
                            }
                        } else {
                            assert(adj@[p] == adj0[p]);
                            assert(adj0[p]@[k] < ks.len());
                        }
                    }
                    assert forall|p: int, j: usize|
                        #![trigger adj@[p]@.contains(j)]
                        0 <= p < adj@.len() && j < ks.len() implies (adj@[p]@.contains(j)
                        <==> now.contains((ks[p]@, ks[j as int]@))) by {
                        let pair = (ks[p]@, ks[j as int]@);
                        assert(now.contains(pair) <==> before.contains(pair) || pair == (sk@, ok@))
                            by {
                            if before.contains(pair) {
                                let k = choose|k: int| 0 <= k < before.len() && before[k] == pair;
                                assert(now[k] == pair);
                            }
                            if now.contains(pair) {
                                let k = choose|k: int| 0 <= k < now.len() && now[k] == pair;
                                if k < before.len() {
                                    assert(before[k] == pair);
                                }
                            }
                        }
                        assert(adj0[p]@.contains(j) <==> before.contains(pair));
                        if p == a {
                            assert(row1.contains(j) <==> row0.contains(j) || j == b) by {
                                if row0.contains(j) {
                                    let k = choose|k: int| 0 <= k < row0.len() && row0[k] == j;
                                    assert(row1[k] == j);
                                }
                                if j == b {
                                    assert(row1[row0.len() as int] == j);
                                }
                                if row1.contains(j) {
                                    let k = choose|k: int| 0 <= k < row1.len() && row1[k] == j;
                                    if k < row0.len() {
                                        assert(row0[k] == j);
                                    }
                                }
                            }
                            if ks[j as int]@ == ok@ {
                                keys_distinct(ks, j as int, b as int);
                            }
                        } else {
                            assert(adj@[p] == adj0[p]);
                            if ks[p]@ == sk@ {
                                keys_distinct(ks, p, a as int);
                            }
                        }
                    }
                }
            },
            _ => {},
        }
        i = i + 1;
    }
    proof {
        assert forall|a: Text, b: Text| #[trigger] edges.contains((a, b)) implies known(ks, a)
            && known(ks, b) by {
            edge_ends_are_terms(rv, a, b);
            has_lex_in_prefix(edge_terms(rv), rest, a);
            has_lex_in_prefix(edge_terms(rv), rest, b);
            assert(has_lex(seen, a) && has_lex(seen, b));
            let i = choose|i: int| 0 <= i < ks.len() && ks[i]@ == a;
            let j = choose|j: int| 0 <= j < ks.len() && ks[j]@ == b;
            assert(known(ks, ks[i]@) && known(ks, ks[j]@));
        }
    }
    adj
}

/// The edges of a prefix are among the edges.
proof fn edge_in_prefix(rows: Seq<Map<Text, TermView>>, n: int, e: (Text, Text))
    requires
        0 <= n <= rows.len(),
        edges_of(rows.take(n)).contains(e),
    ensures
        edges_of(rows).contains(e),
    decreases rows.len() - n,
{
    if n < rows.len() {
        let es = edges_of(rows.take(n));
        let fs = edges_of(rows.take(n + 1));
        assert(rows.take(n + 1).drop_last() =~= rows.take(n));
        let k = choose|k: int| 0 <= k < es.len() && es[k] == e;
        assert(fs[k] == e);
        edge_in_prefix(rows, n + 1, e);
    } else {
        assert(rows.take(n) =~= rows);
    }
}

/// Evaluates a recursive path: the solutions of its pairs, in order.
#[verifier::rlimit(60)]
pub fn eval_path_closure(
    subject: &Term,
    object: &Term,
    edge_rows: &Vec<Bindings>,
    reflexive: bool,
) -> (r: Vec<Bindings>)
    ensures
        path_solutions(
            subject@,
            object@,
            bindings_view(edge_rows@),
            reflexive,
            bindings_view(r@),
        ),
{
    let ghost rv = bindings_view(edge_rows@);
    let ghost edges = edges_of(rv);
    let ghost terms = path_terms(subject@, object@, rv, reflexive);
    let nodes = collect_nodes(subject, object, edge_rows, reflexive);
    proof {
        if reflexive {
            assert(terms =~= edge_terms(rv) + (ground_end(subject@) + ground_end(object@)));
        } else {
            assert(terms =~= edge_terms(rv) + Seq::<TermView>::empty());
        }
    }
    let adj = collect_edges(&nodes, edge_rows, Ghost(terms));
    let n: usize = nodes.keys.len();
    let ghost ks = nodes.keys@;
    let mut out: Vec<Bindings> = Vec::new();
    let ghost mut ps: Seq<(Text, Text)> = Seq::empty();
    assert(bindings_view(out@) =~= pair_solutions(subject@, object@, terms, ps));
    let mut a: usize = 0;
    while a < n
        invariant
            a <= n,
            n == ks.len(),
            ks == nodes.keys@,
            nodes.holds(terms),
            adjacent(adj@, ks, edges),
            ends_known(ks, edges),
            pairs_sorted(ps),
            bindings_view(out@) == pair_solutions(subject@, object@, terms, ps),
            forall|k: int|
                0 <= k < ps.len() ==> exists|i: int|
                    0 <= i < a && (#[trigger] ps[k]).0 == (#[trigger] ks[i])@,
            forall|k: int|
                0 <= k < ps.len() ==> in_path(edges, terms, reflexive, #[trigger] ps[k]),
            forall|i: int, j: int|
                #![trigger ks[i]@, ks[j]@]
                0 <= i < a && 0 <= j < n && in_path(edges, terms, reflexive, (ks[i]@, ks[j]@))
                    ==> ps.contains((ks[i]@, ks[j]@)),
        decreases n - a,
    {
        let reach = reach_from(&adj, a, Ghost(ks), Ghost(edges));
        let ghost ps0 = ps;
        let mut b: usize = 0;
        while b < n
            invariant
                a < n,
                b <= n,
                n == ks.len(),
                ks == nodes.keys@,
                nodes.holds(terms),
                reach@.len() == n,
                forall|x: int|
                    0 <= x < n ==> (#[trigger] reach@[x] <==> reachable(
                        edges,
                        ks[a as int]@,
                        ks[x]@,
                    )),
                pairs_sorted(ps),
                bindings_view(out@) == pair_solutions(subject@, object@, terms, ps),
                ps0.len() <= ps.len(),
                forall|k: int| 0 <= k < ps0.len() ==> #[trigger] ps[k] == ps0[k],
                forall|k: int|
                    0 <= k < ps0.len() ==> exists|i: int|
                        0 <= i < a && (#[trigger] ps0[k]).0 == (#[trigger] ks[i])@,
                forall|k: int|
                    ps0.len() <= k < ps.len() ==> exists|j: int|
                        0 <= j < b && #[trigger] ps[k] == (ks[a as int]@, (#[trigger] ks[j])@),
                forall|k: int|
                    0 <= k < ps.len() ==> in_path(edges, terms, reflexive, #[trigger] ps[k]),
                forall|i: int, j: int|
                    #![trigger ks[i]@, ks[j]@]
                    0 <= i < a && 0 <= j < n && in_path(
                        edges,
                        terms,
                        reflexive,
                        (ks[i]@, ks[j]@),
                    ) ==> ps.contains((ks[i]@, ks[j]@)),
                forall|j: int|
                    0 <= j < b && in_path(
                        edges,
                        terms,
                        reflexive,
                        (ks[a as int]@, (#[trigger] ks[j])@),
                    ) ==> ps.contains((ks[a as int]@, ks[j]@)),
            decreases n - b,
        {
            let ghost p = (ks[a as int]@, ks[b as int]@);
            proof {
                assert(has_lex(terms, ks[a as int]@));
                if ks[a as int]@ == ks[b as int]@ {
                    keys_distinct(ks, a as int, b as int);
                }
                assert(in_path(edges, terms, reflexive, p) <==> reach@[b as int] || (reflexive && a
                    == b));
            }
            if reach[b] || (reflexive && a == b) {
                let ghost ps1 = ps;
                let ghost out1 = bindings_view(out@);
                proof {
                    ps = ps.push(p);
                    assert(ps.drop_last() =~= ps1);
                    assert(pairs_sorted(ps)) by {
                        assert forall|i: int, j: int| 0 <= i < j < ps.len() implies pair_before(
                            #[trigger] ps[i],
                            #[trigger] ps[j],
                        ) by {
                            assert(ps[i] == ps1[i]);
                            if j < ps1.len() {
                                assert(ps[j] == ps1[j]);
                            } else if i < ps0.len() {
                                assert(ps1[i] == ps0[i]);
                                let q = choose|q: int|
                                    0 <= q < a && ps0[i].0 == (#[trigger] ks[q])@;
                                assert(text_order(ks[q]@, ks[a as int]@) == Order::Less);
                            } else {
                                let q = choose|q: int|
                                    0 <= q < b && ps1[i] == (ks[a as int]@, (#[trigger] ks[q])@);
                                assert(text_order(ks[q]@, ks[b as int]@) == Order::Less);
                            }
                        }
                    }
                    assert forall|q: (Text, Text)| ps1.contains(q) implies #[trigger] ps.contains(
                        q,
                    ) by {
                        let k = choose|k: int| 0 <= k < ps1.len() && ps1[k] == q;
                        assert(ps[k] == q);
                    }
                    assert(ps.contains(p)) by {
                        assert(ps[ps1.len() as int] == p);
                    }
                }
                let mut m = Bindings::new();
                if bind_endpoint(subject, &nodes.terms[a], &mut m) && bind_endpoint(
                    object,
                    &nodes.terms[b],
                    &mut m,
                ) {
                    let ghost mv = m@;
                    out.push(m);
                    assert(bindings_view(out@) =~= out1.push(mv));
                }
                assert(bindings_view(out@) == pair_solutions(subject@, object@, terms, ps));
                assert forall|k: int| ps0.len() <= k < ps.len() implies exists|j: int|
                    0 <= j < b + 1 && #[trigger] ps[k] == (ks[a as int]@, (#[trigger] ks[j])@) by {
                    if k < ps1.len() {
                        assert(ps[k] == ps1[k]);
                        let j = choose|j: int|
                            0 <= j < b && ps1[k] == (ks[a as int]@, (#[trigger] ks[j])@);
                        assert(ps[k] == (ks[a as int]@, ks[j]@));
                    } else {
                        assert(ps[k] == (ks[a as int]@, ks[b as int]@));
                    }
                }
            }
            b = b + 1;
        }
        proof {
            assert forall|k: int| 0 <= k < ps.len() implies exists|i: int|
                0 <= i < a + 1 && (#[trigger] ps[k]).0 == (#[trigger] ks[i])@ by {
                if k < ps0.len() {
                    assert(ps[k] == ps0[k]);
                    let i = choose|i: int| 0 <= i < a && ps0[k].0 == (#[trigger] ks[i])@;
                    assert(ps[k].0 == ks[i]@);
                } else {
                    assert(ps[k].0 == ks[a as int]@);
                }
            }
        }
        a = a + 1;
    }
    proof {
        assert forall|p: (Text, Text)| #[trigger] ps.contains(p) <==> in_path(
            edges,
            terms,
            reflexive,
            p,
        ) by {
            if ps.contains(p) {
                let k = choose|k: int| 0 <= k < ps.len() && ps[k] == p;
                assert(in_path(edges, terms, reflexive, ps[k]));
            }
            if in_path(edges, terms, reflexive, p) {
                if reachable(edges, p.0, p.1) {
                    reachable_ends(edges, p.0, p.1);
                    let x = choose|x: Text| edges.contains((p.0, x));
                    let y = choose|y: Text| edges.contains((y, p.1));
                    assert(known(ks, p.0) && known(ks, p.1));
                    let i = choose|i: int| 0 <= i < ks.len() && (#[trigger] ks[i])@ == p.0;
                    let j = choose|j: int| 0 <= j < ks.len() && (#[trigger] ks[j])@ == p.1;
                    assert(p == (ks[i]@, ks[j]@));
                } else {
                    let i = choose|i: int| 0 <= i < ks.len() && (#[trigger] ks[i])@ == p.0;
                    assert(p == (ks[i]@, ks[i]@));
                }
            }
        }
    }
    out
}

}
