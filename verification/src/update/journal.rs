//! The undo log of a request.
//!
//! For every quad an operation is about to touch it keeps one fact: was the
//! quad there before the request first touched it? Undoing puts back exactly
//! that, so the order of the operations does not matter.

use crate::collections::to_set_push;
use crate::error::SparqlError;
use crate::exec::store::{
    clone_graph, clone_quad, graph_part, graph_view, in_graph, quad_set, quad_view, quads_view,
    same_quad, AlgebraQuad, GraphName, QuadView, Store,
};
use vstd::prelude::*;

verus! {

/// An undo log. A request of a single operation that is one batch needs none.
pub struct Journal {
    enabled: bool,
    /// Quads touched, each once, with whether it was there.
    before: Vec<(AlgebraQuad, bool)>,
}

impl Journal {
    pub closed spec fn keeps(&self) -> bool {
        self.enabled
    }

    /// Is the quad in the log?
    pub closed spec fn notes(&self, q: QuadView) -> bool {
        exists|i: int| 0 <= i < self.before@.len() && quad_view((#[trigger] self.before@[i]).0) == q
    }

    /// Does the log say of every quad it holds whether it was in `start`?
    pub closed spec fn truthful(&self, start: Set<QuadView>) -> bool {
        forall|i: int|
            0 <= i < self.before@.len() ==> (#[trigger] self.before@[i]).1 == start.contains(
                quad_view(self.before@[i].0),
            )
    }

    /// Can the log lead from `now` back to `start`: does it hold every quad on
    /// which the two differ, and tell the truth about `start`?
    pub open spec fn tracks(&self, start: Set<QuadView>, now: Set<QuadView>) -> bool {
        self.keeps() ==> self.truthful(start) && forall|q: QuadView| #[trigger]
            start.contains(q) != now.contains(q) ==> self.notes(q)
    }

    pub fn new(enabled: bool) -> (r: Journal)
        ensures
            r.keeps() == enabled,
            forall|q: QuadView| !#[trigger] r.notes(q),
            forall|s: Set<QuadView>| #[trigger] r.tracks(s, s),
    {
        Journal { enabled, before: Vec::new() }
    }

    /// Is the quad in the log?
    fn has(&self, q: &AlgebraQuad) -> (r: bool)
        ensures
            r == self.notes(quad_view(*q)),
    {
        let mut i: usize = 0;
        while i < self.before.len()
            invariant
                i <= self.before@.len(),
                forall|j: int|
                    0 <= j < i ==> quad_view((#[trigger] self.before@[j]).0) != quad_view(*q),
            decreases self.before@.len() - i,
        {
            if same_quad(&self.before[i].0, q) {
                return true;
            }
            i = i + 1;
        }
        false
    }

    /// Adds a fact about a quad, unless there is one.
    fn note(&mut self, q: AlgebraQuad, live: bool)
        ensures
            final(self).keeps() == old(self).keeps(),
            final(self).notes(quad_view(q)),
            forall|p: QuadView| #[trigger] old(self).notes(p) ==> final(self).notes(p),
            forall|p: QuadView| #[trigger]
                final(self).notes(p) ==> old(self).notes(p) || p == quad_view(q),
            forall|start: Set<QuadView>| #[trigger]
                old(self).truthful(start) && (!old(self).notes(quad_view(q)) ==> live
                    == start.contains(quad_view(q))) ==> final(self).truthful(start),
    {
        if !self.has(&q) {
            let ghost qv = quad_view(q);
            self.before.push((q, live));
            proof {
                let n = old(self).before@.len() as int;
                assert(quad_view(self.before@[n].0) == qv);
                assert forall|p: QuadView| #[trigger] old(self).notes(p) implies self.notes(p) by {
                    let i = choose|i: int|
                        0 <= i < old(self).before@.len() && quad_view(
                            (#[trigger] old(self).before@[i]).0,
                        ) == p;
                    assert(self.before@[i] == old(self).before@[i]);
                }
                assert forall|p: QuadView| #[trigger] self.notes(p) implies old(self).notes(p) || p
                    == qv by {
                    let i = choose|i: int|
                        0 <= i < self.before@.len() && quad_view((#[trigger] self.before@[i]).0)
                            == p;
                    if i < n {
                        assert(self.before@[i] == old(self).before@[i]);
                    }
                }
                assert forall|start: Set<QuadView>| #[trigger]
                    old(self).truthful(start) && (!old(self).notes(qv) ==> live == start.contains(
                        qv,
                    )) implies self.truthful(start) by {
                    assert forall|i: int| 0 <= i < self.before@.len() implies (
                    #[trigger] self.before@[i]).1 == start.contains(quad_view(self.before@[i].0)) by {
                        if i < n {
                            assert(self.before@[i] == old(self).before@[i]);
                        }
                    }
                }
            }
        }
    }

    /// Notes whether each of the quads is in the store now. A quad noted
    /// before keeps its first note.
    pub fn record<B: Store>(&mut self, store: &B, quads: &Vec<AlgebraQuad>)
        ensures
            final(self).keeps() == old(self).keeps(),
            !old(self).keeps() ==> *final(self) == *old(self),
            forall|start: Set<QuadView>| #[trigger]
                old(self).tracks(start, store.quads()) ==> final(self).tracks(
                    start,
                    store.quads(),
                ),
            forall|q: QuadView| #[trigger] old(self).notes(q) ==> final(self).notes(q),
            forall|q: QuadView| #[trigger]
                final(self).notes(q) ==> old(self).notes(q) || quad_set(quads@).contains(q),
            old(self).keeps() ==> forall|q: QuadView| #[trigger]
                quad_set(quads@).contains(q) ==> final(self).notes(q),
    {
        if !self.enabled {
            return;
        }
        let ghost now = store.quads();
        let mut i: usize = 0;
        while i < quads.len()
            invariant
                i <= quads@.len(),
                now == store.quads(),
                self.keeps(),
                old(self).keeps(),
                forall|start: Set<QuadView>| #[trigger]
                    old(self).tracks(start, now) ==> self.tracks(start, now),
                forall|q: QuadView| #[trigger] old(self).notes(q) ==> self.notes(q),
                forall|q: QuadView| #[trigger]
                    self.notes(q) ==> old(self).notes(q) || quad_set(quads@).contains(q),
                forall|j: int| 0 <= j < i ==> self.notes(quad_view(#[trigger] quads@[j])),
            decreases quads@.len() - i,
        {
            let live = store.quad_exists(&quads[i]);
            let ghost mid = *self;
            let ghost qv = quad_view(quads@[i as int]);
            proof {
                assert(quads_view(quads@)[i as int] == qv);
                assert(quad_set(quads@).contains(qv));
            }
            self.note(clone_quad(&quads[i]), live);
            proof {
                assert forall|start: Set<QuadView>| #[trigger]
                    old(self).tracks(start, now) implies self.tracks(start, now) by {
                    assert(mid.tracks(start, now));
                    if !mid.notes(qv) {
                        assert(start.contains(qv) == now.contains(qv));
                    }
                    assert(mid.truthful(start));
                    assert forall|q: QuadView| #[trigger]
                        start.contains(q) != now.contains(q) implies self.notes(q) by {
                        assert(mid.notes(q));
                    }
                }
            }
            i = i + 1;
        }
        proof {
            assert forall|q: QuadView| #[trigger] quad_set(quads@).contains(q) implies self.notes(
                q,
            ) by {
                let j = choose|j: int| 0 <= j < quads_view(quads@).len() && quads_view(quads@)[j] == q;
                assert(quad_view(quads@[j]) == q);
            }
        }
    }

    /// Notes every quad of a graph that is about to be cleared.
    pub fn record_cleared<B: Store>(&mut self, store: &B, graph: &GraphName) -> (r: Result<
        (),
        SparqlError,
    >)
        ensures
            final(self).keeps() == old(self).keeps(),
            !old(self).keeps() ==> *final(self) == *old(self),
            forall|start: Set<QuadView>| #[trigger]
                old(self).tracks(start, store.quads()) ==> final(self).tracks(
                    start,
                    store.quads(),
                ),
            forall|q: QuadView| #[trigger] old(self).notes(q) ==> final(self).notes(q),
            forall|q: QuadView| #[trigger]
                final(self).notes(q) ==> old(self).notes(q) || q.graph == graph_view(*graph),
            old(self).keeps() && r is Ok ==> forall|q: QuadView| #[trigger]
                graph_part(store.quads(), graph_view(*graph)).contains(q) ==> final(self).notes(q),
            store.steady() ==> r is Ok,
    {
        if !self.enabled {
            return Ok(());
        }
        let triples = match store.scan_graph_quads(graph) {
            Ok(t) => t,
            Err(e) => return Err(e),
        };
        let ghost now = store.quads();
        let ghost gv = graph_view(*graph);
        let ghost all = Seq::new(triples@.len(), |i: int| in_graph(gv, triples@[i]));
        let mut i: usize = 0;
        while i < triples.len()
            invariant
                i <= triples@.len(),
                now == store.quads(),
                gv == graph_view(*graph),
                all == Seq::new(triples@.len(), |i: int| in_graph(gv, triples@[i])),
                all.to_set() == graph_part(now, gv),
                self.keeps(),
                old(self).keeps(),
                forall|start: Set<QuadView>| #[trigger]
                    old(self).tracks(start, now) ==> self.tracks(start, now),
                forall|q: QuadView| #[trigger] old(self).notes(q) ==> self.notes(q),
                forall|q: QuadView| #[trigger]
                    self.notes(q) ==> old(self).notes(q) || q.graph == gv,
                forall|j: int| 0 <= j < i ==> self.notes(#[trigger] all[j]),
            decreases triples@.len() - i,
        {
            let q: AlgebraQuad = (
                clone_graph(graph),
                triples[i].0.clone(),
                triples[i].1.clone(),
                triples[i].2.clone(),
            );
            let ghost mid = *self;
            let ghost qv = quad_view(q);
            proof {
                assert(qv == all[i as int]);
                assert(all.to_set().contains(qv));
                assert(now.contains(qv));
            }
            self.note(q, true);
            proof {
                assert forall|start: Set<QuadView>| #[trigger]
                    old(self).tracks(start, now) implies self.tracks(start, now) by {
                    assert(mid.tracks(start, now));
                    if !mid.notes(qv) {
                        assert(start.contains(qv) == now.contains(qv));
                    }
                    assert(mid.truthful(start));
                    assert forall|q: QuadView| #[trigger]
                        start.contains(q) != now.contains(q) implies self.notes(q) by {
                        assert(mid.notes(q));
                    }
                }
            }
            i = i + 1;
        }
        proof {
            assert forall|q: QuadView| #[trigger]
                graph_part(store.quads(), gv).contains(q) implies self.notes(q) by {
                assert(all.to_set().contains(q));
                let j = choose|j: int| 0 <= j < all.len() && all[j] == q;
                assert(self.notes(all[j]));
            }
        }
        Ok(())
    }

    /// Puts every noted quad back as it was, in one batch. Nothing is reported:
    /// the caller already has the error that made it undo.
    pub fn rollback<B: Store>(self, store: &mut B)
        ensures
            final(store).steady() == old(store).steady(),
            final(store).lasting() == old(store).lasting(),
            forall|start: Set<QuadView>| #[trigger]
                self.tracks(start, old(store).quads()) && self.keeps() && (old(store).steady() || old(
                    store,
                ).lasting()) ==> final(store).quads() == start,
            forall|q: QuadView|
                !self.notes(q) ==> (#[trigger] final(store).quads().contains(q) == old(
                    store,
                ).quads().contains(q)),
    {
        let ghost me = self;
        let ghost now = store.quads();
        let ghost log = self.before@;
        let mut dels: Vec<AlgebraQuad> = Vec::new();
        let mut adds: Vec<AlgebraQuad> = Vec::new();
        assert(quad_set(dels@) =~= Set::empty());
        assert(quad_set(adds@) =~= Set::empty());
        for e in it: self.before
            invariant
                log == it.seq(),
                forall|q: QuadView| #[trigger]
                    quad_set(dels@).contains(q) ==> exists|i: int|
                        0 <= i < it.index() && quad_view((#[trigger] log[i]).0) == q && !log[i].1,
                forall|q: QuadView| #[trigger]
                    quad_set(adds@).contains(q) ==> exists|i: int|
                        0 <= i < it.index() && quad_view((#[trigger] log[i]).0) == q && log[i].1,
                forall|i: int|
                    0 <= i < it.index() ==> if (#[trigger] log[i]).1 {
                        quad_set(adds@).contains(quad_view(log[i].0))
                    } else {
                        quad_set(dels@).contains(quad_view(log[i].0))
                    },
        {
            let ghost k = it.index() as int;
            let (q, live) = e;
            let ghost qv = quad_view(q);
            assert(log[k] == e);
            if live {
                let ghost prev = adds@;
                adds.push(q);
                proof {
                    assert(quads_view(adds@) =~= quads_view(prev).push(qv));
                    to_set_push(quads_view(prev), qv);
                    assert forall|q: QuadView| #[trigger]
                        quad_set(adds@).contains(q) implies exists|i: int|
                        0 <= i < k + 1 && quad_view((#[trigger] log[i]).0) == q && log[i].1 by {
                        if q == qv {
                            assert(quad_view(log[k].0) == q);
                        } else {
                            assert(quad_set(prev).contains(q));
                        }
                    }
                }
            } else {
                let ghost prev = dels@;
                dels.push(q);
                proof {
                    assert(quads_view(dels@) =~= quads_view(prev).push(qv));
                    to_set_push(quads_view(prev), qv);
                    assert forall|q: QuadView| #[trigger]
                        quad_set(dels@).contains(q) implies exists|i: int|
                        0 <= i < k + 1 && quad_view((#[trigger] log[i]).0) == q && !log[i].1 by {
                        if q == qv {
                            assert(quad_view(log[k].0) == q);
                        } else {
                            assert(quad_set(prev).contains(q));
                        }
                    }
                }
            }
        }
        let ghost dset = quad_set(dels@);
        let ghost aset = quad_set(adds@);
        let _ = store.apply_quads(dels, adds);
        proof {
            assert forall|q: QuadView| !me.notes(q) implies (#[trigger] store.quads().contains(q)
                == now.contains(q)) by {
                assert(!dset.contains(q));
                assert(!aset.contains(q));
            }
            assert forall|start: Set<QuadView>| #[trigger]
                me.tracks(start, now) && me.keeps() && (old(store).steady() || old(
                    store,
                ).lasting()) implies store.quads() == start by {
                assert forall|q: QuadView| store.quads().contains(q) <==> start.contains(q) by {
                    if me.notes(q) {
                        let i = choose|i: int|
                            0 <= i < log.len() && quad_view((#[trigger] log[i]).0) == q;
                        assert(log[i].1 == start.contains(q));
                        if aset.contains(q) {
                            let j = choose|j: int|
                                0 <= j < log.len() && quad_view((#[trigger] log[j]).0) == q
                                    && log[j].1;
                            assert(start.contains(q));
                        }
                        if dset.contains(q) {
                            let j = choose|j: int|
                                0 <= j < log.len() && quad_view((#[trigger] log[j]).0) == q
                                    && !log[j].1;
                            assert(!start.contains(q));
                        }
                    } else {
                        assert(store.quads().contains(q) == now.contains(q));
                        if start.contains(q) != now.contains(q) {
                            assert(me.notes(q));
                        }
                    }
                }
                assert(store.quads() =~= start);
            }
        }
    }
}

}
