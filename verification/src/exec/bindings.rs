//! Solution mappings: variables bound to terms.

use crate::algebra::{opt_term_view, Term, TermView};
use crate::collections::Table;
use crate::text::Text;
use vstd::prelude::*;

verus! {

/// A solution mapping.
#[derive(Debug)]
pub struct Bindings {
    pub terms: Table<Term>,
}

impl Bindings {
    pub open spec fn view(&self) -> Map<Text, TermView> {
        self.terms@.map_values(|t: Term| t@)
    }

    pub fn new() -> (r: Bindings)
        ensures
            r@ == Map::<Text, TermView>::empty(),
    {
        let r = Bindings { terms: Table::new() };
        assert(r@ =~= Map::<Text, TermView>::empty());
        r
    }

    /// Binds a variable, whatever it was bound to.
    pub fn set(&mut self, name: String, term: Term)
        ensures
            final(self)@ == old(self)@.insert(name@, term@),
    {
        let ghost before = self@;
        let ghost tv = term@;
        self.terms.insert(name.as_str(), term);
        assert(self@ =~= before.insert(name@, tv));
    }

    pub fn get(&self, name: &str) -> (r: Option<&Term>)
        ensures
            match r {
                Some(t) => self@.contains_key(name@) && t@ == self@[name@],
                None => !self@.contains_key(name@),
            },
    {
        self.terms.get(name)
    }

    /// The bound variables, with their terms.
    pub fn vars(&self) -> (r: Vec<(&String, &Term)>)
        ensures
            forall|k: Text| #[trigger] self@.contains_key(k) ==> exists|i: int|
                0 <= i < r@.len() && (#[trigger] r@[i]).0@ == k,
            forall|i: int|
                0 <= i < r@.len() ==> self@.contains_key((#[trigger] r@[i]).0@) && r@[i].1@
                    == self@[r@[i].0@],
    {
        let mut out: Vec<(&String, &Term)> = Vec::new();
        let mut i: usize = 0;
        let n: usize = self.terms.len();
        while i < n
            invariant
                n == self.terms.keys().len(),
                i == out@.len(),
                i <= self.terms.keys().len(),
                forall|j: int|
                    0 <= j < i ==> (#[trigger] out@[j]).0@ == self.terms.keys()[j],
                forall|j: int|
                    0 <= j < i ==> self@.contains_key((#[trigger] out@[j]).0@) && out@[j].1@
                        == self@[out@[j].0@],
            decreases self.terms.keys().len() - i,
        {
            out.push((self.terms.key(i), self.terms.value(i)));
            i = i + 1;
        }
        assert forall|k: Text| #[trigger] self@.contains_key(k) implies exists|i: int|
            0 <= i < out@.len() && (#[trigger] out@[i]).0@ == k by {
            assert(self.terms@.contains_key(k));
            assert(self.terms.keys().contains(k));
            let j = choose|j: int| 0 <= j < self.terms.keys().len() && self.terms.keys()[j] == k;
            assert(out@[j].0@ == k);
        }
        out
    }
}

impl Bindings {
    /// Does `other` bind every variable that this mapping binds, alike?
    fn within(&self, other: &Bindings) -> (r: bool)
        ensures
            r == (forall|k: Text| #[trigger]
                self@.contains_key(k) ==> other@.contains_key(k) && other@[k] == self@[k]),
    {
        let all = self.vars();
        let mut i: usize = 0;
        while i < all.len()
            invariant
                i <= all@.len(),
                forall|k: Text| #[trigger] self@.contains_key(k) ==> exists|i: int|
                    0 <= i < all@.len() && (#[trigger] all@[i]).0@ == k,
                forall|i: int|
                    0 <= i < all@.len() ==> self@.contains_key((#[trigger] all@[i]).0@)
                        && all@[i].1@ == self@[all@[i].0@],
                forall|j: int|
                    0 <= j < i ==> other@.contains_key((#[trigger] all@[j]).0@)
                        && other@[all@[j].0@] == self@[all@[j].0@],
            decreases all@.len() - i,
        {
            let alike = match other.get(all[i].0.as_str()) {
                Some(t) => t.same(all[i].1),
                None => false,
            };
            if !alike {
                assert(self@.contains_key(all@[i as int].0@));
                return false;
            }
            i = i + 1;
        }
        true
    }

    /// Are the two mappings the same?
    pub fn same(&self, other: &Bindings) -> (r: bool)
        ensures
            r == (self@ == other@),
    {
        let r = self.within(other) && other.within(self);
        assert(r ==> self@ =~= other@);
        r
    }
}

impl Clone for Bindings {
    fn clone(&self) -> (r: Bindings)
        ensures
            r@ == self@,
    {
        let mut out = Bindings::new();
        let all = self.vars();
        let mut i: usize = 0;
        while i < all.len()
            invariant
                i <= all@.len(),
                forall|k: Text| #[trigger] self@.contains_key(k) ==> exists|i: int|
                    0 <= i < all@.len() && (#[trigger] all@[i]).0@ == k,
                forall|i: int|
                    0 <= i < all@.len() ==> self@.contains_key((#[trigger] all@[i]).0@)
                        && all@[i].1@ == self@[all@[i].0@],
                forall|k: Text| #[trigger]
                    out@.contains_key(k) ==> self@.contains_key(k) && out@[k] == self@[k],
                forall|j: int| 0 <= j < i ==> out@.contains_key((#[trigger] all@[j]).0@),
            decreases all@.len() - i,
        {
            out.set(all[i].0.clone(), all[i].1.clone());
            i = i + 1;
        }
        assert(out@ =~= self@);
        out
    }
}

/// The views of a sequence of solution mappings.
pub open spec fn bindings_view(s: Seq<Bindings>) -> Seq<Map<Text, TermView>> {
    Seq::new(s.len(), |i: int| s[i]@)
}

/// The term a variable is bound to.
pub open spec fn bound_to(b: Map<Text, TermView>, v: Text) -> Option<TermView> {
    if b.contains_key(v) {
        Some(b[v])
    } else {
        None
    }
}

/// A copy of the term a variable is bound to.
pub fn lookup(b: &Bindings, v: &str) -> (r: Option<Term>)
    ensures
        opt_term_view(r) == bound_to(b@, v@),
{
    match b.get(v) {
        Some(t) => Some(t.clone()),
        None => None,
    }
}

}
