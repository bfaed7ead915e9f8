//! Ordered collections keyed by text: a set of names and a table from names
//! to values. Both keep their entries in a vector, so walking them is
//! deterministic, and no key occurs twice.

use crate::algebra::{names, texts, Var};
use crate::text::{same_text, Text};
use vstd::prelude::*;

verus! {

/// Appending to a sequence inserts into the set of its elements.
pub proof fn to_set_push<A>(s: Seq<A>, a: A)
    ensures
        s.push(a).to_set() == s.to_set().insert(a),
{
    let p = s.push(a);
    assert forall|x: A| p.to_set().contains(x) <==> s.to_set().insert(a).contains(x) by {
        if p.to_set().contains(x) {
            let i = choose|i: int| 0 <= i < p.len() && p[i] == x;
            if i < s.len() {
                assert(s[i] == x);
            }
        }
        if s.to_set().insert(a).contains(x) {
            if x == a {
                assert(p[s.len() as int] == x);
            } else {
                let i = choose|i: int| 0 <= i < s.len() && s[i] == x;
                assert(p[i] == x);
            }
        }
    }
    assert(p.to_set() =~= s.to_set().insert(a));
}

/// Appending a new element keeps a sequence free of duplicates.
pub proof fn no_duplicates_push<A>(s: Seq<A>, a: A)
    requires
        s.no_duplicates(),
        !s.to_set().contains(a),
    ensures
        s.push(a).no_duplicates(),
{
    let p = s.push(a);
    assert forall|i: int, j: int| 0 <= i < p.len() && 0 <= j < p.len() && i != j implies p[i]
        != p[j] by {
        if i == s.len() {
            assert(s.to_set().contains(s[j]));
        } else if j == s.len() {
            assert(s.to_set().contains(s[i]));
        }
    }
}

/// A set of names.
#[derive(Debug)]
pub struct NameSet {
    items: Vec<String>,
}

impl NameSet {
    #[verifier::type_invariant]
    spec fn inv(self) -> bool {
        texts(self.items@).no_duplicates()
    }

    /// The members, in insertion order.
    pub closed spec fn order(&self) -> Seq<Text> {
        texts(self.items@)
    }

    pub open spec fn view(&self) -> Set<Text> {
        self.order().to_set()
    }

    pub fn new() -> (r: NameSet)
        ensures
            r@ == Set::<Text>::empty(),
    {
        let r = NameSet { items: Vec::new() };
        assert(r@ =~= Set::<Text>::empty());
        r
    }

    pub fn len(&self) -> (r: usize)
        ensures
            r == self.order().len(),
            self.order().no_duplicates(),
    {
        proof {
            use_type_invariant(self);
        }
        self.items.len()
    }

    /// The `i`-th member in insertion order.
    pub fn item(&self, i: usize) -> (r: &String)
        requires
            i < self.order().len(),
        ensures
            r@ == self.order()[i as int],
            self@.contains(r@),
    {
        proof {
            assert(self.order()[i as int] == self.items@[i as int]@);
            assert(self.order().contains(self.order()[i as int]));
        }
        &self.items[i]
    }

    pub fn contains(&self, name: &str) -> (r: bool)
        ensures
            r == self@.contains(name@),
    {
        let mut i: usize = 0;
        while i < self.items.len()
            invariant
                i <= self.items@.len(),
                forall|j: int| 0 <= j < i ==> (#[trigger] self.items@[j])@ != name@,
            decreases self.items@.len() - i,
        {
            if same_text(self.items[i].as_str(), name) {
                proof {
                    assert(self.order()[i as int] == name@);
                    assert(self.order().contains(name@));
                }
                return true;
            }
            i = i + 1;
        }
        proof {
            assert forall|k: int| 0 <= k < self.order().len() implies self.order()[k] != name@ by {
                assert(self.order()[k] == self.items@[k]@);
            }
        }
        false
    }

    pub fn insert(&mut self, name: &str)
        ensures
            final(self)@ == old(self)@.insert(name@),
    {
        proof {
            use_type_invariant(&*self);
        }
        if !self.contains(name) {
            let mut items: Vec<String> = Vec::new();
            let ghost before = self.order();
            std::mem::swap(&mut items, &mut self.items);
            items.push(name.to_owned());
            proof {
                assert(texts(items@) =~= before.push(name@));
                no_duplicates_push(before, name@);
            }
            self.items = items;
            proof {
                to_set_push(before, name@);
                assert(self@ =~= before.to_set().insert(name@));
            }
        } else {
            assert(self@ =~= self@.insert(name@));
        }
    }

    pub fn remove(&mut self, name: &str)
        ensures
            final(self)@ == old(self)@.remove(name@),
    {
        proof {
            use_type_invariant(&*self);
        }
        let ghost all = texts(self.items@);
        let mut kept: Vec<String> = Vec::new();
        let mut i: usize = 0;
        proof {
            assert(texts(kept@).to_set() =~= all.take(0).to_set().remove(name@));
        }
        while i < self.items.len()
            invariant
                i <= self.items@.len(),
                *self == *old(self),
                all == texts(self.items@),
                all.no_duplicates(),
                texts(kept@).no_duplicates(),
                texts(kept@).to_set() == all.take(i as int).to_set().remove(name@),
            decreases self.items@.len() - i,
        {
            let ghost head = all.take(i as int);
            let ghost now = self.items@[i as int]@;
            let ghost before = texts(kept@);
            proof {
                assert(all.take(i + 1) =~= head.push(now));
                to_set_push(head, now);
                assert(!head.to_set().contains(now)) by {
                    if head.to_set().contains(now) {
                        let k = choose|k: int| 0 <= k < head.len() && head[k] == now;
                        assert(all[k] == all[i as int]);
                    }
                }
            }
            if !same_text(self.items[i].as_str(), name) {
                kept.push(self.items[i].clone());
                proof {
                    assert(texts(kept@) =~= before.push(now));
                    to_set_push(before, now);
                    no_duplicates_push(before, now);
                    assert(texts(kept@).to_set() =~= all.take(i + 1).to_set().remove(name@));
                }
            } else {
                assert(texts(kept@).to_set() =~= all.take(i + 1).to_set().remove(name@));
            }
            i = i + 1;
        }
        assert(all.take(all.len() as int) =~= all);
        self.items = kept;
    }

    /// Adds every member of `other`.
    pub fn insert_all(&mut self, other: &NameSet)
        ensures
            final(self)@ == old(self)@.union(other@),
    {
        let n: usize = other.len();
        let mut i: usize = 0;
        proof {
            assert(self@ =~= old(self)@.union(other.order().take(0).to_set()));
        }
        while i < n
            invariant
                i <= n,
                n == other.order().len(),
                self@ == old(self)@.union(other.order().take(i as int).to_set()),
            decreases n - i,
        {
            let item = other.item(i);
            self.insert(item.as_str());
            proof {
                let t = other.order().take(i as int);
                assert(other.order().take(i + 1) =~= t.push(item@));
                to_set_push(t, item@);
                assert(self@ =~= old(self)@.union(other.order().take(i + 1).to_set()));
            }
            i = i + 1;
        }
        assert(other.order().take(n as int) =~= other.order());
    }

    /// The set of the variables' names.
    pub fn of_vars(vars: &Vec<Var>) -> (r: NameSet)
        ensures
            r@ == names(vars@).to_set(),
    {
        let mut out = NameSet::new();
        let mut i: usize = 0;
        proof {
            assert(out@ =~= names(vars@).take(0).to_set());
        }
        while i < vars.len()
            invariant
                i <= vars@.len(),
                out@ == names(vars@).take(i as int).to_set(),
            decreases vars@.len() - i,
        {
            out.insert(vars[i].name());
            proof {
                let t = names(vars@).take(i as int);
                assert(names(vars@).take(i + 1) =~= t.push(vars@[i as int]@));
                to_set_push(t, vars@[i as int]@);
            }
            i = i + 1;
        }
        assert(names(vars@).take(vars@.len() as int) =~= names(vars@));
        out
    }

    /// Is every member also a member of `other`?
    pub fn subset_of(&self, other: &NameSet) -> (r: bool)
        ensures
            r == self@.subset_of(other@),
    {
        let n: usize = self.len();
        let mut i: usize = 0;
        while i < n
            invariant
                i <= n,
                n == self.order().len(),
                forall|j: int| 0 <= j < i ==> other@.contains(#[trigger] self.order()[j]),
            decreases n - i,
        {
            let item = self.item(i);
            if !other.contains(item.as_str()) {
                return false;
            }
            i = i + 1;
        }
        assert forall|x: Text| self@.contains(x) implies other@.contains(x) by {
            let j = choose|j: int| 0 <= j < self.order().len() && self.order()[j] == x;
        }
        true
    }
}

impl Clone for NameSet {
    fn clone(&self) -> (r: NameSet)
        ensures
            r@ == self@,
            r.order() == self.order(),
    {
        proof {
            use_type_invariant(self);
        }
        let mut items: Vec<String> = Vec::new();
        let mut i: usize = 0;
        while i < self.items.len()
            invariant
                i <= self.items@.len(),
                items@ == self.items@.take(i as int),
            decreases self.items@.len() - i,
        {
            items.push(self.items[i].clone());
            assert(self.items@.take(i + 1) =~= self.items@.take(i as int).push(
                self.items@[i as int],
            ));
            i = i + 1;
        }
        assert(self.items@.take(self.items@.len() as int) =~= self.items@);
        NameSet { items }
    }
}

// ── Tables ──────────────────────────────────────────────────────────────────

/// The map an association list stands for: later entries win.
pub open spec fn entries_map<V>(s: Seq<(String, V)>) -> Map<Text, V>
    decreases s.len(),
{
    if s.len() == 0 {
        Map::empty()
    } else {
        entries_map(s.drop_last()).insert(s.last().0@, s.last().1)
    }
}

/// The keys of an association list, in order.
pub open spec fn entry_keys<V>(s: Seq<(String, V)>) -> Seq<Text> {
    Seq::new(s.len(), |i: int| s[i].0@)
}

/// Pushing an entry inserts it.
pub proof fn entries_push<V>(s: Seq<(String, V)>, k: String, v: V)
    ensures
        entries_map(s.push((k, v))) == entries_map(s).insert(k@, v),
        entry_keys(s.push((k, v))) == entry_keys(s).push(k@),
{
    assert(s.push((k, v)).drop_last() =~= s);
    assert(entry_keys(s.push((k, v))) =~= entry_keys(s).push(k@));
}

/// The map's domain is the set of keys, and a list without duplicate keys
/// maps each of its keys to the value beside it.
pub proof fn entries_facts<V>(s: Seq<(String, V)>)
    ensures
        entries_map(s).dom() == entry_keys(s).to_set(),
        entry_keys(s).no_duplicates() ==> forall|i: int|
            0 <= i < s.len() ==> entries_map(s)[(#[trigger] s[i]).0@] == s[i].1,
    decreases s.len(),
{
    if s.len() == 0 {
        assert(entries_map(s).dom() =~= entry_keys(s).to_set());
    } else {
        let p = s.drop_last();
        entries_facts(p);
        assert(entry_keys(s) =~= entry_keys(p).push(s.last().0@));
        to_set_push(entry_keys(p), s.last().0@);
        assert(entries_map(s).dom() =~= entry_keys(s).to_set());
        if entry_keys(s).no_duplicates() {
            assert forall|i: int, j: int|
                0 <= i < entry_keys(p).len() && 0 <= j < entry_keys(p).len() && i != j implies entry_keys(
                p,
            )[i] != entry_keys(p)[j] by {
                assert(entry_keys(s)[i] != entry_keys(s)[j]);
            }
            assert forall|i: int| 0 <= i < s.len() implies entries_map(s)[(#[trigger] s[i]).0@]
                == s[i].1 by {
                if i < p.len() {
                    assert(p[i] == s[i]);
                    assert(entry_keys(s)[i] != entry_keys(s)[p.len() as int]);
                }
            }
        }
    }
}

/// Taking one entry out of a list without duplicate keys removes its key.
pub proof fn entries_remove<V>(s: Seq<(String, V)>, i: int)
    requires
        entry_keys(s).no_duplicates(),
        0 <= i < s.len(),
    ensures
        entry_keys(s.remove(i)).no_duplicates(),
        entries_map(s.remove(i)) == entries_map(s).remove(s[i].0@),
{
    let r = s.remove(i);
    assert(entry_keys(r) =~= entry_keys(s).remove(i));
    assert forall|a: int, b: int|
        0 <= a < entry_keys(r).len() && 0 <= b < entry_keys(r).len() && a != b implies entry_keys(
        r,
    )[a] != entry_keys(r)[b] by {
        let x = if a < i { a } else { a + 1 };
        let y = if b < i { b } else { b + 1 };
        assert(entry_keys(s)[x] != entry_keys(s)[y]);
    }
    entries_facts(s);
    entries_facts(r);
    let m = entries_map(s).remove(s[i].0@);
    assert forall|x: Text| entries_map(r).dom().contains(x) <==> m.dom().contains(x) by {
        if entries_map(r).dom().contains(x) {
            let a = choose|a: int| 0 <= a < entry_keys(r).len() && entry_keys(r)[a] == x;
            let b = if a < i { a } else { a + 1 };
            assert(entry_keys(s)[b] == x);
            assert(entry_keys(s)[b] != entry_keys(s)[i]);
        }
        if m.dom().contains(x) {
            let b = choose|b: int| 0 <= b < entry_keys(s).len() && entry_keys(s)[b] == x;
            let a = if b < i { b } else { b - 1 };
            assert(entry_keys(r)[a] == x);
        }
    }
    assert forall|x: Text| entries_map(r).dom().contains(x) implies entries_map(r)[x] == m[x] by {
        assert(entry_keys(r).to_set().contains(x));
        let a = choose|a: int| 0 <= a < entry_keys(r).len() && entry_keys(r)[a] == x;
        let b = if a < i { a } else { a + 1 };
        assert(r[a] == s[b]);
        assert(r[a].0@ == x);
        assert(entry_keys(s)[b] != entry_keys(s)[i]);
        assert(entries_map(r)[r[a].0@] == r[a].1);
        assert(entries_map(s)[s[b].0@] == s[b].1);
    }
    assert(entries_map(r) =~= m);
}

/// A table from names to values.
#[derive(Debug)]
pub struct Table<V> {
    entries: Vec<(String, V)>,
}

impl<V> Table<V> {
    #[verifier::type_invariant]
    spec fn inv(self) -> bool {
        entry_keys(self.entries@).no_duplicates()
    }

    /// The keys, in the order in which they were last written.
    pub closed spec fn keys(&self) -> Seq<Text> {
        entry_keys(self.entries@)
    }

    pub closed spec fn view(&self) -> Map<Text, V> {
        entries_map(self.entries@)
    }

    pub fn new() -> (r: Table<V>)
        ensures
            r@ == Map::<Text, V>::empty(),
    {
        Table { entries: Vec::new() }
    }

    pub fn len(&self) -> (r: usize)
        ensures
            r == self.keys().len(),
            self.keys().no_duplicates(),
            self.keys().to_set() == self@.dom(),
    {
        proof {
            use_type_invariant(self);
            entries_facts(self.entries@);
        }
        self.entries.len()
    }

    /// The `i`-th key.
    pub fn key(&self, i: usize) -> (r: &String)
        requires
            i < self.keys().len(),
        ensures
            r@ == self.keys()[i as int],
            self@.contains_key(r@),
    {
        proof {
            entries_facts(self.entries@);
            assert(self.keys()[i as int] == self.entries@[i as int].0@);
            assert(self.keys().to_set().contains(self.keys()[i as int]));
        }
        &self.entries[i].0
    }

    /// The value beside the `i`-th key.
    pub fn value(&self, i: usize) -> (r: &V)
        requires
            i < self.keys().len(),
        ensures
            *r == self@[self.keys()[i as int]],
            self@.contains_key(self.keys()[i as int]),
    {
        proof {
            use_type_invariant(self);
            entries_facts(self.entries@);
            assert(self.keys()[i as int] == self.entries@[i as int].0@);
            assert(self.keys().to_set().contains(self.keys()[i as int]));
        }
        &self.entries[i].1
    }

    pub fn get(&self, name: &str) -> (r: Option<&V>)
        ensures
            match r {
                Some(v) => self@.contains_key(name@) && self@[name@] == *v,
                None => !self@.contains_key(name@),
            },
    {
        proof {
            use_type_invariant(self);
            entries_facts(self.entries@);
        }
        let mut i: usize = 0;
        while i < self.entries.len()
            invariant
                i <= self.entries@.len(),
                self@.dom() == self.keys().to_set(),
                entry_keys(self.entries@).no_duplicates(),
                forall|j: int| 0 <= j < i ==> (#[trigger] self.entries@[j]).0@ != name@,
                forall|j: int|
                    0 <= j < self.entries@.len() ==> self@[(#[trigger] self.entries@[j]).0@]
                        == self.entries@[j].1,
            decreases self.entries@.len() - i,
        {
            if same_text(self.entries[i].0.as_str(), name) {
                proof {
                    assert(self.keys()[i as int] == name@);
                    assert(self.keys().to_set().contains(name@));
                }
                return Some(&self.entries[i].1);
            }
            i = i + 1;
        }
        proof {
            assert(!self.keys().to_set().contains(name@)) by {
                if self.keys().to_set().contains(name@) {
                    let k = choose|k: int| 0 <= k < self.keys().len() && self.keys()[k] == name@;
                    assert(self.entries@[k].0@ == name@);
                }
            }
        }
        None
    }

    pub fn contains(&self, name: &str) -> (r: bool)
        ensures
            r == self@.contains_key(name@),
    {
        match self.get(name) {
            Some(_) => true,
            None => false,
        }
    }

    /// The position of a key.
    fn position(&self, name: &str) -> (r: Option<usize>)
        ensures
            match r {
                Some(i) => i < self.entries@.len() && self.entries@[i as int].0@ == name@,
                None => !self@.contains_key(name@),
            },
    {
        proof {
            entries_facts(self.entries@);
        }
        let mut i: usize = 0;
        while i < self.entries.len()
            invariant
                i <= self.entries@.len(),
                forall|j: int| 0 <= j < i ==> (#[trigger] self.entries@[j]).0@ != name@,
            decreases self.entries@.len() - i,
        {
            if same_text(self.entries[i].0.as_str(), name) {
                return Some(i);
            }
            i = i + 1;
        }
        proof {
            if self.keys().to_set().contains(name@) {
                let k = choose|k: int| 0 <= k < self.keys().len() && self.keys()[k] == name@;
                assert(self.entries@[k].0@ == name@);
            }
        }
        None
    }

    pub fn remove(&mut self, name: &str)
        ensures
            final(self)@ == old(self)@.remove(name@),
    {
        proof {
            use_type_invariant(&*self);
        }
        match self.position(name) {
            Some(i) => {
                let ghost before = self.entries@;
                let mut entries: Vec<(String, V)> = Vec::new();
                std::mem::swap(&mut entries, &mut self.entries);
                let _ = entries.remove(i);
                proof {
                    entries_remove(before, i as int);
                }
                self.entries = entries;
            },
            None => {
                assert(self@ =~= self@.remove(name@));
            },
        }
    }

    pub fn insert(&mut self, name: &str, value: V)
        ensures
            final(self)@ == old(self)@.insert(name@, value),
    {
        self.remove(name);
        proof {
            use_type_invariant(&*self);
            entries_facts(self.entries@);
        }
        let ghost before = self.entries@;
        let mut entries: Vec<(String, V)> = Vec::new();
        std::mem::swap(&mut entries, &mut self.entries);
        let key = name.to_owned();
        let ghost k = key;
        entries.push((key, value));
        proof {
            entries_push(before, k, value);
            no_duplicates_push(entry_keys(before), name@);
        }
        self.entries = entries;
        proof {
            assert(self@ =~= old(self)@.insert(name@, value));
        }
    }
}

}
