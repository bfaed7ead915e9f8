//! Batches of slot rows, the unit operators work on.
//!
//! A slot holds a dictionary id, a computed term, or nothing. Ids are turned
//! into terms only where an operator looks at a value.

use crate::algebra::{names, Term, TermView, Var};
use crate::exec::literal::{lex, lex_of};
use crate::text::{same_text, Text};
use vstd::prelude::*;

verus! {

/// One cell of a row.
#[derive(Debug, PartialEq, Eq)]
pub enum Slot {
    /// A term of the dictionary, by id.
    Id(u64),
    /// A computed term.
    Term(Term),
    Unbound,
}

#[allow(inconsistent_fields)]
#[verifier::ext_equal]
pub enum SlotView {
    Id(u64),
    Term(TermView),
    Unbound,
}

/// The identity of a slot for grouping and deduplication.
#[derive(Debug, PartialEq, Eq)]
pub enum KeyPart {
    Id(u64),
    Lex(String),
    Unbound,
}

#[verifier::ext_equal]
pub enum KeyView {
    Id(u64),
    Lex(Text),
    Unbound,
}

/// A row: one slot per column.
#[derive(Debug, PartialEq, Eq)]
pub struct Row(pub Vec<Slot>);

/// Rows under a schema.
#[derive(Debug, PartialEq, Eq)]
pub struct Batch {
    pub schema: Vec<Var>,
    pub rows: Vec<Row>,
}

#[allow(inconsistent_fields)]
#[verifier::ext_equal]
pub struct BatchView {
    pub schema: Seq<Text>,
    pub rows: Seq<Seq<SlotView>>,
}

/// The terms of a dictionary, by id.
pub type Dict = Map<u64, TermView>;

impl Slot {
    pub open spec fn view(&self) -> SlotView {
        match *self {
            Slot::Id(id) => SlotView::Id(id),
            Slot::Term(t) => SlotView::Term(t@),
            Slot::Unbound => SlotView::Unbound,
        }
    }

    pub fn is_unbound(&self) -> (r: bool)
        ensures
            r == (self@ is Unbound),
    {
        match self {
            Slot::Unbound => true,
            _ => false,
        }
    }

    /// The identity of the slot.
    pub fn key_part(&self) -> (r: KeyPart)
        ensures
            r@ == key_of(self@),
    {
        match self {
            Slot::Id(id) => KeyPart::Id(*id),
            Slot::Term(t) => KeyPart::Lex(lex(t)),
            Slot::Unbound => KeyPart::Unbound,
        }
    }
}

impl Clone for Slot {
    fn clone(&self) -> (r: Slot)
        ensures
            r == *self,
    {
        match self {
            Slot::Id(id) => Slot::Id(*id),
            Slot::Term(t) => Slot::Term(t.clone()),
            Slot::Unbound => Slot::Unbound,
        }
    }
}

/// The identity of a slot: the id, or the lexical form of a computed term.
pub open spec fn key_of(s: SlotView) -> KeyView {
    match s {
        SlotView::Id(id) => KeyView::Id(id),
        SlotView::Term(t) => KeyView::Lex(lex_of(t)),
        SlotView::Unbound => KeyView::Unbound,
    }
}

impl KeyPart {
    pub open spec fn view(&self) -> KeyView {
        match *self {
            KeyPart::Id(id) => KeyView::Id(id),
            KeyPart::Lex(s) => KeyView::Lex(s@),
            KeyPart::Unbound => KeyView::Unbound,
        }
    }

    pub fn same(&self, other: &KeyPart) -> (r: bool)
        ensures
            r == (self@ == other@),
    {
        match (self, other) {
            (KeyPart::Id(a), KeyPart::Id(b)) => *a == *b,
            (KeyPart::Lex(a), KeyPart::Lex(b)) => *a == *b,
            (KeyPart::Unbound, KeyPart::Unbound) => true,
            _ => false,
        }
    }
}

/// The identities of a row's slots.
pub open spec fn row_key(r: Seq<SlotView>) -> Seq<KeyView> {
    Seq::new(r.len(), |i: int| key_of(r[i]))
}

pub open spec fn keys_view(s: Seq<KeyPart>) -> Seq<KeyView> {
    Seq::new(s.len(), |i: int| s[i]@)
}

/// Are two key sequences the same?
pub fn same_keys(a: &Vec<KeyPart>, b: &Vec<KeyPart>) -> (r: bool)
    ensures
        r == (keys_view(a@) == keys_view(b@)),
{
    let ghost av = keys_view(a@);
    let ghost bv = keys_view(b@);
    if a.len() != b.len() {
        assert(av.len() != bv.len());
        return false;
    }
    let mut i: usize = 0;
    while i < a.len()
        invariant
            i <= a@.len(),
            a@.len() == b@.len(),
            av == keys_view(a@),
            bv == keys_view(b@),
            forall|j: int| 0 <= j < i ==> av[j] == bv[j],
        decreases a@.len() - i,
    {
        if !a[i].same(&b[i]) {
            assert(av[i as int] != bv[i as int]);
            return false;
        }
        i = i + 1;
    }
    assert(av =~= bv);
    true
}

pub open spec fn slots_view(s: Seq<Slot>) -> Seq<SlotView> {
    Seq::new(s.len(), |i: int| s[i]@)
}

impl Row {
    pub open spec fn view(&self) -> Seq<SlotView> {
        slots_view(self.0@)
    }

    /// The identities of the row's slots.
    pub fn key(&self) -> (r: Vec<KeyPart>)
        ensures
            keys_view(r@) == row_key(self@),
    {
        let mut out: Vec<KeyPart> = Vec::new();
        let mut i: usize = 0;
        while i < self.0.len()
            invariant
                i == out@.len(),
                i <= self.0@.len(),
                forall|j: int| 0 <= j < i ==> (#[trigger] out@[j])@ == key_of(self@[j]),
            decreases self.0@.len() - i,
        {
            out.push(self.0[i].key_part());
            i = i + 1;
        }
        assert(keys_view(out@) =~= row_key(self@));
        out
    }
}

impl Clone for Row {
    fn clone(&self) -> (r: Row)
        ensures
            r@ == self@,
    {
        let mut out: Vec<Slot> = Vec::new();
        let mut i: usize = 0;
        while i < self.0.len()
            invariant
                i == out@.len(),
                i <= self.0@.len(),
                forall|j: int| 0 <= j < i ==> #[trigger] out@[j] == self.0@[j],
            decreases self.0@.len() - i,
        {
            out.push(self.0[i].clone());
            i = i + 1;
        }
        let r = Row(out);
        assert(r@ =~= self@);
        r
    }
}

pub open spec fn slot_rows_view(s: Seq<Row>) -> Seq<Seq<SlotView>> {
    Seq::new(s.len(), |i: int| s[i]@)
}

/// The first position of a name among a schema's columns.
pub open spec fn position(schema: Seq<Text>, name: Text) -> Option<int>
    decreases schema.len(),
{
    if schema.len() == 0 {
        None
    } else if schema[0] == name {
        Some(0)
    } else {
        match position(schema.drop_first(), name) {
            Some(i) => Some(i + 1),
            None => None,
        }
    }
}

/// A position is in range and holds the name; without one the name is absent.
pub proof fn position_facts(schema: Seq<Text>, name: Text)
    ensures
        match position(schema, name) {
            Some(i) => 0 <= i < schema.len() && schema[i] == name && forall|j: int|
                0 <= j < i ==> schema[j] != name,
            None => !schema.contains(name),
        },
    decreases schema.len(),
{
    if schema.len() > 0 && schema[0] != name {
        let rest = schema.drop_first();
        position_facts(rest, name);
        match position(rest, name) {
            Some(i) => {
                assert(schema[i + 1] == rest[i]);
                assert forall|j: int| 0 <= j < i + 1 implies schema[j] != name by {
                    if j > 0 {
                        assert(rest[j - 1] == schema[j]);
                    }
                }
            },
            None => {
                if schema.contains(name) {
                    let j = choose|j: int| 0 <= j < schema.len() && schema[j] == name;
                    assert(rest[j - 1] == name);
                }
            },
        }
    }
}

/// The first column of a name.
pub fn find_column(schema: &Vec<Var>, name: &str) -> (r: Option<usize>)
    ensures
        match r {
            Some(i) => position(names(schema@), name@) == Some(i as int) && i < schema@.len(),
            None => position(names(schema@), name@) is None,
        },
{
    let ghost sv = names(schema@);
    let mut i: usize = 0;
    assert(sv.skip(0) =~= sv);
    while i < schema.len()
        invariant
            i <= schema@.len(),
            sv == names(schema@),
            match position(sv.skip(i as int), name@) {
                Some(k) => position(sv, name@) == Some(k + i),
                None => position(sv, name@) is None,
            },
        decreases schema@.len() - i,
    {
        assert(sv.skip(i as int)[0] == sv[i as int]);
        assert(sv.skip(i as int).drop_first() =~= sv.skip(i + 1));
        if same_text(schema[i].name(), name) {
            return Some(i);
        }
        i = i + 1;
    }
    None
}

impl BatchView {
    /// Does every row have one slot per column?
    pub open spec fn wf(self) -> bool {
        forall|i: int| 0 <= i < self.rows.len() ==> (#[trigger] self.rows[i]).len()
            == self.schema.len()
    }
}

impl Batch {
    pub open spec fn view(&self) -> BatchView {
        BatchView { schema: names(self.schema@), rows: slot_rows_view(self.rows@) }
    }

    /// The column of a name.
    pub fn col(&self, name: &str) -> (r: Option<usize>)
        ensures
            match r {
                Some(i) => position(self@.schema, name@) == Some(i as int) && i
                    < self@.schema.len(),
                None => position(self@.schema, name@) is None,
            },
    {
        find_column(&self.schema, name)
    }
}

/// The term in a slot.
pub open spec fn slot_term(d: Dict, s: SlotView) -> Option<TermView> {
    match s {
        SlotView::Id(id) => Some(d[id]),
        SlotView::Term(t) => Some(t),
        SlotView::Unbound => None,
    }
}

/// The solution mapping of a row, over the columns in `want`. Of two columns
/// with one name the later bound one counts.
pub open spec fn row_binding(
    d: Dict,
    schema: Seq<Text>,
    row: Seq<SlotView>,
    want: Set<Text>,
) -> Map<Text, TermView>
    decreases schema.len(),
{
    if schema.len() == 0 {
        Map::empty()
    } else {
        let n = schema.len() - 1;
        let m = row_binding(d, schema.drop_last(), row, want);
        match slot_term(d, row[n]) {
            Some(t) => if want.contains(schema[n]) {
                m.insert(schema[n], t)
            } else {
                m
            },
            None => m,
        }
    }
}

/// The solution mapping of a whole row.
pub open spec fn solution(d: Dict, schema: Seq<Text>, row: Seq<SlotView>) -> Map<Text, TermView> {
    row_binding(d, schema, row, Set::full())
}

/// The solution mappings of a batch.
pub open spec fn solutions(d: Dict, b: BatchView) -> Seq<Map<Text, TermView>> {
    Seq::new(b.rows.len(), |i: int| solution(d, b.schema, b.rows[i]))
}

/// Restricting the columns restricts the mapping.
pub proof fn binding_is_restriction(
    d: Dict,
    schema: Seq<Text>,
    row: Seq<SlotView>,
    want: Set<Text>,
)
    ensures
        row_binding(d, schema, row, want) == solution(d, schema, row).restrict(want),
    decreases schema.len(),
{
    if schema.len() > 0 {
        binding_is_restriction(d, schema.drop_last(), row, want);
    }
    assert(row_binding(d, schema, row, want) =~= solution(d, schema, row).restrict(want));
}

/// A row binds no name outside its schema.
pub proof fn binding_within_schema(d: Dict, schema: Seq<Text>, row: Seq<SlotView>, want: Set<Text>)
    ensures
        row_binding(d, schema, row, want).dom().subset_of(schema.to_set()),
    decreases schema.len(),
{
    if schema.len() > 0 {
        let rest = schema.drop_last();
        binding_within_schema(d, rest, row, want);
        assert forall|k: Text| row_binding(d, schema, row, want).contains_key(k) implies
            schema.to_set().contains(k) by {
            if k == schema.last() {
                assert(schema[schema.len() - 1] == k);
            } else {
                assert(row_binding(d, rest, row, want).contains_key(k));
                assert(rest.to_set().contains(k));
                let j = choose|j: int| 0 <= j < rest.len() && rest[j] == k;
                assert(schema[j] == k);
            }
        }
    }
}

}
