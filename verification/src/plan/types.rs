//! The binding/type lattice. A [`TypeMask`] is a set of possible term kinds
//! for one variable, plus the possibility of being unbound; [`infer`]
//! propagates masks bottom-up over a logical plan.

use crate::algebra::{
    aggregates_view, names, names_push, patterns_view, rows_view, AggFunc, AggFuncView, Aggregate,
    AggregateView, PatternView, Term, TermView, TriplePattern, Var,
};
use crate::collections::{to_set_push, Table};
use crate::plan::logical::{LogicalPlan, LogicalView};
use crate::text::Text;
use vstd::prelude::*;

verus! {

/// A set of possible term kinds for one variable.
#[derive(Debug, Clone, Copy, PartialEq, Eq, Structural)]
pub struct TypeMask {
    pub bits: u8,
}

impl TypeMask {
    /// The variable may be unbound in some solution.
    pub const UNDEF: u8 = 0b0_0001;

    pub const NAMED_NODE: u8 = 0b0_0010;

    pub const BLANK_NODE: u8 = 0b0_0100;

    pub const LITERAL: u8 = 0b0_1000;

    /// An RDF 1.2 triple term.
    pub const TRIPLE: u8 = 0b1_0000;

    /// Any bound term.
    pub const ANY: u8 = 0b1_1110;

    pub open spec fn of(bits: u8) -> TypeMask {
        TypeMask { bits }
    }

    pub open spec fn bound(self) -> bool {
        self.bits & Self::UNDEF == 0
    }

    pub open spec fn either(self, other: TypeMask) -> TypeMask {
        TypeMask { bits: self.bits | other.bits }
    }

    /// The masks a shared variable can have after a join: the kinds both
    /// sides allow, and each side's kinds where the other may be unbound.
    pub open spec fn meet(self, other: TypeMask) -> TypeMask {
        let both = self.bits & other.bits & Self::ANY;
        let mine = if other.bits & Self::UNDEF != 0 {
            self.bits & Self::ANY
        } else {
            0u8
        };
        let theirs = if self.bits & Self::UNDEF != 0 {
            other.bits & Self::ANY
        } else {
            0u8
        };
        TypeMask { bits: both | mine | theirs | (self.bits & other.bits & Self::UNDEF) }
    }

    pub open spec fn optional(self) -> TypeMask {
        TypeMask { bits: self.bits | Self::UNDEF }
    }

    pub fn from_bits(bits: u8) -> (r: TypeMask)
        ensures
            r.bits == bits,
    {
        TypeMask { bits }
    }

    pub fn bits(&self) -> (r: u8)
        ensures
            r == self.bits,
    {
        self.bits
    }

    /// A definitely bound variable is one whose mask excludes `UNDEF`.
    pub fn is_bound(&self) -> (r: bool)
        ensures
            r == self.bound(),
    {
        self.bits & Self::UNDEF == 0
    }

    /// Is an IRI the only possibility?
    pub fn is_named_node(&self) -> (r: bool)
        ensures
            r == (self.bits == Self::NAMED_NODE),
    {
        self.bits == Self::NAMED_NODE
    }

    /// Is a blank node the only possibility?
    pub fn is_blank_node(&self) -> (r: bool)
        ensures
            r == (self.bits == Self::BLANK_NODE),
    {
        self.bits == Self::BLANK_NODE
    }

    pub fn union(self, other: TypeMask) -> (r: TypeMask)
        ensures
            r == self.either(other),
    {
        TypeMask { bits: self.bits | other.bits }
    }

    /// Join semantics for a shared variable: bound iff bound on either side.
    pub fn intersect(self, other: TypeMask) -> (r: TypeMask)
        ensures
            r == self.meet(other),
    {
        let mut types: u8 = self.bits & other.bits & Self::ANY;
        let ghost both = types;
        if other.bits & Self::UNDEF != 0 {
            types = types | (self.bits & Self::ANY);
        }
        let ghost mine = if other.bits & Self::UNDEF != 0 {
            self.bits & Self::ANY
        } else {
            0u8
        };
        assert(both | 0u8 == both) by (bit_vector);
        if self.bits & Self::UNDEF != 0 {
            types = types | (other.bits & Self::ANY);
        } else {
            assert(types | 0u8 == types) by (bit_vector);
        }
        let undef: u8 = self.bits & other.bits & Self::UNDEF;
        TypeMask { bits: types | undef }
    }

    pub fn with_undef(self) -> (r: TypeMask)
        ensures
            r == self.optional(),
    {
        TypeMask { bits: self.bits | Self::UNDEF }
    }
}

/// The inferred mask of each variable a plan produces.
pub struct VarTypes {
    pub masks: Table<TypeMask>,
}

impl VarTypes {
    pub open spec fn view(&self) -> Map<Text, TypeMask> {
        self.masks@
    }

    /// The mask of `var`, if the plan produces it.
    pub fn get(&self, var: &Var) -> (r: Option<TypeMask>)
        ensures
            match r {
                Some(m) => self@.contains_key(var@) && self@[var@] == m,
                None => !self@.contains_key(var@),
            },
    {
        match self.masks.get(var.name()) {
            Some(m) => Some(*m),
            None => None,
        }
    }

    /// The variables the plan may bind, each once.
    pub fn vars(&self) -> (r: Vec<Var>)
        ensures
            names(r@).to_set() == self@.dom(),
            names(r@).no_duplicates(),
    {
        let n: usize = self.masks.len();
        let mut out: Vec<Var> = Vec::new();
        let mut i: usize = 0;
        while i < n
            invariant
                i <= n,
                n == self.masks.keys().len(),
                names(out@) == self.masks.keys().take(i as int),
            decreases n - i,
        {
            let key = self.masks.key(i);
            let ghost before = out@;
            out.push(Var::new(key.as_str()));
            proof {
                names_push(before, out@.last());
                assert(names(out@) =~= self.masks.keys().take(i + 1));
            }
            i = i + 1;
        }
        assert(names(out@) =~= self.masks.keys());
        out
    }

    fn insert_union(&mut self, var: &Var, mask: TypeMask)
        ensures
            final(self)@ == add_mask(old(self)@, var@, mask),
    {
        let merged = match self.masks.get(var.name()) {
            Some(m) => m.union(mask),
            None => mask,
        };
        self.masks.insert(var.name(), merged);
    }
}

/// Widens the mask of `v` by `mask`.
pub open spec fn add_mask(m: Map<Text, TypeMask>, v: Text, mask: TypeMask) -> Map<Text, TypeMask> {
    m.insert(
        v,
        if m.contains_key(v) {
            m[v].either(mask)
        } else {
            mask
        },
    )
}

/// The masks after a term in a position of mask `mask` has been seen.
pub open spec fn term_masks(t: TermView, mask: TypeMask, acc: Map<Text, TypeMask>) -> Map<
    Text,
    TypeMask,
>
    decreases t,
{
    match t {
        TermView::Var(v) => add_mask(acc, v, mask),
        TermView::Triple(tp) => pattern_masks(*tp, acc),
        _ => acc,
    }
}

/// The masks after a triple pattern has been seen: a subject is an IRI or a
/// blank node, a predicate an IRI, an object anything.
pub open spec fn pattern_masks(p: PatternView, acc: Map<Text, TypeMask>) -> Map<Text, TypeMask>
    decreases p,
{
    let s = term_masks(
        p.subject,
        TypeMask::of(0b0_0110),
        acc,
    );
    let sp = term_masks(p.predicate, TypeMask::of(TypeMask::NAMED_NODE), s);
    term_masks(p.object, TypeMask::of(TypeMask::ANY), sp)
}

pub open spec fn bgp_masks(ps: Seq<PatternView>) -> Map<Text, TypeMask>
    decreases ps.len(),
{
    if ps.len() == 0 {
        Map::empty()
    } else {
        pattern_masks(ps.last(), bgp_masks(ps.drop_last()))
    }
}

/// How the masks of two subtrees combine.
#[derive(Clone, Copy)]
pub enum Combine {
    Join,
    LeftJoin,
    Union,
}

pub open spec fn both_mask(how: Combine, l: TypeMask, r: TypeMask) -> TypeMask {
    match how {
        Combine::Join => l.meet(r),
        Combine::LeftJoin => l.either(r),
        Combine::Union => l.either(r),
    }
}

pub open spec fn left_mask(how: Combine, l: TypeMask) -> TypeMask {
    match how {
        Combine::Union => l.optional(),
        _ => l,
    }
}

pub open spec fn right_mask(how: Combine, r: TypeMask) -> TypeMask {
    match how {
        Combine::Join => r,
        _ => r.optional(),
    }
}

/// The masks of a binary operator from those of its two sides.
pub open spec fn combine_masks(
    how: Combine,
    l: Map<Text, TypeMask>,
    r: Map<Text, TypeMask>,
) -> Map<Text, TypeMask> {
    Map::new(
        |k: Text| l.contains_key(k) || r.contains_key(k),
        |k: Text|
            if l.contains_key(k) && r.contains_key(k) {
                both_mask(how, l[k], r[k])
            } else if l.contains_key(k) {
                left_mask(how, l[k])
            } else {
                right_mask(how, r[k])
            },
    )
}

/// The mask of a column the child may not produce.
pub open spec fn column_mask(child: Map<Text, TypeMask>, k: Text) -> TypeMask {
    if child.contains_key(k) {
        child[k]
    } else {
        TypeMask::of(0b1_1111)
    }
}

/// The masks of a list of columns of a child.
pub open spec fn column_masks(child: Map<Text, TypeMask>, vars: Seq<Text>) -> Map<Text, TypeMask> {
    Map::new(|k: Text| vars.contains(k), |k: Text| column_mask(child, k))
}

pub open spec fn kind_bit(t: TermView) -> u8 {
    match t {
        TermView::Iri(_) => TypeMask::NAMED_NODE,
        TermView::BlankNode(_) => TypeMask::BLANK_NODE,
        TermView::Literal(_) => TypeMask::LITERAL,
        TermView::Triple(_) => TypeMask::TRIPLE,
        TermView::Var(_) => TypeMask::ANY,
    }
}

pub open spec fn cell_bit(row: Seq<Option<TermView>>, col: int) -> u8 {
    if col < row.len() {
        match row[col] {
            Some(t) => kind_bit(t),
            None => TypeMask::UNDEF,
        }
    } else {
        TypeMask::UNDEF
    }
}

/// The mask of one `VALUES` column: every kind that occurs in it.
pub open spec fn values_mask(rows: Seq<Seq<Option<TermView>>>, col: int) -> u8
    decreases rows.len(),
{
    if rows.len() == 0 {
        0u8
    } else {
        values_mask(rows.drop_last(), col) | cell_bit(rows.last(), col)
    }
}

pub open spec fn values_masks(vars: Seq<Text>, rows: Seq<Seq<Option<TermView>>>) -> Map<
    Text,
    TypeMask,
>
    decreases vars.len(),
{
    if vars.len() == 0 {
        Map::empty()
    } else {
        values_masks(vars.drop_last(), rows).insert(
            vars.last(),
            TypeMask::of(values_mask(rows, vars.len() - 1)),
        )
    }
}

/// The mask of an aggregate's output: a count is a bound literal, a sum,
/// average or concatenation an optional literal, and the aggregates that hand
/// back an input term an optional anything.
pub open spec fn agg_mask(f: AggFuncView) -> TypeMask {
    match f {
        AggFuncView::CountStar => TypeMask::of(TypeMask::LITERAL),
        AggFuncView::Count(_) => TypeMask::of(TypeMask::LITERAL),
        AggFuncView::Sum(_) => TypeMask::of(0b0_1001),
        AggFuncView::Avg(_) => TypeMask::of(0b0_1001),
        AggFuncView::GroupConcat { .. } => TypeMask::of(0b0_1001),
        AggFuncView::Min(_) => TypeMask::of(0b1_1111),
        AggFuncView::Max(_) => TypeMask::of(0b1_1111),
        AggFuncView::Sample(_) => TypeMask::of(0b1_1111),
    }
}

pub open spec fn agg_masks(aggs: Seq<AggregateView>, acc: Map<Text, TypeMask>) -> Map<
    Text,
    TypeMask,
>
    decreases aggs.len(),
{
    if aggs.len() == 0 {
        acc
    } else {
        agg_masks(aggs.drop_last(), acc).insert(aggs.last().out, agg_mask(aggs.last().func))
    }
}

/// The mask an endpoint of a path closure contributes.
pub open spec fn endpoint_masks(t: TermView, acc: Map<Text, TypeMask>) -> Map<Text, TypeMask> {
    match t {
        TermView::Var(v) => add_mask(acc, v, TypeMask::of(TypeMask::ANY)),
        _ => acc,
    }
}

/// The masks of the variables a logical plan produces.
pub open spec fn infer_view(plan: LogicalView) -> Map<Text, TypeMask>
    decreases plan,
{
    match plan {
        LogicalView::Bgp { patterns, .. } => bgp_masks(patterns),
        LogicalView::Join { left, right } => combine_masks(
            Combine::Join,
            infer_view(*left),
            infer_view(*right),
        ),
        LogicalView::LeftJoin { left, right, .. } => combine_masks(
            Combine::LeftJoin,
            infer_view(*left),
            infer_view(*right),
        ),
        LogicalView::Minus { left, .. } => infer_view(*left),
        LogicalView::Union { left, right } => combine_masks(
            Combine::Union,
            infer_view(*left),
            infer_view(*right),
        ),
        LogicalView::Filter { inner, .. } => infer_view(*inner),
        LogicalView::Slice { inner, .. } => infer_view(*inner),
        LogicalView::OrderBy { inner, .. } => infer_view(*inner),
        LogicalView::Distinct { inner } => infer_view(*inner),
        LogicalView::Project { vars, inner } => column_masks(infer_view(*inner), vars),
        LogicalView::Extend { inner, var, .. } => add_mask(
            infer_view(*inner),
            var,
            TypeMask::of(0b1_1111),
        ),
        LogicalView::Values { vars, rows } => values_masks(vars, rows),
        LogicalView::Group { inner, keys, aggregates } => agg_masks(
            aggregates,
            column_masks(infer_view(*inner), keys),
        ),
        LogicalView::PerGraph { var, inner } => combine_masks(
            Combine::Join,
            infer_view(*inner),
            map![var => TypeMask::of(TypeMask::NAMED_NODE)],
        ),
        LogicalView::PathClosure { subject, object, .. } => endpoint_masks(
            object,
            endpoint_masks(subject, Map::empty()),
        ),
    }
}

fn subject_mask() -> (r: TypeMask)
    ensures
        r.bits == 0b0_0110,
{
    assert(2u8 | 4u8 == 6u8) by (bit_vector);
    TypeMask::from_bits(TypeMask::NAMED_NODE | TypeMask::BLANK_NODE)
}

fn predicate_mask() -> (r: TypeMask)
    ensures
        r.bits == TypeMask::NAMED_NODE,
{
    TypeMask::from_bits(TypeMask::NAMED_NODE)
}

fn object_mask() -> (r: TypeMask)
    ensures
        r.bits == TypeMask::ANY,
{
    TypeMask::from_bits(TypeMask::ANY)
}

fn optional_any() -> (r: TypeMask)
    ensures
        r.bits == 0b1_1111,
{
    assert(1u8 | 30u8 == 31u8) by (bit_vector);
    TypeMask::from_bits(TypeMask::UNDEF | TypeMask::ANY)
}

fn add_pattern_vars(p: &TriplePattern, out: &mut VarTypes)
    ensures
        final(out)@ == pattern_masks(p@, old(out)@),
    decreases p,
{
    add_term_vars(&p.subject, subject_mask(), out);
    add_term_vars(&p.predicate, predicate_mask(), out);
    add_term_vars(&p.object, object_mask(), out);
}

fn add_term_vars(t: &Term, mask: TypeMask, out: &mut VarTypes)
    ensures
        final(out)@ == term_masks(t@, mask, old(out)@),
    decreases t,
{
    match t {
        Term::Var(v) => out.insert_union(v, mask),
        Term::Triple(tp) => add_pattern_vars(tp, out),
        _ => {},
    }
}

fn combine(how: Combine, l: &VarTypes, r: &VarTypes) -> (out: VarTypes)
    ensures
        out@ == combine_masks(how, l@, r@),
{
    let mut out = VarTypes { masks: Table::new() };
    let nl: usize = l.masks.len();
    let mut i: usize = 0;
    let ghost whole = combine_masks(how, l@, r@);
    while i < nl
        invariant
            i <= nl,
            nl == l.masks.keys().len(),
            l.masks.keys().to_set() == l@.dom(),
            whole == combine_masks(how, l@, r@),
            out@.dom() =~= l.masks.keys().take(i as int).to_set(),
            forall|k: Text| out@.contains_key(k) ==> l@.contains_key(k) && #[trigger] out@[k]
                == whole[k],
        decreases nl - i,
    {
        let key = l.masks.key(i);
        let lm: TypeMask = *l.masks.value(i);
        let mask = match r.masks.get(key.as_str()) {
            Some(rm) => match how {
                Combine::Join => lm.intersect(*rm),
                Combine::LeftJoin => lm.union(*rm),
                Combine::Union => lm.union(*rm),
            },
            None => match how {
                Combine::Union => lm.with_undef(),
                _ => lm,
            },
        };
        out.masks.insert(key.as_str(), mask);
        proof {
            let t = l.masks.keys().take(i as int);
            assert(l.masks.keys().take(i + 1) =~= t.push(key@));
            to_set_push(t, key@);
        }
        i = i + 1;
    }
    assert(l.masks.keys().take(nl as int) =~= l.masks.keys());
    let nr: usize = r.masks.len();
    let mut j: usize = 0;
    proof {
        assert(r.masks.keys().take(0).to_set() =~= Set::<Text>::empty());
        assert(l@.dom().union(Set::<Text>::empty()) =~= l@.dom());
    }
    while j < nr
        invariant
            j <= nr,
            nr == r.masks.keys().len(),
            r.masks.keys().to_set() == r@.dom(),
            whole == combine_masks(how, l@, r@),
            out@.dom() =~= l@.dom().union(r.masks.keys().take(j as int).to_set()),
            forall|k: Text| out@.contains_key(k) ==> whole.contains_key(k) && #[trigger] out@[k]
                == whole[k],
        decreases nr - j,
    {
        let key = r.masks.key(j);
        let rm: TypeMask = *r.masks.value(j);
        if !l.masks.contains(key.as_str()) {
            let mask = match how {
                Combine::Join => rm,
                _ => rm.with_undef(),
            };
            out.masks.insert(key.as_str(), mask);
        }
        proof {
            let t = r.masks.keys().take(j as int);
            assert(r.masks.keys().take(j + 1) =~= t.push(key@));
            to_set_push(t, key@);
        }
        j = j + 1;
    }
    assert(r.masks.keys().take(nr as int) =~= r.masks.keys());
    assert(out@ =~= whole);
    out
}

/// The masks of a list of columns.
fn columns(child: &VarTypes, vars: &Vec<Var>) -> (out: VarTypes)
    ensures
        out@ == column_masks(child@, names(vars@)),
{
    let mut out = VarTypes { masks: Table::new() };
    let mut i: usize = 0;
    while i < vars.len()
        invariant
            i <= vars@.len(),
            out@ =~= column_masks(child@, names(vars@).take(i as int)),
        decreases vars@.len() - i,
    {
        let mask = match child.get(&vars[i]) {
            Some(m) => m,
            None => optional_any(),
        };
        out.masks.insert(vars[i].name(), mask);
        proof {
            let t = names(vars@).take(i as int);
            let v = vars@[i as int]@;
            let t1 = names(vars@).take(i + 1);
            assert(t1 =~= t.push(v));
            to_set_push(t, v);
            assert forall|k: Text| t1.contains(k) <==> t.contains(k) || k == v by {
                assert(t1.contains(k) == t1.to_set().contains(k));
                assert(t.contains(k) == t.to_set().contains(k));
            }
        }
        i = i + 1;
    }
    assert(names(vars@).take(vars@.len() as int) =~= names(vars@));
    out
}

fn term_kind_bit(t: &Term) -> (r: u8)
    ensures
        r == kind_bit(t@),
{
    match t {
        Term::Iri(_) => TypeMask::NAMED_NODE,
        Term::BlankNode(_) => TypeMask::BLANK_NODE,
        Term::Literal(_) => TypeMask::LITERAL,
        Term::Triple(_) => TypeMask::TRIPLE,
        Term::Var(_) => TypeMask::ANY,
    }
}

fn values_types(vars: &Vec<Var>, rows: &Vec<Vec<Option<Term>>>) -> (out: VarTypes)
    ensures
        out@ == values_masks(names(vars@), rows_view(rows@)),
{
    let mut out = VarTypes { masks: Table::new() };
    let mut col: usize = 0;
    let ghost rv = rows_view(rows@);
    while col < vars.len()
        invariant
            col <= vars@.len(),
            rv == rows_view(rows@),
            out@ == values_masks(names(vars@).take(col as int), rv),
        decreases vars@.len() - col,
    {
        let mut mask: u8 = 0;
        let mut i: usize = 0;
        while i < rows.len()
            invariant
                i <= rows@.len(),
                rv == rows_view(rows@),
                mask == values_mask(rv.take(i as int), col as int),
            decreases rows@.len() - i,
        {
            let bit: u8 = if col < rows[i].len() {
                match &rows[i][col] {
                    Some(t) => term_kind_bit(t),
                    None => TypeMask::UNDEF,
                }
            } else {
                TypeMask::UNDEF
            };
            mask = mask | bit;
            proof {
                assert(rv.take(i + 1).drop_last() =~= rv.take(i as int));
                assert(rv.take(i + 1).last() == rv[i as int]);
            }
            i = i + 1;
        }
        assert(rv.take(rows@.len() as int) =~= rv);
        out.masks.insert(vars[col].name(), TypeMask::from_bits(mask));
        proof {
            let n1 = names(vars@).take(col + 1);
            assert(n1.drop_last() =~= names(vars@).take(col as int));
            assert(n1.last() == vars@[col as int]@);
        }
        col = col + 1;
    }
    assert(names(vars@).take(vars@.len() as int) =~= names(vars@));
    out
}

fn aggregate_mask(f: &AggFunc) -> (r: TypeMask)
    ensures
        r == agg_mask(f@),
{
    assert(1u8 | 8u8 == 9u8) by (bit_vector);
    match f {
        AggFunc::CountStar => TypeMask::from_bits(TypeMask::LITERAL),
        AggFunc::Count(_) => TypeMask::from_bits(TypeMask::LITERAL),
        AggFunc::Sum(_) => TypeMask::from_bits(TypeMask::UNDEF | TypeMask::LITERAL),
        AggFunc::Avg(_) => TypeMask::from_bits(TypeMask::UNDEF | TypeMask::LITERAL),
        AggFunc::GroupConcat { .. } => TypeMask::from_bits(TypeMask::UNDEF | TypeMask::LITERAL),
        AggFunc::Min(_) => optional_any(),
        AggFunc::Max(_) => optional_any(),
        AggFunc::Sample(_) => optional_any(),
    }
}

fn group_types(child: &VarTypes, keys: &Vec<Var>, aggregates: &Vec<Aggregate>) -> (out: VarTypes)
    ensures
        out@ == agg_masks(
            aggregates_view(aggregates@),
            column_masks(child@, names(keys@)),
        ),
{
    let mut out = columns(child, keys);
    let ghost base = out@;
    let ghost av = aggregates_view(aggregates@);
    let mut i: usize = 0;
    while i < aggregates.len()
        invariant
            i <= aggregates@.len(),
            av == aggregates_view(aggregates@),
            out@ == agg_masks(av.take(i as int), base),
        decreases aggregates@.len() - i,
    {
        let mask = aggregate_mask(&aggregates[i].func);
        out.masks.insert(aggregates[i].out.name(), mask);
        proof {
            assert(av.take(i + 1).drop_last() =~= av.take(i as int));
            assert(av.take(i + 1).last() == av[i as int]);
        }
        i = i + 1;
    }
    assert(av.take(aggregates@.len() as int) =~= av);
    out
}

/// Bottom-up type inference over a logical plan.
pub fn infer(plan: &LogicalPlan) -> (out: VarTypes)
    ensures
        out@ == infer_view(plan@),
    decreases plan,
{
    match plan {
        LogicalPlan::Bgp { patterns, .. } => {
            let mut vt = VarTypes { masks: Table::new() };
            let ghost pv = patterns_view(patterns@);
            let mut i: usize = 0;
            while i < patterns.len()
                invariant
                    i <= patterns@.len(),
                    pv == patterns_view(patterns@),
                    vt@ == bgp_masks(pv.take(i as int)),
                decreases patterns@.len() - i,
            {
                add_pattern_vars(&patterns[i], &mut vt);
                proof {
                    assert(pv.take(i + 1).drop_last() =~= pv.take(i as int));
                    assert(pv.take(i + 1).last() == pv[i as int]);
                }
                i = i + 1;
            }
            assert(pv.take(patterns@.len() as int) =~= pv);
            vt
        },
        LogicalPlan::Join { left, right } => combine(Combine::Join, &infer(left), &infer(right)),
        LogicalPlan::LeftJoin { left, right, .. } => combine(
            Combine::LeftJoin,
            &infer(left),
            &infer(right),
        ),
        LogicalPlan::Minus { left, .. } => infer(left),
        LogicalPlan::Union { left, right } => combine(
            Combine::Union,
            &infer(left),
            &infer(right),
        ),
        LogicalPlan::Filter { inner, .. } => infer(inner),
        LogicalPlan::Slice { inner, .. } => infer(inner),
        LogicalPlan::OrderBy { inner, .. } => infer(inner),
        LogicalPlan::Distinct { inner } => infer(inner),
        LogicalPlan::Project { vars, inner } => columns(&infer(inner), vars),
        LogicalPlan::Extend { inner, var, .. } => {
            let mut out = infer(inner);
            out.insert_union(var, optional_any());
            out
        },
        LogicalPlan::Values { vars, rows } => values_types(vars, rows),
        LogicalPlan::Group { inner, keys, aggregates } => group_types(
            &infer(inner),
            keys,
            aggregates,
        ),
        LogicalPlan::PerGraph { var, inner } => {
            let mut graph = VarTypes { masks: Table::new() };
            graph.masks.insert(var.name(), TypeMask::from_bits(TypeMask::NAMED_NODE));
            assert(graph@ =~= map![var@ => TypeMask::of(TypeMask::NAMED_NODE)]);
            combine(Combine::Join, &infer(inner), &graph)
        },
        LogicalPlan::PathClosure { subject, object, .. } => {
            let mut out = VarTypes { masks: Table::new() };
            if let Term::Var(v) = subject {
                out.insert_union(v, TypeMask::from_bits(TypeMask::ANY));
            }
            if let Term::Var(v) = object {
                out.insert_union(v, TypeMask::from_bits(TypeMask::ANY));
            }
            out
        },
    }
}

// ── Laws of the lattice ─────────────────────────────────────────────────────

/// Union is commutative, associative and idempotent, and bound exactly when
/// both masks are.
pub proof fn union_laws(a: TypeMask, b: TypeMask, c: TypeMask)
    ensures
        a.either(b) == b.either(a),
        a.either(b).either(c) == a.either(b.either(c)),
        a.either(a) == a,
        a.either(b).bound() <==> a.bound() && b.bound(),
{
    let (x, y, z) = (a.bits, b.bits, c.bits);
    assert(x | y == y | x) by (bit_vector);
    assert((x | y) | z == x | (y | z)) by (bit_vector);
    assert(x | x == x) by (bit_vector);
    assert(((x | y) & 1u8 == 0) <==> (x & 1u8 == 0 && y & 1u8 == 0)) by (bit_vector);
}

/// A join binds a shared variable as soon as either side does, is
/// commutative, and keeps every kind of one side that the other side's
/// absence lets through.
pub proof fn intersect_laws(a: TypeMask, b: TypeMask)
    ensures
        a.meet(b) == b.meet(a),
        a.meet(b).bound() <==> a.bound() || b.bound(),
        a.bound() && b.bound() ==> a.meet(b).bits == a.bits & b.bits & TypeMask::ANY,
        !b.bound() ==> a.meet(b).bits & a.bits & TypeMask::ANY == a.bits & TypeMask::ANY,
{
    let (x, y) = (a.bits, b.bits);
    let mine = if y & 1u8 != 0 { x & 30u8 } else { 0u8 };
    let theirs = if x & 1u8 != 0 { y & 30u8 } else { 0u8 };
    assert(x & y & 30u8 | mine | theirs | (x & y & 1u8) == y & x & 30u8 | theirs | mine | (y & x & 1u8))
        by (bit_vector);
    assert((mine == 0 || mine == x & 30u8) && (theirs == 0 || theirs == y & 30u8) ==> (((x & y & 30u8
        | mine | theirs | (x & y & 1u8)) & 1u8 == 0) <==> (x & 1u8 == 0 || y & 1u8 == 0)))
        by (bit_vector);
    assert(x & 1u8 == 0 && y & 1u8 == 0 && mine == 0 && theirs == 0 ==> (x & y & 30u8 | mine | theirs
        | (x & y & 1u8)) == x & y & 30u8) by (bit_vector);
    assert(mine == x & 30u8 ==> (x & y & 30u8 | mine | theirs | (x & y & 1u8)) & x & 30u8 == x
        & 30u8) by (bit_vector);
}

}
