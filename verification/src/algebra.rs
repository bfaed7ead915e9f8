//! The SPARQL algebra: terms, triple patterns, expressions, aggregates and
//! the operator tree a query stands for.
//!
//! Each executable type has a mathematical twin (the `…View` types) in which
//! strings are character sequences and vectors are sequences. Contracts speak
//! of the twins.

use crate::text::Text;
use vstd::prelude::*;

verus! {

/// The hidden source column of a path-closure edge relation.
pub const PATH_SRC_VAR: &'static str = "?pp_src";

/// The hidden destination column of a path-closure edge relation.
pub const PATH_DST_VAR: &'static str = "?pp_dst";

/// A query variable, by name (without a sigil for user variables).
#[derive(Debug, PartialEq, Eq, Hash, PartialOrd, Ord)]
pub struct Var {
    pub name: String,
}

/// An RDF term, or a variable standing for one.
#[derive(Debug, PartialEq, Eq, Hash)]
pub enum Term {
    Iri(String),
    /// A literal in its N-Triples lexical form (quotes and suffix included).
    Literal(String),
    BlankNode(String),
    Var(Var),
    /// An RDF 1.2 triple term.
    Triple(Box<TriplePattern>),
}

#[derive(Debug, PartialEq, Eq, Hash)]
pub struct TriplePattern {
    pub subject: Term,
    pub predicate: Term,
    pub object: Term,
}

/// A builtin function.
#[derive(Debug, Clone, Copy, PartialEq, Eq, Structural)]
pub enum Func {
    Str,
    Lang,
    LangMatches,
    Datatype,
    StrLen,
    SubStr,
    UCase,
    LCase,
    StrStarts,
    StrEnds,
    Contains,
    StrBefore,
    StrAfter,
    Concat,
    Replace,
    Regex,
    Abs,
    Ceil,
    Floor,
    Round,
    IsIri,
    IsBlank,
    IsLiteral,
    IsNumeric,
    Year,
    Month,
    Day,
    Hours,
    Minutes,
    Seconds,
}

/// A filter or projection expression.
#[allow(inconsistent_fields)]
#[derive(Debug, PartialEq)]
pub enum Expr {
    Term(Term),
    Bound(Var),
    Eq(Box<Expr>, Box<Expr>),
    SameTerm(Box<Expr>, Box<Expr>),
    Ne(Box<Expr>, Box<Expr>),
    Lt(Box<Expr>, Box<Expr>),
    Gt(Box<Expr>, Box<Expr>),
    Le(Box<Expr>, Box<Expr>),
    Ge(Box<Expr>, Box<Expr>),
    And(Box<Expr>, Box<Expr>),
    Or(Box<Expr>, Box<Expr>),
    Not(Box<Expr>),
    Add(Box<Expr>, Box<Expr>),
    Sub(Box<Expr>, Box<Expr>),
    Mul(Box<Expr>, Box<Expr>),
    Div(Box<Expr>, Box<Expr>),
    Neg(Box<Expr>),
    If(Box<Expr>, Box<Expr>, Box<Expr>),
    In(Box<Expr>, Vec<Expr>),
    Coalesce(Vec<Expr>),
    Func(Func, Vec<Expr>),
}

/// An aggregate function over a group of solutions.
#[allow(inconsistent_fields)]
#[derive(Debug, PartialEq)]
pub enum AggFunc {
    CountStar,
    Count(Box<Expr>),
    Sum(Box<Expr>),
    Avg(Box<Expr>),
    Min(Box<Expr>),
    Max(Box<Expr>),
    Sample(Box<Expr>),
    GroupConcat { expr: Box<Expr>, separator: String },
}

/// One aggregate of a `GROUP BY`: the function and its output variable.
#[allow(inconsistent_fields)]
#[derive(Debug, PartialEq)]
pub struct Aggregate {
    pub out: Var,
    pub func: AggFunc,
    pub distinct: bool,
}

#[derive(Debug, Clone, Copy, PartialEq, Eq, Structural)]
pub enum OrderDir {
    Asc,
    Desc,
}

/// The graph a `GRAPH` block names: a ground IRI or a variable.
#[derive(Debug, PartialEq, Eq)]
pub enum GraphSpec {
    Iri(String),
    Var(Var),
}

/// The graph a scan leaf reads.
#[derive(Debug, PartialEq, Eq)]
pub enum GraphScope {
    DefaultGraph,
    Named(GraphSpec),
}

/// The dataset a query names through `FROM` / `FROM NAMED`.
#[derive(Debug, PartialEq, Eq)]
pub struct DatasetSpec {
    /// The graphs merged into the default graph, when `FROM` was written.
    pub default: Option<Vec<String>>,
    /// The graphs `GRAPH` may range over, when `FROM NAMED` was written.
    pub named: Option<Vec<String>>,
}

/// The algebra tree of a query's pattern.
#[allow(inconsistent_fields)]
#[derive(Debug, PartialEq)]
pub enum Algebra {
    Bgp { patterns: Vec<TriplePattern> },
    Join { left: Box<Algebra>, right: Box<Algebra> },
    LeftJoin { left: Box<Algebra>, right: Box<Algebra>, expr: Option<Expr> },
    Minus { left: Box<Algebra>, right: Box<Algebra> },
    Filter { expr: Expr, inner: Box<Algebra> },
    Union { left: Box<Algebra>, right: Box<Algebra> },
    Project { vars: Vec<Var>, inner: Box<Algebra> },
    Distinct { inner: Box<Algebra> },
    Slice { inner: Box<Algebra>, start: usize, length: Option<usize> },
    OrderBy { inner: Box<Algebra>, keys: Vec<(Expr, OrderDir)> },
    Extend { inner: Box<Algebra>, var: Var, expr: Expr },
    Values { vars: Vec<Var>, rows: Vec<Vec<Option<Term>>> },
    Group { inner: Box<Algebra>, keys: Vec<Var>, aggregates: Vec<Aggregate> },
    PathClosure { subject: Term, object: Term, edge: Box<Algebra>, reflexive: bool },
    Graph { name: GraphSpec, inner: Box<Algebra> },
}

// ── Mathematical twins ──────────────────────────────────────────────────────

#[allow(inconsistent_fields)]
#[verifier::ext_equal]
pub enum TermView {
    Iri(Text),
    Literal(Text),
    BlankNode(Text),
    Var(Text),
    Triple(Box<PatternView>),
}

#[allow(inconsistent_fields)]
#[verifier::ext_equal]
pub struct PatternView {
    pub subject: TermView,
    pub predicate: TermView,
    pub object: TermView,
}

#[allow(inconsistent_fields)]
#[verifier::ext_equal]
pub enum ExprView {
    Term(TermView),
    Bound(Text),
    Eq(Box<ExprView>, Box<ExprView>),
    SameTerm(Box<ExprView>, Box<ExprView>),
    Ne(Box<ExprView>, Box<ExprView>),
    Lt(Box<ExprView>, Box<ExprView>),
    Gt(Box<ExprView>, Box<ExprView>),
    Le(Box<ExprView>, Box<ExprView>),
    Ge(Box<ExprView>, Box<ExprView>),
    And(Box<ExprView>, Box<ExprView>),
    Or(Box<ExprView>, Box<ExprView>),
    Not(Box<ExprView>),
    Add(Box<ExprView>, Box<ExprView>),
    Sub(Box<ExprView>, Box<ExprView>),
    Mul(Box<ExprView>, Box<ExprView>),
    Div(Box<ExprView>, Box<ExprView>),
    Neg(Box<ExprView>),
    If(Box<ExprView>, Box<ExprView>, Box<ExprView>),
    In(Box<ExprView>, Seq<ExprView>),
    Coalesce(Seq<ExprView>),
    Func(Func, Seq<ExprView>),
}

#[allow(inconsistent_fields)]
#[verifier::ext_equal]
pub enum AggFuncView {
    CountStar,
    Count(ExprView),
    Sum(ExprView),
    Avg(ExprView),
    Min(ExprView),
    Max(ExprView),
    Sample(ExprView),
    GroupConcat { expr: ExprView, separator: Text },
}

#[allow(inconsistent_fields)]
#[verifier::ext_equal]
pub struct AggregateView {
    pub out: Text,
    pub func: AggFuncView,
    pub distinct: bool,
}

#[allow(inconsistent_fields)]
#[verifier::ext_equal]
pub enum GraphSpecView {
    Iri(Text),
    Var(Text),
}

#[allow(inconsistent_fields)]
#[verifier::ext_equal]
pub enum GraphScopeView {
    DefaultGraph,
    Named(GraphSpecView),
}

#[allow(inconsistent_fields)]
#[verifier::ext_equal]
pub struct DatasetView {
    pub default: Option<Seq<Text>>,
    pub named: Option<Seq<Text>>,
}

#[allow(inconsistent_fields)]
#[verifier::ext_equal]
pub enum AlgebraView {
    Bgp { patterns: Seq<PatternView> },
    Join { left: Box<AlgebraView>, right: Box<AlgebraView> },
    LeftJoin { left: Box<AlgebraView>, right: Box<AlgebraView>, expr: Option<ExprView> },
    Minus { left: Box<AlgebraView>, right: Box<AlgebraView> },
    Filter { expr: ExprView, inner: Box<AlgebraView> },
    Union { left: Box<AlgebraView>, right: Box<AlgebraView> },
    Project { vars: Seq<Text>, inner: Box<AlgebraView> },
    Distinct { inner: Box<AlgebraView> },
    Slice { inner: Box<AlgebraView>, start: usize, length: Option<usize> },
    OrderBy { inner: Box<AlgebraView>, keys: Seq<(ExprView, OrderDir)> },
    Extend { inner: Box<AlgebraView>, var: Text, expr: ExprView },
    Values { vars: Seq<Text>, rows: Seq<Seq<Option<TermView>>> },
    Group { inner: Box<AlgebraView>, keys: Seq<Text>, aggregates: Seq<AggregateView> },
    PathClosure { subject: TermView, object: TermView, edge: Box<AlgebraView>, reflexive: bool },
    Graph { name: GraphSpecView, inner: Box<AlgebraView> },
}

impl Var {
    pub open spec fn view(&self) -> Text {
        self.name@
    }

    pub fn new(name: &str) -> (r: Var)
        ensures
            r@ == name@,
    {
        Var { name: name.to_owned() }
    }

    pub fn name(&self) -> (r: &str)
        ensures
            r@ == self@,
    {
        self.name.as_str()
    }

    /// Do the two variables have the same name?
    pub fn same(&self, other: &Var) -> (r: bool)
        ensures
            r == (self@ == other@),
    {
        self.name == other.name
    }
}

impl Clone for Var {
    fn clone(&self) -> (r: Var)
        ensures
            r == *self,
    {
        Var { name: self.name.clone() }
    }
}

impl Term {
    pub open spec fn view(&self) -> TermView
        decreases self,
    {
        match *self {
            Term::Iri(s) => TermView::Iri(s@),
            Term::Literal(s) => TermView::Literal(s@),
            Term::BlankNode(s) => TermView::BlankNode(s@),
            Term::Var(v) => TermView::Var(v@),
            Term::Triple(tp) => TermView::Triple(Box::new(tp.view())),
        }
    }

    /// Are the two terms structurally equal?
    pub fn same(&self, other: &Term) -> (r: bool)
        ensures
            r == (self@ == other@),
        decreases self,
    {
        match (self, other) {
            (Term::Iri(a), Term::Iri(b)) => *a == *b,
            (Term::Literal(a), Term::Literal(b)) => *a == *b,
            (Term::BlankNode(a), Term::BlankNode(b)) => *a == *b,
            (Term::Var(a), Term::Var(b)) => a.same(b),
            (Term::Triple(a), Term::Triple(b)) => a.same(b),
            _ => false,
        }
    }
}

impl Clone for Term {
    fn clone(&self) -> (r: Term)
        ensures
            r == *self,
        decreases self,
    {
        match self {
            Term::Iri(s) => Term::Iri(s.clone()),
            Term::Literal(s) => Term::Literal(s.clone()),
            Term::BlankNode(s) => Term::BlankNode(s.clone()),
            Term::Var(v) => Term::Var(v.clone()),
            Term::Triple(tp) => Term::Triple(Box::new((&**tp).clone())),
        }
    }
}

impl TriplePattern {
    pub open spec fn view(&self) -> PatternView
        decreases self,
    {
        PatternView {
            subject: self.subject.view(),
            predicate: self.predicate.view(),
            object: self.object.view(),
        }
    }

    pub fn same(&self, other: &TriplePattern) -> (r: bool)
        ensures
            r == (self@ == other@),
        decreases self,
    {
        self.subject.same(&other.subject) && self.predicate.same(&other.predicate)
            && self.object.same(&other.object)
    }
}

impl Clone for TriplePattern {
    fn clone(&self) -> (r: TriplePattern)
        ensures
            r == *self,
        decreases self,
    {
        TriplePattern {
            subject: self.subject.clone(),
            predicate: self.predicate.clone(),
            object: self.object.clone(),
        }
    }
}

/// The views of a sequence of expressions.
pub open spec fn exprs_view(s: Seq<Expr>) -> Seq<ExprView>
    decreases s,
{
    Seq::new(
        s.len(),
        |i: int|
            if 0 <= i < s.len() {
                s[i].view()
            } else {
                arbitrary()
            },
    )
}

impl Expr {
    pub open spec fn view(&self) -> ExprView
        decreases self,
    {
        match *self {
            Expr::Term(t) => ExprView::Term(t@),
            Expr::Bound(v) => ExprView::Bound(v@),
            Expr::Eq(a, b) => ExprView::Eq(Box::new(a.view()), Box::new(b.view())),
            Expr::SameTerm(a, b) => ExprView::SameTerm(Box::new(a.view()), Box::new(b.view())),
            Expr::Ne(a, b) => ExprView::Ne(Box::new(a.view()), Box::new(b.view())),
            Expr::Lt(a, b) => ExprView::Lt(Box::new(a.view()), Box::new(b.view())),
            Expr::Gt(a, b) => ExprView::Gt(Box::new(a.view()), Box::new(b.view())),
            Expr::Le(a, b) => ExprView::Le(Box::new(a.view()), Box::new(b.view())),
            Expr::Ge(a, b) => ExprView::Ge(Box::new(a.view()), Box::new(b.view())),
            Expr::And(a, b) => ExprView::And(Box::new(a.view()), Box::new(b.view())),
            Expr::Or(a, b) => ExprView::Or(Box::new(a.view()), Box::new(b.view())),
            Expr::Not(a) => ExprView::Not(Box::new(a.view())),
            Expr::Add(a, b) => ExprView::Add(Box::new(a.view()), Box::new(b.view())),
            Expr::Sub(a, b) => ExprView::Sub(Box::new(a.view()), Box::new(b.view())),
            Expr::Mul(a, b) => ExprView::Mul(Box::new(a.view()), Box::new(b.view())),
            Expr::Div(a, b) => ExprView::Div(Box::new(a.view()), Box::new(b.view())),
            Expr::Neg(a) => ExprView::Neg(Box::new(a.view())),
            Expr::If(a, b, c) => ExprView::If(
                Box::new(a.view()),
                Box::new(b.view()),
                Box::new(c.view()),
            ),
            Expr::In(a, es) => ExprView::In(Box::new(a.view()), exprs_view(es@)),
            Expr::Coalesce(es) => ExprView::Coalesce(exprs_view(es@)),
            Expr::Func(f, es) => ExprView::Func(f, exprs_view(es@)),
        }
    }
}

fn clone_exprs(es: &Vec<Expr>) -> (r: Vec<Expr>)
    ensures
        exprs_view(r@) == exprs_view(es@),
    decreases es,
{
    let mut out: Vec<Expr> = Vec::new();
    let mut i: usize = 0;
    while i < es.len()
        invariant
            i <= es@.len(),
            out@.len() == i,
            forall|j: int| 0 <= j < i ==> (#[trigger] out@[j]).view() == es@[j].view(),
        decreases es@.len() - i,
    {
        let e = (&es[i]).clone();
        out.push(e);
        i = i + 1;
    }
    assert(exprs_view(out@) =~= exprs_view(es@));
    out
}

impl Clone for Expr {
    fn clone(&self) -> (r: Expr)
        ensures
            r@ == self@,
        decreases self,
    {
        match self {
            Expr::Term(t) => Expr::Term(t.clone()),
            Expr::Bound(v) => Expr::Bound(v.clone()),
            Expr::Eq(a, b) => Expr::Eq(Box::new((&**a).clone()), Box::new((&**b).clone())),
            Expr::SameTerm(a, b) => Expr::SameTerm(
                Box::new((&**a).clone()),
                Box::new((&**b).clone()),
            ),
            Expr::Ne(a, b) => Expr::Ne(Box::new((&**a).clone()), Box::new((&**b).clone())),
            Expr::Lt(a, b) => Expr::Lt(Box::new((&**a).clone()), Box::new((&**b).clone())),
            Expr::Gt(a, b) => Expr::Gt(Box::new((&**a).clone()), Box::new((&**b).clone())),
            Expr::Le(a, b) => Expr::Le(Box::new((&**a).clone()), Box::new((&**b).clone())),
            Expr::Ge(a, b) => Expr::Ge(Box::new((&**a).clone()), Box::new((&**b).clone())),
            Expr::And(a, b) => Expr::And(Box::new((&**a).clone()), Box::new((&**b).clone())),
            Expr::Or(a, b) => Expr::Or(Box::new((&**a).clone()), Box::new((&**b).clone())),
            Expr::Not(a) => Expr::Not(Box::new((&**a).clone())),
            Expr::Add(a, b) => Expr::Add(Box::new((&**a).clone()), Box::new((&**b).clone())),
            Expr::Sub(a, b) => Expr::Sub(Box::new((&**a).clone()), Box::new((&**b).clone())),
            Expr::Mul(a, b) => Expr::Mul(Box::new((&**a).clone()), Box::new((&**b).clone())),
            Expr::Div(a, b) => Expr::Div(Box::new((&**a).clone()), Box::new((&**b).clone())),
            Expr::Neg(a) => Expr::Neg(Box::new((&**a).clone())),
            Expr::If(a, b, c) => Expr::If(
                Box::new((&**a).clone()),
                Box::new((&**b).clone()),
                Box::new((&**c).clone()),
            ),
            Expr::In(a, es) => Expr::In(Box::new((&**a).clone()), clone_exprs(es)),
            Expr::Coalesce(es) => Expr::Coalesce(clone_exprs(es)),
            Expr::Func(f, es) => Expr::Func(*f, clone_exprs(es)),
        }
    }
}

// ── Views of collections ────────────────────────────────────────────────────

/// The names of a sequence of variables.
pub open spec fn names(s: Seq<Var>) -> Seq<Text> {
    Seq::new(s.len(), |i: int| s[i]@)
}

/// Pushing a variable pushes its name.
pub proof fn names_push(s: Seq<Var>, v: Var)
    ensures
        names(s.push(v)) == names(s).push(v@),
{
    assert(names(s.push(v)) =~= names(s).push(v@));
}

/// The texts of a sequence of strings.
pub open spec fn texts(s: Seq<String>) -> Seq<Text> {
    Seq::new(s.len(), |i: int| s[i]@)
}

pub open spec fn patterns_view(s: Seq<TriplePattern>) -> Seq<PatternView> {
    Seq::new(s.len(), |i: int| s[i]@)
}

pub open spec fn terms_view(s: Seq<Term>) -> Seq<TermView> {
    Seq::new(s.len(), |i: int| s[i]@)
}

pub open spec fn opt_term_view(o: Option<Term>) -> Option<TermView> {
    match o {
        Some(t) => Some(t@),
        None => None,
    }
}

pub open spec fn opt_expr_view(o: Option<Expr>) -> Option<ExprView> {
    match o {
        Some(e) => Some(e@),
        None => None,
    }
}

pub open spec fn cells_view(s: Seq<Option<Term>>) -> Seq<Option<TermView>> {
    Seq::new(s.len(), |i: int| opt_term_view(s[i]))
}

pub open spec fn rows_view(s: Seq<Vec<Option<Term>>>) -> Seq<Seq<Option<TermView>>> {
    Seq::new(s.len(), |i: int| cells_view(s[i]@))
}

pub open spec fn order_keys_view(s: Seq<(Expr, OrderDir)>) -> Seq<(ExprView, OrderDir)> {
    Seq::new(s.len(), |i: int| (s[i].0@, s[i].1))
}

pub open spec fn aggregates_view(s: Seq<Aggregate>) -> Seq<AggregateView> {
    Seq::new(s.len(), |i: int| s[i]@)
}

impl AggFunc {
    pub open spec fn view(&self) -> AggFuncView {
        match *self {
            AggFunc::CountStar => AggFuncView::CountStar,
            AggFunc::Count(e) => AggFuncView::Count(e@),
            AggFunc::Sum(e) => AggFuncView::Sum(e@),
            AggFunc::Avg(e) => AggFuncView::Avg(e@),
            AggFunc::Min(e) => AggFuncView::Min(e@),
            AggFunc::Max(e) => AggFuncView::Max(e@),
            AggFunc::Sample(e) => AggFuncView::Sample(e@),
            AggFunc::GroupConcat { expr, separator } => AggFuncView::GroupConcat {
                expr: expr@,
                separator: separator@,
            },
        }
    }
}

impl Clone for AggFunc {
    fn clone(&self) -> (r: AggFunc)
        ensures
            r@ == self@,
    {
        match self {
            AggFunc::CountStar => AggFunc::CountStar,
            AggFunc::Count(e) => AggFunc::Count(Box::new((&**e).clone())),
            AggFunc::Sum(e) => AggFunc::Sum(Box::new((&**e).clone())),
            AggFunc::Avg(e) => AggFunc::Avg(Box::new((&**e).clone())),
            AggFunc::Min(e) => AggFunc::Min(Box::new((&**e).clone())),
            AggFunc::Max(e) => AggFunc::Max(Box::new((&**e).clone())),
            AggFunc::Sample(e) => AggFunc::Sample(Box::new((&**e).clone())),
            AggFunc::GroupConcat { expr, separator } => AggFunc::GroupConcat {
                expr: Box::new((&**expr).clone()),
                separator: separator.clone(),
            },
        }
    }
}

impl Aggregate {
    pub open spec fn view(&self) -> AggregateView {
        AggregateView { out: self.out@, func: self.func@, distinct: self.distinct }
    }
}

impl Clone for Aggregate {
    fn clone(&self) -> (r: Aggregate)
        ensures
            r@ == self@,
    {
        Aggregate { out: self.out.clone(), func: self.func.clone(), distinct: self.distinct }
    }
}

impl GraphSpec {
    pub open spec fn view(&self) -> GraphSpecView {
        match *self {
            GraphSpec::Iri(s) => GraphSpecView::Iri(s@),
            GraphSpec::Var(v) => GraphSpecView::Var(v@),
        }
    }

    pub fn same(&self, other: &GraphSpec) -> (r: bool)
        ensures
            r == (self@ == other@),
    {
        match (self, other) {
            (GraphSpec::Iri(a), GraphSpec::Iri(b)) => *a == *b,
            (GraphSpec::Var(a), GraphSpec::Var(b)) => a.same(b),
            _ => false,
        }
    }
}

impl Clone for GraphSpec {
    fn clone(&self) -> (r: GraphSpec)
        ensures
            r == *self,
    {
        match self {
            GraphSpec::Iri(s) => GraphSpec::Iri(s.clone()),
            GraphSpec::Var(v) => GraphSpec::Var(v.clone()),
        }
    }
}

impl GraphScope {
    pub open spec fn view(&self) -> GraphScopeView {
        match *self {
            GraphScope::DefaultGraph => GraphScopeView::DefaultGraph,
            GraphScope::Named(g) => GraphScopeView::Named(g@),
        }
    }

    pub fn same(&self, other: &GraphScope) -> (r: bool)
        ensures
            r == (self@ == other@),
    {
        match (self, other) {
            (GraphScope::DefaultGraph, GraphScope::DefaultGraph) => true,
            (GraphScope::Named(a), GraphScope::Named(b)) => a.same(b),
            _ => false,
        }
    }
}

impl Clone for GraphScope {
    fn clone(&self) -> (r: GraphScope)
        ensures
            r == *self,
    {
        match self {
            GraphScope::DefaultGraph => GraphScope::DefaultGraph,
            GraphScope::Named(g) => GraphScope::Named(g.clone()),
        }
    }
}

impl DatasetSpec {
    pub open spec fn view(&self) -> DatasetView {
        DatasetView {
            default: match self.default {
                Some(v) => Some(texts(v@)),
                None => None,
            },
            named: match self.named {
                Some(v) => Some(texts(v@)),
                None => None,
            },
        }
    }

    /// A query with no dataset clause.
    pub fn none() -> (r: DatasetSpec)
        ensures
            r@ == (DatasetView { default: None, named: None }),
    {
        DatasetSpec { default: None, named: None }
    }
}

impl Default for DatasetSpec {
    fn default() -> (r: DatasetSpec)
        ensures
            r@ == (DatasetView { default: None, named: None }),
    {
        DatasetSpec::none()
    }
}

impl Clone for DatasetSpec {
    fn clone(&self) -> (r: DatasetSpec)
        ensures
            r@ == self@,
    {
        let default = match &self.default {
            Some(v) => Some(clone_strings(v)),
            None => None,
        };
        let named = match &self.named {
            Some(v) => Some(clone_strings(v)),
            None => None,
        };
        DatasetSpec { default, named }
    }
}

impl Algebra {
    pub open spec fn view(&self) -> AlgebraView
        decreases self,
    {
        match *self {
            Algebra::Bgp { patterns } => AlgebraView::Bgp { patterns: patterns_view(patterns@) },
            Algebra::Join { left, right } => AlgebraView::Join {
                left: Box::new(left.view()),
                right: Box::new(right.view()),
            },
            Algebra::LeftJoin { left, right, expr } => AlgebraView::LeftJoin {
                left: Box::new(left.view()),
                right: Box::new(right.view()),
                expr: opt_expr_view(expr),
            },
            Algebra::Minus { left, right } => AlgebraView::Minus {
                left: Box::new(left.view()),
                right: Box::new(right.view()),
            },
            Algebra::Filter { expr, inner } => AlgebraView::Filter {
                expr: expr@,
                inner: Box::new(inner.view()),
            },
            Algebra::Union { left, right } => AlgebraView::Union {
                left: Box::new(left.view()),
                right: Box::new(right.view()),
            },
            Algebra::Project { vars, inner } => AlgebraView::Project {
                vars: names(vars@),
                inner: Box::new(inner.view()),
            },
            Algebra::Distinct { inner } => AlgebraView::Distinct { inner: Box::new(inner.view()) },
            Algebra::Slice { inner, start, length } => AlgebraView::Slice {
                inner: Box::new(inner.view()),
                start,
                length,
            },
            Algebra::OrderBy { inner, keys } => AlgebraView::OrderBy {
                inner: Box::new(inner.view()),
                keys: order_keys_view(keys@),
            },
            Algebra::Extend { inner, var, expr } => AlgebraView::Extend {
                inner: Box::new(inner.view()),
                var: var@,
                expr: expr@,
            },
            Algebra::Values { vars, rows } => AlgebraView::Values {
                vars: names(vars@),
                rows: rows_view(rows@),
            },
            Algebra::Group { inner, keys, aggregates } => AlgebraView::Group {
                inner: Box::new(inner.view()),
                keys: names(keys@),
                aggregates: aggregates_view(aggregates@),
            },
            Algebra::PathClosure { subject, object, edge, reflexive } => AlgebraView::PathClosure {
                subject: subject@,
                object: object@,
                edge: Box::new(edge.view()),
                reflexive,
            },
            Algebra::Graph { name, inner } => AlgebraView::Graph {
                name: name@,
                inner: Box::new(inner.view()),
            },
        }
    }
}

// ── Copies of collections ───────────────────────────────────────────────────

pub fn clone_vars(s: &Vec<Var>) -> (r: Vec<Var>)
    ensures
        r@ == s@,
{
    let mut out: Vec<Var> = Vec::new();
    let mut i: usize = 0;
    while i < s.len()
        invariant
            i <= s@.len(),
            out@ == s@.take(i as int),
        decreases s@.len() - i,
    {
        out.push(s[i].clone());
        assert(s@.take(i + 1) =~= s@.take(i as int).push(s@[i as int]));
        i = i + 1;
    }
    assert(s@.take(s@.len() as int) =~= s@);
    out
}

pub fn clone_strings(s: &Vec<String>) -> (r: Vec<String>)
    ensures
        r@ == s@,
{
    let mut out: Vec<String> = Vec::new();
    let mut i: usize = 0;
    while i < s.len()
        invariant
            i <= s@.len(),
            out@ == s@.take(i as int),
        decreases s@.len() - i,
    {
        out.push(s[i].clone());
        assert(s@.take(i + 1) =~= s@.take(i as int).push(s@[i as int]));
        i = i + 1;
    }
    assert(s@.take(s@.len() as int) =~= s@);
    out
}

pub fn clone_patterns(s: &Vec<TriplePattern>) -> (r: Vec<TriplePattern>)
    ensures
        r@ == s@,
{
    let mut out: Vec<TriplePattern> = Vec::new();
    let mut i: usize = 0;
    while i < s.len()
        invariant
            i <= s@.len(),
            out@ == s@.take(i as int),
        decreases s@.len() - i,
    {
        out.push(s[i].clone());
        assert(s@.take(i + 1) =~= s@.take(i as int).push(s@[i as int]));
        i = i + 1;
    }
    assert(s@.take(s@.len() as int) =~= s@);
    out
}

pub fn clone_opt_expr(o: &Option<Expr>) -> (r: Option<Expr>)
    ensures
        opt_expr_view(r) == opt_expr_view(*o),
{
    match o {
        Some(e) => Some(e.clone()),
        None => None,
    }
}

pub fn clone_cells(s: &Vec<Option<Term>>) -> (r: Vec<Option<Term>>)
    ensures
        r@ == s@,
{
    let mut out: Vec<Option<Term>> = Vec::new();
    let mut i: usize = 0;
    while i < s.len()
        invariant
            i <= s@.len(),
            out@ == s@.take(i as int),
        decreases s@.len() - i,
    {
        let cell = match &s[i] {
            Some(t) => Some(t.clone()),
            None => None,
        };
        out.push(cell);
        assert(s@.take(i + 1) =~= s@.take(i as int).push(s@[i as int]));
        i = i + 1;
    }
    assert(s@.take(s@.len() as int) =~= s@);
    out
}

pub fn clone_rows(s: &Vec<Vec<Option<Term>>>) -> (r: Vec<Vec<Option<Term>>>)
    ensures
        rows_view(r@) == rows_view(s@),
{
    let mut out: Vec<Vec<Option<Term>>> = Vec::new();
    let mut i: usize = 0;
    while i < s.len()
        invariant
            i <= s@.len(),
            out@.len() == i,
            forall|j: int| 0 <= j < i ==> (#[trigger] out@[j])@ == s@[j]@,
        decreases s@.len() - i,
    {
        out.push(clone_cells(&s[i]));
        i = i + 1;
    }
    assert(rows_view(out@) =~= rows_view(s@));
    out
}

pub fn clone_order_keys(s: &Vec<(Expr, OrderDir)>) -> (r: Vec<(Expr, OrderDir)>)
    ensures
        order_keys_view(r@) == order_keys_view(s@),
{
    let mut out: Vec<(Expr, OrderDir)> = Vec::new();
    let mut i: usize = 0;
    while i < s.len()
        invariant
            i <= s@.len(),
            out@.len() == i,
            forall|j: int|
                0 <= j < i ==> (#[trigger] out@[j]).0@ == s@[j].0@ && out@[j].1 == s@[j].1,
        decreases s@.len() - i,
    {
        let e = s[i].0.clone();
        let d = s[i].1;
        out.push((e, d));
        i = i + 1;
    }
    assert(order_keys_view(out@) =~= order_keys_view(s@));
    out
}

pub fn clone_aggregates(s: &Vec<Aggregate>) -> (r: Vec<Aggregate>)
    ensures
        aggregates_view(r@) == aggregates_view(s@),
{
    let mut out: Vec<Aggregate> = Vec::new();
    let mut i: usize = 0;
    while i < s.len()
        invariant
            i <= s@.len(),
            out@.len() == i,
            forall|j: int| 0 <= j < i ==> (#[trigger] out@[j])@ == s@[j]@,
        decreases s@.len() - i,
    {
        out.push(s[i].clone());
        i = i + 1;
    }
    assert(aggregates_view(out@) =~= aggregates_view(s@));
    out
}

}
