//! Sorting rows by resolved keys: a stable full sort, and the first rows of
//! it by a bounded heap.

use crate::algebra::{OrderDir, Term};
use crate::exec::literal::{literal_value, number_of, value_of};
use crate::exec::number::Numbers;
use crate::text::{compare_text, text_order, text_order_laws, trim, Order, Text};
use vstd::prelude::*;

verus! {

/// A resolved sort value: the number it reads as, if any, and its text.
pub struct SortVal<N: Numbers> {
    pub num: Option<N::Num>,
    pub lex: String,
}

impl<N: Numbers> SortVal<N> {
    /// The sort value of a term.
    pub fn of(t: &Term) -> (r: SortVal<N>)
        ensures
            r.num == number_of::<N>(t@),
            r.lex@ == value_of(t@),
    {
        let lex = literal_value(t);
        let s = trim(lex.as_str());
        let num = N::parse(s.as_str());
        SortVal { num, lex }
    }
}

/// One sort key resolved for every row; `None` where the key has no value.
pub enum SortCol<N: Numbers> {
    /// Every value is a number.
    Num(Vec<Option<N::Num>>),
    /// No value is a number.
    Lex(Vec<Option<String>>),
    /// Numbers and other values.
    Mixed(Vec<Option<SortVal<N>>>),
}

/// The order of two cells: a missing value comes first.
pub open spec fn missing_first<A>(a: Option<A>, b: Option<A>, present: Order) -> Order {
    match (a, b) {
        (Some(_), Some(_)) => present,
        (None, Some(_)) => Order::Less,
        (Some(_), None) => Order::Greater,
        (None, None) => Order::Equal,
    }
}

/// The order of two sort values: as numbers where both are.
pub open spec fn value_order<N: Numbers>(
    an: Option<N::Num>,
    al: Text,
    bn: Option<N::Num>,
    bl: Text,
) -> Order {
    match (an, bn) {
        (Some(p), Some(q)) => N::order(p, q),
        _ => text_order(al, bl),
    }
}

impl<N: Numbers> SortCol<N> {
    pub open spec fn len(&self) -> nat {
        match *self {
            SortCol::Num(v) => v@.len(),
            SortCol::Lex(v) => v@.len(),
            SortCol::Mixed(v) => v@.len(),
        }
    }

    /// How two rows compare in this column.
    pub open spec fn order(&self, a: int, b: int) -> Order {
        match *self {
            SortCol::Num(v) => missing_first(v@[a], v@[b], N::order(v@[a]->0, v@[b]->0)),
            SortCol::Lex(v) => missing_first(v@[a], v@[b], text_order(v@[a]->0@, v@[b]->0@)),
            SortCol::Mixed(v) => missing_first(
                v@[a],
                v@[b],
                value_order::<N>(
                    (v@[a]->0).num,
                    (v@[a]->0).lex@,
                    (v@[b]->0).num,
                    (v@[b]->0).lex@,
                ),
            ),
        }
    }

    /// Is the column's comparison known to be a total order? Comparing numbers
    /// as numbers and all else as text is not transitive, nor is a number
    /// outside the order.
    pub open spec fn total(&self) -> bool {
        match *self {
            SortCol::Num(v) => forall|i: int|
                0 <= i < v@.len() ==> ((#[trigger] v@[i]) matches Some(n) ==> !N::unordered(n)),
            SortCol::Lex(_) => true,
            SortCol::Mixed(_) => false,
        }
    }

    /// Narrows a resolved column.
    pub fn classify(vals: Vec<Option<SortVal<N>>>) -> (r: SortCol<N>)
        ensures
            r.len() == vals@.len(),
            forall|a: int, b: int|
                0 <= a < vals@.len() && 0 <= b < vals@.len() ==> #[trigger] r.order(a, b)
                    == missing_first(
                    vals@[a],
                    vals@[b],
                    value_order::<N>(
                        (vals@[a]->0).num,
                        (vals@[a]->0).lex@,
                        (vals@[b]->0).num,
                        (vals@[b]->0).lex@,
                    ),
                ),
            r is Num <==> forall|i: int|
                0 <= i < vals@.len() ==> ((#[trigger] vals@[i]) matches Some(v) ==> v.num is Some),
            r is Lex <==> !(r is Num) && forall|i: int|
                0 <= i < vals@.len() ==> ((#[trigger] vals@[i]) matches Some(v) ==> v.num is None),
    {
        let ghost all = vals@;
        let mut all_num = true;
        let mut no_num = true;
        let mut i: usize = 0;
        while i < vals.len()
            invariant
                i <= vals@.len(),
                all == vals@,
                all_num <==> forall|j: int|
                    0 <= j < i ==> ((#[trigger] all[j]) matches Some(v) ==> v.num is Some),
                no_num <==> forall|j: int|
                    0 <= j < i ==> ((#[trigger] all[j]) matches Some(v) ==> v.num is None),
            decreases vals@.len() - i,
        {
            match &vals[i] {
                Some(v) => {
                    match v.num {
                        Some(_) => {
                            assert(!(all[i as int] matches Some(v) ==> v.num is None));
                            no_num = false;
                        },
                        None => {
                            assert(!(all[i as int] matches Some(v) ==> v.num is Some));
                            all_num = false;
                        },
                    }
                },
                None => {},
            }
            i = i + 1;
        }
        if all_num {
            let mut out: Vec<Option<N::Num>> = Vec::new();
            for v in it: vals
                invariant
                    it.seq() == all,
                    out@.len() == it.index(),
                    forall|j: int|
                        0 <= j < it.index() ==> #[trigger] out@[j] == (match all[j] {
                            Some(v) => v.num,
                            None => None,
                        }),
            {
                match v {
                    Some(v) => out.push(v.num),
                    None => out.push(None),
                }
            }
            SortCol::Num(out)
        } else if no_num {
            let mut out: Vec<Option<String>> = Vec::new();
            for v in it: vals
                invariant
                    it.seq() == all,
                    out@.len() == it.index(),
                    forall|j: int|
                        0 <= j < it.index() ==> (match all[j] {
                            Some(v) => (#[trigger] out@[j]) is Some && out@[j]->0@ == v.lex@,
                            None => out@[j] is None,
                        }),
            {
                match v {
                    Some(v) => out.push(Some(v.lex)),
                    None => out.push(None),
                }
            }
            SortCol::Lex(out)
        } else {
            SortCol::Mixed(vals)
        }
    }

    #[verifier::loop_isolation(false)]
    pub fn is_total_order(&self) -> (r: bool)
        ensures
            r == self.total(),
    {
        match self {
            SortCol::Num(v) => {
                let mut i: usize = 0;
                while i < v.len()
                    invariant
                        i <= v@.len(),
                        forall|j: int|
                            0 <= j < i ==> ((#[trigger] v@[j]) matches Some(n) ==> !N::unordered(
                                n,
                            )),
                    decreases v@.len() - i,
                {
                    match &v[i] {
                        Some(n) => {
                            if N::is_unordered(n) {
                                assert(!(v@[i as int] matches Some(n) ==> !N::unordered(n)));
                                return false;
                            }
                        },
                        None => {},
                    }
                    i = i + 1;
                }
                true
            },
            SortCol::Lex(_) => true,
            SortCol::Mixed(_) => false,
        }
    }

    /// A total column's comparison is a total preorder.
    pub proof fn total_laws(&self, a: int, b: int, c: int)
        requires
            self.total(),
            0 <= a < self.len(),
            0 <= b < self.len(),
            0 <= c < self.len(),
        ensures
            preorder_at(
                self.order(a, a),
                self.order(a, b),
                self.order(b, a),
                self.order(b, c),
                self.order(a, c),
            ),
    {
        match *self {
            SortCol::Num(v) => {
                let x = v@[a];
                let y = v@[b];
                let z = v@[c];
                if x is Some && y is Some && z is Some {
                    N::order_laws(x->0, y->0, z->0);
                }
                if x is Some {
                    N::order_laws(x->0, x->0, x->0);
                }
                if x is Some && y is Some {
                    N::order_laws(x->0, y->0, y->0);
                }
            },
            SortCol::Lex(v) => {
                let (x, y, z) = (v@[a]->0@, v@[b]->0@, v@[c]->0@);
                text_order_laws(x, x, x);
                text_order_laws(x, y, z);
                text_order_laws(y, z, x);
                text_order_laws(x, z, y);
            },
            SortCol::Mixed(_) => {},
        }
    }
}

/// The laws of a total preorder, of three elements `a`, `b` and `c`.
pub open spec fn preorder_at(aa: Order, ab: Order, ba: Order, bc: Order, ac: Order) -> bool {
    &&& aa == Order::Equal
    &&& ba == ab.flipped()
    &&& ab != Order::Greater && bc != Order::Greater ==> ac != Order::Greater
    &&& ab == Order::Less && bc != Order::Greater ==> ac == Order::Less
    &&& ab != Order::Greater && bc == Order::Less ==> ac == Order::Less
}

pub open spec fn directed(o: Order, dir: OrderDir) -> Order {
    match dir {
        OrderDir::Asc => o,
        OrderDir::Desc => o.flipped(),
    }
}

/// How two rows compare: by the first key in which they differ.
pub open spec fn rows_order<N: Numbers>(cols: Seq<(SortCol<N>, OrderDir)>, a: int, b: int) -> Order
    decreases cols.len(),
{
    if cols.len() == 0 {
        Order::Equal
    } else {
        let o = cols[0].0.order(a, b);
        if o != Order::Equal {
            directed(o, cols[0].1)
        } else {
            rows_order(cols.drop_first(), a, b)
        }
    }
}

/// Do all columns cover `rows` rows?
pub open spec fn cover<N: Numbers>(cols: Seq<(SortCol<N>, OrderDir)>, rows: int) -> bool {
    forall|i: int| 0 <= i < cols.len() ==> (#[trigger] cols[i]).0.len() == rows
}

pub open spec fn all_total<N: Numbers>(cols: Seq<(SortCol<N>, OrderDir)>) -> bool {
    forall|i: int| 0 <= i < cols.len() ==> (#[trigger] cols[i]).0.total()
}

fn compare_cells<N: Numbers>(col: &SortCol<N>, a: usize, b: usize) -> (r: Order)
    requires
        a < col.len(),
        b < col.len(),
    ensures
        r == col.order(a as int, b as int),
{
    match col {
        SortCol::Num(v) => match (&v[a], &v[b]) {
            (Some(x), Some(y)) => N::compare(x, y),
            (None, Some(_)) => Order::Less,
            (Some(_), None) => Order::Greater,
            (None, None) => Order::Equal,
        },
        SortCol::Lex(v) => match (&v[a], &v[b]) {
            (Some(x), Some(y)) => compare_text(x.as_str(), y.as_str()),
            (None, Some(_)) => Order::Less,
            (Some(_), None) => Order::Greater,
            (None, None) => Order::Equal,
        },
        SortCol::Mixed(v) => match (&v[a], &v[b]) {
            (Some(x), Some(y)) => match (&x.num, &y.num) {
                (Some(p), Some(q)) => N::compare(p, q),
                _ => compare_text(x.lex.as_str(), y.lex.as_str()),
            },
            (None, Some(_)) => Order::Less,
            (Some(_), None) => Order::Greater,
            (None, None) => Order::Equal,
        },
    }
}

/// Compares two rows by their resolved keys.
pub fn compare_decorated<N: Numbers>(cols: &Vec<(SortCol<N>, OrderDir)>, a: usize, b: usize) -> (r:
    Order)
    requires
        forall|i: int|
            0 <= i < cols@.len() ==> a < (#[trigger] cols@[i]).0.len() && b < cols@[i].0.len(),
    ensures
        r == rows_order(cols@, a as int, b as int),
{
    let mut i: usize = 0;
    assert(cols@.skip(0) =~= cols@);
    while i < cols.len()
        invariant
            i <= cols@.len(),
            forall|i: int|
                0 <= i < cols@.len() ==> a < (#[trigger] cols@[i]).0.len() && b < cols@[i].0.len(),
            rows_order(cols@, a as int, b as int) == rows_order(
                cols@.skip(i as int),
                a as int,
                b as int,
            ),
        decreases cols@.len() - i,
    {
        assert(cols@.skip(i as int)[0] == cols@[i as int]);
        assert(cols@.skip(i as int).drop_first() =~= cols@.skip(i + 1));
        let o = compare_cells(&cols[i].0, a, b);
        if o != Order::Equal {
            return match cols[i].1 {
                OrderDir::Asc => o,
                OrderDir::Desc => o.reverse(),
            };
        }
        i = i + 1;
    }
    Order::Equal
}

/// Total columns make the comparison of rows a total preorder.
pub proof fn rows_order_laws<N: Numbers>(
    cols: Seq<(SortCol<N>, OrderDir)>,
    rows: int,
    a: int,
    b: int,
    c: int,
)
    requires
        all_total(cols),
        cover(cols, rows),
        0 <= a < rows,
        0 <= b < rows,
        0 <= c < rows,
    ensures
        preorder_at(
            rows_order(cols, a, a),
            rows_order(cols, a, b),
            rows_order(cols, b, a),
            rows_order(cols, b, c),
            rows_order(cols, a, c),
        ),
    decreases cols.len(),
{
    if cols.len() > 0 {
        let rest = cols.drop_first();
        assert forall|i: int| 0 <= i < rest.len() implies (#[trigger] rest[i]).0.total()
            && rest[i].0.len() == rows by {
            assert(rest[i] == cols[i + 1]);
        }
        rows_order_laws(rest, rows, a, b, c);
        let col = cols[0].0;
        assert(col.total() && col.len() == rows);
        col.total_laws(a, b, c);
        col.total_laws(c, b, a);
        col.total_laws(b, a, c);
        col.total_laws(a, c, b);
    }
}

/// Does row `a` come after row `b` in a stable sort?
pub open spec fn after<N: Numbers>(cols: Seq<(SortCol<N>, OrderDir)>, a: int, b: int) -> bool {
    match rows_order(cols, a, b) {
        Order::Less => false,
        Order::Greater => true,
        Order::Equal => a > b,
    }
}

/// Coming after is a strict total order on the rows.
pub proof fn after_laws<N: Numbers>(
    cols: Seq<(SortCol<N>, OrderDir)>,
    rows: int,
    a: int,
    b: int,
    c: int,
)
    requires
        all_total(cols),
        cover(cols, rows),
        0 <= a < rows,
        0 <= b < rows,
        0 <= c < rows,
    ensures
        !after(cols, a, a),
        a != b ==> (after(cols, a, b) <==> !after(cols, b, a)),
        after(cols, a, b) && after(cols, b, c) ==> after(cols, a, c),
{
    rows_order_laws(cols, rows, a, b, c);
    rows_order_laws(cols, rows, c, b, a);
    rows_order_laws(cols, rows, a, c, b);
    rows_order_laws(cols, rows, b, a, c);
}

// ── The full sort ───────────────────────────────────────────────────────────

/// Two sorted runs merged; of equal rows the left run's come first.
pub open spec fn merged<N: Numbers>(
    cols: Seq<(SortCol<N>, OrderDir)>,
    a: Seq<usize>,
    b: Seq<usize>,
) -> Seq<usize>
    decreases a.len() + b.len(),
{
    if a.len() == 0 {
        b
    } else if b.len() == 0 {
        a
    } else if rows_order(cols, b[0] as int, a[0] as int) == Order::Less {
        seq![b[0]] + merged(cols, a, b.drop_first())
    } else {
        seq![a[0]] + merged(cols, a.drop_first(), b)
    }
}

/// The rows from `lo` to `hi`, sorted by halves.
pub open spec fn merge_sorted<N: Numbers>(
    cols: Seq<(SortCol<N>, OrderDir)>,
    lo: int,
    hi: int,
) -> Seq<usize>
    decreases hi - lo,
{
    if hi <= lo {
        Seq::empty()
    } else if hi == lo + 1 {
        seq![lo as usize]
    } else {
        let mid = lo + (hi - lo) / 2;
        merged(cols, merge_sorted(cols, lo, mid), merge_sorted(cols, mid, hi))
    }
}

fn merge<N: Numbers>(
    cols: &Vec<(SortCol<N>, OrderDir)>,
    a: &Vec<usize>,
    b: &Vec<usize>,
    rows: usize,
) -> (r: Vec<usize>)
    requires
        cover(cols@, rows as int),
        forall|i: int| 0 <= i < a@.len() ==> #[trigger] a@[i] < rows,
        forall|i: int| 0 <= i < b@.len() ==> #[trigger] b@[i] < rows,
    ensures
        r@ == merged(cols@, a@, b@),
{
    let mut out: Vec<usize> = Vec::new();
    let mut i: usize = 0;
    let mut j: usize = 0;
    assert(a@.skip(0) =~= a@);
    assert(b@.skip(0) =~= b@);
    assert(out@ + merged(cols@, a@, b@) =~= merged(cols@, a@, b@));
    while i < a.len() && j < b.len()
        invariant
            i <= a@.len(),
            j <= b@.len(),
            cover(cols@, rows as int),
            forall|i: int| 0 <= i < a@.len() ==> #[trigger] a@[i] < rows,
            forall|i: int| 0 <= i < b@.len() ==> #[trigger] b@[i] < rows,
            out@ + merged(cols@, a@.skip(i as int), b@.skip(j as int)) == merged(cols@, a@, b@),
        decreases a@.len() - i + b@.len() - j,
    {
        let ghost ra = a@.skip(i as int);
        let ghost rb = b@.skip(j as int);
        assert(ra[0] == a@[i as int] && rb[0] == b@[j as int]);
        assert(ra.drop_first() =~= a@.skip(i + 1));
        assert(rb.drop_first() =~= b@.skip(j + 1));
        let ghost before = out@;
        if compare_decorated(cols, b[j], a[i]) == Order::Less {
            out.push(b[j]);
            j = j + 1;
            assert(out@ + merged(cols@, ra, rb.drop_first()) =~= before + merged(cols@, ra, rb));
        } else {
            out.push(a[i]);
            i = i + 1;
            assert(out@ + merged(cols@, ra.drop_first(), rb) =~= before + merged(cols@, ra, rb));
        }
    }
    let ghost all = merged(cols@, a@, b@);
    while i < a.len()
        invariant
            i <= a@.len(),
            j <= b@.len(),
            i < a@.len() ==> j == b@.len(),
            all == merged(cols@, a@, b@),
            out@ + merged(cols@, a@.skip(i as int), b@.skip(j as int)) == all,
        decreases a@.len() - i,
    {
        let ghost before = out@;
        out.push(a[i]);
        assert(b@.skip(j as int) =~= Seq::<usize>::empty());
        assert(before + a@.skip(i as int) =~= out@ + a@.skip(i + 1));
        i = i + 1;
        assert(merged(cols@, a@.skip(i as int), b@.skip(j as int)) =~= a@.skip(i as int));
    }
    while j < b.len()
        invariant
            i == a@.len(),
            j <= b@.len(),
            all == merged(cols@, a@, b@),
            out@ + merged(cols@, a@.skip(i as int), b@.skip(j as int)) == all,
        decreases b@.len() - j,
    {
        let ghost before = out@;
        out.push(b[j]);
        assert(before + b@.skip(j as int) =~= out@ + b@.skip(j + 1));
        j = j + 1;
    }
    assert(merged(cols@, a@.skip(i as int), b@.skip(j as int)) =~= Seq::<usize>::empty());
    assert(out@ + Seq::<usize>::empty() =~= out@);
    out
}

fn merge_sort<N: Numbers>(
    cols: &Vec<(SortCol<N>, OrderDir)>,
    lo: usize,
    hi: usize,
    rows: usize,
) -> (r: Vec<usize>)
    requires
        cover(cols@, rows as int),
        lo <= hi <= rows,
    ensures
        r@ == merge_sorted(cols@, lo as int, hi as int),
        forall|i: int| 0 <= i < r@.len() ==> lo <= #[trigger] r@[i] < hi,
    decreases hi - lo,
{
    proof {
        merge_sorted_facts(cols@, lo as int, hi as int, rows as int);
    }
    if hi == lo {
        Vec::new()
    } else if hi - lo == 1 {
        let r: Vec<usize> = vec![lo];
        assert(r@ =~= seq![lo]);
        r
    } else {
        let mid: usize = lo + (hi - lo) / 2;
        let a = merge_sort(cols, lo, mid, rows);
        let b = merge_sort(cols, mid, hi, rows);
        merge(cols, &a, &b, rows)
    }
}

/// The rows in sorted order. Rows with equal keys keep their order.
pub fn sorted_order<N: Numbers>(cols: &Vec<(SortCol<N>, OrderDir)>, rows: usize) -> (r: Vec<usize>)
    requires
        cover(cols@, rows as int),
    ensures
        r@ == merge_sorted(cols@, 0, rows as int),
        is_stable_sort(cols@, rows as int, r@),
{
    proof {
        sorting_is_stable(cols@, rows as int);
    }
    merge_sort(cols, 0, rows, rows)
}

/// Does a sequence hold each row from `lo` to `hi` once?
pub open spec fn enumerates_rows(s: Seq<usize>, lo: int, hi: int) -> bool {
    &&& s.no_duplicates()
    &&& forall|x: usize| s.contains(x) <==> lo <= x < hi
    &&& s.len() == hi - lo
}

/// Does each row of a sequence come before the rows behind it?
pub open spec fn in_order<N: Numbers>(cols: Seq<(SortCol<N>, OrderDir)>, s: Seq<usize>) -> bool {
    forall|i: int, j: int|
        0 <= i < j < s.len() ==> after(cols, #[trigger] s[j] as int, #[trigger] s[i] as int)
}

/// A stable sort of the rows: each row once and, where the keys have a total
/// order, each row before those that come after it.
pub open spec fn is_stable_sort<N: Numbers>(
    cols: Seq<(SortCol<N>, OrderDir)>,
    rows: int,
    s: Seq<usize>,
) -> bool {
    enumerates_rows(s, 0, rows) && (all_total(cols) ==> in_order(cols, s))
}

proof fn merged_facts<N: Numbers>(
    cols: Seq<(SortCol<N>, OrderDir)>,
    a: Seq<usize>,
    b: Seq<usize>,
    rows: int,
)
    requires
        cover(cols, rows),
        a.no_duplicates(),
        b.no_duplicates(),
        forall|x: usize, y: usize| #![trigger a.contains(x), b.contains(y)] a.contains(x) && b.contains(y) ==> x < y,
        forall|x: usize| #[trigger] a.contains(x) ==> x < rows,
        forall|x: usize| #[trigger] b.contains(x) ==> x < rows,
    ensures
        merged(cols, a, b).no_duplicates(),
        merged(cols, a, b).len() == a.len() + b.len(),
        forall|x: usize| #[trigger] merged(cols, a, b).contains(x) <==> a.contains(x) || b.contains(x),
        all_total(cols) && in_order(cols, a) && in_order(cols, b) ==> in_order(cols, merged(cols, a, b)),
    decreases a.len() + b.len(),
{
    let m = merged(cols, a, b);
    if a.len() == 0 {
        assert(forall|x: usize| !a.contains(x));
    } else if b.len() == 0 {
        assert(forall|x: usize| !b.contains(x));
    } else {
        assert(a.contains(a[0]) && b.contains(b[0]));
        let from_b = rows_order(cols, b[0] as int, a[0] as int) == Order::Less;
        let (a2, b2, h) = if from_b {
            (a, b.drop_first(), b[0])
        } else {
            (a.drop_first(), b, a[0])
        };
        assert forall|x: usize| #[trigger] b2.contains(x) implies b.contains(x) by {
            let k = choose|k: int| 0 <= k < b2.len() && b2[k] == x;
            if from_b {
                assert(b[k + 1] == x);
            }
        }
        assert forall|x: usize| #[trigger] a2.contains(x) implies a.contains(x) by {
            let k = choose|k: int| 0 <= k < a2.len() && a2[k] == x;
            if !from_b {
                assert(a[k + 1] == x);
            }
        }
        assert(a2.no_duplicates() && b2.no_duplicates());
        merged_facts(cols, a2, b2, rows);
        let t = merged(cols, a2, b2);
        assert(m == seq![h] + t);
        assert(!t.contains(h)) by {
            if from_b {
                assert(!b2.contains(h)) by {
                    if b2.contains(h) {
                        let k = choose|k: int| 0 <= k < b2.len() && b2[k] == h;
                        assert(b[k + 1] == b[0]);
                    }
                }
                assert(!a2.contains(h)) by {
                    if a.contains(h) {
                        assert(b.contains(h));
                    }
                }
            } else {
                assert(!a2.contains(h)) by {
                    if a2.contains(h) {
                        let k = choose|k: int| 0 <= k < a2.len() && a2[k] == h;
                        assert(a[k + 1] == a[0]);
                    }
                }
                assert(!b2.contains(h)) by {
                    if b.contains(h) {
                        assert(a.contains(h));
                    }
                }
            }
        }
        assert forall|x: usize| #[trigger] m.contains(x) implies a.contains(x) || b.contains(x) by {
            let k = choose|k: int| 0 <= k < m.len() && m[k] == x;
            if k > 0 {
                assert(t[k - 1] == x);
                assert(t.contains(x));
            }
        }
        assert forall|x: usize| a.contains(x) || b.contains(x) implies #[trigger] m.contains(x) by {
            if x == h {
                assert(m[0] == x);
            } else {
                assert(a2.contains(x) || b2.contains(x)) by {
                    if a.contains(x) {
                        let k = choose|k: int| 0 <= k < a.len() && a[k] == x;
                        if !from_b {
                            assert(a2[k - 1] == x);
                        }
                    } else {
                        let k = choose|k: int| 0 <= k < b.len() && b[k] == x;
                        if from_b {
                            assert(b2[k - 1] == x);
                        }
                    }
                }
                assert(t.contains(x));
                let k = choose|k: int| 0 <= k < t.len() && t[k] == x;
                assert(m[k + 1] == x);
            }
        }
        assert(m.no_duplicates()) by {
            assert forall|i: int, j: int| 0 <= i < j < m.len() implies m[i] != m[j] by {
                if i == 0 {
                    assert(m[j] == t[j - 1]);
                    assert(t.contains(m[j]));
                } else {
                    assert(m[i] == t[i - 1] && m[j] == t[j - 1]);
                }
            }
        }
        if all_total(cols) && in_order(cols, a) && in_order(cols, b) {
            assert(in_order(cols, a2)) by {
                if !from_b {
                    assert forall|i: int, j: int| 0 <= i < j < a2.len() implies after(
                        cols,
                        #[trigger] a2[j] as int,
                        #[trigger] a2[i] as int,
                    ) by {
                        assert(a2[i] == a[i + 1] && a2[j] == a[j + 1]);
                    }
                }
            }
            assert(in_order(cols, b2)) by {
                if from_b {
                    assert forall|i: int, j: int| 0 <= i < j < b2.len() implies after(
                        cols,
                        #[trigger] b2[j] as int,
                        #[trigger] b2[i] as int,
                    ) by {
                        assert(b2[i] == b[i + 1] && b2[j] == b[j + 1]);
                    }
                }
            }
            assert forall|x: usize| #[trigger] t.contains(x) implies after(cols, x as int, h as int) by {
                rows_order_laws(cols, rows, b[0] as int, a[0] as int, a[0] as int);
                if a2.contains(x) {
                    let k = choose|k: int| 0 <= k < a2.len() && a2[k] == x;
                    if from_b {
                        assert(a[k] == x);
                        assert(a.contains(x));
                        if k > 0 {
                            assert(after(cols, a[k] as int, a[0] as int));
                        }
                        assert(after(cols, a[0] as int, b[0] as int));
                        after_laws(cols, rows, x as int, a[0] as int, h as int);
                    } else {
                        assert(a[k + 1] == x);
                        assert(after(cols, a[k + 1] as int, a[0] as int));
                    }
                } else {
                    let k = choose|k: int| 0 <= k < b2.len() && b2[k] == x;
                    if from_b {
                        assert(b[k + 1] == x);
                        assert(after(cols, b[k + 1] as int, b[0] as int));
                    } else {
                        assert(b[k] == x);
                        assert(b.contains(x));
                        if k > 0 {
                            assert(after(cols, b[k] as int, b[0] as int));
                        }
                        assert(after(cols, b[0] as int, a[0] as int));
                        after_laws(cols, rows, x as int, b[0] as int, h as int);
                    }
                }
            }
            assert forall|i: int, j: int| 0 <= i < j < m.len() implies after(
                cols,
                #[trigger] m[j] as int,
                #[trigger] m[i] as int,
            ) by {
                assert(m[j] == t[j - 1]);
                assert(t.contains(m[j]));
                if i > 0 {
                    assert(m[i] == t[i - 1]);
                }
            }
        }
    }
}

proof fn merge_sorted_facts<N: Numbers>(
    cols: Seq<(SortCol<N>, OrderDir)>,
    lo: int,
    hi: int,
    rows: int,
)
    requires
        cover(cols, rows),
        0 <= lo <= hi <= rows <= usize::MAX,
    ensures
        enumerates_rows(merge_sorted(cols, lo, hi), lo, hi),
        forall|i: int|
            0 <= i < merge_sorted(cols, lo, hi).len() ==> lo <= #[trigger] merge_sorted(
                cols,
                lo,
                hi,
            )[i] < hi,
        all_total(cols) ==> in_order(cols, merge_sorted(cols, lo, hi)),
    decreases hi - lo,
{
    let s = merge_sorted(cols, lo, hi);
    if hi == lo {
    } else if hi == lo + 1 {
        assert(s[0] == lo);
        assert(s.contains(lo as usize));
    } else {
        let mid = lo + (hi - lo) / 2;
        merge_sorted_facts(cols, lo, mid, rows);
        merge_sorted_facts(cols, mid, hi, rows);
        merged_facts(cols, merge_sorted(cols, lo, mid), merge_sorted(cols, mid, hi), rows);
    }
    assert forall|i: int| 0 <= i < s.len() implies lo <= #[trigger] s[i] < hi by {
        assert(s.contains(s[i]));
    }
}

/// The full sort is a stable sort.
pub proof fn sorting_is_stable<N: Numbers>(cols: Seq<(SortCol<N>, OrderDir)>, rows: int)
    requires
        cover(cols, rows),
        0 <= rows <= usize::MAX,
    ensures
        is_stable_sort(cols, rows, merge_sorted(cols, 0, rows)),
{
    merge_sorted_facts(cols, 0, rows, rows);
}

// ── The first rows ──────────────────────────────────────────────────────────

/// Does no entry of a heap come after its parent?
pub open spec fn heap_ok<N: Numbers>(cols: Seq<(SortCol<N>, OrderDir)>, h: Seq<usize>) -> bool {
    forall|k: int| 1 <= k < h.len() ==> !after(cols, #[trigger] h[k] as int, h[(k - 1) / 2] as int)
}

/// Are the entries distinct rows below `rows`?
pub open spec fn distinct_rows(h: Seq<usize>, rows: int) -> bool {
    h.no_duplicates() && forall|k: int| 0 <= k < h.len() ==> #[trigger] h[k] < rows
}

pub open spec fn same_members(a: Seq<usize>, b: Seq<usize>) -> bool {
    a.len() == b.len() && forall|x: usize| #[trigger] a.contains(x) <==> b.contains(x)
}

fn swap_entries(h: &mut Vec<usize>, i: usize, j: usize)
    requires
        i < old(h)@.len(),
        j < old(h)@.len(),
    ensures
        final(h)@ == old(h)@.update(i as int, old(h)@[j as int]).update(
            j as int,
            old(h)@[i as int],
        ),
        same_members(final(h)@, old(h)@),
        old(h)@.no_duplicates() ==> final(h)@.no_duplicates(),
{
    let ghost before = h@;
    let a: usize = h[i];
    let b: usize = h[j];
    h.set(i, b);
    h.set(j, a);
    proof {
        let g = h@;
        assert forall|x: usize| #[trigger] g.contains(x) <==> before.contains(x) by {
            if before.contains(x) {
                let k = choose|k: int| 0 <= k < before.len() && before[k] == x;
                if k == i {
                    assert(g[j as int] == x);
                } else if k == j {
                    assert(g[i as int] == x);
                } else {
                    assert(g[k] == x);
                }
            }
            if g.contains(x) {
                let k = choose|k: int| 0 <= k < g.len() && g[k] == x;
                if k == j {
                    assert(before[i as int] == x);
                } else if k == i {
                    assert(before[j as int] == x);
                } else {
                    assert(before[k] == x);
                }
            }
        }
    }
}

fn is_after<N: Numbers>(cols: &Vec<(SortCol<N>, OrderDir)>, a: usize, b: usize) -> (r: bool)
    requires
        forall|i: int|
            0 <= i < cols@.len() ==> a < (#[trigger] cols@[i]).0.len() && b < cols@[i].0.len(),
    ensures
        r == after(cols@, a as int, b as int),
{
    match compare_decorated(cols, a, b) {
        Order::Less => false,
        Order::Greater => true,
        Order::Equal => a > b,
    }
}

proof fn distinct_of_same(a: Seq<usize>, b: Seq<usize>, rows: int)
    requires
        distinct_rows(b, rows),
        same_members(a, b),
        a.no_duplicates(),
    ensures
        distinct_rows(a, rows),
{
    assert forall|k: int| 0 <= k < a.len() implies #[trigger] a[k] < rows by {
        assert(a.contains(a[k]));
        assert(b.contains(a[k]));
    }
}

/// Moves an entry up until no parent comes before it.
fn sift_up<N: Numbers>(
    cols: &Vec<(SortCol<N>, OrderDir)>,
    heap: &mut Vec<usize>,
    start: usize,
    rows: usize,
)
    requires
        all_total(cols@),
        cover(cols@, rows as int),
        distinct_rows(old(heap)@, rows as int),
        start < old(heap)@.len(),
        forall|k: int|
            1 <= k < old(heap)@.len() && k != start ==> !after(
                cols@,
                #[trigger] old(heap)@[k] as int,
                old(heap)@[(k - 1) / 2] as int,
            ),
        forall|k: int|
            1 <= k < old(heap)@.len() && (k - 1) / 2 == start && start > 0 ==> !after(
                cols@,
                #[trigger] old(heap)@[k] as int,
                old(heap)@[(start - 1) / 2] as int,
            ),
    ensures
        heap_ok(cols@, final(heap)@),
        distinct_rows(final(heap)@, rows as int),
        same_members(final(heap)@, old(heap)@),
{
    let mut i: usize = start;
    while i > 0
        invariant
            all_total(cols@),
            cover(cols@, rows as int),
            distinct_rows(heap@, rows as int),
            same_members(heap@, old(heap)@),
            i < heap@.len(),
            forall|k: int|
                1 <= k < heap@.len() && k != i ==> !after(
                    cols@,
                    #[trigger] heap@[k] as int,
                    heap@[(k - 1) / 2] as int,
                ),
            forall|k: int|
                1 <= k < heap@.len() && (k - 1) / 2 == i && i > 0 ==> !after(
                    cols@,
                    #[trigger] heap@[k] as int,
                    heap@[(i - 1) / 2] as int,
                ),
        decreases i,
    {
        let parent: usize = (i - 1) / 2;
        if !is_after(cols, heap[i], heap[parent]) {
            return;
        }
        let ghost h = heap@;
        swap_entries(heap, i, parent);
        proof {
            let g = heap@;
            distinct_of_same(g, h, rows as int);
            let x = h[i as int] as int;
            let y = h[parent as int] as int;
            assert forall|k: int| 1 <= k < g.len() && k != parent implies !after(
                cols@,
                #[trigger] g[k] as int,
                g[(k - 1) / 2] as int,
            ) by {
                let p = (k - 1) / 2;
                if k == i {
                    after_laws(cols@, rows as int, x, y, y);
                } else if p == parent {
                    // A sibling: its old parent came before the entry.
                    assert(g[k] == h[k]);
                    assert(!after(cols@, h[k] as int, y));
                    after_laws(cols@, rows as int, h[k] as int, x, y);
                } else if p == i {
                    assert(g[k] == h[k]);
                    assert(!after(cols@, h[k] as int, h[(i - 1) / 2] as int));
                } else {
                    assert(g[k] == h[k] && g[p] == h[p]);
                }
            }
            assert forall|k: int|
                1 <= k < g.len() && (k - 1) / 2 == parent && parent > 0 implies !after(
                cols@,
                #[trigger] g[k] as int,
                g[(parent - 1) / 2] as int,
            ) by {
                let gp = (parent - 1) / 2;
                assert(g[gp] == h[gp]);
                let z = h[gp] as int;
                assert(!after(cols@, h[parent as int] as int, z));
                if k == i {
                    assert(g[k] as int == y);
                } else {
                    assert(g[k] == h[k]);
                    assert(!after(cols@, h[k] as int, y));
                    after_laws(cols@, rows as int, h[k] as int, z, y);
                    after_laws(cols@, rows as int, h[k] as int, y, z);
                    assert(h[k] != h[parent as int]);
                    assert(h[parent as int] != h[gp]);
                    after_laws(cols@, rows as int, y, h[k] as int, z);
                    after_laws(cols@, rows as int, z, y, h[k] as int);
                }
            }
        }
        i = parent;
    }
}

/// Moves the entry at the root down until no child comes after it.
fn sift_down<N: Numbers>(cols: &Vec<(SortCol<N>, OrderDir)>, heap: &mut Vec<usize>, rows: usize)
    requires
        all_total(cols@),
        cover(cols@, rows as int),
        distinct_rows(old(heap)@, rows as int),
        forall|k: int|
            1 <= k < old(heap)@.len() && (k - 1) / 2 != 0 ==> !after(
                cols@,
                #[trigger] old(heap)@[k] as int,
                old(heap)@[(k - 1) / 2] as int,
            ),
    ensures
        heap_ok(cols@, final(heap)@),
        distinct_rows(final(heap)@, rows as int),
        same_members(final(heap)@, old(heap)@),
{
    let n: usize = heap.len();
    let mut i: usize = 0;
    loop
        invariant
            all_total(cols@),
            cover(cols@, rows as int),
            distinct_rows(heap@, rows as int),
            same_members(heap@, old(heap)@),
            n == heap@.len(),
            i <= n,
            forall|k: int|
                1 <= k < heap@.len() && (k - 1) / 2 != i ==> !after(
                    cols@,
                    #[trigger] heap@[k] as int,
                    heap@[(k - 1) / 2] as int,
                ),
            forall|k: int|
                1 <= k < heap@.len() && (k - 1) / 2 == i && i > 0 ==> !after(
                    cols@,
                    #[trigger] heap@[k] as int,
                    heap@[(i - 1) / 2] as int,
                ),
        ensures
            heap_ok(cols@, heap@),
            distinct_rows(heap@, rows as int),
            same_members(heap@, old(heap)@),
        decreases n - i,
    {
        // Without a left child there is nothing below.
        if n < 2 || i > (n - 2) / 2 {
            assert forall|k: int| 1 <= k < heap@.len() implies !after(
                cols@,
                #[trigger] heap@[k] as int,
                heap@[(k - 1) / 2] as int,
            ) by {
                assert((k - 1) / 2 != i);
            }
            break;
        }
        let left: usize = 2 * i + 1;
        let mut m: usize = i;
        if is_after(cols, heap[left], heap[m]) {
            m = left;
        }
        if left < n - 1 && is_after(cols, heap[left + 1], heap[m]) {
            m = left + 1;
        }
        let ghost h = heap@;
        proof {
            let x = h[i as int] as int;
            after_laws(cols@, rows as int, h[left as int] as int, x, x);
            if left + 1 < n {
                let l = h[left as int] as int;
                let r = h[left + 1] as int;
                assert(h[left as int] != h[left + 1]);
                assert(h[i as int] != h[left + 1]);
                assert(h[i as int] != h[left as int]);
                after_laws(cols@, rows as int, r, l, x);
                after_laws(cols@, rows as int, l, r, x);
                after_laws(cols@, rows as int, r, x, l);
                after_laws(cols@, rows as int, l, x, r);
                after_laws(cols@, rows as int, x, l, r);
            }
        }
        if m == i {
            assert forall|k: int| 1 <= k < heap@.len() implies !after(
                cols@,
                #[trigger] heap@[k] as int,
                heap@[(k - 1) / 2] as int,
            ) by {
                if (k - 1) / 2 == i {
                    assert(k == left || k == left + 1);
                }
            }
            break;
        }
        swap_entries(heap, i, m);
        proof {
            let g = heap@;
            distinct_of_same(g, h, rows as int);
            assert forall|k: int| 1 <= k < g.len() && (k - 1) / 2 != m implies !after(
                cols@,
                #[trigger] g[k] as int,
                g[(k - 1) / 2] as int,
            ) by {
                let p = (k - 1) / 2;
                if p == i {
                    assert(k == left || k == left + 1);
                } else if k == i {
                    assert(g[p] == h[p]);
                    assert(g[k] == h[m as int]);
                    assert((m - 1) / 2 == i);
                    assert(!after(cols@, h[m as int] as int, h[(i - 1) / 2] as int));
                } else {
                    assert(k != m);
                    assert(g[k] == h[k] && g[p] == h[p]);
                }
            }
            assert forall|k: int|
                1 <= k < g.len() && (k - 1) / 2 == m && m > 0 implies !after(
                cols@,
                #[trigger] g[k] as int,
                g[(m - 1) / 2] as int,
            ) by {
                assert((m - 1) / 2 == i);
                assert(g[k] == h[k]);
                assert(g[i as int] == h[m as int]);
                assert(!after(cols@, h[k] as int, h[(k - 1) / 2] as int));
            }
        }
        i = m;
    }
}

/// Every other entry of a heap comes before its root.
proof fn root_is_last<N: Numbers>(
    cols: Seq<(SortCol<N>, OrderDir)>,
    h: Seq<usize>,
    rows: int,
    k: int,
)
    requires
        all_total(cols),
        cover(cols, rows),
        heap_ok(cols, h),
        distinct_rows(h, rows),
        0 < k < h.len(),
    ensures
        after(cols, h[0] as int, h[k] as int),
    decreases k,
{
    let p = (k - 1) / 2;
    assert(h[k] != h[p]);
    assert(!after(cols, h[k] as int, h[p] as int));
    after_laws(cols, rows, h[k] as int, h[p] as int, h[p] as int);
    if p > 0 {
        root_is_last(cols, h, rows, p);
        after_laws(cols, rows, h[0] as int, h[p] as int, h[k] as int);
    }
}

/// Are the members of `h` the first of the rows below `seen`, at most `n` of
/// them?
pub open spec fn keeps_first<N: Numbers>(
    cols: Seq<(SortCol<N>, OrderDir)>,
    h: Seq<usize>,
    seen: int,
    n: int,
) -> bool {
    &&& distinct_rows(h, seen)
    &&& h.len() == (if seen < n {
        seen
    } else {
        n
    })
    &&& forall|x: usize, k: int|
        #![trigger h.contains(x), h[k]]
        x < seen && !h.contains(x) && 0 <= k < h.len() ==> after(cols, x as int, h[k] as int)
}

/// As many distinct rows as there are rows leave none out.
proof fn all_rows_are_members(h: Seq<usize>, seen: int, x: usize)
    requires
        distinct_rows(h, seen),
        h.len() == seen,
        x < seen,
    ensures
        h.contains(x),
    decreases seen,
{
    if !h.contains(x) {
        // The members all lie among the `seen - 1` other rows.
        let others = vstd::set_lib::set_int_range(0, seen).remove(x as int);
        vstd::set_lib::lemma_int_range(0, seen);
        let hi = h.map_values(|u: usize| u as int);
        assert(hi.no_duplicates());
        hi.unique_seq_to_set();
        assert(hi.to_set().subset_of(others)) by {
            assert forall|y: int| hi.to_set().contains(y) implies others.contains(y) by {
                let k = choose|k: int| 0 <= k < hi.len() && hi[k] == y;
                assert(h[k] as int == y);
                assert(h.contains(h[k]));
            }
        }
        vstd::set_lib::lemma_len_subset(hi.to_set(), others);
    }
}

/// The rows the full sort places first, at most `n` of them.
pub open spec fn first_rows<N: Numbers>(
    cols: Seq<(SortCol<N>, OrderDir)>,
    rows: int,
    n: int,
) -> Seq<usize> {
    let all = merge_sorted(cols, 0, rows);
    if n < rows {
        all.take(n)
    } else {
        all
    }
}

/// Rows that are in order and leave out only rows that come after them are a
/// prefix of the full sort.
proof fn kept_rows_are_a_prefix<N: Numbers>(
    cols: Seq<(SortCol<N>, OrderDir)>,
    r: Seq<usize>,
    rows: int,
    n: int,
)
    requires
        all_total(cols),
        cover(cols, rows),
        0 <= rows <= usize::MAX,
        keeps_first(cols, r, rows, n),
        0 <= n,
        in_order(cols, r),
    ensures
        r == first_rows(cols, rows, n),
{
    let s = merge_sorted(cols, 0, rows);
    merge_sorted_facts(cols, 0, rows, rows);
    assert forall|i: int| 0 <= i < r.len() implies r[i] == s[i] by {
        prefix_at(cols, r, rows, n, i);
    }
    assert(r =~= first_rows(cols, rows, n));
}

proof fn prefix_at<N: Numbers>(
    cols: Seq<(SortCol<N>, OrderDir)>,
    r: Seq<usize>,
    rows: int,
    n: int,
    i: int,
)
    requires
        all_total(cols),
        cover(cols, rows),
        0 <= rows <= usize::MAX,
        keeps_first(cols, r, rows, n),
        in_order(cols, r),
        0 <= i < r.len(),
    ensures
        r[i] == merge_sorted(cols, 0, rows)[i],
    decreases i,
{
    let s = merge_sorted(cols, 0, rows);
    merge_sorted_facts(cols, 0, rows, rows);
    assert forall|j: int| 0 <= j < i implies r[j] == s[j] by {
        prefix_at(cols, r, rows, n, j);
    }
    if r[i] != s[i] {
        assert(s.contains(r[i]));
        let p = choose|p: int| 0 <= p < s.len() && s[p] == r[i];
        if p < i {
            assert(r[p] == s[p]);
        }
        assert(p > i);
        assert(after(cols, s[p] as int, s[i] as int));
        if r.contains(s[i]) {
            let q = choose|q: int| 0 <= q < r.len() && r[q] == s[i];
            if q < i {
                assert(r[q] == s[q]);
            }
            assert(q > i);
            assert(after(cols, r[q] as int, r[i] as int));
        } else {
            assert(after(cols, s[i] as int, r[i] as int));
        }
        after_laws(cols, rows, r[i] as int, s[i] as int, s[i] as int);
        assert(false);
    }
}

/// Takes the root off a heap.
fn pop_root<N: Numbers>(cols: &Vec<(SortCol<N>, OrderDir)>, heap: &mut Vec<usize>, rows: usize) -> (r:
    usize)
    requires
        all_total(cols@),
        cover(cols@, rows as int),
        heap_ok(cols@, old(heap)@),
        distinct_rows(old(heap)@, rows as int),
        old(heap)@.len() > 0,
    ensures
        r == old(heap)@[0],
        heap_ok(cols@, final(heap)@),
        distinct_rows(final(heap)@, rows as int),
        final(heap)@.len() == old(heap)@.len() - 1,
        forall|x: usize| #[trigger]
            final(heap)@.contains(x) <==> old(heap)@.contains(x) && x != r,
{
    let ghost h = heap@;
    let root: usize = heap[0];
    let last: usize = heap[heap.len() - 1];
    heap.pop();
    if heap.len() > 0 {
        heap.set(0, last);
    }
    proof {
        let g = heap@;
        assert forall|x: usize| #[trigger] g.contains(x) <==> h.contains(x) && x != root by {
            if g.contains(x) {
                let k = choose|k: int| 0 <= k < g.len() && g[k] == x;
                if k == 0 {
                    assert(h[h.len() - 1] == x);
                } else {
                    assert(h[k] == x);
                }
            }
            if h.contains(x) && x != root {
                let k = choose|k: int| 0 <= k < h.len() && h[k] == x;
                if k == h.len() - 1 {
                    assert(g[0] == x);
                } else {
                    assert(g[k] == x);
                }
            }
        }
        assert(g.no_duplicates());
        assert forall|k: int| 0 <= k < g.len() implies #[trigger] g[k] < rows by {
            assert(g.contains(g[k]));
        }
        assert forall|k: int| 1 <= k < g.len() && (k - 1) / 2 != 0 implies !after(
            cols@,
            #[trigger] g[k] as int,
            g[(k - 1) / 2] as int,
        ) by {
            assert(g[k] == h[k] && g[(k - 1) / 2] == h[(k - 1) / 2]);
        }
    }
    sift_down(cols, heap, rows);
    root
}

/// The members of a heap, in order.
fn drain_sorted<N: Numbers>(
    cols: &Vec<(SortCol<N>, OrderDir)>,
    heap: Vec<usize>,
    rows: usize,
) -> (r: Vec<usize>)
    requires
        all_total(cols@),
        cover(cols@, rows as int),
        heap_ok(cols@, heap@),
        distinct_rows(heap@, rows as int),
    ensures
        same_members(r@, heap@),
        r@.no_duplicates(),
        in_order(cols@, r@),
{
    let ghost all = heap@;
    let mut rest = heap;
    let mut down: Vec<usize> = Vec::new();
    while rest.len() > 0
        invariant
            all_total(cols@),
            cover(cols@, rows as int),
            heap_ok(cols@, rest@),
            distinct_rows(rest@, rows as int),
            down@.len() + rest@.len() == all.len(),
            down@.no_duplicates(),
            forall|x: usize| #[trigger] all.contains(x) <==> down@.contains(x) || rest@.contains(x),
            forall|x: usize| #[trigger] rest@.contains(x) ==> !down@.contains(x),
            forall|i: int, x: usize|
                #![trigger down@[i], rest@.contains(x)]
                0 <= i < down@.len() && rest@.contains(x) ==> after(
                    cols@,
                    down@[i] as int,
                    x as int,
                ),
            forall|i: int, j: int|
                0 <= i < j < down@.len() ==> after(
                    cols@,
                    #[trigger] down@[i] as int,
                    #[trigger] down@[j] as int,
                ),
        decreases rest@.len(),
    {
        let ghost h = rest@;
        let ghost d = down@;
        let root = pop_root(cols, &mut rest, rows);
        down.push(root);
        proof {
            let g = down@;
            assert(h.contains(root)) by {
                assert(h[0] == root);
            }
            assert forall|x: usize| #[trigger] all.contains(x) <==> g.contains(x) || rest@.contains(
                x,
            ) by {
                if d.contains(x) {
                    let k = choose|k: int| 0 <= k < d.len() && d[k] == x;
                    assert(g[k] == x);
                }
                if x == root {
                    assert(g[g.len() - 1] == x);
                }
                if g.contains(x) {
                    let k = choose|k: int| 0 <= k < g.len() && g[k] == x;
                    if k < d.len() {
                        assert(d[k] == x);
                    }
                }
            }
            assert forall|x: usize| #[trigger] rest@.contains(x) implies !g.contains(x) by {
                assert(h.contains(x));
                if g.contains(x) {
                    let k = choose|k: int| 0 <= k < g.len() && g[k] == x;
                    if k < d.len() {
                        assert(d[k] == x);
                        assert(d.contains(x));
                    }
                }
            }
            assert forall|i: int, x: usize|
                #![trigger g[i], rest@.contains(x)]
                0 <= i < g.len() && rest@.contains(x) implies after(cols@, g[i] as int, x as int) by {
                assert(h.contains(x));
                if i == d.len() {
                    let k = choose|k: int| 0 <= k < h.len() && h[k] == x;
                    if k > 0 {
                        root_is_last(cols@, h, rows as int, k);
                    }
                } else {
                    assert(g[i] == d[i]);
                }
            }
            assert forall|i: int, j: int| 0 <= i < j < g.len() implies after(
                cols@,
                #[trigger] g[i] as int,
                #[trigger] g[j] as int,
            ) by {
                assert(g[i] == d[i]);
                if j == d.len() {
                    assert(h.contains(root));
                } else {
                    assert(g[j] == d[j]);
                }
            }
            assert(g.no_duplicates()) by {
                assert(!d.contains(root));
                assert forall|i: int, j: int| 0 <= i < j < g.len() implies g[i] != g[j] by {
                    assert(d.contains(g[i]));
                }
            }
        }
    }
    let mut up: Vec<usize> = Vec::new();
    let n: usize = down.len();
    let mut i: usize = n;
    while i > 0
        invariant
            i <= n,
            n == down@.len(),
            up@.len() == n - i,
            forall|j: int| 0 <= j < up@.len() ==> #[trigger] up@[j] == down@[n - 1 - j],
        decreases i,
    {
        i = i - 1;
        up.push(down[i]);
    }
    proof {
        let u = up@;
        let d = down@;
        assert forall|x: usize| #[trigger] u.contains(x) <==> all.contains(x) by {
            if u.contains(x) {
                let k = choose|k: int| 0 <= k < u.len() && u[k] == x;
                assert(d[n - 1 - k] == x);
                assert(d.contains(x));
            }
            if all.contains(x) {
                assert(!rest@.contains(x));
                assert(d.contains(x));
                let k = choose|k: int| 0 <= k < d.len() && d[k] == x;
                assert(u[n - 1 - k] == x);
            }
        }
        assert forall|a: int, b: int| 0 <= a < b < u.len() implies after(
            cols@,
            #[trigger] u[b] as int,
            #[trigger] u[a] as int,
        ) by {
            assert(u[b] == d[n - 1 - b] && u[a] == d[n - 1 - a]);
        }
        assert(u.no_duplicates()) by {
            assert forall|a: int, b: int| 0 <= a < b < u.len() implies u[a] != u[b] by {
                assert(u[b] == d[n - 1 - b] && u[a] == d[n - 1 - a]);
            }
        }
    }
    up
}

/// The first `n` rows of the full sort, without sorting the others: a heap
/// keeps the best rows seen so far, the last of them at its root.
pub fn top_k_order<N: Numbers>(
    cols: &Vec<(SortCol<N>, OrderDir)>,
    rows: usize,
    n: usize,
) -> (r: Vec<usize>)
    requires
        all_total(cols@),
        cover(cols@, rows as int),
    ensures
        r@ == first_rows(cols@, rows as int, n as int),
{
    if n == 0 {
        let r: Vec<usize> = Vec::new();
        proof {
            merge_sorted_facts(cols@, 0, rows as int, rows as int);
            assert(r@ =~= first_rows(cols@, rows as int, 0));
        }
        return r;
    }
    let mut heap: Vec<usize> = Vec::new();
    let mut i: usize = 0;
    while i < rows
        invariant
            n > 0,
            i <= rows,
            all_total(cols@),
            cover(cols@, rows as int),
            heap_ok(cols@, heap@),
            keeps_first(cols@, heap@, i as int, n as int),
        decreases rows - i,
    {
        let ghost h = heap@;
        assert(distinct_rows(h, rows as int));
        if heap.len() < n {
            heap.push(i);
            let last: usize = heap.len() - 1;
            proof {
                let g = heap@;
                assert(g.no_duplicates()) by {
                    assert forall|a: int, b: int| 0 <= a < b < g.len() implies g[a] != g[b] by {
                        assert(g[a] == h[a]);
                        if b < h.len() {
                            assert(g[b] == h[b]);
                        }
                    }
                }
                assert forall|k: int| 0 <= k < g.len() implies #[trigger] g[k] < rows by {
                    if k < h.len() {
                        assert(g[k] == h[k]);
                    }
                }
                assert forall|k: int| 1 <= k < g.len() && k != last implies !after(
                    cols@,
                    #[trigger] g[k] as int,
                    g[(k - 1) / 2] as int,
                ) by {
                    assert(g[k] == h[k] && g[(k - 1) / 2] == h[(k - 1) / 2]);
                }
            }
            let ghost pushed = heap@;
            sift_up(cols, &mut heap, last, rows);
            proof {
                assert forall|k: int| 0 <= k < heap@.len() implies #[trigger] heap@[k] < i + 1 by {
                    assert(heap@.contains(heap@[k]));
                    assert(pushed.contains(heap@[k]));
                    let q = choose|q: int| 0 <= q < pushed.len() && pushed[q] == heap@[k];
                    if q < h.len() {
                        assert(pushed[q] == h[q]);
                    }
                }
                assert forall|x: usize| x < i + 1 implies heap@.contains(x) by {
                    if x == i {
                        assert(pushed[last as int] == x);
                        assert(pushed.contains(x));
                    } else {
                        all_rows_are_members(h, i as int, x);
                        let q = choose|q: int| 0 <= q < h.len() && h[q] == x;
                        assert(pushed[q] == x);
                        assert(pushed.contains(x));
                    }
                }
            }
        } else {
            let root: usize = heap[0];
            if is_after(cols, root, i) {
                heap.set(0, i);
                proof {
                    let g = heap@;
                    assert(!h.contains(i));
                    assert(g.no_duplicates()) by {
                        assert forall|a: int, b: int| 0 <= a < b < g.len() implies g[a] != g[b] by {
                            assert(g[b] == h[b]);
                            if a > 0 {
                                assert(g[a] == h[a]);
                            }
                        }
                    }
                    assert forall|k: int| 1 <= k < g.len() && (k - 1) / 2 != 0 implies !after(
                        cols@,
                        #[trigger] g[k] as int,
                        g[(k - 1) / 2] as int,
                    ) by {
                        assert(g[k] == h[k] && g[(k - 1) / 2] == h[(k - 1) / 2]);
                    }
                }
                let ghost replaced = heap@;
                sift_down(cols, &mut heap, rows);
                proof {
                    let g = heap@;
                    assert forall|k: int| 0 <= k < g.len() implies #[trigger] g[k] < i + 1 by {
                        assert(g.contains(g[k]));
                        let q = choose|q: int| 0 <= q < replaced.len() && replaced[q] == g[k];
                        if q > 0 {
                            assert(replaced[q] == h[q]);
                        }
                    }
                    assert forall|x: usize, k: int|
                        #![trigger g.contains(x), g[k]]
                        x < i + 1 && !g.contains(x) && 0 <= k < g.len() implies after(
                        cols@,
                        x as int,
                        g[k] as int,
                    ) by {
                        assert(g.contains(g[k]));
                        let q = choose|q: int| 0 <= q < replaced.len() && replaced[q] == g[k];
                        assert(replaced.contains(i)) by {
                            assert(replaced[0] == i);
                        }
                        assert(x != i);
                        if x == root {
                            if q > 0 {
                                root_is_last(cols@, h, rows as int, q);
                            }
                        } else {
                            assert(!h.contains(x)) by {
                                if h.contains(x) {
                                    let w = choose|w: int| 0 <= w < h.len() && h[w] == x;
                                    assert(replaced[w] == x);
                                    assert(replaced.contains(x));
                                }
                            }
                            assert(after(cols@, x as int, h[0] as int));
                            if q > 0 {
                                assert(after(cols@, x as int, h[q] as int));
                            } else {
                                after_laws(cols@, rows as int, x as int, root as int, i as int);
                            }
                        }
                    }
                }
            } else {
                proof {
                    assert(!h.contains(i));
                    assert forall|x: usize, k: int|
                        #![trigger h.contains(x), h[k]]
                        x < i + 1 && !h.contains(x) && 0 <= k < h.len() implies after(
                        cols@,
                        x as int,
                        h[k] as int,
                    ) by {
                        if x == i {
                            assert(h[0] != i);
                            after_laws(cols@, rows as int, i as int, root as int, h[k] as int);
                            if k > 0 {
                                root_is_last(cols@, h, rows as int, k);
                            }
                        }
                    }
                }
            }
        }
        i = i + 1;
    }
    let ghost h = heap@;
    let r = drain_sorted(cols, heap, rows);
    proof {
        distinct_of_same(r@, h, rows as int);
        assert forall|x: usize, k: int|
            #![trigger r@.contains(x), r@[k]]
            x < rows && !r@.contains(x) && 0 <= k < r@.len() implies after(
            cols@,
            x as int,
            r@[k] as int,
        ) by {
            assert(!h.contains(x));
            assert(r@.contains(r@[k]));
            assert(h.contains(r@[k]));
            let q = choose|q: int| 0 <= q < h.len() && h[q] == r@[k];
            assert(after(cols@, x as int, h[q] as int));
        }
        kept_rows_are_a_prefix(cols@, r@, rows as int, n as int);
    }
    r
}

}
