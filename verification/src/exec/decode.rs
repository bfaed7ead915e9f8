//! Turning slots into terms through a store's dictionary.

use crate::algebra::{names, opt_term_view, Expr, ExprView, Term, Var};
use crate::collections::NameSet;
use crate::error::SparqlError;
use crate::exec::batch::{
    binding_is_restriction, row_binding, slot_term, solution, Dict, Row, Slot, SlotView,
};
use crate::exec::bindings::{bound_to, Bindings};
use crate::exec::executor::Executor;
use crate::exec::expr::{
    agree_on, eval_expr, eval_expr_to_term, evaluation_reads_only_refs, truth, value,
};
use crate::exec::number::Numbers;
use crate::exec::refs::refs;
use crate::text::Text;
use vstd::prelude::*;

verus! {

/// Is the term in a slot to be had?
pub open spec fn slot_known<E: Executor>(exec: &E, s: SlotView) -> bool {
    s matches SlotView::Id(id) ==> exec.knows(id)
}

/// Are the terms of a row to be had, in the columns in `want`?
pub open spec fn row_known<E: Executor>(
    exec: &E,
    schema: Seq<Text>,
    row: Seq<SlotView>,
    want: Set<Text>,
) -> bool {
    forall|i: int|
        0 <= i < schema.len() && want.contains(#[trigger] schema[i]) ==> slot_known(exec, row[i])
}

/// The term in a slot.
pub fn decode_slot<E: Executor>(exec: &E, slot: &Slot) -> (r: Result<Option<Term>, SparqlError>)
    ensures
        r matches Ok(o) ==> opt_term_view(o) == slot_term(exec.dict(), slot@),
        r is Ok == slot_known(exec, slot@),
        exec.reliable() ==> r is Ok,
{
    match slot {
        Slot::Id(id) => match exec.decode_term(*id) {
            Ok(t) => Ok(Some(t)),
            Err(e) => Err(e),
        },
        Slot::Term(t) => Ok(Some(t.clone())),
        Slot::Unbound => Ok(None),
    }
}

/// The solution mapping of a row, over the columns in `want`.
pub fn decode_subset<E: Executor>(exec: &E, row: &Row, schema: &Vec<Var>, want: &NameSet) -> (r: Result<
    Bindings,
    SparqlError,
>)
    requires
        row@.len() == schema@.len(),
    ensures
        r matches Ok(b) ==> b@ == row_binding(exec.dict(), names(schema@), row@, want@),
        r is Ok == row_known(exec, names(schema@), row@, want@),
        exec.reliable() ==> r is Ok,
{
    let ghost sv = names(schema@);
    let mut b = Bindings::new();
    let mut i: usize = 0;
    while i < schema.len()
        invariant
            i <= schema@.len(),
            row@.len() == schema@.len(),
            sv == names(schema@),
            b@ == row_binding(exec.dict(), sv.take(i as int), row@, want@),
            forall|j: int|
                0 <= j < i && want@.contains(#[trigger] sv[j]) ==> slot_known(exec, row@[j]),
        decreases schema@.len() - i,
    {
        proof {
            assert(sv.take(i + 1).drop_last() =~= sv.take(i as int));
            assert(sv.take(i + 1).last() == sv[i as int]);
            assert(row@[i as int] == row.0@[i as int]@);
        }
        if want.contains(schema[i].name()) {
            match decode_slot(exec, &row.0[i]) {
                Ok(Some(t)) => b.set(schema[i].name().to_owned(), t),
                Ok(None) => {},
                Err(e) => {
                    assert(want@.contains(sv[i as int]));
                    assert(!slot_known(exec, row@[i as int]));
                    return Err(e);
                },
            }
        }
        i = i + 1;
    }
    assert(sv.take(sv.len() as int) =~= sv);
    Ok(b)
}

/// The solution mapping of a row.
pub fn decode_row<E: Executor>(exec: &E, row: &Row, schema: &Vec<Var>) -> (r: Result<
    Bindings,
    SparqlError,
>)
    requires
        row@.len() == schema@.len(),
    ensures
        r matches Ok(b) ==> b@ == solution(exec.dict(), names(schema@), row@),
        exec.reliable() ==> r is Ok,
{
    let ghost sv = names(schema@);
    let mut b = Bindings::new();
    let mut i: usize = 0;
    while i < schema.len()
        invariant
            i <= schema@.len(),
            row@.len() == schema@.len(),
            sv == names(schema@),
            b@ == solution(exec.dict(), sv.take(i as int), row@),
        decreases schema@.len() - i,
    {
        proof {
            assert(sv.take(i + 1).drop_last() =~= sv.take(i as int));
            assert(sv.take(i + 1).last() == sv[i as int]);
            assert(row@[i as int] == row.0@[i as int]@);
        }
        match decode_slot(exec, &row.0[i]) {
            Ok(Some(t)) => b.set(schema[i].name().to_owned(), t),
            Ok(None) => {},
            Err(e) => return Err(e),
        }
        i = i + 1;
    }
    assert(sv.take(sv.len() as int) =~= sv);
    Ok(b)
}

/// The columns an expression reads decide what it comes to.
pub proof fn reading_a_subset_suffices<N: Numbers>(
    d: Dict,
    schema: Seq<Text>,
    row: Seq<SlotView>,
    e: ExprView,
    want: Set<Text>,
)
    requires
        refs(e).subset_of(want),
    ensures
        truth::<N>(e, row_binding(d, schema, row, want)) == truth::<N>(e, solution(d, schema, row)),
        value::<N>(e, row_binding(d, schema, row, want)) == value::<N>(e, solution(d, schema, row)),
{
    binding_is_restriction(d, schema, row, want);
    let a = row_binding(d, schema, row, want);
    let b = solution(d, schema, row);
    assert(agree_on(a, b, refs(e))) by {
        assert forall|v: Text| #[trigger] refs(e).contains(v) implies bound_to(a, v) == bound_to(
            b,
            v,
        ) by {
            assert(want.contains(v));
        }
    }
    evaluation_reads_only_refs::<N>(e, a, b);
}

/// Evaluates a condition on a row, decoding only the columns in `want`.
pub fn row_satisfies<E: Executor>(
    exec: &E,
    row: &Row,
    schema: &Vec<Var>,
    expr: &Expr,
    want: &NameSet,
) -> (r: Result<bool, SparqlError>)
    requires
        row@.len() == schema@.len(),
        refs(expr@).subset_of(want@),
    ensures
        r matches Ok(v) ==> v == truth::<E::N>(
            expr@,
            solution(exec.dict(), names(schema@), row@),
        ),
        exec.reliable() ==> r is Ok,
{
    match decode_subset(exec, row, schema, want) {
        Ok(b) => {
            proof {
                reading_a_subset_suffices::<E::N>(
                    exec.dict(),
                    names(schema@),
                    row@,
                    expr@,
                    want@,
                );
            }
            Ok(eval_expr::<E::N>(expr, &b))
        },
        Err(e) => Err(e),
    }
}

/// The value of an expression on a row, decoding only the columns in `want`.
pub fn row_value<E: Executor>(
    exec: &E,
    row: &Row,
    schema: &Vec<Var>,
    expr: &Expr,
    want: &NameSet,
) -> (r: Result<Option<Term>, SparqlError>)
    requires
        row@.len() == schema@.len(),
        refs(expr@).subset_of(want@),
    ensures
        r matches Ok(v) ==> opt_term_view(v) == value::<E::N>(
            expr@,
            solution(exec.dict(), names(schema@), row@),
        ),
        r is Ok == row_known(exec, names(schema@), row@, want@),
        exec.reliable() ==> r is Ok,
{
    match decode_subset(exec, row, schema, want) {
        Ok(b) => {
            proof {
                reading_a_subset_suffices::<E::N>(
                    exec.dict(),
                    names(schema@),
                    row@,
                    expr@,
                    want@,
                );
            }
            Ok(eval_expr_to_term::<E::N>(expr, &b))
        },
        Err(e) => Err(e),
    }
}

}
