//! What takes the place of a query in an expression.
use crate::ast::{Expr, LiteralValue};
use crate::engine::EngineView;
use crate::error::ErrorView;
use crate::eval::eval;
use crate::executor::Answer;
use crate::host::HostView;
use crate::key_laws::{folded, folded_row, keys_fit, law_equal_keys_are_equal_rows};
use crate::resolve::{expr_resolved, first_values, in_part, value_keys};
use crate::run::{midway, stmt_ran};
use crate::types::ValueView;
use crate::values::{row_key, sort_key, value_key};
use crate::window_laws::held;
use vstd::prelude::*;
use vstd::utf8::{decode_utf8, encode_utf8, encode_utf8_decode_utf8};

verus! {

/// Integers, texts and NULL.
pub open spec fn plain_value(v: ValueView) -> bool {
    v is Null || v is Varchar || held(v) is Some
}

/// Whether two integers, or two texts, are the same.
pub open spec fn same_plain_value(a: ValueView, b: ValueView) -> bool {
    match (a, b) {
        (ValueView::Varchar(s), ValueView::Varchar(t)) => s == t,
        _ => held(a) is Some && held(a) == held(b),
    }
}

/// Whether one of the rows begins with a value.
pub open spec fn begins_a_row(rows: Seq<Seq<ValueView>>, v: ValueView) -> bool {
    exists|i: int|
        0 <= i < rows.len() && (#[trigger] rows[i]).len() > 0 && same_plain_value(v, rows[i][0])
}

proof fn lemma_integer_keys(a: i64, b: i64)
    ensures
        value_key(ValueView::BigInt(a)) == value_key(ValueView::BigInt(b)) ==> a == b,
{
    let x = seq![ValueView::BigInt(a)];
    let y = seq![ValueView::BigInt(b)];
    assert(x.drop_last() =~= Seq::<ValueView>::empty());
    assert(y.drop_last() =~= Seq::<ValueView>::empty());
    reveal_with_fuel(row_key, 2);
    assert(row_key(x) =~= value_key(ValueView::BigInt(a)));
    assert(row_key(y) =~= value_key(ValueView::BigInt(b)));
    assert(keys_fit(x));
    assert(keys_fit(y));
    law_equal_keys_are_equal_rows(x, y);
    if value_key(ValueView::BigInt(a)) == value_key(ValueView::BigInt(b)) {
        assert(folded_row(x)[0] == folded_row(y)[0]);
        assert(folded_row(x)[0] == folded(x[0]));
        assert(folded_row(y)[0] == folded(y[0]));
    }
}

proof fn lemma_plain_keys(v: ValueView, w: ValueView)
    requires
        plain_value(v),
        plain_value(w),
        !(v is Null),
        !(w is Null),
    ensures
        sort_key(v) == sort_key(w) <==> same_plain_value(v, w),
{
    match (v, w) {
        (ValueView::Varchar(s), ValueView::Varchar(t)) => {
            encode_utf8_decode_utf8(s);
            encode_utf8_decode_utf8(t);
            let x = seq![5u8] + encode_utf8(s);
            let y = seq![5u8] + encode_utf8(t);
            assert(x.skip(1) =~= encode_utf8(s));
            assert(y.skip(1) =~= encode_utf8(t));
        },
        (ValueView::Varchar(s), _) => {
            assert(sort_key(v)[0] == 5);
            assert(sort_key(w)[0] == 3);
        },
        (_, ValueView::Varchar(t)) => {
            assert(sort_key(v)[0] == 3);
            assert(sort_key(w)[0] == 5);
        },
        _ => {
            let a = held(v)->0 as i64;
            let b = held(w)->0 as i64;
            assert(sort_key(v) == value_key(ValueView::BigInt(a)));
            assert(sort_key(w) == value_key(ValueView::BigInt(b)));
            lemma_integer_keys(a, b);
        },
    }
}

proof fn lemma_value_keys(vals: Seq<ValueView>, i: int, acc: Seq<Seq<u8>>, key: Seq<u8>)
    requires
        0 <= i <= vals.len(),
    ensures
        value_keys(vals, i, acc).contains(key) <==> acc.contains(key) || exists|j: int|
            i <= j < vals.len() && !((#[trigger] vals[j]) is Null) && sort_key(vals[j]) == key,
    decreases vals.len() - i,
{
    if i < vals.len() {
        let next = if vals[i].is_null() {
            acc
        } else {
            acc.push(sort_key(vals[i]))
        };
        lemma_value_keys(vals, i + 1, next, key);
        if !(vals[i] is Null) {
            if acc.contains(key) {
                let k = choose|k: int| 0 <= k < acc.len() && acc[k] == key;
                assert(next[k] == key);
            }
            if sort_key(vals[i]) == key {
                assert(next[acc.len() as int] == key);
            }
            if next.contains(key) {
                let k = choose|k: int| 0 <= k < next.len() && next[k] == key;
                if k < acc.len() {
                    assert(acc[k] == key);
                }
            }
        }
    }
}

proof fn lemma_first_values(
    rows: Seq<Seq<ValueView>>,
    i: int,
    acc: Seq<ValueView>,
    key: Seq<u8>,
)
    requires
        0 <= i <= rows.len(),
    ensures
        ({
            let vals = first_values(rows, i, acc);
            (exists|j: int|
                0 <= j < vals.len() && !((#[trigger] vals[j]) is Null) && sort_key(vals[j]) == key)
                <==> (exists|j: int|
                0 <= j < acc.len() && !((#[trigger] acc[j]) is Null) && sort_key(acc[j]) == key)
                || (exists|k: int|
                i <= k < rows.len() && (#[trigger] rows[k]).len() > 0 && !(rows[k][0] is Null)
                    && sort_key(rows[k][0]) == key)
        }),
    decreases rows.len() - i,
{
    if i < rows.len() {
        let next = if rows[i].len() == 0 {
            acc
        } else {
            acc.push(rows[i][0])
        };
        lemma_first_values(rows, i + 1, next, key);
        if rows[i].len() > 0 {
            if exists|j: int|
                0 <= j < acc.len() && !((#[trigger] acc[j]) is Null) && sort_key(acc[j]) == key {
                let j = choose|j: int|
                    0 <= j < acc.len() && !((#[trigger] acc[j]) is Null) && sort_key(acc[j]) == key;
                assert(next[j] == acc[j]);
            }
            if exists|j: int|
                0 <= j < next.len() && !((#[trigger] next[j]) is Null) && sort_key(next[j])
                    == key {
                let j = choose|j: int|
                    0 <= j < next.len() && !((#[trigger] next[j]) is Null) && sort_key(next[j])
                        == key;
                if j < acc.len() {
                    assert(acc[j] == next[j]);
                }
            }
            assert(next[acc.len() as int] == rows[i][0]);
        }
    }
}

/// IN a query tells whether one of the rows of the query begins with the value, and NOT IN whether
/// none does.
pub proof fn law_in_query_looks_through_its_rows(
    e: Expr,
    x: Expr,
    negated: bool,
    e0: EngineView,
    e1: EngineView,
    out: Expr,
    row: Seq<ValueView>,
    names: Seq<Seq<char>>,
    h: HostView,
    v: ValueView,
) -> (a: Answer)
    requires
        e matches Expr::InSubquery { expr, subquery, negated: n } && *expr == x && n == negated,
        x is ColumnRef || x is Literal,
        expr_resolved(e, e0, e1, Ok(out), h),
        eval(x, row, names, h) == Ok::<ValueView, ErrorView>(v),
        plain_value(v),
        !(v is Null),
    ensures
        e matches Expr::InSubquery { expr, subquery, negated: n } && stmt_ran(
            *subquery,
            ""@,
            e0,
            e1,
            a,
            h,
        ),
        a matches Ok(r) && ((forall|i: int|
            0 <= i < r.rows.len() && (#[trigger] r.rows[i]).len() > 0 ==> plain_value(r.rows[i][0]))
            ==> eval(out, row, names, h) == Ok::<ValueView, ErrorView>(
            ValueView::Boolean(begins_a_row(r.rows, v) != negated),
        )),
{
    reveal_with_fuel(expr_resolved, 2);
    reveal_with_fuel(eval, 2);
    if let Expr::InSubquery { expr, subquery, negated: n } = e {
        let (em, a) = choose|em: EngineView, a: Answer| #[trigger]
            midway(em, a) && stmt_ran(*subquery, ""@, e0, em, a, h) && match a {
                Err(y) => e1 == em && Ok::<Expr, ErrorView>(out) == Err::<Expr, ErrorView>(y),
                Ok(r) => exists|i: std::result::Result<Expr, ErrorView>| #[trigger]
                    in_part(e1, i) && expr_resolved(*expr, em, e1, i, h) && match i {
                        Err(y) => Ok::<Expr, ErrorView>(out) == Err::<Expr, ErrorView>(y),
                        Ok(inner) => crate::resolve::tests_membership(out, inner, r.rows, n),
                    },
            };
        let r = a->Ok_0;
        let vals = first_values(r.rows, 0, Seq::empty());
        lemma_value_keys(vals, 0, Seq::empty(), sort_key(v));
        lemma_first_values(r.rows, 0, Seq::empty(), sort_key(v));
        if forall|i: int|
            0 <= i < r.rows.len() && (#[trigger] r.rows[i]).len() > 0 ==> plain_value(
                r.rows[i][0],
            ) {
            assert forall|k: int|
                0 <= k < r.rows.len() && (#[trigger] r.rows[k]).len() > 0 implies (!(
            r.rows[k][0] is Null) && sort_key(r.rows[k][0]) == sort_key(v)) == same_plain_value(
                v,
                r.rows[k][0],
            ) by {
                if !(r.rows[k][0] is Null) {
                    lemma_plain_keys(v, r.rows[k][0]);
                }
            }
        }
        a
    } else {
        arbitrary()
    }
}

/// EXISTS tells whether a query has rows, and NOT EXISTS whether it has none.
pub proof fn law_exists_tells_of_rows(
    e: Expr,
    e0: EngineView,
    e1: EngineView,
    out: Expr,
    row: Seq<ValueView>,
    names: Seq<Seq<char>>,
    h: HostView,
) -> (a: Answer)
    requires
        e is Exists,
        expr_resolved(e, e0, e1, Ok(out), h),
    ensures
        e matches Expr::Exists { subquery, negated } && stmt_ran(*subquery, ""@, e0, e1, a, h) && (
        a matches Ok(r) && eval(out, row, names, h) == Ok::<ValueView, ErrorView>(
            ValueView::Boolean(
                if negated {
                    r.rows.len() == 0
                } else {
                    r.rows.len() > 0
                },
            ),
        )),
{
    if let Expr::Exists { subquery, negated } = e {
        let a = choose|a: Answer| #[trigger]
            midway(e1, a) && stmt_ran(*subquery, ""@, e0, e1, a, h) && Ok::<Expr, ErrorView>(out)
                == match a {
                Err(x) => Err::<Expr, ErrorView>(x),
                Ok(x) => Ok::<Expr, ErrorView>(
                    Expr::Literal(LiteralValue::Boolean((x.rows.len() > 0) != negated)),
                ),
            };
        a
    } else {
        arbitrary()
    }
}

/// A query in the place of a value stands for the first value of its first row, and for NULL if it
/// has no rows.
pub proof fn law_query_stands_for_its_first_value(
    e: Expr,
    e0: EngineView,
    e1: EngineView,
    out: Expr,
    row: Seq<ValueView>,
    names: Seq<Seq<char>>,
    h: HostView,
) -> (a: Answer)
    requires
        e is Subquery,
        expr_resolved(e, e0, e1, Ok(out), h),
    ensures
        e matches Expr::Subquery(q) && stmt_ran(*q, ""@, e0, e1, a, h),
        a is Ok,
        a->Ok_0.rows.len() == 0 ==> eval(out, row, names, h) == Ok::<ValueView, ErrorView>(
            ValueView::Null,
        ),
        ({
            let rows = a->Ok_0.rows;
            rows.len() > 0 && rows[0].len() > 0 && plain_value(rows[0][0]) ==> (eval(
                out,
                row,
                names,
                h,
            ) matches Ok(v) && (same_plain_value(v, rows[0][0]) || (v is Null
                && rows[0][0] is Null)))
        }),
{
    if let Expr::Subquery(q) = e {
        let a = choose|a: Answer| #[trigger]
            midway(e1, a) && stmt_ran(*q, ""@, e0, e1, a, h) && match a {
                Err(x) => Ok::<Expr, ErrorView>(out) == Err::<Expr, ErrorView>(x),
                Ok(x) => crate::resolve::is_scalar(Ok(out), x.rows, h),
            };
        a
    } else {
        arbitrary()
    }
}

} // verus!
