//! Selection of rows by a condition, and their limitation in number.
use crate::aggregate::RowView;
use crate::ast::Expr;
use crate::common::RID;
use crate::error::{outcome, ErrorView, Result};
use crate::eval::{eval_bool, eval_to_bool};
use crate::host::{Host, HostView};
use crate::schema::Schema;
use crate::types::{Value, ValueView};
use vstd::prelude::*;

verus! {

/// The rows from `i` on that satisfy a predicate, behind `acc`.
pub open spec fn filter_from(
    p: Expr,
    rows: Seq<RowView>,
    i: int,
    acc: Seq<RowView>,
    names: Seq<Seq<char>>,
    h: HostView,
) -> std::result::Result<Seq<RowView>, ErrorView>
    decreases rows.len() - i,
{
    if i < 0 || i >= rows.len() {
        Ok(acc)
    } else {
        match eval_bool(p, rows[i].1, names, h) {
            Err(e) => Err(e),
            Ok(b) => filter_from(
                p,
                rows,
                i + 1,
                if b {
                    acc.push(rows[i])
                } else {
                    acc
                },
                names,
                h,
            ),
        }
    }
}

/// The rows that satisfy a predicate, in order.
pub open spec fn filtered(p: Expr, rows: Seq<RowView>, names: Seq<Seq<char>>, h: HostView) -> std::result::Result<
    Seq<RowView>,
    ErrorView,
> {
    filter_from(p, rows, 0, Seq::empty(), names, h)
}

/// Filter rows by a predicate expression.
pub fn execute_filter(
    predicate: &Expr,
    rows: Vec<(RID, Vec<Value>)>,
    schema: &Schema,
    host: &Host,
) -> (r: Result<Vec<(RID, Vec<Value>)>>)
    ensures
        outcome(r) == filtered(*predicate, rows.deep_view(), schema.names(), host@),
{
    let ghost view = rows.deep_view();
    let mut rest = rows;
    let mut out: Vec<(RID, Vec<Value>)> = Vec::new();
    let mut i: usize = 0;
    assert(out.deep_view() =~= Seq::<RowView>::empty());
    while i < rest.len()
        invariant
            0 <= i <= rest.len(),
            rest.len() == view.len(),
            view == rows.deep_view(),
            forall|k: int| i <= k < rest.len() ==> (#[trigger] rest@[k]).deep_view() == view[k],
            filter_from(*predicate, view, 0, Seq::empty(), schema.names(), host@) == filter_from(
                *predicate,
                view,
                i as int,
                out.deep_view(),
                schema.names(),
                host@,
            ),
        decreases rest.len() - i,
    {
        assert(rest@[i as int].deep_view() == view[i as int]);
        if eval_to_bool(predicate, rest[i].1.as_slice(), schema, host)? {
            let ghost before = out.deep_view();
            let rid = rest[i].0;
            let mut row: Vec<Value> = Vec::new();
            core::mem::swap(&mut row, &mut rest[i].1);
            let ghost rv = row.deep_view();
            assert((rid, rv) == view[i as int]);
            out.push((rid, row));
            assert(out.deep_view() =~= before.push((rid, rv)));
        }
        i += 1;
    }
    Ok(out)
}

/// Truncate rows to at most `count` entries.
pub fn execute_limit(count: usize, rows: Vec<Vec<Value>>) -> (r: Vec<Vec<Value>>)
    ensures
        r.deep_view() == limited(rows.deep_view(), count as int),
{
    let ghost view = rows.deep_view();
    let mut out = rows;
    out.truncate(count);
    assert(out.deep_view() =~= limited(view, count as int));
    out
}

/// The first `count` rows; all of them, if there are not so many.
pub open spec fn limited(rows: Seq<Seq<ValueView>>, count: int) -> Seq<Seq<ValueView>> {
    if count < rows.len() {
        rows.take(count)
    } else {
        rows
    }
}

/// The rows behind the first `offset`; none, if there are not so many.
pub open spec fn skipped(rows: Seq<Seq<ValueView>>, offset: int) -> Seq<Seq<ValueView>> {
    if offset < rows.len() {
        rows.skip(offset)
    } else {
        Seq::empty()
    }
}

/// Drops the first `offset` rows.
pub fn skip_rows(offset: usize, rows: Vec<Vec<Value>>) -> (r: Vec<Vec<Value>>)
    ensures
        r.deep_view() == skipped(rows.deep_view(), offset as int),
{
    let ghost view = rows.deep_view();
    let mut rest = rows;
    let mut out: Vec<Vec<Value>> = Vec::new();
    if offset < rest.len() {
        out = rest.split_off(offset);
        assert(out.deep_view() =~= view.skip(offset as int));
    }
    assert(out.deep_view() =~= skipped(view, offset as int));
    out
}

/// A row is selected if and only if it is there and satisfies the predicate.
pub proof fn law_selected_rows_satisfy(
    p: Expr,
    rows: Seq<RowView>,
    names: Seq<Seq<char>>,
    h: HostView,
    x: RowView,
)
    requires
        filtered(p, rows, names, h) is Ok,
    ensures
        filtered(p, rows, names, h)->Ok_0.contains(x) <==> rows.contains(x) && eval_bool(
            p,
            x.1,
            names,
            h,
        ) == Ok::<bool, ErrorView>(true),
{
    lemma_filter_from(p, rows, 0, Seq::empty(), names, h, x);
    if rows.contains(x) {
        let k = choose|k: int| 0 <= k < rows.len() && rows[k] == x;
        assert(0 <= k < rows.len() && rows[k] == x);
    }
}

proof fn lemma_filter_from(
    p: Expr,
    rows: Seq<RowView>,
    i: int,
    acc: Seq<RowView>,
    names: Seq<Seq<char>>,
    h: HostView,
    x: RowView,
)
    requires
        0 <= i <= rows.len(),
        filter_from(p, rows, i, acc, names, h) is Ok,
    ensures
        filter_from(p, rows, i, acc, names, h)->Ok_0.contains(x) <==> acc.contains(x) || ((exists|
            k: int,
        | i <= k < rows.len() && #[trigger] rows[k] == x) && eval_bool(p, x.1, names, h) == Ok::<
            bool,
            ErrorView,
        >(true)),
    decreases rows.len() - i,
{
    if i < rows.len() {
        let b = eval_bool(p, rows[i].1, names, h)->Ok_0;
        let next = if b {
            acc.push(rows[i])
        } else {
            acc
        };
        lemma_filter_from(p, rows, i + 1, next, names, h, x);
        if b {
            let more = acc.push(rows[i]);
            if acc.contains(x) {
                let z = choose|z: int| 0 <= z < acc.len() && acc[z] == x;
                assert(more[z] == x);
            }
            if rows[i] == x {
                assert(more[acc.len() as int] == x);
            }
            if more.contains(x) {
                let z = choose|z: int| 0 <= z < more.len() && more[z] == x;
                if z < acc.len() {
                    assert(acc[z] == x);
                }
            }
        }
    }
}

} // verus!
