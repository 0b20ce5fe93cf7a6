//! What WHERE, the SELECT list, UPDATE and DELETE do to rows.
use crate::aggregate::RowView;
use crate::ast::{Expr, SelectColumn};
use crate::catalog::{Catalog, TableInfo};
use crate::common::RID;
use crate::delete::row_gone;
use crate::error::ErrorView;
use crate::eval::{eval, eval_bool};
use crate::filter::{filter_from, filtered};
use crate::host::HostView;
use crate::insert::versioned;
use crate::insert_laws::{lemma_first_name, lemma_found_is_first, stands_for_column};
use crate::projection::{
    output_plan, planned, project_from, project_rows, projection, windows_from, OutputPlan,
    OutputView,
};
use crate::schema::{lemma_name_from, name_from};
use crate::state::StateView;
use crate::storage::{law_replaced_tuple, tuple_at};
use crate::tuple::serialized;
use crate::types::ValueView;
use crate::update::{assigned_from, row_updated};
use vstd::prelude::*;

verus! {

// ---------------------------------------------------------------------------
// WHERE
// ---------------------------------------------------------------------------

/// The rows among the first `n` on which a condition holds, in their order.
pub open spec fn satisfying(
    p: Expr,
    rows: Seq<RowView>,
    n: int,
    names: Seq<Seq<char>>,
    h: HostView,
) -> Seq<RowView>
    decreases n,
{
    if n <= 0 {
        Seq::empty()
    } else {
        let before = satisfying(p, rows, n - 1, names, h);
        if eval_bool(p, rows[n - 1].1, names, h) == Ok::<bool, ErrorView>(true) {
            before.push(rows[n - 1])
        } else {
            before
        }
    }
}

proof fn lemma_filter(p: Expr, rows: Seq<RowView>, i: int, names: Seq<Seq<char>>, h: HostView)
    requires
        0 <= i <= rows.len(),
        filter_from(p, rows, i, satisfying(p, rows, i, names, h), names, h) is Ok,
    ensures
        filter_from(p, rows, i, satisfying(p, rows, i, names, h), names, h)->Ok_0 == satisfying(
            p,
            rows,
            rows.len() as int,
            names,
            h,
        ),
    decreases rows.len() - i,
{
    if i < rows.len() {
        lemma_filter(p, rows, i + 1, names, h);
    }
}

/// WHERE gives the rows on which its condition holds, each once, in their order.
pub proof fn law_where_keeps_order(
    p: Expr,
    rows: Seq<RowView>,
    names: Seq<Seq<char>>,
    h: HostView,
)
    requires
        filtered(p, rows, names, h) is Ok,
    ensures
        filtered(p, rows, names, h)->Ok_0 == satisfying(p, rows, rows.len() as int, names, h),
{
    lemma_filter(p, rows, 0, names, h);
}

// ---------------------------------------------------------------------------
// SELECT lists
// ---------------------------------------------------------------------------

/// Whether all columns of a SELECT list are expressions other than window functions.
pub open spec fn plain_columns(cols: Seq<SelectColumn>) -> bool {
    forall|j: int|
        0 <= j < cols.len() ==> (#[trigger] cols[j] matches SelectColumn::Expr { expr, alias }
            && !(expr is WindowFunction))
}

pub proof fn lemma_planned(cols: Seq<SelectColumn>, names: Seq<Seq<char>>, i: int, p: OutputPlan)
    requires
        plain_columns(cols),
        0 <= i <= cols.len(),
        p.exprs.len() == i,
        p.names.len() == i,
        forall|j: int|
            0 <= j < i ==> (#[trigger] cols[j] matches SelectColumn::Expr { expr, alias }
                && p.exprs[j] == OutputView::Expr(expr)),
    ensures
        planned(p, cols, names, i).exprs.len() == cols.len(),
        forall|j: int|
            0 <= j < cols.len() ==> (#[trigger] cols[j] matches SelectColumn::Expr { expr, alias }
                && planned(p, cols, names, i).exprs[j] == OutputView::Expr(expr)),
    decreases cols.len() - i,
{
    if i < cols.len() {
        let c = cols[i];
        if let SelectColumn::Expr { expr, alias } = c {
            let next = OutputPlan {
                names: p.names.push(
                    match alias {
                        Some(a) => a@,
                        None => crate::projection::expr_name(expr),
                    },
                ),
                exprs: p.exprs.push(OutputView::Expr(expr)),
            };
            lemma_planned(cols, names, i + 1, next);
        }
    }
}

/// Whether all outputs are expressions other than window functions.
pub open spec fn plain_outputs(exprs: Seq<OutputView>) -> bool {
    forall|j: int|
        0 <= j < exprs.len() ==> (#[trigger] exprs[j] matches OutputView::Expr(e) && !(
        e is WindowFunction))
}

proof fn lemma_no_windows(
    exprs: Seq<OutputView>,
    j: int,
    acc: Seq<Option<Seq<ValueView>>>,
    rows: Seq<RowView>,
    names: Seq<Seq<char>>,
    h: HostView,
)
    requires
        plain_outputs(exprs),
        0 <= j <= exprs.len(),
        acc.len() == j,
        forall|k: int| 0 <= k < j ==> #[trigger] acc[k] is None,
    ensures
        windows_from(exprs, j, acc, rows, names, h) matches Ok(w) && w.len() == exprs.len()
            && forall|k: int| 0 <= k < w.len() ==> #[trigger] w[k] is None,
    decreases exprs.len() - j,
{
    if j < exprs.len() {
        let x = exprs[j];
        lemma_no_windows(exprs, j + 1, acc.push(None), rows, names, h);
    }
}

pub proof fn lemma_project(
    exprs: Seq<OutputView>,
    wins: Seq<Option<Seq<ValueView>>>,
    j: int,
    acc: Seq<ValueView>,
    r: int,
    row: Seq<ValueView>,
    names: Seq<Seq<char>>,
    h: HostView,
)
    requires
        plain_outputs(exprs),
        wins.len() == exprs.len(),
        forall|k: int| 0 <= k < wins.len() ==> #[trigger] wins[k] is None,
        0 <= j <= exprs.len(),
        acc.len() == j,
        project_from(exprs, wins, j, acc, r, row, names, h) is Ok,
        forall|k: int|
            0 <= k < j ==> (#[trigger] exprs[k] matches OutputView::Expr(e) && eval(
                e,
                row,
                names,
                h,
            ) == Ok::<ValueView, ErrorView>(acc[k])),
    ensures
        ({
            let out = project_from(exprs, wins, j, acc, r, row, names, h)->Ok_0;
            &&& out.len() == exprs.len()
            &&& forall|k: int|
                0 <= k < exprs.len() ==> (#[trigger] exprs[k] matches OutputView::Expr(e) && eval(
                    e,
                    row,
                    names,
                    h,
                ) == Ok::<ValueView, ErrorView>(out[k]))
        }),
    decreases exprs.len() - j,
{
    if j < exprs.len() {
        let x = exprs[j];
        let w = wins[j];
        if let OutputView::Expr(e) = x {
            let v = eval(e, row, names, h)->Ok_0;
            lemma_project(exprs, wins, j + 1, acc.push(v), r, row, names, h);
        }
    }
}

/// Whether output rows are those of rows, as far as they go.
spec fn projected(
    exprs: Seq<OutputView>,
    rows: Seq<RowView>,
    out: Seq<Seq<ValueView>>,
    names: Seq<Seq<char>>,
    h: HostView,
) -> bool {
    forall|i: int, k: int|
        0 <= i < out.len() && 0 <= k < exprs.len() ==> (#[trigger] exprs[k] matches OutputView::Expr(
            e,
        ) && (#[trigger] out[i]).len() == exprs.len() && eval(e, rows[i].1, names, h) == Ok::<
            ValueView,
            ErrorView,
        >(out[i][k]))
}

proof fn lemma_project_rows(
    exprs: Seq<OutputView>,
    wins: Seq<Option<Seq<ValueView>>>,
    rows: Seq<RowView>,
    i: int,
    acc: Seq<Seq<ValueView>>,
    names: Seq<Seq<char>>,
    h: HostView,
)
    requires
        plain_outputs(exprs),
        wins.len() == exprs.len(),
        forall|k: int| 0 <= k < wins.len() ==> #[trigger] wins[k] is None,
        0 <= i <= rows.len(),
        acc.len() == i,
        projected(exprs, rows, acc, names, h),
        project_rows(exprs, wins, rows, i, acc, names, h) is Ok,
    ensures
        project_rows(exprs, wins, rows, i, acc, names, h)->Ok_0.len() == rows.len(),
        projected(
            exprs,
            rows,
            project_rows(exprs, wins, rows, i, acc, names, h)->Ok_0,
            names,
            h,
        ),
    decreases rows.len() - i,
{
    if i < rows.len() {
        lemma_project(exprs, wins, 0, Seq::empty(), i, rows[i].1, names, h);
        let row = project_from(exprs, wins, 0, Seq::empty(), i, rows[i].1, names, h)->Ok_0;
        let next = acc.push(row);
        assert forall|r: int, k: int|
            0 <= r < next.len() && 0 <= k < exprs.len() implies (#[trigger] exprs[k] matches OutputView::Expr(
            e,
        ) && (#[trigger] next[r]).len() == exprs.len() && eval(e, rows[r].1, names, h) == Ok::<
            ValueView,
            ErrorView,
        >(next[r][k])) by {
            if r < i {
                assert(next[r] == acc[r]);
            }
        }
        lemma_project_rows(exprs, wins, rows, i + 1, next, names, h);
    }
}

/// A SELECT list gives for each row, in their order, a row with the values of its expressions, in
/// theirs.
pub proof fn law_select_list_is_evaluated(
    cols: Seq<SelectColumn>,
    rows: Seq<RowView>,
    names: Seq<Seq<char>>,
    h: HostView,
)
    requires
        plain_columns(cols),
        projection(cols, rows, names, h) is Ok,
    ensures
        ({
            let out = projection(cols, rows, names, h)->Ok_0.1;
            &&& out.len() == rows.len()
            &&& forall|i: int, j: int|
                0 <= i < out.len() && 0 <= j < cols.len() ==> (
                #[trigger] cols[j] matches SelectColumn::Expr { expr, alias } && (
                #[trigger] out[i]).len() == cols.len() && eval(expr, rows[i].1, names, h) == Ok::<
                    ValueView,
                    ErrorView,
                >(out[i][j]))
        }),
{
    let none = OutputPlan { names: Seq::empty(), exprs: Seq::empty() };
    lemma_planned(cols, names, 0, none);
    let p = output_plan(cols, names);
    assert(plain_outputs(p.exprs)) by {
        assert forall|j: int| 0 <= j < p.exprs.len() implies (
        #[trigger] p.exprs[j] matches OutputView::Expr(e) && !(e is WindowFunction)) by {
            let c = cols[j];
        }
    }
    lemma_no_windows(p.exprs, 0, Seq::empty(), rows, names, h);
    let wins = windows_from(p.exprs, 0, Seq::empty(), rows, names, h)->Ok_0;
    lemma_project_rows(p.exprs, wins, rows, 0, Seq::empty(), names, h);
    let out = projection(cols, rows, names, h)->Ok_0.1;
    assert forall|i: int, j: int| 0 <= i < out.len() && 0 <= j < cols.len() implies (
    #[trigger] cols[j] matches SelectColumn::Expr { expr, alias } && (#[trigger] out[i]).len()
        == cols.len() && eval(expr, rows[i].1, names, h) == Ok::<ValueView, ErrorView>(
        out[i][j],
    )) by {
        let x = p.exprs[j];
    }
}

// ---------------------------------------------------------------------------
// UPDATE
// ---------------------------------------------------------------------------

/// Whether no two assignments are to the same column.
pub open spec fn distinct_targets(assignments: Seq<(String, Expr)>, names: Seq<Seq<char>>) -> bool {
    forall|i: int, j: int, k: int|
        0 <= i < assignments.len() && 0 <= j < assignments.len() && #[trigger] stands_for_column(
            assignments[i].0@,
            names,
            k,
        ) && #[trigger] stands_for_column(assignments[j].0@, names, k) ==> i == j
}

/// Whether none of the first `n` assignments is to a column.
pub open spec fn not_assigned(
    assignments: Seq<(String, Expr)>,
    n: int,
    names: Seq<Seq<char>>,
    k: int,
) -> bool {
    forall|i: int|
        0 <= i < n ==> !#[trigger] stands_for_column(assignments[i].0@, names, k)
}

proof fn lemma_assigned(
    assignments: Seq<(String, Expr)>,
    i: int,
    row: Seq<ValueView>,
    names: Seq<Seq<char>>,
    acc: Seq<ValueView>,
    h: HostView,
)
    requires
        0 <= i <= assignments.len(),
        distinct_targets(assignments, names),
        row.len() == names.len(),
        acc.len() == row.len(),
        assigned_from(assignments, i, row, names, acc, h) is Ok,
        forall|j: int, k: int|
            0 <= j < i && #[trigger] stands_for_column(assignments[j].0@, names, k) ==> eval(
                assignments[j].1,
                row,
                names,
                h,
            ) == Ok::<ValueView, ErrorView>(acc[k]),
        forall|k: int|
            0 <= k < names.len() && #[trigger] not_assigned(assignments, i, names, k) ==> acc[k]
                == row[k],
    ensures
        ({
            let new = assigned_from(assignments, i, row, names, acc, h)->Ok_0;
            &&& new.len() == row.len()
            &&& forall|j: int, k: int|
                0 <= j < assignments.len() && #[trigger] stands_for_column(
                    assignments[j].0@,
                    names,
                    k,
                ) ==> eval(assignments[j].1, row, names, h) == Ok::<ValueView, ErrorView>(new[k])
            &&& forall|k: int|
                0 <= k < names.len() && #[trigger] not_assigned(
                    assignments,
                    assignments.len() as int,
                    names,
                    k,
                ) ==> new[k] == row[k]
        }),
    decreases assignments.len() - i,
{
    if i < assignments.len() {
        let name = assignments[i].0@;
        lemma_name_from(names, name, 0);
        lemma_found_is_first(name, names, 0);
        let at = name_from(names, name, 0)->0;
        let v = eval(assignments[i].1, row, names, h)->Ok_0;
        let next = acc.update(at, v);
        assert(stands_for_column(assignments[i].0@, names, at));
        assert forall|j: int, k: int|
            0 <= j < i + 1 && #[trigger] stands_for_column(
                assignments[j].0@,
                names,
                k,
            ) implies eval(assignments[j].1, row, names, h) == Ok::<ValueView, ErrorView>(
            next[k],
        ) by {
            if j == i {
                lemma_first_name(name, names, 0, k);
            }
        }
        assert forall|k: int|
            0 <= k < names.len() && #[trigger] not_assigned(
                assignments,
                i + 1,
                names,
                k,
            ) implies next[k] == row[k] by {
            assert(!stands_for_column(assignments[i].0@, names, k));
            assert(not_assigned(assignments, i, names, k));
        }
        lemma_assigned(assignments, i + 1, row, names, next, h);
    }
}

/// An UPDATE gives each column that it assigns to the value of its expression on the row as it was
/// before, and leaves the other columns as they were.
pub proof fn law_assignments_change_their_columns(
    assignments: Seq<(String, Expr)>,
    row: Seq<ValueView>,
    names: Seq<Seq<char>>,
    h: HostView,
)
    requires
        distinct_targets(assignments, names),
        row.len() == names.len(),
        assigned_from(assignments, 0, row, names, row, h) is Ok,
    ensures
        ({
            let new = assigned_from(assignments, 0, row, names, row, h)->Ok_0;
            &&& new.len() == row.len()
            &&& forall|j: int, k: int|
                0 <= j < assignments.len() && #[trigger] stands_for_column(
                    assignments[j].0@,
                    names,
                    k,
                ) ==> eval(assignments[j].1, row, names, h) == Ok::<ValueView, ErrorView>(new[k])
            &&& forall|k: int|
                0 <= k < names.len() && #[trigger] not_assigned(
                    assignments,
                    assignments.len() as int,
                    names,
                    k,
                ) ==> new[k] == row[k]
        }),
{
    lemma_assigned(assignments, 0, row, names, row, h);
}

/// After an UPDATE of a row its place holds the changed row, and all other places what they held.
pub proof fn law_update_changes_one_place(
    st: StateView,
    c: Catalog,
    info: TableInfo,
    table: Seq<char>,
    assignments: Seq<(String, Expr)>,
    row: RowView,
    other: RID,
    h: HostView,
)
    requires
        row_updated(st, c, info, table, assignments, row, h).result is Ok,
        tuple_at(st.pages, row.0) is Some,
    ensures
        ({
            let after = row_updated(st, c, info, table, assignments, row, h).state;
            let new = assigned_from(assignments, 0, row.1, info.schema.names(), row.1, h);
            &&& new is Ok
            &&& serialized(new->Ok_0, info.schema, h) matches Ok(data) && tuple_at(
                after.pages,
                row.0,
            ) == Some(
                versioned(
                    data,
                    info.mvcc_enabled,
                    match st.txn {
                        Some(t) => t.txn_id.0,
                        None => 0,
                    },
                ),
            )
            &&& other != row.0 ==> tuple_at(after.pages, other) == tuple_at(st.pages, other)
        }),
{
    let new = assigned_from(assignments, 0, row.1, info.schema.names(), row.1, h)->Ok_0;
    let data = serialized(new, info.schema, h)->Ok_0;
    let bytes = versioned(data, info.mvcc_enabled, crate::insert::txn_number(st.txn));
    law_replaced_tuple(st.pages, row.0, Some(bytes), other);
}

/// A row that is taken out leaves its place empty, and all other places as they were.
pub proof fn law_removal_empties_one_place(
    st: StateView,
    table: Seq<char>,
    names: Seq<Seq<char>>,
    row: RowView,
    other: RID,
)
    ensures
        tuple_at(row_gone(st, table, names, row).pages, row.0) is None,
        other != row.0 ==> tuple_at(row_gone(st, table, names, row).pages, other) == tuple_at(
            st.pages,
            other,
        ),
{
    law_replaced_tuple(st.pages, row.0, None, other);
}

} // verus!
