//! UPDATE.
use crate::aggregate::RowView;
use crate::ast::Expr;
use crate::catalog::{Catalog, TableInfo};
use crate::common::RID;
use crate::delete::{replace_row, row_replaced};
use crate::error::{execution_on, outcome, ErrorView, ForgeError, Result};
use crate::eval::{eval, evaluate};
use crate::host::{Host, HostView};
use crate::insert::{
    check_complaint, complain_duplicate, duplicate, duplicate_complaint, find_duplicate,
    put_version, reference_complaint, txn_number, validate_checks, validate_references, versioned,
};
use crate::scan::{find_table, no_table, table_of};
use crate::schema::{name_from, Schema};
use crate::state::{
    affected, affected_result, DmlContext, ExecuteResult, ResultView, StateView, Step,
};
use crate::tuple::{serialize, serialized};
use crate::types::{clone_row, Value, ValueView};
use vstd::prelude::*;

verus! {

/// The row `acc` with the assignments from `i` on made; their expressions read the row as it
/// was before.
pub open spec fn assigned_from(
    assignments: Seq<(String, Expr)>,
    i: int,
    row: Seq<ValueView>,
    names: Seq<Seq<char>>,
    acc: Seq<ValueView>,
    h: HostView,
) -> std::result::Result<Seq<ValueView>, ErrorView>
    decreases assignments.len() - i,
{
    if i < 0 || i >= assignments.len() {
        Ok(acc)
    } else {
        match name_from(names, assignments[i].0@, 0) {
            None => Err(ErrorView::Execution("column '"@ + assignments[i].0@ + "' not found"@)),
            Some(k) => match eval(assignments[i].1, row, names, h) {
                Err(e) => Err(e),
                Ok(v) => assigned_from(
                    assignments,
                    i + 1,
                    row,
                    names,
                    if k < acc.len() {
                        acc.update(k, v)
                    } else {
                        acc
                    },
                    h,
                ),
            },
        }
    }
}

fn assign(assignments: &Vec<(String, Expr)>, row: &Vec<Value>, schema: &Schema, host: &Host) -> (r:
    Result<Vec<Value>>)
    ensures
        outcome(r) == assigned_from(
            assignments@,
            0,
            row.deep_view(),
            schema.names(),
            row.deep_view(),
            host@,
        ),
{
    let ghost rv = row.deep_view();
    let ghost names = schema.names();
    let ghost all = assigned_from(assignments@, 0, rv, names, rv, host@);
    let mut out = clone_row(row);
    let mut i: usize = 0;
    while i < assignments.len()
        invariant
            0 <= i <= assignments.len(),
            rv == row.deep_view(),
            names == schema.names(),
            all == assigned_from(assignments@, 0, rv, names, rv, host@),
            all == assigned_from(assignments@, i as int, rv, names, out.deep_view(), host@),
        decreases assignments.len() - i,
    {
        match schema.get_column(assignments[i].0.as_str()) {
            None => {
                return execution_on("column '", assignments[i].0.as_str(), "' not found");
            },
            Some(k) => {
                let v = evaluate(&assignments[i].1, row.as_slice(), schema, host)?;
                if k < out.len() {
                    let ghost before = out.deep_view();
                    let ghost vv = v@;
                    out.set(k, v);
                    assert(out.deep_view() =~= before.update(k as int, vv));
                }
            },
        }
        i += 1;
    }
    Ok(out)
}

/// One row changed, if it passes the CHECK constraints, no other row has a value that must not
/// be there twice, and the tables that it refers to have its values: its tuple, and its entries
/// in the indexes.
pub open spec fn row_updated(
    st: StateView,
    c: Catalog,
    info: TableInfo,
    table: Seq<char>,
    assignments: Seq<(String, Expr)>,
    row: RowView,
    h: HostView,
) -> Step<()> {
    let names = info.schema.names();
    match assigned_from(assignments, 0, row.1, names, row.1, h) {
        Err(e) => Step { state: st, result: Err(e) },
        Ok(new) => match check_complaint(info.schema.columns@, 0, new, names, h) {
            Some(e) => Step { state: st, result: Err(e) },
            None => match duplicate(st, info, table, new, Some(row.0)) {
                Some(p) => Step {
                    state: st,
                    result: Err(
                        duplicate_complaint(new[p.0], info.schema.columns@[p.0].name@, h),
                    ),
                },
                None => match reference_complaint(c, st, info.schema.columns@, 0, new, h) {
                    Some(e) => Step { state: st, result: Err(e) },
                    None => match serialized(new, info.schema, h) {
                        Err(e) => Step { state: st, result: Err(e) },
                        Ok(data) => Step {
                            state: row_replaced(
                                st,
                                table,
                                names,
                                row,
                                new,
                                versioned(data, info.mvcc_enabled, txn_number(st.txn)),
                            ),
                            result: Ok(()),
                        },
                    },
                },
            },
        },
    }
}

/// Changes one row.
pub fn update_row(
    ctx: &mut DmlContext,
    catalog: &Catalog,
    info: &TableInfo,
    table: &str,
    assignments: &Vec<(String, Expr)>,
    rid: RID,
    row: &Vec<Value>,
    host: &Host,
) -> (r: std::result::Result<(), ForgeError>)
    ensures
        ({
            let step = row_updated(
                old(ctx)@,
                *catalog,
                *info,
                table@,
                assignments@,
                (rid, row.deep_view()),
                host@,
            );
            &&& step.state == final(ctx)@
            &&& match r {
                Ok(_) => step.result is Ok,
                Err(e) => step.result == Err::<(), ErrorView>(e@),
            }
        }),
{
    let new = assign(assignments, row, &info.schema, host)?;
    validate_checks(&info.schema, &new, host)?;
    if let Some((c, _)) = find_duplicate(ctx, info, table, &new, Some(rid)) {
        assert(new.deep_view()[c as int] == new@[c as int]@);
        return Err(
            complain_duplicate(&new[c], info.schema.columns[c].name.as_str(), host),
        );
    }
    validate_references(catalog, ctx, &info.schema, &new, host)?;
    let data = serialize(&new, &info.schema, host)?;
    assert(data.deep_view() =~= data@);
    let xmin: u64 = match &ctx.txn_ctx {
        Some(t) => t.txn_id.0,
        None => 0,
    };
    let full = put_version(&data, info.mvcc_enabled, xmin);
    replace_row(ctx, table, &info.schema, rid, row, &new, full);
    Ok(())
}

/// The rows from `i` on changed. A row that cannot be changed ends the statement; those
/// before it are changed.
pub open spec fn rows_updated(
    st: StateView,
    c: Catalog,
    info: TableInfo,
    table: Seq<char>,
    assignments: Seq<(String, Expr)>,
    rows: Seq<RowView>,
    i: int,
    h: HostView,
) -> Step<ResultView>
    decreases rows.len() - i,
{
    if i < 0 || i >= rows.len() {
        Step { state: st, result: Ok(affected(rows.len() as int, 0)) }
    } else {
        let step = row_updated(st, c, info, table, assignments, rows[i], h);
        match step.result {
            Err(e) => Step { state: step.state, result: Err(e) },
            Ok(_) => rows_updated(step.state, c, info, table, assignments, rows, i + 1, h),
        }
    }
}

/// What an UPDATE of the given rows does and gives back.
pub open spec fn updated(
    st: StateView,
    c: Catalog,
    table: Seq<char>,
    assignments: Seq<(String, Expr)>,
    rows: Seq<RowView>,
    h: HostView,
) -> Step<ResultView> {
    match table_of(c, table) {
        None => Step { state: st, result: Err(no_table(table)) },
        Some(info) => rows_updated(st, c, info, table, assignments, rows, 0, h),
    }
}

/// Execute UPDATE statement on pre-filtered rows.
pub fn execute_update(
    table_name: &str,
    assignments: &Vec<(String, Expr)>,
    rows: &Vec<(RID, Vec<Value>)>,
    catalog: &Catalog,
    ctx: &mut DmlContext,
    host: &Host,
) -> (r: Result<ExecuteResult>)
    ensures
        updated(
            old(ctx)@,
            *catalog,
            table_name@,
            assignments@,
            rows.deep_view(),
            host@,
        ) == (Step { state: final(ctx)@, result: outcome(r) }),
{
    let info = find_table(catalog, table_name)?;
    let ghost rv = rows.deep_view();
    let ghost all = rows_updated(ctx@, *catalog, *info, table_name@, assignments@, rv, 0, host@);
    let mut i: usize = 0;
    while i < rows.len()
        invariant
            0 <= i <= rows.len(),
            rv == rows.deep_view(),
            all == updated(old(ctx)@, *catalog, table_name@, assignments@, rv, host@),
            all == rows_updated(ctx@, *catalog, *info, table_name@, assignments@, rv, i as int, host@),
        decreases rows.len() - i,
    {
        assert(rv[i as int] == (rows@[i as int].0, rows@[i as int].1.deep_view()));
        update_row(ctx, catalog, info, table_name, assignments, rows[i].0, &rows[i].1, host)?;
        i += 1;
    }
    Ok(affected_result(rows.len(), 0))
}

} // verus!
