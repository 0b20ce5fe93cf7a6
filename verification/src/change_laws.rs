//! What INSERT, UPDATE and DELETE statements do: which rows they change, to what, and how many they
//! report.
use crate::aggregate::RowView;
use crate::ast::{Expr, Statement};
use crate::catalog::{Catalog, TableInfo};
use crate::common::RID;
use crate::constraints::law_missing_numbers_are_given;
use crate::delete::{law_deleted_rows_are_gone, references_to, row_gone, rows_deleted};
use crate::executor::{executed, plan_rows, Purpose};
use crate::host::HostView;
use crate::insert::{
    counter, counter_key, counter_set, defaulted, numbered_from, row_given, row_inserted,
    row_stored, rows_inserted, txn_number, versioned,
};
use crate::plan::PlanNode;
use crate::planner::planned;
use crate::query_laws::fulfilling;
use crate::row_laws::{
    law_removal_empties_one_place, law_update_changes_one_place, law_where_keeps_order,
};
use crate::scan::table_of;
use crate::schema::{view_names, Column};
use crate::state::{readable, StateView};
use crate::storage::tuple_at;
use crate::tuple::serialized;
use crate::types::ValueView;
use crate::update::{assigned_from, row_updated, rows_updated};
use vstd::prelude::*;

verus! {

// ---------------------------------------------------------------------------
// INSERT
// ---------------------------------------------------------------------------

proof fn lemma_first_number(
    cols: Seq<Column>,
    i: int,
    table: Seq<char>,
    row: Seq<ValueView>,
    counters: Seq<(Seq<char>, i64)>,
    last: u64,
    k: int,
)
    requires
        0 <= i <= k < cols.len(),
        k < row.len(),
        cols[k].auto_increment,
        row[k] is Null,
        forall|j: int| i <= j < k ==> !(#[trigger] cols[j]).auto_increment,
        numbered_from(cols, i, table, row, counters, last).complete,
    ensures
        ({
            let v = numbered_from(cols, i, table, row, counters, last).row[k];
            let next = counter(counters, counter_key(table, cols[k].name@)) + 1;
            if cols[k].data_type is BigInt {
                v == ValueView::BigInt(next as i64)
            } else {
                v == ValueView::Integer((next as i64) as i32)
            }
        }),
    decreases cols.len() - i,
{
    if i < k {
        lemma_first_number(cols, i + 1, table, row, counters, last, k);
    } else {
        let key = counter_key(table, cols[i].name@);
        let next = (counter(counters, key) + 1) as i64;
        let v = if cols[i].data_type is BigInt {
            ValueView::BigInt(next)
        } else {
            ValueView::Integer(next as i32)
        };
        law_missing_numbers_are_given(
            cols,
            i + 1,
            table,
            row.update(i, v),
            counter_set(counters, key, next),
            next as u64,
            k,
        );
    }
}

/// A row that an INSERT puts into a table has in each column the value that was given for it. Where
/// none, or NULL, was given, an auto-increment column has the number behind the last one, any other
/// its default, and one without a default NULL.
pub proof fn law_inserted_row_is_completed(
    st: StateView,
    c: Catalog,
    info: TableInfo,
    table: Seq<char>,
    exprs: Seq<Expr>,
    columns: Option<Seq<Seq<char>>>,
    last: u64,
    h: HostView,
) -> (row: Seq<ValueView>)
    requires
        row_inserted(st, c, info, table, exprs, columns, None, last, h).result is Ok,
    ensures
        row_given(exprs, columns, info.schema.names(), h) is Ok,
        ({
            let step = row_inserted(st, c, info, table, exprs, columns, None, last, h);
            let given = row_given(exprs, columns, info.schema.names(), h)->Ok_0;
            let cols = info.schema.columns@;
            &&& step.result->Ok_0.0 == 1
            &&& row.len() == given.len()
            &&& step.state == row_stored(
                StateView { counters: step.state.counters, ..st },
                info,
                table,
                row,
                h,
            ).state
            &&& forall|k: int|
                0 <= k < row.len() && !(given[k] is Null) ==> #[trigger] row[k] == given[k]
            &&& forall|k: int|
                0 <= k < row.len() && k < cols.len() && given[k] is Null && !cols[k].auto_increment
                    ==> #[trigger] row[k] == (match cols[k].default_value {
                    Some(d) => d@,
                    None => ValueView::Null,
                })
            &&& forall|k: int|
                0 <= k < row.len() && k < cols.len() && given[k] is Null && cols[k].auto_increment
                    && (forall|j: int| 0 <= j < k ==> !(#[trigger] cols[j]).auto_increment) ==> {
                    let next = counter(st.counters, counter_key(table, cols[k].name@)) + 1;
                    #[trigger] row[k] == if cols[k].data_type is BigInt {
                        ValueView::BigInt(next as i64)
                    } else {
                        ValueView::Integer((next as i64) as i32)
                    }
                }
        }),
{
    let cols = info.schema.columns@;
    let given = row_given(exprs, columns, info.schema.names(), h)->Ok_0;
    let n = numbered_from(cols, 0, table, given, st.counters, last);
    let row = defaulted(cols, n.row);
    assert forall|k: int| 0 <= k < given.len() implies n.row.len() == given.len() && (if k
        < cols.len() && cols[k].auto_increment && given[k] is Null {
        !(n.row[k] is Null)
    } else {
        #[trigger] n.row[k] == given[k]
    }) by {
        law_missing_numbers_are_given(cols, 0, table, given, st.counters, last, k);
    }
    lemma_same_length(cols, 0, table, given, st.counters, last);
    assert forall|k: int|
        0 <= k < row.len() && k < cols.len() && given[k] is Null && cols[k].auto_increment && (
        forall|j: int| 0 <= j < k ==> !(#[trigger] cols[j]).auto_increment) implies ({
        let next = counter(st.counters, counter_key(table, cols[k].name@)) + 1;
        #[trigger] row[k] == if cols[k].data_type is BigInt {
            ValueView::BigInt(next as i64)
        } else {
            ValueView::Integer((next as i64) as i32)
        }
    }) by {
        lemma_first_number(cols, 0, table, given, st.counters, last, k);
    }
    row
}

proof fn lemma_same_length(
    cols: Seq<Column>,
    i: int,
    table: Seq<char>,
    row: Seq<ValueView>,
    counters: Seq<(Seq<char>, i64)>,
    last: u64,
)
    ensures
        numbered_from(cols, i, table, row, counters, last).row.len() == row.len(),
    decreases cols.len() - i,
{
    if 0 <= i < cols.len() {
        if cols[i].auto_increment && i < row.len() && row[i].is_null() {
            let key = counter_key(table, cols[i].name@);
            let next = (counter(counters, key) + 1) as i64;
            let v = if cols[i].data_type is BigInt {
                ValueView::BigInt(next)
            } else {
                ValueView::Integer(next as i32)
            };
            lemma_same_length(
                cols,
                i + 1,
                table,
                row.update(i, v),
                counter_set(counters, key, next),
                next as u64,
            );
        } else {
            lemma_same_length(cols, i + 1, table, row, counters, last);
        }
    }
}

proof fn lemma_inserted_count(
    st: StateView,
    c: Catalog,
    info: TableInfo,
    table: Seq<char>,
    values: Seq<Vec<Expr>>,
    i: int,
    columns: Option<Seq<Seq<char>>>,
    count: int,
    last: u64,
    h: HostView,
)
    requires
        0 <= i <= values.len(),
        rows_inserted(st, c, info, table, values, i, columns, None, count, last, h).result is Ok,
    ensures
        rows_inserted(
            st,
            c,
            info,
            table,
            values,
            i,
            columns,
            None,
            count,
            last,
            h,
        ).result->Ok_0.rows_affected == count + values.len() - i,
    decreases values.len() - i,
{
    if i < values.len() {
        let step = row_inserted(st, c, info, table, values[i]@, columns, None, last, h);
        let row = law_inserted_row_is_completed(
            st,
            c,
            info,
            table,
            values[i]@,
            columns,
            last,
            h,
        );
        let p = step.result->Ok_0;
        lemma_inserted_count(
            step.state,
            c,
            info,
            table,
            values,
            i + 1,
            columns,
            count + p.0,
            p.1,
            h,
        );
    }
}

/// An INSERT that succeeds reports as many rows as it was given.
pub proof fn law_insert_reports_its_rows(
    stmt: Statement,
    c: Catalog,
    plan: PlanNode,
    st: StateView,
    h: HostView,
)
    requires
        stmt is Insert,
        stmt->Insert_on_conflict is None,
        planned(stmt, c, Ok(plan)),
        executed(plan, c, st, h).result is Ok,
    ensures
        executed(plan, c, st, h).result->Ok_0.rows_affected == stmt->Insert_values@.len(),
{
    if let Statement::Insert { table_name, columns, values, on_conflict } = stmt {
        let info = table_of(c, table_name@)->0;
        lemma_inserted_count(
            st,
            c,
            info,
            table_name@,
            values@,
            0,
            columns.deep_view(),
            0,
            0,
            h,
        );
    }
}

// ---------------------------------------------------------------------------
// UPDATE
// ---------------------------------------------------------------------------

/// Whether rows stand at different places, and there is a tuple at each.
pub open spec fn placed(rows: Seq<RowView>, st: StateView) -> bool {
    &&& forall|i: int, j: int|
        0 <= i < rows.len() && 0 <= j < rows.len() && (#[trigger] rows[i]).0 == (
        #[trigger] rows[j]).0 ==> i == j
    &&& forall|i: int| 0 <= i < rows.len() ==> tuple_at(st.pages, (#[trigger] rows[i]).0) is Some
}

/// Whether one of the rows stands at a place.
pub open spec fn stands_at(rows: Seq<RowView>, rid: RID) -> bool {
    exists|i: int| 0 <= i < rows.len() && (#[trigger] rows[i]).0 == rid
}

/// The bytes of a row with its columns assigned to.
pub open spec fn changed_to(
    row: RowView,
    assignments: Seq<(String, Expr)>,
    info: TableInfo,
    number: u64,
    h: HostView,
) -> Option<Seq<u8>> {
    match assigned_from(assignments, 0, row.1, info.schema.names(), row.1, h) {
        Ok(new) => match serialized(new, info.schema, h) {
            Ok(data) => Some(versioned(data, info.mvcc_enabled, number)),
            Err(_) => None,
        },
        Err(_) => None,
    }
}

proof fn lemma_updated_from(
    st: StateView,
    c: Catalog,
    info: TableInfo,
    table: Seq<char>,
    assignments: Seq<(String, Expr)>,
    rows: Seq<RowView>,
    i: int,
    h: HostView,
    before: StateView,
)
    requires
        0 <= i <= rows.len(),
        placed(rows, before),
        txn_number(st.txn) == txn_number(before.txn),
        forall|k: int|
            0 <= k < i ==> tuple_at(st.pages, (#[trigger] rows[k]).0) == changed_to(
                rows[k],
                assignments,
                info,
                txn_number(before.txn),
                h,
            ) && changed_to(rows[k], assignments, info, txn_number(before.txn), h) is Some,
        forall|k: int|
            i <= k < rows.len() ==> tuple_at(st.pages, (#[trigger] rows[k]).0) == tuple_at(
                before.pages,
                rows[k].0,
            ),
        forall|rid: RID| !stands_at(rows, rid) ==> #[trigger] tuple_at(st.pages, rid) == tuple_at(
            before.pages,
            rid,
        ),
        rows_updated(st, c, info, table, assignments, rows, i, h).result is Ok,
    ensures
        ({
            let step = rows_updated(st, c, info, table, assignments, rows, i, h);
            &&& step.result->Ok_0.rows_affected == rows.len()
            &&& forall|k: int|
                0 <= k < rows.len() ==> tuple_at(step.state.pages, (#[trigger] rows[k]).0)
                    == changed_to(rows[k], assignments, info, txn_number(before.txn), h)
                    && changed_to(rows[k], assignments, info, txn_number(before.txn), h) is Some
            &&& forall|rid: RID|
                !stands_at(rows, rid) ==> #[trigger] tuple_at(step.state.pages, rid) == tuple_at(
                    before.pages,
                    rid,
                )
        }),
    decreases rows.len() - i,
{
    if i < rows.len() {
        let row = rows[i];
        let step = row_updated(st, c, info, table, assignments, row, h);
        let number = txn_number(before.txn);
        assert forall|rid: RID| rid != row.0 implies #[trigger] tuple_at(step.state.pages, rid)
            == tuple_at(st.pages, rid) by {
            law_update_changes_one_place(st, c, info, table, assignments, row, rid, h);
        }
        law_update_changes_one_place(st, c, info, table, assignments, row, row.0, h);
        assert(tuple_at(step.state.pages, row.0) == changed_to(row, assignments, info, number, h));
        assert forall|rid: RID| !stands_at(rows, rid) implies #[trigger] tuple_at(
            step.state.pages,
            rid,
        ) == tuple_at(before.pages, rid) by {
            if rid == row.0 {
                assert(rows[i].0 == rid);
            }
            assert(tuple_at(st.pages, rid) == tuple_at(before.pages, rid));
        }
        lemma_updated_from(step.state, c, info, table, assignments, rows, i + 1, h, before);
    }
}

/// An UPDATE changes each row of its table on which its condition holds, as its assignments say, and
/// leaves all other tuples as they were. It reports how many rows it changed.
pub proof fn law_update_changes_satisfying_rows(
    stmt: Statement,
    c: Catalog,
    plan: PlanNode,
    st: StateView,
    h: HostView,
)
    requires
        stmt is Update,
        planned(stmt, c, Ok(plan)),
        executed(plan, c, st, h).result is Ok,
        ({
            let scan = PlanNode::SeqScan { table_name: stmt->Update_table_name, alias: None };
            plan_rows(scan, Purpose::Statement, readable(c, st), h) matches Ok(x) && placed(
                fulfilling(stmt->Update_where_clause, x.1, view_names(x.0), h),
                st,
            )
        }),
    ensures
        ({
            let scan = PlanNode::SeqScan { table_name: stmt->Update_table_name, alias: None };
            let x = plan_rows(scan, Purpose::Statement, readable(c, st), h)->Ok_0;
            let kept = fulfilling(stmt->Update_where_clause, x.1, view_names(x.0), h);
            let step = executed(plan, c, st, h);
            &&& table_of(c, stmt->Update_table_name@) matches Some(info) && forall|k: int|
                0 <= k < kept.len() ==> changed_to(
                    #[trigger] kept[k],
                    stmt->Update_assignments@,
                    info,
                    txn_number(st.txn),
                    h,
                ) is Some && tuple_at(step.state.pages, kept[k].0) == changed_to(
                    kept[k],
                    stmt->Update_assignments@,
                    info,
                    txn_number(st.txn),
                    h,
                )
            &&& forall|rid: RID|
                !stands_at(kept, rid) ==> #[trigger] tuple_at(step.state.pages, rid) == tuple_at(
                    st.pages,
                    rid,
                )
            &&& step.result->Ok_0.rows_affected == kept.len()
        }),
{
    if let Statement::Update { table_name, assignments, where_clause } = stmt {
        let scan = PlanNode::SeqScan { table_name, alias: None };
        let rd = readable(c, st);
        let x = plan_rows(scan, Purpose::Statement, rd, h)->Ok_0;
        let names = view_names(x.0);
        let kept = fulfilling(where_clause, x.1, names, h);
        let inner = match where_clause {
            Some(predicate) => PlanNode::Filter { predicate, child: Box::new(scan) },
            None => scan,
        };
        if let Some(p) = where_clause {
            assert(plan_rows(inner, Purpose::Statement, rd, h) is Ok);
            law_where_keeps_order(p, x.1, names, h);
        }
        assert(plan_rows(inner, Purpose::Statement, rd, h)->Ok_0.1 == kept);
        let info = table_of(c, table_name@)->0;
        lemma_updated_from(st, c, info, table_name@, assignments@, kept, 0, h, st);
    }
}

// ---------------------------------------------------------------------------
// DELETE
// ---------------------------------------------------------------------------

proof fn lemma_deleted_from(
    st: StateView,
    c: Catalog,
    info: TableInfo,
    table: Seq<char>,
    rows: Seq<RowView>,
    i: int,
    h: HostView,
    before: StateView,
)
    requires
        0 <= i <= rows.len(),
        forall|rid: RID| !stands_at(rows, rid) ==> #[trigger] tuple_at(st.pages, rid) == tuple_at(
            before.pages,
            rid,
        ),
        rows_deleted(st, c, info, table, Seq::empty(), rows, i, h).result is Ok,
    ensures
        ({
            let step = rows_deleted(st, c, info, table, Seq::empty(), rows, i, h);
            forall|rid: RID|
                !stands_at(rows, rid) ==> #[trigger] tuple_at(step.state.pages, rid) == tuple_at(
                    before.pages,
                    rid,
                )
        }),
    decreases rows.len() - i,
{
    if i < rows.len() {
        let row = rows[i];
        let next = row_gone(st, table, info.schema.names(), row);
        assert forall|rid: RID| !stands_at(rows, rid) implies #[trigger] tuple_at(next.pages, rid)
            == tuple_at(before.pages, rid) by {
            if rid == row.0 {
                assert(rows[i].0 == rid);
            }
            law_removal_empties_one_place(st, table, info.schema.names(), row, rid);
            assert(tuple_at(st.pages, rid) == tuple_at(before.pages, rid));
        }
        lemma_deleted_from(next, c, info, table, rows, i + 1, h, before);
    }
}

proof fn lemma_deleted_count(
    st: StateView,
    c: Catalog,
    info: TableInfo,
    table: Seq<char>,
    refs: Seq<crate::delete::Reference>,
    rows: Seq<RowView>,
    i: int,
    h: HostView,
)
    requires
        rows_deleted(st, c, info, table, refs, rows, i, h).result is Ok,
    ensures
        rows_deleted(st, c, info, table, refs, rows, i, h).result->Ok_0.rows_affected
            == rows.len(),
    decreases rows.len() - i,
{
    if 0 <= i < rows.len() {
        let step = crate::delete::row_deleted(
            st,
            c,
            info,
            table,
            refs,
            rows[i],
            Seq::empty(),
            usize::MAX as nat,
            h,
        );
        lemma_deleted_count(step.state, c, info, table, refs, rows, i + 1, h);
    }
}

/// A DELETE takes out each row of its table on which its condition holds, and reports how many these
/// are. Where nothing refers to the table all other tuples stay as they were.
pub proof fn law_delete_takes_out_satisfying_rows(
    stmt: Statement,
    c: Catalog,
    plan: PlanNode,
    st: StateView,
    h: HostView,
)
    requires
        stmt is Delete,
        planned(stmt, c, Ok(plan)),
        executed(plan, c, st, h).result is Ok,
        plan_rows(
            PlanNode::SeqScan { table_name: stmt->Delete_table_name, alias: None },
            Purpose::Statement,
            readable(c, st),
            h,
        ) is Ok,
    ensures
        ({
            let scan = PlanNode::SeqScan { table_name: stmt->Delete_table_name, alias: None };
            let x = plan_rows(scan, Purpose::Statement, readable(c, st), h)->Ok_0;
            let kept = fulfilling(stmt->Delete_where_clause, x.1, view_names(x.0), h);
            let step = executed(plan, c, st, h);
            &&& step.result->Ok_0.rows_affected == kept.len()
            &&& forall|k: int|
                0 <= k < kept.len() ==> tuple_at(step.state.pages, (#[trigger] kept[k]).0) is None
            &&& table_of(c, stmt->Delete_table_name@) matches Some(info) && (references_to(
                c,
                stmt->Delete_table_name@,
                info,
            ).len() == 0 ==> forall|rid: RID|
                !stands_at(kept, rid) ==> #[trigger] tuple_at(step.state.pages, rid) == tuple_at(
                    st.pages,
                    rid,
                ))
        }),
{
    if let Statement::Delete { table_name, where_clause } = stmt {
        let scan = PlanNode::SeqScan { table_name, alias: None };
        let rd = readable(c, st);
        let x = plan_rows(scan, Purpose::Statement, rd, h)->Ok_0;
        let names = view_names(x.0);
        let kept = fulfilling(where_clause, x.1, names, h);
        let inner = match where_clause {
            Some(predicate) => PlanNode::Filter { predicate, child: Box::new(scan) },
            None => scan,
        };
        if let Some(p) = where_clause {
            assert(plan_rows(inner, Purpose::Statement, rd, h) is Ok);
            law_where_keeps_order(p, x.1, names, h);
        }
        assert(plan_rows(inner, Purpose::Statement, rd, h)->Ok_0.1 == kept);
        let info = table_of(c, table_name@)->0;
        let refs = references_to(c, table_name@, info);
        assert forall|k: int| 0 <= k < kept.len() implies tuple_at(
            executed(plan, c, st, h).state.pages,
            (#[trigger] kept[k]).0,
        ) is None by {
            law_deleted_rows_are_gone(st, c, table_name@, kept, h, k);
        }
        lemma_deleted_count(st, c, info, table_name@, refs, kept, 0, h);
        if refs.len() == 0 {
            assert(refs =~= Seq::empty());
            lemma_deleted_from(st, c, info, table_name@, kept, 0, h, st);
        }
    }
}

} // verus!
