//! Pages and slots that can be told apart: what every change of the pages keeps.
use crate::aggregate::RowView;
use crate::ast::{Expr, OnConflict, OnConflictAction};
use crate::catalog::{Catalog, TableInfo};
use crate::common::RID;
use crate::delete::{kept_by_changes, lemma_delete_keeps, row_gone, row_replaced};
use crate::executor::{changed, plan_executed, plan_rows, Answer, Purpose};
use crate::host::HostView;
use crate::index_scan::row_at;
use crate::insert::{
    defaulted, duplicate, numbered_from, row_given, row_inserted, rows_inserted, txn_number,
    versioned,
};
use crate::plan::PlanNode;
use crate::scan::table_of;
use crate::state::{readable, StateView};
use crate::storage::{
    chain, ids_below, law_inserted_tuple_is_read, lemma_chain_within, lemma_page_from,
    slots_numbered, tuple_inserted, tuple_replaced, tuple_restored, PageView,
};
use crate::txn::{entry_undone, undone, UndoView};
use crate::types::ValueView;
use crate::tuple::serialized;
use crate::update::{assigned_from, row_updated, rows_updated};
use vstd::prelude::*;

verus! {

/// Whether the identifiers of all pages are below the next one to be given out, and the slots of
/// every page can be told apart by their numbers.
pub open spec fn pages_valid(pages: Seq<PageView>, next: u32) -> bool {
    ids_below(pages, next) && slots_numbered(pages)
}

proof fn lemma_replaced_valid(pages: Seq<PageView>, next: u32, rid: RID, b: Option<Seq<u8>>)
    requires
        pages_valid(pages, next),
    ensures
        pages_valid(tuple_replaced(pages, rid, b), next),
{
    let after = tuple_replaced(pages, rid, b);
    lemma_page_from(pages, rid.page_id.0, 0);
    assert forall|i: int| 0 <= i < after.len() implies (#[trigger] after[i]).page_id.0 < next
        && after[i].slots.len() <= 0x1_0000 by {
        assert(pages[i].page_id.0 < next);
        assert(pages[i].slots.len() <= 0x1_0000);
    }
}

proof fn lemma_restored_valid(pages: Seq<PageView>, next: u32, rid: RID, b: Seq<u8>)
    requires
        pages_valid(pages, next),
    ensures
        pages_valid(tuple_restored(pages, rid, b), next),
{
    let after = tuple_restored(pages, rid, b);
    lemma_page_from(pages, rid.page_id.0, 0);
    assert forall|i: int| 0 <= i < after.len() implies (#[trigger] after[i]).page_id.0 < next
        && after[i].slots.len() <= 0x1_0000 by {
        assert(pages[i].page_id.0 < next);
        assert(pages[i].slots.len() <= 0x1_0000);
    }
}

/// Undoing a log keeps pages and slots apart.
pub proof fn lemma_undone_valid(pages: Seq<PageView>, next: u32, log: Seq<UndoView>)
    requires
        pages_valid(pages, next),
    ensures
        pages_valid(undone(pages, log), next),
    decreases log.len(),
{
    if log.len() > 0 {
        match log.last() {
            UndoView::InsertUndo { table_name, rid } => lemma_replaced_valid(
                pages,
                next,
                rid,
                None,
            ),
            UndoView::DeleteUndo { table_name, rid, old_xmax, old_data } => lemma_restored_valid(
                pages,
                next,
                rid,
                old_data,
            ),
            UndoView::UpdateUndo { table_name, rid, old_data } => lemma_restored_valid(
                pages,
                next,
                rid,
                old_data,
            ),
        }
        lemma_undone_valid(entry_undone(pages, log.last()), next, log.drop_last());
    }
}

proof fn lemma_inserted_valid(pages: Seq<PageView>, next: u32, first: u32, b: Seq<u8>)
    requires
        pages_valid(pages, next),
    ensures
        ({
            let c = tuple_inserted(pages, next, first, b);
            pages_valid(c.pages, c.next)
        }),
{
    let c = tuple_inserted(pages, next, first, b);
    if c.result is Ok {
        law_inserted_tuple_is_read(pages, next, first, b);
        lemma_chain_within(pages, first, pages.len());
        let places = chain(pages, first, pages.len())->Ok_0;
        let l = places.last();
        assert(places[places.len() - 1] == l);
        assert(pages[l].slots.len() <= 0x1_0000);
        assert forall|i: int| 0 <= i < c.pages.len() implies (#[trigger] c.pages[i]).slots.len()
            <= 0x1_0000 by {
            if i < pages.len() {
                assert(pages[i].slots.len() <= 0x1_0000);
            }
        }
    }
}

proof fn lemma_rows_inserted_valid(
    st: StateView,
    c: Catalog,
    info: TableInfo,
    table: Seq<char>,
    values: Seq<Vec<Expr>>,
    i: int,
    columns: Option<Seq<Seq<char>>>,
    conflict: Option<OnConflict>,
    count: int,
    last: u64,
    h: HostView,
)
    requires
        pages_valid(st.pages, st.next_page),
    ensures
        ({
            let s = rows_inserted(st, c, info, table, values, i, columns, conflict, count, last, h);
            pages_valid(s.state.pages, s.state.next_page)
        }),
    decreases values.len() - i,
{
    if 0 <= i < values.len() {
        let step = row_inserted(st, c, info, table, values[i]@, columns, conflict, last, h);
        if step.state.pages != st.pages || step.state.next_page != st.next_page {
            let s = info.schema;
            let given = row_given(values[i]@, columns, s.names(), h)->Ok_0;
            let n = numbered_from(s.columns@, 0, table, given, st.counters, last);
            let row = defaulted(s.columns@, n.row);
            let counted = StateView { counters: n.counters, ..st };
            match duplicate(counted, info, table, row, None) {
                Some(p) => {
                    if let OnConflictAction::DoUpdate(assignments) = conflict->0.action {
                        let there = row_at(st.pages, info, p.1)->Ok_0;
                        lemma_row_updated_valid(
                            counted,
                            c,
                            info,
                            table,
                            assignments@,
                            (p.1, there),
                            h,
                        );
                    }
                },
                None => {
                    let data = serialized(row, s, h)->Ok_0;
                    let b = versioned(data, info.mvcc_enabled, txn_number(st.txn));
                    lemma_inserted_valid(st.pages, st.next_page, info.first_page_id.0, b);
                },
            }
        }
        if let Ok(p) = step.result {
            lemma_rows_inserted_valid(
                step.state,
                c,
                info,
                table,
                values,
                i + 1,
                columns,
                conflict,
                count + p.0,
                p.1,
                h,
            );
        }
    }
}

/// Whether the pages of a state can be told apart.
pub open spec fn state_valid(st: StateView) -> bool {
    pages_valid(st.pages, st.next_page)
}

proof fn lemma_row_updated_valid(
    st: StateView,
    c: Catalog,
    info: TableInfo,
    table: Seq<char>,
    assignments: Seq<(String, Expr)>,
    row: RowView,
    h: HostView,
)
    requires
        state_valid(st),
    ensures
        state_valid(row_updated(st, c, info, table, assignments, row, h).state),
{
    if row_updated(st, c, info, table, assignments, row, h).result is Ok {
        let new = assigned_from(assignments, 0, row.1, info.schema.names(), row.1, h)->Ok_0;
        let b = versioned(
            serialized(new, info.schema, h)->Ok_0,
            info.mvcc_enabled,
            txn_number(st.txn),
        );
        lemma_replaced_valid(st.pages, st.next_page, row.0, Some(b));
    }
}

proof fn lemma_rows_updated_valid(
    st: StateView,
    c: Catalog,
    info: TableInfo,
    table: Seq<char>,
    assignments: Seq<(String, Expr)>,
    rows: Seq<RowView>,
    i: int,
    h: HostView,
)
    requires
        state_valid(st),
    ensures
        state_valid(rows_updated(st, c, info, table, assignments, rows, i, h).state),
    decreases rows.len() - i,
{
    if 0 <= i < rows.len() {
        let step = row_updated(st, c, info, table, assignments, rows[i], h);
        lemma_row_updated_valid(st, c, info, table, assignments, rows[i], h);
        if step.result is Ok {
            lemma_rows_updated_valid(step.state, c, info, table, assignments, rows, i + 1, h);
        }
    }
}

/// Giving up and replacing rows keeps pages and slots apart.
proof fn lemma_valid_is_kept()
    ensures
        kept_by_changes(|s: StateView| state_valid(s)),
{
    assert forall|
        st: StateView,
        table: Seq<char>,
        names: Seq<Seq<char>>,
        row: RowView,
    | state_valid(st) implies state_valid(#[trigger] row_gone(st, table, names, row)) by {
        lemma_replaced_valid(st.pages, st.next_page, row.0, None);
    }
    assert forall|
        st: StateView,
        table: Seq<char>,
        names: Seq<Seq<char>>,
        row: RowView,
        new: Seq<ValueView>,
        bytes: Seq<u8>,
    | state_valid(st) implies state_valid(
        #[trigger] row_replaced(st, table, names, row, new, bytes),
    ) by {
        lemma_replaced_valid(st.pages, st.next_page, row.0, Some(bytes));
    }
}

/// Every change of rows keeps pages and slots apart.
pub proof fn law_change_keeps_pages_valid(plan: PlanNode, c: Catalog, st: StateView, h: HostView)
    requires
        pages_valid(st.pages, st.next_page),
    ensures
        ({
            let s = changed(plan, c, st, h);
            pages_valid(s.state.pages, s.state.next_page)
        }),
{
    reveal(changed);
    match plan {
        PlanNode::Insert { table_name, columns, values, on_conflict } => {
            if let Some(info) = table_of(c, table_name@) {
                lemma_rows_inserted_valid(
                    st,
                    c,
                    info,
                    table_name@,
                    values@,
                    0,
                    columns.deep_view(),
                    on_conflict,
                    0,
                    0,
                    h,
                );
            }
        },
        PlanNode::Update { table_name, assignments, child } => {
            if let Ok(x) = plan_rows(
                *child,
                Purpose::Change,
                readable(c, st),
                h,
            ) {
                if let Some(info) = table_of(c, table_name@) {
                    lemma_rows_updated_valid(st, c, info, table_name@, assignments@, x.1, 0, h);
                }
            }
        },
        PlanNode::Delete { table_name, child } => {
            if let Ok(x) = plan_rows(
                *child,
                Purpose::Change,
                readable(c, st),
                h,
            ) {
                lemma_valid_is_kept();
                let valid = |s: StateView| state_valid(s);
                assert(valid(st));
                lemma_delete_keeps(valid, st, c, table_name@, x.1, h);
            }
        },
        _ => {},
    }
}

/// Every change of the schema keeps pages and slots apart.
pub proof fn law_schema_change_keeps_pages_valid(
    plan: PlanNode,
    c0: Catalog,
    st0: StateView,
    c1: Catalog,
    st1: StateView,
    r: Answer,
    h: HostView,
)
    requires
        plan is CreateTable || plan is DropTable || plan is CreateIndex,
        pages_valid(st0.pages, st0.next_page),
        plan_executed(plan, c0, st0, c1, st1, r, h),
    ensures
        pages_valid(st1.pages, st1.next_page),
{
    if st1.pages != st0.pages {
        assert forall|i: int| 0 <= i < st1.pages.len() implies (#[trigger] st1.pages[i]).page_id.0
            < st1.next_page && st1.pages[i].slots.len() <= 0x1_0000 by {
            if i < st0.pages.len() {
                assert(st1.pages[i] == st0.pages[i]);
                assert(st0.pages[i].page_id.0 < st0.next_page);
            }
        }
    }
}

} // verus!
