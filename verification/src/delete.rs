//! DELETE.
use crate::aggregate::RowView;
use crate::catalog::{Catalog, TableInfo};
use crate::common::RID;
use crate::composite::{find_key_in, key_in};
use crate::error::{outcome, viewed, ErrorView, ForgeError, Result};
use crate::host::{Host, HostView};
use crate::index::{BTreeIndex, IndexView};
use crate::insert::{
    bare, enter_row, entered, holds, note, noted, put_version, row_holding, versioned,
};
use crate::scan::{find_table, no_table, table_of};
use crate::schema::{name_from, Column, Schema};
use crate::state::{
    affected, affected_result, DmlContext, ExecuteResult, ResultView, StateView, Step,
};
use crate::storage::{
    law_replaced_tuple, table_tuples, tuple_at, tuple_replaced, BufferPool, PageView, RawView,
};
use crate::text::{eq_ignore_ascii_case, same_name};
use crate::tuple::{serialize, serialized, tuple_read, types_of};
use crate::txn::{UndoEntry, UndoView};
use crate::types::{clone_row, DataType, Value, ValueView};
use vstd::prelude::*;

verus! {

// ---------------------------------------------------------------------------
// References to a table
// ---------------------------------------------------------------------------

/// A column of a table whose values refer to a column of the table that rows are deleted from.
pub struct Reference {
    pub child: Seq<char>,
    pub col: int,
    pub col_name: Seq<char>,
    pub parent_col: int,
    pub action: u8,
}

/// The references of the columns from `j` on, behind `acc`.
pub open spec fn references_in(
    child: Seq<char>,
    cols: Seq<Column>,
    j: int,
    table: Seq<char>,
    names: Seq<Seq<char>>,
    acc: Seq<Reference>,
) -> Seq<Reference>
    decreases cols.len() - j,
{
    if j < 0 || j >= cols.len() {
        acc
    } else {
        references_in(
            child,
            cols,
            j + 1,
            table,
            names,
            match reference(child, cols[j], j, table, names) {
                Some(r) => acc.push(r),
                None => acc,
            },
        )
    }
}

/// The reference of one column.
pub open spec fn reference(
    child: Seq<char>,
    col: Column,
    j: int,
    table: Seq<char>,
    names: Seq<Seq<char>>,
) -> Option<Reference> {
    match col.fk_ref {
        None => None,
        Some(f) => if same_name(f.0@, table) {
            match name_from(names, f.1@, 0) {
                Some(p) => Some(
                    Reference {
                        child,
                        col: j,
                        col_name: col.name@,
                        parent_col: p,
                        action: f.2,
                    },
                ),
                None => None,
            }
        } else {
            None
        },
    }
}

/// The references of the tables from `i` on, behind `acc`.
pub open spec fn references_from(
    tables: Seq<(String, TableInfo)>,
    i: int,
    table: Seq<char>,
    names: Seq<Seq<char>>,
    acc: Seq<Reference>,
) -> Seq<Reference>
    decreases tables.len() - i,
{
    if i < 0 || i >= tables.len() {
        acc
    } else {
        references_from(
            tables,
            i + 1,
            table,
            names,
            references_in(
                tables[i].1.name@,
                tables[i].1.schema.columns@,
                0,
                table,
                names,
                acc,
            ),
        )
    }
}

/// The references of all tables to a table.
pub open spec fn references_to(c: Catalog, table: Seq<char>, info: TableInfo) -> Seq<Reference> {
    references_from(c.tables@, 0, table, info.schema.names(), Seq::empty())
}

/// [`Reference`], as it is gathered.
struct ChildRef {
    child: String,
    col: usize,
    col_name: String,
    parent_col: usize,
    action: u8,
}

impl DeepView for ChildRef {
    type V = Reference;

    closed spec fn deep_view(&self) -> Reference {
        Reference {
            child: self.child@,
            col: self.col as int,
            col_name: self.col_name@,
            parent_col: self.parent_col as int,
            action: self.action,
        }
    }
}

fn gather_references(catalog: &Catalog, table: &str, schema: &Schema) -> (r: Vec<ChildRef>)
    ensures
        r.deep_view() == references_from(
            catalog.tables@,
            0,
            table@,
            schema.names(),
            Seq::empty(),
        ),
{
    let ghost names = schema.names();
    let ghost all = references_from(catalog.tables@, 0, table@, names, Seq::empty());
    let mut out: Vec<ChildRef> = Vec::new();
    assert(out.deep_view() =~= Seq::<Reference>::empty());
    let mut i: usize = 0;
    while i < catalog.tables.len()
        invariant
            0 <= i <= catalog.tables.len(),
            names == schema.names(),
            all == references_from(catalog.tables@, i as int, table@, names, out.deep_view()),
        decreases catalog.tables.len() - i,
    {
        let info = &catalog.tables[i].1;
        let ghost cols = info.schema.columns@;
        let ghost child = info.name@;
        let ghost part = references_in(child, cols, 0, table@, names, out.deep_view());
        let mut j: usize = 0;
        while j < info.schema.columns.len()
            invariant
                0 <= j <= info.schema.columns.len(),
                names == schema.names(),
                cols == info.schema.columns@,
                child == info.name@,
                part == references_in(child, cols, j as int, table@, names, out.deep_view()),
            decreases info.schema.columns.len() - j,
        {
            let col = &info.schema.columns[j];
            if let Some(f) = &col.fk_ref {
                if eq_ignore_ascii_case(f.0.as_str(), table) {
                    if let Some(p) = schema.get_column(f.1.as_str()) {
                        let ghost before = out.deep_view();
                        let r = ChildRef {
                            child: info.name.clone(),
                            col: j,
                            col_name: col.name.clone(),
                            parent_col: p,
                            action: f.2,
                        };
                        let ghost rv = r.deep_view();
                        assert(reference(child, *col, j as int, table@, names) == Some(rv));
                        out.push(r);
                        assert(out.deep_view() =~= before.push(rv));
                    }
                }
            }
            j += 1;
        }
        i += 1;
    }
    out
}

// ---------------------------------------------------------------------------
// Rows that refer
// ---------------------------------------------------------------------------

/// The rows of the tuples from `i` on with a value in a column, behind `acc`.
pub open spec fn holders_from(
    raws: Seq<RawView>,
    i: int,
    mvcc: bool,
    types: Seq<DataType>,
    col: int,
    v: ValueView,
    acc: Seq<RowView>,
) -> Seq<RowView>
    decreases raws.len() - i,
{
    if i < 0 || i >= raws.len() {
        acc
    } else {
        holders_from(
            raws,
            i + 1,
            mvcc,
            types,
            col,
            v,
            if holds(raws[i].1, mvcc, types, col, v) {
                acc.push((raws[i].0, tuple_read(bare(raws[i].1, mvcc), types)->Ok_0))
            } else {
                acc
            },
        )
    }
}

/// The rows of a table with a value in a column.
pub open spec fn holders(pages: Seq<PageView>, info: TableInfo, col: int, v: ValueView) -> Seq<
    RowView,
> {
    match table_tuples(pages, info.first_page_id.0) {
        Err(_) => Seq::empty(),
        Ok(raws) => holders_from(
            raws,
            0,
            info.mvcc_enabled,
            types_of(info.schema),
            col,
            v,
            Seq::empty(),
        ),
    }
}

fn find_holders(bpm: &BufferPool, info: &TableInfo, col: usize, v: &Value) -> (r: Vec<
    (RID, Vec<Value>),
>)
    ensures
        r.deep_view() == holders(bpm@, *info, col as int, v@),
        forall|k: int| 0 <= k < r.len() ==> col < (#[trigger] r@[k]).1.len(),
{
    let mut out: Vec<(RID, Vec<Value>)> = Vec::new();
    assert(out.deep_view() =~= Seq::<RowView>::empty());
    if let Ok(raws) = bpm.table_iterator(info.first_page_id) {
        let ghost rv = raws.deep_view();
        let ghost types = types_of(info.schema);
        let ghost mvcc = info.mvcc_enabled;
        let mut i: usize = 0;
        while i < raws.len()
            invariant
                0 <= i <= raws.len(),
                rv == raws.deep_view(),
                types == types_of(info.schema),
                mvcc == info.mvcc_enabled,
                holders_from(rv, 0, mvcc, types, col as int, v@, Seq::empty()) == holders_from(
                    rv,
                    i as int,
                    mvcc,
                    types,
                    col as int,
                    v@,
                    out.deep_view(),
                ),
                forall|k: int| 0 <= k < out.len() ==> col < (#[trigger] out@[k]).1.len(),
            decreases raws.len() - i,
        {
            assert(rv[i as int].0 == raws@[i as int].0);
            assert(rv[i as int].1 =~= raws@[i as int].1@);
            if let Some(row) = row_holding(raws[i].1.as_slice(), info, col, v) {
                let ghost before = out.deep_view();
                let ghost row_view = row.deep_view();
                out.push((raws[i].0, row));
                assert(out.deep_view() =~= before.push((raws@[i as int].0, row_view)));
            }
            i += 1;
        }
    }
    out
}

// ---------------------------------------------------------------------------
// One row
// ---------------------------------------------------------------------------

/// One index without a row, if it is on columns of the table.
pub open spec fn leave(
    index: (Seq<char>, IndexView),
    table: Seq<char>,
    names: Seq<Seq<char>>,
    row: RowView,
) -> (Seq<char>, IndexView) {
    match key_in(index.0, index.1.columns, table, names, row.1) {
        Some(v) => (index.0, index.1.without(v, row.0)),
        None => index,
    }
}

/// The indexes of a table without a row.
pub open spec fn left(
    indexes: Seq<(Seq<char>, IndexView)>,
    table: Seq<char>,
    names: Seq<Seq<char>>,
    row: RowView,
) -> Seq<(Seq<char>, IndexView)> {
    Seq::new(indexes.len(), |i: int| leave(indexes[i], table, names, row))
}

/// Removes a row from the indexes of its table.
pub fn leave_row(
    indexes: &mut Vec<(String, BTreeIndex)>,
    table: &str,
    schema: &Schema,
    rid: RID,
    row: &Vec<Value>,
)
    ensures
        final(indexes).deep_view() == left(
            old(indexes).deep_view(),
            table@,
            schema.names(),
            (rid, row.deep_view()),
        ),
{
    let ghost start = indexes.deep_view();
    let ghost rv = row.deep_view();
    let ghost all = left(start, table@, schema.names(), (rid, rv));
    let mut i: usize = 0;
    while i < indexes.len()
        invariant
            0 <= i <= indexes.len(),
            indexes.len() == start.len(),
            rv == row.deep_view(),
            all == left(start, table@, schema.names(), (rid, rv)),
            forall|k: int| 0 <= k < i ==> (#[trigger] indexes@[k]).deep_view() == all[k],
            forall|k: int| i <= k < start.len() ==> (#[trigger] indexes@[k]).deep_view()
                == start[k],
        decreases indexes.len() - i,
    {
        assert(start[i as int].0 == indexes@[i as int].0@);
        let key = find_key_in(indexes[i].0.as_str(), &indexes[i].1.columns, table, schema, row);
        if let Some(v) = key {
            indexes[i].1.delete(&v, rid);
        }
        i += 1;
    }
    assert(indexes.deep_view() =~= all);
}

/// A row of a table given up: its entries in the indexes and its tuple. A row that is not there
/// any more is passed over.
pub open spec fn row_gone(
    st: StateView,
    table: Seq<char>,
    names: Seq<Seq<char>>,
    row: RowView,
) -> StateView {
    match tuple_at(st.pages, row.0) {
        None => st,
        Some(b) => StateView {
            pages: tuple_replaced(st.pages, row.0, None),
            indexes: left(st.indexes, table, names, row),
            txn: noted(
                st.txn,
                UndoView::DeleteUndo { table_name: table, rid: row.0, old_xmax: 0, old_data: b },
            ),
            ..st
        },
    }
}

fn give_up(ctx: &mut DmlContext, table: &str, schema: &Schema, rid: RID, row: &Vec<Value>)
    ensures
        final(ctx)@ == row_gone(old(ctx)@, table@, schema.names(), (rid, row.deep_view())),
{
    if let Some(old_data) = ctx.bpm.get_tuple(rid) {
        assert(old_data@ =~= tuple_at(ctx.bpm@, rid)->0);
        let u = UndoEntry::DeleteUndo { table_name: table.to_owned(), rid, old_xmax: 0, old_data };
        note(&mut ctx.txn_ctx, u);
        leave_row(&mut ctx.indexes, table, schema, rid, row);
        let _ = ctx.bpm.delete_tuple(rid);
    }
}

/// A row of a table with another one in its place, whose bytes are given. A row that is not
/// there any more is passed over.
pub open spec fn row_replaced(
    st: StateView,
    table: Seq<char>,
    names: Seq<Seq<char>>,
    row: RowView,
    new: Seq<ValueView>,
    bytes: Seq<u8>,
) -> StateView {
    match tuple_at(st.pages, row.0) {
        None => st,
        Some(b) => StateView {
            pages: tuple_replaced(st.pages, row.0, Some(bytes)),
            indexes: entered(
                left(st.indexes, table, names, row),
                table,
                names,
                new,
                row.0,
            ),
            txn: noted(
                st.txn,
                UndoView::UpdateUndo { table_name: table, rid: row.0, old_data: b },
            ),
            ..st
        },
    }
}

/// Puts another row in the place of a row.
pub fn replace_row(
    ctx: &mut DmlContext,
    table: &str,
    schema: &Schema,
    rid: RID,
    row: &Vec<Value>,
    new: &Vec<Value>,
    bytes: Vec<u8>,
)
    ensures
        final(ctx)@ == row_replaced(
            old(ctx)@,
            table@,
            schema.names(),
            (rid, row.deep_view()),
            new.deep_view(),
            bytes@,
        ),
{
    if let Some(old_data) = ctx.bpm.get_tuple(rid) {
        assert(old_data@ =~= tuple_at(ctx.bpm@, rid)->0);
        let u = UndoEntry::UpdateUndo { table_name: table.to_owned(), rid, old_data };
        note(&mut ctx.txn_ctx, u);
        leave_row(&mut ctx.indexes, table, schema, rid, row);
        enter_row(&mut ctx.indexes, table, schema, new, rid);
        assert(Some(bytes).deep_view()->0 =~= bytes@);
        let _ = ctx.bpm.replace_tuple(rid, Some(bytes));
    }
}

// ---------------------------------------------------------------------------
// What references ask for
// ---------------------------------------------------------------------------

/// The rows from `i` on with NULL in a column.
pub open spec fn rows_nulled(
    st: StateView,
    info: TableInfo,
    table: Seq<char>,
    rows: Seq<RowView>,
    i: int,
    col: int,
    h: HostView,
) -> Step<()>
    decreases rows.len() - i,
{
    if i < 0 || i >= rows.len() {
        Step { state: st, result: Ok(()) }
    } else {
        let new = rows[i].1.update(col, ValueView::Null);
        match serialized(new, info.schema, h) {
            Err(e) => Step { state: st, result: Err(e) },
            Ok(data) => rows_nulled(
                row_replaced(
                    st,
                    table,
                    info.schema.names(),
                    rows[i],
                    new,
                    versioned(data, info.mvcc_enabled, 0),
                ),
                info,
                table,
                rows,
                i + 1,
                col,
                h,
            ),
        }
    }
}

fn null_rows(
    ctx: &mut DmlContext,
    info: &TableInfo,
    table: &str,
    rows: &Vec<(RID, Vec<Value>)>,
    col: usize,
    host: &Host,
) -> (r: std::result::Result<(), ForgeError>)
    requires
        forall|k: int| 0 <= k < rows.len() ==> col < (#[trigger] rows@[k]).1.len(),
    ensures
        rows_nulled(old(ctx)@, *info, table@, rows.deep_view(), 0, col as int, host@) == (Step {
            state: final(ctx)@,
            result: viewed(r),
        }),
{
    let ghost rv = rows.deep_view();
    let ghost all = rows_nulled(ctx@, *info, table@, rv, 0, col as int, host@);
    let mut i: usize = 0;
    while i < rows.len()
        invariant
            0 <= i <= rows.len(),
            rv == rows.deep_view(),
            forall|k: int| 0 <= k < rows.len() ==> col < (#[trigger] rows@[k]).1.len(),
            all == rows_nulled(old(ctx)@, *info, table@, rv, 0, col as int, host@),
            all == rows_nulled(ctx@, *info, table@, rv, i as int, col as int, host@),
        decreases rows.len() - i,
    {
        assert(rv[i as int] == (rows@[i as int].0, rows@[i as int].1.deep_view()));
        let mut new = clone_row(&rows[i].1);
        new.set(col, Value::Null);
        assert(new.deep_view() =~= rv[i as int].1.update(col as int, ValueView::Null));
        let data = serialize(&new, &info.schema, host)?;
        assert(data.deep_view() =~= data@);
        let full = put_version(&data, info.mvcc_enabled, 0);
        replace_row(ctx, table, &info.schema, rows[i].0, &rows[i].1, &new, full);
        i += 1;
    }
    Ok(())
}

/// The complaint about a row that other rows refer to.
pub open spec fn restrict_complaint(r: Reference) -> ErrorView {
    ErrorView::Execution(
        "foreign key constraint violated: cannot delete row, referenced by "@ + r.child + "."@
            + r.col_name,
    )
}

/// What one reference asks for when a row is deleted: refusal, the deletion of the referring
/// rows and of what refers to them in turn, or NULL in their place. The rows in `busy` are being
/// deleted already. `depth` is how far down the references are followed.
pub open spec fn reference_cleared(
    st: StateView,
    c: Catalog,
    r: Reference,
    row: Seq<ValueView>,
    busy: Seq<RID>,
    depth: nat,
    h: HostView,
) -> Step<()>
    decreases depth, 1int, 0int,
{
    let unchanged = Step { state: st, result: Ok(()) };
    if r.parent_col < row.len() && !row[r.parent_col].is_null() {
        match table_of(c, r.child) {
            None => unchanged,
            Some(info) => {
                let rows = holders(st.pages, info, r.col, row[r.parent_col]);
                if rows.len() == 0 {
                    unchanged
                } else if r.action == 0 {
                    Step { state: st, result: Err(restrict_complaint(r)) }
                } else if r.action == 1 {
                    rows_cascaded(
                        st,
                        c,
                        info,
                        r.child,
                        references_to(c, r.child, info),
                        rows,
                        0,
                        busy,
                        depth,
                        h,
                    )
                } else if r.action == 2 {
                    rows_nulled(st, info, r.child, rows, 0, r.col, h)
                } else {
                    unchanged
                }
            },
        }
    } else {
        unchanged
    }
}

/// The referring rows from `i` on deleted, but for those that are being deleted or are gone
/// already.
pub open spec fn rows_cascaded(
    st: StateView,
    c: Catalog,
    info: TableInfo,
    table: Seq<char>,
    refs: Seq<Reference>,
    rows: Seq<RowView>,
    i: int,
    busy: Seq<RID>,
    depth: nat,
    h: HostView,
) -> Step<()>
    decreases depth, 0int, rows.len() - i,
{
    if i < 0 || i >= rows.len() {
        Step { state: st, result: Ok(()) }
    } else {
        let step = if busy.contains(rows[i].0) || tuple_at(st.pages, rows[i].0) is None {
            Step { state: st, result: Ok(()) }
        } else if depth == 0 {
            Step { state: row_gone(st, table, info.schema.names(), rows[i]), result: Ok(()) }
        } else {
            row_deleted(st, c, info, table, refs, rows[i], busy, (depth - 1) as nat, h)
        };
        match step.result {
            Err(_) => step,
            Ok(_) => rows_cascaded(
                step.state,
                c,
                info,
                table,
                refs,
                rows,
                i + 1,
                busy,
                depth,
                h,
            ),
        }
    }
}

/// What the references from `i` on ask for.
pub open spec fn references_cleared(
    st: StateView,
    c: Catalog,
    refs: Seq<Reference>,
    i: int,
    row: Seq<ValueView>,
    busy: Seq<RID>,
    depth: nat,
    h: HostView,
) -> Step<()>
    decreases depth, 2int, refs.len() - i,
{
    if i < 0 || i >= refs.len() {
        Step { state: st, result: Ok(()) }
    } else {
        let one = reference_cleared(st, c, refs[i], row, busy, depth, h);
        if one.result is Err {
            one
        } else {
            references_cleared(one.state, c, refs, i + 1, row, busy, depth, h)
        }
    }
}

/// One row deleted: first what refers to it, then the row itself.
pub open spec fn row_deleted(
    st: StateView,
    c: Catalog,
    info: TableInfo,
    table: Seq<char>,
    refs: Seq<Reference>,
    row: RowView,
    busy: Seq<RID>,
    depth: nat,
    h: HostView,
) -> Step<()>
    decreases depth, 3int, 0int,
{
    let cleared = references_cleared(st, c, refs, 0, row.1, busy.push(row.0), depth, h);
    match cleared.result {
        Err(_) => cleared,
        Ok(_) => Step {
            state: row_gone(cleared.state, table, info.schema.names(), row),
            result: Ok(()),
        },
    }
}

fn is_busy(busy: &Vec<RID>, rid: RID) -> (r: bool)
    ensures
        r == busy@.contains(rid),
{
    let mut i: usize = 0;
    while i < busy.len()
        invariant
            0 <= i <= busy.len(),
            forall|k: int| 0 <= k < i ==> busy@[k] != rid,
        decreases busy.len() - i,
    {
        if busy[i].page_id.0 == rid.page_id.0 && busy[i].slot_id == rid.slot_id {
            assert(busy@[i as int] == rid);
            return true;
        }
        i += 1;
    }
    false
}

fn clear_reference(
    ctx: &mut DmlContext,
    catalog: &Catalog,
    r: &ChildRef,
    row: &Vec<Value>,
    busy: &mut Vec<RID>,
    depth: usize,
    host: &Host,
) -> (res: std::result::Result<(), ForgeError>)
    ensures
        final(busy)@ == old(busy)@,
        reference_cleared(
            old(ctx)@,
            *catalog,
            r.deep_view(),
            row.deep_view(),
            old(busy)@,
            depth as nat,
            host@,
        ) == (Step { state: final(ctx)@, result: viewed(res) }),
    decreases depth, 1int,
{
    if r.parent_col >= row.len() {
        return Ok(());
    }
    assert(row.deep_view()[r.parent_col as int] == row@[r.parent_col as int]@);
    if row[r.parent_col].is_null() {
        return Ok(());
    }
    match find_table(catalog, r.child.as_str()) {
        Err(_) => Ok(()),
        Ok(info) => {
            let rows = find_holders(&ctx.bpm, info, r.col, &row[r.parent_col]);
            assert(rows.deep_view().len() == rows.len());
            if rows.len() == 0 {
                Ok(())
            } else if r.action == 0 {
                let mut s =
                    "foreign key constraint violated: cannot delete row, referenced by ".to_owned();
                s.append(r.child.as_str());
                s.append(".");
                s.append(r.col_name.as_str());
                Err(ForgeError::Execution(s))
            } else if r.action == 1 {
                let refs = gather_references(catalog, r.child.as_str(), &info.schema);
                cascade_rows(
                    ctx,
                    catalog,
                    info,
                    r.child.as_str(),
                    &refs,
                    &rows,
                    busy,
                    depth,
                    host,
                )
            } else if r.action == 2 {
                null_rows(ctx, info, r.child.as_str(), &rows, r.col, host)
            } else {
                Ok(())
            }
        },
    }
}

fn cascade_rows(
    ctx: &mut DmlContext,
    catalog: &Catalog,
    info: &TableInfo,
    table: &str,
    refs: &Vec<ChildRef>,
    rows: &Vec<(RID, Vec<Value>)>,
    busy: &mut Vec<RID>,
    depth: usize,
    host: &Host,
) -> (res: std::result::Result<(), ForgeError>)
    ensures
        final(busy)@ == old(busy)@,
        rows_cascaded(
            old(ctx)@,
            *catalog,
            *info,
            table@,
            refs.deep_view(),
            rows.deep_view(),
            0,
            old(busy)@,
            depth as nat,
            host@,
        ) == (Step { state: final(ctx)@, result: viewed(res) }),
    decreases depth, 0int,
{
    let ghost fv = refs.deep_view();
    let ghost rv = rows.deep_view();
    let ghost bv = busy@;
    let ghost start = ctx@;
    let mut i: usize = 0;
    while i < rows.len()
        invariant
            0 <= i <= rows.len(),
            fv == refs.deep_view(),
            rv == rows.deep_view(),
            bv == busy@,
            bv == old(busy)@,
            start == old(ctx)@,
            rows_cascaded(start, *catalog, *info, table@, fv, rv, 0, bv, depth as nat, host@)
                == rows_cascaded(
                ctx@,
                *catalog,
                *info,
                table@,
                fv,
                rv,
                i as int,
                bv,
                depth as nat,
                host@,
            ),
        decreases rows.len() - i,
    {
        assert(rv[i as int] == (rows@[i as int].0, rows@[i as int].1.deep_view()));
        if !is_busy(busy, rows[i].0) && ctx.bpm.get_tuple(rows[i].0).is_some() {
            if depth == 0 {
                give_up(ctx, table, &info.schema, rows[i].0, &rows[i].1);
            } else {
                delete_row(
                    ctx,
                    catalog,
                    info,
                    table,
                    refs,
                    rows[i].0,
                    &rows[i].1,
                    busy,
                    depth - 1,
                    host,
                )?;
            }
        }
        i += 1;
    }
    Ok(())
}

fn clear_references(
    ctx: &mut DmlContext,
    catalog: &Catalog,
    refs: &Vec<ChildRef>,
    row: &Vec<Value>,
    busy: &mut Vec<RID>,
    depth: usize,
    host: &Host,
) -> (res: std::result::Result<(), ForgeError>)
    ensures
        final(busy)@ == old(busy)@,
        references_cleared(
            old(ctx)@,
            *catalog,
            refs.deep_view(),
            0,
            row.deep_view(),
            old(busy)@,
            depth as nat,
            host@,
        ) == (Step { state: final(ctx)@, result: viewed(res) }),
    decreases depth, 2int,
{
    let ghost fv = refs.deep_view();
    let ghost rv = row.deep_view();
    let ghost bv = busy@;
    let ghost all = references_cleared(ctx@, *catalog, fv, 0, rv, bv, depth as nat, host@);
    let mut i: usize = 0;
    while i < refs.len()
        invariant
            0 <= i <= refs.len(),
            fv == refs.deep_view(),
            rv == row.deep_view(),
            bv == busy@,
            bv == old(busy)@,
            all == references_cleared(
                old(ctx)@,
                *catalog,
                fv,
                0,
                rv,
                bv,
                depth as nat,
                host@,
            ),
            all == references_cleared(
                ctx@,
                *catalog,
                fv,
                i as int,
                rv,
                bv,
                depth as nat,
                host@,
            ),
        decreases refs.len() - i,
    {
        assert(fv[i as int] == refs@[i as int].deep_view());
        clear_reference(ctx, catalog, &refs[i], row, busy, depth, host)?;
        i += 1;
    }
    Ok(())
}

fn delete_row(
    ctx: &mut DmlContext,
    catalog: &Catalog,
    info: &TableInfo,
    table: &str,
    refs: &Vec<ChildRef>,
    rid: RID,
    row: &Vec<Value>,
    busy: &mut Vec<RID>,
    depth: usize,
    host: &Host,
) -> (r: std::result::Result<(), ForgeError>)
    ensures
        final(busy)@ == old(busy)@,
        row_deleted(
            old(ctx)@,
            *catalog,
            *info,
            table@,
            refs.deep_view(),
            (rid, row.deep_view()),
            old(busy)@,
            depth as nat,
            host@,
        ) == (Step { state: final(ctx)@, result: viewed(r) }),
    decreases depth, 3int,
{
    let ghost before = busy@;
    busy.push(rid);
    let cleared = clear_references(ctx, catalog, refs, row, busy, depth, host);
    busy.pop();
    assert(busy@ =~= before);
    cleared?;
    give_up(ctx, table, &info.schema, rid, row);
    Ok(())
}

// ---------------------------------------------------------------------------
// DELETE
// ---------------------------------------------------------------------------

/// The rows from `i` on deleted. A row that cannot be deleted ends the statement; those
/// before it are gone. References are followed further than there can be rows.
pub open spec fn rows_deleted(
    st: StateView,
    c: Catalog,
    info: TableInfo,
    table: Seq<char>,
    refs: Seq<Reference>,
    rows: Seq<RowView>,
    i: int,
    h: HostView,
) -> Step<ResultView>
    decreases rows.len() - i,
{
    if i < 0 || i >= rows.len() {
        Step { state: st, result: Ok(affected(rows.len() as int, 0)) }
    } else {
        let step = row_deleted(
            st,
            c,
            info,
            table,
            refs,
            rows[i],
            Seq::empty(),
            usize::MAX as nat,
            h,
        );
        match step.result {
            Err(e) => Step { state: step.state, result: Err(e) },
            Ok(_) => rows_deleted(step.state, c, info, table, refs, rows, i + 1, h),
        }
    }
}

/// What a DELETE of the given rows does and gives back.
pub open spec fn deleted(
    st: StateView,
    c: Catalog,
    table: Seq<char>,
    rows: Seq<RowView>,
    h: HostView,
) -> Step<ResultView> {
    match table_of(c, table) {
        None => Step { state: st, result: Err(no_table(table)) },
        Some(info) => rows_deleted(
            st,
            c,
            info,
            table,
            references_to(c, table, info),
            rows,
            0,
            h,
        ),
    }
}

/// Execute DELETE statement on pre-filtered rows.
pub fn execute_delete(
    table_name: &str,
    rows: &Vec<(RID, Vec<Value>)>,
    catalog: &Catalog,
    ctx: &mut DmlContext,
    host: &Host,
) -> (r: Result<ExecuteResult>)
    ensures
        deleted(old(ctx)@, *catalog, table_name@, rows.deep_view(), host@) == (Step {
            state: final(ctx)@,
            result: outcome(r),
        }),
{
    let info = find_table(catalog, table_name)?;
    let refs = gather_references(catalog, table_name, &info.schema);
    let mut busy: Vec<RID> = Vec::new();
    let ghost fv = refs.deep_view();
    let ghost rv = rows.deep_view();
    let ghost all = rows_deleted(ctx@, *catalog, *info, table_name@, fv, rv, 0, host@);
    let mut i: usize = 0;
    while i < rows.len()
        invariant
            0 <= i <= rows.len(),
            fv == refs.deep_view(),
            rv == rows.deep_view(),
            busy@ == Seq::<RID>::empty(),
            all == deleted(old(ctx)@, *catalog, table_name@, rv, host@),
            all == rows_deleted(
                ctx@,
                *catalog,
                *info,
                table_name@,
                fv,
                rv,
                i as int,
                host@,
            ),
        decreases rows.len() - i,
    {
        assert(rv[i as int] == (rows@[i as int].0, rows@[i as int].1.deep_view()));
        delete_row(
            ctx,
            catalog,
            info,
            table_name,
            &refs,
            rows[i].0,
            &rows[i].1,
            &mut busy,
            usize::MAX,
            host,
        )?;
        i += 1;
    }
    Ok(affected_result(rows.len(), 0))
}

/// The rows that a DELETE is given are gone once it has succeeded.
pub proof fn law_deleted_rows_are_gone(
    st: StateView,
    c: Catalog,
    table: Seq<char>,
    rows: Seq<RowView>,
    h: HostView,
    k: int,
)
    requires
        0 <= k < rows.len(),
        deleted(st, c, table, rows, h).result is Ok,
    ensures
        tuple_at(deleted(st, c, table, rows, h).state.pages, rows[k].0) is None,
{
    let info = table_of(c, table)->0;
    let refs = references_to(c, table, info);
    lemma_rows_deleted(st, c, info, table, refs, rows, 0, h, k);
}

proof fn lemma_rows_deleted(
    st: StateView,
    c: Catalog,
    info: TableInfo,
    table: Seq<char>,
    refs: Seq<Reference>,
    rows: Seq<RowView>,
    i: int,
    h: HostView,
    k: int,
)
    requires
        0 <= i <= rows.len(),
        0 <= k < rows.len(),
        k < i ==> tuple_at(st.pages, rows[k].0) is None,
        rows_deleted(st, c, info, table, refs, rows, i, h).result is Ok,
    ensures
        tuple_at(
            rows_deleted(st, c, info, table, refs, rows, i, h).state.pages,
            rows[k].0,
        ) is None,
    decreases rows.len() - i,
{
    if i < rows.len() {
        let none = Seq::<RID>::empty();
        let step = row_deleted(st, c, info, table, refs, rows[i], none, usize::MAX as nat, h);
        if k < i {
            lemma_absent_stays(rows[k].0);
            lemma_row_deleted_keeps(
                absent(rows[k].0),
                st,
                c,
                info,
                table,
                refs,
                rows[i],
                none,
                usize::MAX as nat,
                h,
            );
        }
        lemma_deleted_is_gone(st, c, info, table, refs, rows[i], none, usize::MAX as nat, h);
        lemma_rows_deleted(step.state, c, info, table, refs, rows, i + 1, h, k);
    }
}

/// That no tuple stands at a place.
spec fn absent(rid: RID) -> spec_fn(StateView) -> bool {
    |s: StateView| tuple_at(s.pages, rid) is None
}

/// A place without a tuple stays without one.
proof fn lemma_absent_stays(rid: RID)
    ensures
        kept_by_changes(absent(rid)),
{
    assert forall|st: StateView, table: Seq<char>, names: Seq<Seq<char>>, row: RowView| absent(
        rid,
    )(st) implies absent(rid)(#[trigger] row_gone(st, table, names, row)) by {
        law_replaced_tuple(st.pages, row.0, None, rid);
    }
    assert forall|
        st: StateView,
        table: Seq<char>,
        names: Seq<Seq<char>>,
        row: RowView,
        new: Seq<ValueView>,
        bytes: Seq<u8>,
    | absent(rid)(st) implies absent(rid)(
        #[trigger] row_replaced(st, table, names, row, new, bytes),
    ) by {
        law_replaced_tuple(st.pages, row.0, Some(bytes), rid);
    }
}

/// A row that is deleted is gone.
proof fn lemma_deleted_is_gone(
    st: StateView,
    c: Catalog,
    info: TableInfo,
    table: Seq<char>,
    refs: Seq<Reference>,
    row: RowView,
    busy: Seq<RID>,
    depth: nat,
    h: HostView,
)
    ensures
        ({
            let step = row_deleted(st, c, info, table, refs, row, busy, depth, h);
            step.result is Ok ==> tuple_at(step.state.pages, row.0) is None
        }),
{
    let cleared = references_cleared(st, c, refs, 0, row.1, busy.push(row.0), depth, h);
    law_replaced_tuple(cleared.state.pages, row.0, None, row.0);
}

// ---------------------------------------------------------------------------
// What a deletion keeps
// ---------------------------------------------------------------------------

/// Whether a property of a state is kept when a row is given up and when a row is put in the
/// place of another.
pub open spec fn kept_by_changes(p: spec_fn(StateView) -> bool) -> bool {
    &&& forall|st: StateView, table: Seq<char>, names: Seq<Seq<char>>, row: RowView|
        p(st) ==> p(#[trigger] row_gone(st, table, names, row))
    &&& forall|
        st: StateView,
        table: Seq<char>,
        names: Seq<Seq<char>>,
        row: RowView,
        new: Seq<ValueView>,
        bytes: Seq<u8>,
    |
        p(st) ==> p(#[trigger] row_replaced(st, table, names, row, new, bytes))
}

proof fn lemma_nulled_keeps(
    p: spec_fn(StateView) -> bool,
    st: StateView,
    info: TableInfo,
    table: Seq<char>,
    rows: Seq<RowView>,
    i: int,
    col: int,
    h: HostView,
)
    requires
        kept_by_changes(p),
        p(st),
    ensures
        p(rows_nulled(st, info, table, rows, i, col, h).state),
    decreases rows.len() - i,
{
    if 0 <= i < rows.len() {
        let new = rows[i].1.update(col, ValueView::Null);
        if let Ok(data) = serialized(new, info.schema, h) {
            let bytes = versioned(data, info.mvcc_enabled, 0);
            lemma_nulled_keeps(
                p,
                row_replaced(st, table, info.schema.names(), rows[i], new, bytes),
                info,
                table,
                rows,
                i + 1,
                col,
                h,
            );
        }
    }
}

proof fn lemma_reference_keeps(
    p: spec_fn(StateView) -> bool,
    st: StateView,
    c: Catalog,
    r: Reference,
    row: Seq<ValueView>,
    busy: Seq<RID>,
    depth: nat,
    h: HostView,
)
    requires
        kept_by_changes(p),
        p(st),
    ensures
        p(reference_cleared(st, c, r, row, busy, depth, h).state),
    decreases depth, 1int, 0int,
{
    if let Some(info) = table_of(c, r.child) {
        let rows = holders(st.pages, info, r.col, row[r.parent_col]);
        let refs = references_to(c, r.child, info);
        lemma_cascaded_keeps(p, st, c, info, r.child, refs, rows, 0, busy, depth, h);
        lemma_nulled_keeps(p, st, info, r.child, rows, 0, r.col, h);
    }
}

proof fn lemma_cascaded_keeps(
    p: spec_fn(StateView) -> bool,
    st: StateView,
    c: Catalog,
    info: TableInfo,
    table: Seq<char>,
    refs: Seq<Reference>,
    rows: Seq<RowView>,
    i: int,
    busy: Seq<RID>,
    depth: nat,
    h: HostView,
)
    requires
        kept_by_changes(p),
        p(st),
    ensures
        p(rows_cascaded(st, c, info, table, refs, rows, i, busy, depth, h).state),
    decreases depth, 0int, rows.len() - i,
{
    if 0 <= i < rows.len() {
        let gone = row_gone(st, table, info.schema.names(), rows[i]);
        if busy.contains(rows[i].0) || tuple_at(st.pages, rows[i].0) is None {
            lemma_cascaded_keeps(p, st, c, info, table, refs, rows, i + 1, busy, depth, h);
        } else if depth == 0 {
            lemma_cascaded_keeps(p, gone, c, info, table, refs, rows, i + 1, busy, depth, h);
        } else {
            let d = (depth - 1) as nat;
            let step = row_deleted(st, c, info, table, refs, rows[i], busy, d, h);
            lemma_row_deleted_keeps(p, st, c, info, table, refs, rows[i], busy, d, h);
            if step.result is Ok {
                lemma_cascaded_keeps(
                    p,
                    step.state,
                    c,
                    info,
                    table,
                    refs,
                    rows,
                    i + 1,
                    busy,
                    depth,
                    h,
                );
            }
        }
    }
}

proof fn lemma_references_keep(
    p: spec_fn(StateView) -> bool,
    st: StateView,
    c: Catalog,
    refs: Seq<Reference>,
    i: int,
    row: Seq<ValueView>,
    busy: Seq<RID>,
    depth: nat,
    h: HostView,
)
    requires
        kept_by_changes(p),
        p(st),
    ensures
        p(references_cleared(st, c, refs, i, row, busy, depth, h).state),
    decreases depth, 2int, refs.len() - i,
{
    if 0 <= i < refs.len() {
        let one = reference_cleared(st, c, refs[i], row, busy, depth, h);
        lemma_reference_keeps(p, st, c, refs[i], row, busy, depth, h);
        if one.result is Ok {
            lemma_references_keep(p, one.state, c, refs, i + 1, row, busy, depth, h);
        }
    }
}

/// What giving up and replacing rows keeps, the deletion of a row keeps.
pub proof fn lemma_row_deleted_keeps(
    p: spec_fn(StateView) -> bool,
    st: StateView,
    c: Catalog,
    info: TableInfo,
    table: Seq<char>,
    refs: Seq<Reference>,
    row: RowView,
    busy: Seq<RID>,
    depth: nat,
    h: HostView,
)
    requires
        kept_by_changes(p),
        p(st),
    ensures
        p(row_deleted(st, c, info, table, refs, row, busy, depth, h).state),
    decreases depth, 3int, 0int,
{
    lemma_references_keep(p, st, c, refs, 0, row.1, busy.push(row.0), depth, h);
}

proof fn lemma_rows_deleted_keep(
    p: spec_fn(StateView) -> bool,
    st: StateView,
    c: Catalog,
    info: TableInfo,
    table: Seq<char>,
    refs: Seq<Reference>,
    rows: Seq<RowView>,
    i: int,
    h: HostView,
)
    requires
        kept_by_changes(p),
        p(st),
    ensures
        p(rows_deleted(st, c, info, table, refs, rows, i, h).state),
    decreases rows.len() - i,
{
    if 0 <= i < rows.len() {
        let none = Seq::<RID>::empty();
        let d = usize::MAX as nat;
        let step = row_deleted(st, c, info, table, refs, rows[i], none, d, h);
        lemma_row_deleted_keeps(p, st, c, info, table, refs, rows[i], none, d, h);
        if step.result is Ok {
            lemma_rows_deleted_keep(p, step.state, c, info, table, refs, rows, i + 1, h);
        }
    }
}

/// What giving up and replacing rows keeps, a DELETE keeps.
pub proof fn lemma_delete_keeps(
    p: spec_fn(StateView) -> bool,
    st: StateView,
    c: Catalog,
    table: Seq<char>,
    rows: Seq<RowView>,
    h: HostView,
)
    requires
        kept_by_changes(p),
        p(st),
    ensures
        p(deleted(st, c, table, rows, h).state),
{
    if let Some(info) = table_of(c, table) {
        let refs = references_to(c, table, info);
        lemma_rows_deleted_keep(p, st, c, info, table, refs, rows, 0, h);
    }
}

/// Where a reference asks for it, the rows that refer to a deleted row are gone with it. Each of
/// them is deleted as this row is, so that goes for the rows that refer to them too.
pub proof fn law_cascade_takes_referring_rows(
    st: StateView,
    c: Catalog,
    info: TableInfo,
    table: Seq<char>,
    r: Reference,
    row: RowView,
    busy: Seq<RID>,
    depth: nat,
    h: HostView,
    k: int,
)
    requires
        r.action == 1,
        r.parent_col < row.1.len(),
        !row.1[r.parent_col].is_null(),
        table_of(c, r.child) is Some,
        0 <= k < holders(
            st.pages,
            table_of(c, r.child)->0,
            r.col,
            row.1[r.parent_col],
        ).len(),
        row_deleted(st, c, info, table, seq![r], row, busy, depth, h).result is Ok,
    ensures
        ({
            let rows = holders(
                st.pages,
                table_of(c, r.child)->0,
                r.col,
                row.1[r.parent_col],
            );
            let after = row_deleted(st, c, info, table, seq![r], row, busy, depth, h).state;
            tuple_at(after.pages, rows[k].0) is None || busy.contains(rows[k].0)
        }),
{
    let child = table_of(c, r.child)->0;
    let rows = holders(st.pages, child, r.col, row.1[r.parent_col]);
    let more = busy.push(row.0);
    let refs = seq![r];
    let one = reference_cleared(st, c, r, row.1, more, depth, h);
    assert(refs[0] == r);
    assert(one.result is Ok);
    assert(references_cleared(one.state, c, refs, 1, row.1, more, depth, h) == (Step {
        state: one.state,
        result: Ok::<(), ErrorView>(()),
    }));
    let to_child = references_to(c, r.child, child);
    lemma_cascaded_are_gone(st, c, child, r.child, to_child, rows, 0, more, depth, h, k);
    law_replaced_tuple(one.state.pages, row.0, None, row.0);
    law_replaced_tuple(one.state.pages, row.0, None, rows[k].0);
    if more.contains(rows[k].0) && rows[k].0 != row.0 {
        let z = choose|z: int| 0 <= z < more.len() && more[z] == rows[k].0;
        assert(busy[z] == rows[k].0);
    }
}

proof fn lemma_cascaded_are_gone(
    st: StateView,
    c: Catalog,
    info: TableInfo,
    table: Seq<char>,
    refs: Seq<Reference>,
    rows: Seq<RowView>,
    i: int,
    busy: Seq<RID>,
    depth: nat,
    h: HostView,
    k: int,
)
    requires
        0 <= i <= rows.len(),
        0 <= k < rows.len(),
        k < i ==> tuple_at(st.pages, rows[k].0) is None || busy.contains(rows[k].0),
        rows_cascaded(st, c, info, table, refs, rows, i, busy, depth, h).result is Ok,
    ensures
        tuple_at(
            rows_cascaded(st, c, info, table, refs, rows, i, busy, depth, h).state.pages,
            rows[k].0,
        ) is None || busy.contains(rows[k].0),
    decreases rows.len() - i,
{
    if i < rows.len() {
        lemma_absent_stays(rows[k].0);
        let gone = row_gone(st, table, info.schema.names(), rows[i]);
        law_replaced_tuple(st.pages, rows[i].0, None, rows[i].0);
        if busy.contains(rows[i].0) || tuple_at(st.pages, rows[i].0) is None {
            lemma_cascaded_are_gone(st, c, info, table, refs, rows, i + 1, busy, depth, h, k);
        } else if depth == 0 {
            assert(k < i && absent(rows[k].0)(st) ==> absent(rows[k].0)(gone));
            lemma_cascaded_are_gone(gone, c, info, table, refs, rows, i + 1, busy, depth, h, k);
        } else {
            let d = (depth - 1) as nat;
            let step = row_deleted(st, c, info, table, refs, rows[i], busy, d, h);
            lemma_deleted_is_gone(st, c, info, table, refs, rows[i], busy, d, h);
            if absent(rows[k].0)(st) {
                lemma_row_deleted_keeps(
                    absent(rows[k].0),
                    st,
                    c,
                    info,
                    table,
                    refs,
                    rows[i],
                    busy,
                    d,
                    h,
                );
            }
            lemma_cascaded_are_gone(
                step.state,
                c,
                info,
                table,
                refs,
                rows,
                i + 1,
                busy,
                depth,
                h,
                k,
            );
        }
    }
}

} // verus!
