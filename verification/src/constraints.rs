//! What the constraints of a table promise: CHECKs, keys that occur once, and references.
use crate::aggregate::RowView;
use crate::ast::{Expr, OnConflict};
use crate::catalog::{Catalog, TableInfo};
use crate::common::RID;
use crate::delete::{
    holders, holders_from, leave, left, reference_cleared, references_cleared, references_to,
    row_deleted, row_gone, rows_cascaded, Reference,
};
use crate::error::ErrorView;
use crate::eval::eval;
use crate::host::HostView;
use crate::index::{entry_place, key_place, lemma_entry_place, lemma_key_place, IndexView};
use crate::insert::{
    bare, check_complaint, counter, counter_key, counter_set, defaulted, duplicate_from, enter,
    entered, holds, index_column, key_taken, lacks, numbered_from, reference_complaint, row_given,
    row_inserted, unique_alone,
};
use crate::scan::table_of;
use crate::schema::{Column, Schema};
use crate::state::{lemma_named_from, named_from, StateView, Step};
use crate::storage::{
    law_read_tuple_stands_at_its_place, law_removed_tuple_is_not_read, lemma_page_from,
    slots_numbered, table_tuples, tuple_at, tuple_replaced, without_place, PageView, RawView,
};
use crate::tuple::{tuple_read, types_of};
use crate::types::{DataType, ValueView};
use crate::update::{assigned_from, row_updated};
use crate::values::sort_key;
use vstd::prelude::*;

verus! {

// ---------------------------------------------------------------------------
// Rows that keep the constraints
// ---------------------------------------------------------------------------

/// Whether none of the CHECKs of a table is false for a row.
pub open spec fn passes_checks(s: Schema, row: Seq<ValueView>, h: HostView) -> bool {
    forall|i: int|
        0 <= i < s.columns@.len() && (#[trigger] s.columns@[i]).check_expr is Some ==> eval(
            s.columns@[i].check_expr->0,
            row,
            s.names(),
            h,
        ) != Ok::<ValueView, ErrorView>(ValueView::Boolean(false))
}

/// Whether an index is on a column of a table that must not hold a value twice.
pub open spec fn is_key(index: (Seq<char>, IndexView), table: Seq<char>, s: Schema) -> bool {
    match index_column(index.0, table, s.names()) {
        Some(c) => unique_alone(s, c),
        None => false,
    }
}

/// Whether no other row than the one at the place `own` has a value of the row in a column that
/// must not hold a value twice.
pub open spec fn keys_free(
    indexes: Seq<(Seq<char>, IndexView)>,
    table: Seq<char>,
    s: Schema,
    row: Seq<ValueView>,
    own: Option<RID>,
) -> bool {
    forall|i: int|
        0 <= i < indexes.len() && is_key(#[trigger] indexes[i], table, s) ==> {
            let c = index_column(indexes[i].0, table, s.names())->0;
            c < row.len() && !row[c].is_null() ==> indexes[i].1.found(row[c]) is None
                || indexes[i].1.found(row[c]) == own
        }
}

/// Whether every value of a row that refers to another table is there.
pub open spec fn references_met(c: Catalog, st: StateView, s: Schema, row: Seq<ValueView>) -> bool {
    forall|i: int|
        0 <= i < s.columns@.len() && i < row.len() && !row[i].is_null()
            && (#[trigger] s.columns@[i]).fk_ref is Some ==> !lacks(
            c,
            st,
            (s.columns@[i].fk_ref->0).0@,
            (s.columns@[i].fk_ref->0).1@,
            row[i],
        )
}

/// The row that an INSERT makes of what is given for it.
pub open spec fn row_to_store(
    st: StateView,
    info: TableInfo,
    table: Seq<char>,
    exprs: Seq<Expr>,
    columns: Option<Seq<Seq<char>>>,
    last: u64,
    h: HostView,
) -> Seq<ValueView> {
    let s = info.schema;
    let given = row_given(exprs, columns, s.names(), h)->Ok_0;
    defaulted(s.columns@, numbered_from(s.columns@, 0, table, given, st.counters, last).row)
}

proof fn lemma_checks(
    cols: Seq<Column>,
    i: int,
    row: Seq<ValueView>,
    names: Seq<Seq<char>>,
    h: HostView,
)
    requires
        0 <= i,
        check_complaint(cols, i, row, names, h) is None,
    ensures
        forall|k: int|
            i <= k < cols.len() && (#[trigger] cols[k]).check_expr is Some ==> eval(
                cols[k].check_expr->0,
                row,
                names,
                h,
            ) != Ok::<ValueView, ErrorView>(ValueView::Boolean(false)),
    decreases cols.len() - i,
{
    if i < cols.len() {
        lemma_checks(cols, i + 1, row, names, h);
    }
}

proof fn lemma_keys(
    indexes: Seq<(Seq<char>, IndexView)>,
    i: int,
    table: Seq<char>,
    s: Schema,
    row: Seq<ValueView>,
    own: Option<RID>,
)
    requires
        0 <= i,
        duplicate_from(indexes, i, table, s, row, own) is None,
    ensures
        forall|k: int|
            i <= k < indexes.len() && is_key(#[trigger] indexes[k], table, s) ==> {
                let c = index_column(indexes[k].0, table, s.names())->0;
                c < row.len() && !row[c].is_null() ==> indexes[k].1.found(row[c]) is None
                    || indexes[k].1.found(row[c]) == own
            },
    decreases indexes.len() - i,
{
    if i < indexes.len() {
        lemma_keys(indexes, i + 1, table, s, row, own);
    }
}

proof fn lemma_references(
    c: Catalog,
    st: StateView,
    cols: Seq<Column>,
    i: int,
    row: Seq<ValueView>,
    h: HostView,
)
    requires
        0 <= i,
        reference_complaint(c, st, cols, i, row, h) is None,
    ensures
        forall|k: int|
            i <= k < cols.len() && k < row.len() && !row[k].is_null() && (
            #[trigger] cols[k]).fk_ref is Some ==> !lacks(
                c,
                st,
                (cols[k].fk_ref->0).0@,
                (cols[k].fk_ref->0).1@,
                row[k],
            ),
    decreases cols.len() - i,
{
    if i < cols.len() {
        lemma_references(c, st, cols, i + 1, row, h);
    }
}

/// A row that an INSERT stores passes the CHECKs, has no key that is already there, and refers
/// to nothing that is not there.
pub proof fn law_inserted_row_keeps_constraints(
    st: StateView,
    c: Catalog,
    info: TableInfo,
    table: Seq<char>,
    exprs: Seq<Expr>,
    columns: Option<Seq<Seq<char>>>,
    conflict: Option<OnConflict>,
    last: u64,
    h: HostView,
)
    requires
        conflict matches Some(o) ==> o.action is DoNothing,
        ({
            let step = row_inserted(st, c, info, table, exprs, columns, conflict, last, h);
            step.result is Ok && step.state.pages != st.pages
        }),
    ensures
        ({
            let step = row_inserted(st, c, info, table, exprs, columns, conflict, last, h);
            let row = row_to_store(st, info, table, exprs, columns, last, h);
            &&& passes_checks(info.schema, row, h)
            &&& keys_free(st.indexes, table, info.schema, row, None)
            &&& key_taken(st.pages, info, row, None) is None
            &&& references_met(
                c,
                StateView { counters: step.state.counters, ..st },
                info.schema,
                row,
            )
        }),
{
    let s = info.schema;
    let row = row_to_store(st, info, table, exprs, columns, last, h);
    let given = row_given(exprs, columns, s.names(), h)->Ok_0;
    let n = numbered_from(s.columns@, 0, table, given, st.counters, last);
    let counted = StateView { counters: n.counters, ..st };
    lemma_checks(s.columns@, 0, row, s.names(), h);
    lemma_keys(st.indexes, 0, table, s, row, None);
    lemma_references(c, counted, s.columns@, 0, row, h);
}

/// A row that an UPDATE changes passes the CHECKs afterwards, has no key that another row has,
/// and finds what it refers to.
pub proof fn law_updated_row_keeps_constraints(
    st: StateView,
    c: Catalog,
    info: TableInfo,
    table: Seq<char>,
    assignments: Seq<(String, Expr)>,
    row: RowView,
    h: HostView,
)
    requires
        row_updated(st, c, info, table, assignments, row, h).result is Ok,
    ensures
        ({
            let new = assigned_from(assignments, 0, row.1, info.schema.names(), row.1, h)->Ok_0;
            &&& passes_checks(info.schema, new, h)
            &&& keys_free(st.indexes, table, info.schema, new, Some(row.0))
            &&& key_taken(st.pages, info, new, Some(row.0)) is None
            &&& references_met(c, st, info.schema, new)
        }),
{
    let s = info.schema;
    let new = assigned_from(assignments, 0, row.1, s.names(), row.1, h)->Ok_0;
    lemma_checks(s.columns@, 0, new, s.names(), h);
    lemma_keys(st.indexes, 0, table, s, new, Some(row.0));
    lemma_references(c, st, s.columns@, 0, new, h);
}

/// A row for which there are numbers left has one in every auto-increment column that was NULL,
/// and is otherwise as it was given.
pub proof fn law_missing_numbers_are_given(
    cols: Seq<Column>,
    i: int,
    table: Seq<char>,
    row: Seq<ValueView>,
    counters: Seq<(Seq<char>, i64)>,
    last: u64,
    k: int,
)
    requires
        0 <= i,
        numbered_from(cols, i, table, row, counters, last).complete,
        0 <= k < row.len(),
    ensures
        ({
            let n = numbered_from(cols, i, table, row, counters, last);
            &&& n.row.len() == row.len()
            &&& if i <= k < cols.len() && cols[k].auto_increment && row[k].is_null() {
                !n.row[k].is_null()
            } else {
                n.row[k] == row[k]
            }
        }),
    decreases cols.len() - i,
{
    if i < cols.len() {
        if cols[i].auto_increment && i < row.len() && row[i].is_null() {
            let key = counter_key(table, cols[i].name@);
            let next = (counter(counters, key) + 1) as i64;
            let v = if cols[i].data_type is BigInt {
                ValueView::BigInt(next)
            } else {
                ValueView::Integer(next as i32)
            };
            law_missing_numbers_are_given(
                cols,
                i + 1,
                table,
                row.update(i, v),
                counter_set(counters, key, next),
                next as u64,
                k,
            );
        } else {
            law_missing_numbers_are_given(cols, i + 1, table, row, counters, last, k);
        }
    }
}

/// A number that is given out is the last one given out under its name afterwards, and the
/// others are as before.
pub proof fn law_counters_are_kept_apart(
    counters: Seq<(Seq<char>, i64)>,
    key: Seq<char>,
    n: i64,
    other: Seq<char>,
)
    ensures
        counter(counter_set(counters, key, n), key) == n,
        other != key ==> counter(counter_set(counters, key, n), other) == counter(counters, other),
{
    let after = counter_set(counters, key, n);
    lemma_named_from(counters, key, 0);
    lemma_named_from(after, key, 0);
    lemma_named_from(counters, other, 0);
    match named_from(counters, key, 0) {
        Some(k) => {
            lemma_counter_replaced(counters, key, n, k, other, 0);
            lemma_counter_replaced(counters, key, n, k, key, 0);
        },
        None => {
            lemma_counter_added(counters, key, n, other, 0);
            lemma_counter_added(counters, key, n, key, 0);
        },
    }
}

proof fn lemma_counter_replaced(
    counters: Seq<(Seq<char>, i64)>,
    key: Seq<char>,
    n: i64,
    k: int,
    name: Seq<char>,
    i: int,
)
    requires
        0 <= i,
        0 <= k < counters.len(),
        counters[k].0 == key,
    ensures
        named_from(counters.update(k, (key, n)), name, i) == named_from(counters, name, i),
    decreases counters.len() - i,
{
    if i < counters.len() {
        lemma_counter_replaced(counters, key, n, k, name, i + 1);
    }
}

proof fn lemma_counter_added(
    counters: Seq<(Seq<char>, i64)>,
    key: Seq<char>,
    n: i64,
    name: Seq<char>,
    i: int,
)
    requires
        0 <= i <= counters.len(),
    ensures
        named_from(counters.push((key, n)), name, i) == match named_from(counters, name, i) {
            Some(z) => Some(z),
            None => if name == key {
                Some(counters.len() as int)
            } else {
                None
            },
        },
    decreases counters.len() - i,
{
    if i < counters.len() {
        lemma_counter_added(counters, key, n, name, i + 1);
    } else {
        assert(named_from(counters.push((key, n)), name, i + 1) is None);
    }
}

// ---------------------------------------------------------------------------
// Keys that occur once
// ---------------------------------------------------------------------------

/// Whether no key but that of NULL occurs twice in an index.
pub open spec fn keys_apart(index: IndexView) -> bool {
    forall|a: int, b: int|
        0 <= a < b < index.entries.len() && (#[trigger] index.entries[a]).0 == (
        #[trigger] index.entries[b]).0 ==> index.entries[a].0 == sort_key(ValueView::Null)
}

/// Whether no column of a table that must not hold a value twice does, going by the indexes.
pub open spec fn keys_unique(
    indexes: Seq<(Seq<char>, IndexView)>,
    table: Seq<char>,
    s: Schema,
) -> bool {
    forall|i: int|
        0 <= i < indexes.len() && is_key(#[trigger] indexes[i], table, s) ==> keys_apart(
            indexes[i].1,
        )
}

proof fn lemma_no_place(entries: Seq<(Seq<u8>, RID)>, key: Seq<u8>, i: int)
    requires
        0 <= i,
        key_place(entries, key, i) is None,
    ensures
        forall|k: int| i <= k < entries.len() ==> (#[trigger] entries[k]).0 != key,
    decreases entries.len() - i,
{
    if i < entries.len() {
        lemma_no_place(entries, key, i + 1);
    }
}

proof fn lemma_with_apart(index: IndexView, v: ValueView, rid: RID)
    requires
        keys_apart(index),
        v.is_null() || index.found(v) is None,
    ensures
        keys_apart(index.with(v, rid)),
{
    let after = index.with(v, rid);
    if !v.is_null() {
        lemma_no_place(index.entries, sort_key(v), 0);
    }
    assert forall|a: int, b: int| 0 <= a < b < after.entries.len() && (
    #[trigger] after.entries[a]).0 == (#[trigger] after.entries[b]).0 implies after.entries[a].0
        == sort_key(ValueView::Null) by {
        assert(after.entries[a] == index.entries[a]);
        if b < index.entries.len() {
            assert(after.entries[b] == index.entries[b]);
        }
    }
}

proof fn lemma_without_apart(index: IndexView, v: ValueView, rid: RID)
    requires
        keys_apart(index),
    ensures
        keys_apart(index.without(v, rid)),
        v.is_null() || sort_key(v) == sort_key(ValueView::Null) || index.found(v) != Some(rid)
            || index.without(v, rid).found(v) is None,
{
    lemma_key_place(index.entries, sort_key(v), 0);
    lemma_entry_place(index.entries, sort_key(v), rid, 0);
    let after = index.without(v, rid);
    if let Some(k) = entry_place(index.entries, sort_key(v), rid, 0) {
        assert forall|a: int, b: int| 0 <= a < b < after.entries.len() && (
        #[trigger] after.entries[a]).0 == (#[trigger] after.entries[b]).0 implies after.entries[a].0
            == sort_key(ValueView::Null) by {
            let p = if a < k {
                a
            } else {
                a + 1
            };
            let q = if b < k {
                b
            } else {
                b + 1
            };
            assert(after.entries[a] == index.entries[p]);
            assert(after.entries[b] == index.entries[q]);
        }
        lemma_key_place(after.entries, sort_key(v), 0);
        if let Some(z) = key_place(after.entries, sort_key(v), 0) {
            let p = if z < k {
                z
            } else {
                z + 1
            };
            assert(after.entries[z] == index.entries[p]);
            if p < k {
                assert(index.entries[p].0 == index.entries[k].0);
            } else {
                assert(index.entries[k].0 == index.entries[p].0);
            }
        }
    }
}

/// A row that is put into a table leaves its keys unique. (One that is merged into another row is
/// an update of that row.)
pub proof fn law_insert_keeps_keys_unique(
    st: StateView,
    c: Catalog,
    info: TableInfo,
    table: Seq<char>,
    exprs: Seq<Expr>,
    columns: Option<Seq<Seq<char>>>,
    conflict: Option<OnConflict>,
    last: u64,
    h: HostView,
)
    requires
        conflict matches Some(o) ==> o.action is DoNothing,
        keys_unique(st.indexes, table, info.schema),
    ensures
        keys_unique(
            row_inserted(st, c, info, table, exprs, columns, conflict, last, h).state.indexes,
            table,
            info.schema,
        ),
{
    let s = info.schema;
    let step = row_inserted(st, c, info, table, exprs, columns, conflict, last, h);
    if step.state.indexes != st.indexes {
        let row = row_to_store(st, info, table, exprs, columns, last, h);
        lemma_keys(st.indexes, 0, table, s, row, None);
        let rid = choose|rid: RID|
            step.state.indexes == #[trigger] entered(st.indexes, table, s.names(), row, rid);
        assert forall|i: int| 0 <= i < step.state.indexes.len() && is_key(
            #[trigger] step.state.indexes[i],
            table,
            s,
        ) implies keys_apart(step.state.indexes[i].1) by {
            assert(is_key(st.indexes[i], table, s));
            let col = index_column(st.indexes[i].0, table, s.names())->0;
            if col < row.len() {
                lemma_with_apart(st.indexes[i].1, row[col], rid);
            }
        }
    }
}

/// A row that is given up leaves the keys of every table unique.
pub proof fn law_delete_keeps_keys_unique(
    st: StateView,
    table: Seq<char>,
    names: Seq<Seq<char>>,
    row: RowView,
    other: Seq<char>,
    s: Schema,
)
    requires
        keys_unique(st.indexes, other, s),
    ensures
        keys_unique(row_gone(st, table, names, row).indexes, other, s),
{
    let after = row_gone(st, table, names, row).indexes;
    assert forall|i: int| 0 <= i < after.len() && is_key(
        #[trigger] after[i],
        other,
        s,
    ) implies keys_apart(after[i].1) by {
        assert(is_key(st.indexes[i], other, s));
        if let Some(c) = index_column(st.indexes[i].0, table, names) {
            if c < row.1.len() {
                lemma_without_apart(st.indexes[i].1, row.1[c], row.0);
            }
        }
    }
}

/// Whether the indexes of a table have for the place of a row only the row's own values.
pub open spec fn indexes_agree(
    indexes: Seq<(Seq<char>, IndexView)>,
    table: Seq<char>,
    names: Seq<Seq<char>>,
    row: RowView,
) -> bool {
    forall|i: int, k: int|
        0 <= i < indexes.len() && 0 <= k < (#[trigger] indexes[i]).1.entries.len() && (
        #[trigger] indexes[i].1.entries[k]).1 == row.0 && index_column(
            indexes[i].0,
            table,
            names,
        ) is Some ==> {
            let c = index_column(indexes[i].0, table, names)->0;
            c < row.1.len() && indexes[i].1.entries[k].0 == sort_key(row.1[c])
        }
}

/// A row that is changed leaves the keys of its table unique.
pub proof fn law_update_keeps_keys_unique(
    st: StateView,
    c: Catalog,
    info: TableInfo,
    table: Seq<char>,
    assignments: Seq<(String, Expr)>,
    row: RowView,
    h: HostView,
)
    requires
        keys_unique(st.indexes, table, info.schema),
        indexes_agree(st.indexes, table, info.schema.names(), row),
    ensures
        keys_unique(
            row_updated(st, c, info, table, assignments, row, h).state.indexes,
            table,
            info.schema,
        ),
{
    let s = info.schema;
    let names = s.names();
    let after = row_updated(st, c, info, table, assignments, row, h).state.indexes;
    if after != st.indexes {
        let new = assigned_from(assignments, 0, row.1, names, row.1, h)->Ok_0;
        lemma_keys(st.indexes, 0, table, s, new, Some(row.0));
        let mid = left(st.indexes, table, names, row);
        assert(after == entered(mid, table, names, new, row.0));
        assert forall|i: int| 0 <= i < after.len() && is_key(
            #[trigger] after[i],
            table,
            s,
        ) implies keys_apart(after[i].1) by {
            let index = st.indexes[i].1;
            assert(is_key(st.indexes[i], table, s));
            assert(mid[i] == leave(st.indexes[i], table, names, row));
            assert(after[i] == enter(mid[i], table, names, new, row.0));
            let c = index_column(st.indexes[i].0, table, names)->0;
            if c < row.1.len() {
                lemma_without_apart(index, row.1[c], row.0);
            }
            if c < new.len() {
                lemma_entry_of_own_row(st, table, names, row, new, i, c);
                lemma_with_apart_keys(mid[i].1, new[c], row.0);
            }
        }
    }
}

proof fn lemma_with_apart_keys(index: IndexView, v: ValueView, rid: RID)
    requires
        keys_apart(index),
        v.is_null() || sort_key(v) == sort_key(ValueView::Null) || index.found(v) is None,
    ensures
        keys_apart(index.with(v, rid)),
{
    if v.is_null() || index.found(v) is None {
        lemma_with_apart(index, v, rid);
    } else {
        let after = index.with(v, rid);
        assert forall|a: int, b: int| 0 <= a < b < after.entries.len() && (
        #[trigger] after.entries[a]).0 == (#[trigger] after.entries[b]).0 implies after.entries[a].0
            == sort_key(ValueView::Null) by {
            assert(after.entries[a] == index.entries[a]);
            if b < index.entries.len() {
                assert(after.entries[b] == index.entries[b]);
            }
        }
    }
}

proof fn lemma_entry_of_own_row(
    st: StateView,
    table: Seq<char>,
    names: Seq<Seq<char>>,
    row: RowView,
    new: Seq<ValueView>,
    i: int,
    c: int,
)
    requires
        0 <= i < st.indexes.len(),
        index_column(st.indexes[i].0, table, names) == Some(c),
        c < new.len(),
        keys_apart(st.indexes[i].1),
        indexes_agree(st.indexes, table, names, row),
        new[c].is_null() || st.indexes[i].1.found(new[c]) is None || st.indexes[i].1.found(new[c])
            == Some(row.0),
    ensures
        new[c].is_null() || sort_key(new[c]) == sort_key(ValueView::Null) || leave(
            st.indexes[i],
            table,
            names,
            row,
        ).1.found(new[c]) is None,
{
    let index = st.indexes[i].1;
    let after = leave(st.indexes[i], table, names, row).1;
    let key = sort_key(new[c]);
    lemma_key_place(index.entries, key, 0);
    if let Some(k) = key_place(index.entries, key, 0) {
        if !new[c].is_null() {
            assert(st.indexes[i].1.entries[k].1 == row.0);
            assert(key == sort_key(row.1[c]));
            assert(index.found(row.1[c]) == Some(row.0));
            lemma_without_apart(index, row.1[c], row.0);
        }
    } else {
        lemma_no_place(index.entries, key, 0);
        lemma_key_place(after.entries, key, 0);
        if c < row.1.len() {
            lemma_entry_place(index.entries, sort_key(row.1[c]), row.0, 0);
            if let Some(z) = key_place(after.entries, key, 0) {
                match entry_place(index.entries, sort_key(row.1[c]), row.0, 0) {
                    Some(k) => {
                        let p = if z < k {
                            z
                        } else {
                            z + 1
                        };
                        assert(after.entries[z] == index.entries[p]);
                    },
                    None => {},
                }
            }
        }
    }
}

// ---------------------------------------------------------------------------
// References
// ---------------------------------------------------------------------------

/// A row to which another one refers is not deleted where its table forbids it, and nothing is
/// changed.
pub proof fn law_restricted_row_is_kept(
    st: StateView,
    c: Catalog,
    info: TableInfo,
    table: Seq<char>,
    refs: Seq<Reference>,
    k: int,
    row: RowView,
    busy: Seq<RID>,
    depth: nat,
    h: HostView,
)
    requires
        0 <= k < refs.len(),
        forall|j: int| 0 <= j < refs.len() ==> (#[trigger] refs[j]).action == 0,
        refs[k].parent_col < row.1.len(),
        !row.1[refs[k].parent_col].is_null(),
        table_of(c, refs[k].child) is Some,
        holders(
            st.pages,
            table_of(c, refs[k].child)->0,
            refs[k].col,
            row.1[refs[k].parent_col],
        ).len() > 0,
    ensures
        row_deleted(st, c, info, table, refs, row, busy, depth, h).result is Err,
        row_deleted(st, c, info, table, refs, row, busy, depth, h).state == st,
{
    lemma_restricted(st, c, refs, 0, k, row.1, busy.push(row.0), depth, h);
}

proof fn lemma_restricted(
    st: StateView,
    c: Catalog,
    refs: Seq<Reference>,
    i: int,
    k: int,
    row: Seq<ValueView>,
    busy: Seq<RID>,
    depth: nat,
    h: HostView,
)
    requires
        0 <= i <= k < refs.len(),
        forall|j: int| 0 <= j < refs.len() ==> (#[trigger] refs[j]).action == 0,
        refs[k].parent_col < row.len(),
        !row[refs[k].parent_col].is_null(),
        table_of(c, refs[k].child) is Some,
        holders(
            st.pages,
            table_of(c, refs[k].child)->0,
            refs[k].col,
            row[refs[k].parent_col],
        ).len() > 0,
    ensures
        references_cleared(st, c, refs, i, row, busy, depth, h).result is Err,
        references_cleared(st, c, refs, i, row, busy, depth, h).state == st,
    decreases k - i,
{
    assert(refs[i].action == 0);
    let one = reference_cleared(st, c, refs[i], row, busy, depth, h);
    assert(one.state == st);
    if i < k && one.result is Ok {
        lemma_restricted(st, c, refs, i + 1, k, row, busy, depth, h);
    }
}

/// Whether none of the given tuples of a table has a value in a column.
pub open spec fn none_holds(raws: Seq<RawView>, info: TableInfo, col: int, v: ValueView) -> bool {
    forall|i: int|
        0 <= i < raws.len() ==> !holds(
            (#[trigger] raws[i]).1,
            info.mvcc_enabled,
            types_of(info.schema),
            col,
            v,
        )
}

/// Where a reference asks for it, a deleted row takes every row along that refers to it: none
/// is left in the referring table, if no table refers to that one in turn.
pub proof fn law_cascade_leaves_no_reference(
    st: StateView,
    c: Catalog,
    info: TableInfo,
    table: Seq<char>,
    r: Reference,
    row: RowView,
    depth: nat,
    h: HostView,
)
    requires
        r.action == 1,
        r.parent_col < row.1.len(),
        !row.1[r.parent_col].is_null(),
        table_of(c, r.child) is Some,
        slots_numbered(st.pages),
        table_tuples(st.pages, table_of(c, r.child)->0.first_page_id.0) is Ok,
        references_to(c, r.child, table_of(c, r.child)->0).len() == 0,
    ensures
        ({
            let step = row_deleted(st, c, info, table, seq![r], row, Seq::empty(), depth, h);
            let child = table_of(c, r.child)->0;
            let after = table_tuples(step.state.pages, child.first_page_id.0);
            &&& step.result is Ok
            &&& after is Ok
            &&& none_holds(after->Ok_0, child, r.col, row.1[r.parent_col])
        }),
{
    let child = table_of(c, r.child)->0;
    let v = row.1[r.parent_col];
    let first = child.first_page_id.0;
    let raws = table_tuples(st.pages, first)->Ok_0;
    let rows = holders(st.pages, child, r.col, v);
    let refs = seq![r];
    let busy = Seq::<RID>::empty().push(row.0);
    let to_child = references_to(c, r.child, child);
    let one = reference_cleared(st, c, r, row.1, busy, depth, h);
    assert(refs[0] == r);
    lemma_holders(raws, 0, child.mvcc_enabled, types_of(child.schema), r.col, v, Seq::empty());
    lemma_holders_gone(st, c, r.child, child, to_child, rows, 0, busy, depth, h, r.col, v);
    assert(one.result is Ok);
    assert(references_cleared(one.state, c, refs, 1, row.1, busy, depth, h) == (Step {
        state: one.state,
        result: Ok::<(), ErrorView>(()),
    }));
    assert(references_cleared(st, c, refs, 0, row.1, busy, depth, h).state == one.state);
    lemma_gone_table(one.state.pages, row.0, first);
    let left = table_tuples(one.state.pages, first)->Ok_0;
    let rest = table_tuples(tuple_replaced(one.state.pages, row.0, None), first)->Ok_0;
    assert forall|i: int| 0 <= i < rest.len() implies !holds(
        (#[trigger] rest[i]).1,
        child.mvcc_enabled,
        types_of(child.schema),
        r.col,
        v,
    ) by {
        let j = choose|j: int| 0 <= j < left.len() && left[j] == rest[i];
        assert(left[j] == rest[i]);
        assert(rest[i].0 != row.0);
        assert(!busy.contains(rest[i].0));
    }
    if tuple_at(one.state.pages, row.0) is None {
        assert forall|i: int| 0 <= i < left.len() implies !holds(
            (#[trigger] left[i]).1,
            child.mvcc_enabled,
            types_of(child.schema),
            r.col,
            v,
        ) by {
            law_read_tuple_stands_at_its_place(one.state.pages, first, i);
            assert(!busy.contains(left[i].0));
        }
    }
}

/// Whether a place is that of one of the rows from `i` on.
pub open spec fn placed(rows: Seq<RowView>, i: int, rid: RID) -> bool {
    exists|k: int| i <= k < rows.len() && (#[trigger] rows[k]).0 == rid
}

proof fn lemma_holders(
    raws: Seq<RawView>,
    i: int,
    mvcc: bool,
    types: Seq<DataType>,
    col: int,
    v: ValueView,
    acc: Seq<RowView>,
)
    requires
        0 <= i <= raws.len(),
    ensures
        ({
            let rows = holders_from(raws, i, mvcc, types, col, v, acc);
            &&& acc.len() <= rows.len()
            &&& forall|k: int| 0 <= k < acc.len() ==> #[trigger] rows[k] == acc[k]
            &&& forall|k: int|
                i <= k < raws.len() && holds((#[trigger] raws[k]).1, mvcc, types, col, v)
                    ==> placed(rows, 0, raws[k].0)
        }),
    decreases raws.len() - i,
{
    if i < raws.len() {
        let next = holders_from(raws, i, mvcc, types, col, v, acc);
        if holds(raws[i].1, mvcc, types, col, v) {
            let more = acc.push(
                (raws[i].0, tuple_read(bare(raws[i].1, mvcc), types)->Ok_0),
            );
            lemma_holders(raws, i + 1, mvcc, types, col, v, more);
            assert(next[acc.len() as int] == more[acc.len() as int]);
            assert forall|k: int| 0 <= k < acc.len() implies #[trigger] next[k] == acc[k] by {
                assert(more[k] == acc[k]);
            }
            assert(placed(next, 0, raws[i].0));
        } else {
            lemma_holders(raws, i + 1, mvcc, types, col, v, acc);
        }
    }
}

/// Whether the tuples with a value in a column are at places from `i` on, or at some places.
spec fn held_at(
    raws: Seq<RawView>,
    info: TableInfo,
    col: int,
    v: ValueView,
    rows: Seq<RowView>,
    i: int,
    busy: Seq<RID>,
) -> bool {
    forall|k: int|
        0 <= k < raws.len() && holds(
            (#[trigger] raws[k]).1,
            info.mvcc_enabled,
            types_of(info.schema),
            col,
            v,
        ) ==> placed(rows, i, raws[k].0) || busy.contains(raws[k].0)
}

proof fn lemma_holders_gone(
    st: StateView,
    c: Catalog,
    table: Seq<char>,
    info: TableInfo,
    refs: Seq<Reference>,
    rows: Seq<RowView>,
    i: int,
    busy: Seq<RID>,
    depth: nat,
    h: HostView,
    col: int,
    v: ValueView,
)
    requires
        0 <= i <= rows.len(),
        refs.len() == 0,
        slots_numbered(st.pages),
        table_tuples(st.pages, info.first_page_id.0) is Ok,
        held_at(
            table_tuples(st.pages, info.first_page_id.0)->Ok_0,
            info,
            col,
            v,
            rows,
            i,
            busy,
        ),
    ensures
        ({
            let step = rows_cascaded(st, c, info, table, refs, rows, i, busy, depth, h);
            let after = step.state.pages;
            &&& step.result is Ok
            &&& slots_numbered(after)
            &&& table_tuples(after, info.first_page_id.0) is Ok
            &&& held_at(
                table_tuples(after, info.first_page_id.0)->Ok_0,
                info,
                col,
                v,
                rows,
                rows.len() as int,
                busy,
            )
        }),
    decreases rows.len() - i,
{
    let first = info.first_page_id.0;
    let raws = table_tuples(st.pages, first)->Ok_0;
    if i < rows.len() {
        let rid = rows[i].0;
        if busy.contains(rid) {
            assert(held_at(raws, info, col, v, rows, i + 1, busy)) by {
                assert forall|k: int| 0 <= k < raws.len() && holds(
                    (#[trigger] raws[k]).1,
                    info.mvcc_enabled,
                    types_of(info.schema),
                    col,
                    v,
                ) implies placed(rows, i + 1, raws[k].0) || busy.contains(raws[k].0) by {
                    if raws[k].0 != rid {
                        lemma_placed_further(rows, i, raws[k].0);
                    }
                }
            }
            lemma_holders_gone(
                st,
                c,
                table,
                info,
                refs,
                rows,
                i + 1,
                busy,
                depth,
                h,
                col,
                v,
            );
        } else {
            let next = row_gone(st, table, info.schema.names(), rows[i]);
            lemma_gone_table(st.pages, rid, first);
            let rest = table_tuples(tuple_replaced(st.pages, rid, None), first)->Ok_0;
            let now = table_tuples(next.pages, first)->Ok_0;
            assert forall|k: int| 0 <= k < now.len() && holds(
                (#[trigger] now[k]).1,
                info.mvcc_enabled,
                types_of(info.schema),
                col,
                v,
            ) implies placed(rows, i + 1, now[k].0) || busy.contains(now[k].0) by {
                if tuple_at(st.pages, rid) is None {
                    law_read_tuple_stands_at_its_place(st.pages, first, k);
                } else {
                    let j = choose|j: int| 0 <= j < raws.len() && raws[j] == rest[k];
                    assert(raws[j] == rest[k]);
                }
                assert(now[k].0 != rid);
                lemma_placed_further(rows, i, now[k].0);
            }
            if depth > 0 && tuple_at(st.pages, rid) is Some {
                let d = (depth - 1) as nat;
                assert(references_cleared(st, c, refs, 0, rows[i].1, busy.push(rid), d, h) == (
                Step { state: st, result: Ok::<(), ErrorView>(()) }));
                assert(row_deleted(st, c, info, table, refs, rows[i], busy, d, h) == (Step {
                    state: next,
                    result: Ok::<(), ErrorView>(()),
                }));
            }
            lemma_holders_gone(
                next,
                c,
                table,
                info,
                refs,
                rows,
                i + 1,
                busy,
                depth,
                h,
                col,
                v,
            );
        }
    }
}

proof fn lemma_placed_further(rows: Seq<RowView>, i: int, rid: RID)
    requires
        0 <= i < rows.len(),
        rows[i].0 != rid,
    ensures
        placed(rows, i, rid) ==> placed(rows, i + 1, rid),
{
    if placed(rows, i, rid) {
        let z = choose|z: int| i <= z < rows.len() && (#[trigger] rows[z]).0 == rid;
        assert(z != i);
    }
}

/// The tuples of a table without the one at a place are among those that it had, and none
/// stands at that place.
proof fn lemma_gone_table(pages: Seq<PageView>, rid: RID, first: u32)
    requires
        slots_numbered(pages),
        table_tuples(pages, first) is Ok,
    ensures
        ({
            let after = tuple_replaced(pages, rid, None);
            let raws = table_tuples(pages, first)->Ok_0;
            let rest = table_tuples(after, first)->Ok_0;
            &&& slots_numbered(after)
            &&& table_tuples(after, first) is Ok
            &&& forall|k: int|
                0 <= k < rest.len() ==> (#[trigger] rest[k]).0 != rid && raws.contains(rest[k])
        }),
{
    let raws = table_tuples(pages, first)->Ok_0;
    let after = tuple_replaced(pages, rid, None);
    lemma_page_from(pages, rid.page_id.0, 0);
    assert forall|i: int| 0 <= i < after.len() implies (#[trigger] after[i]).slots.len()
        <= 0x1_0000 by {
        assert(pages[i].slots.len() <= 0x1_0000);
    }
    if tuple_at(pages, rid) is Some {
        law_removed_tuple_is_not_read(pages, rid, first);
        let rest = without_place(raws, rid);
        assert forall|k: int| 0 <= k < rest.len() implies (#[trigger] rest[k]).0 != rid
            && raws.contains(rest[k]) by {
            lemma_without_place(raws, rid, k);
        }
    } else {
        assert forall|k: int| 0 <= k < raws.len() implies (#[trigger] raws[k]).0 != rid
            && raws.contains(raws[k]) by {
            law_read_tuple_stands_at_its_place(pages, first, k);
        }
    }
}

proof fn lemma_without_place(raws: Seq<RawView>, rid: RID, k: int)
    requires
        0 <= k < without_place(raws, rid).len(),
    ensures
        without_place(raws, rid)[k].0 != rid,
        raws.contains(without_place(raws, rid)[k]),
    decreases raws.len(),
{
    reveal(Seq::filter);
    let rest = raws.drop_last();
    let kept = without_place(rest, rid);
    if k < kept.len() {
        lemma_without_place(rest, rid, k);
        let j = choose|j: int| 0 <= j < rest.len() && rest[j] == kept[k];
        assert(raws[j] == kept[k]);
    } else {
        assert(raws[raws.len() - 1] == raws.last());
    }
}

} // verus!
