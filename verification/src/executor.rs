//! Execution of plans.
use crate::aggregate::{aggregate_result, execute_aggregate, has_aggregates, RowView};
use crate::arena_join::{arena_answer, int_type, read_parts, table_parts, try_arena_join_result};
use crate::ast::{ColumnDef, Expr, JoinType, LiteralValue, OrderByItem, SelectColumn};
use crate::catalog::{Catalog, TableInfo};
use crate::columnar_join::{
    columnar, columnar_to_execute_result, columns_rows, try_columnar_inner_join,
};
use crate::common::{dummy_rid, no_rid, RID};
use crate::error::{execution, outcome, ErrorView, Result};
use crate::eval::{eval_bool, eval_to_bool};
use crate::filter::{
    execute_filter, execute_limit, filtered, limited, skip_rows, skipped,
};
use crate::grace_join::{grace_hash_join, grace_rows_below, HASH_JOIN_MEMORY_LIMIT, NUM_PARTITIONS};
use crate::host::{Host, HostView};
use crate::index_scan::{
    execute_index_only_scan, execute_index_scan, index_only_rows, index_rows,
};
use crate::iterator::{
    aggregated, bare_names, drain_iterator, drained, has_window, placeless, streamed, strip_names,
    take_values, try_build_iterator, values_of, window_column_at,
};
use crate::join::{
    build_combined_schema_pub, equi_keys, execute_join, extract_equi_join_keys, join_rows,
    joined_columns, concat_rows, match_places, with_columns, HashKey, KeyIndex, KeyView,
};
use crate::grouping::within;
use crate::ddl::{
    create_error, execute_create_index, execute_create_table, execute_drop_table, index_created,
    other_indexes, page_set_aside, table_added, with_page, Indexed,
};
use crate::delete::{deleted, execute_delete};
use crate::index::{in_key_order, BTreeIndex, ClusteredIndex, ClusteredView, IndexView};
use crate::insert::{execute_insert, inserted};
use crate::plan::PlanNode;
use crate::update::{execute_update, updated};
use crate::projection::{execute_projection, projection};
use crate::scan::{
    aggregate_column_fast, column_aggregate, count_tuples_fast, enough, execute_seq_scan_direct,
    find_table, first_rows, is_enough, live, live_part, no_table, table_count, table_of, table_rows,
    AggFunc,
};
use crate::schema::{
    columns_to_schema, described, lemma_view_names, prefixed, view_names, ColumnView, Schema,
};
use crate::sort::{execute_sort, sorted_rows};
use crate::state::{
    answer, find_named, named_from, readable, report, DmlContext, ExecuteResult, ExecutorContext,
    ReadContext, ReadView, ResultView, StateView, Step,
};
use crate::streaming::{execute_grouping, grouped};
use crate::storage::{copy_bytes, table_tuples, BufferPool, PageView, RawView, MVCC_HEADER_SIZE};
use crate::txn::{TxnContext, TxnView};
use crate::text::{lower_text, quote, quoted_text, same_text, upper_text};
use crate::tuple::{column_int, deserialize, read_column_i64_raw, tuple_read, types_of};
use crate::types::{DataType, Value, ValueView};
use crate::bytes::{find_key, lemma_bytes_deep};
use crate::values::{row_key, serialize_row_key};
use vstd::prelude::*;

verus! {

// ---------------------------------------------------------------------------
// Tables
// ---------------------------------------------------------------------------

/// The columns and rows of a part of a plan.
pub type Rows = std::result::Result<(Seq<ColumnView>, Seq<RowView>), ErrorView>;

/// The rows of the stored parts from `i` on, behind `acc`. Reading stops where the limit is
/// reached.
pub open spec fn parts_read(
    raws: Seq<RawView>,
    i: int,
    types: Seq<DataType>,
    limit: Option<usize>,
    acc: Seq<RowView>,
) -> std::result::Result<Seq<RowView>, ErrorView>
    decreases raws.len() - i,
{
    if i < 0 || i >= raws.len() || enough(acc.len() as int, limit) {
        Ok(acc)
    } else {
        match tuple_read(raws[i].1, types) {
            Err(e) => Err(e),
            Ok(row) => parts_read(raws, i + 1, types, limit, acc.push((raws[i].0, row))),
        }
    }
}

fn read_seen(raws: &Vec<(RID, Vec<u8>)>, schema: &Schema, limit: Option<usize>) -> (r: Result<
    Vec<(RID, Vec<Value>)>,
>)
    ensures
        outcome(r) == parts_read(
            raws.deep_view(),
            0,
            types_of(*schema),
            limit,
            Seq::empty(),
        ),
{
    let ghost rv = raws.deep_view();
    let ghost types = types_of(*schema);
    let mut rows: Vec<(RID, Vec<Value>)> = Vec::new();
    assert(rows.deep_view() =~= Seq::<RowView>::empty());
    let mut i: usize = 0;
    while i < raws.len()
        invariant
            0 <= i <= raws.len(),
            rv == raws.deep_view(),
            types == types_of(*schema),
            parts_read(rv, 0, types, limit, Seq::empty()) == parts_read(
                rv,
                i as int,
                types,
                limit,
                rows.deep_view(),
            ),
        decreases raws.len() - i,
    {
        assert(rows.deep_view().len() == rows.len());
        if is_enough(rows.len(), limit) {
            return Ok(rows);
        }
        assert(rv[i as int].0 == raws@[i as int].0);
        assert(rv[i as int].1 =~= raws@[i as int].1@);
        let row = deserialize(raws[i].1.as_slice(), schema)?;
        let ghost before = rows.deep_view();
        let ghost row_view = row.deep_view();
        rows.push((raws[i].0, row));
        assert(rows.deep_view() =~= before.push((raws@[i as int].0, row_view)));
        i += 1;
    }
    Ok(rows)
}

/// The rows of a table, in the order of its clustered index where it has one; the columns are
/// named after the table or its alias too.
pub open spec fn table_scan(
    rd: ReadView,
    table: Seq<char>,
    alias: Option<Seq<char>>,
    limit: Option<usize>,
) -> Rows {
    let prefix = match alias {
        Some(a) => a,
        None => table,
    };
    match named_from(rd.clustered, lower_text(table), 0) {
        Some(k) => match table_of(rd.catalog, table) {
            None => Err(no_table(table)),
            Some(info) => match table_seen(rd, info, table) {
                Err(e) => Err(e),
                Ok(parts) => match parts_read(
                    parts,
                    0,
                    types_of(info.schema),
                    limit,
                    Seq::empty(),
                ) {
                    Err(e) => Err(e),
                    Ok(rows) => Ok((prefixed(info.schema.deep_view(), prefix), rows)),
                },
            },
        },
        None => match table_rows(rd.catalog, rd.pages, table, limit, rd.txn) {
            Err(e) => Err(e),
            Ok(p) => Ok((prefixed(p.0, prefix), p.1)),
        },
    }
}

/// The rows of a table.
pub fn scan_table(ctx: &ReadContext, table: &str, alias: &Option<String>, limit: Option<usize>) -> (r:
    Result<(Schema, Vec<(RID, Vec<Value>)>)>)
    ensures
        outcome(r) == table_scan(ctx@, table@, alias.deep_view(), limit),
{
    let prefix: &str = match alias {
        Some(a) => a.as_str(),
        None => table,
    };
    let low = table.to_lowercase();
    match find_named(ctx.clustered_indexes, low.as_str()) {
        Some(_) => {
            let info = find_table(ctx.catalog, table)?;
            let parts = see_table(ctx, info, table)?;
            let rows = read_seen(&parts, &info.schema, limit)?;
            Ok((info.schema.prefixed(prefix), rows))
        },
        None => {
            let (schema, rows) = execute_seq_scan_direct(
                table,
                ctx.catalog,
                ctx.bpm,
                limit,
                ctx.txn_ctx,
            )?;
            Ok((schema.prefixed(prefix), rows))
        },
    }
}

/// The rows of a scan: one row without columns for a query without a table.
pub open spec fn scan_rows(rd: ReadView, table: Seq<char>, alias: Option<Seq<char>>) -> Rows {
    if table == "__dual__"@ {
        Ok((Seq::empty(), seq![(no_rid(), Seq::empty())]))
    } else {
        table_scan(rd, table, alias, None)
    }
}

fn scan(ctx: &ReadContext, table: &str, alias: &Option<String>) -> (r: Result<
    (Schema, Vec<(RID, Vec<Value>)>),
>)
    ensures
        outcome(r) == scan_rows(ctx@, table@, alias.deep_view()),
{
    if same_text(table, "__dual__") {
        let schema = Schema::new(Vec::new());
        assert(schema.deep_view() =~= Seq::<ColumnView>::empty());
        let mut rows: Vec<(RID, Vec<Value>)> = Vec::new();
        let row: Vec<Value> = Vec::new();
        assert(row.deep_view() =~= Seq::<ValueView>::empty());
        let ghost rv = row.deep_view();
        rows.push((dummy_rid(), row));
        assert(rows.deep_view() =~= seq![(no_rid(), rv)]);
        return Ok((schema, rows));
    }
    scan_table(ctx, table, alias, None)
}

// ---------------------------------------------------------------------------
// Joins
// ---------------------------------------------------------------------------

/// The integer keys and rows of the parts from `i` on that have both, behind `acc`.
pub open spec fn keyed_rows(
    parts: Seq<Seq<u8>>,
    i: int,
    types: Seq<DataType>,
    col: int,
    acc: Seq<(i64, Seq<ValueView>)>,
) -> Seq<(i64, Seq<ValueView>)>
    decreases parts.len() - i,
{
    if i < 0 || i >= parts.len() {
        acc
    } else {
        keyed_rows(
            parts,
            i + 1,
            types,
            col,
            match (column_int(parts[i], types, col), tuple_read(parts[i], types)) {
                (Some(k), Ok(row)) => acc.push((k, row)),
                _ => acc,
            },
        )
    }
}

/// The keys of rows.
pub open spec fn keys_of(rows: Seq<(i64, Seq<ValueView>)>) -> Seq<Option<KeyView>> {
    Seq::new(rows.len(), |i: int| Some(KeyView::BigInt(rows[i].0)))
}

/// The rows from `i` on put together with those of the other side that have the same key,
/// behind `acc`.
pub open spec fn keyed_join(
    rows: Seq<(i64, Seq<ValueView>)>,
    i: int,
    others: Seq<(i64, Seq<ValueView>)>,
    others_left: bool,
    acc: Seq<RowView>,
) -> Seq<RowView>
    decreases rows.len() - i,
{
    if i < 0 || i >= rows.len() {
        acc
    } else {
        keyed_join(
            rows,
            i + 1,
            others,
            others_left,
            acc + beside_each(
                rows[i].1,
                match_places(keys_of(others), Some(KeyView::BigInt(rows[i].0))),
                others,
                others_left,
            ),
        )
    }
}

/// A row put together with each of some others.
pub open spec fn beside_each(
    row: Seq<ValueView>,
    found: Seq<usize>,
    others: Seq<(i64, Seq<ValueView>)>,
    others_left: bool,
) -> Seq<RowView> {
    Seq::new(
        found.len(),
        |j: int|
            (
                no_rid(),
                if others_left {
                    others[found[j] as int].1 + row
                } else {
                    row + others[found[j] as int].1
                },
            ),
    )
}

/// A fast inner join of two plain tables by integer columns; none, where it is not one, or where
/// a transaction does not see all rows.
pub open spec fn fast_join(left: PlanNode, right: PlanNode, on: Expr, rd: ReadView) -> Option<Rows> {
    match (left, right) {
        (
            PlanNode::SeqScan { table_name: lt, alias: la },
            PlanNode::SeqScan { table_name: rt, alias: ra },
        ) => if rd.txn is Some || named_from(rd.clustered, lower_text(lt@), 0) is Some
            || named_from(rd.clustered, lower_text(rt@), 0) is Some {
            None
        } else {
            match (table_of(rd.catalog, lt@), table_of(rd.catalog, rt@)) {
                (Some(linfo), Some(rinfo)) => fast_join_tables(
                    linfo,
                    lt@,
                    prefixed(linfo.schema.deep_view(), alias_or(la.deep_view(), lt@)),
                    rinfo,
                    rt@,
                    prefixed(rinfo.schema.deep_view(), alias_or(ra.deep_view(), rt@)),
                    on,
                    rd,
                ),
                _ => None,
            }
        },
        _ => None,
    }
}

/// An alias, or else a table's own name.
pub open spec fn alias_or(alias: Option<Seq<char>>, table: Seq<char>) -> Seq<char> {
    match alias {
        Some(a) => a,
        None => table,
    }
}

/// A fast inner join of two tables. The rows of the table with fewer columns are looked up by
/// their keys.
pub open spec fn fast_join_tables(
    linfo: TableInfo,
    lt: Seq<char>,
    lcols: Seq<ColumnView>,
    rinfo: TableInfo,
    rt: Seq<char>,
    rcols: Seq<ColumnView>,
    on: Expr,
    rd: ReadView,
) -> Option<Rows> {
    match equi_keys(on, view_names(lcols), view_names(rcols)) {
        None => None,
        Some(k) => {
            let ltypes = types_of(linfo.schema);
            let rtypes = types_of(rinfo.schema);
            if !int_type(ltypes[k.0]) || !int_type(rtypes[k.1]) {
                None
            } else {
                let by_right = rtypes.len() <= ltypes.len();
                match table_rows(
                    rd.catalog,
                    rd.pages,
                    if by_right {
                        rt
                    } else {
                        lt
                    },
                    None,
                    rd.txn,
                ) {
                    Err(e) => Some(Err(e)),
                    Ok(_) => match (table_parts(rd.pages, linfo), table_parts(rd.pages, rinfo)) {
                        (Some(lparts), Some(rparts)) => {
                            let l = keyed_rows(lparts, 0, ltypes, k.0, Seq::empty());
                            let r = keyed_rows(rparts, 0, rtypes, k.1, Seq::empty());
                            Some(
                                Ok(
                                    (
                                        joined_columns(lcols, rcols),
                                        if by_right {
                                            keyed_join(l, 0, r, false, Seq::empty())
                                        } else {
                                            keyed_join(r, 0, l, true, Seq::empty())
                                        },
                                    ),
                                ),
                            )
                        },
                        _ => None,
                    },
                }
            }
        },
    }
}

struct Keyed {
    keys: Vec<Option<HashKey>>,
    rows: Vec<Vec<Value>>,
}

impl Keyed {
    spec fn of(self, rows: Seq<(i64, Seq<ValueView>)>) -> bool {
        &&& self.keys.deep_view() == keys_of(rows)
        &&& self.rows@.len() == rows.len()
        &&& forall|i: int|
            0 <= i < rows.len() ==> (#[trigger] self.rows@[i]).deep_view() == rows[i].1
    }
}

fn read_keyed(parts: &Vec<Vec<u8>>, schema: &Schema, col: usize) -> (r: Keyed)
    ensures
        r.of(keyed_rows(parts.deep_view(), 0, types_of(*schema), col as int, Seq::empty())),
{
    let ghost pv = parts.deep_view();
    let ghost types = types_of(*schema);
    let ghost mut acc = Seq::<(i64, Seq<ValueView>)>::empty();
    let mut keys: Vec<Option<HashKey>> = Vec::new();
    let mut rows: Vec<Vec<Value>> = Vec::new();
    assert(keys.deep_view() =~= keys_of(acc));
    let mut i: usize = 0;
    while i < parts.len()
        invariant
            0 <= i <= parts.len(),
            pv == parts.deep_view(),
            types == types_of(*schema),
            keys.deep_view() == keys_of(acc),
            rows.len() == acc.len(),
            forall|k: int| 0 <= k < acc.len() ==> (#[trigger] rows@[k]).deep_view() == acc[k].1,
            keyed_rows(pv, 0, types, col as int, Seq::empty()) == keyed_rows(
                pv,
                i as int,
                types,
                col as int,
                acc,
            ),
        decreases parts.len() - i,
    {
        assert(pv[i as int] =~= parts@[i as int]@);
        let d = parts[i].as_slice();
        if let Some(k) = read_column_i64_raw(d, schema, col) {
            if let Ok(row) = deserialize(d, schema) {
                let ghost had = keys.deep_view();
                let ghost before = acc;
                proof {
                    acc = before.push((k, row.deep_view()));
                }
                keys.push(Some(HashKey::BigInt(k)));
                assert(keys.deep_view() =~= had.push(Some(KeyView::BigInt(k))));
                assert(keys.deep_view() =~= keys_of(acc));
                rows.push(row);
            }
        }
        i += 1;
    }
    Keyed { keys, rows }
}

fn join_keyed(
    l: &Keyed,
    r: &Keyed,
    others_left: bool,
    Ghost(lv): Ghost<Seq<(i64, Seq<ValueView>)>>,
    Ghost(rv): Ghost<Seq<(i64, Seq<ValueView>)>>,
) -> (out: Vec<(RID, Vec<Value>)>)
    requires
        l.of(lv),
        r.of(rv),
    ensures
        out.deep_view() == keyed_join(lv, 0, rv, others_left, Seq::empty()),
{
    let index = KeyIndex::build(&r.keys);
    let mut out: Vec<(RID, Vec<Value>)> = Vec::new();
    assert(out.deep_view() =~= Seq::<RowView>::empty());
    let mut i: usize = 0;
    while i < l.rows.len()
        invariant
            0 <= i <= l.rows.len(),
            l.of(lv),
            r.of(rv),
            index.of(r.keys.deep_view(), r.keys.len() as int),
            keyed_join(lv, 0, rv, others_left, Seq::empty()) == keyed_join(
                lv,
                i as int,
                rv,
                others_left,
                out.deep_view(),
            ),
        decreases l.rows.len() - i,
    {
        assert(l.keys.deep_view().len() == lv.len());
        assert(l.keys.deep_view()[i as int] == l.keys@[i as int].deep_view());
        assert(r.keys.deep_view().len() == rv.len());
        let found = index.lookup(&r.keys, &l.keys[i]);
        let ghost more = beside_each(lv[i as int].1, found@, rv, others_left);
        let ghost start = out.deep_view();
        let mut j: usize = 0;
        assert(start + more.take(0) =~= start);
        while j < found.len()
            invariant
                0 <= j <= found.len(),
                i < l.rows.len(),
                l.of(lv),
                r.of(rv),
                within(found@, r.keys.len() as int),
                r.keys.deep_view().len() == rv.len(),
                more == beside_each(lv[i as int].1, found@, rv, others_left),
                out.deep_view() == start + more.take(j as int),
            decreases found.len() - j,
        {
            let f: usize = found[j];
            assert(within(found@, r.keys.len() as int));
            assert(f < r.keys.len());
            let row = if others_left {
                concat_rows(&r.rows[f], &l.rows[i])
            } else {
                concat_rows(&l.rows[i], &r.rows[f])
            };
            let ghost had = out.deep_view();
            let ghost row_view = row.deep_view();
            assert(row_view == more[j as int].1);
            out.push((dummy_rid(), row));
            assert(out.deep_view() =~= had.push((no_rid(), row_view)));
            assert(more.take(j + 1) =~= more.take(j as int).push(more[j as int]));
            assert(out.deep_view() =~= start + more.take(j + 1));
            j += 1;
        }
        assert(more.take(found.len() as int) =~= more);
        i += 1;
    }
    out
}

fn try_fast_inner_join(left: &PlanNode, right: &PlanNode, on: &Expr, ctx: &ReadContext) -> (r: Option<
    Result<(Schema, Vec<(RID, Vec<Value>)>)>,
>)
    ensures
        match r {
            None => fast_join(*left, *right, *on, ctx@) is None,
            Some(x) => fast_join(*left, *right, *on, ctx@) == Some(outcome(x)),
        },
{
    let (lt, la) = match left {
        PlanNode::SeqScan { table_name, alias } => (table_name, alias),
        _ => {
            return None;
        },
    };
    let (rt, ra) = match right {
        PlanNode::SeqScan { table_name, alias } => (table_name, alias),
        _ => {
            return None;
        },
    };
    if ctx.txn_ctx.is_some() || find_named(
        ctx.clustered_indexes,
        lt.as_str().to_lowercase().as_str(),
    ).is_some() || find_named(ctx.clustered_indexes, rt.as_str().to_lowercase().as_str()).is_some() {
        return None;
    }
    let linfo = match ctx.catalog.get_table(lt.as_str()) {
        Some(t) => t,
        None => {
            return None;
        },
    };
    let rinfo = match ctx.catalog.get_table(rt.as_str()) {
        Some(t) => t,
        None => {
            return None;
        },
    };
    let lprefix: &str = match la {
        Some(a) => a.as_str(),
        None => lt.as_str(),
    };
    let rprefix: &str = match ra {
        Some(a) => a.as_str(),
        None => rt.as_str(),
    };
    let lschema = linfo.schema.prefixed(lprefix);
    let rschema = rinfo.schema.prefixed(rprefix);
    proof {
        lemma_view_names(lschema);
        lemma_view_names(rschema);
    }
    assert(lschema.deep_view().len() == linfo.schema.deep_view().len());
    assert(rschema.deep_view().len() == rinfo.schema.deep_view().len());
    let (lk, rk) = match extract_equi_join_keys(on, &lschema, &rschema) {
        Some(p) => p,
        None => {
            return None;
        },
    };
    if !is_integer(&linfo.schema.columns[lk].data_type) || !is_integer(
        &rinfo.schema.columns[rk].data_type,
    ) {
        return None;
    }
    let by_right = rinfo.schema.columns.len() <= linfo.schema.columns.len();
    let looked_up: &str = if by_right {
        rt.as_str()
    } else {
        lt.as_str()
    };
    if let Err(e) = execute_seq_scan_direct(looked_up, ctx.catalog, ctx.bpm, None, ctx.txn_ctx) {
        return Some(Err(e));
    }
    let lparts = match read_parts(ctx.bpm, linfo) {
        Some(p) => p,
        None => {
            return None;
        },
    };
    let rparts = match read_parts(ctx.bpm, rinfo) {
        Some(p) => p,
        None => {
            return None;
        },
    };
    let l = read_keyed(&lparts, &linfo.schema, lk);
    let r = read_keyed(&rparts, &rinfo.schema, rk);
    let ghost lv = keyed_rows(
        lparts.deep_view(),
        0,
        types_of(linfo.schema),
        lk as int,
        Seq::empty(),
    );
    let ghost rv = keyed_rows(
        rparts.deep_view(),
        0,
        types_of(rinfo.schema),
        rk as int,
        Seq::empty(),
    );
    let rows = if by_right {
        join_keyed(&l, &r, false, Ghost(lv), Ghost(rv))
    } else {
        join_keyed(&r, &l, true, Ghost(rv), Ghost(lv))
    };
    Some(Ok((build_combined_schema_pub(&lschema, &rschema), rows)))
}

fn is_integer(t: &DataType) -> (r: bool)
    ensures
        r == int_type(*t),
{
    match t {
        DataType::Integer => true,
        DataType::BigInt => true,
        _ => false,
    }
}

/// Whether a join is done partition by partition: it keeps the rows of its left side at most,
/// its condition is that two columns are equal, and one side has many rows.
pub open spec fn partitioned(
    left: (Seq<ColumnView>, Seq<RowView>),
    right: (Seq<ColumnView>, Seq<RowView>),
    t: JoinType,
    on: Option<Expr>,
) -> Option<(int, int)> {
    if (left.1.len() > HASH_JOIN_MEMORY_LIMIT || right.1.len() > HASH_JOIN_MEMORY_LIMIT) && (t
        == JoinType::Inner || t == JoinType::Left) {
        match on {
            None => None,
            Some(e) => equi_keys(e, view_names(left.0), view_names(right.0)),
        }
    } else {
        None
    }
}

/// The columns and rows of a join of two scans.
pub open spec fn joined(
    left: (Seq<ColumnView>, Seq<RowView>),
    right: (Seq<ColumnView>, Seq<RowView>),
    t: JoinType,
    on: Option<Expr>,
    large: bool,
    h: HostView,
) -> Rows {
    let keys = if large {
        partitioned(left, right, t, on)
    } else {
        None
    };
    match keys {
        Some(k) => with_columns(
            left.0,
            right.0,
            Ok(
                grace_rows_below(
                    left.1,
                    right.1,
                    t,
                    k.0,
                    k.1,
                    left.0.len() as int,
                    right.0.len() as int,
                    NUM_PARTITIONS as int,
                ),
            ),
        ),
        None => with_columns(
            left.0,
            right.0,
            join_rows(left.1, right.1, t, on, view_names(left.0), view_names(right.0), h),
        ),
    }
}

fn join(
    left: (Schema, Vec<(RID, Vec<Value>)>),
    right: (Schema, Vec<(RID, Vec<Value>)>),
    join_type: &JoinType,
    on: &Option<Expr>,
    large: bool,
    host: &Host,
) -> (r: Result<(Schema, Vec<(RID, Vec<Value>)>)>)
    ensures
        outcome(r) == joined(
            left.deep_view(),
            right.deep_view(),
            *join_type,
            *on,
            large,
            host@,
        ),
{
    let (left_schema, left_rows) = left;
    let (right_schema, right_rows) = right;
    proof {
        lemma_view_names(left_schema);
        lemma_view_names(right_schema);
    }
    assert(left_rows.deep_view().len() == left_rows.len());
    assert(right_rows.deep_view().len() == right_rows.len());
    if large && (left_rows.len() > HASH_JOIN_MEMORY_LIMIT || right_rows.len()
        > HASH_JOIN_MEMORY_LIMIT) && (*join_type == JoinType::Inner || *join_type
        == JoinType::Left) {
        if let Some(e) = on {
            if let Some((lk, rk)) = extract_equi_join_keys(e, &left_schema, &right_schema) {
                return grace_hash_join(
                    left_rows.as_slice(),
                    right_rows.as_slice(),
                    join_type,
                    lk,
                    rk,
                    &left_schema,
                    &right_schema,
                );
            }
        }
    }
    execute_join(
        left_rows.as_slice(),
        right_rows.as_slice(),
        join_type,
        on,
        &left_schema,
        &right_schema,
        host,
    )
}

// ---------------------------------------------------------------------------
// Scans
// ---------------------------------------------------------------------------

/// On whose behalf a plan is scanned.
#[derive(Debug, Clone, Copy, PartialEq, Eq, Structural)]
pub enum Purpose {
    Statement,
    Query,
    Change,
}

/// The complaint about a plan that is no scan.
pub open spec fn no_scan(p: Purpose) -> ErrorView {
    ErrorView::Execution(
        match p {
            Purpose::Statement => "unexpected plan node in scan context"@,
            Purpose::Query => "unexpected plan node in read scan context"@,
            Purpose::Change => "unexpected plan node in DML scan context"@,
        },
    )
}

/// The columns and rows of a plan made of scans, filters and joins.
pub open spec fn plan_rows(plan: PlanNode, p: Purpose, rd: ReadView, h: HostView) -> Rows
    decreases plan,
{
    match plan {
        PlanNode::SeqScan { table_name, alias } => scan_rows(rd, table_name@, alias.deep_view()),
        PlanNode::IndexScan { table_name, index_column, lookup_value, index_only } => if index_only {
            index_only_rows(
                rd.catalog,
                rd.pages,
                rd.indexes,
                table_name@,
                index_column@,
                lookup_value,
                rd.txn,
                h,
            )
        } else {
            match index_rows(
                rd.catalog,
                rd.pages,
                rd.indexes,
                table_name@,
                index_column@,
                lookup_value,
                rd.txn,
                h,
            ) {
                Err(e) => Err(e),
                Ok(x) => Ok((described(x.0), x.1)),
            }
        },
        PlanNode::Filter { predicate, child } => match plan_rows(*child, p, rd, h) {
            Err(e) => Err(e),
            Ok(x) => match filtered(predicate, x.1, view_names(x.0), h) {
                Err(e) => Err(e),
                Ok(rows) => Ok((x.0, rows)),
            },
        },
        PlanNode::NestedLoopJoin { left, right, join_type, on } => {
            let fast = if p == Purpose::Query && join_type == JoinType::Inner && on is Some {
                fast_join(*left, *right, on->0, rd)
            } else {
                None
            };
            match fast {
                Some(r) => r,
                None => match plan_rows(*left, p, rd, h) {
                    Err(e) => Err(e),
                    Ok(l) => match plan_rows(*right, p, rd, h) {
                        Err(e) => Err(e),
                        Ok(r) => joined(l, r, join_type, on, p != Purpose::Change, h),
                    },
                },
            }
        },
        PlanNode::HashJoin { left, right, join_type, on } => match plan_rows(*left, p, rd, h) {
            Err(e) => Err(e),
            Ok(l) => match plan_rows(*right, p, rd, h) {
                Err(e) => Err(e),
                Ok(r) => joined(l, r, join_type, on, p != Purpose::Change, h),
            },
        },
        _ => Err(no_scan(p)),
    }
}

/// The columns and rows of a plan made of scans, filters and joins.
pub fn execute_scan(plan: &PlanNode, p: Purpose, ctx: &ReadContext, host: &Host) -> (r: Result<
    (Schema, Vec<(RID, Vec<Value>)>),
>)
    ensures
        outcome(r) == plan_rows(*plan, p, ctx@, host@),
    decreases *plan,
{
    match plan {
        PlanNode::SeqScan { table_name, alias } => scan(ctx, table_name.as_str(), alias),
        PlanNode::IndexScan { table_name, index_column, lookup_value, index_only } => {
            if *index_only {
                execute_index_only_scan(
                    table_name.as_str(),
                    index_column.as_str(),
                    lookup_value,
                    ctx.bpm,
                    ctx.catalog,
                    ctx.indexes,
                    ctx.txn_ctx,
                    host,
                )
            } else {
                let (schema, rows) = execute_index_scan(
                    table_name.as_str(),
                    index_column.as_str(),
                    lookup_value,
                    ctx.bpm,
                    ctx.catalog,
                    ctx.indexes,
                    ctx.txn_ctx,
                    host,
                )?;
                Ok((schema.described(), rows))
            }
        },
        PlanNode::Filter { predicate, child } => {
            let (schema, rows) = execute_scan(child, p, ctx, host)?;
            proof {
                lemma_view_names(schema);
            }
            let kept = execute_filter(predicate, rows, &schema, host)?;
            Ok((schema, kept))
        },
        PlanNode::NestedLoopJoin { left, right, join_type, on } => {
            if p == Purpose::Query && *join_type == JoinType::Inner {
                if let Some(e) = on {
                    if let Some(r) = try_fast_inner_join(left, right, e, ctx) {
                        return r;
                    }
                }
            }
            let l = execute_scan(left, p, ctx, host)?;
            let r = execute_scan(right, p, ctx, host)?;
            join(l, r, join_type, on, p != Purpose::Change, host)
        },
        PlanNode::HashJoin { left, right, join_type, on } => {
            let l = execute_scan(left, p, ctx, host)?;
            let r = execute_scan(right, p, ctx, host)?;
            join(l, r, join_type, on, p != Purpose::Change, host)
        },
        _ => match p {
            Purpose::Statement => execution("unexpected plan node in scan context"),
            Purpose::Query => execution("unexpected plan node in read scan context"),
            Purpose::Change => execution("unexpected plan node in DML scan context"),
        },
    }
}

// ---------------------------------------------------------------------------
// Counts and aggregates of whole tables
// ---------------------------------------------------------------------------

/// The table of a plan that is a plain scan.
pub open spec fn plain_table(plan: PlanNode) -> Option<Seq<char>> {
    match plan {
        PlanNode::SeqScan { table_name, alias } => if table_name@ == "__dual__"@ {
            None
        } else {
            Some(table_name@)
        },
        _ => None,
    }
}

fn find_plain_table<'a>(plan: &'a PlanNode) -> (r: Option<&'a str>)
    ensures
        match r {
            Some(t) => plain_table(*plan) == Some(t@),
            None => plain_table(*plan) is None,
        },
{
    match plan {
        PlanNode::SeqScan { table_name, alias: _ } => if same_text(
            table_name.as_str(),
            "__dual__",
        ) {
            None
        } else {
            Some(table_name.as_str())
        },
        _ => None,
    }
}

/// Whether an expression is COUNT(*).
pub open spec fn count_star(e: Expr) -> bool {
    match e {
        Expr::Function { name, args, distinct } => !distinct && upper_text(name@) == "COUNT"@ && (
        args@.len() == 0 || (args@[0] matches Expr::Literal(LiteralValue::String(s)) && s@
            == "*"@)),
        _ => false,
    }
}

fn is_count_star(expr: &Expr) -> (r: bool)
    ensures
        r == count_star(*expr),
{
    match expr {
        Expr::Function { name, args, distinct } => {
            if *distinct {
                return false;
            }
            let upper = name.as_str().to_uppercase();
            if !same_text(upper.as_str(), "COUNT") {
                return false;
            }
            if args.len() == 0 {
                return true;
            }
            match &args[0] {
                Expr::Literal(LiteralValue::String(s)) => same_text(s.as_str(), "*"),
                _ => false,
            }
        },
        _ => false,
    }
}

/// The name of a COUNT(*) column.
pub open spec fn count_name(e: Expr, alias: Option<Seq<char>>) -> Seq<char> {
    match alias {
        Some(a) => a,
        None => match e {
            Expr::Function { name, args, distinct } => name@ + "(*)"@,
            _ => "COUNT(*)"@,
        },
    }
}

/// The names of the columns from `i` on, behind `acc`, if all of them are COUNT(*).
pub open spec fn count_names(cols: Seq<SelectColumn>, i: int, acc: Seq<Seq<char>>) -> Option<
    Seq<Seq<char>>,
>
    decreases cols.len() - i,
{
    if i < 0 || i >= cols.len() {
        Some(acc)
    } else {
        match cols[i] {
            SelectColumn::Expr { expr, alias } => if count_star(expr) {
                count_names(cols, i + 1, acc.push(count_name(expr, alias.deep_view())))
            } else {
                None
            },
            SelectColumn::AllColumns(_) => None,
        }
    }
}

/// A row of the same value throughout.
pub open spec fn repeated(v: ValueView, n: nat) -> Seq<ValueView> {
    Seq::new(n, |i: int| v)
}

/// The answer to a query that only counts the rows of a table; none for any other.
pub open spec fn count_answer(cols: Seq<SelectColumn>, child: PlanNode, rd: ReadView) -> Option<
    std::result::Result<ResultView, ErrorView>,
> {
    match (plain_table(child), count_names(cols, 0, Seq::empty())) {
        (Some(table), Some(names)) => if cols.len() == 0 {
            None
        } else {
            match table_count(rd.catalog, rd.pages, table, rd.txn) {
                Err(e) => Some(Err(e)),
                Ok(n) => Some(
                    Ok(answer(names, seq![repeated(ValueView::BigInt(n), names.len())])),
                ),
            }
        },
        _ => None,
    }
}

fn find_count_names(columns: &Vec<SelectColumn>) -> (r: Option<Vec<String>>)
    ensures
        r.deep_view() == count_names(columns@, 0, Seq::empty()),
{
    let mut out: Vec<String> = Vec::new();
    assert(out.deep_view() =~= Seq::<Seq<char>>::empty());
    let mut i: usize = 0;
    while i < columns.len()
        invariant
            0 <= i <= columns.len(),
            count_names(columns@, 0, Seq::empty()) == count_names(
                columns@,
                i as int,
                out.deep_view(),
            ),
        decreases columns.len() - i,
    {
        match &columns[i] {
            SelectColumn::Expr { expr, alias } => {
                if !is_count_star(expr) {
                    return None;
                }
                let name = match alias {
                    Some(a) => a.clone(),
                    None => match expr {
                        Expr::Function { name, args: _, distinct: _ } => {
                            let mut s = name.clone();
                            s.append("(*)");
                            s
                        },
                        _ => "COUNT(*)".to_owned(),
                    },
                };
                let ghost had = out.deep_view();
                let ghost nv = name@;
                out.push(name);
                assert(out.deep_view() =~= had.push(nv));
            },
            SelectColumn::AllColumns(_) => {
                return None;
            },
        }
        i += 1;
    }
    Some(out)
}

fn repeat_value(v: i64, n: usize) -> (r: Vec<Value>)
    ensures
        r.deep_view() == repeated(ValueView::BigInt(v), n as nat),
{
    let mut out: Vec<Value> = Vec::new();
    let mut i: usize = 0;
    while i < n
        invariant
            0 <= i <= n,
            out.len() == i,
            forall|k: int| 0 <= k < i ==> (#[trigger] out@[k])@ == ValueView::BigInt(v),
        decreases n - i,
    {
        out.push(Value::BigInt(v));
        i += 1;
    }
    assert(out.deep_view() =~= repeated(ValueView::BigInt(v), n as nat));
    out
}

fn single_row(row: Vec<Value>) -> (r: Vec<Vec<Value>>)
    ensures
        r.deep_view() == seq![row.deep_view()],
{
    let ghost rv = row.deep_view();
    let mut rows: Vec<Vec<Value>> = Vec::new();
    rows.push(row);
    assert(rows.deep_view() =~= seq![rv]);
    rows
}

/// Check if a projection is a simple `SELECT COUNT(*) FROM table` (possibly with several
/// COUNT(*) columns). If so, answer it. Returns `None` if the pattern doesn't match.
fn try_count_star_fast(columns: &Vec<SelectColumn>, child: &PlanNode, ctx: &ReadContext) -> (r: Option<
    Result<ExecuteResult>,
>)
    ensures
        match r {
            None => count_answer(columns@, *child, ctx@) is None,
            Some(x) => count_answer(columns@, *child, ctx@) == Some(outcome(x)),
        },
{
    let table = match find_plain_table(child) {
        Some(t) => t,
        None => {
            return None;
        },
    };
    let names = match find_count_names(columns) {
        Some(n) => n,
        None => {
            return None;
        },
    };
    if columns.len() == 0 {
        return None;
    }
    match count_tuples_fast(table, ctx.catalog, ctx.bpm, ctx.txn_ctx) {
        Err(e) => Some(Err(e)),
        Ok(n) => {
            assert(names.deep_view().len() == names.len());
            let row = repeat_value(n, names.len());
            Some(Ok(ExecuteResult::answer(names, single_row(row))))
        },
    }
}

/// The function and the column of an aggregate over one column.
pub open spec fn simple_aggregate(e: Expr) -> Option<(AggFunc, Seq<char>)> {
    match e {
        Expr::Function { name, args, distinct } => if distinct || args@.len() != 1 {
            None
        } else {
            let f = if upper_text(name@) == "SUM"@ {
                Some(AggFunc::Sum)
            } else if upper_text(name@) == "MIN"@ {
                Some(AggFunc::Min)
            } else if upper_text(name@) == "MAX"@ {
                Some(AggFunc::Max)
            } else if upper_text(name@) == "AVG"@ {
                Some(AggFunc::Avg)
            } else {
                None
            };
            match (f, args@[0]) {
                (Some(f), Expr::ColumnRef { table, column }) => Some((f, column@)),
                _ => None,
            }
        },
        _ => None,
    }
}

/// The name of a column that is an aggregate over one column.
pub open spec fn aggregate_label(e: Expr, alias: Option<Seq<char>>) -> Seq<char> {
    match alias {
        Some(a) => a,
        None => match e {
            Expr::Function { name, args, distinct } => match args@[0] {
                Expr::ColumnRef { table, column } => name@ + "("@ + column_label(
                    table.deep_view(),
                    column@,
                ) + ")"@,
                _ => "?"@,
            },
            _ => "?"@,
        },
    }
}

/// A reference to a column, spelled out.
pub open spec fn column_label(table: Option<Seq<char>>, column: Seq<char>) -> Seq<char> {
    "ColumnRef { table: "@ + match table {
        Some(t) => "Some("@ + quoted_text(t) + ")"@,
        None => "None"@,
    } + ", column: "@ + quoted_text(column) + " }"@
}

fn extract_simple_aggregate<'a>(expr: &'a Expr) -> (r: Option<(AggFunc, &'a str)>)
    ensures
        match r {
            Some(p) => simple_aggregate(*expr) == Some((p.0, p.1@)),
            None => simple_aggregate(*expr) is None,
        },
{
    match expr {
        Expr::Function { name, args, distinct } => {
            if *distinct || args.len() != 1 {
                return None;
            }
            let upper = name.as_str().to_uppercase();
            let f = if same_text(upper.as_str(), "SUM") {
                AggFunc::Sum
            } else if same_text(upper.as_str(), "MIN") {
                AggFunc::Min
            } else if same_text(upper.as_str(), "MAX") {
                AggFunc::Max
            } else if same_text(upper.as_str(), "AVG") {
                AggFunc::Avg
            } else {
                return None;
            };
            match &args[0] {
                Expr::ColumnRef { table: _, column } => Some((f, column.as_str())),
                _ => None,
            }
        },
        _ => None,
    }
}

fn format_agg_name(expr: &Expr, alias: &Option<String>) -> (r: String)
    requires
        simple_aggregate(*expr) is Some,
    ensures
        r@ == aggregate_label(*expr, alias.deep_view()),
{
    if let Some(a) = alias {
        return a.clone();
    }
    match expr {
        Expr::Function { name, args, distinct: _ } => match &args[0] {
            Expr::ColumnRef { table, column } => {
                let mut s = name.clone();
                s.append("(");
                let mut c = "ColumnRef { table: ".to_owned();
                match table {
                    Some(t) => {
                        let mut q = "Some(".to_owned();
                        q.append(quote(t.as_str()).as_str());
                        q.append(")");
                        c.append(q.as_str());
                    },
                    None => c.append("None"),
                }
                c.append(", column: ");
                c.append(quote(column.as_str()).as_str());
                c.append(" }");
                s.append(c.as_str());
                s.append(")");
                s
            },
            _ => "?".to_owned(),
        },
        _ => "?".to_owned(),
    }
}

/// The aggregates of the columns from `i` on over a table, behind `names` and `acc`; none,
/// where a column is no aggregate over one column or has to be read row by row.
pub open spec fn aggregates_from(
    cols: Seq<SelectColumn>,
    i: int,
    table: Seq<char>,
    rd: ReadView,
    acc: Seq<ValueView>,
    h: HostView,
) -> Option<std::result::Result<Seq<ValueView>, ErrorView>>
    decreases cols.len() - i,
{
    if i < 0 || i >= cols.len() {
        Some(Ok(acc))
    } else {
        match cols[i] {
            SelectColumn::Expr { expr, alias } => match simple_aggregate(expr) {
                None => None,
                Some(p) => match column_aggregate(
                    rd.catalog,
                    rd.pages,
                    table,
                    p.1,
                    p.0,
                    rd.txn is Some,
                    h,
                ) {
                    Err(e) => Some(Err(e)),
                    Ok(None) => None,
                    Ok(Some(v)) => aggregates_from(cols, i + 1, table, rd, acc.push(v), h),
                },
            },
            SelectColumn::AllColumns(_) => None,
        }
    }
}

/// Whether all columns are aggregates over one column.
pub open spec fn all_simple(cols: Seq<SelectColumn>) -> bool {
    forall|i: int| 0 <= i < cols.len() ==> simple_column(#[trigger] cols[i])
}

/// Whether a column is an aggregate over one column.
pub open spec fn simple_column(c: SelectColumn) -> bool {
    match c {
        SelectColumn::Expr { expr, alias } => simple_aggregate(expr) is Some,
        SelectColumn::AllColumns(_) => false,
    }
}

/// The names of columns that are aggregates over one column.
pub open spec fn aggregate_labels(cols: Seq<SelectColumn>) -> Seq<Seq<char>> {
    Seq::new(
        cols.len(),
        |i: int|
            match cols[i] {
                SelectColumn::Expr { expr, alias } => aggregate_label(expr, alias.deep_view()),
                SelectColumn::AllColumns(_) => "?"@,
            },
    )
}

/// The answer to a query for aggregates over single columns of a whole table; none for any
/// other.
pub open spec fn aggregate_answer(
    cols: Seq<SelectColumn>,
    child: PlanNode,
    rd: ReadView,
    h: HostView,
) -> Option<std::result::Result<ResultView, ErrorView>> {
    match plain_table(child) {
        None => None,
        Some(table) => if cols.len() == 0 || !all_simple(cols) {
            None
        } else {
            match aggregates_from(cols, 0, table, rd, Seq::empty(), h) {
                None => None,
                Some(Err(e)) => Some(Err(e)),
                Some(Ok(row)) => Some(Ok(answer(aggregate_labels(cols), seq![row]))),
            }
        },
    }
}

fn find_labels(columns: &Vec<SelectColumn>) -> (r: Option<Vec<String>>)
    ensures
        match r {
            Some(v) => all_simple(columns@) && v.deep_view() == aggregate_labels(columns@),
            None => !all_simple(columns@),
        },
{
    let mut out: Vec<String> = Vec::new();
    let mut i: usize = 0;
    while i < columns.len()
        invariant
            0 <= i <= columns.len(),
            out.len() == i,
            forall|k: int| 0 <= k < i ==> simple_column(#[trigger] columns@[k]),
            forall|k: int| 0 <= k < i ==> (#[trigger] out@[k])@ == aggregate_labels(columns@)[k],
        decreases columns.len() - i,
    {
        match &columns[i] {
            SelectColumn::Expr { expr, alias } => {
                if extract_simple_aggregate(expr).is_none() {
                    assert(!simple_column(columns@[i as int]));
                    return None;
                }
                out.push(format_agg_name(expr, alias));
            },
            SelectColumn::AllColumns(_) => {
                assert(!simple_column(columns@[i as int]));
                return None;
            },
        }
        i += 1;
    }
    assert(out.deep_view() =~= aggregate_labels(columns@));
    Some(out)
}

/// Try to execute a fast-path aggregate for `SELECT AGG(col) FROM table`.
/// Handles single or multiple aggregate columns (all must be simple single-column
/// aggregates on the same table with no WHERE or GROUP BY).
///
/// Returns `None` if the pattern doesn't match.
fn try_aggregate_fast(
    columns: &Vec<SelectColumn>,
    child: &PlanNode,
    ctx: &ReadContext,
    host: &Host,
) -> (r: Option<Result<ExecuteResult>>)
    ensures
        match r {
            None => aggregate_answer(columns@, *child, ctx@, host@) is None,
            Some(x) => aggregate_answer(columns@, *child, ctx@, host@) == Some(outcome(x)),
        },
{
    let table = match find_plain_table(child) {
        Some(t) => t,
        None => {
            return None;
        },
    };
    if columns.len() == 0 {
        return None;
    }
    let names = match find_labels(columns) {
        Some(n) => n,
        None => {
            return None;
        },
    };
    let ghost rd = ctx@;
    let ghost all = aggregates_from(columns@, 0, table@, rd, Seq::empty(), host@);
    let mut row: Vec<Value> = Vec::new();
    assert(row.deep_view() =~= Seq::<ValueView>::empty());
    let mut i: usize = 0;
    while i < columns.len()
        invariant
            0 <= i <= columns.len(),
            columns.len() > 0,
            rd == ctx@,
            plain_table(*child) == Some(table@),
            all_simple(columns@),
            all == aggregates_from(columns@, 0, table@, rd, Seq::empty(), host@),
            all == aggregates_from(columns@, i as int, table@, rd, row.deep_view(), host@),
        decreases columns.len() - i,
    {
        assert(simple_column(columns@[i as int]));
        if let SelectColumn::Expr { expr, alias: _ } = &columns[i] {
            if let Some((f, col)) = extract_simple_aggregate(expr) {
                match aggregate_column_fast(
                    table,
                    ctx.catalog,
                    ctx.bpm,
                    col,
                    f,
                    ctx.txn_ctx,
                    host,
                ) {
                    Err(e) => {
                        return Some(Err(e));
                    },
                    Ok(None) => {
                        return None;
                    },
                    Ok(Some(v)) => {
                        let ghost had = row.deep_view();
                        let ghost vv = v@;
                        row.push(v);
                        assert(row.deep_view() =~= had.push(vv));
                    },
                }
            }
        }
        i += 1;
    }
    Some(Ok(ExecuteResult::answer(names, single_row(row))))
}

// ---------------------------------------------------------------------------
// Steps of queries
// ---------------------------------------------------------------------------

/// What a statement gives back.
pub type Answer = std::result::Result<ResultView, ErrorView>;

/// Columns and rows as an answer.
pub open spec fn answered(
    r: std::result::Result<(Seq<Seq<char>>, Seq<Seq<ValueView>>), ErrorView>,
) -> Answer {
    match r {
        Err(e) => Err(e),
        Ok(p) => Ok(answer(p.0, p.1)),
    }
}

/// The output columns of rows: aggregates over all, or row by row.
pub open spec fn output(
    cols: Seq<SelectColumn>,
    rows: Seq<RowView>,
    names: Seq<Seq<char>>,
    h: HostView,
) -> Answer {
    answered(
        if aggregated(cols) {
            aggregate_result(cols, rows, names, h)
        } else {
            projection(cols, rows, names, h)
        },
    )
}

fn make_output(
    columns: &Vec<SelectColumn>,
    rows: &Vec<(RID, Vec<Value>)>,
    schema: &Schema,
    host: &Host,
) -> (r: Result<ExecuteResult>)
    ensures
        outcome(r) == output(columns@, rows.deep_view(), schema.names(), host@),
{
    let (names, out) = if has_aggregates(columns.as_slice()) {
        execute_aggregate(columns.as_slice(), rows.as_slice(), schema, host)?
    } else {
        execute_projection(columns.as_slice(), rows.as_slice(), schema, host)?
    };
    Ok(ExecuteResult::answer(names, out))
}

/// The output columns of rows put in order first; the order may go by columns that are not
/// put out.
pub open spec fn sorted_output(
    order_by: Seq<OrderByItem>,
    cols: Seq<SelectColumn>,
    r: Rows,
    h: HostView,
) -> Answer {
    match r {
        Err(e) => Err(e),
        Ok(x) => match sorted_rows(order_by, values_of(x.1), view_names(x.0), h) {
            Err(e) => Err(e),
            Ok(sorted) => output(cols, placeless(sorted), view_names(x.0), h),
        },
    }
}

fn unplaced(rows: Vec<Vec<Value>>) -> (r: Vec<(RID, Vec<Value>)>)
    ensures
        r.deep_view() == placeless(rows.deep_view()),
{
    let ghost all = placeless(rows.deep_view());
    let mut left = rows;
    let mut out: Vec<(RID, Vec<Value>)> = Vec::new();
    let mut i: usize = 0;
    while i < left.len()
        invariant
            0 <= i <= left.len(),
            left.len() == all.len(),
            out.len() == i,
            forall|k: int| 0 <= k < i ==> (#[trigger] out@[k]).deep_view() == all[k],
            forall|k: int| i <= k < left.len() ==> (#[trigger] left@[k]).deep_view() == all[k].1,
            forall|k: int| 0 <= k < all.len() ==> (#[trigger] all[k]).0 == no_rid(),
        decreases left.len() - i,
    {
        let mut row: Vec<Value> = Vec::new();
        core::mem::swap(&mut row, &mut left[i]);
        assert(all[i as int].0 == no_rid());
        out.push((dummy_rid(), row));
        i += 1;
    }
    assert(out.deep_view() =~= all);
    out
}

fn sort_output(
    order_by: &Vec<OrderByItem>,
    columns: &Vec<SelectColumn>,
    schema: Schema,
    rows: Vec<(RID, Vec<Value>)>,
    host: &Host,
) -> (r: Result<ExecuteResult>)
    ensures
        outcome(r) == sorted_output(
            order_by@,
            columns@,
            Ok((schema.deep_view(), rows.deep_view())),
            host@,
        ),
{
    proof {
        lemma_view_names(schema);
    }
    let mut values = take_values(rows);
    execute_sort(order_by.as_slice(), &mut values, &schema, host)?;
    let rows = unplaced(values);
    make_output(columns, &rows, &schema, host)
}

/// An answer with its rows put in order by its own columns.
pub open spec fn sorted_answer(order_by: Seq<OrderByItem>, a: ResultView, h: HostView) -> Answer {
    match sorted_rows(order_by, a.rows, a.columns, h) {
        Err(e) => Err(e),
        Ok(rows) => Ok(ResultView { rows, ..a }),
    }
}

fn sort_answer(order_by: &Vec<OrderByItem>, a: ExecuteResult, host: &Host) -> (r: Result<
    ExecuteResult,
>)
    ensures
        outcome(r) == sorted_answer(order_by@, a.deep_view(), host@),
{
    let mut a = a;
    let schema = columns_to_schema(&a.columns);
    execute_sort(order_by.as_slice(), &mut a.rows, &schema, host)?;
    Ok(a)
}

/// At most `count` rows of an answer behind the first `offset`.
pub open spec fn limited_answer(a: ResultView, count: int, offset: int) -> ResultView {
    ResultView { rows: limited(skipped(a.rows, offset), count), ..a }
}

fn limit_answer(a: ExecuteResult, count: usize, offset: usize) -> (r: ExecuteResult)
    ensures
        r.deep_view() == limited_answer(a.deep_view(), count as int, offset as int),
{
    let mut a = a;
    let mut rows: Vec<Vec<Value>> = Vec::new();
    core::mem::swap(&mut rows, &mut a.rows);
    a.rows = execute_limit(count, skip_rows(offset, rows));
    a
}

/// The rows from `i` on whose keys are not among those seen, each once, behind `acc`.
pub open spec fn distinct_from(
    rows: Seq<Seq<ValueView>>,
    i: int,
    seen: Seq<Seq<u8>>,
    acc: Seq<Seq<ValueView>>,
) -> Seq<Seq<ValueView>>
    decreases rows.len() - i,
{
    if i < 0 || i >= rows.len() {
        acc
    } else if seen.contains(row_key(rows[i])) {
        distinct_from(rows, i + 1, seen, acc)
    } else {
        distinct_from(rows, i + 1, seen.push(row_key(rows[i])), acc.push(rows[i]))
    }
}

/// An answer with each row once.
pub open spec fn distinct_answer(a: ResultView) -> ResultView {
    ResultView { rows: distinct_from(a.rows, 0, Seq::empty(), Seq::empty()), ..a }
}

/// An answer with each row once.
pub fn keep_distinct(a: ExecuteResult) -> (r: ExecuteResult)
    ensures
        r.deep_view() == distinct_answer(a.deep_view()),
{
    let mut a = a;
    let ghost all = a.rows.deep_view();
    let mut left: Vec<Vec<Value>> = Vec::new();
    core::mem::swap(&mut left, &mut a.rows);
    let mut seen: Vec<Vec<u8>> = Vec::new();
    let mut out: Vec<Vec<Value>> = Vec::new();
    assert(seen.deep_view() =~= Seq::<Seq<u8>>::empty());
    assert(out.deep_view() =~= Seq::<Seq<ValueView>>::empty());
    let mut i: usize = 0;
    while i < left.len()
        invariant
            0 <= i <= left.len(),
            left.len() == all.len(),
            forall|k: int| i <= k < left.len() ==> (#[trigger] left@[k]).deep_view() == all[k],
            distinct_from(all, 0, Seq::empty(), Seq::empty()) == distinct_from(
                all,
                i as int,
                seen.deep_view(),
                out.deep_view(),
            ),
        decreases left.len() - i,
    {
        let mut row: Vec<Value> = Vec::new();
        core::mem::swap(&mut row, &mut left[i]);
        let key = serialize_row_key(row.as_slice());
        if find_key(&seen, &key).is_none() {
            let ghost had = seen.deep_view();
            let ghost kv = key@;
            proof {
                lemma_bytes_deep(key);
            }
            seen.push(key);
            assert(seen.deep_view() =~= had.push(kv));
            let ghost rows = out.deep_view();
            let ghost rv = row.deep_view();
            out.push(row);
            assert(out.deep_view() =~= rows.push(rv));
        }
        i += 1;
    }
    a.rows = out;
    a
}

/// The rows of a scan as an answer.
pub open spec fn plain_answer(r: Rows) -> Answer {
    match r {
        Err(e) => Err(e),
        Ok(x) => Ok(answer(bare_names(view_names(x.0)), values_of(x.1))),
    }
}

fn give_rows(schema: Schema, rows: Vec<(RID, Vec<Value>)>) -> (r: ExecuteResult)
    ensures
        r.deep_view() == answer(
            bare_names(view_names(schema.deep_view())),
            values_of(rows.deep_view()),
        ),
{
    proof {
        lemma_view_names(schema);
    }
    ExecuteResult::answer(strip_names(&schema), take_values(rows))
}

/// The groups of a scan as an answer.
pub open spec fn grouped_answer(
    group_exprs: Seq<Expr>,
    having: Option<Expr>,
    cols: Seq<SelectColumn>,
    r: Rows,
    h: HostView,
) -> Answer {
    match r {
        Err(e) => Err(e),
        Ok(x) => answered(grouped(group_exprs, having, cols, x.1, view_names(x.0), h)),
    }
}

fn group_answer(
    group_exprs: &Vec<Expr>,
    having: &Option<Expr>,
    cols: &Vec<SelectColumn>,
    schema: Schema,
    rows: Vec<(RID, Vec<Value>)>,
    host: &Host,
) -> (r: Result<ExecuteResult>)
    ensures
        outcome(r) == grouped_answer(
            group_exprs@,
            *having,
            cols@,
            Ok((schema.deep_view(), rows.deep_view())),
            host@,
        ),
{
    proof {
        lemma_view_names(schema);
    }
    let (names, out) = execute_grouping(
        group_exprs.as_slice(),
        having,
        cols.as_slice(),
        rows.as_slice(),
        &schema,
        host,
    )?;
    Ok(ExecuteResult::answer(names, out))
}

// ---------------------------------------------------------------------------
// Limited scans
// ---------------------------------------------------------------------------

/// The parts of the tuples from `i` on that a transaction sees, or, outside of one, that are
/// not deleted, behind `acc`.
pub open spec fn seen_from(
    raws: Seq<RawView>,
    i: int,
    mvcc: bool,
    txn: Option<TxnView>,
    acc: Seq<RawView>,
) -> Seq<RawView>
    decreases raws.len() - i,
{
    if i < 0 || i >= raws.len() {
        acc
    } else {
        let raw = raws[i].1;
        seen_from(
            raws,
            i + 1,
            mvcc,
            txn,
            if mvcc && raw.len() >= MVCC_HEADER_SIZE {
                match live(raw, mvcc, txn) {
                    Some(d) => acc.push((raws[i].0, d)),
                    None => acc,
                }
            } else {
                acc.push((raws[i].0, raw))
            },
        )
    }
}

fn see_tuples(raws: &Vec<(RID, Vec<u8>)>, mvcc: bool, txn: Option<&TxnContext>) -> (r: Vec<
    (RID, Vec<u8>),
>)
    ensures
        r.deep_view() == seen_from(raws.deep_view(), 0, mvcc, txn.deep_view(), Seq::empty()),
{
    let ghost rv = raws.deep_view();
    let ghost tv = txn.deep_view();
    let mut out: Vec<(RID, Vec<u8>)> = Vec::new();
    assert(out.deep_view() =~= Seq::<RawView>::empty());
    let mut i: usize = 0;
    while i < raws.len()
        invariant
            0 <= i <= raws.len(),
            rv == raws.deep_view(),
            tv == txn.deep_view(),
            seen_from(rv, 0, mvcc, tv, Seq::empty()) == seen_from(
                rv,
                i as int,
                mvcc,
                tv,
                out.deep_view(),
            ),
        decreases raws.len() - i,
    {
        assert(rv[i as int].0 == raws@[i as int].0);
        assert(rv[i as int].1 =~= raws@[i as int].1@);
        let rid = raws[i].0;
        let raw = raws[i].1.as_slice();
        let ghost had = out.deep_view();
        if mvcc && raw.len() >= MVCC_HEADER_SIZE {
            if let Some(d) = live_part(raw, mvcc, txn) {
                let c = copy_bytes(d);
                out.push((rid, c));
                assert(out.deep_view() =~= had.push((rid, d@)));
            }
        } else {
            let c = copy_bytes(raw);
            out.push((rid, c));
            assert(out.deep_view() =~= had.push((rid, raw@)));
        }
        i += 1;
    }
    out
}

/// The rows of the parts from `i` on that satisfy a predicate, behind `acc`. Reading stops
/// where the limit is reached.
pub open spec fn first_matches(
    parts: Seq<RawView>,
    i: int,
    types: Seq<DataType>,
    p: Expr,
    names: Seq<Seq<char>>,
    limit: int,
    acc: Seq<RowView>,
    h: HostView,
) -> std::result::Result<Seq<RowView>, ErrorView>
    decreases parts.len() - i,
{
    if i < 0 || i >= parts.len() || acc.len() >= limit {
        Ok(acc)
    } else {
        match tuple_read(parts[i].1, types) {
            Err(e) => Err(e),
            Ok(row) => match eval_bool(p, row, names, h) {
                Err(e) => Err(e),
                Ok(false) => first_matches(parts, i + 1, types, p, names, limit, acc, h),
                Ok(true) => first_matches(
                    parts,
                    i + 1,
                    types,
                    p,
                    names,
                    limit,
                    acc.push((parts[i].0, row)),
                    h,
                ),
            },
        }
    }
}

fn find_first_matches(
    parts: &Vec<(RID, Vec<u8>)>,
    raw_schema: &Schema,
    predicate: &Expr,
    schema: &Schema,
    limit: usize,
    host: &Host,
) -> (r: Result<Vec<(RID, Vec<Value>)>>)
    ensures
        outcome(r) == first_matches(
            parts.deep_view(),
            0,
            types_of(*raw_schema),
            *predicate,
            schema.names(),
            limit as int,
            Seq::empty(),
            host@,
        ),
{
    let ghost pv = parts.deep_view();
    let ghost types = types_of(*raw_schema);
    let ghost names = schema.names();
    let ghost all = first_matches(
        pv,
        0,
        types,
        *predicate,
        names,
        limit as int,
        Seq::empty(),
        host@,
    );
    let mut rows: Vec<(RID, Vec<Value>)> = Vec::new();
    assert(rows.deep_view() =~= Seq::<RowView>::empty());
    let mut i: usize = 0;
    while i < parts.len()
        invariant
            0 <= i <= parts.len(),
            pv == parts.deep_view(),
            types == types_of(*raw_schema),
            names == schema.names(),
            all == first_matches(
                pv,
                0,
                types,
                *predicate,
                names,
                limit as int,
                Seq::empty(),
                host@,
            ),
            all == first_matches(
                pv,
                i as int,
                types,
                *predicate,
                names,
                limit as int,
                rows.deep_view(),
                host@,
            ),
        decreases parts.len() - i,
    {
        assert(rows.deep_view().len() == rows.len());
        if rows.len() >= limit {
            return Ok(rows);
        }
        assert(pv[i as int].0 == parts@[i as int].0);
        assert(pv[i as int].1 =~= parts@[i as int].1@);
        let row = deserialize(parts[i].1.as_slice(), raw_schema)?;
        if eval_to_bool(predicate, row.as_slice(), schema, host)? {
            let ghost had = rows.deep_view();
            let ghost rv = row.deep_view();
            rows.push((parts[i].0, row));
            assert(rows.deep_view() =~= had.push((parts@[i as int].0, rv)));
        }
        i += 1;
    }
    Ok(rows)
}

/// The stored parts of a table's rows, in the order of its clustered index where it has one.
pub open spec fn table_seen(rd: ReadView, info: TableInfo, table: Seq<char>) -> std::result::Result<
    Seq<RawView>,
    ErrorView,
> {
    match table_tuples(rd.pages, info.first_page_id.0) {
        Err(e) => Err(e),
        Ok(raws) => {
            let parts = seen_from(raws, 0, info.mvcc_enabled, rd.txn, Seq::empty());
            match named_from(rd.clustered, lower_text(table), 0) {
                Some(k) => Ok(
                    in_key_order(
                        parts,
                        0,
                        types_of(info.schema),
                        rd.clustered[k].1.key_column_index as int,
                        Seq::empty(),
                        Seq::empty(),
                    ),
                ),
                None => Ok(parts),
            }
        },
    }
}

fn see_table(ctx: &ReadContext, info: &TableInfo, table: &str) -> (r: Result<Vec<(RID, Vec<u8>)>>)
    ensures
        outcome(r) == table_seen(ctx@, *info, table@),
{
    let raws = ctx.bpm.table_iterator(info.first_page_id)?;
    let parts = see_tuples(&raws, info.mvcc_enabled, ctx.txn_ctx);
    let low = table.to_lowercase();
    match find_named(ctx.clustered_indexes, low.as_str()) {
        Some(k) => {
            assert(ctx@.clustered[k as int].1 == ctx.clustered_indexes@[k as int].1.deep_view());
            Ok(ctx.clustered_indexes[k].1.order(parts, &info.schema))
        },
        None => Ok(parts),
    }
}

/// The first rows of a scan that satisfy a predicate.
pub open spec fn filter_limited(
    child: PlanNode,
    p: Expr,
    limit: usize,
    rd: ReadView,
    h: HostView,
) -> Rows {
    match child {
        PlanNode::SeqScan { table_name, alias } => match table_of(rd.catalog, table_name@) {
            None => Err(no_table(table_name@)),
            Some(info) => {
                let cols = prefixed(
                    info.schema.deep_view(),
                    alias_or(alias.deep_view(), table_name@),
                );
                match table_seen(rd, info, table_name@) {
                    Err(e) => Err(e),
                    Ok(parts) => match first_matches(
                        parts,
                        0,
                        types_of(info.schema),
                        p,
                        view_names(cols),
                        limit as int,
                        Seq::empty(),
                        h,
                    ) {
                        Err(e) => Err(e),
                        Ok(rows) => Ok((cols, rows)),
                    },
                }
            },
        },
        _ => match plan_rows(child, Purpose::Query, rd, h) {
            Err(e) => Err(e),
            Ok(x) => match filtered(p, x.1, view_names(x.0), h) {
                Err(e) => Err(e),
                Ok(rows) => Ok((x.0, first_rows(rows, limit as int))),
            },
        },
    }
}

/// Scan with filter and early termination after `limit` matching rows.
fn execute_read_scan_with_filter_limit(
    child: &PlanNode,
    predicate: &Expr,
    limit: usize,
    ctx: &ReadContext,
    host: &Host,
) -> (r: Result<(Schema, Vec<(RID, Vec<Value>)>)>)
    ensures
        outcome(r) == filter_limited(*child, *predicate, limit, ctx@, host@),
{
    match child {
        PlanNode::SeqScan { table_name, alias } => {
            let info = find_table(ctx.catalog, table_name.as_str())?;
            let prefix: &str = match alias {
                Some(a) => a.as_str(),
                None => table_name.as_str(),
            };
            let schema = info.schema.prefixed(prefix);
            proof {
                lemma_view_names(schema);
            }
            let parts = see_table(ctx, info, table_name.as_str())?;
            let rows = find_first_matches(&parts, &info.schema, predicate, &schema, limit, host)?;
            Ok((schema, rows))
        },
        _ => {
            let (schema, rows) = execute_scan(child, Purpose::Query, ctx, host)?;
            proof {
                lemma_view_names(schema);
            }
            let mut kept = execute_filter(predicate, rows, &schema, host)?;
            let ghost all = kept.deep_view();
            kept.truncate(limit);
            assert(kept.deep_view() =~= first_rows(all, limit as int));
            Ok((schema, kept))
        },
    }
}

/// The first rows of a scan or of a filter; none for any other plan.
pub open spec fn limited_rows(plan: PlanNode, limit: usize, rd: ReadView, h: HostView) -> Option<Rows> {
    match plan {
        PlanNode::SeqScan { table_name, alias } => Some(
            table_scan(rd, table_name@, alias.deep_view(), Some(limit)),
        ),
        PlanNode::Filter { predicate, child } => Some(
            filter_limited(*child, predicate, limit, rd, h),
        ),
        _ => None,
    }
}

fn read_limited_rows(plan: &PlanNode, limit: usize, ctx: &ReadContext, host: &Host) -> (r: Option<
    Result<(Schema, Vec<(RID, Vec<Value>)>)>,
>)
    ensures
        match r {
            None => limited_rows(*plan, limit, ctx@, host@) is None,
            Some(x) => limited_rows(*plan, limit, ctx@, host@) == Some(outcome(x)),
        },
{
    match plan {
        PlanNode::SeqScan { table_name, alias } => Some(
            scan_table(ctx, table_name.as_str(), alias, Some(limit)),
        ),
        PlanNode::Filter { predicate, child } => Some(
            execute_read_scan_with_filter_limit(child, predicate, limit, ctx, host),
        ),
        _ => None,
    }
}

// ---------------------------------------------------------------------------
// Queries
// ---------------------------------------------------------------------------

/// Whether a limit can be passed on to a plan: nothing in it changes the order of the rows.
pub open spec fn takes_limit(plan: PlanNode) -> bool {
    plan is SeqScan || plan is Filter || plan is Projection
}

/// Whether each output row is made of one row.
pub open spec fn row_by_row(cols: Seq<SelectColumn>) -> bool {
    !aggregated(cols) && !has_window(cols)
}

/// The inner join of two plain tables by integer columns; none, where a plan is not one, or
/// where a transaction does not see all rows.
pub open spec fn table_join(plan: PlanNode, rd: ReadView) -> Option<ResultView> {
    match plan {
        PlanNode::NestedLoopJoin { left, right, join_type, on } => match (*left, *right, on) {
            (
                PlanNode::SeqScan { table_name: lt, alias: la },
                PlanNode::SeqScan { table_name: rt, alias: ra },
                Some(e),
            ) => if join_type == JoinType::Inner && rd.txn is None && named_from(
                rd.clustered,
                lower_text(lt@),
                0,
            ) is None && named_from(rd.clustered, lower_text(rt@), 0) is None {
                match arena_answer(rd.catalog, rd.pages, lt@, rt@, e, false) {
                    Some(a) => Some(a),
                    None => match columnar(
                        rd.catalog,
                        rd.pages,
                        lt@,
                        alias_or(la.deep_view(), lt@),
                        rt@,
                        alias_or(ra.deep_view(), rt@),
                        e,
                    ) {
                        Some(c) => Some(
                            answer(bare_names(c.names), columns_rows(c.columns, c.rows)),
                        ),
                        None => None,
                    },
                }
            } else {
                None
            },
            _ => None,
        },
        _ => None,
    }
}

/// The answer to a query: counts and aggregates of whole tables are found without reading the
/// rows, what can be is executed tuple by tuple, and the rest step by step.
pub open spec fn read_result(plan: PlanNode, rd: ReadView, h: HostView) -> Answer
    decreases plan, 2int,
{
    let fast = match plan {
        PlanNode::Projection { columns, child } => match count_answer(columns@, *child, rd) {
            Some(r) => Some(r),
            None => aggregate_answer(columns@, *child, rd, h),
        },
        _ => None,
    };
    match fast {
        Some(r) => r,
        None => match streamed(plan, rd, h) {
            Some(Err(e)) => Err(e),
            Some(Ok(p)) => drained(p.0, p.1),
            None => stepped(plan, rd, h),
        },
    }
}

/// The answer to a query that is executed step by step.
pub open spec fn stepped(plan: PlanNode, rd: ReadView, h: HostView) -> Answer
    decreases plan, 1int,
{
    match plan {
        PlanNode::Limit { count, offset, child } => {
            let inner = if offset == 0 && takes_limit(*child) {
                read_limited(*child, count, rd, h)
            } else {
                read_result(*child, rd, h)
            };
            match inner {
                Err(e) => Err(e),
                Ok(a) => Ok(limited_answer(a, count as int, offset as int)),
            }
        },
        PlanNode::Sort { order_by, child } => match *child {
            PlanNode::Projection { columns, child: inner } => sorted_output(
                order_by@,
                columns@,
                plan_rows(*inner, Purpose::Query, rd, h),
                h,
            ),
            _ => match read_result(*child, rd, h) {
                Err(e) => Err(e),
                Ok(a) => sorted_answer(order_by@, a, h),
            },
        },
        PlanNode::Projection { columns, child } => match plan_rows(
            *child,
            Purpose::Query,
            rd,
            h,
        ) {
            Err(e) => Err(e),
            Ok(x) => output(columns@, x.1, view_names(x.0), h),
        },
        PlanNode::GroupBy { group_exprs, having, select_columns, child } => grouped_answer(
            group_exprs@,
            having,
            select_columns@,
            plan_rows(*child, Purpose::Query, rd, h),
            h,
        ),
        PlanNode::Distinct { child } => match read_result(*child, rd, h) {
            Err(e) => Err(e),
            Ok(a) => Ok(distinct_answer(a)),
        },
        PlanNode::SeqScan { table_name, alias } => plain_answer(
            plan_rows(plan, Purpose::Query, rd, h),
        ),
        PlanNode::IndexScan { table_name, index_column, lookup_value, index_only } => plain_answer(
            plan_rows(plan, Purpose::Query, rd, h),
        ),
        PlanNode::Filter { predicate, child } => plain_answer(
            plan_rows(plan, Purpose::Query, rd, h),
        ),
        PlanNode::HashJoin { left, right, join_type, on } => plain_answer(
            plan_rows(plan, Purpose::Query, rd, h),
        ),
        PlanNode::NestedLoopJoin { left, right, join_type, on } => match table_join(plan, rd) {
            Some(a) => Ok(a),
            None => plain_answer(plan_rows(plan, Purpose::Query, rd, h)),
        },
        _ => Err(ErrorView::Execution("write plan in read-only context"@)),
    }
}

/// The answer to a query of which only the first rows are wanted.
pub open spec fn read_limited(plan: PlanNode, limit: usize, rd: ReadView, h: HostView) -> Answer
    decreases plan, 3int,
{
    match plan {
        PlanNode::Projection { columns, child } => match limited_rows(*child, limit, rd, h) {
            Some(r) => if row_by_row(columns@) {
                match r {
                    Err(e) => Err(e),
                    Ok(x) => answered(projection(columns@, x.1, view_names(x.0), h)),
                }
            } else {
                read_result(plan, rd, h)
            },
            None => read_result(plan, rd, h),
        },
        _ => match limited_rows(plan, limit, rd, h) {
            Some(r) => plain_answer(r),
            None => read_result(plan, rd, h),
        },
    }
}

/// Whether one of the columns is a window function.
fn any_window(columns: &Vec<SelectColumn>) -> (r: bool)
    ensures
        r == has_window(columns@),
{
    let mut i: usize = 0;
    while i < columns.len()
        invariant
            0 <= i <= columns.len(),
            forall|k: int| 0 <= k < i ==> !window_column_at(#[trigger] columns@[k]),
        decreases columns.len() - i,
    {
        if is_window_column(&columns[i]) {
            assert(window_column_at(columns@[i as int]));
            return true;
        }
        i += 1;
    }
    false
}

fn is_window_column(c: &SelectColumn) -> (r: bool)
    ensures
        r == window_column_at(*c),
{
    match c {
        SelectColumn::Expr { expr, alias: _ } => match expr {
            Expr::WindowFunction { name: _, args: _, partition_by: _, order_by: _ } => true,
            _ => false,
        },
        SelectColumn::AllColumns(_) => false,
    }
}

/// An inner join of two plain tables by integer columns.
fn try_table_join(plan: &PlanNode, ctx: &ReadContext) -> (r: Option<ExecuteResult>)
    ensures
        r.deep_view() == table_join(*plan, ctx@),
{
    match plan {
        PlanNode::NestedLoopJoin { left, right, join_type, on } => match (&**left, &**right, on) {
            (
                PlanNode::SeqScan { table_name: lt, alias: la },
                PlanNode::SeqScan { table_name: rt, alias: ra },
                Some(e),
            ) => {
                if *join_type != JoinType::Inner || ctx.txn_ctx.is_some() || find_named(
                    ctx.clustered_indexes,
                    lt.as_str().to_lowercase().as_str(),
                ).is_some() || find_named(
                    ctx.clustered_indexes,
                    rt.as_str().to_lowercase().as_str(),
                ).is_some() {
                    return None;
                }
                let la: Option<&str> = match la {
                    Some(a) => Some(a.as_str()),
                    None => None,
                };
                let ra: Option<&str> = match ra {
                    Some(a) => Some(a.as_str()),
                    None => None,
                };
                if let Some(a) = try_arena_join_result(
                    lt.as_str(),
                    la,
                    rt.as_str(),
                    ra,
                    e,
                    ctx.catalog,
                    ctx.bpm,
                ) {
                    return Some(a);
                }
                match try_columnar_inner_join(
                    lt.as_str(),
                    la,
                    rt.as_str(),
                    ra,
                    e,
                    ctx.catalog,
                    ctx.bpm,
                    ctx.txn_ctx,
                ) {
                    Some(c) => Some(columnar_to_execute_result(c)),
                    None => None,
                }
            },
            _ => None,
        },
        _ => None,
    }
}

/// Execute a read-only plan.
pub fn execute_read(plan: &PlanNode, ctx: &ReadContext, host: &Host) -> (r: Result<ExecuteResult>)
    ensures
        outcome(r) == read_result(*plan, ctx@, host@),
    decreases *plan, 2int,
{
    if let PlanNode::Projection { columns, child } = plan {
        if let Some(r) = try_count_star_fast(columns, child, ctx) {
            return r;
        }
        if let Some(r) = try_aggregate_fast(columns, child, ctx, host) {
            return r;
        }
    }
    match try_build_iterator(plan, ctx, host) {
        Some(Err(e)) => Err(e),
        Some(Ok(it)) => {
            let mut it = it;
            drain_iterator(&mut it, host)
        },
        None => execute_read_steps(plan, ctx, host),
    }
}

fn execute_read_steps(plan: &PlanNode, ctx: &ReadContext, host: &Host) -> (r: Result<ExecuteResult>)
    ensures
        outcome(r) == stepped(*plan, ctx@, host@),
    decreases *plan, 1int,
{
    match plan {
        PlanNode::Limit { count, offset, child } => {
            let safe = match &**child {
                PlanNode::SeqScan { table_name: _, alias: _ } => true,
                PlanNode::Filter { predicate: _, child: _ } => true,
                PlanNode::Projection { columns: _, child: _ } => true,
                _ => false,
            };
            let a = if *offset == 0 && safe {
                execute_read_with_limit(child, *count, ctx, host)?
            } else {
                execute_read(child, ctx, host)?
            };
            Ok(limit_answer(a, *count, *offset))
        },
        PlanNode::Sort { order_by, child } => match &**child {
            PlanNode::Projection { columns, child: inner } => {
                let (schema, rows) = execute_scan(inner, Purpose::Query, ctx, host)?;
                sort_output(order_by, columns, schema, rows, host)
            },
            _ => {
                let a = execute_read(child, ctx, host)?;
                sort_answer(order_by, a, host)
            },
        },
        PlanNode::Projection { columns, child } => {
            let (schema, rows) = execute_scan(child, Purpose::Query, ctx, host)?;
            proof {
                lemma_view_names(schema);
            }
            make_output(columns, &rows, &schema, host)
        },
        PlanNode::GroupBy { group_exprs, having, select_columns, child } => {
            let (schema, rows) = execute_scan(child, Purpose::Query, ctx, host)?;
            group_answer(group_exprs, having, select_columns, schema, rows, host)
        },
        PlanNode::Distinct { child } => {
            let a = execute_read(child, ctx, host)?;
            Ok(keep_distinct(a))
        },
        PlanNode::SeqScan { table_name: _, alias: _ } => {
            let (schema, rows) = execute_scan(plan, Purpose::Query, ctx, host)?;
            Ok(give_rows(schema, rows))
        },
        PlanNode::IndexScan { table_name: _, index_column: _, lookup_value: _, index_only: _ } => {
            let (schema, rows) = execute_scan(plan, Purpose::Query, ctx, host)?;
            Ok(give_rows(schema, rows))
        },
        PlanNode::Filter { predicate: _, child: _ } => {
            let (schema, rows) = execute_scan(plan, Purpose::Query, ctx, host)?;
            Ok(give_rows(schema, rows))
        },
        PlanNode::HashJoin { left: _, right: _, join_type: _, on: _ } => {
            let (schema, rows) = execute_scan(plan, Purpose::Query, ctx, host)?;
            Ok(give_rows(schema, rows))
        },
        PlanNode::NestedLoopJoin { left: _, right: _, join_type: _, on: _ } => {
            if let Some(a) = try_table_join(plan, ctx) {
                return Ok(a);
            }
            let (schema, rows) = execute_scan(plan, Purpose::Query, ctx, host)?;
            Ok(give_rows(schema, rows))
        },
        _ => execution("write plan in read-only context"),
    }
}

/// Execute a read-only plan with a row limit pushed into scans.
fn execute_read_with_limit(plan: &PlanNode, limit: usize, ctx: &ReadContext, host: &Host) -> (r:
    Result<ExecuteResult>)
    ensures
        outcome(r) == read_limited(*plan, limit, ctx@, host@),
    decreases *plan, 3int,
{
    match plan {
        PlanNode::Projection { columns, child } => {
            if !has_aggregates(columns.as_slice()) && !any_window(columns) {
                if let Some(r) = read_limited_rows(child, limit, ctx, host) {
                    let (schema, rows) = r?;
                    proof {
                        lemma_view_names(schema);
                    }
                    let (names, out) = execute_projection(
                        columns.as_slice(),
                        rows.as_slice(),
                        &schema,
                        host,
                    )?;
                    return Ok(ExecuteResult::answer(names, out));
                }
            }
            execute_read(plan, ctx, host)
        },
        _ => match read_limited_rows(plan, limit, ctx, host) {
            Some(r) => {
                let (schema, rows) = r?;
                Ok(give_rows(schema, rows))
            },
            None => execute_read(plan, ctx, host),
        },
    }
}

// ---------------------------------------------------------------------------
// Statements
// ---------------------------------------------------------------------------

/// An answer that leaves the state as it is.
pub open spec fn unchanged(st: StateView, a: Answer) -> Step<ResultView> {
    Step { state: st, result: a }
}

/// The complaint about a schema change where only rows may change.
pub open spec fn nested_schema_change() -> ErrorView {
    ErrorView::Execution("schema change inside a plan"@)
}

/// What a statement that does not change the schema does and gives back.
pub open spec fn executed(plan: PlanNode, c: Catalog, st: StateView, h: HostView) -> Step<
    ResultView,
>
    decreases plan,
{
    let rd = readable(c, st);
    match plan {
        PlanNode::Insert { table_name, columns, values, on_conflict } => inserted(
            st,
            c,
            table_name@,
            columns.deep_view(),
            values@,
            on_conflict,
            h,
        ),
        PlanNode::Update { table_name, assignments, child } => match plan_rows(
            *child,
            Purpose::Statement,
            rd,
            h,
        ) {
            Err(e) => unchanged(st, Err(e)),
            Ok(x) => updated(st, c, table_name@, assignments@, x.1, h),
        },
        PlanNode::Delete { table_name, child } => match plan_rows(
            *child,
            Purpose::Statement,
            rd,
            h,
        ) {
            Err(e) => unchanged(st, Err(e)),
            Ok(x) => deleted(st, c, table_name@, x.1, h),
        },
        PlanNode::Limit { count, offset, child } => {
            let step = executed(*child, c, st, h);
            Step {
                state: step.state,
                result: match step.result {
                    Err(e) => Err(e),
                    Ok(a) => Ok(limited_answer(a, count as int, offset as int)),
                },
            }
        },
        PlanNode::Sort { order_by, child } => match *child {
            PlanNode::Projection { columns, child: inner } => unchanged(
                st,
                sorted_output(
                    order_by@,
                    columns@,
                    plan_rows(*inner, Purpose::Statement, rd, h),
                    h,
                ),
            ),
            _ => {
                let step = executed(*child, c, st, h);
                Step {
                    state: step.state,
                    result: match step.result {
                        Err(e) => Err(e),
                        Ok(a) => sorted_answer(order_by@, a, h),
                    },
                }
            },
        },
        PlanNode::Projection { columns, child } => unchanged(
            st,
            match plan_rows(*child, Purpose::Statement, rd, h) {
                Err(e) => Err(e),
                Ok(x) => output(columns@, x.1, view_names(x.0), h),
            },
        ),
        PlanNode::GroupBy { group_exprs, having, select_columns, child } => unchanged(
            st,
            grouped_answer(
                group_exprs@,
                having,
                select_columns@,
                plan_rows(*child, Purpose::Statement, rd, h),
                h,
            ),
        ),
        PlanNode::Distinct { child } => {
            let step = executed(*child, c, st, h);
            Step {
                state: step.state,
                result: match step.result {
                    Err(e) => Err(e),
                    Ok(a) => Ok(distinct_answer(a)),
                },
            }
        },
        PlanNode::CreateTable { table_name, columns } => unchanged(
            st,
            Err(nested_schema_change()),
        ),
        PlanNode::DropTable { table_name } => unchanged(st, Err(nested_schema_change())),
        PlanNode::CreateIndex { index_name, table_name, columns, unique, include_columns } => unchanged(
            st,
            Err(nested_schema_change()),
        ),
        _ => unchanged(st, plain_answer(plan_rows(plan, Purpose::Statement, rd, h))),
    }
}

fn execute_plan(plan: &PlanNode, catalog: &Catalog, ctx: &mut DmlContext, host: &Host) -> (r: Result<
    ExecuteResult,
>)
    ensures
        executed(*plan, *catalog, old(ctx)@, host@) == (Step {
            state: final(ctx)@,
            result: outcome(r),
        }),
    decreases *plan,
{
    match plan {
        PlanNode::Insert { table_name, columns, values, on_conflict } => execute_insert(
            table_name.as_str(),
            columns,
            values,
            catalog,
            ctx,
            on_conflict,
            host,
        ),
        PlanNode::Update { table_name, assignments, child } => {
            let (_, rows) = execute_scan(
                child,
                Purpose::Statement,
                &ctx.readable(catalog),
                host,
            )?;
            execute_update(table_name.as_str(), assignments, &rows, catalog, ctx, host)
        },
        PlanNode::Delete { table_name, child } => {
            let (_, rows) = execute_scan(
                child,
                Purpose::Statement,
                &ctx.readable(catalog),
                host,
            )?;
            execute_delete(table_name.as_str(), &rows, catalog, ctx, host)
        },
        PlanNode::Limit { count, offset, child } => {
            let a = execute_plan(child, catalog, ctx, host)?;
            Ok(limit_answer(a, *count, *offset))
        },
        PlanNode::Sort { order_by, child } => match &**child {
            PlanNode::Projection { columns, child: inner } => {
                let (schema, rows) = execute_scan(
                    inner,
                    Purpose::Statement,
                    &ctx.readable(catalog),
                    host,
                )?;
                sort_output(order_by, columns, schema, rows, host)
            },
            _ => {
                let a = execute_plan(child, catalog, ctx, host)?;
                sort_answer(order_by, a, host)
            },
        },
        PlanNode::Projection { columns, child } => {
            let (schema, rows) = execute_scan(
                child,
                Purpose::Statement,
                &ctx.readable(catalog),
                host,
            )?;
            proof {
                lemma_view_names(schema);
            }
            make_output(columns, &rows, &schema, host)
        },
        PlanNode::GroupBy { group_exprs, having, select_columns, child } => {
            let (schema, rows) = execute_scan(
                child,
                Purpose::Statement,
                &ctx.readable(catalog),
                host,
            )?;
            group_answer(group_exprs, having, select_columns, schema, rows, host)
        },
        PlanNode::Distinct { child } => {
            let a = execute_plan(child, catalog, ctx, host)?;
            Ok(keep_distinct(a))
        },
        PlanNode::CreateTable { table_name: _, columns: _ } => execution(
            "schema change inside a plan",
        ),
        PlanNode::DropTable { table_name: _ } => execution("schema change inside a plan"),
        PlanNode::CreateIndex {
            index_name: _,
            table_name: _,
            columns: _,
            unique: _,
            include_columns: _,
        } => execution("schema change inside a plan"),
        _ => {
            let (schema, rows) = execute_scan(
                plan,
                Purpose::Statement,
                &ctx.readable(catalog),
                host,
            )?;
            Ok(give_rows(schema, rows))
        },
    }
}

/// What a change of rows does and gives back.
#[verifier::opaque]
pub open spec fn changed(plan: PlanNode, c: Catalog, st: StateView, h: HostView) -> Step<ResultView> {
    let rd = readable(c, st);
    match plan {
        PlanNode::Insert { table_name, columns, values, on_conflict } => inserted(
            st,
            c,
            table_name@,
            columns.deep_view(),
            values@,
            on_conflict,
            h,
        ),
        PlanNode::Update { table_name, assignments, child } => match plan_rows(
            *child,
            Purpose::Change,
            rd,
            h,
        ) {
            Err(e) => unchanged(st, Err(e)),
            Ok(x) => updated(st, c, table_name@, assignments@, x.1, h),
        },
        PlanNode::Delete { table_name, child } => match plan_rows(*child, Purpose::Change, rd, h) {
            Err(e) => unchanged(st, Err(e)),
            Ok(x) => deleted(st, c, table_name@, x.1, h),
        },
        _ => unchanged(st, Err(ErrorView::Execution("non-DML plan in DML context"@))),
    }
}

/// Execute a DML plan (INSERT/UPDATE/DELETE).
pub fn execute_dml(plan: &PlanNode, catalog: &Catalog, ctx: &mut DmlContext, host: &Host) -> (r: Result<
    ExecuteResult,
>)
    ensures
        changed(*plan, *catalog, old(ctx)@, host@) == (Step {
            state: final(ctx)@,
            result: outcome(r),
        }),
{
    proof {
        reveal(changed);
    }
    match plan {
        PlanNode::Insert { table_name, columns, values, on_conflict } => execute_insert(
            table_name.as_str(),
            columns,
            values,
            catalog,
            ctx,
            on_conflict,
            host,
        ),
        PlanNode::Update { table_name, assignments, child } => {
            let (_, rows) = execute_scan(child, Purpose::Change, &ctx.readable(catalog), host)?;
            execute_update(table_name.as_str(), assignments, &rows, catalog, ctx, host)
        },
        PlanNode::Delete { table_name, child } => {
            let (_, rows) = execute_scan(child, Purpose::Change, &ctx.readable(catalog), host)?;
            execute_delete(table_name.as_str(), &rows, catalog, ctx, host)
        },
        _ => execution("non-DML plan in DML context"),
    }
}

// ---------------------------------------------------------------------------
// Schema changes
// ---------------------------------------------------------------------------

/// The first primary key column from `i` on.
pub open spec fn primary_from(defs: Seq<ColumnDef>, i: int) -> Option<int>
    decreases defs.len() - i,
{
    if i < 0 || i >= defs.len() {
        None
    } else if defs[i].is_primary_key {
        Some(i)
    } else {
        primary_from(defs, i + 1)
    }
}

/// Whether one of the columns holds texts.
pub open spec fn has_text(defs: Seq<ColumnDef>) -> bool {
    exists|i: int| 0 <= i < defs.len() && (#[trigger] defs[i]).data_type is Varchar
}

/// The clustered indexes with one for a new table, if its rows are all of one size
/// and have a primary key.
pub open spec fn clustered_for(
    clustered: Seq<(Seq<char>, ClusteredView)>,
    table: Seq<char>,
    defs: Seq<ColumnDef>,
) -> Seq<(Seq<char>, ClusteredView)> {
    if primary_from(defs, 0) is Some && !has_text(defs) {
        let fresh = ClusteredView { key_column_index: primary_from(defs, 0)->0 as usize };
        match named_from(clustered, lower_text(table), 0) {
            Some(k) => clustered.update(k, (lower_text(table), fresh)),
            None => clustered.push((lower_text(table), fresh)),
        }
    } else {
        clustered
    }
}

/// Whether an index is made for a column of a new table: its values must not occur twice.
pub open spec fn wants_index(def: ColumnDef) -> bool {
    def.is_primary_key || def.is_unique
}

/// The indexes with one for each column from `i` on that wants one.
pub open spec fn key_indexed(
    c: Catalog,
    pages: Seq<PageView>,
    indexes: Seq<(Seq<char>, IndexView)>,
    table: Seq<char>,
    defs: Seq<ColumnDef>,
    i: int,
) -> Seq<(Seq<char>, IndexView)>
    decreases defs.len() - i,
{
    if i < 0 || i >= defs.len() {
        indexes
    } else {
        key_indexed(
            c,
            pages,
            if wants_index(defs[i]) {
                index_created(
                    c,
                    pages,
                    indexes,
                    "key_"@ + table + "_"@ + defs[i].name@,
                    table,
                    seq![defs[i].name@],
                ).indexes
            } else {
                indexes
            },
            table,
            defs,
            i + 1,
        )
    }
}

struct Keys {
    first: Option<usize>,
    text: bool,
    names: Vec<Option<String>>,
}

fn find_keys(defs: &Vec<ColumnDef>) -> (r: Keys)
    ensures
        match r.first {
            Some(k) => primary_from(defs@, 0) == Some(k as int),
            None => primary_from(defs@, 0) is None,
        },
        r.text == has_text(defs@),
        r.names.len() == defs.len(),
        forall|i: int|
            0 <= i < defs.len() ==> match (#[trigger] r.names@[i]) {
                Some(n) => wants_index(defs@[i]) && n@ == defs@[i].name@,
                None => !wants_index(defs@[i]),
            },
{
    let mut first: Option<usize> = None;
    let mut text = false;
    let mut names: Vec<Option<String>> = Vec::new();
    let mut i: usize = 0;
    while i < defs.len()
        invariant
            0 <= i <= defs.len(),
            match first {
                Some(k) => primary_from(defs@, 0) == Some(k as int),
                None => primary_from(defs@, 0) == primary_from(defs@, i as int),
            },
            text == (exists|k: int| 0 <= k < i && (#[trigger] defs@[k]).data_type is Varchar),
            names.len() == i,
            forall|k: int|
                0 <= k < i ==> match (#[trigger] names@[k]) {
                    Some(n) => wants_index(defs@[k]) && n@ == defs@[k].name@,
                    None => !wants_index(defs@[k]),
                },
        decreases defs.len() - i,
    {
        let def = &defs[i];
        if def.is_primary_key && first.is_none() {
            first = Some(i);
        }
        if let DataType::Varchar(_) = def.data_type {
            assert(defs@[i as int].data_type is Varchar);
            text = true;
        }
        names.push(
            if def.is_primary_key || def.is_unique {
                Some(def.name.clone())
            } else {
                None
            },
        );
        i += 1;
    }
    Keys { first, text, names }
}

fn add_clustered(clustered: &mut Vec<(String, ClusteredIndex)>, table: &str, key: usize)
    ensures
        final(clustered).deep_view() == ({
            let fresh = ClusteredView { key_column_index: key };
            match named_from(old(clustered).deep_view(), lower_text(table@), 0) {
                Some(k) => old(clustered).deep_view().update(k, (lower_text(table@), fresh)),
                None => old(clustered).deep_view().push((lower_text(table@), fresh)),
            }
        }),
{
    let ghost start = clustered.deep_view();
    let low = table.to_lowercase();
    let ghost lv = low@;
    let index = ClusteredIndex::create(key);
    let ghost iv = index.deep_view();
    match find_named(clustered, low.as_str()) {
        Some(k) => {
            clustered.set(k, (low, index));
            assert(clustered.deep_view() =~= start.update(k as int, (lv, iv)));
        },
        None => {
            clustered.push((low, index));
            assert(clustered.deep_view() =~= start.push((lv, iv)));
        },
    }
}

fn add_key_indexes(
    names: &Vec<Option<String>>,
    table: &str,
    bpm: &BufferPool,
    catalog: &Catalog,
    indexes: &mut Vec<(String, BTreeIndex)>,
    Ghost(defs): Ghost<Seq<ColumnDef>>,
)
    requires
        names.len() == defs.len(),
        forall|i: int|
            0 <= i < defs.len() ==> match (#[trigger] names@[i]) {
                Some(n) => wants_index(defs[i]) && n@ == defs[i].name@,
                None => !wants_index(defs[i]),
            },
    ensures
        final(indexes).deep_view() == key_indexed(
            *catalog,
            bpm@,
            old(indexes).deep_view(),
            table@,
            defs,
            0,
        ),
{
    let ghost all = key_indexed(*catalog, bpm@, indexes.deep_view(), table@, defs, 0);
    let mut i: usize = 0;
    while i < names.len()
        invariant
            0 <= i <= names.len(),
            names.len() == defs.len(),
            forall|k: int|
                0 <= k < defs.len() ==> match (#[trigger] names@[k]) {
                    Some(n) => wants_index(defs[k]) && n@ == defs[k].name@,
                    None => !wants_index(defs[k]),
                },
            all == key_indexed(*catalog, bpm@, indexes.deep_view(), table@, defs, i as int),
        decreases names.len() - i,
    {
        assert(match names@[i as int] {
            Some(n) => wants_index(defs[i as int]) && n@ == defs[i as int].name@,
            None => !wants_index(defs[i as int]),
        });
        if let Some(n) = &names[i] {
            let mut name = "key_".to_owned();
            name.append(table);
            name.append("_");
            name.append(n.as_str());
            let mut cols: Vec<String> = Vec::new();
            cols.push(n.clone());
            assert(cols.deep_view() =~= seq![n@]);
            let _ = execute_create_index(
                name.as_str(),
                table,
                &cols,
                true,
                bpm,
                catalog,
                indexes,
            );
        }
        i += 1;
    }
}

/// What a CREATE TABLE leaves behind, and what it gives back.
pub open spec fn table_created(
    c0: Catalog,
    st0: StateView,
    c1: Catalog,
    st1: StateView,
    r: Answer,
    table: Seq<char>,
    defs: Seq<ColumnDef>,
    h: HostView,
) -> bool {
    if table.len() == 0 {
        &&& r == Ok::<ResultView, ErrorView>(report("OK (table already exists)"@, 0, 0))
        &&& c1 == c0
        &&& st1 == st0
    } else {
        let pages = if page_set_aside(st0.next_page, defs, h) {
            with_page(st0.pages, st0.next_page)
        } else {
            st0.pages
        };
        let next_page = if page_set_aside(st0.next_page, defs, h) {
            (st0.next_page + 1) as u32
        } else {
            st0.next_page
        };
        match create_error(c0, st0.next_page, table, defs, h) {
            Some(e) => {
                &&& r == Err::<ResultView, ErrorView>(e)
                &&& c1 == c0
                &&& st1 == (StateView { pages, next_page, ..st0 })
            },
            None => {
                &&& r == Ok::<ResultView, ErrorView>(
                    report("Table '"@ + table + "' created."@, 0, 0),
                )
                &&& table_added(c0, c1, table, defs, st0.next_page, h)
                &&& st1 == (StateView {
                    pages,
                    next_page,
                    indexes: key_indexed(c1, pages, st0.indexes, table, defs, 0),
                    clustered: clustered_for(st0.clustered, table, defs),
                    ..st0
                })
            },
        }
    }
}

fn create_table(
    table: String,
    columns: Vec<ColumnDef>,
    ctx: &mut ExecutorContext,
    host: &Host,
) -> (r: Result<ExecuteResult>)
    requires
        old(ctx).catalog.wf(),
    ensures
        final(ctx).catalog.wf(),
        table_created(
            old(ctx).catalog,
            old(ctx).dml@,
            final(ctx).catalog,
            final(ctx).dml@,
            outcome(r),
            table@,
            columns@,
            host@,
        ),
{
    if table.as_str().unicode_len() == 0 {
        return Ok(ExecuteResult::report("OK (table already exists)".to_owned(), 0, 0));
    }
    let keys = find_keys(&columns);
    let ghost defs = columns@;
    let ghost c0 = ctx.catalog;
    let ghost st0 = ctx.dml@;
    let result = execute_create_table(
        table.as_str(),
        columns,
        &mut ctx.dml.bpm,
        &mut ctx.catalog,
        host,
    )?;
    if let Some(k) = keys.first {
        if !keys.text {
            add_clustered(&mut ctx.dml.clustered_indexes, table.as_str(), k);
        }
    }
    add_key_indexes(
        &keys.names,
        table.as_str(),
        &ctx.dml.bpm,
        &ctx.catalog,
        &mut ctx.dml.indexes,
        Ghost(defs),
    );
    Ok(result)
}

/// What a DROP TABLE leaves behind, and what it gives back.
pub open spec fn table_dropped(
    c0: Catalog,
    st0: StateView,
    c1: Catalog,
    st1: StateView,
    r: Answer,
    table: Seq<char>,
) -> bool {
    &&& c1.views == c0.views
    &&& c1.path == c0.path
    &&& c1.next_table_id == c0.next_table_id
    &&& if table.len() == 0 {
        &&& r == Ok::<ResultView, ErrorView>(report("OK (table does not exist)"@, 0, 0))
        &&& c1 == c0
        &&& st1 == st0
    } else {
        match c0.place(table) {
            Some(i) => {
                &&& r == Ok::<ResultView, ErrorView>(
                    report("Table '"@ + table + "' dropped."@, 0, 0),
                )
                &&& c1.tables@ == c0.tables@.remove(i)
                &&& st1 == (StateView {
                    indexes: other_indexes(st0.indexes, 0, table, Seq::empty()),
                    ..st0
                })
            },
            None => {
                &&& r == Err::<ResultView, ErrorView>(
                    ErrorView::Catalog("table '"@ + table + "' not found"@),
                )
                &&& c1 == c0
                &&& st1 == st0
            },
        }
    }
}

fn drop_table(table: &str, ctx: &mut ExecutorContext) -> (r: Result<ExecuteResult>)
    requires
        old(ctx).catalog.wf(),
    ensures
        final(ctx).catalog.wf(),
        table_dropped(
            old(ctx).catalog,
            old(ctx).dml@,
            final(ctx).catalog,
            final(ctx).dml@,
            outcome(r),
            table@,
        ),
{
    if table.unicode_len() == 0 {
        return Ok(ExecuteResult::report("OK (table does not exist)".to_owned(), 0, 0));
    }
    execute_drop_table(table, &mut ctx.catalog, &mut ctx.dml.indexes)
}

/// Whether a plan changes the schema, itself or below LIMIT, ORDER BY and DISTINCT.
pub open spec fn alters(plan: PlanNode) -> bool
    decreases plan,
{
    match plan {
        PlanNode::CreateTable { .. } => true,
        PlanNode::DropTable { .. } => true,
        PlanNode::CreateIndex { .. } => true,
        PlanNode::Limit { count, offset, child } => alters(*child),
        PlanNode::Sort { order_by, child } => alters(*child),
        PlanNode::Distinct { child } => alters(*child),
        _ => false,
    }
}

fn does_alter(plan: &PlanNode) -> (r: bool)
    ensures
        r == alters(*plan),
    decreases *plan,
{
    match plan {
        PlanNode::CreateTable { table_name: _, columns: _ } => true,
        PlanNode::DropTable { table_name: _ } => true,
        PlanNode::CreateIndex {
            index_name: _,
            table_name: _,
            columns: _,
            unique: _,
            include_columns: _,
        } => true,
        PlanNode::Limit { count: _, offset: _, child } => does_alter(child),
        PlanNode::Sort { order_by: _, child } => does_alter(child),
        PlanNode::Distinct { child } => does_alter(child),
        _ => false,
    }
}

/// Holds of every answer: it claims nothing, and only names the answer of the plan below
/// another, so that a witness for it can be found.
pub open spec fn from_below(a: Answer) -> bool {
    true
}

/// What LIMIT, ORDER BY or DISTINCT make of the answer of the plan below.
pub open spec fn passed_up(plan: PlanNode, a: Answer, h: HostView) -> Answer {
    match a {
        Err(e) => Err(e),
        Ok(x) => match plan {
            PlanNode::Limit { count, offset, child } => Ok(
                limited_answer(x, count as int, offset as int),
            ),
            PlanNode::Sort { order_by, child } => sorted_answer(order_by@, x, h),
            PlanNode::Distinct { child } => Ok(distinct_answer(x)),
            _ => Ok(x),
        },
    }
}

/// What a plan leaves behind, and what it gives back.
pub open spec fn plan_executed(
    plan: PlanNode,
    c0: Catalog,
    st0: StateView,
    c1: Catalog,
    st1: StateView,
    r: Answer,
    h: HostView,
) -> bool
    decreases plan,
{
    if alters(plan) {
        match plan {
            PlanNode::CreateTable { table_name, columns } => table_created(
                c0,
                st0,
                c1,
                st1,
                r,
                table_name@,
                columns@,
                h,
            ),
            PlanNode::DropTable { table_name } => table_dropped(c0, st0, c1, st1, r, table_name@),
            PlanNode::CreateIndex { index_name, table_name, columns, unique, include_columns } => {
                &&& c1 == c0
                &&& index_created(
                    c0,
                    st0.pages,
                    st0.indexes,
                    index_name@,
                    table_name@,
                    columns.deep_view(),
                ) == (Indexed { indexes: st1.indexes, result: r })
                &&& st1 == (StateView { indexes: st1.indexes, ..st0 })
            },
            PlanNode::Limit { count, offset, child } => exists|a: Answer| #[trigger]
                from_below(a) && plan_executed(*child, c0, st0, c1, st1, a, h) && r == passed_up(
                    plan,
                    a,
                    h,
                ),
            PlanNode::Sort { order_by, child } => exists|a: Answer| #[trigger]
                from_below(a) && plan_executed(*child, c0, st0, c1, st1, a, h) && r == passed_up(
                    plan,
                    a,
                    h,
                ),
            PlanNode::Distinct { child } => exists|a: Answer| #[trigger]
                from_below(a) && plan_executed(*child, c0, st0, c1, st1, a, h) && r == passed_up(
                    plan,
                    a,
                    h,
                ),
            _ => false,
        }
    } else {
        &&& c1 == c0
        &&& executed(plan, c0, st0, h) == (Step { state: st1, result: r })
    }
}

/// Execute a physical plan and return the result.
///
/// A request for a floating-point result may come after some rows were changed: then the
/// plan is to be executed again on the state from before it.
pub fn execute(plan: PlanNode, ctx: &mut ExecutorContext, host: &Host) -> (r: Result<ExecuteResult>)
    requires
        old(ctx).catalog.wf(),
    ensures
        final(ctx).catalog.wf(),
        plan_executed(
            plan,
            old(ctx).catalog,
            old(ctx).dml@,
            final(ctx).catalog,
            final(ctx).dml@,
            outcome(r),
            host@,
        ),
    decreases plan,
{
    if !does_alter(&plan) {
        return execute_plan(&plan, &ctx.catalog, &mut ctx.dml, host);
    }
    match plan {
        PlanNode::CreateTable { table_name, columns } => create_table(
            table_name,
            columns,
            ctx,
            host,
        ),
        PlanNode::DropTable { table_name } => drop_table(table_name.as_str(), ctx),
        PlanNode::CreateIndex { index_name, table_name, columns, unique, include_columns: _ } => {
            execute_create_index(
                index_name.as_str(),
                table_name.as_str(),
                &columns,
                unique,
                &ctx.dml.bpm,
                &ctx.catalog,
                &mut ctx.dml.indexes,
            )
        },
        PlanNode::Limit { count, offset, child } => {
            let below = execute(*child, ctx, host);
            assert(from_below(outcome(below)));
            match below {
                Ok(a) => Ok(limit_answer(a, count, offset)),
                Err(e) => Err(e),
            }
        },
        PlanNode::Sort { order_by, child } => {
            let below = execute(*child, ctx, host);
            assert(from_below(outcome(below)));
            match below {
                Ok(a) => sort_answer(&order_by, a, host),
                Err(e) => Err(e),
            }
        },
        PlanNode::Distinct { child } => {
            let below = execute(*child, ctx, host);
            assert(from_below(outcome(below)));
            match below {
                Ok(a) => Ok(keep_distinct(a)),
                Err(e) => Err(e),
            }
        },
        _ => execute_plan(&plan, &ctx.catalog, &mut ctx.dml, host),
    }
}

proof fn lemma_distinct_from(
    rows: Seq<Seq<ValueView>>,
    i: int,
    seen: Seq<Seq<u8>>,
    acc: Seq<Seq<ValueView>>,
)
    requires
        0 <= i <= rows.len(),
        seen.len() == acc.len(),
        forall|k: int| 0 <= k < acc.len() ==> #[trigger] seen[k] == row_key(acc[k]),
        forall|k: int, l: int| 0 <= k < l < seen.len() ==> #[trigger] seen[k] != #[trigger] seen[l],
    ensures
        ({
            let out = distinct_from(rows, i, seen, acc);
            &&& out.len() >= acc.len()
            &&& forall|k: int| 0 <= k < acc.len() ==> #[trigger] out[k] == acc[k]
            &&& forall|k: int, l: int|
                0 <= k < l < out.len() ==> row_key(#[trigger] out[k]) != row_key(#[trigger] out[l])
            &&& forall|k: int|
                acc.len() <= k < out.len() ==> rows.contains(#[trigger] out[k])
            &&& forall|k: int|
                i <= k < rows.len() ==> has_row_key(out, row_key(#[trigger] rows[k]))
        }),
    decreases rows.len() - i,
{
    let out = distinct_from(rows, i, seen, acc);
    if i < rows.len() {
        let key = row_key(rows[i]);
        if seen.contains(key) {
            lemma_distinct_from(rows, i + 1, seen, acc);
            let k = choose|k: int| 0 <= k < seen.len() && seen[k] == key;
            assert(out[k] == acc[k]);
            assert(row_key(out[k]) == key);
        } else {
            let seen2 = seen.push(key);
            let acc2 = acc.push(rows[i]);
            assert forall|k: int| 0 <= k < acc2.len() implies #[trigger] seen2[k] == row_key(
                acc2[k],
            ) by {
                if k < acc.len() {
                    assert(seen[k] == row_key(acc[k]));
                }
            }
            assert forall|k: int, l: int| 0 <= k < l < seen2.len() implies #[trigger] seen2[k]
                != #[trigger] seen2[l] by {
                if l == seen.len() {
                    assert(seen[k] != key);
                } else {
                    assert(seen[k] != seen[l]);
                }
            }
            lemma_distinct_from(rows, i + 1, seen2, acc2);
            assert(out[acc.len() as int] == acc2[acc.len() as int]);
            assert(row_key(out[acc.len() as int]) == key);
            assert forall|k: int| 0 <= k < acc.len() implies #[trigger] out[k] == acc[k] by {
                assert(out[k] == acc2[k]);
            }
            assert forall|k: int| acc.len() <= k < out.len() implies rows.contains(
                #[trigger] out[k],
            ) by {
                if k == acc.len() {
                    assert(rows[i] == out[k]);
                }
            }
        }
    } else {
        assert forall|k: int, l: int| 0 <= k < l < out.len() implies row_key(#[trigger] out[k])
            != row_key(#[trigger] out[l]) by {
            assert(seen[k] != seen[l]);
        }
    }
}

/// Whether a row with a key is among rows.
pub open spec fn has_row_key(rows: Seq<Seq<ValueView>>, key: Seq<u8>) -> bool {
    exists|k: int| 0 <= k < rows.len() && row_key(#[trigger] rows[k]) == key
}

/// DISTINCT gives no two rows with the same key, only rows that were there, and for every row
/// one with its key.
pub proof fn law_distinct_rows(a: ResultView)
    ensures
        ({
            let out = distinct_answer(a).rows;
            &&& forall|k: int, l: int|
                0 <= k < l < out.len() ==> row_key(#[trigger] out[k]) != row_key(#[trigger] out[l])
            &&& forall|k: int| 0 <= k < out.len() ==> a.rows.contains(#[trigger] out[k])
            &&& forall|k: int|
                0 <= k < a.rows.len() ==> has_row_key(out, row_key(#[trigger] a.rows[k]))
        }),
{
    lemma_distinct_from(a.rows, 0, Seq::empty(), Seq::empty());
}

/// LIMIT and OFFSET give the rows behind the first ones, in their order, and no more than asked
/// for.
pub proof fn law_limited_rows(a: ResultView, count: int, offset: int)
    requires
        0 <= count,
        0 <= offset,
    ensures
        ({
            let out = limited_answer(a, count, offset).rows;
            &&& out.len() <= count
            &&& out.len() == if offset + count <= a.rows.len() {
                count
            } else if offset <= a.rows.len() {
                a.rows.len() - offset
            } else {
                0
            }
            &&& forall|k: int| 0 <= k < out.len() ==> #[trigger] out[k] == a.rows[offset + k]
        }),
{
}

} // verus!
