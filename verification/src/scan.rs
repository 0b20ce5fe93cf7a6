//! Reading the rows of a table, and what can be told of a table without reading its rows in
//! full.
use crate::aggregate::RowView;
use crate::catalog::{Catalog, TableInfo};
use crate::common::RID;
use crate::error::{outcome, ErrorView, ForgeError, Result};
use crate::float::{self, float_of_int, float_order};
use crate::host::{FloatOp, Host, HostView};
use crate::order::Order;
use crate::schema::{name_from, ColumnView, Schema};
use crate::storage::{
    decode_version_header, is_visible, table_tuples, visible, xmax_of, xmin_of, BufferPool,
    PageView, RawView, MVCC_HEADER_SIZE, XMAX_NONE,
};
use crate::text::{order_text, text_order};
use crate::tuple::{
    deserialize, deserialize_single_column, single_column, tuple_read, types_of,
};
use crate::txn::{TxnContext, TxnView};
use crate::types::{DataType, Value, ValueView};
use vstd::prelude::*;

verus! {

// ---------------------------------------------------------------------------
// Tables
// ---------------------------------------------------------------------------

/// The table with a name.
pub open spec fn table_of(c: Catalog, name: Seq<char>) -> Option<TableInfo> {
    match c.place(name) {
        Some(i) => Some(c.tables@[i].1),
        None => None,
    }
}

/// The error for a table that is not there.
pub open spec fn no_table(name: Seq<char>) -> ErrorView {
    ErrorView::Execution("table '"@ + name + "' not found"@)
}

/// The table with a name.
pub fn find_table<'a>(catalog: &'a Catalog, name: &str) -> (r: std::result::Result<
    &'a TableInfo,
    ForgeError,
>)
    ensures
        match r {
            Ok(t) => table_of(*catalog, name@) == Some(*t),
            Err(e) => table_of(*catalog, name@) is None && e@ == no_table(name@),
        },
{
    match catalog.get_table(name) {
        Some(t) => Ok(t),
        None => {
            let mut s = "table '".to_owned();
            s.append(name);
            s.append("' not found");
            Err(ForgeError::Execution(s))
        },
    }
}

/// The part of a stored tuple that holds its row, if the tuple counts: of a versioned table
/// only those versions do that the transaction sees, or, outside of one, that are not deleted.
pub open spec fn live(raw: Seq<u8>, mvcc: bool, txn: Option<TxnView>) -> Option<Seq<u8>> {
    if !mvcc {
        Some(raw)
    } else if raw.len() < MVCC_HEADER_SIZE {
        None
    } else if match txn {
        Some(t) => visible(xmin_of(raw), xmax_of(raw), t.snapshot),
        None => xmax_of(raw) == XMAX_NONE,
    } {
        Some(raw.skip(MVCC_HEADER_SIZE as int))
    } else {
        None
    }
}

/// The part of a stored tuple that holds its row, if the tuple counts.
pub fn live_part<'a>(raw: &'a [u8], mvcc: bool, txn: Option<&TxnContext>) -> (r: Option<&'a [u8]>)
    ensures
        match r {
            Some(d) => live(raw@, mvcc, txn.deep_view()) == Some(d@),
            None => live(raw@, mvcc, txn.deep_view()) is None,
        },
{
    if !mvcc {
        return Some(raw);
    }
    if raw.len() < MVCC_HEADER_SIZE {
        return None;
    }
    let (xmin, xmax) = decode_version_header(raw);
    let seen = match txn {
        Some(t) => is_visible(xmin, xmax, &t.snapshot),
        None => xmax == XMAX_NONE,
    };
    if seen {
        let d = vstd::slice::slice_subrange(raw, MVCC_HEADER_SIZE, raw.len());
        assert(d@ =~= raw@.skip(MVCC_HEADER_SIZE as int));
        Some(d)
    } else {
        None
    }
}

// ---------------------------------------------------------------------------
// Rows
// ---------------------------------------------------------------------------

/// Whether so many rows have been read as are wanted.
pub open spec fn enough(n: int, limit: Option<usize>) -> bool {
    limit is Some && n >= limit->0
}

/// Whether so many rows have been read as are wanted.
pub fn is_enough(n: usize, limit: Option<usize>) -> (r: bool)
    ensures
        r == enough(n as int, limit),
{
    match limit {
        Some(max) => n >= max,
        None => false,
    }
}

/// The rows of the tuples from `i` on that count, behind `acc`. Reading stops where the limit
/// is reached.
pub open spec fn rows_from(
    raws: Seq<RawView>,
    i: int,
    mvcc: bool,
    txn: Option<TxnView>,
    types: Seq<DataType>,
    limit: Option<usize>,
    acc: Seq<RowView>,
) -> std::result::Result<Seq<RowView>, ErrorView>
    decreases raws.len() - i,
{
    if i < 0 || i >= raws.len() || enough(acc.len() as int, limit) {
        Ok(acc)
    } else {
        match live(raws[i].1, mvcc, txn) {
            None => rows_from(raws, i + 1, mvcc, txn, types, limit, acc),
            Some(d) => match tuple_read(d, types) {
                Err(e) => Err(e),
                Ok(row) => rows_from(
                    raws,
                    i + 1,
                    mvcc,
                    txn,
                    types,
                    limit,
                    acc.push((raws[i].0, row)),
                ),
            },
        }
    }
}

/// The columns and rows of a table.
pub open spec fn table_rows(
    c: Catalog,
    pages: Seq<PageView>,
    name: Seq<char>,
    limit: Option<usize>,
    txn: Option<TxnView>,
) -> std::result::Result<(Seq<ColumnView>, Seq<RowView>), ErrorView> {
    match table_of(c, name) {
        None => Err(no_table(name)),
        Some(t) => match table_tuples(pages, t.first_page_id.0) {
            Err(e) => Err(e),
            Ok(raws) => match rows_from(
                raws,
                0,
                t.mvcc_enabled,
                txn,
                types_of(t.schema),
                limit,
                Seq::empty(),
            ) {
                Err(e) => Err(e),
                Ok(rows) => Ok((t.schema.deep_view(), rows)),
            },
        },
    }
}

/// The rows of the given tuples of a table.
pub fn read_rows(
    raws: &Vec<(RID, Vec<u8>)>,
    info: &TableInfo,
    limit: Option<usize>,
    txn: Option<&TxnContext>,
) -> (r: Result<Vec<(RID, Vec<Value>)>>)
    ensures
        outcome(r) == rows_from(
            raws.deep_view(),
            0,
            info.mvcc_enabled,
            txn.deep_view(),
            types_of(info.schema),
            limit,
            Seq::empty(),
        ),
{
    let ghost rv = raws.deep_view();
    let ghost tv = txn.deep_view();
    let ghost types = types_of(info.schema);
    let mvcc = info.mvcc_enabled;
    let mut rows: Vec<(RID, Vec<Value>)> = Vec::new();
    let mut i: usize = 0;
    assert(rows.deep_view() =~= Seq::<RowView>::empty());
    while i < raws.len()
        invariant
            0 <= i <= raws.len(),
            rv == raws.deep_view(),
            tv == txn.deep_view(),
            types == types_of(info.schema),
            mvcc == info.mvcc_enabled,
            rows_from(rv, 0, mvcc, tv, types, limit, Seq::empty()) == rows_from(
                rv,
                i as int,
                mvcc,
                tv,
                types,
                limit,
                rows.deep_view(),
            ),
        decreases raws.len() - i,
    {
        assert(rows.deep_view().len() == rows.len());
        if is_enough(rows.len(), limit) {
            return Ok(rows);
        }
        let raw = &raws[i];
        assert(rv[i as int].0 == raw.0);
        assert(rv[i as int].1 =~= raw.1@);
        if let Some(d) = live_part(raw.1.as_slice(), mvcc, txn) {
            let row = deserialize(d, &info.schema)?;
            let ghost before = rows.deep_view();
            let ghost row_view = row.deep_view();
            rows.push((raw.0, row));
            assert(rows.deep_view() =~= before.push((raw.0, row_view)));
        }
        i += 1;
    }
    Ok(rows)
}

/// Execute a sequential scan of all tuples in a table.
pub fn execute_seq_scan<'a>(table_name: &str, bpm: &BufferPool, catalog: &'a Catalog) -> (r: Result<
    (&'a Schema, Vec<(RID, Vec<Value>)>),
>)
    ensures
        outcome(r) == table_rows(*catalog, bpm@, table_name@, None, None),
        r is Ok ==> *(r->Ok_0).0 == table_of(*catalog, table_name@)->0.schema,
{
    execute_seq_scan_full(table_name, bpm, catalog, None, None)
}

/// Execute a sequential scan with an optional row limit.
pub fn execute_seq_scan_limit<'a>(
    table_name: &str,
    bpm: &BufferPool,
    catalog: &'a Catalog,
    limit: Option<usize>,
) -> (r: Result<(&'a Schema, Vec<(RID, Vec<Value>)>)>)
    ensures
        outcome(r) == table_rows(*catalog, bpm@, table_name@, limit, None),
        r is Ok ==> *(r->Ok_0).0 == table_of(*catalog, table_name@)->0.schema,
{
    execute_seq_scan_full(table_name, bpm, catalog, limit, None)
}

/// Execute a sequential scan with optional row limit and MVCC visibility filtering.
pub fn execute_seq_scan_full<'a>(
    table_name: &str,
    bpm: &BufferPool,
    catalog: &'a Catalog,
    limit: Option<usize>,
    txn_ctx: Option<&TxnContext>,
) -> (r: Result<(&'a Schema, Vec<(RID, Vec<Value>)>)>)
    ensures
        outcome(r) == table_rows(*catalog, bpm@, table_name@, limit, txn_ctx.deep_view()),
        r is Ok ==> *(r->Ok_0).0 == table_of(*catalog, table_name@)->0.schema,
{
    let info = find_table(catalog, table_name)?;
    let raws = bpm.table_iterator(info.first_page_id)?;
    let rows = read_rows(&raws, info, limit, txn_ctx)?;
    Ok((&info.schema, rows))
}

/// Execute a sequential scan reading page by page.
/// Used for read-only scans.
pub fn execute_seq_scan_direct<'a>(
    table_name: &str,
    catalog: &'a Catalog,
    cbpm: &BufferPool,
    limit: Option<usize>,
    txn_ctx: Option<&TxnContext>,
) -> (r: Result<(&'a Schema, Vec<(RID, Vec<Value>)>)>)
    ensures
        outcome(r) == table_rows(*catalog, cbpm@, table_name@, limit, txn_ctx.deep_view()),
        r is Ok ==> *(r->Ok_0).0 == table_of(*catalog, table_name@)->0.schema,
{
    execute_seq_scan_full(table_name, cbpm, catalog, limit, txn_ctx)
}

// ---------------------------------------------------------------------------
// Counting
// ---------------------------------------------------------------------------

/// How many of the tuples from `i` on count.
pub open spec fn live_from(raws: Seq<RawView>, i: int, mvcc: bool, txn: Option<TxnView>) -> nat
    decreases raws.len() - i,
{
    if i < 0 || i >= raws.len() {
        0
    } else if live(raws[i].1, mvcc, txn) is Some {
        live_from(raws, i + 1, mvcc, txn) + 1
    } else {
        live_from(raws, i + 1, mvcc, txn)
    }
}

/// How many rows a table has.
pub open spec fn table_count(
    c: Catalog,
    pages: Seq<PageView>,
    name: Seq<char>,
    txn: Option<TxnView>,
) -> std::result::Result<i64, ErrorView> {
    match table_of(c, name) {
        None => Err(no_table(name)),
        Some(t) => match table_tuples(pages, t.first_page_id.0) {
            Err(e) => Err(e),
            Ok(raws) => Ok(live_from(raws, 0, t.mvcc_enabled, txn) as i64),
        },
    }
}

/// Fast COUNT(*) that counts live tuples without reading their rows.
pub fn count_tuples_fast(
    table_name: &str,
    catalog: &Catalog,
    cbpm: &BufferPool,
    txn_ctx: Option<&TxnContext>,
) -> (r: Result<i64>)
    ensures
        outcome(r) == table_count(*catalog, cbpm@, table_name@, txn_ctx.deep_view()),
{
    let info = find_table(catalog, table_name)?;
    let raws = cbpm.table_iterator(info.first_page_id)?;
    let ghost rv = raws.deep_view();
    let mut count: usize = 0;
    let mut i: usize = 0;
    while i < raws.len()
        invariant
            0 <= i <= raws.len(),
            rv == raws.deep_view(),
            count <= i,
            table_of(*catalog, table_name@) == Some(*info),
            table_tuples(cbpm@, info.first_page_id.0) == Ok::<Seq<RawView>, ErrorView>(rv),
            live_from(rv, 0, info.mvcc_enabled, txn_ctx.deep_view()) == count + live_from(
                rv,
                i as int,
                info.mvcc_enabled,
                txn_ctx.deep_view(),
            ),
        decreases raws.len() - i,
    {
        assert(rv[i as int].1 =~= raws@[i as int].1@);
        if live_part(raws[i].1.as_slice(), info.mvcc_enabled, txn_ctx).is_some() {
            count += 1;
        }
        i += 1;
    }
    Ok(count as i64)
}

/// The rows that a scan reads are as many as the count says.
pub proof fn law_count_is_number_of_rows(
    raws: Seq<RawView>,
    i: int,
    mvcc: bool,
    txn: Option<TxnView>,
    types: Seq<DataType>,
    acc: Seq<RowView>,
)
    requires
        0 <= i,
        rows_from(raws, i, mvcc, txn, types, None, acc) is Ok,
    ensures
        rows_from(raws, i, mvcc, txn, types, None, acc)->Ok_0.len() == acc.len() + live_from(
            raws,
            i,
            mvcc,
            txn,
        ),
    decreases raws.len() - i,
{
    if i < raws.len() {
        match live(raws[i].1, mvcc, txn) {
            None => law_count_is_number_of_rows(raws, i + 1, mvcc, txn, types, acc),
            Some(d) => {
                let all = acc.push((raws[i].0, tuple_read(d, types)->Ok_0));
                law_count_is_number_of_rows(raws, i + 1, mvcc, txn, types, all);
            },
        }
    }
}

/// The first `n` of some rows, or all of them where there are no more.
pub open spec fn first_rows(rows: Seq<RowView>, n: int) -> Seq<RowView> {
    if n < rows.len() {
        rows.take(n)
    } else {
        rows
    }
}

/// A scan with a limit reads the first rows of a scan without one, and none of them with the
/// limit zero.
pub proof fn law_limited_scan_is_prefix(
    raws: Seq<RawView>,
    i: int,
    mvcc: bool,
    txn: Option<TxnView>,
    types: Seq<DataType>,
    limit: usize,
    acc: Seq<RowView>,
)
    requires
        0 <= i,
        acc.len() <= limit,
        rows_from(raws, i, mvcc, txn, types, None, acc) is Ok,
    ensures
        rows_from(raws, i, mvcc, txn, types, Some(limit), acc) == Ok::<Seq<RowView>, ErrorView>(
            first_rows(rows_from(raws, i, mvcc, txn, types, None, acc)->Ok_0, limit as int),
        ),
    decreases raws.len() - i,
{
    let all = rows_from(raws, i, mvcc, txn, types, None, acc)->Ok_0;
    lemma_scan_extends(raws, i, mvcc, txn, types, acc);
    if acc.len() == limit {
        assert(all.take(limit as int) =~= acc);
        if all.len() <= limit {
            assert(all =~= acc);
        }
    } else if i < raws.len() {
        match live(raws[i].1, mvcc, txn) {
            None => law_limited_scan_is_prefix(raws, i + 1, mvcc, txn, types, limit, acc),
            Some(d) => {
                let more = acc.push((raws[i].0, tuple_read(d, types)->Ok_0));
                law_limited_scan_is_prefix(raws, i + 1, mvcc, txn, types, limit, more);
            },
        }
    }
}

proof fn lemma_scan_extends(
    raws: Seq<RawView>,
    i: int,
    mvcc: bool,
    txn: Option<TxnView>,
    types: Seq<DataType>,
    acc: Seq<RowView>,
)
    requires
        0 <= i,
        rows_from(raws, i, mvcc, txn, types, None, acc) is Ok,
    ensures
        acc.is_prefix_of(rows_from(raws, i, mvcc, txn, types, None, acc)->Ok_0),
    decreases raws.len() - i,
{
    let all = rows_from(raws, i, mvcc, txn, types, None, acc)->Ok_0;
    if i < raws.len() {
        match live(raws[i].1, mvcc, txn) {
            None => lemma_scan_extends(raws, i + 1, mvcc, txn, types, acc),
            Some(d) => {
                let more = acc.push((raws[i].0, tuple_read(d, types)->Ok_0));
                lemma_scan_extends(raws, i + 1, mvcc, txn, types, more);
                assert(acc =~= all.take(acc.len() as int)) by {
                    assert(more =~= all.take(more.len() as int));
                    assert forall|k: int| 0 <= k < acc.len() implies acc[k] == all[k] by {
                        assert(more[k] == acc[k]);
                        assert(all.take(more.len() as int)[k] == all[k]);
                    }
                }
            },
        }
    } else {
        assert(acc =~= all.take(acc.len() as int));
    }
}

// ---------------------------------------------------------------------------
// Aggregates over one column
// ---------------------------------------------------------------------------

/// Aggregate function type for the fast path.
#[derive(Debug, Clone, Copy, PartialEq, Eq, Structural)]
pub enum AggFunc {
    Sum,
    Min,
    Max,
    Avg,
}

/// The double that a value adds to a sum of doubles.
pub open spec fn term(v: ValueView) -> u64 {
    match v {
        ValueView::Integer(n) => float_of_int(n as int) as u64,
        ValueView::BigInt(n) => float_of_int(n as int) as u64,
        ValueView::Float(f) => f,
        ValueView::Boolean(b) => if b {
            float::ONE
        } else {
            0
        },
        _ => 0,
    }
}

fn value_term(v: &Value) -> (r: u64)
    ensures
        r == term(v@),
{
    match v {
        Value::Integer(n) => float::of_i64(*n as i64),
        Value::BigInt(n) => float::of_i64(*n),
        Value::Float(f) => *f,
        Value::Boolean(b) => if *b {
            float::ONE
        } else {
            0
        },
        _ => 0,
    }
}

/// Whether the first value is less than the second: numbers and texts among themselves.
pub open spec fn less(a: ValueView, b: ValueView) -> bool {
    match (a, b) {
        (ValueView::Integer(x), ValueView::Integer(y)) => x < y,
        (ValueView::BigInt(x), ValueView::BigInt(y)) => x < y,
        (ValueView::Integer(x), ValueView::BigInt(y)) => x < y,
        (ValueView::BigInt(x), ValueView::Integer(y)) => x < y,
        (ValueView::Float(x), ValueView::Float(y)) => float_order(x, y) == Some(Order::Less),
        (ValueView::Integer(x), ValueView::Float(y)) => float_order(term(a), y) == Some(
            Order::Less,
        ),
        (ValueView::BigInt(x), ValueView::Float(y)) => float_order(term(a), y) == Some(Order::Less),
        (ValueView::Float(x), ValueView::Integer(y)) => float_order(x, term(b)) == Some(
            Order::Less,
        ),
        (ValueView::Float(x), ValueView::BigInt(y)) => float_order(x, term(b)) == Some(Order::Less),
        (ValueView::Varchar(x), ValueView::Varchar(y)) => text_order(x, y) == Order::Less,
        _ => false,
    }
}

fn float_less(x: u64, y: u64) -> (r: bool)
    ensures
        r == (float_order(x, y) == Some(Order::Less)),
{
    match float::order(x, y) {
        Some(Order::Less) => true,
        _ => false,
    }
}

/// Compare two values: returns true if the first is less.
pub fn value_lt(a: &Value, b: &Value) -> (r: bool)
    ensures
        r == less(a@, b@),
{
    match (a, b) {
        (Value::Integer(x), Value::Integer(y)) => *x < *y,
        (Value::BigInt(x), Value::BigInt(y)) => *x < *y,
        (Value::Integer(x), Value::BigInt(y)) => (*x as i64) < *y,
        (Value::BigInt(x), Value::Integer(y)) => *x < (*y as i64),
        (Value::Float(x), Value::Float(y)) => float_less(*x, *y),
        (Value::Integer(_), Value::Float(y)) => float_less(value_term(a), *y),
        (Value::BigInt(_), Value::Float(y)) => float_less(value_term(a), *y),
        (Value::Float(x), Value::Integer(_)) => float_less(*x, value_term(b)),
        (Value::Float(x), Value::BigInt(_)) => float_less(*x, value_term(b)),
        (Value::Varchar(x), Value::Varchar(y)) => match order_text(x.as_str(), y.as_str()) {
            Order::Less => true,
            _ => false,
        },
        _ => false,
    }
}

/// An aggregate in the course of a scan: the sum, of integers until a value comes that is
/// none; how many values there were; the least or the greatest of them.
pub struct Running {
    pub whole: i64,
    pub float: Option<u64>,
    pub count: int,
    pub held: Option<ValueView>,
}

/// The integer that an integer value holds.
pub open spec fn integer(v: ValueView) -> Option<int> {
    match v {
        ValueView::Integer(n) => Some(n as int),
        ValueView::BigInt(n) => Some(n as int),
        _ => None,
    }
}

/// An aggregate with one more value, which is not NULL.
pub open spec fn run_step(f: AggFunc, st: Running, v: ValueView, h: HostView) -> std::result::Result<
    Running,
    ErrorView,
> {
    match f {
        AggFunc::Sum | AggFunc::Avg => if st.float is None && integer(v) is Some {
            let n = st.whole + integer(v)->0;
            if i64::MIN <= n <= i64::MAX {
                Ok(Running { whole: n as i64, count: st.count + 1, ..st })
            } else {
                Err(ErrorView::Execution("integer out of range"@))
            }
        } else {
            let base = match st.float {
                Some(x) => x,
                None => float_of_int(st.whole as int) as u64,
            };
            match h.numeric(FloatOp::Add, base, term(v)) {
                Err(e) => Err(e),
                Ok(x) => Ok(Running { float: Some(x), count: st.count + 1, ..st }),
            }
        },
        AggFunc::Min => Ok(
            Running {
                held: if st.held is None || less(v, st.held->0) {
                    Some(v)
                } else {
                    st.held
                },
                count: st.count + 1,
                ..st
            },
        ),
        AggFunc::Max => Ok(
            Running {
                held: if st.held is None || less(st.held->0, v) {
                    Some(v)
                } else {
                    st.held
                },
                count: st.count + 1,
                ..st
            },
        ),
    }
}

/// The aggregate over one column of the tuples from `i` on that count, after `st`. NULL is
/// passed over.
pub open spec fn run_from(
    raws: Seq<RawView>,
    i: int,
    mvcc: bool,
    types: Seq<DataType>,
    col: int,
    f: AggFunc,
    st: Running,
    h: HostView,
) -> std::result::Result<Running, ErrorView>
    decreases raws.len() - i,
{
    if i < 0 || i >= raws.len() {
        Ok(st)
    } else {
        match live(raws[i].1, mvcc, None) {
            None => run_from(raws, i + 1, mvcc, types, col, f, st, h),
            Some(d) => match single_column(d, types, col) {
                Err(e) => Err(e),
                Ok(v) => if v.is_null() {
                    run_from(raws, i + 1, mvcc, types, col, f, st, h)
                } else {
                    match run_step(f, st, v, h) {
                        Err(e) => Err(e),
                        Ok(next) => run_from(raws, i + 1, mvcc, types, col, f, next, h),
                    }
                },
            },
        }
    }
}

/// What an aggregate comes to: NULL over no values.
pub open spec fn run_value(f: AggFunc, st: Running, h: HostView) -> std::result::Result<
    ValueView,
    ErrorView,
> {
    if st.count == 0 {
        Ok(ValueView::Null)
    } else {
        match f {
            AggFunc::Sum => Ok(
                match st.float {
                    Some(x) => ValueView::Float(x),
                    None => if i32::MIN <= st.whole <= i32::MAX {
                        ValueView::Integer(st.whole as i32)
                    } else {
                        ValueView::BigInt(st.whole)
                    },
                },
            ),
            AggFunc::Avg => {
                let s = match st.float {
                    Some(x) => x,
                    None => float_of_int(st.whole as int) as u64,
                };
                match h.numeric(FloatOp::Div, s, float_of_int(st.count as i64 as int) as u64) {
                    Err(e) => Err(e),
                    Ok(x) => Ok(ValueView::Float(x)),
                }
            },
            _ => Ok(
                match st.held {
                    Some(v) => v,
                    None => ValueView::Null,
                },
            ),
        }
    }
}

/// An aggregate over no values.
pub open spec fn run_start() -> Running {
    Running { whole: 0, float: None, count: 0, held: None }
}

/// An aggregate over one column of a table; none, where the versions that a transaction sees
/// would have to be told apart.
pub open spec fn column_aggregate(
    c: Catalog,
    pages: Seq<PageView>,
    name: Seq<char>,
    col: Seq<char>,
    f: AggFunc,
    txn: bool,
    h: HostView,
) -> std::result::Result<Option<ValueView>, ErrorView> {
    match table_of(c, name) {
        None => Err(no_table(name)),
        Some(t) => match name_from(t.schema.names(), col, 0) {
            None => Err(
                ErrorView::Execution("column '"@ + col + "' not found in '"@ + name + "'"@),
            ),
            Some(k) => if t.mvcc_enabled && txn {
                Ok(None)
            } else {
                match table_tuples(pages, t.first_page_id.0) {
                    Err(e) => Err(e),
                    Ok(raws) => match run_from(
                        raws,
                        0,
                        t.mvcc_enabled,
                        types_of(t.schema),
                        k,
                        f,
                        run_start(),
                        h,
                    ) {
                        Err(e) => Err(e),
                        Ok(st) => match run_value(f, st, h) {
                            Err(e) => Err(e),
                            Ok(v) => Ok(Some(v)),
                        },
                    },
                }
            },
        },
    }
}

/// [`Running`] in the course of a scan.
struct Runner {
    whole: i64,
    float: Option<u64>,
    count: usize,
    held: Option<Value>,
}

impl Runner {
    spec fn state(self) -> Running {
        Running {
            whole: self.whole,
            float: self.float,
            count: self.count as int,
            held: self.held.deep_view(),
        }
    }

    fn step(self, f: AggFunc, v: Value, host: &Host) -> (r: std::result::Result<Runner, ForgeError>)
        requires
            self.count < usize::MAX,
        ensures
            match r {
                Ok(st) => run_step(f, self.state(), v@, host@) == Ok::<Running, ErrorView>(
                    st.state(),
                ),
                Err(e) => run_step(f, self.state(), v@, host@) == Err::<Running, ErrorView>(e@),
            },
    {
        let count: usize = self.count + 1;
        match f {
            AggFunc::Sum | AggFunc::Avg => {
                let n: Option<i64> = match &v {
                    Value::Integer(n) => Some(*n as i64),
                    Value::BigInt(n) => Some(*n),
                    _ => None,
                };
                if self.float.is_none() {
                    if let Some(k) = n {
                        return match self.whole.checked_add(k) {
                            Some(whole) => Ok(Runner { whole, count, ..self }),
                            None => Err(ForgeError::Execution("integer out of range".to_owned())),
                        };
                    }
                }
                let base: u64 = match self.float {
                    Some(x) => x,
                    None => float::of_i64(self.whole),
                };
                let x: u64 = host.numeric(FloatOp::Add, base, value_term(&v))?;
                Ok(Runner { float: Some(x), count, ..self })
            },
            AggFunc::Min => {
                let take = match &self.held {
                    None => true,
                    Some(cur) => value_lt(&v, cur),
                };
                Ok(
                    Runner {
                        held: if take {
                            Some(v)
                        } else {
                            self.held
                        },
                        count,
                        ..self
                    },
                )
            },
            AggFunc::Max => {
                let take = match &self.held {
                    None => true,
                    Some(cur) => value_lt(cur, &v),
                };
                Ok(
                    Runner {
                        held: if take {
                            Some(v)
                        } else {
                            self.held
                        },
                        count,
                        ..self
                    },
                )
            },
        }
    }

    fn finish(self, f: AggFunc, host: &Host) -> (r: Result<Value>)
        ensures
            outcome(r) == run_value(f, self.state(), host@),
    {
        if self.count == 0 {
            return Ok(Value::Null);
        }
        match f {
            AggFunc::Sum => match self.float {
                Some(x) => Ok(Value::Float(x)),
                None => if -0x8000_0000 <= self.whole && self.whole <= 0x7fff_ffff {
                    Ok(Value::Integer(self.whole as i32))
                } else {
                    Ok(Value::BigInt(self.whole))
                },
            },
            AggFunc::Avg => {
                let s: u64 = match self.float {
                    Some(x) => x,
                    None => float::of_i64(self.whole),
                };
                let x: u64 = host.numeric(FloatOp::Div, s, float::of_i64(self.count as i64))?;
                Ok(Value::Float(x))
            },
            _ => match self.held {
                Some(v) => Ok(v),
                None => Ok(Value::Null),
            },
        }
    }
}

/// Fast single-column aggregate that reads only the target column of each tuple.
///
/// For MVCC-enabled tables in auto-commit mode, skips deleted tuples.
/// For MVCC tables inside explicit transactions, returns none (the caller reads the rows).
pub fn aggregate_column_fast(
    table_name: &str,
    catalog: &Catalog,
    cbpm: &BufferPool,
    col_name: &str,
    agg_func: AggFunc,
    txn_ctx: Option<&TxnContext>,
    host: &Host,
) -> (r: Result<Option<Value>>)
    ensures
        outcome(r) == column_aggregate(
            *catalog,
            cbpm@,
            table_name@,
            col_name@,
            agg_func,
            txn_ctx is Some,
            host@,
        ),
{
    let info = find_table(catalog, table_name)?;
    let col: usize = match info.schema.get_column(col_name) {
        Some(k) => k,
        None => {
            let mut s = "column '".to_owned();
            s.append(col_name);
            s.append("' not found in '");
            s.append(table_name);
            s.append("'");
            return Err(ForgeError::Execution(s));
        },
    };
    if info.mvcc_enabled && txn_ctx.is_some() {
        return Ok(None);
    }
    let raws = cbpm.table_iterator(info.first_page_id)?;
    let st = run_over(&raws, info, col, agg_func, host)?;
    let v = st.finish(agg_func, host)?;
    Ok(Some(v))
}

fn run_over(
    raws: &Vec<(RID, Vec<u8>)>,
    info: &TableInfo,
    col: usize,
    f: AggFunc,
    host: &Host,
) -> (r: std::result::Result<Runner, ForgeError>)
    ensures
        match r {
            Ok(st) => run_from(
                raws.deep_view(),
                0,
                info.mvcc_enabled,
                types_of(info.schema),
                col as int,
                f,
                run_start(),
                host@,
            ) == Ok::<Running, ErrorView>(st.state()),
            Err(e) => run_from(
                raws.deep_view(),
                0,
                info.mvcc_enabled,
                types_of(info.schema),
                col as int,
                f,
                run_start(),
                host@,
            ) == Err::<Running, ErrorView>(e@),
        },
{
    let ghost rv = raws.deep_view();
    let ghost types = types_of(info.schema);
    let mvcc = info.mvcc_enabled;
    let ghost all = run_from(rv, 0, mvcc, types, col as int, f, run_start(), host@);
    let mut st = Runner { whole: 0, float: None, count: 0, held: None };
    assert(st.state() == run_start());
    let mut i: usize = 0;
    while i < raws.len()
        invariant
            0 <= i <= raws.len(),
            rv == raws.deep_view(),
            types == types_of(info.schema),
            mvcc == info.mvcc_enabled,
            st.count <= i,
            all == run_from(rv, 0, mvcc, types, col as int, f, run_start(), host@),
            all == run_from(rv, i as int, mvcc, types, col as int, f, st.state(), host@),
        decreases raws.len() - i,
    {
        assert(rv[i as int].1 =~= raws@[i as int].1@);
        if let Some(d) = live_part(raws[i].1.as_slice(), mvcc, None) {
            let v = deserialize_single_column(d, &info.schema, col)?;
            if !v.is_null() {
                let ghost was = st.count;
                st = st.step(f, v, host)?;
                assert(st.state().count == was + 1);
            }
        }
        i += 1;
    }
    Ok(st)
}

} // verus!
