//! Looking rows up by an index.
use crate::aggregate::RowView;
use crate::ast::Expr;
use crate::catalog::{Catalog, TableInfo};
use crate::common::{dummy_rid, no_rid, RID};
use crate::error::{execution_on, outcome, ErrorView, ForgeError, Result};
use crate::eval::{eval, evaluate};
use crate::host::{Host, HostView};
use crate::index::{BTreeIndex, IndexView};
use crate::insert::{bare, bare_part, counter_key};
use crate::scan::{find_table, live, live_part, no_table, table_of};
use crate::schema::{Column, ColumnView, Schema};
use crate::storage::{tuple_at, BufferPool, PageView};
use crate::text::{begins, joined, lower_text, same_text, starts_with};
use crate::tuple::{coerce_value_pub, deserialize, fitted, tuple_read, types_of};
use crate::txn::{TxnContext, TxnView};
use crate::types::{Value, ValueView};
use vstd::prelude::*;

verus! {

/// Whether an index with a name serves lookups by a key: it is the one on that column, or it
/// begins with it.
pub open spec fn serves(name: Seq<char>, key: Seq<char>) -> bool {
    lower_text(name) == key || begins(lower_text(name), key + "."@)
}

/// The first index from `i` on that serves lookups by a key.
pub open spec fn serving_from(indexes: Seq<(Seq<char>, IndexView)>, key: Seq<char>, i: int) -> Option<
    int,
>
    decreases indexes.len() - i,
{
    if i < 0 || i >= indexes.len() {
        None
    } else if serves(indexes[i].0, key) {
        Some(i)
    } else {
        serving_from(indexes, key, i + 1)
    }
}

fn find_serving<'a>(indexes: &'a Vec<(String, BTreeIndex)>, key: &str) -> (r: Option<&'a BTreeIndex>)
    ensures
        match r {
            Some(x) => serving_from(indexes.deep_view(), key@, 0) is Some && x.deep_view()
                == indexes.deep_view()[serving_from(indexes.deep_view(), key@, 0)->0].1,
            None => serving_from(indexes.deep_view(), key@, 0) is None,
        },
{
    let ghost iv = indexes.deep_view();
    let mut longer = key.to_owned();
    longer.append(".");
    let mut i: usize = 0;
    while i < indexes.len()
        invariant
            0 <= i <= indexes.len(),
            iv == indexes.deep_view(),
            longer@ == key@ + "."@,
            serving_from(iv, key@, 0) == serving_from(iv, key@, i as int),
        decreases indexes.len() - i,
    {
        assert(iv[i as int].0 == indexes@[i as int].0@);
        assert(iv[i as int].1 == indexes@[i as int].1.deep_view());
        let name = indexes[i].0.as_str().to_lowercase();
        if same_text(name.as_str(), key) || starts_with(name.as_str(), longer.as_str()) {
            return Some(&indexes[i].1);
        }
        i += 1;
    }
    None
}

/// A value looked up in an index: the value as the index keeps it, and the places of its rows.
pub open spec fn looked_up(
    indexes: Seq<(Seq<char>, IndexView)>,
    key: Seq<char>,
    lookup: Expr,
    h: HostView,
) -> std::result::Result<(ValueView, Seq<RID>), ErrorView> {
    match serving_from(indexes, key, 0) {
        None => Err(ErrorView::Execution("index not found for "@ + key)),
        Some(k) => match eval(lookup, Seq::empty(), Seq::empty(), h) {
            Err(e) => Err(e),
            Ok(given) => match fitted(given, indexes[k].1.key_type, h) {
                Err(e) => Err(e),
                Ok(v) => Ok((v, indexes[k].1.all_found(v))),
            },
        },
    }
}

fn look_up(indexes: &Vec<(String, BTreeIndex)>, key: &str, lookup: &Expr, host: &Host) -> (r: Result<
    (Value, Vec<RID>),
>)
    ensures
        match r {
            Ok(p) => looked_up(indexes.deep_view(), key@, *lookup, host@) == Ok::<
                (ValueView, Seq<RID>),
                ErrorView,
            >((p.0@, p.1@)),
            Err(e) => looked_up(indexes.deep_view(), key@, *lookup, host@) == Err::<
                (ValueView, Seq<RID>),
                ErrorView,
            >(e@),
        },
{
    match find_serving(indexes, key) {
        None => Err(ForgeError::Execution(joined("index not found for ", key))),
        Some(index) => {
            let none: Vec<Value> = Vec::new();
            let empty = Schema::new(Vec::new());
            assert(none.deep_view() =~= Seq::<ValueView>::empty());
            assert(empty.names() =~= Seq::<Seq<char>>::empty());
            let given = evaluate(lookup, none.as_slice(), &empty, host)?;
            let v = coerce_value_pub(&given, &index.key_type, host)?;
            let rids = index.search_all(&v);
            Ok((v, rids))
        },
    }
}

fn key_of(table: &str, column: &str) -> (r: String)
    ensures
        r@ == counter_key(table@, column@),
{
    let mut key = table.to_lowercase();
    key.append(".");
    key.append(column.to_lowercase().as_str());
    key
}

/// The row at a place of a table.
pub open spec fn row_at(pages: Seq<PageView>, info: TableInfo, rid: RID) -> std::result::Result<
    Seq<ValueView>,
    ErrorView,
> {
    match tuple_at(pages, rid) {
        None => Err(ErrorView::Page("tuple not found"@)),
        Some(raw) => tuple_read(bare(raw, info.mvcc_enabled), types_of(info.schema)),
    }
}

/// The row at a place of a table.
pub fn read_row_at(bpm: &BufferPool, info: &TableInfo, rid: RID) -> (r: Result<Vec<Value>>)
    ensures
        outcome(r) == row_at(bpm@, *info, rid),
{
    match bpm.get_tuple(rid) {
        None => Err(ForgeError::Page("tuple not found".to_owned())),
        Some(raw) => {
            assert(raw.deep_view() =~= raw@);
            deserialize(bare_part(raw.as_slice(), info.mvcc_enabled), &info.schema)
        },
    }
}

/// The row at a place of a table, if its version counts.
pub open spec fn seen_at(
    pages: Seq<PageView>,
    info: TableInfo,
    rid: RID,
    txn: Option<TxnView>,
) -> std::result::Result<Option<Seq<ValueView>>, ErrorView> {
    match tuple_at(pages, rid) {
        None => Err(ErrorView::Page("tuple not found"@)),
        Some(raw) => match live(raw, info.mvcc_enabled, txn) {
            None => Ok(None),
            Some(d) => match tuple_read(d, types_of(info.schema)) {
                Err(e) => Err(e),
                Ok(row) => Ok(Some(row)),
            },
        },
    }
}

fn read_seen_at(bpm: &BufferPool, info: &TableInfo, rid: RID, txn: Option<&TxnContext>) -> (r: Result<
    Option<Vec<Value>>,
>)
    ensures
        outcome(r) == seen_at(bpm@, *info, rid, txn.deep_view()),
{
    match bpm.get_tuple(rid) {
        None => Err(ForgeError::Page("tuple not found".to_owned())),
        Some(raw) => {
            assert(raw.deep_view() =~= raw@);
            match live_part(raw.as_slice(), info.mvcc_enabled, txn) {
                None => Ok(None),
                Some(d) => {
                    let row = deserialize(d, &info.schema)?;
                    Ok(Some(row))
                },
            }
        },
    }
}

/// The rows at the places from `i` on whose versions count, behind `acc`.
pub open spec fn rows_at(
    pages: Seq<PageView>,
    info: TableInfo,
    rids: Seq<RID>,
    i: int,
    txn: Option<TxnView>,
    acc: Seq<RowView>,
) -> std::result::Result<Seq<RowView>, ErrorView>
    decreases rids.len() - i,
{
    if i < 0 || i >= rids.len() {
        Ok(acc)
    } else {
        match seen_at(pages, info, rids[i], txn) {
            Err(e) => Err(e),
            Ok(None) => rows_at(pages, info, rids, i + 1, txn, acc),
            Ok(Some(row)) => rows_at(pages, info, rids, i + 1, txn, acc.push((rids[i], row))),
        }
    }
}

fn read_rows_at(bpm: &BufferPool, info: &TableInfo, rids: &Vec<RID>, txn: Option<&TxnContext>) -> (r:
    Result<Vec<(RID, Vec<Value>)>>)
    ensures
        outcome(r) == rows_at(bpm@, *info, rids@, 0, txn.deep_view(), Seq::empty()),
{
    let mut rows: Vec<(RID, Vec<Value>)> = Vec::new();
    assert(rows.deep_view() =~= Seq::<RowView>::empty());
    let ghost tv = txn.deep_view();
    let ghost all = rows_at(bpm@, *info, rids@, 0, tv, Seq::empty());
    let mut i: usize = 0;
    while i < rids.len()
        invariant
            0 <= i <= rids.len(),
            tv == txn.deep_view(),
            all == rows_at(bpm@, *info, rids@, 0, tv, Seq::empty()),
            all == rows_at(bpm@, *info, rids@, i as int, tv, rows.deep_view()),
        decreases rids.len() - i,
    {
        if let Some(row) = read_seen_at(bpm, info, rids[i], txn)? {
            let ghost had = rows.deep_view();
            let ghost rv = row.deep_view();
            rows.push((rids[i], row));
            assert(rows.deep_view() =~= had.push((rids@[i as int], rv)));
        }
        i += 1;
    }
    Ok(rows)
}

/// The rows of a table with a value in an indexed column, by way of the index: those that the
/// transaction sees.
pub open spec fn index_rows(
    c: Catalog,
    pages: Seq<PageView>,
    indexes: Seq<(Seq<char>, IndexView)>,
    table: Seq<char>,
    column: Seq<char>,
    lookup: Expr,
    txn: Option<TxnView>,
    h: HostView,
) -> std::result::Result<(Seq<ColumnView>, Seq<RowView>), ErrorView> {
    match table_of(c, table) {
        None => Err(no_table(table)),
        Some(info) => match looked_up(indexes, counter_key(table, column), lookup, h) {
            Err(e) => Err(e),
            Ok(p) => match rows_at(pages, info, p.1, 0, txn, Seq::empty()) {
                Err(e) => Err(e),
                Ok(rows) => Ok((info.schema.deep_view(), rows)),
            },
        },
    }
}

/// Execute an index scan: look up by key and return matching rows, as far as the transaction sees
/// them.
pub fn execute_index_scan<'a>(
    table_name: &str,
    index_column: &str,
    lookup_value: &Expr,
    bpm: &BufferPool,
    catalog: &'a Catalog,
    indexes: &Vec<(String, BTreeIndex)>,
    txn_ctx: Option<&TxnContext>,
    host: &Host,
) -> (r: Result<(&'a Schema, Vec<(RID, Vec<Value>)>)>)
    ensures
        outcome(r) == index_rows(
            *catalog,
            bpm@,
            indexes.deep_view(),
            table_name@,
            index_column@,
            *lookup_value,
            txn_ctx.deep_view(),
            host@,
        ),
        r is Ok ==> *(r->Ok_0).0 == table_of(*catalog, table_name@)->0.schema,
{
    let info = find_table(catalog, table_name)?;
    let key = key_of(table_name, index_column);
    let (_, rids) = look_up(indexes, key.as_str(), lookup_value, host)?;
    let rows = read_rows_at(bpm, info, &rids, txn_ctx)?;
    Ok((&info.schema, rows))
}

/// The first column from `i` on with a name, up to case.
pub open spec fn lower_column_from(names: Seq<Seq<char>>, name: Seq<char>, i: int) -> Option<int>
    decreases names.len() - i,
{
    if i < 0 || i >= names.len() {
        None
    } else if lower_text(names[i]) == lower_text(name) {
        Some(i)
    } else {
        lower_column_from(names, name, i + 1)
    }
}

fn find_lower_column(schema: &Schema, name: &str) -> (r: Option<usize>)
    ensures
        match r {
            Some(k) => k < schema.columns.len() && lower_column_from(schema.names(), name@, 0)
                == Some(k as int),
            None => lower_column_from(schema.names(), name@, 0) is None,
        },
{
    let ghost names = schema.names();
    let wanted = name.to_lowercase();
    let mut i: usize = 0;
    while i < schema.columns.len()
        invariant
            0 <= i <= schema.columns.len(),
            names == schema.names(),
            wanted@ == lower_text(name@),
            lower_column_from(names, name@, 0) == lower_column_from(names, name@, i as int),
        decreases schema.columns.len() - i,
    {
        if same_text(schema.columns[i].name.as_str().to_lowercase().as_str(), wanted.as_str()) {
            return Some(i);
        }
        i += 1;
    }
    None
}

/// A column on its own, without default and constraints.
pub open spec fn sole_column(c: ColumnView) -> ColumnView {
    ColumnView {
        name: c.name,
        data_type: c.data_type,
        nullable: c.nullable,
        column_id: 0,
        auto_increment: false,
        default_value: None,
        is_primary_key: c.is_primary_key,
        is_unique: c.is_unique,
        check: None,
        fk_ref: None,
    }
}

/// How many of the places that an index gives count: all of them outside of a transaction.
pub open spec fn times_seen(
    pages: Seq<PageView>,
    info: TableInfo,
    rids: Seq<RID>,
    txn: Option<TxnView>,
) -> std::result::Result<int, ErrorView> {
    if txn is None {
        Ok(rids.len() as int)
    } else {
        match rows_at(pages, info, rids, 0, txn, Seq::empty()) {
            Err(e) => Err(e),
            Ok(rows) => Ok(rows.len() as int),
        }
    }
}

fn count_seen(bpm: &BufferPool, info: &TableInfo, rids: &Vec<RID>, txn: Option<&TxnContext>) -> (r:
    std::result::Result<usize, ForgeError>)
    ensures
        match r {
            Ok(n) => times_seen(bpm@, *info, rids@, txn.deep_view()) == Ok::<int, ErrorView>(
                n as int,
            ),
            Err(e) => times_seen(bpm@, *info, rids@, txn.deep_view()) == Err::<int, ErrorView>(e@),
        },
{
    if txn.is_none() {
        return Ok(rids.len());
    }
    let rows = read_rows_at(bpm, info, rids, txn)?;
    assert(rows.deep_view().len() == rows.len());
    Ok(rows.len())
}

/// The value looked up, as the one column of a row for each time the index has it; in a
/// transaction, for each row under it that the transaction sees.
pub open spec fn index_only_rows(
    c: Catalog,
    pages: Seq<PageView>,
    indexes: Seq<(Seq<char>, IndexView)>,
    table: Seq<char>,
    column: Seq<char>,
    lookup: Expr,
    txn: Option<TxnView>,
    h: HostView,
) -> std::result::Result<(Seq<ColumnView>, Seq<RowView>), ErrorView> {
    match table_of(c, table) {
        None => Err(no_table(table)),
        Some(info) => match looked_up(indexes, counter_key(table, column), lookup, h) {
            Err(e) => Err(e),
            Ok(p) => match lower_column_from(info.schema.names(), column, 0) {
                None => Err(ErrorView::Execution("column '"@ + column + "' not found"@)),
                Some(k) => match times_seen(pages, info, p.1, txn) {
                    Err(e) => Err(e),
                    Ok(n) => Ok(
                        (
                            seq![sole_column(info.schema.deep_view()[k])],
                            Seq::new(n as nat, |i: int| (no_rid(), seq![p.0])),
                        ),
                    ),
                },
            },
        },
    }
}

fn only_column(c: &Column) -> (r: Column)
    ensures
        r.deep_view() == sole_column(c.deep_view()),
{
    let none: Option<Value> = None;
    let no_ref: Option<(String, String, u8)> = None;
    let r = Column {
        name: c.name.clone(),
        data_type: c.data_type,
        nullable: c.nullable,
        column_id: 0,
        auto_increment: false,
        default_value: none,
        is_primary_key: c.is_primary_key,
        is_unique: c.is_unique,
        check_expr: None,
        fk_ref: no_ref,
    };
    assert(r.deep_view().name == c.deep_view().name);
    r
}

/// Execute an index-only scan: return results directly from the index
/// without accessing the table's pages, unless a transaction has to be asked what it sees. This
/// is possible when the query only needs columns that are present in the index.
///
/// Returns a single-column schema containing only the indexed column.
pub fn execute_index_only_scan(
    table_name: &str,
    index_column: &str,
    lookup_value: &Expr,
    bpm: &BufferPool,
    catalog: &Catalog,
    indexes: &Vec<(String, BTreeIndex)>,
    txn_ctx: Option<&TxnContext>,
    host: &Host,
) -> (r: Result<(Schema, Vec<(RID, Vec<Value>)>)>)
    ensures
        outcome(r) == index_only_rows(
            *catalog,
            bpm@,
            indexes.deep_view(),
            table_name@,
            index_column@,
            *lookup_value,
            txn_ctx.deep_view(),
            host@,
        ),
{
    let info = find_table(catalog, table_name)?;
    let key = key_of(table_name, index_column);
    let (v, rids) = look_up(indexes, key.as_str(), lookup_value, host)?;
    let k: usize = match find_lower_column(&info.schema, index_column) {
        Some(k) => k,
        None => {
            return execution_on("column '", index_column, "' not found");
        },
    };
    assert(info.schema.deep_view()[k as int] == info.schema.columns@[k as int].deep_view());
    let n: usize = count_seen(bpm, info, &rids, txn_ctx)?;
    let col = only_column(&info.schema.columns[k]);
    let ghost cv = col.deep_view();
    let mut columns: Vec<Column> = Vec::new();
    columns.push(col);
    let schema = Schema::new(columns);
    assert(schema.deep_view() =~= seq![cv]);
    let mut rows: Vec<(RID, Vec<Value>)> = Vec::new();
    let ghost vv = v@;
    let mut i: usize = 0;
    while i < n
        invariant
            0 <= i <= n,
            vv == v@,
            rows.deep_view() == Seq::new(i as nat, |j: int| (no_rid(), seq![vv])),
        decreases n - i,
    {
        let mut row: Vec<Value> = Vec::new();
        let w = v.clone();
        row.push(w);
        assert(row.deep_view() =~= seq![vv]);
        let ghost had = rows.deep_view();
        let ghost rv = row.deep_view();
        rows.push((dummy_rid(), row));
        assert(rows.deep_view() =~= had.push((no_rid(), rv)));
        assert(rows.deep_view() =~= Seq::new((i + 1) as nat, |j: int| (no_rid(), seq![vv])));
        i += 1;
    }
    assert(rows.deep_view() =~= Seq::new(n as nat, |j: int| (no_rid(), seq![vv])));
    Ok((schema, rows))
}

} // verus!
