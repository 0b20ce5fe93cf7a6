//! INSERT.
use crate::bytes::{lemma_bytes_deep, put_bytes};
use crate::ast::{Expr, OnConflict, OnConflictAction};
use crate::catalog::{Catalog, TableInfo};
use crate::common::RID;
use crate::composite::{find_key_in, key_in};
use crate::error::{execution_on, outcome, ErrorView, ForgeError, Result};
use crate::eval::{eval, evaluate};
use crate::host::{Host, HostView};
use crate::index::{BTreeIndex, IndexView};
use crate::index_scan::{read_row_at, row_at};
use crate::order::Order;
use crate::aggregate::RowView;
use crate::scan::{find_table, live, no_table, rows_from, table_of};
use crate::schema::{name_from, Column, Schema};
use crate::state::{
    affected, affected_result, find_named, named_from, DmlContext, ExecuteResult, ResultView,
    StateView, Step,
};
use crate::storage::{
    ids_below, law_inserted_tuple_is_read, law_version_header_round_trip, put_version_header,
    table_tuples, tuple_inserted, version_header, BufferPool, MVCC_HEADER_SIZE, PageView, RawView,
    XMAX_NONE,
};
use crate::text::{eq_ignore_ascii_case, lower_text, pieces, same_name, same_text, split_char};
use crate::tuple::{
    deserialize, fitted, law_tuple_round_trip, of_type, row_fits, serialize, serialized, stored,
    stored_from, tuple_bytes, tuple_read, types_of, value_fits,
};
use crate::txn::{TxnContext, TxnView, UndoEntry, UndoView};
use crate::types::{DataType, Value, ValueView};
use crate::update::{row_updated, update_row};
use crate::values::{show, value_text};
use vstd::prelude::*;

verus! {

// ---------------------------------------------------------------------------
// The values of a row
// ---------------------------------------------------------------------------

/// The values of the expressions from `i` on, behind `acc`; they read no row.
pub open spec fn given_from(exprs: Seq<Expr>, i: int, acc: Seq<ValueView>, h: HostView) -> std::result::Result<
    Seq<ValueView>,
    ErrorView,
>
    decreases exprs.len() - i,
{
    if i < 0 || i >= exprs.len() {
        Ok(acc)
    } else {
        match eval(exprs[i], Seq::empty(), Seq::empty(), h) {
            Err(e) => Err(e),
            Ok(v) => given_from(exprs, i + 1, acc.push(v), h),
        }
    }
}

fn evaluate_row(exprs: &Vec<Expr>, host: &Host) -> (r: Result<Vec<Value>>)
    ensures
        outcome(r) == given_from(exprs@, 0, Seq::empty(), host@),
{
    let none: Vec<Value> = Vec::new();
    let empty = Schema::new(Vec::new());
    assert(none.deep_view() =~= Seq::<ValueView>::empty());
    assert(empty.names() =~= Seq::<Seq<char>>::empty());
    let mut out: Vec<Value> = Vec::new();
    assert(out.deep_view() =~= Seq::<ValueView>::empty());
    let mut i: usize = 0;
    while i < exprs.len()
        invariant
            0 <= i <= exprs.len(),
            none.deep_view() == Seq::<ValueView>::empty(),
            empty.names() == Seq::<Seq<char>>::empty(),
            given_from(exprs@, 0, Seq::empty(), host@) == given_from(
                exprs@,
                i as int,
                out.deep_view(),
                host@,
            ),
        decreases exprs.len() - i,
    {
        let v = evaluate(&exprs[i], none.as_slice(), &empty, host)?;
        let ghost before = out.deep_view();
        out.push(v);
        assert(out.deep_view() =~= before.push(v@));
        i += 1;
    }
    Ok(out)
}

/// The values put where the columns named from `i` on stand, into `acc`.
pub open spec fn reordered_from(
    vals: Seq<ValueView>,
    cols: Seq<Seq<char>>,
    names: Seq<Seq<char>>,
    i: int,
    acc: Seq<ValueView>,
) -> std::result::Result<Seq<ValueView>, ErrorView>
    decreases cols.len() - i,
{
    if i < 0 || i >= cols.len() {
        Ok(acc)
    } else {
        match name_from(names, cols[i], 0) {
            None => Err(ErrorView::Execution("column '"@ + cols[i] + "' not found"@)),
            Some(k) => reordered_from(
                vals,
                cols,
                names,
                i + 1,
                if i < vals.len() {
                    acc.update(k, vals[i])
                } else {
                    acc
                },
            ),
        }
    }
}

/// A row of as many NULLs as there are columns.
pub open spec fn nulls(n: nat) -> Seq<ValueView> {
    Seq::new(n, |i: int| ValueView::Null)
}

fn reorder_values(values: &Vec<Value>, col_names: &Vec<String>, schema: &Schema) -> (r: Result<
    Vec<Value>,
>)
    ensures
        outcome(r) == reordered_from(
            values.deep_view(),
            col_names.deep_view(),
            schema.names(),
            0,
            nulls(schema.names().len()),
        ),
{
    let ghost vv = values.deep_view();
    let ghost cv = col_names.deep_view();
    let ghost names = schema.names();
    let ghost all = reordered_from(vv, cv, names, 0, nulls(names.len()));
    let mut result: Vec<Value> = Vec::new();
    let mut k: usize = 0;
    while k < schema.columns.len()
        invariant
            0 <= k <= schema.columns.len(),
            result.len() == k,
            forall|j: int| 0 <= j < k ==> (#[trigger] result@[j])@ == ValueView::Null,
        decreases schema.columns.len() - k,
    {
        result.push(Value::Null);
        k += 1;
    }
    assert(result.deep_view() =~= nulls(names.len()));
    let mut i: usize = 0;
    while i < col_names.len()
        invariant
            0 <= i <= col_names.len(),
            vv == values.deep_view(),
            cv == col_names.deep_view(),
            names == schema.names(),
            result.len() == schema.columns.len(),
            all == reordered_from(vv, cv, names, 0, nulls(names.len())),
            all == reordered_from(vv, cv, names, i as int, result.deep_view()),
        decreases col_names.len() - i,
    {
        assert(cv[i as int] == col_names@[i as int]@);
        match schema.get_column(col_names[i].as_str()) {
            None => {
                return execution_on("column '", col_names[i].as_str(), "' not found");
            },
            Some(idx) => {
                if i < values.len() {
                    let ghost before = result.deep_view();
                    assert(vv[i as int] == values@[i as int]@);
                    result.set(idx, values[i].clone());
                    assert(result.deep_view() =~= before.update(idx as int, vv[i as int]));
                }
            },
        }
        i += 1;
    }
    Ok(result)
}

/// The values that a row of expressions gives to the columns of a table.
pub open spec fn row_given(
    exprs: Seq<Expr>,
    columns: Option<Seq<Seq<char>>>,
    names: Seq<Seq<char>>,
    h: HostView,
) -> std::result::Result<Seq<ValueView>, ErrorView> {
    match given_from(exprs, 0, Seq::empty(), h) {
        Err(e) => Err(e),
        Ok(vals) => match columns {
            Some(cols) => reordered_from(vals, cols, names, 0, nulls(names.len())),
            None => Ok(vals),
        },
    }
}

fn give_row(exprs: &Vec<Expr>, columns: &Option<Vec<String>>, schema: &Schema, host: &Host) -> (r:
    Result<Vec<Value>>)
    ensures
        outcome(r) == row_given(exprs@, columns.deep_view(), schema.names(), host@),
{
    let vals = evaluate_row(exprs, host)?;
    match columns {
        Some(cols) => reorder_values(&vals, cols, schema),
        None => Ok(vals),
    }
}

// ---------------------------------------------------------------------------
// Numbers and defaults
// ---------------------------------------------------------------------------

/// The last number given out under a key.
pub open spec fn counter(counters: Seq<(Seq<char>, i64)>, key: Seq<char>) -> i64 {
    match named_from(counters, key, 0) {
        Some(k) => counters[k].1,
        None => 0,
    }
}

/// The counters with one of them set.
pub open spec fn counter_set(counters: Seq<(Seq<char>, i64)>, key: Seq<char>, n: i64) -> Seq<
    (Seq<char>, i64),
> {
    match named_from(counters, key, 0) {
        Some(k) => counters.update(k, (key, n)),
        None => counters.push((key, n)),
    }
}

/// A row whose missing numbers were given out.
pub struct Numbered {
    pub row: Seq<ValueView>,
    pub counters: Seq<(Seq<char>, i64)>,
    pub last: u64,
    /// Whether there was a number left for every place.
    pub complete: bool,
}

/// The name of the counter of a column.
pub open spec fn counter_key(table: Seq<char>, column: Seq<char>) -> Seq<char> {
    lower_text(table) + "."@ + lower_text(column)
}

/// The row with a number in every auto-increment column from `i` on that is NULL.
pub open spec fn numbered_from(
    cols: Seq<Column>,
    i: int,
    table: Seq<char>,
    row: Seq<ValueView>,
    counters: Seq<(Seq<char>, i64)>,
    last: u64,
) -> Numbered
    decreases cols.len() - i,
{
    if i < 0 || i >= cols.len() {
        Numbered { row, counters, last, complete: true }
    } else if cols[i].auto_increment && i < row.len() && row[i].is_null() {
        let key = counter_key(table, cols[i].name@);
        let n = counter(counters, key);
        if n == i64::MAX {
            Numbered { row, counters, last, complete: false }
        } else {
            let next = (n + 1) as i64;
            let v = if cols[i].data_type is BigInt {
                ValueView::BigInt(next)
            } else {
                ValueView::Integer(next as i32)
            };
            numbered_from(
                cols,
                i + 1,
                table,
                row.update(i, v),
                counter_set(counters, key, next),
                next as u64,
            )
        }
    } else {
        numbered_from(cols, i + 1, table, row, counters, last)
    }
}

fn next_number(counters: &mut Vec<(String, i64)>, key: String) -> (r: Option<i64>)
    ensures
        match r {
            Some(n) => counter(old(counters).deep_view(), key@) < i64::MAX && n == counter(
                old(counters).deep_view(),
                key@,
            ) + 1 && final(counters).deep_view() == counter_set(
                old(counters).deep_view(),
                key@,
                n,
            ),
            None => counter(old(counters).deep_view(), key@) == i64::MAX && *final(counters)
                == *old(counters),
        },
{
    let ghost before = counters.deep_view();
    let ghost kv = key@;
    match find_named(counters, key.as_str()) {
        Some(k) => {
            assert(before[k as int].1 == counters@[k as int].1);
            let n: i64 = counters[k].1;
            if n == i64::MAX {
                return None;
            }
            let next: i64 = n + 1;
            counters.set(k, (key, next));
            assert(counters.deep_view() =~= before.update(k as int, (kv, next)));
            Some(next)
        },
        None => {
            counters.push((key, 1));
            assert(counters.deep_view() =~= before.push((kv, 1i64)));
            Some(1)
        },
    }
}

fn number_row(
    schema: &Schema,
    table: &str,
    row: &mut Vec<Value>,
    counters: &mut Vec<(String, i64)>,
    last: u64,
) -> (r: (bool, u64))
    ensures
        numbered_from(
            schema.columns@,
            0,
            table@,
            old(row).deep_view(),
            old(counters).deep_view(),
            last,
        ) == (Numbered {
            row: final(row).deep_view(),
            counters: final(counters).deep_view(),
            last: r.1,
            complete: r.0,
        }),
        final(row).len() == old(row).len(),
{
    let mut newest: u64 = last;
    let ghost all = numbered_from(
        schema.columns@,
        0,
        table@,
        row.deep_view(),
        counters.deep_view(),
        last,
    );
    let mut i: usize = 0;
    while i < schema.columns.len()
        invariant
            0 <= i <= schema.columns.len(),
            row.len() == old(row).len(),
            all == numbered_from(
                schema.columns@,
                0,
                table@,
                old(row).deep_view(),
                old(counters).deep_view(),
                last,
            ),
            all == numbered_from(
                schema.columns@,
                i as int,
                table@,
                row.deep_view(),
                counters.deep_view(),
                newest,
            ),
        decreases schema.columns.len() - i,
    {
        let col = &schema.columns[i];
        assert(i < row.len() ==> row.deep_view()[i as int] == row@[i as int]@);
        if col.auto_increment && i < row.len() && row[i].is_null() {
            let mut key = table.to_lowercase();
            key.append(".");
            key.append(col.name.as_str().to_lowercase().as_str());
            let ghost rv = row.deep_view();
            match next_number(counters, key) {
                None => {
                    return (false, newest);
                },
                Some(n) => {
                    let wide = matches!(col.data_type, DataType::BigInt);
                    newest = n as u64;
                    let v = if wide {
                        Value::BigInt(n)
                    } else {
                        Value::Integer(n as i32)
                    };
                    let ghost vv = v@;
                    row.set(i, v);
                    assert(row.deep_view() =~= rv.update(i as int, vv));
                },
            }
        }
        i += 1;
    }
    (true, newest)
}

/// The row with the columns' defaults in place of NULL.
pub open spec fn defaulted(cols: Seq<Column>, row: Seq<ValueView>) -> Seq<ValueView> {
    Seq::new(
        row.len(),
        |i: int|
            if i < cols.len() && row[i].is_null() && cols[i].default_value is Some {
                cols[i].default_value->0@
            } else {
                row[i]
            },
    )
}

fn put_defaults(schema: &Schema, row: &mut Vec<Value>)
    ensures
        final(row).deep_view() == defaulted(schema.columns@, old(row).deep_view()),
{
    let ghost all = defaulted(schema.columns@, row.deep_view());
    let ghost rv = row.deep_view();
    let mut i: usize = 0;
    while i < schema.columns.len() && i < row.len()
        invariant
            0 <= i <= schema.columns.len(),
            i <= row.len(),
            row.len() == rv.len(),
            all == defaulted(schema.columns@, rv),
            forall|k: int| 0 <= k < i ==> (#[trigger] row@[k])@ == all[k],
            forall|k: int| i <= k < row.len() ==> (#[trigger] row@[k])@ == rv[k],
        decreases schema.columns.len() - i,
    {
        if row[i].is_null() {
            if let Some(d) = &schema.columns[i].default_value {
                row.set(i, d.clone());
            }
        }
        i += 1;
    }
    assert(row.deep_view() =~= all);
}

// ---------------------------------------------------------------------------
// Constraints
// ---------------------------------------------------------------------------

/// The complaint of the first CHECK from column `i` on that the row does not pass. A CHECK
/// that is not false passes, and so does one that fails.
pub open spec fn check_complaint(
    cols: Seq<Column>,
    i: int,
    row: Seq<ValueView>,
    names: Seq<Seq<char>>,
    h: HostView,
) -> Option<ErrorView>
    decreases cols.len() - i,
{
    if i < 0 || i >= cols.len() {
        None
    } else {
        match cols[i].check_expr {
            None => check_complaint(cols, i + 1, row, names, h),
            Some(e) => match eval(e, row, names, h) {
                Ok(ValueView::Boolean(false)) => Some(
                    ErrorView::Execution(
                        "CHECK constraint violated for column '"@ + cols[i].name@ + "'"@,
                    ),
                ),
                Err(ErrorView::NeedsFloat(f)) => Some(ErrorView::NeedsFloat(f)),
                _ => check_complaint(cols, i + 1, row, names, h),
            },
        }
    }
}

/// Whether a row passes the CHECK constraints of its table.
pub fn validate_checks(schema: &Schema, row: &Vec<Value>, host: &Host) -> (r: std::result::Result<
    (),
    ForgeError,
>)
    ensures
        match r {
            Ok(_) => check_complaint(
                schema.columns@,
                0,
                row.deep_view(),
                schema.names(),
                host@,
            ) is None,
            Err(e) => check_complaint(schema.columns@, 0, row.deep_view(), schema.names(), host@)
                == Some(e@),
        },
{
    let ghost rv = row.deep_view();
    let mut i: usize = 0;
    while i < schema.columns.len()
        invariant
            0 <= i <= schema.columns.len(),
            rv == row.deep_view(),
            check_complaint(schema.columns@, 0, rv, schema.names(), host@) == check_complaint(
                schema.columns@,
                i as int,
                rv,
                schema.names(),
                host@,
            ),
        decreases schema.columns.len() - i,
    {
        if let Some(e) = &schema.columns[i].check_expr {
            match evaluate(e, row.as_slice(), schema, host) {
                Ok(Value::Boolean(false)) => {
                    let mut s = "CHECK constraint violated for column '".to_owned();
                    s.append(schema.columns[i].name.as_str());
                    s.append("'");
                    return Err(ForgeError::Execution(s));
                },
                Err(ForgeError::NeedsFloat(f)) => {
                    return Err(ForgeError::NeedsFloat(f));
                },
                _ => {},
            }
        }
        i += 1;
    }
    Ok(())
}

/// The column of a table that an index of one column is on, going by the index's name.
pub open spec fn index_column(key: Seq<char>, table: Seq<char>, names: Seq<Seq<char>>) -> Option<
    int,
> {
    let p = pieces(key, '.');
    if p.len() == 2 && same_name(p[0], table) {
        name_from(names, p[1], 0)
    } else {
        None
    }
}

/// The column of a table that an index of one column is on.
pub fn find_index_column(key: &str, table: &str, schema: &Schema) -> (r: Option<usize>)
    ensures
        match r {
            Some(c) => c < schema.columns.len() && index_column(key@, table@, schema.names())
                == Some(c as int),
            None => index_column(key@, table@, schema.names()) is None,
        },
{
    let p = split_char(key, '.');
    let ghost pv = p.deep_view();
    if p.len() == 2 {
        assert(pv[0] == p@[0]@);
        assert(pv[1] == p@[1]@);
        if eq_ignore_ascii_case(p[0].as_str(), table) {
            return schema.get_column(p[1].as_str());
        }
    }
    None
}

/// How many of the columns from `i` on belong to the primary key.
pub open spec fn key_count(cols: Seq<Column>, i: int) -> int
    decreases cols.len() - i,
{
    if i < 0 || i >= cols.len() {
        0
    } else {
        key_count(cols, i + 1) + if cols[i].is_primary_key {
            1int
        } else {
            0
        }
    }
}

fn count_keys(schema: &Schema) -> (n: usize)
    ensures
        n == key_count(schema.columns@, 0),
{
    let ghost cols = schema.columns@;
    let mut n: usize = 0;
    let mut i: usize = 0;
    while i < schema.columns.len()
        invariant
            0 <= n <= i <= schema.columns.len(),
            cols == schema.columns@,
            n + key_count(cols, i as int) == key_count(cols, 0),
        decreases schema.columns.len() - i,
    {
        if schema.columns[i].is_primary_key {
            n += 1;
        }
        i += 1;
    }
    n
}

/// Whether a column must not hold a value twice: it is unique, or the primary key.
pub open spec fn unique_alone(s: Schema, c: int) -> bool {
    s.columns@[c].is_unique || (s.columns@[c].is_primary_key && key_count(s.columns@, 0) == 1)
}

/// The column of the first index from `i` on that must not hold a value twice and already has
/// that of the row, and the place for which it has it: another than `own`.
pub open spec fn duplicate_from(
    indexes: Seq<(Seq<char>, IndexView)>,
    i: int,
    table: Seq<char>,
    s: Schema,
    row: Seq<ValueView>,
    own: Option<RID>,
) -> Option<(int, RID)>
    decreases indexes.len() - i,
{
    if i < 0 || i >= indexes.len() {
        None
    } else {
        match index_column(indexes[i].0, table, s.names()) {
            Some(c) => if c < row.len() && !row[c].is_null() && unique_alone(s, c)
                && indexes[i].1.found(row[c]) is Some && indexes[i].1.found(row[c]) != own {
                Some((c, indexes[i].1.found(row[c])->0))
            } else {
                duplicate_from(indexes, i + 1, table, s, row, own)
            },
            None => duplicate_from(indexes, i + 1, table, s, row, own),
        }
    }
}

fn find_duplicate_value(
    indexes: &Vec<(String, BTreeIndex)>,
    table: &str,
    schema: &Schema,
    row: &Vec<Value>,
    own: Option<RID>,
) -> (r: Option<(usize, RID)>)
    ensures
        match r {
            Some(p) => p.0 < row.len() && p.0 < schema.columns.len() && duplicate_from(
                indexes.deep_view(),
                0,
                table@,
                *schema,
                row.deep_view(),
                own,
            ) == Some((p.0 as int, p.1)),
            None => duplicate_from(
                indexes.deep_view(),
                0,
                table@,
                *schema,
                row.deep_view(),
                own,
            ) is None,
        },
{
    let ghost iv = indexes.deep_view();
    let ghost rv = row.deep_view();
    let sole = count_keys(schema) == 1;
    let mut i: usize = 0;
    while i < indexes.len()
        invariant
            0 <= i <= indexes.len(),
            iv == indexes.deep_view(),
            rv == row.deep_view(),
            sole == (key_count(schema.columns@, 0) == 1),
            duplicate_from(iv, 0, table@, *schema, rv, own) == duplicate_from(
                iv,
                i as int,
                table@,
                *schema,
                rv,
                own,
            ),
        decreases indexes.len() - i,
    {
        assert(iv[i as int].0 == indexes@[i as int].0@);
        assert(iv[i as int].1 == indexes@[i as int].1.deep_view());
        if let Some(c) = find_index_column(indexes[i].0.as_str(), table, schema) {
            if c < row.len() {
                assert(rv[c as int] == row@[c as int]@);
                if !row[c].is_null() && (schema.columns[c].is_unique || (
                schema.columns[c].is_primary_key && sole)) {
                    if let Some(there) = indexes[i].1.search(&row[c]) {
                        let itself = match own {
                            Some(rid) => rid == there,
                            None => false,
                        };
                        if !itself {
                            return Some((c, there));
                        }
                    }
                }
            }
        }
        i += 1;
    }
    None
}

/// Whether two rows have the same values in all columns of the primary key.
pub open spec fn same_keys(cols: Seq<Column>, a: Seq<ValueView>, b: Seq<ValueView>) -> bool {
    forall|k: int|
        0 <= k < cols.len() && (#[trigger] cols[k]).is_primary_key ==> k < a.len() && k < b.len()
            && a[k].compare(b[k]) == Some(Order::Equal)
}

fn have_same_keys(schema: &Schema, a: &Vec<Value>, b: &Vec<Value>) -> (r: bool)
    ensures
        r == same_keys(schema.columns@, a.deep_view(), b.deep_view()),
{
    let ghost cols = schema.columns@;
    let ghost av = a.deep_view();
    let ghost bv = b.deep_view();
    let mut i: usize = 0;
    while i < schema.columns.len()
        invariant
            0 <= i <= schema.columns.len(),
            cols == schema.columns@,
            av == a.deep_view(),
            bv == b.deep_view(),
            forall|k: int|
                0 <= k < i && (#[trigger] cols[k]).is_primary_key ==> k < av.len() && k < bv.len()
                    && av[k].compare(bv[k]) == Some(Order::Equal),
        decreases schema.columns.len() - i,
    {
        if schema.columns[i].is_primary_key {
            let same: bool = if i < a.len() && i < b.len() {
                assert(av[i as int] == a@[i as int]@);
                assert(bv[i as int] == b@[i as int]@);
                match a[i].compare(&b[i]) {
                    Some(Order::Equal) => true,
                    _ => false,
                }
            } else {
                false
            };
            if !same {
                assert(cols[i as int].is_primary_key);
                return false;
            }
        }
        i += 1;
    }
    true
}

/// The place of the first tuple from `i` on, other than `own`, whose row has the keys of a row.
pub open spec fn taken_from(
    raws: Seq<RawView>,
    i: int,
    info: TableInfo,
    row: Seq<ValueView>,
    own: Option<RID>,
) -> Option<RID>
    decreases raws.len() - i,
{
    if i < 0 || i >= raws.len() {
        None
    } else if Some(raws[i].0) != own && (tuple_read(
        bare(raws[i].1, info.mvcc_enabled),
        types_of(info.schema),
    ) matches Ok(r) && same_keys(info.schema.columns@, r, row)) {
        Some(raws[i].0)
    } else {
        taken_from(raws, i + 1, info, row, own)
    }
}

/// The place of another row than the one at `own` that has the keys of a row, for a primary key
/// of several columns.
pub open spec fn key_taken(
    pages: Seq<PageView>,
    info: TableInfo,
    row: Seq<ValueView>,
    own: Option<RID>,
) -> Option<RID> {
    if key_count(info.schema.columns@, 0) < 2 {
        None
    } else {
        match table_tuples(pages, info.first_page_id.0) {
            Err(_) => None,
            Ok(raws) => taken_from(raws, 0, info, row, own),
        }
    }
}

fn find_taken(bpm: &BufferPool, info: &TableInfo, row: &Vec<Value>, own: Option<RID>) -> (r: Option<
    RID,
>)
    ensures
        r == key_taken(bpm@, *info, row.deep_view(), own),
        r is Some ==> forall|k: int|
            0 <= k < info.schema.columns.len() && (
            #[trigger] info.schema.columns@[k]).is_primary_key ==> k < row.len(),
{
    if count_keys(&info.schema) < 2 {
        return None;
    }
    let raws = match bpm.table_iterator(info.first_page_id) {
        Err(_) => {
            return None;
        },
        Ok(raws) => raws,
    };
    let ghost all = raws.deep_view();
    let ghost rv = row.deep_view();
    let mut i: usize = 0;
    while i < raws.len()
        invariant
            0 <= i <= raws.len(),
            all == raws.deep_view(),
            rv == row.deep_view(),
            taken_from(all, 0, *info, rv, own) == taken_from(all, i as int, *info, rv, own),
            key_taken(bpm@, *info, rv, own) == taken_from(all, 0, *info, rv, own),
        decreases raws.len() - i,
    {
        assert(all[i as int].0 == raws@[i as int].0);
        assert(all[i as int].1 =~= raws@[i as int].1@);
        let itself = match own {
            Some(rid) => rid == raws[i].0,
            None => false,
        };
        if !itself {
            let part = bare_part(raws[i].1.as_slice(), info.mvcc_enabled);
            if let Ok(there) = deserialize(part, &info.schema) {
                if have_same_keys(&info.schema, &there, row) {
                    assert(rv.len() == row.len());
                    return Some(raws[i].0);
                }
            }
        }
        i += 1;
    }
    None
}

/// The first column of the primary key, from `i` on.
pub open spec fn key_column_from(cols: Seq<Column>, i: int) -> int
    decreases cols.len() - i,
{
    if i < 0 || i >= cols.len() {
        0
    } else if cols[i].is_primary_key {
        i
    } else {
        key_column_from(cols, i + 1)
    }
}

proof fn lemma_key_column(cols: Seq<Column>, i: int)
    requires
        0 <= i,
        key_count(cols, i) > 0,
    ensures
        i <= key_column_from(cols, i) < cols.len(),
        cols[key_column_from(cols, i)].is_primary_key,
    decreases cols.len() - i,
{
    if i < cols.len() && !cols[i].is_primary_key {
        lemma_key_column(cols, i + 1);
    }
}

fn find_key_column(schema: &Schema) -> (r: usize)
    ensures
        r == key_column_from(schema.columns@, 0),
{
    let ghost cols = schema.columns@;
    let mut i: usize = 0;
    while i < schema.columns.len()
        invariant
            0 <= i <= schema.columns.len(),
            cols == schema.columns@,
            key_column_from(cols, 0) == key_column_from(cols, i as int),
        decreases schema.columns.len() - i,
    {
        if schema.columns[i].is_primary_key {
            return i;
        }
        i += 1;
    }
    0
}

/// A column in which a row has a value that must not be there twice and is, or the first of the
/// primary key if its values together are there, and the place of the row that has it: another
/// than `own`.
pub open spec fn duplicate(
    st: StateView,
    info: TableInfo,
    table: Seq<char>,
    row: Seq<ValueView>,
    own: Option<RID>,
) -> Option<(int, RID)> {
    match duplicate_from(st.indexes, 0, table, info.schema, row, own) {
        Some(p) => Some(p),
        None => match key_taken(st.pages, info, row, own) {
            Some(rid) => Some((key_column_from(info.schema.columns@, 0), rid)),
            None => None,
        },
    }
}

/// A column in which a row has a value that must not be there twice and is, and the place of the
/// row that has it: another than `own`.
pub fn find_duplicate(
    ctx: &DmlContext,
    info: &TableInfo,
    table: &str,
    row: &Vec<Value>,
    own: Option<RID>,
) -> (r: Option<(usize, RID)>)
    ensures
        match r {
            Some(p) => p.0 < row.len() && p.0 < info.schema.columns.len() && duplicate(
                ctx@,
                *info,
                table@,
                row.deep_view(),
                own,
            ) == Some((p.0 as int, p.1)),
            None => duplicate(ctx@, *info, table@, row.deep_view(), own) is None,
        },
{
    match find_duplicate_value(&ctx.indexes, table, &info.schema, row, own) {
        Some(p) => Some(p),
        None => match find_taken(&ctx.bpm, info, row, own) {
            None => None,
            Some(rid) => {
                proof {
                    lemma_key_column(info.schema.columns@, 0);
                }
                Some((find_key_column(&info.schema), rid))
            },
        },
    }
}

/// The complaint about a value that a column already has.
pub open spec fn duplicate_complaint(v: ValueView, column: Seq<char>, h: HostView) -> ErrorView {
    match value_text(v, h) {
        Err(e) => e,
        Ok(t) => ErrorView::Execution("duplicate entry '"@ + t + "' for key '"@ + column + "'"@),
    }
}

/// The complaint about a value that a column already has.
pub fn complain_duplicate(v: &Value, column: &str, host: &Host) -> (e: ForgeError)
    ensures
        e@ == duplicate_complaint(v@, column@, host@),
{
    match show(v, host) {
        Err(e) => e,
        Ok(t) => {
            let mut s = "duplicate entry '".to_owned();
            s.append(t.as_str());
            s.append("' for key '");
            s.append(column);
            s.append("'");
            ForgeError::Execution(s)
        },
    }
}

// ---------------------------------------------------------------------------
// References
// ---------------------------------------------------------------------------

/// The part of a stored tuple that holds its row, whatever its version.
pub open spec fn bare(raw: Seq<u8>, mvcc: bool) -> Seq<u8> {
    if mvcc && raw.len() >= MVCC_HEADER_SIZE {
        raw.skip(MVCC_HEADER_SIZE as int)
    } else {
        raw
    }
}

/// The part of a stored tuple that holds its row, whatever its version.
pub fn bare_part<'a>(raw: &'a [u8], mvcc: bool) -> (r: &'a [u8])
    ensures
        r@ == bare(raw@, mvcc),
{
    if mvcc && raw.len() >= MVCC_HEADER_SIZE {
        let d = vstd::slice::slice_subrange(raw, MVCC_HEADER_SIZE, raw.len());
        assert(d@ =~= raw@.skip(MVCC_HEADER_SIZE as int));
        d
    } else {
        raw
    }
}

/// Whether a column of the row of a stored tuple holds a value.
pub open spec fn holds(
    raw: Seq<u8>,
    mvcc: bool,
    types: Seq<DataType>,
    col: int,
    v: ValueView,
) -> bool {
    match tuple_read(bare(raw, mvcc), types) {
        Ok(row) => col < row.len() && row[col].compare(v) == Some(Order::Equal),
        Err(_) => false,
    }
}

/// The row of a stored tuple, if a column of it holds a value.
pub fn row_holding(raw: &[u8], info: &TableInfo, col: usize, v: &Value) -> (r: Option<Vec<Value>>)
    ensures
        r is Some == holds(raw@, info.mvcc_enabled, types_of(info.schema), col as int, v@),
        r is Some ==> tuple_read(bare(raw@, info.mvcc_enabled), types_of(info.schema)) == Ok::<
            Seq<ValueView>,
            ErrorView,
        >(r->0.deep_view()) && col < r->0.len(),
{
    let d = bare_part(raw, info.mvcc_enabled);
    match deserialize(d, &info.schema) {
        Err(_) => None,
        Ok(row) => {
            if col < row.len() {
                assert(row.deep_view()[col as int] == row@[col as int]@);
                let same = match row[col].compare(v) {
                    Some(Order::Equal) => true,
                    _ => false,
                };
                if same {
                    return Some(row);
                }
            }
            None
        },
    }
}

/// Whether one of the tuples from `i` on has a row with a value in a column.
pub open spec fn held_from(
    raws: Seq<RawView>,
    i: int,
    mvcc: bool,
    types: Seq<DataType>,
    col: int,
    v: ValueView,
) -> bool
    decreases raws.len() - i,
{
    0 <= i < raws.len() && (holds(raws[i].1, mvcc, types, col, v) || held_from(
        raws,
        i + 1,
        mvcc,
        types,
        col,
        v,
    ))
}

/// The first index whose name in lowercase is the given one, from `i` on.
pub open spec fn index_named(indexes: Seq<(Seq<char>, IndexView)>, key: Seq<char>, i: int) -> Option<
    int,
>
    decreases indexes.len() - i,
{
    if i < 0 || i >= indexes.len() {
        None
    } else if lower_text(indexes[i].0) == key {
        Some(i)
    } else {
        index_named(indexes, key, i + 1)
    }
}

/// The first index whose name in lowercase is the given one.
pub fn find_index(indexes: &Vec<(String, BTreeIndex)>, key: &str) -> (r: Option<usize>)
    ensures
        match r {
            Some(k) => k < indexes.len() && index_named(indexes.deep_view(), key@, 0) == Some(
                k as int,
            ),
            None => index_named(indexes.deep_view(), key@, 0) is None,
        },
{
    let ghost iv = indexes.deep_view();
    let mut i: usize = 0;
    while i < indexes.len()
        invariant
            0 <= i <= indexes.len(),
            iv == indexes.deep_view(),
            index_named(iv, key@, 0) == index_named(iv, key@, i as int),
        decreases indexes.len() - i,
    {
        assert(iv[i as int].0 == indexes@[i as int].0@);
        if same_text(indexes[i].0.as_str().to_lowercase().as_str(), key) {
            return Some(i);
        }
        i += 1;
    }
    None
}

/// Whether a value occurs in a column of a table, going by the index on the column, or by
/// the rows.
pub open spec fn occurs(
    pages: Seq<PageView>,
    indexes: Seq<(Seq<char>, IndexView)>,
    info: TableInfo,
    key: Seq<char>,
    col: int,
    v: ValueView,
) -> bool {
    ||| match index_named(indexes, key, 0) {
        Some(k) => indexes[k].1.found(v) is Some,
        None => false,
    }
    ||| match table_tuples(pages, info.first_page_id.0) {
        Ok(raws) => held_from(raws, 0, info.mvcc_enabled, types_of(info.schema), col, v),
        Err(_) => false,
    }
}

fn value_occurs(ctx: &DmlContext, info: &TableInfo, key: &str, col: usize, v: &Value) -> (r: bool)
    ensures
        r == occurs(ctx@.pages, ctx@.indexes, *info, key@, col as int, v@),
{
    if let Some(k) = find_index(&ctx.indexes, key) {
        assert(ctx@.indexes[k as int].1 == ctx.indexes@[k as int].1.deep_view());
        if ctx.indexes[k].1.search(v).is_some() {
            return true;
        }
    }
    match ctx.bpm.table_iterator(info.first_page_id) {
        Err(_) => false,
        Ok(raws) => {
            let ghost rv = raws.deep_view();
            let ghost types = types_of(info.schema);
            let mut i: usize = 0;
            while i < raws.len()
                invariant
                    0 <= i <= raws.len(),
                    rv == raws.deep_view(),
                    types == types_of(info.schema),
                    held_from(rv, 0, info.mvcc_enabled, types, col as int, v@) == held_from(
                        rv,
                        i as int,
                        info.mvcc_enabled,
                        types,
                        col as int,
                        v@,
                    ),
                    table_tuples(ctx@.pages, info.first_page_id.0) == Ok::<
                        Seq<RawView>,
                        ErrorView,
                    >(rv),
                decreases raws.len() - i,
            {
                assert(rv[i as int].1 =~= raws@[i as int].1@);
                if row_holding(raws[i].1.as_slice(), info, col, v).is_some() {
                    return true;
                }
                i += 1;
            }
            false
        },
    }
}

/// The complaint of the first reference from column `i` on whose value the other table lacks.
pub open spec fn reference_complaint(
    c: Catalog,
    st: StateView,
    cols: Seq<Column>,
    i: int,
    row: Seq<ValueView>,
    h: HostView,
) -> Option<ErrorView>
    decreases cols.len() - i,
{
    if i < 0 || i >= cols.len() {
        None
    } else if i < row.len() && !row[i].is_null() && cols[i].fk_ref is Some && lacks(
        c,
        st,
        (cols[i].fk_ref->0).0@,
        (cols[i].fk_ref->0).1@,
        row[i],
    ) {
        Some(
            lack_complaint(row[i], (cols[i].fk_ref->0).0@, (cols[i].fk_ref->0).1@, h),
        )
    } else {
        reference_complaint(c, st, cols, i + 1, row, h)
    }
}

/// Whether a table and its column are there but not the value.
pub open spec fn lacks(
    c: Catalog,
    st: StateView,
    table: Seq<char>,
    column: Seq<char>,
    v: ValueView,
) -> bool {
    match table_of(c, table) {
        None => false,
        Some(p) => match name_from(p.schema.names(), column, 0) {
            None => false,
            Some(k) => !occurs(st.pages, st.indexes, p, counter_key(table, column), k, v),
        },
    }
}

/// The complaint about a value that another table lacks.
pub open spec fn lack_complaint(
    v: ValueView,
    table: Seq<char>,
    column: Seq<char>,
    h: HostView,
) -> ErrorView {
    match value_text(v, h) {
        Err(e) => e,
        Ok(t) => ErrorView::Execution(
            "foreign key constraint violated: value '"@ + t + "' not found in "@ + table + "."@
                + column,
        ),
    }
}

/// Tests that the tables that a row refers to have its values.
pub fn validate_references(
    catalog: &Catalog,
    ctx: &DmlContext,
    schema: &Schema,
    row: &Vec<Value>,
    host: &Host,
) -> (r: std::result::Result<(), ForgeError>)
    ensures
        match r {
            Ok(_) => reference_complaint(
                *catalog,
                ctx@,
                schema.columns@,
                0,
                row.deep_view(),
                host@,
            ) is None,
            Err(e) => reference_complaint(
                *catalog,
                ctx@,
                schema.columns@,
                0,
                row.deep_view(),
                host@,
            ) == Some(e@),
        },
{
    let ghost rv = row.deep_view();
    let mut i: usize = 0;
    while i < schema.columns.len()
        invariant
            0 <= i <= schema.columns.len(),
            rv == row.deep_view(),
            reference_complaint(*catalog, ctx@, schema.columns@, 0, rv, host@)
                == reference_complaint(*catalog, ctx@, schema.columns@, i as int, rv, host@),
        decreases schema.columns.len() - i,
    {
        assert(i < row.len() ==> rv[i as int] == row@[i as int]@);
        if i < row.len() && !row[i].is_null() {
            if let Some(f) = &schema.columns[i].fk_ref {
                if value_lacks(catalog, ctx, f.0.as_str(), f.1.as_str(), &row[i]) {
                    return Err(complain_lack(&row[i], f.0.as_str(), f.1.as_str(), host));
                }
            }
        }
        i += 1;
    }
    Ok(())
}

fn value_lacks(catalog: &Catalog, ctx: &DmlContext, table: &str, column: &str, v: &Value) -> (r:
    bool)
    ensures
        r == lacks(*catalog, ctx@, table@, column@, v@),
{
    match find_table(catalog, table) {
        Err(_) => false,
        Ok(p) => match p.schema.get_column(column) {
            None => false,
            Some(k) => {
                let mut key = table.to_lowercase();
                key.append(".");
                key.append(column.to_lowercase().as_str());
                !value_occurs(ctx, p, key.as_str(), k, v)
            },
        },
    }
}

fn complain_lack(v: &Value, table: &str, column: &str, host: &Host) -> (e: ForgeError)
    ensures
        e@ == lack_complaint(v@, table@, column@, host@),
{
    match show(v, host) {
        Err(e) => e,
        Ok(t) => {
            let mut s = "foreign key constraint violated: value '".to_owned();
            s.append(t.as_str());
            s.append("' not found in ");
            s.append(table);
            s.append(".");
            s.append(column);
            ForgeError::Execution(s)
        },
    }
}

// ---------------------------------------------------------------------------
// Storing a row
// ---------------------------------------------------------------------------

/// The indexes of a table with a row entered.
pub open spec fn entered(
    indexes: Seq<(Seq<char>, IndexView)>,
    table: Seq<char>,
    names: Seq<Seq<char>>,
    row: Seq<ValueView>,
    rid: RID,
) -> Seq<(Seq<char>, IndexView)> {
    Seq::new(
        indexes.len(),
        |i: int| enter(indexes[i], table, names, row, rid),
    )
}

/// One index with a row entered, if it is on columns of the table.
pub open spec fn enter(
    index: (Seq<char>, IndexView),
    table: Seq<char>,
    names: Seq<Seq<char>>,
    row: Seq<ValueView>,
    rid: RID,
) -> (Seq<char>, IndexView) {
    match key_in(index.0, index.1.columns, table, names, row) {
        Some(v) => (index.0, index.1.with(v, rid)),
        None => index,
    }
}

/// Enters a row into the indexes of its table.
pub fn enter_row(
    indexes: &mut Vec<(String, BTreeIndex)>,
    table: &str,
    schema: &Schema,
    row: &Vec<Value>,
    rid: RID,
)
    ensures
        final(indexes).deep_view() == entered(
            old(indexes).deep_view(),
            table@,
            schema.names(),
            row.deep_view(),
            rid,
        ),
{
    let ghost start = indexes.deep_view();
    let ghost rv = row.deep_view();
    let ghost all = entered(start, table@, schema.names(), rv, rid);
    let mut i: usize = 0;
    while i < indexes.len()
        invariant
            0 <= i <= indexes.len(),
            indexes.len() == start.len(),
            rv == row.deep_view(),
            all == entered(start, table@, schema.names(), rv, rid),
            forall|k: int| 0 <= k < i ==> (#[trigger] indexes@[k]).deep_view() == all[k],
            forall|k: int| i <= k < start.len() ==> (#[trigger] indexes@[k]).deep_view()
                == start[k],
        decreases indexes.len() - i,
    {
        assert(start[i as int].0 == indexes@[i as int].0@);
        let key = find_key_in(indexes[i].0.as_str(), &indexes[i].1.columns, table, schema, row);
        if let Some(v) = key {
            indexes[i].1.insert(&v, rid);
        }
        i += 1;
    }
    assert(indexes.deep_view() =~= all);
}

/// The bytes of a row as a table keeps them: versioned tables put a header before them.
pub open spec fn versioned(data: Seq<u8>, mvcc: bool, xmin: u64) -> Seq<u8> {
    if mvcc {
        version_header(xmin, XMAX_NONE) + data
    } else {
        data
    }
}

/// The bytes of a row as a table keeps them.
pub fn put_version(data: &Vec<u8>, mvcc: bool, xmin: u64) -> (r: Vec<u8>)
    ensures
        r@ == versioned(data@, mvcc, xmin),
{
    let mut full: Vec<u8> = Vec::new();
    if mvcc {
        put_version_header(&mut full, xmin, XMAX_NONE);
        assert(full@ =~= version_header(xmin, XMAX_NONE));
    }
    put_bytes(&mut full, data.as_slice());
    assert(full@ =~= versioned(data@, mvcc, xmin));
    full
}

/// The number of the transaction, zero outside of one.
pub open spec fn txn_number(t: Option<TxnView>) -> u64 {
    match t {
        Some(t) => t.txn_id.0,
        None => 0,
    }
}

/// A transaction with one change more to undo.
pub open spec fn noted(t: Option<TxnView>, u: UndoView) -> Option<TxnView> {
    match t {
        Some(t) => Some(TxnView { undo_log: t.undo_log.push(u), ..t }),
        None => None,
    }
}

/// Notes a change to undo.
pub fn note(txn: &mut Option<TxnContext>, u: UndoEntry)
    ensures
        final(txn).deep_view() == noted(old(txn).deep_view(), u.deep_view()),
{
    if let Some(t) = txn {
        let ghost before = t.undo_log.deep_view();
        let ghost uv = u.deep_view();
        t.undo_log.push(u);
        assert(t.undo_log.deep_view() =~= before.push(uv));
    }
}

/// A row stored in a table and entered into its indexes.
pub open spec fn row_stored(
    st: StateView,
    info: TableInfo,
    table: Seq<char>,
    row: Seq<ValueView>,
    h: HostView,
) -> Step<RID> {
    match serialized(row, info.schema, h) {
        Err(e) => Step { state: st, result: Err(e) },
        Ok(data) => {
            let c = tuple_inserted(
                st.pages,
                st.next_page,
                info.first_page_id.0,
                versioned(data, info.mvcc_enabled, txn_number(st.txn)),
            );
            match c.result {
                Err(e) => Step {
                    state: StateView { pages: c.pages, next_page: c.next, ..st },
                    result: Err(e),
                },
                Ok(rid) => Step {
                    state: StateView {
                        pages: c.pages,
                        next_page: c.next,
                        indexes: entered(st.indexes, table, info.schema.names(), row, rid),
                        clustered: st.clustered,
                        counters: st.counters,
                        txn: noted(st.txn, UndoView::InsertUndo { table_name: table, rid }),
                    },
                    result: Ok(rid),
                },
            }
        },
    }
}

fn store_row(
    ctx: &mut DmlContext,
    info: &TableInfo,
    table: &str,
    row: &Vec<Value>,
    host: &Host,
) -> (r: Result<RID>)
    ensures
        row_stored(old(ctx)@, *info, table@, row.deep_view(), host@) == (Step {
            state: final(ctx)@,
            result: outcome(r),
        }),
{
    let data = serialize(row, &info.schema, host)?;
    proof {
        lemma_bytes_deep(data);
    }
    let xmin: u64 = match &ctx.txn_ctx {
        Some(t) => t.txn_id.0,
        None => 0,
    };
    let full = put_version(&data, info.mvcc_enabled, xmin);
    let rid = ctx.bpm.insert_tuple(info.first_page_id, full.as_slice())?;
    let u = UndoEntry::InsertUndo { table_name: table.to_owned(), rid };
    note(&mut ctx.txn_ctx, u);
    enter_row(&mut ctx.indexes, table, &info.schema, row, rid);
    Ok(rid)
}

// ---------------------------------------------------------------------------
// INSERT
// ---------------------------------------------------------------------------

/// The row at a place changed in the way of an UPDATE, in place of a row with the same key. That
/// counts as one row.
pub open spec fn row_merged(
    st: StateView,
    c: Catalog,
    info: TableInfo,
    table: Seq<char>,
    assignments: Seq<(String, Expr)>,
    rid: RID,
    last: u64,
    h: HostView,
) -> Step<(int, u64)> {
    match row_at(st.pages, info, rid) {
        Err(e) => Step { state: st, result: Err(e) },
        Ok(row) => {
            let step = row_updated(st, c, info, table, assignments, (rid, row), h);
            Step {
                state: step.state,
                result: match step.result {
                    Err(e) => Err(e),
                    Ok(_) => Ok((1, last)),
                },
            }
        },
    }
}

/// One row put into a table. The result says how many rows that counts as, and the last
/// number given out.
pub open spec fn row_inserted(
    st: StateView,
    c: Catalog,
    info: TableInfo,
    table: Seq<char>,
    exprs: Seq<Expr>,
    columns: Option<Seq<Seq<char>>>,
    conflict: Option<OnConflict>,
    last: u64,
    h: HostView,
) -> Step<(int, u64)> {
    let s = info.schema;
    match row_given(exprs, columns, s.names(), h) {
        Err(e) => Step { state: st, result: Err(e) },
        Ok(given) => {
            let n = numbered_from(s.columns@, 0, table, given, st.counters, last);
            let counted = StateView { counters: n.counters, ..st };
            let row = defaulted(s.columns@, n.row);
            if !n.complete {
                Step {
                    state: counted,
                    result: Err(ErrorView::Execution("auto-increment number out of range"@)),
                }
            } else if check_complaint(s.columns@, 0, row, s.names(), h) is Some {
                Step {
                    state: counted,
                    result: Err(check_complaint(s.columns@, 0, row, s.names(), h)->0),
                }
            } else if duplicate(counted, info, table, row, None) is Some {
                let (col, rid) = duplicate(counted, info, table, row, None)->0;
                match conflict {
                    None => Step {
                        state: counted,
                        result: Err(duplicate_complaint(row[col], s.columns@[col].name@, h)),
                    },
                    Some(o) => match o.action {
                        OnConflictAction::DoNothing => Step {
                            state: counted,
                            result: Ok((0, n.last)),
                        },
                        OnConflictAction::DoUpdate(assignments) => row_merged(
                            counted,
                            c,
                            info,
                            table,
                            assignments@,
                            rid,
                            n.last,
                            h,
                        ),
                    },
                }
            } else if reference_complaint(c, counted, s.columns@, 0, row, h) is Some {
                Step {
                    state: counted,
                    result: Err(reference_complaint(c, counted, s.columns@, 0, row, h)->0),
                }
            } else {
                let stored = row_stored(counted, info, table, row, h);
                Step {
                    state: stored.state,
                    result: match stored.result {
                        Err(e) => Err(e),
                        Ok(rid) => Ok((1, n.last)),
                    },
                }
            }
        },
    }
}

fn insert_row(
    ctx: &mut DmlContext,
    catalog: &Catalog,
    info: &TableInfo,
    table: &str,
    exprs: &Vec<Expr>,
    columns: &Option<Vec<String>>,
    on_conflict: &Option<OnConflict>,
    last: u64,
    host: &Host,
) -> (r: std::result::Result<(usize, u64), ForgeError>)
    ensures
        ({
            let step = row_inserted(
                old(ctx)@,
                *catalog,
                *info,
                table@,
                exprs@,
                columns.deep_view(),
                *on_conflict,
                last,
                host@,
            );
            &&& step.state == final(ctx)@
            &&& match r {
                Ok(p) => p.0 <= 1 && step.result == Ok::<(int, u64), ErrorView>(
                    (p.0 as int, p.1),
                ),
                Err(e) => step.result == Err::<(int, u64), ErrorView>(e@),
            }
        }),
{
    let ghost st = ctx@;
    let mut row = give_row(exprs, columns, &info.schema, host)?;
    let ghost given = row.deep_view();
    let (complete, newest) = number_row(
        &info.schema,
        table,
        &mut row,
        &mut ctx.auto_increment_counters,
        last,
    );
    let ghost n = numbered_from(info.schema.columns@, 0, table@, given, st.counters, last);
    let ghost counted = StateView { counters: n.counters, ..st };
    assert(ctx@ == counted);
    if !complete {
        return Err(ForgeError::Execution("auto-increment number out of range".to_owned()));
    }
    put_defaults(&info.schema, &mut row);
    validate_checks(&info.schema, &row, host)?;
    if let Some((col, rid)) = find_duplicate(ctx, info, table, &row, None) {
        return match on_conflict {
            None => {
                assert(row.deep_view()[col as int] == row@[col as int]@);
                Err(
                    complain_duplicate(
                        &row[col],
                        info.schema.columns[col].name.as_str(),
                        host,
                    ),
                )
            },
            Some(oc) => match &oc.action {
                OnConflictAction::DoNothing => Ok((0, newest)),
                OnConflictAction::DoUpdate(assignments) => {
                    let there = read_row_at(&ctx.bpm, info, rid)?;
                    update_row(ctx, catalog, info, table, assignments, rid, &there, host)?;
                    Ok((1, newest))
                },
            },
        };
    }
    validate_references(catalog, ctx, &info.schema, &row, host)?;
    let _ = store_row(ctx, info, table, &row, host)?;
    Ok((1, newest))
}

/// The rows from `i` on put into a table, after `count` of them. A row that fails ends the
/// statement; the rows before it stay.
pub open spec fn rows_inserted(
    st: StateView,
    c: Catalog,
    info: TableInfo,
    table: Seq<char>,
    values: Seq<Vec<Expr>>,
    i: int,
    columns: Option<Seq<Seq<char>>>,
    conflict: Option<OnConflict>,
    count: int,
    last: u64,
    h: HostView,
) -> Step<ResultView>
    decreases values.len() - i,
{
    if i < 0 || i >= values.len() {
        Step { state: st, result: Ok(affected(count, last)) }
    } else {
        let step = row_inserted(st, c, info, table, values[i]@, columns, conflict, last, h);
        match step.result {
            Err(e) => Step { state: step.state, result: Err(e) },
            Ok(p) => rows_inserted(
                step.state,
                c,
                info,
                table,
                values,
                i + 1,
                columns,
                conflict,
                count + p.0,
                p.1,
                h,
            ),
        }
    }
}

/// What an INSERT does and gives back.
pub open spec fn inserted(
    st: StateView,
    c: Catalog,
    table: Seq<char>,
    columns: Option<Seq<Seq<char>>>,
    values: Seq<Vec<Expr>>,
    conflict: Option<OnConflict>,
    h: HostView,
) -> Step<ResultView> {
    match table_of(c, table) {
        None => Step { state: st, result: Err(no_table(table)) },
        Some(info) => rows_inserted(
            st,
            c,
            info,
            table,
            values,
            0,
            columns,
            conflict,
            0,
            0,
            h,
        ),
    }
}

/// Execute INSERT statement.
///
/// A request for a floating-point result may come after some rows were put in: then the
/// statement is to be executed again on the state from before it.
pub fn execute_insert(
    table_name: &str,
    columns: &Option<Vec<String>>,
    values: &Vec<Vec<Expr>>,
    catalog: &Catalog,
    ctx: &mut DmlContext,
    on_conflict: &Option<OnConflict>,
    host: &Host,
) -> (r: Result<ExecuteResult>)
    ensures
        inserted(
            old(ctx)@,
            *catalog,
            table_name@,
            columns.deep_view(),
            values@,
            *on_conflict,
            host@,
        ) == (Step { state: final(ctx)@, result: outcome(r) }),
{
    let info = find_table(catalog, table_name)?;
    let ghost cols = columns.deep_view();
    let ghost conflict = *on_conflict;
    let ghost all = rows_inserted(
        ctx@,
        *catalog,
        *info,
        table_name@,
        values@,
        0,
        cols,
        conflict,
        0,
        0,
        host@,
    );
    let mut count: usize = 0;
    let mut last: u64 = 0;
    let mut i: usize = 0;
    while i < values.len()
        invariant
            0 <= i <= values.len(),
            count <= i,
            cols == columns.deep_view(),
            conflict == *on_conflict,
            table_of(*catalog, table_name@) == Some(*info),
            all == inserted(
                old(ctx)@,
                *catalog,
                table_name@,
                cols,
                values@,
                conflict,
                host@,
            ),
            all == rows_inserted(
                ctx@,
                *catalog,
                *info,
                table_name@,
                values@,
                i as int,
                cols,
                conflict,
                count as int,
                last,
                host@,
            ),
        decreases values.len() - i,
    {
        let (n, newest) = insert_row(
            ctx,
            catalog,
            info,
            table_name,
            &values[i],
            columns,
            on_conflict,
            last,
            host,
        )?;
        count += n;
        last = newest;
        i += 1;
    }
    Ok(affected_result(count, last))
}

// ---------------------------------------------------------------------------
// Laws
// ---------------------------------------------------------------------------

proof fn lemma_rows_of_longer(
    raws: Seq<RawView>,
    x: RawView,
    i: int,
    mvcc: bool,
    txn: Option<TxnView>,
    types: Seq<DataType>,
    acc: Seq<RowView>,
)
    requires
        0 <= i <= raws.len(),
        rows_from(raws, i, mvcc, txn, types, None, acc) is Ok,
        live(x.1, mvcc, txn) is Some,
        tuple_read(live(x.1, mvcc, txn)->0, types) is Ok,
    ensures
        rows_from(raws.push(x), i, mvcc, txn, types, None, acc) == Ok::<Seq<RowView>, ErrorView>(
            rows_from(raws, i, mvcc, txn, types, None, acc)->Ok_0.push(
                (x.0, tuple_read(live(x.1, mvcc, txn)->0, types)->Ok_0),
            ),
        ),
    decreases raws.len() - i,
{
    let longer = raws.push(x);
    if i < raws.len() {
        assert(longer[i] == raws[i]);
        match live(raws[i].1, mvcc, txn) {
            None => lemma_rows_of_longer(raws, x, i + 1, mvcc, txn, types, acc),
            Some(d) => {
                let more = acc.push((raws[i].0, tuple_read(d, types)->Ok_0));
                lemma_rows_of_longer(raws, x, i + 1, mvcc, txn, types, more);
            },
        }
    } else {
        assert(longer[i] == x);
        let more = acc.push((x.0, tuple_read(live(x.1, mvcc, txn)->0, types)->Ok_0));
        assert(rows_from(longer, i + 1, mvcc, txn, types, None, more) == Ok::<
            Seq<RowView>,
            ErrorView,
        >(more));
    }
}

/// A row that was stored is read from its table, behind the rows that were there before, with
/// its values as the columns store them: by its own transaction, by every one that sees that
/// transaction, and outside of transactions.
pub proof fn law_stored_row_is_read(
    st: StateView,
    info: TableInfo,
    table: Seq<char>,
    row: Seq<ValueView>,
    reader: Option<TxnView>,
    h: HostView,
)
    requires
        ids_below(st.pages, st.next_page),
        reader matches Some(t) ==> t.snapshot.sees(txn_number(st.txn)),
        row_stored(st, info, table, row, h).result is Ok,
        forall|i: int|
            0 <= i < row.len() ==> value_fits(
                #[trigger] stored_from(row, info.schema, 0, Seq::empty(), h)->Ok_0[i],
            ),
        rows_from(
            table_tuples(st.pages, info.first_page_id.0)->Ok_0,
            0,
            info.mvcc_enabled,
            reader,
            types_of(info.schema),
            None,
            Seq::empty(),
        ) is Ok,
    ensures
        ({
            let after = row_stored(st, info, table, row, h);
            let stored = stored_from(row, info.schema, 0, Seq::empty(), h);
            &&& stored is Ok
            &&& table_tuples(after.state.pages, info.first_page_id.0) is Ok
            &&& rows_from(
                table_tuples(after.state.pages, info.first_page_id.0)->Ok_0,
                0,
                info.mvcc_enabled,
                reader,
                types_of(info.schema),
                None,
                Seq::empty(),
            ) == Ok::<Seq<RowView>, ErrorView>(
                rows_from(
                    table_tuples(st.pages, info.first_page_id.0)->Ok_0,
                    0,
                    info.mvcc_enabled,
                    reader,
                    types_of(info.schema),
                    None,
                    Seq::empty(),
                )->Ok_0.push((after.result->Ok_0, stored->Ok_0)),
            )
        }),
{
    let types = types_of(info.schema);
    let stored = stored_from(row, info.schema, 0, Seq::empty(), h)->Ok_0;
    let data = tuple_bytes(stored);
    let raw = versioned(data, info.mvcc_enabled, txn_number(st.txn));
    law_inserted_tuple_is_read(st.pages, st.next_page, info.first_page_id.0, raw);
    let rid = row_stored(st, info, table, row, h).result->Ok_0;
    law_version_header_round_trip(txn_number(st.txn), XMAX_NONE, data);
    assert(live(raw, info.mvcc_enabled, reader) == Some(data));
    lemma_stored_types(row, info.schema, 0, Seq::empty(), h);
    assert(row_fits(stored, types));
    law_tuple_round_trip(stored, types);
    lemma_rows_of_longer(
        table_tuples(st.pages, info.first_page_id.0)->Ok_0,
        (rid, raw),
        0,
        info.mvcc_enabled,
        reader,
        types,
        Seq::empty(),
    );
}

/// A row that was stored in a versioned table is not read in a transaction that does not see the
/// one that stored it: the rows there are those that were there before.
pub proof fn law_unseen_row_is_not_read(
    st: StateView,
    info: TableInfo,
    table: Seq<char>,
    row: Seq<ValueView>,
    reader: TxnView,
    h: HostView,
)
    requires
        ids_below(st.pages, st.next_page),
        info.mvcc_enabled,
        !reader.snapshot.sees(txn_number(st.txn)),
        row_stored(st, info, table, row, h).result is Ok,
    ensures
        ({
            let after = row_stored(st, info, table, row, h);
            &&& table_tuples(st.pages, info.first_page_id.0) is Ok
            &&& table_tuples(after.state.pages, info.first_page_id.0) is Ok
            &&& rows_from(
                table_tuples(after.state.pages, info.first_page_id.0)->Ok_0,
                0,
                true,
                Some(reader),
                types_of(info.schema),
                None,
                Seq::empty(),
            ) == rows_from(
                table_tuples(st.pages, info.first_page_id.0)->Ok_0,
                0,
                true,
                Some(reader),
                types_of(info.schema),
                None,
                Seq::empty(),
            )
        }),
{
    let data = serialized(row, info.schema, h)->Ok_0;
    let raw = versioned(data, true, txn_number(st.txn));
    law_inserted_tuple_is_read(st.pages, st.next_page, info.first_page_id.0, raw);
    let rid = row_stored(st, info, table, row, h).result->Ok_0;
    law_version_header_round_trip(txn_number(st.txn), XMAX_NONE, data);
    assert(live(raw, true, Some(reader)) is None);
    lemma_rows_of_unseen(
        table_tuples(st.pages, info.first_page_id.0)->Ok_0,
        (rid, raw),
        0,
        Some(reader),
        types_of(info.schema),
        Seq::empty(),
    );
}

proof fn lemma_rows_of_unseen(
    raws: Seq<RawView>,
    x: RawView,
    i: int,
    txn: Option<TxnView>,
    types: Seq<DataType>,
    acc: Seq<RowView>,
)
    requires
        0 <= i <= raws.len(),
        live(x.1, true, txn) is None,
    ensures
        rows_from(raws.push(x), i, true, txn, types, None, acc) == rows_from(
            raws,
            i,
            true,
            txn,
            types,
            None,
            acc,
        ),
    decreases raws.len() - i,
{
    let longer = raws.push(x);
    if i < raws.len() {
        assert(longer[i] == raws[i]);
        match live(raws[i].1, true, txn) {
            None => lemma_rows_of_unseen(raws, x, i + 1, txn, types, acc),
            Some(d) => {
                if let Ok(row) = tuple_read(d, types) {
                    lemma_rows_of_unseen(raws, x, i + 1, txn, types, acc.push((raws[i].0, row)));
                }
            },
        }
    } else {
        assert(longer[i] == x);
        assert(rows_from(longer, i + 1, true, txn, types, None, acc) == Ok::<
            Seq<RowView>,
            ErrorView,
        >(acc));
    }
}

/// What a column stores is NULL or of the column's type.
proof fn lemma_stored_types(
    vals: Seq<ValueView>,
    s: Schema,
    i: int,
    acc: Seq<ValueView>,
    h: HostView,
)
    requires
        0 <= i <= vals.len(),
        vals.len() == s.columns@.len(),
        acc.len() == i,
        forall|k: int|
            0 <= k < i ==> (#[trigger] acc[k]).is_null() || of_type(
                acc[k],
                s.columns@[k].data_type,
            ),
        stored_from(vals, s, i, acc, h) is Ok,
    ensures
        ({
            let row = stored_from(vals, s, i, acc, h)->Ok_0;
            &&& row.len() == vals.len()
            &&& forall|k: int|
                0 <= k < row.len() ==> (#[trigger] row[k]).is_null() || of_type(
                    row[k],
                    s.columns@[k].data_type,
                )
        }),
    decreases vals.len() - i,
{
    if i < vals.len() {
        let t = s.columns@[i].data_type;
        let v = stored(vals[i], t, s.columns@[i].nullable, h)->Ok_0;
        lemma_fitted_type(vals[i], t, h);
        lemma_stored_types(vals, s, i + 1, acc.push(v), h);
    }
}

proof fn lemma_fitted_type(v: ValueView, t: DataType, h: HostView)
    ensures
        fitted(v, t, h) matches Ok(x) ==> x.is_null() || of_type(x, t),
{
}

} // verus!
