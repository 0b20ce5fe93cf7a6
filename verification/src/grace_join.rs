//! Grace hash join for large data sets.
//!
//! Both sides are divided into partitions by the hash of their join keys; each pair of
//! partitions is then joined on its own.
use crate::aggregate::RowView;
use crate::ast::JoinType;
use crate::bytes::{complement, word_i64};
use crate::common::RID;
use crate::error::{outcome, Result};
use crate::grouping::within;
use crate::join::{
    build_combined_schema_pub, hash_step, join_result, make_join_rows, meetings_within, step_hash,
    with_columns, Meetings,
};
use crate::order::Order;
use crate::schema::Schema;
use crate::types::{clone_row, Value, ValueView};
use vstd::prelude::*;
use vstd::utf8::encode_utf8;

verus! {

/// Maximum rows on the build side before switching to grace hash join.
pub const HASH_JOIN_MEMORY_LIMIT: usize = 50_000;

/// Number of partitions for grace hash join.
pub const NUM_PARTITIONS: usize = 16;

/// The FNV-1a hash of bytes.
pub open spec fn bytes_hash(b: Seq<u8>) -> u64
    decreases b.len(),
{
    if b.len() == 0 {
        0xcbf2_9ce4_8422_2325
    } else {
        hash_step(bytes_hash(b.drop_last()), b.last() as u64)
    }
}

/// The hash of a value.
pub open spec fn value_hash(v: ValueView) -> u64 {
    match v {
        ValueView::Integer(n) => complement(n as int, 8) as u64,
        ValueView::BigInt(n) => complement(n as int, 8) as u64,
        ValueView::Float(f) => f,
        ValueView::Varchar(s) => bytes_hash(encode_utf8(s)),
        ValueView::Boolean(b) => if b {
            1
        } else {
            0
        },
        ValueView::DateTime(t) => complement(t as int, 8) as u64,
        ValueView::Decimal(n, _) => complement(n as int, 8) as u64,
        ValueView::Date(d) => complement(d as int, 8) as u64,
        ValueView::Time(t) => complement(t as int, 8) as u64,
        ValueView::Binary(b) => bytes_hash(b),
        ValueView::Json(s) => bytes_hash(encode_utf8(s)),
        ValueView::Uuid(s) => bytes_hash(encode_utf8(s)),
        ValueView::Null => 0,
    }
}

fn hash_bytes(b: &[u8]) -> (r: u64)
    ensures
        r == bytes_hash(b@),
{
    let mut h: u64 = 0xcbf2_9ce4_8422_2325;
    let mut i: usize = 0;
    assert(b@.take(0).len() == 0);
    while i < b.len()
        invariant
            0 <= i <= b.len(),
            h == bytes_hash(b@.take(i as int)),
        decreases b.len() - i,
    {
        assert(b@.take(i + 1).drop_last() =~= b@.take(i as int));
        h = step_hash(h, b[i] as u64);
        i += 1;
    }
    assert(b@.take(b.len() as int) =~= b@);
    h
}

fn hash_value_u64(v: &Value) -> (r: u64)
    ensures
        r == value_hash(v@),
{
    match v {
        Value::Integer(n) => word_i64(*n as i64),
        Value::BigInt(n) => word_i64(*n),
        Value::Float(f) => *f,
        Value::Varchar(s) => hash_bytes(s.as_str().as_bytes()),
        Value::Boolean(b) => if *b {
            1
        } else {
            0
        },
        Value::DateTime(t) => word_i64(*t),
        Value::Decimal(n, _) => word_i64(*n),
        Value::Date(d) => word_i64(*d as i64),
        Value::Time(t) => word_i64(*t as i64),
        Value::Binary(b) => hash_bytes(b.as_slice()),
        Value::Json(s) => hash_bytes(s.as_str().as_bytes()),
        Value::Uuid(s) => hash_bytes(s.as_str().as_bytes()),
        Value::Null => 0,
    }
}

/// The partition of a row: by the hash of its key, or of its last value where the row is too
/// short to have the key.
pub open spec fn partition_of(row: Seq<ValueView>, k: int) -> int {
    if row.len() == 0 {
        0
    } else {
        let i = if k < row.len() {
            k
        } else {
            row.len() - 1
        };
        value_hash(row[i]) as int % (NUM_PARTITIONS as int)
    }
}

fn find_partition(row: &Vec<Value>, k: usize) -> (r: usize)
    ensures
        r == partition_of(row.deep_view(), k as int),
{
    if row.len() == 0 {
        return 0;
    }
    let i: usize = if k < row.len() {
        k
    } else {
        row.len() - 1
    };
    assert(row.deep_view()[i as int] == row@[i as int]@);
    (hash_value_u64(&row[i]) % (NUM_PARTITIONS as u64)) as usize
}

/// The rows below `n` that fall into partition `p`, in order.
pub open spec fn part_below(rows: Seq<RowView>, k: int, p: int, n: int) -> Seq<RowView>
    decreases n,
{
    if n <= 0 {
        Seq::empty()
    } else {
        let m = part_below(rows, k, p, n - 1);
        if partition_of(rows[n - 1].1, k) == p {
            m.push(rows[n - 1])
        } else {
            m
        }
    }
}

/// The rows of partition `p`, in order.
pub open spec fn part(rows: Seq<RowView>, k: int, p: int) -> Seq<RowView> {
    part_below(rows, k, p, rows.len() as int)
}

fn take_part(rows: &[(RID, Vec<Value>)], k: usize, p: usize) -> (r: Vec<(RID, Vec<Value>)>)
    ensures
        r.deep_view() == part(rows.deep_view(), k as int, p as int),
{
    let ghost view = rows.deep_view();
    let mut out: Vec<(RID, Vec<Value>)> = Vec::new();
    let mut i: usize = 0;
    assert(out.deep_view() =~= Seq::<RowView>::empty());
    while i < rows.len()
        invariant
            0 <= i <= rows.len(),
            view == rows.deep_view(),
            out.deep_view() == part_below(view, k as int, p as int, i as int),
        decreases rows.len() - i,
    {
        assert(view[i as int] == (rows@[i as int].0, rows@[i as int].1.deep_view()));
        if find_partition(&rows[i].1, k) == p {
            let ghost before = out.deep_view();
            let row = clone_row(rows[i].1.as_slice());
            let ghost rv = row.deep_view();
            out.push((rows[i].0, row));
            assert(out.deep_view() =~= before.push((rows@[i as int].0, rv)));
        }
        i += 1;
    }
    out
}

/// Whether two rows meet: both have their keys, and the keys compare as equal. With `hashed`,
/// their hashes are equal too.
pub open spec fn keys_meet(
    l: Seq<ValueView>,
    r: Seq<ValueView>,
    lk: int,
    rk: int,
    hashed: bool,
) -> bool {
    &&& lk < l.len() && rk < r.len()
    &&& hashed ==> value_hash(l[lk]) == value_hash(r[rk])
    &&& l[lk].compare(r[rk]) == Some(Order::Equal)
}

/// The places of the right rows below `n` that a left row meets, in order.
pub open spec fn met_below(
    l: Seq<ValueView>,
    right: Seq<RowView>,
    lk: int,
    rk: int,
    hashed: bool,
    n: int,
) -> Seq<usize>
    decreases n,
{
    if n <= 0 {
        Seq::empty()
    } else {
        let m = met_below(l, right, lk, rk, hashed, n - 1);
        if keys_meet(l, right[n - 1].1, lk, rk, hashed) {
            m.push((n - 1) as usize)
        } else {
            m
        }
    }
}

/// For each left row the right rows it meets.
pub open spec fn value_meetings(
    left: Seq<RowView>,
    right: Seq<RowView>,
    lk: int,
    rk: int,
    hashed: bool,
) -> Meetings {
    Seq::new(
        left.len(),
        |o: int| met_below(left[o].1, right, lk, rk, hashed, right.len() as int),
    )
}

fn do_keys_meet(l: &Vec<Value>, r: &Vec<Value>, lk: usize, rk: usize, hashed: bool) -> (b: bool)
    ensures
        b == keys_meet(l.deep_view(), r.deep_view(), lk as int, rk as int, hashed),
{
    if lk >= l.len() || rk >= r.len() {
        return false;
    }
    assert(l.deep_view()[lk as int] == l@[lk as int]@);
    assert(r.deep_view()[rk as int] == r@[rk as int]@);
    if hashed && hash_value_u64(&l[lk]) != hash_value_u64(&r[rk]) {
        return false;
    }
    match l[lk].compare(&r[rk]) {
        Some(Order::Equal) => true,
        _ => false,
    }
}

fn meet_by_values(
    left: &Vec<(RID, Vec<Value>)>,
    right: &Vec<(RID, Vec<Value>)>,
    lk: usize,
    rk: usize,
    hashed: bool,
) -> (r: Vec<Vec<usize>>)
    ensures
        r.deep_view() == value_meetings(
            left.deep_view(),
            right.deep_view(),
            lk as int,
            rk as int,
            hashed,
        ),
        meetings_within(r@, right.len() as int),
        r.len() == left.len(),
{
    let ghost lv = left.deep_view();
    let ghost rv = right.deep_view();
    let ghost all = value_meetings(lv, rv, lk as int, rk as int, hashed);
    let mut out: Vec<Vec<usize>> = Vec::new();
    let mut o: usize = 0;
    while o < left.len()
        invariant
            0 <= o <= left.len(),
            lv == left.deep_view(),
            rv == right.deep_view(),
            all == value_meetings(lv, rv, lk as int, rk as int, hashed),
            out.len() == o,
            out.deep_view() == all.take(o as int),
            meetings_within(out@, right.len() as int),
        decreases left.len() - o,
    {
        assert(lv[o as int].1 == left@[o as int].1.deep_view());
        let mut list: Vec<usize> = Vec::new();
        let mut i: usize = 0;
        while i < right.len()
            invariant
                0 <= i <= right.len(),
                o < left.len(),
                rv == right.deep_view(),
                lv[o as int].1 == left@[o as int].1.deep_view(),
                within(list@, right.len() as int),
                list@ == met_below(lv[o as int].1, rv, lk as int, rk as int, hashed, i as int),
            decreases right.len() - i,
        {
            assert(rv[i as int].1 == right@[i as int].1.deep_view());
            if do_keys_meet(&left[o].1, &right[i].1, lk, rk, hashed) {
                list.push(i);
            }
            i += 1;
        }
        let ghost before = out.deep_view();
        let ghost v = list@;
        assert(list.deep_view() =~= v);
        out.push(list);
        assert(out.deep_view() =~= before.push(v));
        assert(all.take(o + 1) =~= before.push(all[o as int]));
        o += 1;
    }
    assert(all.take(left.len() as int) =~= all);
    out
}

/// The rows of a join of two partitions: those of the rows that meet, and, beside NULLs, the
/// left rows of a LEFT or FULL join and the right rows of a RIGHT or FULL join that meet
/// nothing.
pub open spec fn partition_rows(
    left: Seq<RowView>,
    right: Seq<RowView>,
    t: JoinType,
    lk: int,
    rk: int,
    lwidth: int,
    rwidth: int,
) -> Seq<RowView> {
    let hashed = t == JoinType::Inner || t == JoinType::Left;
    if t == JoinType::Right {
        join_result(
            left,
            right,
            t,
            false,
            value_meetings(right, left, rk, lk, hashed),
            lwidth,
            rwidth,
        )
    } else {
        join_result(
            left,
            right,
            t,
            true,
            value_meetings(left, right, lk, rk, hashed),
            lwidth,
            rwidth,
        )
    }
}

/// The rows of a grace hash join: those of the partition pairs below `p`, one after the other.
pub open spec fn grace_rows_below(
    left: Seq<RowView>,
    right: Seq<RowView>,
    t: JoinType,
    lk: int,
    rk: int,
    lwidth: int,
    rwidth: int,
    p: int,
) -> Seq<RowView>
    decreases p,
{
    if p <= 0 {
        Seq::empty()
    } else {
        grace_rows_below(left, right, t, lk, rk, lwidth, rwidth, p - 1) + partition_rows(
            part(left, lk, p - 1),
            part(right, rk, p - 1),
            t,
            lk,
            rk,
            lwidth,
            rwidth,
        )
    }
}

/// In-memory hash join for a single partition.
pub fn partition_hash_join(
    left_rows: &Vec<(RID, Vec<Value>)>,
    right_rows: &Vec<(RID, Vec<Value>)>,
    join_type: &JoinType,
    left_key_idx: usize,
    right_key_idx: usize,
    left_width: usize,
    right_width: usize,
) -> (r: Vec<(RID, Vec<Value>)>)
    ensures
        r.deep_view() == partition_rows(
            left_rows.deep_view(),
            right_rows.deep_view(),
            *join_type,
            left_key_idx as int,
            right_key_idx as int,
            left_width as int,
            right_width as int,
        ),
{
    let hashed: bool = *join_type == JoinType::Inner || *join_type == JoinType::Left;
    let outer_left: bool = *join_type != JoinType::Right;
    let m = if outer_left {
        meet_by_values(left_rows, right_rows, left_key_idx, right_key_idx, hashed)
    } else {
        meet_by_values(right_rows, left_rows, right_key_idx, left_key_idx, hashed)
    };
    make_join_rows(
        left_rows.as_slice(),
        right_rows.as_slice(),
        join_type,
        outer_left,
        &m,
        left_width,
        right_width,
    )
}

/// Execute a grace hash join by partitioning both sides.
pub fn grace_hash_join(
    left_rows: &[(RID, Vec<Value>)],
    right_rows: &[(RID, Vec<Value>)],
    join_type: &JoinType,
    left_key_idx: usize,
    right_key_idx: usize,
    left_schema: &Schema,
    right_schema: &Schema,
) -> (r: Result<(Schema, Vec<(RID, Vec<Value>)>)>)
    ensures
        outcome(r) == with_columns(
            left_schema.deep_view(),
            right_schema.deep_view(),
            Ok(
                grace_rows_below(
                    left_rows.deep_view(),
                    right_rows.deep_view(),
                    *join_type,
                    left_key_idx as int,
                    right_key_idx as int,
                    left_schema.names().len() as int,
                    right_schema.names().len() as int,
                    NUM_PARTITIONS as int,
                ),
            ),
        ),
{
    let schema = build_combined_schema_pub(left_schema, right_schema);
    let lw: usize = left_schema.columns.len();
    let rw: usize = right_schema.columns.len();
    let ghost lv = left_rows.deep_view();
    let ghost rv = right_rows.deep_view();
    let mut out: Vec<(RID, Vec<Value>)> = Vec::new();
    let mut p: usize = 0;
    assert(out.deep_view() =~= Seq::<RowView>::empty());
    while p < NUM_PARTITIONS
        invariant
            0 <= p <= NUM_PARTITIONS,
            lv == left_rows.deep_view(),
            rv == right_rows.deep_view(),
            out.deep_view() == grace_rows_below(
                lv,
                rv,
                *join_type,
                left_key_idx as int,
                right_key_idx as int,
                lw as int,
                rw as int,
                p as int,
            ),
        decreases NUM_PARTITIONS - p,
    {
        let left_part = take_part(left_rows, left_key_idx, p);
        let right_part = take_part(right_rows, right_key_idx, p);
        let mut rows = partition_hash_join(
            &left_part,
            &right_part,
            join_type,
            left_key_idx,
            right_key_idx,
            lw,
            rw,
        );
        let ghost a = out.deep_view();
        let ghost b = rows.deep_view();
        out.append(&mut rows);
        assert(out.deep_view() =~= a + b);
        p += 1;
    }
    Ok((schema, out))
}

} // verus!
