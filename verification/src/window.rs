//! Window functions.
use crate::float;
use crate::aggregate::{avg_term, RowView};
use crate::ast::{Expr, OrderByItem};
use crate::bytes::{lemma_bytes_deep, lemma_pow256, word_i64};
use crate::common::RID;
use crate::error::{outcome, ErrorView, ForgeError, Result};
use crate::eval::{eval, evaluate};
use crate::float::float_of_int;
use crate::grouping::{groups, within, Grouping};
use crate::host::{FloatOp, Host, HostView};
use crate::order::Order;
use crate::schema::Schema;
use crate::sort::{directions, sort_directions, sort_places, sorted_places};
use crate::text::{same_text, upper_text};
use crate::types::{Value, ValueView};
use crate::values::{apply_arith, arith, put_sort_key, sort_key, Arith};
use vstd::prelude::*;

verus! {

/// A value that is asked of the host stays asked for; any other failure gives way to a
/// default.
pub open spec fn lenient(r: std::result::Result<ValueView, ErrorView>, default: ValueView) -> std::result::Result<
    ValueView,
    ErrorView,
> {
    match r {
        Ok(v) => Ok(v),
        Err(ErrorView::NeedsFloat(c)) => Err(ErrorView::NeedsFloat(c)),
        Err(_) => Ok(default),
    }
}

fn or_default(r: Result<Value>, default: &Value) -> (o: Result<Value>)
    ensures
        outcome(o) == lenient(outcome(r), default@),
{
    match r {
        Ok(v) => Ok(v),
        Err(ForgeError::NeedsFloat(c)) => Err(ForgeError::NeedsFloat(c)),
        Err(_) => Ok(default.clone()),
    }
}

/// The value of an expression on a row, NULL where it has none.
pub open spec fn soft(e: Expr, row: Seq<ValueView>, names: Seq<Seq<char>>, h: HostView) -> std::result::Result<
    ValueView,
    ErrorView,
> {
    lenient(eval(e, row, names, h), ValueView::Null)
}

/// The value of an expression on a row, NULL where it has none.
pub fn evaluate_soft(expr: &Expr, row: &[Value], schema: &Schema, host: &Host) -> (r: Result<Value>)
    ensures
        outcome(r) == soft(*expr, row.deep_view(), schema.names(), host@),
{
    or_default(evaluate(expr, row, schema, host), &Value::Null)
}

// ---------------------------------------------------------------------------
// Partitions and their order
// ---------------------------------------------------------------------------

/// The partition key of a row from expression `i` on, behind `acc`.
pub open spec fn partition_key(
    exprs: Seq<Expr>,
    i: int,
    acc: Seq<u8>,
    row: Seq<ValueView>,
    names: Seq<Seq<char>>,
    h: HostView,
) -> std::result::Result<Seq<u8>, ErrorView>
    decreases exprs.len() - i,
{
    if i < 0 || i >= exprs.len() {
        Ok(acc)
    } else {
        match soft(exprs[i], row, names, h) {
            Err(e) => Err(e),
            Ok(v) => partition_key(exprs, i + 1, acc + sort_key(v), row, names, h),
        }
    }
}

fn compute_partition_key(exprs: &Vec<Expr>, row: &[Value], schema: &Schema, host: &Host) -> (r:
    Result<Vec<u8>>)
    ensures
        outcome(r) == partition_key(
            exprs@,
            0,
            Seq::empty(),
            row.deep_view(),
            schema.names(),
            host@,
        ),
{
    let mut key: Vec<u8> = Vec::new();
    let mut i: usize = 0;
    while i < exprs.len()
        invariant
            0 <= i <= exprs.len(),
            partition_key(exprs@, 0, Seq::empty(), row.deep_view(), schema.names(), host@)
                == partition_key(
                exprs@,
                i as int,
                key@,
                row.deep_view(),
                schema.names(),
                host@,
            ),
        decreases exprs.len() - i,
    {
        let v = evaluate_soft(&exprs[i], row, schema, host)?;
        put_sort_key(&mut key, &v);
        i += 1;
    }
    proof {
        lemma_bytes_deep(key);
    }
    Ok(key)
}

/// The partition keys of the rows from `i` on, behind `acc`.
pub open spec fn partition_keys(
    exprs: Seq<Expr>,
    rows: Seq<RowView>,
    i: int,
    acc: Seq<Seq<u8>>,
    names: Seq<Seq<char>>,
    h: HostView,
) -> std::result::Result<Seq<Seq<u8>>, ErrorView>
    decreases rows.len() - i,
{
    if i < 0 || i >= rows.len() {
        Ok(acc)
    } else {
        match partition_key(exprs, 0, Seq::empty(), rows[i].1, names, h) {
            Err(e) => Err(e),
            Ok(k) => partition_keys(exprs, rows, i + 1, acc.push(k), names, h),
        }
    }
}

/// The partitions of the rows: the places of the rows whose partition keys are equal.
pub open spec fn partitions(
    exprs: Seq<Expr>,
    rows: Seq<RowView>,
    names: Seq<Seq<char>>,
    h: HostView,
) -> std::result::Result<Seq<Seq<usize>>, ErrorView> {
    match partition_keys(exprs, rows, 0, Seq::empty(), names, h) {
        Err(e) => Err(e),
        Ok(keys) => Ok(groups(keys)),
    }
}

fn partition_rows(exprs: &Vec<Expr>, rows: &[(RID, Vec<Value>)], schema: &Schema, host: &Host) -> (r:
    Result<Vec<Vec<usize>>>)
    ensures
        outcome(r) == partitions(exprs@, rows.deep_view(), schema.names(), host@),
        r matches Ok(g) ==> forall|k: int|
            0 <= k < g@.len() ==> within((#[trigger] g@[k])@, rows@.len() as int),
{
    let ghost view = rows.deep_view();
    let ghost mut keys: Seq<Seq<u8>> = Seq::empty();
    let mut g = Grouping::new();
    let mut i: usize = 0;
    while i < rows.len()
        invariant
            0 <= i <= rows.len(),
            view == rows.deep_view(),
            keys.len() == i,
            partition_keys(exprs@, view, 0, Seq::empty(), schema.names(), host@)
                == partition_keys(exprs@, view, i as int, keys, schema.names(), host@),
            g.of(keys),
        decreases rows.len() - i,
    {
        assert(view[i as int].1 == rows@[i as int].1.deep_view());
        let key = compute_partition_key(exprs, rows[i].1.as_slice(), schema, host)?;
        proof {
            lemma_bytes_deep(key);
        }
        g.add(key, i, Ghost(keys));
        proof {
            keys = keys.push(key@);
        }
        i += 1;
    }
    Ok(g.into_groups(Ghost(keys)))
}

/// The keys by which a row is ordered in its partition, from entry `i` on, behind `acc`.
pub open spec fn window_keys(
    order_by: Seq<OrderByItem>,
    i: int,
    acc: Seq<ValueView>,
    row: Seq<ValueView>,
    names: Seq<Seq<char>>,
    h: HostView,
) -> std::result::Result<Seq<ValueView>, ErrorView>
    decreases order_by.len() - i,
{
    if i < 0 || i >= order_by.len() {
        Ok(acc)
    } else {
        match soft(order_by[i].expr, row, names, h) {
            Err(e) => Err(e),
            Ok(v) => window_keys(order_by, i + 1, acc.push(v), row, names, h),
        }
    }
}

/// The keys of the rows from `i` on, behind `acc`.
pub open spec fn all_window_keys(
    order_by: Seq<OrderByItem>,
    rows: Seq<RowView>,
    i: int,
    acc: Seq<Seq<ValueView>>,
    names: Seq<Seq<char>>,
    h: HostView,
) -> std::result::Result<Seq<Seq<ValueView>>, ErrorView>
    decreases rows.len() - i,
{
    if i < 0 || i >= rows.len() {
        Ok(acc)
    } else {
        match window_keys(order_by, 0, Seq::empty(), rows[i].1, names, h) {
            Err(e) => Err(e),
            Ok(k) => all_window_keys(order_by, rows, i + 1, acc.push(k), names, h),
        }
    }
}

fn compute_window_keys(order_by: &Vec<OrderByItem>, row: &[Value], schema: &Schema, host: &Host) -> (r:
    Result<Vec<Value>>)
    ensures
        outcome(r) == window_keys(
            order_by@,
            0,
            Seq::empty(),
            row.deep_view(),
            schema.names(),
            host@,
        ),
{
    let mut keys: Vec<Value> = Vec::new();
    let mut i: usize = 0;
    assert(keys.deep_view() =~= Seq::<ValueView>::empty());
    while i < order_by.len()
        invariant
            0 <= i <= order_by.len(),
            window_keys(order_by@, 0, Seq::empty(), row.deep_view(), schema.names(), host@)
                == window_keys(
                order_by@,
                i as int,
                keys.deep_view(),
                row.deep_view(),
                schema.names(),
                host@,
            ),
        decreases order_by.len() - i,
    {
        let v = evaluate_soft(&order_by[i].expr, row, schema, host)?;
        let ghost before = keys.deep_view();
        keys.push(v);
        assert(keys.deep_view() =~= before.push(v@));
        i += 1;
    }
    Ok(keys)
}

fn compute_all_window_keys(
    order_by: &Vec<OrderByItem>,
    rows: &[(RID, Vec<Value>)],
    schema: &Schema,
    host: &Host,
) -> (r: Result<Vec<Vec<Value>>>)
    ensures
        outcome(r) == all_window_keys(
            order_by@,
            rows.deep_view(),
            0,
            Seq::empty(),
            schema.names(),
            host@,
        ),
        r matches Ok(k) ==> k.len() == rows@.len(),
{
    let ghost view = rows.deep_view();
    let mut out: Vec<Vec<Value>> = Vec::new();
    let mut i: usize = 0;
    assert(out.deep_view() =~= Seq::<Seq<ValueView>>::empty());
    while i < rows.len()
        invariant
            0 <= i <= rows.len(),
            out.len() == i,
            view == rows.deep_view(),
            all_window_keys(order_by@, view, 0, Seq::empty(), schema.names(), host@)
                == all_window_keys(
                order_by@,
                view,
                i as int,
                out.deep_view(),
                schema.names(),
                host@,
            ),
        decreases rows.len() - i,
    {
        assert(view[i as int].1 == rows@[i as int].1.deep_view());
        let k = compute_window_keys(order_by, rows[i].1.as_slice(), schema, host)?;
        let ghost before = out.deep_view();
        let ghost kv = k.deep_view();
        out.push(k);
        assert(out.deep_view() =~= before.push(kv));
        i += 1;
    }
    Ok(out)
}

/// Whether two rows are peers: all their keys are equal.
pub open spec fn peers(a: Seq<ValueView>, b: Seq<ValueView>, n: int) -> bool {
    forall|i: int|
        0 <= i < n ==> i < a.len() && i < b.len() && (#[trigger] a[i]).compare(b[i]) == Some(
            Order::Equal,
        )
}

fn are_peers(a: &Vec<Value>, b: &Vec<Value>, n: usize) -> (r: bool)
    ensures
        r == peers(a.deep_view(), b.deep_view(), n as int),
{
    let ghost x = a.deep_view();
    let ghost y = b.deep_view();
    let mut i: usize = 0;
    while i < n
        invariant
            0 <= i <= n,
            x == a.deep_view(),
            y == b.deep_view(),
            forall|k: int|
                0 <= k < i ==> k < x.len() && k < y.len() && (#[trigger] x[k]).compare(y[k])
                    == Some(Order::Equal),
        decreases n - i,
    {
        if i >= a.len() || i >= b.len() {
            assert(!(i < x.len() && i < y.len() && x[i as int].compare(y[i as int]) == Some(
                Order::Equal,
            )));
            return false;
        }
        assert(x[i as int] == a@[i as int]@ && y[i as int] == b@[i as int]@);
        match a[i].compare(&b[i]) {
            Some(Order::Equal) => {},
            _ => {
                return false;
            },
        }
        i += 1;
    }
    true
}

// ---------------------------------------------------------------------------
// Ranks
// ---------------------------------------------------------------------------

/// The window functions.
#[derive(Debug, Clone, Copy, PartialEq, Eq, Structural)]
pub enum WindowFn {
    RowNumber,
    Rank,
    DenseRank,
    Lag,
    Lead,
    Ntile,
    Sum,
    Avg,
    Count,
    Min,
    Max,
    Unknown,
}

/// The window function that an uppercase name stands for.
pub open spec fn window_fn(s: Seq<char>) -> WindowFn {
    if s == "ROW_NUMBER"@ {
        WindowFn::RowNumber
    } else if s == "RANK"@ {
        WindowFn::Rank
    } else if s == "DENSE_RANK"@ {
        WindowFn::DenseRank
    } else if s == "LAG"@ {
        WindowFn::Lag
    } else if s == "LEAD"@ {
        WindowFn::Lead
    } else if s == "NTILE"@ {
        WindowFn::Ntile
    } else if s == "SUM"@ {
        WindowFn::Sum
    } else if s == "AVG"@ {
        WindowFn::Avg
    } else if s == "COUNT"@ {
        WindowFn::Count
    } else if s == "MIN"@ {
        WindowFn::Min
    } else if s == "MAX"@ {
        WindowFn::Max
    } else {
        WindowFn::Unknown
    }
}

fn which_window_fn(s: &str) -> (r: WindowFn)
    ensures
        r == window_fn(s@),
{
    if same_text(s, "ROW_NUMBER") {
        WindowFn::RowNumber
    } else if same_text(s, "RANK") {
        WindowFn::Rank
    } else if same_text(s, "DENSE_RANK") {
        WindowFn::DenseRank
    } else if same_text(s, "LAG") {
        WindowFn::Lag
    } else if same_text(s, "LEAD") {
        WindowFn::Lead
    } else if same_text(s, "NTILE") {
        WindowFn::Ntile
    } else if same_text(s, "SUM") {
        WindowFn::Sum
    } else if same_text(s, "AVG") {
        WindowFn::Avg
    } else if same_text(s, "COUNT") {
        WindowFn::Count
    } else if same_text(s, "MIN") {
        WindowFn::Min
    } else if same_text(s, "MAX") {
        WindowFn::Max
    } else {
        WindowFn::Unknown
    }
}

/// The position at which the run of peers begins that the row at position `p` belongs to: a
/// row continues a run while it is a peer of the run's first row.
pub open spec fn run_start(keys: Seq<Seq<ValueView>>, n: int, s: Seq<usize>, p: int) -> int
    decreases p,
{
    if p <= 0 {
        0
    } else {
        let q = run_start(keys, n, s, p - 1);
        if peers(keys[s[q] as int], keys[s[p] as int], n) {
            q
        } else {
            p
        }
    }
}

/// How many runs of peers begin up to position `p`.
pub open spec fn run_count(keys: Seq<Seq<ValueView>>, n: int, s: Seq<usize>, p: int) -> int
    decreases p,
{
    if p <= 0 {
        1
    } else {
        run_count(keys, n, s, p - 1) + if run_start(keys, n, s, p) == p {
            1int
        } else {
            0
        }
    }
}

/// The ranks in a partition: with gaps, the position at which the row's peers begin; without
/// gaps, the number of runs of peers up to the row.
pub open spec fn ranks(keys: Seq<Seq<ValueView>>, n: int, s: Seq<usize>, dense: bool) -> Seq<
    ValueView,
> {
    Seq::new(
        s.len(),
        |p: int|
            ValueView::BigInt(
                (if dense {
                    run_count(keys, n, s, p)
                } else {
                    run_start(keys, n, s, p) + 1
                }) as i64,
            ),
    )
}

fn compute_ranks(keys: &Vec<Vec<Value>>, n: usize, s: &Vec<usize>, dense: bool) -> (r: Vec<Value>)
    requires
        within(s@, keys.len() as int),
    ensures
        r.deep_view() == ranks(keys.deep_view(), n as int, s@, dense),
{
    let ghost kv = keys.deep_view();
    let ghost all = ranks(kv, n as int, s@, dense);
    let mut out: Vec<Value> = Vec::new();
    let mut start: usize = 0;
    let mut count: u64 = 1;
    let mut p: usize = 0;
    while p < s.len()
        invariant
            0 <= p <= s.len(),
            kv == keys.deep_view(),
            all == ranks(kv, n as int, s@, dense),
            within(s@, keys.len() as int),
            p > 0 ==> start == run_start(kv, n as int, s@, p - 1) && start < p,
            p > 0 ==> count == run_count(kv, n as int, s@, p - 1) && count <= p,
            p == 0 ==> start == 0 && count == 1,
            out.deep_view() == all.take(p as int),
        decreases s.len() - p,
    {
        if p > 0 {
            let a: usize = s[start];
            let b: usize = s[p];
            assert(kv[a as int] == keys@[a as int].deep_view());
            assert(kv[b as int] == keys@[b as int].deep_view());
            if !are_peers(&keys[a], &keys[b], n) {
                start = p;
                count = count + 1;
            }
        }
        let v = if dense {
            Value::BigInt(count as i64)
        } else {
            Value::BigInt((start as u128 + 1) as i64)
        };
        let ghost before = out.deep_view();
        out.push(v);
        assert(out.deep_view() =~= before.push(v@));
        assert(all.take(p + 1) =~= before.push(all[p as int]));
        p += 1;
    }
    assert(all.take(s.len() as int) =~= all);
    out
}

// ---------------------------------------------------------------------------
// Numbered rows, counts and tiles
// ---------------------------------------------------------------------------

/// The numbers of the rows of a partition.
pub open spec fn row_numbers(len: int) -> Seq<ValueView> {
    Seq::new(len as nat, |p: int| ValueView::BigInt((p + 1) as i64))
}

/// The same value for every row of a partition.
pub open spec fn same_for_all(len: int, v: ValueView) -> Seq<ValueView> {
    Seq::new(len as nat, |p: int| v)
}

/// The tile of each row when a partition is divided into `n` tiles.
pub open spec fn tiles(len: int, n: int) -> Seq<ValueView> {
    Seq::new(
        len as nat,
        |p: int|
            ValueView::BigInt(
                (if n == 0 {
                    1
                } else {
                    p * n / len + 1
                }) as i64,
            ),
    )
}

fn number_rows(len: usize) -> (r: Vec<Value>)
    ensures
        r.deep_view() == row_numbers(len as int),
{
    let mut out: Vec<Value> = Vec::new();
    let mut p: usize = 0;
    while p < len
        invariant
            0 <= p <= len,
            out.deep_view() == row_numbers(p as int),
        decreases len - p,
    {
        let ghost before = out.deep_view();
        let v = Value::BigInt((p as u128 + 1) as i64);
        out.push(v);
        assert(out.deep_view() =~= before.push(v@));
        assert(row_numbers(p + 1) =~= before.push(v@));
        p += 1;
    }
    out
}

fn repeat_value(len: usize, v: &Value) -> (r: Vec<Value>)
    ensures
        r.deep_view() == same_for_all(len as int, v@),
{
    let mut out: Vec<Value> = Vec::new();
    let mut p: usize = 0;
    while p < len
        invariant
            0 <= p <= len,
            out.deep_view() == same_for_all(p as int, v@),
        decreases len - p,
    {
        let ghost before = out.deep_view();
        let w = v.clone();
        out.push(w);
        assert(out.deep_view() =~= before.push(w@));
        assert(same_for_all(p + 1, v@) =~= before.push(w@));
        p += 1;
    }
    out
}

fn make_tiles(len: usize, n: u64) -> (r: Vec<Value>)
    ensures
        r.deep_view() == tiles(len as int, n as int),
{
    let ghost all = tiles(len as int, n as int);
    let mut out: Vec<Value> = Vec::new();
    let mut p: usize = 0;
    while p < len
        invariant
            0 <= p <= len,
            all == tiles(len as int, n as int),
            out.deep_view() == all.take(p as int),
        decreases len - p,
    {
        let tile: u128 = if n == 0 {
            1
        } else {
            proof {
                assert(p as int * n as int <= 0xffff_ffff_ffff_ffff * 0xffff_ffff_ffff_ffff)
                    by (nonlinear_arith)
                    requires
                        0 <= p <= 0xffff_ffff_ffff_ffff,
                        0 <= n <= 0xffff_ffff_ffff_ffff,
                ;
                assert(p as int * n as int / len as int <= p as int * n as int)
                    by (nonlinear_arith)
                    requires
                        p >= 0,
                        n >= 0,
                        len >= 1,
                ;
            }
            (p as u128) * (n as u128) / (len as u128) + 1
        };
        let ghost before = out.deep_view();
        let v = Value::BigInt(tile as i64);
        out.push(v);
        assert(out.deep_view() =~= before.push(v@));
        assert(all.take(p + 1) =~= before.push(all[p as int]));
        p += 1;
    }
    assert(all.take(len as int) =~= all);
    out
}

/// A number of rows given as an argument: the integer that the argument's value holds, as a
/// machine word; one, where there is none.
pub open spec fn word_argument(args: Seq<Expr>, i: int, names: Seq<Seq<char>>, h: HostView) -> std::result::Result<
    int,
    ErrorView,
> {
    if i >= args.len() {
        Ok(1)
    } else {
        match eval(args[i], Seq::empty(), names, h) {
            Ok(ValueView::Integer(n)) => Ok(
                if n < 0 {
                    n + 0x1_0000_0000_0000_0000
                } else {
                    n as int
                },
            ),
            Ok(ValueView::BigInt(n)) => Ok(
                if n < 0 {
                    n + 0x1_0000_0000_0000_0000
                } else {
                    n as int
                },
            ),
            Ok(_) => Ok(1),
            Err(ErrorView::NeedsFloat(c)) => Err(ErrorView::NeedsFloat(c)),
            Err(_) => Ok(1),
        }
    }
}

fn read_word_argument(args: &Vec<Expr>, i: usize, schema: &Schema, host: &Host) -> (r: Result<u64>)
    ensures
        match r {
            Ok(n) => word_argument(args@, i as int, schema.names(), host@) == Ok::<int, ErrorView>(
                n as int,
            ),
            Err(e) => word_argument(args@, i as int, schema.names(), host@) == Err::<
                int,
                ErrorView,
            >(e@),
        },
{
    if i >= args.len() {
        return Ok(1);
    }
    let none: Vec<Value> = Vec::new();
    assert(none.deep_view() =~= Seq::<ValueView>::empty());
    proof {
        lemma_pow256();
    }
    match evaluate(&args[i], none.as_slice(), schema, host) {
        Ok(Value::Integer(n)) => Ok(word_i64(n as i64)),
        Ok(Value::BigInt(n)) => Ok(word_i64(n)),
        Ok(_) => Ok(1),
        Err(ForgeError::NeedsFloat(c)) => Err(ForgeError::NeedsFloat(c)),
        Err(_) => Ok(1),
    }
}

// ---------------------------------------------------------------------------
// LAG and LEAD
// ---------------------------------------------------------------------------

/// The default of LAG and LEAD: the value of the third argument, else NULL.
pub open spec fn shift_default(args: Seq<Expr>, names: Seq<Seq<char>>, h: HostView) -> std::result::Result<
    ValueView,
    ErrorView,
> {
    if args.len() < 3 {
        Ok(ValueView::Null)
    } else {
        soft(args[2], Seq::empty(), names, h)
    }
}

/// The position that LAG or LEAD looks at from position `p`, if the partition has it.
pub open spec fn shifted(p: int, off: int, len: int, lead: bool) -> Option<int> {
    if lead {
        if p + off < len {
            Some(p + off)
        } else {
            None
        }
    } else if p >= off {
        Some(p - off)
    } else {
        None
    }
}

/// The values of LAG or LEAD from position `p` on, behind `acc`: the first argument on the
/// row that is looked at, else the default; NULL, where there is no argument.
pub open spec fn shift_from(
    args: Seq<Expr>,
    off: int,
    default: ValueView,
    lead: bool,
    s: Seq<usize>,
    p: int,
    acc: Seq<ValueView>,
    rows: Seq<RowView>,
    names: Seq<Seq<char>>,
    h: HostView,
) -> std::result::Result<Seq<ValueView>, ErrorView>
    decreases s.len() - p,
{
    if p < 0 || p >= s.len() {
        Ok(acc)
    } else {
        let v = match shifted(p, off, s.len() as int, lead) {
            None => Ok(default),
            Some(q) => if args.len() == 0 {
                Ok(ValueView::Null)
            } else {
                lenient(eval(args[0], rows[s[q] as int].1, names, h), default)
            },
        };
        match v {
            Err(e) => Err(e),
            Ok(x) => shift_from(args, off, default, lead, s, p + 1, acc.push(x), rows, names, h),
        }
    }
}

fn compute_shift(
    args: &Vec<Expr>,
    off: u64,
    default: &Value,
    lead: bool,
    s: &Vec<usize>,
    rows: &[(RID, Vec<Value>)],
    schema: &Schema,
    host: &Host,
) -> (r: Result<Vec<Value>>)
    requires
        within(s@, rows@.len() as int),
    ensures
        outcome(r) == shift_from(
            args@,
            off as int,
            default@,
            lead,
            s@,
            0,
            Seq::empty(),
            rows.deep_view(),
            schema.names(),
            host@,
        ),
        r matches Ok(v) ==> v.len() == s.len(),
{
    let ghost view = rows.deep_view();
    let mut out: Vec<Value> = Vec::new();
    let mut p: usize = 0;
    assert(out.deep_view() =~= Seq::<ValueView>::empty());
    while p < s.len()
        invariant
            0 <= p <= s.len(),
            out.len() == p,
            view == rows.deep_view(),
            within(s@, rows@.len() as int),
            shift_from(
                args@,
                off as int,
                default@,
                lead,
                s@,
                0,
                Seq::empty(),
                view,
                schema.names(),
                host@,
            ) == shift_from(
                args@,
                off as int,
                default@,
                lead,
                s@,
                p as int,
                out.deep_view(),
                view,
                schema.names(),
                host@,
            ),
        decreases s.len() - p,
    {
        let target: Option<usize> = if lead {
            let q: u128 = p as u128 + off as u128;
            if q < s.len() as u128 {
                Some(q as usize)
            } else {
                None
            }
        } else if p as u64 >= off {
            Some((p as u64 - off) as usize)
        } else {
            None
        };
        let v = match target {
            None => default.clone(),
            Some(q) => {
                if args.len() == 0 {
                    Value::Null
                } else {
                    let k: usize = s[q];
                    assert(view[k as int].1 == rows@[k as int].1.deep_view());
                    or_default(evaluate(&args[0], rows[k].1.as_slice(), schema, host), default)?
                }
            },
        };
        let ghost before = out.deep_view();
        out.push(v);
        assert(out.deep_view() =~= before.push(v@));
        p += 1;
    }
    Ok(out)
}

// ---------------------------------------------------------------------------
// Aggregates over a partition
// ---------------------------------------------------------------------------

/// A sum with one more value: NULL, and what cannot be added, leave it as it is.
pub open spec fn sum_step(sum: ValueView, v: ValueView, h: HostView) -> std::result::Result<
    ValueView,
    ErrorView,
> {
    if v.is_null() {
        Ok(sum)
    } else {
        lenient(arith(Arith::Plus, sum, v, h), sum)
    }
}

/// The running sums from position `p` on, behind `acc`.
pub open spec fn running_from(
    arg: Expr,
    s: Seq<usize>,
    p: int,
    sum: ValueView,
    acc: Seq<ValueView>,
    rows: Seq<RowView>,
    names: Seq<Seq<char>>,
    h: HostView,
) -> std::result::Result<Seq<ValueView>, ErrorView>
    decreases s.len() - p,
{
    if p < 0 || p >= s.len() {
        Ok(acc)
    } else {
        match soft(arg, rows[s[p] as int].1, names, h) {
            Err(e) => Err(e),
            Ok(v) => match sum_step(sum, v, h) {
                Err(e) => Err(e),
                Ok(t) => running_from(arg, s, p + 1, t, acc.push(t), rows, names, h),
            },
        }
    }
}

fn compute_running(
    arg: &Expr,
    s: &Vec<usize>,
    rows: &[(RID, Vec<Value>)],
    schema: &Schema,
    host: &Host,
) -> (r: Result<Vec<Value>>)
    requires
        within(s@, rows@.len() as int),
    ensures
        outcome(r) == running_from(
            *arg,
            s@,
            0,
            ValueView::Float(0),
            Seq::empty(),
            rows.deep_view(),
            schema.names(),
            host@,
        ),
        r matches Ok(v) ==> v.len() == s.len(),
{
    let ghost view = rows.deep_view();
    let mut sum = Value::Float(0);
    let mut out: Vec<Value> = Vec::new();
    let mut p: usize = 0;
    assert(out.deep_view() =~= Seq::<ValueView>::empty());
    while p < s.len()
        invariant
            0 <= p <= s.len(),
            out.len() == p,
            view == rows.deep_view(),
            within(s@, rows@.len() as int),
            running_from(
                *arg,
                s@,
                0,
                ValueView::Float(0),
                Seq::empty(),
                view,
                schema.names(),
                host@,
            ) == running_from(
                *arg,
                s@,
                p as int,
                sum@,
                out.deep_view(),
                view,
                schema.names(),
                host@,
            ),
        decreases s.len() - p,
    {
        let k: usize = s[p];
        assert(view[k as int].1 == rows@[k as int].1.deep_view());
        let v = evaluate_soft(arg, rows[k].1.as_slice(), schema, host)?;
        if !v.is_null() {
            let t = or_default(apply_arith(Arith::Plus, &sum, &v, host), &sum)?;
            sum = t;
        }
        let ghost before = out.deep_view();
        let w = sum.clone();
        out.push(w);
        assert(out.deep_view() =~= before.push(w@));
        p += 1;
    }
    Ok(out)
}

/// The average over a partition from position `p` on, given the sum and number of the terms
/// before: NULL without terms.
pub open spec fn average_from(
    arg: Expr,
    s: Seq<usize>,
    p: int,
    sum: u64,
    count: nat,
    rows: Seq<RowView>,
    names: Seq<Seq<char>>,
    h: HostView,
) -> std::result::Result<ValueView, ErrorView>
    decreases s.len() - p,
{
    if p < 0 || p >= s.len() {
        if count == 0 {
            Ok(ValueView::Null)
        } else {
            match h.numeric(FloatOp::Div, sum, float_of_int((count as i64) as int) as u64) {
                Ok(q) => Ok(ValueView::Float(q)),
                Err(e) => Err(e),
            }
        }
    } else {
        match soft(arg, rows[s[p] as int].1, names, h) {
            Err(e) => Err(e),
            Ok(v) => match avg_term(v) {
                None => average_from(arg, s, p + 1, sum, count, rows, names, h),
                Some(x) => match h.numeric(FloatOp::Add, sum, x) {
                    Err(e) => Err(e),
                    Ok(t) => average_from(arg, s, p + 1, t, count + 1, rows, names, h),
                },
            },
        }
    }
}

fn compute_average(
    arg: &Expr,
    s: &Vec<usize>,
    rows: &[(RID, Vec<Value>)],
    schema: &Schema,
    host: &Host,
) -> (r: Result<Value>)
    requires
        within(s@, rows@.len() as int),
    ensures
        outcome(r) == average_from(
            *arg,
            s@,
            0,
            0,
            0,
            rows.deep_view(),
            schema.names(),
            host@,
        ),
{
    let ghost view = rows.deep_view();
    let mut sum: u64 = 0;
    let mut count: usize = 0;
    let mut p: usize = 0;
    while p < s.len()
        invariant
            0 <= p <= s.len(),
            count <= p,
            view == rows.deep_view(),
            within(s@, rows@.len() as int),
            average_from(*arg, s@, 0, 0, 0, view, schema.names(), host@) == average_from(
                *arg,
                s@,
                p as int,
                sum,
                count as nat,
                view,
                schema.names(),
                host@,
            ),
        decreases s.len() - p,
    {
        let k: usize = s[p];
        assert(view[k as int].1 == rows@[k as int].1.deep_view());
        let v = evaluate_soft(arg, rows[k].1.as_slice(), schema, host)?;
        let term: Option<u64> = match &v {
            Value::Integer(n) => Some(float::of_i64(*n as i64)),
            Value::BigInt(n) => Some(float::of_i64(*n)),
            Value::Float(x) => Some(*x),
            _ => None,
        };
        if let Some(x) = term {
            let t: u64 = host.numeric(FloatOp::Add, sum, x)?;
            sum = t;
            count = count + 1;
        }
        p += 1;
    }
    if count == 0 {
        return Ok(Value::Null);
    }
    let q: u64 = host.numeric(FloatOp::Div, sum, float::of_i64(count as i64))?;
    Ok(Value::Float(q))
}

/// The extreme over a partition from position `p` on, given the best before: a value takes
/// over where it stands to the best in the order `want`.
pub open spec fn best_from(
    arg: Expr,
    want: Order,
    s: Seq<usize>,
    p: int,
    best: ValueView,
    rows: Seq<RowView>,
    names: Seq<Seq<char>>,
    h: HostView,
) -> std::result::Result<ValueView, ErrorView>
    decreases s.len() - p,
{
    if p < 0 || p >= s.len() {
        Ok(best)
    } else {
        match soft(arg, rows[s[p] as int].1, names, h) {
            Err(e) => Err(e),
            Ok(v) => if !v.is_null() && (best.is_null() || v.compare(best) == Some(want)) {
                best_from(arg, want, s, p + 1, v, rows, names, h)
            } else {
                best_from(arg, want, s, p + 1, best, rows, names, h)
            },
        }
    }
}

fn compute_best(
    arg: &Expr,
    want: Order,
    s: &Vec<usize>,
    rows: &[(RID, Vec<Value>)],
    schema: &Schema,
    host: &Host,
) -> (r: Result<Value>)
    requires
        within(s@, rows@.len() as int),
    ensures
        outcome(r) == best_from(
            *arg,
            want,
            s@,
            0,
            ValueView::Null,
            rows.deep_view(),
            schema.names(),
            host@,
        ),
{
    let ghost view = rows.deep_view();
    let mut best = Value::Null;
    let mut p: usize = 0;
    while p < s.len()
        invariant
            0 <= p <= s.len(),
            view == rows.deep_view(),
            within(s@, rows@.len() as int),
            best_from(*arg, want, s@, 0, ValueView::Null, view, schema.names(), host@)
                == best_from(
                *arg,
                want,
                s@,
                p as int,
                best@,
                view,
                schema.names(),
                host@,
            ),
        decreases s.len() - p,
    {
        let k: usize = s[p];
        assert(view[k as int].1 == rows@[k as int].1.deep_view());
        let v = evaluate_soft(arg, rows[k].1.as_slice(), schema, host)?;
        let better: bool = match v.compare(&best) {
            Some(o) => o == want,
            None => false,
        };
        if !v.is_null() && (best.is_null() || better) {
            best = v;
        }
        p += 1;
    }
    Ok(best)
}

// ---------------------------------------------------------------------------
// One partition
// ---------------------------------------------------------------------------

/// The values of a window function on the rows of a partition, in the partition's order.
pub open spec fn partition_values(
    f: WindowFn,
    args: Seq<Expr>,
    keys: Seq<Seq<ValueView>>,
    n: int,
    s: Seq<usize>,
    rows: Seq<RowView>,
    names: Seq<Seq<char>>,
    h: HostView,
) -> std::result::Result<Seq<ValueView>, ErrorView> {
    let len = s.len() as int;
    match f {
        WindowFn::RowNumber => Ok(row_numbers(len)),
        WindowFn::Rank => Ok(ranks(keys, n, s, false)),
        WindowFn::DenseRank => Ok(ranks(keys, n, s, true)),
        WindowFn::Lag | WindowFn::Lead => match word_argument(args, 1, names, h) {
            Err(e) => Err(e),
            Ok(off) => match shift_default(args, names, h) {
                Err(e) => Err(e),
                Ok(d) => shift_from(
                    args,
                    off,
                    d,
                    f == WindowFn::Lead,
                    s,
                    0,
                    Seq::empty(),
                    rows,
                    names,
                    h,
                ),
            },
        },
        WindowFn::Ntile => match word_argument(args, 0, names, h) {
            Err(e) => Err(e),
            Ok(k) => Ok(tiles(len, k)),
        },
        WindowFn::Count => Ok(same_for_all(len, ValueView::BigInt(len as i64))),
        WindowFn::Unknown => Ok(same_for_all(len, ValueView::Null)),
        _ => if args.len() == 0 {
            Ok(same_for_all(len, ValueView::Null))
        } else {
            match f {
                WindowFn::Sum => match running_from(
                    args[0],
                    s,
                    0,
                    ValueView::Float(0),
                    Seq::empty(),
                    rows,
                    names,
                    h,
                ) {
                    Err(e) => Err(e),
                    Ok(sums) => if n == 0 && sums.len() > 0 {
                        Ok(same_for_all(len, sums.last()))
                    } else {
                        Ok(sums)
                    },
                },
                WindowFn::Avg => match average_from(args[0], s, 0, 0, 0, rows, names, h) {
                    Err(e) => Err(e),
                    Ok(v) => Ok(same_for_all(len, v)),
                },
                WindowFn::Min => match best_from(
                    args[0],
                    Order::Less,
                    s,
                    0,
                    ValueView::Null,
                    rows,
                    names,
                    h,
                ) {
                    Err(e) => Err(e),
                    Ok(v) => Ok(same_for_all(len, v)),
                },
                _ => match best_from(
                    args[0],
                    Order::Greater,
                    s,
                    0,
                    ValueView::Null,
                    rows,
                    names,
                    h,
                ) {
                    Err(e) => Err(e),
                    Ok(v) => Ok(same_for_all(len, v)),
                },
            }
        },
    }
}

fn compute_partition(
    f: WindowFn,
    args: &Vec<Expr>,
    keys: &Vec<Vec<Value>>,
    n: usize,
    s: &Vec<usize>,
    rows: &[(RID, Vec<Value>)],
    schema: &Schema,
    host: &Host,
) -> (r: Result<Vec<Value>>)
    requires
        keys.len() == rows@.len(),
        within(s@, rows@.len() as int),
    ensures
        outcome(r) == partition_values(
            f,
            args@,
            keys.deep_view(),
            n as int,
            s@,
            rows.deep_view(),
            schema.names(),
            host@,
        ),
        r matches Ok(v) ==> v.len() == s.len(),
{
    match f {
        WindowFn::RowNumber => {
            let v = number_rows(s.len());
            assert(v.deep_view().len() == v.len());
            Ok(v)
        },
        WindowFn::Rank => {
            let v = compute_ranks(keys, n, s, false);
            assert(v.deep_view().len() == v.len());
            Ok(v)
        },
        WindowFn::DenseRank => {
            let v = compute_ranks(keys, n, s, true);
            assert(v.deep_view().len() == v.len());
            Ok(v)
        },
        WindowFn::Lag | WindowFn::Lead => {
            let off: u64 = read_word_argument(args, 1, schema, host)?;
            let default = if args.len() < 3 {
                Value::Null
            } else {
                let none: Vec<Value> = Vec::new();
                assert(none.deep_view() =~= Seq::<ValueView>::empty());
                evaluate_soft(&args[2], none.as_slice(), schema, host)?
            };
            compute_shift(args, off, &default, f == WindowFn::Lead, s, rows, schema, host)
        },
        WindowFn::Ntile => {
            let k: u64 = read_word_argument(args, 0, schema, host)?;
            let v = make_tiles(s.len(), k);
            assert(v.deep_view().len() == v.len());
            Ok(v)
        },
        WindowFn::Count => {
            let v = repeat_value(s.len(), &Value::BigInt(s.len() as i64));
            assert(v.deep_view().len() == v.len());
            Ok(v)
        },
        WindowFn::Unknown => {
            let v = repeat_value(s.len(), &Value::Null);
            assert(v.deep_view().len() == v.len());
            Ok(v)
        },
        _ => {
            if args.len() == 0 {
                let v = repeat_value(s.len(), &Value::Null);
                assert(v.deep_view().len() == v.len());
                return Ok(v);
            }
            let arg = &args[0];
            let single = match f {
                WindowFn::Sum => {
                    let sums = compute_running(arg, s, rows, schema, host)?;
                    if n != 0 || sums.len() == 0 {
                        return Ok(sums);
                    }
                    assert(sums.deep_view().last() == sums@[sums@.len() - 1]@);
                    sums[sums.len() - 1].clone()
                },
                WindowFn::Avg => compute_average(arg, s, rows, schema, host)?,
                WindowFn::Min => compute_best(arg, Order::Less, s, rows, schema, host)?,
                _ => compute_best(arg, Order::Greater, s, rows, schema, host)?,
            };
            let v = repeat_value(s.len(), &single);
            assert(v.deep_view().len() == v.len());
            Ok(v)
        },
    }
}

// ---------------------------------------------------------------------------
// One column
// ---------------------------------------------------------------------------

/// Values put at places, from position `p` on.
pub open spec fn scattered(
    res: Seq<ValueView>,
    s: Seq<usize>,
    vals: Seq<ValueView>,
    p: int,
) -> Seq<ValueView>
    decreases s.len() - p,
{
    if p < 0 || p >= s.len() {
        res
    } else {
        scattered(res.update(s[p] as int, vals[p]), s, vals, p + 1)
    }
}

fn scatter(res: &mut Vec<Value>, s: &Vec<usize>, vals: &Vec<Value>)
    requires
        within(s@, old(res).len() as int),
        vals.len() == s.len(),
    ensures
        final(res).deep_view() == scattered(old(res).deep_view(), s@, vals.deep_view(), 0),
        final(res).len() == old(res).len(),
{
    let ghost start = res.deep_view();
    let ghost vv = vals.deep_view();
    let ghost n = res.len();
    let mut p: usize = 0;
    while p < s.len()
        invariant
            0 <= p <= s.len(),
            res.len() == n,
            within(s@, n as int),
            vals.len() == s.len(),
            vv == vals.deep_view(),
            scattered(start, s@, vv, 0) == scattered(res.deep_view(), s@, vv, p as int),
        decreases s.len() - p,
    {
        let ghost before = res.deep_view();
        let k: usize = s[p];
        let v = vals[p].clone();
        res.set(k, v);
        assert(res.deep_view() =~= before.update(k as int, v@));
        assert(vv[p as int] == v@);
        p += 1;
    }
}

/// A window function over its partitions from `g` on, given the values of those before.
pub open spec fn column_from(
    f: WindowFn,
    args: Seq<Expr>,
    order_by: Seq<OrderByItem>,
    keys: Seq<Seq<ValueView>>,
    parts: Seq<Seq<usize>>,
    g: int,
    res: Seq<ValueView>,
    rows: Seq<RowView>,
    names: Seq<Seq<char>>,
    h: HostView,
) -> std::result::Result<Seq<ValueView>, ErrorView>
    decreases parts.len() - g,
{
    if g < 0 || g >= parts.len() {
        Ok(res)
    } else {
        let s = sorted_places(keys, directions(order_by), false, parts[g]);
        match partition_values(f, args, keys, order_by.len() as int, s, rows, names, h) {
            Err(e) => Err(e),
            Ok(vals) => column_from(
                f,
                args,
                order_by,
                keys,
                parts,
                g + 1,
                scattered(res, s, vals, 0),
                rows,
                names,
                h,
            ),
        }
    }
}

/// The value of a window function on every row.
pub open spec fn window_column(
    name: Seq<char>,
    args: Seq<Expr>,
    partition_by: Seq<Expr>,
    order_by: Seq<OrderByItem>,
    rows: Seq<RowView>,
    names: Seq<Seq<char>>,
    h: HostView,
) -> std::result::Result<Seq<ValueView>, ErrorView> {
    match partitions(partition_by, rows, names, h) {
        Err(e) => Err(e),
        Ok(parts) => match all_window_keys(order_by, rows, 0, Seq::empty(), names, h) {
            Err(e) => Err(e),
            Ok(keys) => column_from(
                window_fn(upper_text(name)),
                args,
                order_by,
                keys,
                parts,
                0,
                same_for_all(rows.len() as int, ValueView::Null),
                rows,
                names,
                h,
            ),
        },
    }
}

/// The value of a window function on every row.
pub fn compute_window_column(
    name: &str,
    args: &Vec<Expr>,
    partition_by: &Vec<Expr>,
    order_by: &Vec<OrderByItem>,
    rows: &[(RID, Vec<Value>)],
    schema: &Schema,
    host: &Host,
) -> (r: Result<Vec<Value>>)
    ensures
        outcome(r) == window_column(
            name@,
            args@,
            partition_by@,
            order_by@,
            rows.deep_view(),
            schema.names(),
            host@,
        ),
        r matches Ok(v) ==> v.len() == rows@.len(),
{
    let parts = partition_rows(partition_by, rows, schema, host)?;
    let keys = compute_all_window_keys(order_by, rows, schema, host)?;
    let asc = sort_directions(order_by.as_slice());
    let f = which_window_fn(name.to_uppercase().as_str());
    let ghost view = rows.deep_view();
    let ghost kv = keys.deep_view();
    let ghost pv = parts.deep_view();
    let mut res = repeat_value(rows.len(), &Value::Null);
    assert(res.deep_view().len() == res.len());
    let mut g: usize = 0;
    while g < parts.len()
        invariant
            0 <= g <= parts.len(),
            res.len() == rows@.len(),
            keys.len() == rows@.len(),
            view == rows.deep_view(),
            kv == keys.deep_view(),
            pv == parts.deep_view(),
            asc@ == directions(order_by@),
            f == window_fn(upper_text(name@)),
            partitions(partition_by@, view, schema.names(), host@) == Ok::<
                Seq<Seq<usize>>,
                ErrorView,
            >(pv),
            all_window_keys(order_by@, view, 0, Seq::empty(), schema.names(), host@) == Ok::<
                Seq<Seq<ValueView>>,
                ErrorView,
            >(kv),
            forall|k: int|
                0 <= k < parts@.len() ==> within((#[trigger] parts@[k])@, rows@.len() as int),
            column_from(
                f,
                args@,
                order_by@,
                kv,
                pv,
                0,
                same_for_all(view.len() as int, ValueView::Null),
                view,
                schema.names(),
                host@,
            ) == column_from(
                f,
                args@,
                order_by@,
                kv,
                pv,
                g as int,
                res.deep_view(),
                view,
                schema.names(),
                host@,
            ),
        decreases parts.len() - g,
    {
        assert(pv[g as int] =~= parts@[g as int]@);
        let s = sort_places(&keys, &asc, false, &parts[g]);
        let vals = compute_partition(
            f,
            args,
            &keys,
            order_by.len(),
            &s,
            rows,
            schema,
            host,
        )?;
        scatter(&mut res, &s, &vals);
        g += 1;
    }
    Ok(res)
}

/// Ranks begin with one and never fall from a row to the next; without gaps they are at most
/// those with gaps, and those are at most the number of the row.
pub proof fn law_ranks_grow(keys: Seq<Seq<ValueView>>, n: int, s: Seq<usize>, p: int)
    requires
        0 <= p,
    ensures
        1 <= run_count(keys, n, s, p) <= run_start(keys, n, s, p) + 1 <= p + 1,
        p > 0 ==> run_start(keys, n, s, p - 1) <= run_start(keys, n, s, p),
        p > 0 ==> run_count(keys, n, s, p - 1) <= run_count(keys, n, s, p),
    decreases p,
{
    if p > 0 {
        law_ranks_grow(keys, n, s, p - 1);
    }
}

} // verus!
