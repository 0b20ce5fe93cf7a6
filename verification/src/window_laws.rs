//! What window functions give to the rows of a partition, by their positions in its order.
use crate::aggregate::{avg_term, RowView};
use crate::ast::{Expr, OrderByItem};
use crate::error::ErrorView;
use crate::eval::eval;
use crate::expression_laws::{as_double, host_gives, stands_for};
use crate::float::float_of_int;
use crate::grouping::{
    distinct_keys, groups, law_every_row_is_in_one_group, lemma_places, places,
};
use crate::host::{FloatOp, HostView};
use crate::order::Order;
use crate::sort::{directions, law_sorting_rearranges, sorted_places};
use crate::text::upper_text;
use crate::types::ValueView;
use crate::window::{
    all_window_keys, average_from, best_from, column_from, lenient, partition_key, partition_keys,
    partition_values, partitions, run_count, run_start, running_from, same_for_all, scattered,
    shift_default, shift_from, shifted, soft, sum_step, window_column, window_fn, word_argument,
    WindowFn,
};
use vstd::prelude::*;

verus! {

// ---------------------------------------------------------------------------
// Positions
// ---------------------------------------------------------------------------

/// A window function, what it is called on, and the rows that it is called over.
pub struct Window {
    pub name: Seq<char>,
    pub args: Seq<Expr>,
    pub partition_by: Seq<Expr>,
    pub order_by: Seq<OrderByItem>,
    pub rows: Seq<RowView>,
    pub names: Seq<Seq<char>>,
}

impl Window {
    /// The values that the rows get.
    pub open spec fn column(self, h: HostView) -> std::result::Result<Seq<ValueView>, ErrorView> {
        window_column(
            self.name,
            self.args,
            self.partition_by,
            self.order_by,
            self.rows,
            self.names,
            h,
        )
    }

    /// The keys by which the rows are ordered.
    pub open spec fn keys(self, h: HostView) -> Seq<Seq<ValueView>> {
        all_window_keys(self.order_by, self.rows, 0, Seq::empty(), self.names, h)->Ok_0
    }

    /// The places of the rows of a partition, in its order.
    pub open spec fn part(self, g: int, h: HostView) -> Seq<usize> {
        sorted_places(
            self.keys(h),
            directions(self.order_by),
            false,
            partitions(self.partition_by, self.rows, self.names, h)->Ok_0[g],
        )
    }

    /// Whether there is such a partition, and the function gives values.
    pub open spec fn has_part(self, g: int, h: HostView) -> bool {
        &&& self.rows.len() <= usize::MAX
        &&& self.column(h) is Ok
        &&& 0 <= g < partitions(self.partition_by, self.rows, self.names, h)->Ok_0.len()
    }

    /// The value that the row at a position of a partition gets.
    pub open spec fn at(self, g: int, p: int, h: HostView) -> ValueView {
        self.column(h)->Ok_0[self.part(g, h)[p] as int]
    }

    /// The value of an expression on the row at a position of a partition.
    pub open spec fn on(self, e: Expr, g: int, p: int, h: HostView) -> std::result::Result<
        ValueView,
        ErrorView,
    > {
        eval(e, self.rows[self.part(g, h)[p] as int].1, self.names, h)
    }
}

/// Whether places are below `n` and none is there twice.
spec fn apart(s: Seq<usize>, n: int) -> bool {
    &&& forall|p: int| 0 <= p < s.len() ==> #[trigger] s[p] < n
    &&& s.no_duplicates()
}

proof fn lemma_sorted_members(
    keys: Seq<Seq<ValueView>>,
    asc: Seq<bool>,
    idx: Seq<usize>,
    n: int,
)
    requires
        apart(idx, n),
    ensures
        sorted_places(keys, asc, false, idx).len() == idx.len(),
        apart(sorted_places(keys, asc, false, idx), n),
        forall|x: usize| #[trigger]
            sorted_places(keys, asc, false, idx).contains(x) <==> idx.contains(x),
{
    broadcast use vstd::seq_lib::group_to_multiset_ensures;

    let s = sorted_places(keys, asc, false, idx);
    law_sorting_rearranges(keys, asc, false, idx);
    assert forall|x: usize| #[trigger] s.contains(x) <==> idx.contains(x) by {
        assert(s.to_multiset().count(x) == idx.to_multiset().count(x));
    }
    assert forall|p: int| 0 <= p < s.len() implies #[trigger] s[p] < n by {
        assert(s.contains(s[p]));
        let q = choose|q: int| 0 <= q < idx.len() && idx[q] == s[p];
        assert(idx[q] < n);
    }
    idx.lemma_multiset_has_no_duplicates();
    assert forall|x: usize| s.to_multiset().contains(x) implies s.to_multiset().count(x) == 1 by {
        assert(idx.to_multiset().contains(x));
    }
    s.lemma_multiset_has_no_duplicates_conv();
}

proof fn lemma_scattered(
    res: Seq<ValueView>,
    s: Seq<usize>,
    vals: Seq<ValueView>,
    p: int,
)
    requires
        0 <= p <= s.len(),
        vals.len() == s.len(),
        apart(s, res.len() as int),
    ensures
        scattered(res, s, vals, p).len() == res.len(),
        forall|q: int| p <= q < s.len() ==> scattered(res, s, vals, p)[#[trigger] s[q] as int]
            == vals[q],
        forall|i: int|
            0 <= i < res.len() && (forall|q: int| p <= q < s.len() ==> #[trigger] s[q] != i)
                ==> #[trigger] scattered(res, s, vals, p)[i] == res[i],
    decreases s.len() - p,
{
    if p < s.len() {
        let next = res.update(s[p] as int, vals[p]);
        lemma_scattered(next, s, vals, p + 1);
        let all = scattered(res, s, vals, p);
        assert forall|q: int| p <= q < s.len() implies all[#[trigger] s[q] as int] == vals[q] by {
            if q == p {
                assert forall|r: int| p + 1 <= r < s.len() implies #[trigger] s[r] != s[p] by {
                    assert(s[r] != s[p]);
                }
                assert(next[s[p] as int] == vals[p]);
            }
        }
        assert forall|i: int|
            0 <= i < res.len() && (forall|q: int|
                p <= q < s.len() ==> #[trigger] s[q] != i) implies #[trigger] all[i] == res[i] by {
            assert(s[p] != i);
            assert(next[i] == res[i]);
        }
    }
}

// ---------------------------------------------------------------------------
// The values of one partition
// ---------------------------------------------------------------------------

/// The position that LAG, or else LEAD, looks at from a position.
pub open spec fn looked_at(lead: bool, p: int, k: int) -> int {
    if lead {
        p + k
    } else {
        p - k
    }
}

proof fn lemma_shift(
    args: Seq<Expr>,
    k: int,
    default: ValueView,
    lead: bool,
    s: Seq<usize>,
    p: int,
    acc: Seq<ValueView>,
    rows: Seq<RowView>,
    names: Seq<Seq<char>>,
    h: HostView,
)
    requires
        0 <= k,
        0 <= p <= s.len(),
        acc.len() == p,
        shift_from(args, k, default, lead, s, p, acc, rows, names, h) is Ok,
    ensures
        ({
            let out = shift_from(args, k, default, lead, s, p, acc, rows, names, h)->Ok_0;
            &&& out.len() == s.len()
            &&& forall|q: int| 0 <= q < p ==> #[trigger] out[q] == acc[q]
            &&& forall|q: int|
                p <= q < s.len() && !(0 <= looked_at(lead, q, k) < s.len()) ==> #[trigger] out[q]
                    == default
            &&& forall|q: int|
                p <= q < s.len() && 0 <= looked_at(lead, q, k) < s.len() && args.len() > 0
                    && eval(args[0], rows[s[looked_at(lead, q, k)] as int].1, names, h) is Ok
                    ==> eval(args[0], rows[s[looked_at(lead, q, k)] as int].1, names, h) == Ok::<
                    ValueView,
                    ErrorView,
                >(#[trigger] out[q])
        }),
    decreases s.len() - p,
{
    if p < s.len() {
        let out = shift_from(args, k, default, lead, s, p, acc, rows, names, h)->Ok_0;
        let v = match shifted(p, k, s.len() as int, lead) {
            None => Ok(default),
            Some(q) => if args.len() == 0 {
                Ok(ValueView::Null)
            } else {
                lenient(eval(args[0], rows[s[q] as int].1, names, h), default)
            },
        };
        let next = acc.push(v->Ok_0);
        lemma_shift(args, k, default, lead, s, p + 1, next, rows, names, h);
        assert(out[p] == next[p]);
        assert forall|q: int| 0 <= q < p implies #[trigger] out[q] == acc[q] by {
            assert(out[q] == next[q]);
        }
    }
}

proof fn lemma_running(
    e: Expr,
    s: Seq<usize>,
    p: int,
    sum: ValueView,
    acc: Seq<ValueView>,
    rows: Seq<RowView>,
    names: Seq<Seq<char>>,
    h: HostView,
)
    requires
        0 <= p <= s.len(),
        acc.len() == p,
        p > 0 ==> acc[p - 1] == sum,
        p == 0 ==> sum == ValueView::Float(0),
        sum is Float,
        running_from(e, s, p, sum, acc, rows, names, h) is Ok,
    ensures
        ({
            let out = running_from(e, s, p, sum, acc, rows, names, h)->Ok_0;
            &&& out.len() == s.len()
            &&& forall|q: int| 0 <= q < s.len() ==> #[trigger] out[q] is Float || q < p
            &&& forall|q: int| 0 <= q < p ==> #[trigger] out[q] == acc[q]
            &&& forall|q: int|
                p <= q < s.len() ==> adds(
                    eval(e, rows[s[q] as int].1, names, h),
                    if q == 0 {
                        ValueView::Float(0)
                    } else {
                        out[q - 1]
                    },
                    #[trigger] out[q],
                    h,
                )
        }),
    decreases s.len() - p,
{
    if p < s.len() {
        let out = running_from(e, s, p, sum, acc, rows, names, h)->Ok_0;
        let v = soft(e, rows[s[p] as int].1, names, h)->Ok_0;
        let t = sum_step(sum, v, h)->Ok_0;
        lemma_running(e, s, p + 1, t, acc.push(t), rows, names, h);
        assert(out[p] == acc.push(t)[p]);
        if p > 0 {
            assert(out[p - 1] == acc.push(t)[p - 1]);
        }
        assert forall|q: int| 0 <= q < p implies #[trigger] out[q] == acc[q] by {
            assert(out[q] == acc.push(t)[q]);
        }
    }
}

/// Whether a sum follows from the one before it and the value of an expression: NULL leaves it as
/// it is, and a number is added to it.
pub open spec fn adds(
    value: std::result::Result<ValueView, ErrorView>,
    before: ValueView,
    after: ValueView,
    h: HostView,
) -> bool {
    match value {
        Ok(ValueView::Null) => after == before,
        Ok(v) => forall|d: u64| #[trigger]
            as_double(v, d) ==> (before matches ValueView::Float(x) && h.numeric(
                FloatOp::Add,
                x,
                d,
            ) matches Ok(y) && after == ValueView::Float(y)),
        Err(_) => true,
    }
}

/// The doubles that the rows at the first `n` places give for an average.
pub open spec fn averaged(
    e: Expr,
    s: Seq<usize>,
    n: int,
    rows: Seq<RowView>,
    names: Seq<Seq<char>>,
    h: HostView,
) -> Seq<u64>
    decreases n,
{
    if n <= 0 {
        Seq::empty()
    } else {
        let before = averaged(e, s, n - 1, rows, names, h);
        match eval(e, rows[s[n - 1] as int].1, names, h) {
            Ok(ValueView::Integer(i)) => before.push(float_of_int(i as int) as u64),
            Ok(ValueView::BigInt(i)) => before.push(float_of_int(i as int) as u64),
            Ok(ValueView::Float(f)) => before.push(f),
            _ => before,
        }
    }
}

/// Doubles added up, one after the other, from zero on.
pub open spec fn added_up(xs: Seq<u64>, h: HostView) -> std::result::Result<u64, ErrorView>
    decreases xs.len(),
{
    if xs.len() == 0 {
        Ok(0)
    } else {
        match added_up(xs.drop_last(), h) {
            Err(e) => Err(e),
            Ok(x) => h.numeric(FloatOp::Add, x, xs.last()),
        }
    }
}

proof fn lemma_average(
    e: Expr,
    s: Seq<usize>,
    p: int,
    sum: u64,
    count: nat,
    rows: Seq<RowView>,
    names: Seq<Seq<char>>,
    h: HostView,
)
    requires
        0 <= p <= s.len(),
        average_from(e, s, p, sum, count, rows, names, h) is Ok,
        added_up(averaged(e, s, p, rows, names, h), h) == Ok::<u64, ErrorView>(sum),
        averaged(e, s, p, rows, names, h).len() == count,
    ensures
        ({
            let xs = averaged(e, s, s.len() as int, rows, names, h);
            average_from(e, s, p, sum, count, rows, names, h) == if xs.len() == 0 {
                Ok(ValueView::Null)
            } else {
                match added_up(xs, h) {
                    Err(e) => Err(e),
                    Ok(x) => host_gives(
                        h.numeric(
                            FloatOp::Div,
                            x,
                            float_of_int((xs.len() as i64) as int) as u64,
                        ),
                    ),
                }
            }
        }),
    decreases s.len() - p,
{
    if p < s.len() {
        let v = soft(e, rows[s[p] as int].1, names, h)->Ok_0;
        let before = averaged(e, s, p, rows, names, h);
        let after = averaged(e, s, p + 1, rows, names, h);
        match avg_term(v) {
            None => {
                assert(after == before);
                lemma_average(e, s, p + 1, sum, count, rows, names, h);
            },
            Some(x) => {
                assert(after == before.push(x));
                assert(after.drop_last() =~= before);
                let t = h.numeric(FloatOp::Add, sum, x)->Ok_0;
                lemma_average(e, s, p + 1, t, count + 1, rows, names, h);
            },
        }
    }
}

/// Whether the value of an expression is an integer or NULL.
pub open spec fn integer_or_null(r: std::result::Result<ValueView, ErrorView>) -> bool {
    r matches Ok(v) && (v is Null || v is Integer || v is BigInt)
}

proof fn lemma_best(
    e: Expr,
    want: Order,
    s: Seq<usize>,
    p: int,
    best: ValueView,
    rows: Seq<RowView>,
    names: Seq<Seq<char>>,
    h: HostView,
)
    requires
        0 <= p <= s.len(),
        want == Order::Less || want == Order::Greater,
        best is Null || best is Integer || best is BigInt,
        forall|q: int|
            0 <= q < s.len() ==> integer_or_null(
                eval(e, rows[#[trigger] s[q] as int].1, names, h),
            ),
    ensures
        best_from(e, want, s, p, best, rows, names, h) is Ok,
        ({
            let m = best_from(e, want, s, p, best, rows, names, h)->Ok_0;
            &&& m is Null || m is Integer || m is BigInt
            &&& m == best || exists|q: int|
                p <= q < s.len() && eval(e, rows[#[trigger] s[q] as int].1, names, h) == Ok::<
                    ValueView,
                    ErrorView,
                >(m)
            &&& no_better(best, m, want)
            &&& forall|q: int|
                p <= q < s.len() ==> no_better(
                    eval(e, rows[#[trigger] s[q] as int].1, names, h)->Ok_0,
                    m,
                    want,
                )
        }),
    decreases s.len() - p,
{
    if p < s.len() {
        assert(integer_or_null(eval(e, rows[s[p] as int].1, names, h)));
        let v = eval(e, rows[s[p] as int].1, names, h)->Ok_0;
        let next = if !v.is_null() && (best.is_null() || v.compare(best) == Some(want)) {
            v
        } else {
            best
        };
        lemma_best(e, want, s, p + 1, next, rows, names, h);
        let m = best_from(e, want, s, p, best, rows, names, h)->Ok_0;
        assert(no_better(next, m, want));
        assert(no_better(v, m, want));
    }
}

/// The integer that a value holds, if it holds one.
pub open spec fn held(v: ValueView) -> Option<int> {
    match v {
        ValueView::Integer(n) => Some(n as int),
        ValueView::BigInt(n) => Some(n as int),
        _ => None,
    }
}

/// Whether an integer is no less, or else no greater, than another. What is none is never better.
pub open spec fn no_better(v: ValueView, m: ValueView, want: Order) -> bool {
    match (held(v), held(m)) {
        (None, _) => true,
        (Some(a), Some(b)) => if want == Order::Less {
            b <= a
        } else {
            a <= b
        },
        (Some(_), None) => false,
    }
}

proof fn lemma_length(
    f: WindowFn,
    args: Seq<Expr>,
    keys: Seq<Seq<ValueView>>,
    n: int,
    s: Seq<usize>,
    rows: Seq<RowView>,
    names: Seq<Seq<char>>,
    h: HostView,
)
    requires
        partition_values(f, args, keys, n, s, rows, names, h) is Ok,
    ensures
        partition_values(f, args, keys, n, s, rows, names, h)->Ok_0.len() == s.len(),
{
    match f {
        WindowFn::Lag | WindowFn::Lead => {
            let k = word_argument(args, 1, names, h)->Ok_0;
            let d = shift_default(args, names, h)->Ok_0;
            lemma_word(args, 1, names, h);
            lemma_shift(args, k, d, f == WindowFn::Lead, s, 0, Seq::empty(), rows, names, h);
        },
        WindowFn::Sum => {
            if args.len() > 0 {
                lemma_running(
                    args[0],
                    s,
                    0,
                    ValueView::Float(0),
                    Seq::empty(),
                    rows,
                    names,
                    h,
                );
            }
        },
        _ => {},
    }
}

proof fn lemma_word(args: Seq<Expr>, i: int, names: Seq<Seq<char>>, h: HostView)
    ensures
        word_argument(args, i, names, h) matches Ok(k) ==> k >= 0,
{
}

// ---------------------------------------------------------------------------
// All partitions
// ---------------------------------------------------------------------------

proof fn lemma_column(
    f: WindowFn,
    args: Seq<Expr>,
    order_by: Seq<OrderByItem>,
    keys: Seq<Seq<ValueView>>,
    pkeys: Seq<Seq<u8>>,
    g: int,
    res: Seq<ValueView>,
    rows: Seq<RowView>,
    names: Seq<Seq<char>>,
    h: HostView,
    a: int,
)
    requires
        pkeys.len() == rows.len() <= usize::MAX,
        res.len() == rows.len(),
        0 <= g <= groups(pkeys).len(),
        0 <= a < groups(pkeys).len(),
        column_from(f, args, order_by, keys, groups(pkeys), g, res, rows, names, h) is Ok,
        a < g ==> ({
            let s = sorted_places(keys, directions(order_by), false, groups(pkeys)[a]);
            let v = partition_values(f, args, keys, order_by.len() as int, s, rows, names, h);
            v is Ok && forall|p: int|
                0 <= p < s.len() ==> res[#[trigger] s[p] as int] == v->Ok_0[p]
        }),
    ensures
        ({
            let all = column_from(f, args, order_by, keys, groups(pkeys), g, res, rows, names, h);
            let s = sorted_places(keys, directions(order_by), false, groups(pkeys)[a]);
            let v = partition_values(f, args, keys, order_by.len() as int, s, rows, names, h);
            &&& v is Ok
            &&& forall|p: int|
                0 <= p < s.len() ==> all->Ok_0[#[trigger] s[p] as int] == v->Ok_0[p]
        }),
    decreases groups(pkeys).len() - g,
{
    let parts = groups(pkeys);
    if g < parts.len() {
        let asc = directions(order_by);
        let n = order_by.len() as int;
        lemma_group_apart(pkeys, g);
        lemma_group_apart(pkeys, a);
        let s = sorted_places(keys, asc, false, parts[g]);
        let t = sorted_places(keys, asc, false, parts[a]);
        lemma_sorted_members(keys, asc, parts[g], rows.len() as int);
        lemma_sorted_members(keys, asc, parts[a], rows.len() as int);
        lemma_length(f, args, keys, n, s, rows, names, h);
        let vals = partition_values(f, args, keys, n, s, rows, names, h)->Ok_0;
        lemma_scattered(res, s, vals, 0);
        let next = scattered(res, s, vals, 0);
        if a < g {
            let old = partition_values(f, args, keys, n, t, rows, names, h)->Ok_0;
            assert forall|p: int| 0 <= p < t.len() implies next[#[trigger] t[p] as int]
                == old[p] by {
                assert(t.contains(t[p]));
                assert(parts[a].contains(t[p]));
                assert forall|q: int| 0 <= q < s.len() implies #[trigger] s[q] != t[p] by {
                    assert(s.contains(s[q]));
                    assert(parts[g].contains(s[q]));
                    law_every_row_is_in_one_group(pkeys, t[p] as int);
                    assert(distinct_keys(pkeys)[a] != distinct_keys(pkeys)[g]);
                }
                assert(next[t[p] as int] == res[t[p] as int]);
            }
        }
        lemma_column(f, args, order_by, keys, pkeys, g + 1, next, rows, names, h, a);
    }
}

proof fn lemma_group_apart(pkeys: Seq<Seq<u8>>, g: int)
    requires
        pkeys.len() <= usize::MAX,
        0 <= g < groups(pkeys).len(),
    ensures
        apart(groups(pkeys)[g], pkeys.len() as int),
{
    lemma_places(pkeys, distinct_keys(pkeys)[g]);
    lemma_places_grow(pkeys, distinct_keys(pkeys)[g]);
}

proof fn lemma_places_grow(keys: Seq<Seq<u8>>, key: Seq<u8>)
    requires
        keys.len() <= usize::MAX,
    ensures
        apart(places(keys, key), keys.len() as int),
    decreases keys.len(),
{
    if keys.len() > 0 {
        lemma_places_grow(keys.drop_last(), key);
    }
}

proof fn lemma_partition_keys(
    exprs: Seq<Expr>,
    rows: Seq<RowView>,
    i: int,
    acc: Seq<Seq<u8>>,
    names: Seq<Seq<char>>,
    h: HostView,
)
    requires
        0 <= i <= rows.len(),
        acc.len() == i,
        partition_keys(exprs, rows, i, acc, names, h) is Ok,
    ensures
        partition_keys(exprs, rows, i, acc, names, h)->Ok_0.len() == rows.len(),
    decreases rows.len() - i,
{
    if i < rows.len() {
        let k = partition_key(exprs, 0, Seq::empty(), rows[i].1, names, h)->Ok_0;
        lemma_partition_keys(exprs, rows, i + 1, acc.push(k), names, h);
    }
}

proof fn lemma_at(w: Window, g: int, h: HostView)
    requires
        w.has_part(g, h),
    ensures
        ({
            let s = w.part(g, h);
            let v = partition_values(
                window_fn(upper_text(w.name)),
                w.args,
                w.keys(h),
                w.order_by.len() as int,
                s,
                w.rows,
                w.names,
                h,
            );
            &&& v is Ok
            &&& v->Ok_0.len() == s.len()
            &&& forall|p: int| 0 <= p < s.len() ==> #[trigger] w.at(g, p, h) == v->Ok_0[p]
            &&& apart(s, w.rows.len() as int)
        }),
{
    let pkeys = partition_keys(w.partition_by, w.rows, 0, Seq::empty(), w.names, h)->Ok_0;
    lemma_partition_keys(w.partition_by, w.rows, 0, Seq::empty(), w.names, h);
    let f = window_fn(upper_text(w.name));
    lemma_column(
        f,
        w.args,
        w.order_by,
        w.keys(h),
        pkeys,
        0,
        same_for_all(w.rows.len() as int, ValueView::Null),
        w.rows,
        w.names,
        h,
        g,
    );
    let s = w.part(g, h);
    lemma_length(f, w.args, w.keys(h), w.order_by.len() as int, s, w.rows, w.names, h);
    lemma_group_apart(pkeys, g);
    lemma_sorted_members(w.keys(h), directions(w.order_by), groups(pkeys)[g], w.rows.len() as int);
    assert forall|p: int| 0 <= p < s.len() implies #[trigger] w.at(g, p, h) == partition_values(
        f,
        w.args,
        w.keys(h),
        w.order_by.len() as int,
        s,
        w.rows,
        w.names,
        h,
    )->Ok_0[p] by {
        let x = s[p];
    }
}

proof fn lemma_names()
    ensures
        window_fn("ROW_NUMBER"@) == WindowFn::RowNumber,
        window_fn("RANK"@) == WindowFn::Rank,
        window_fn("DENSE_RANK"@) == WindowFn::DenseRank,
        window_fn("LAG"@) == WindowFn::Lag,
        window_fn("LEAD"@) == WindowFn::Lead,
        window_fn("NTILE"@) == WindowFn::Ntile,
        window_fn("SUM"@) == WindowFn::Sum,
        window_fn("AVG"@) == WindowFn::Avg,
        window_fn("COUNT"@) == WindowFn::Count,
        window_fn("MIN"@) == WindowFn::Min,
        window_fn("MAX"@) == WindowFn::Max,
{
    reveal_strlit("ROW_NUMBER");
    reveal_strlit("RANK");
    reveal_strlit("DENSE_RANK");
    reveal_strlit("LAG");
    reveal_strlit("LEAD");
    reveal_strlit("NTILE");
    reveal_strlit("SUM");
    reveal_strlit("AVG");
    reveal_strlit("COUNT");
    reveal_strlit("MIN");
    reveal_strlit("MAX");
    assert("RANK"@.len() == 4 && "LEAD"@.len() == 4 && "ROW_NUMBER"@.len() == 10);
    assert("DENSE_RANK"@.len() == 10 && "NTILE"@.len() == 5 && "COUNT"@.len() == 5);
    assert("LAG"@.len() == 3 && "SUM"@.len() == 3 && "AVG"@.len() == 3);
    assert("LAG"@[0] == 'L');
    assert("SUM"@[0] == 'S');
    assert("AVG"@[0] == 'A');
    assert("MIN"@[0] == 'M');
    assert("MAX"@[0] == 'M');
    assert("MIN"@[1] == 'I');
    assert("MAX"@[1] == 'A');
    assert("RANK"@[0] == 'R');
    assert("LEAD"@[0] == 'L');
    assert("ROW_NUMBER"@[0] == 'R');
    assert("DENSE_RANK"@[0] == 'D');
    assert("NTILE"@[0] == 'N');
    assert("COUNT"@[0] == 'C');
}

// ---------------------------------------------------------------------------
// Laws
// ---------------------------------------------------------------------------

/// LAG(e, k) gives a row the value of `e` on the row `k` positions before it in its partition,
/// and LEAD(e, k) that on the row `k` positions behind it; where the partition has no such row,
/// the third argument, or NULL without one. Without a second argument `k` is one.
pub proof fn law_lag_looks_back_and_lead_ahead(w: Window, g: int, k: int, h: HostView)
    requires
        w.has_part(g, h),
        upper_text(w.name) == "LAG"@ || upper_text(w.name) == "LEAD"@,
        w.args.len() > 0,
        if w.args.len() == 1 {
            k == 1
        } else {
            0 <= k && (eval(w.args[1], Seq::empty(), w.names, h) matches Ok(v) && stands_for(v, k))
        },
    ensures
        upper_text(w.name) == "LAG"@ ==> forall|p: int|
            k <= p < w.part(g, h).len() && w.on(w.args[0], g, p - k, h) is Ok ==> w.on(
                w.args[0],
                g,
                p - k,
                h,
            ) == Ok::<ValueView, ErrorView>(#[trigger] w.at(g, p, h)),
        upper_text(w.name) == "LEAD"@ ==> forall|p: int|
            0 <= p < w.part(g, h).len() - k && w.on(w.args[0], g, p + k, h) is Ok ==> w.on(
                w.args[0],
                g,
                p + k,
                h,
            ) == Ok::<ValueView, ErrorView>(#[trigger] w.at(g, p, h)),
        forall|p: int|
            0 <= p < w.part(g, h).len() && (if upper_text(w.name) == "LAG"@ {
                p < k
            } else {
                p + k >= w.part(g, h).len()
            }) ==> if w.args.len() < 3 {
                #[trigger] w.at(g, p, h) is Null
            } else {
                eval(w.args[2], Seq::empty(), w.names, h) matches Ok(d) ==> w.at(g, p, h) == d
            },
{
    lemma_at(w, g, h);
    lemma_names();
    let s = w.part(g, h);
    let f = window_fn(upper_text(w.name));
    let d = shift_default(w.args, w.names, h)->Ok_0;
    let lead = f == WindowFn::Lead;
    lemma_shift(w.args, k, d, lead, s, 0, Seq::empty(), w.rows, w.names, h);
    let out = shift_from(w.args, k, d, lead, s, 0, Seq::empty(), w.rows, w.names, h)->Ok_0;
    assert forall|p: int| 0 <= p < s.len() implies #[trigger] w.at(g, p, h) == out[p] by {}
}

/// ROW_NUMBER numbers the rows of a partition from one on, and COUNT gives each how many there
/// are.
pub proof fn law_rows_are_numbered_and_counted(w: Window, g: int, h: HostView)
    requires
        w.has_part(g, h),
    ensures
        upper_text(w.name) == "ROW_NUMBER"@ ==> forall|p: int|
            0 <= p < w.part(g, h).len() ==> #[trigger] w.at(g, p, h) == ValueView::BigInt(
                (p + 1) as i64,
            ),
        upper_text(w.name) == "COUNT"@ ==> forall|p: int|
            0 <= p < w.part(g, h).len() ==> #[trigger] w.at(g, p, h) == ValueView::BigInt(
                w.part(g, h).len() as i64,
            ),
{
    lemma_at(w, g, h);
    lemma_names();
}

/// NTILE(k) divides a partition into `k` tiles of as nearly as possible the same size: the row at
/// position `p` of `n` is in the tile `t` for which `p * k / n` lies between `t - 1` and `t`.
pub proof fn law_tiles_are_even(w: Window, g: int, k: int, h: HostView)
    requires
        w.has_part(g, h),
        upper_text(w.name) == "NTILE"@,
        w.args.len() > 0,
        0 < k <= i32::MAX,
        w.rows.len() <= i32::MAX,
        eval(w.args[0], Seq::empty(), w.names, h) matches Ok(v) && stands_for(v, k),
    ensures
        forall|p: int|
            0 <= p < w.part(g, h).len() ==> (#[trigger] w.at(g, p, h) matches ValueView::BigInt(t)
                && 1 <= t <= k && (t - 1) * w.part(g, h).len() <= p * k < t * w.part(g, h).len()),
{
    lemma_at(w, g, h);
    lemma_names();
    let n = w.part(g, h).len() as int;
    assert forall|p: int| 0 <= p < n implies (#[trigger] w.at(g, p, h) matches ValueView::BigInt(t)
        && 1 <= t <= k && (t - 1) * n <= p * k < t * n) by {
        let q = p * k / n;
        assert(0 <= p * k < n * k) by (nonlinear_arith)
            requires
                0 <= p < n,
                0 < k,
        ;
        assert(q * n <= p * k < (q + 1) * n && 0 <= q < k) by (nonlinear_arith)
            requires
                q == p * k / n,
                0 <= p * k < n * k,
                0 < n,
        ;
        assert((q + 1) as i64 == q + 1);
    }
}

/// Whether two rows tie: all their keys are equal.
pub open spec fn tie(a: Seq<ValueView>, b: Seq<ValueView>, n: int) -> bool {
    forall|i: int|
        0 <= i < n ==> i < a.len() && i < b.len() && (#[trigger] a[i]).compare(b[i]) == Some(
            Order::Equal,
        )
}

proof fn lemma_run(keys: Seq<Seq<ValueView>>, n: int, s: Seq<usize>, p: int)
    requires
        0 <= p,
    ensures
        ({
            let q = run_start(keys, n, s, p);
            &&& 0 <= q <= p
            &&& run_start(keys, n, s, q) == q
            &&& forall|j: int| q < j <= p ==> tie(keys[s[q] as int], keys[#[trigger] s[j] as int], n)
            &&& q > 0 ==> !tie(
                keys[s[run_start(keys, n, s, q - 1)] as int],
                keys[s[q] as int],
                n,
            )
        }),
    decreases p,
{
    if p > 0 {
        lemma_run(keys, n, s, p - 1);
    }
}

proof fn lemma_run_count(keys: Seq<Seq<ValueView>>, n: int, s: Seq<usize>, p: int)
    requires
        0 <= p,
    ensures
        1 <= run_count(keys, n, s, p) <= p + 1,
    decreases p,
{
    if p > 0 {
        lemma_run_count(keys, n, s, p - 1);
    }
}

/// RANK gives a row one more than the number of rows before those that tie with it: the row with
/// that number ties with it and with all between, and does not tie with those before.
pub proof fn law_rank_is_where_ties_begin(w: Window, g: int, p: int, h: HostView)
    requires
        w.has_part(g, h),
        upper_text(w.name) == "RANK"@,
        w.rows.len() <= i64::MAX,
        0 <= p < w.part(g, h).len(),
    ensures
        w.at(g, p, h) matches ValueView::BigInt(r) && 1 <= r <= p + 1 && {
            let n = w.order_by.len() as int;
            let s = w.part(g, h);
            &&& forall|j: int|
                r <= j <= p ==> tie(
                    w.keys(h)[s[r - 1] as int],
                    w.keys(h)[#[trigger] s[j] as int],
                    n,
                )
            &&& r > 1 ==> (w.at(g, r - 2, h) matches ValueView::BigInt(b) && !tie(
                w.keys(h)[s[b - 1] as int],
                w.keys(h)[s[r - 1] as int],
                n,
            ))
        },
{
    lemma_at(w, g, h);
    lemma_names();
    lemma_part_fits(w, g, h);
    let s = w.part(g, h);
    let n = w.order_by.len() as int;
    lemma_run(w.keys(h), n, s, p);
    let q = run_start(w.keys(h), n, s, p);
    if q > 0 {
        lemma_run(w.keys(h), n, s, q - 1);
        assert(w.at(g, q - 1, h) == ValueView::BigInt(
            (run_start(w.keys(h), n, s, q - 1) + 1) as i64,
        ));
    }
    assert(w.at(g, p, h) == ValueView::BigInt((q + 1) as i64));
}

/// A partition has no more rows than there are.
proof fn lemma_part_fits(w: Window, g: int, h: HostView)
    requires
        w.has_part(g, h),
    ensures
        w.part(g, h).len() <= w.rows.len(),
{
    lemma_at(w, g, h);
    let s = w.part(g, h);
    let set = s.to_set();
    s.unique_seq_to_set();
    let all = Set::<usize>::new(|x: usize| x < w.rows.len());
    vstd::set_lib::lemma_int_range(0, w.rows.len() as int);
    let ints = set.map(|x: usize| x as int);
    vstd::set_lib::lemma_map_size(set, ints, |x: usize| x as int);
    assert(ints.subset_of(vstd::set_lib::set_int_range(0, w.rows.len() as int))) by {
        assert forall|y: int| ints.contains(y) implies 0 <= y < w.rows.len() by {
            let x = choose|x: usize| set.contains(x) && y == x as int;
            let k = choose|k: int| 0 <= k < s.len() && s[k] == x;
            assert(s[k] < w.rows.len());
        }
    }
    vstd::set_lib::lemma_len_subset(ints, vstd::set_lib::set_int_range(0, w.rows.len() as int));
}

/// DENSE_RANK begins with one, and grows by one with each row that does not tie with those before
/// it; RANK there is the number of the row.
pub proof fn law_dense_rank_counts_ties(w: Window, r: Window, g: int, p: int, h: HostView)
    requires
        w.has_part(g, h),
        r.has_part(g, h),
        upper_text(w.name) == "DENSE_RANK"@,
        upper_text(r.name) == "RANK"@,
        w == (Window { name: w.name, ..r }),
        w.rows.len() <= i64::MAX,
        0 <= p < w.part(g, h).len(),
    ensures
        p == 0 ==> w.at(g, p, h) == ValueView::BigInt(1),
        p > 0 ==> (w.at(g, p, h) matches ValueView::BigInt(a) && w.at(
            g,
            p - 1,
            h,
        ) matches ValueView::BigInt(b) && r.at(g, p, h) matches ValueView::BigInt(c) && a == if c
            == p + 1 {
            b + 1
        } else {
            b as int
        }),
{
    lemma_at(w, g, h);
    lemma_at(r, g, h);
    lemma_names();
    lemma_part_fits(w, g, h);
    let s = w.part(g, h);
    assert(s == r.part(g, h));
    let n = w.order_by.len() as int;
    lemma_run(w.keys(h), n, s, p);
    lemma_run_count(w.keys(h), n, s, p);
    assert(w.at(g, p, h) == ValueView::BigInt(run_count(w.keys(h), n, s, p) as i64));
    assert(r.at(g, p, h) == ValueView::BigInt((run_start(w.keys(h), n, s, p) + 1) as i64));
    if p > 0 {
        lemma_run_count(w.keys(h), n, s, p - 1);
        assert(w.at(g, p - 1, h) == ValueView::BigInt(run_count(w.keys(h), n, s, p - 1) as i64));
    }
}

/// SUM(e) over a partition in order gives a row the sum of the values of `e` from the first row
/// up to it; without an order every row gets the sum of all.
pub proof fn law_sums_run(w: Window, g: int, h: HostView) -> (sums: Seq<ValueView>)
    requires
        w.has_part(g, h),
        upper_text(w.name) == "SUM"@,
        w.args.len() > 0,
    ensures
        sums.len() == w.part(g, h).len(),
        forall|p: int|
            0 <= p < sums.len() ==> adds(
                w.on(w.args[0], g, p, h),
                if p == 0 {
                    ValueView::Float(0)
                } else {
                    sums[p - 1]
                },
                #[trigger] sums[p],
                h,
            ),
        forall|p: int|
            0 <= p < sums.len() ==> #[trigger] w.at(g, p, h) == if w.order_by.len() == 0 {
                sums.last()
            } else {
                sums[p]
            },
{
    lemma_at(w, g, h);
    lemma_names();
    let s = w.part(g, h);
    lemma_running(
        w.args[0],
        s,
        0,
        ValueView::Float(0),
        Seq::empty(),
        w.rows,
        w.names,
        h,
    );
    running_from(w.args[0], s, 0, ValueView::Float(0), Seq::empty(), w.rows, w.names, h)->Ok_0
}

/// AVG(e) over a partition gives every row the sum of the numbers that `e` has on its rows,
/// divided by how many they are; NULL, if there are none.
pub proof fn law_average_is_sum_over_count(w: Window, g: int, p: int, h: HostView)
    requires
        w.has_part(g, h),
        upper_text(w.name) == "AVG"@,
        w.args.len() > 0,
        0 <= p < w.part(g, h).len(),
    ensures
        ({
            let s = w.part(g, h);
            let xs = averaged(w.args[0], s, s.len() as int, w.rows, w.names, h);
            if xs.len() == 0 {
                w.at(g, p, h) is Null
            } else {
                added_up(xs, h) matches Ok(x) && host_gives(
                    h.numeric(FloatOp::Div, x, float_of_int((xs.len() as i64) as int) as u64),
                ) == Ok::<ValueView, ErrorView>(w.at(g, p, h))
            }
        }),
{
    lemma_at(w, g, h);
    lemma_names();
    let s = w.part(g, h);
    lemma_average(w.args[0], s, 0, 0, 0, w.rows, w.names, h);
}

/// MIN(e) and MAX(e) over a partition give every row the least and the greatest of the integers
/// that `e` has on its rows, and NULL only if there are none.
pub proof fn law_extremes_are_extreme(w: Window, g: int, p: int, q: int, h: HostView)
    requires
        w.has_part(g, h),
        upper_text(w.name) == "MIN"@ || upper_text(w.name) == "MAX"@,
        w.args.len() > 0,
        0 <= p < w.part(g, h).len(),
        0 <= q < w.part(g, h).len(),
        forall|j: int|
            0 <= j < w.part(g, h).len() ==> integer_or_null(#[trigger] w.on(w.args[0], g, j, h)),
    ensures
        w.at(g, p, h) is Null || exists|j: int|
            0 <= j < w.part(g, h).len() && #[trigger] w.on(w.args[0], g, j, h) == Ok::<
                ValueView,
                ErrorView,
            >(w.at(g, p, h)),
        held(w.on(w.args[0], g, q, h)->Ok_0) matches Some(a) ==> (held(
            w.at(g, p, h),
        ) matches Some(b) && if upper_text(w.name) == "MIN"@ {
            b <= a
        } else {
            a <= b
        }),
{
    lemma_at(w, g, h);
    lemma_names();
    let s = w.part(g, h);
    let want = if upper_text(w.name) == "MIN"@ {
        Order::Less
    } else {
        Order::Greater
    };
    assert forall|j: int| 0 <= j < s.len() implies integer_or_null(
        eval(w.args[0], w.rows[#[trigger] s[j] as int].1, w.names, h),
    ) by {
        assert(integer_or_null(w.on(w.args[0], g, j, h)));
    }
    lemma_best(w.args[0], want, s, 0, ValueView::Null, w.rows, w.names, h);
    let m = best_from(w.args[0], want, s, 0, ValueView::Null, w.rows, w.names, h)->Ok_0;
    reveal_strlit("MIN");
    reveal_strlit("MAX");
    assert("MIN"@[1] == 'I');
    assert("MAX"@[1] == 'A');
    assert(w.at(g, p, h) == m);
    if !(m is Null) {
        let j = choose|j: int|
            0 <= j < s.len() && eval(
                w.args[0],
                w.rows[#[trigger] s[j] as int].1,
                w.names,
                h,
            ) == Ok::<ValueView, ErrorView>(m);
        assert(w.on(w.args[0], g, j, h) == Ok::<ValueView, ErrorView>(m));
    }
    let x = s[q];
}

} // verus!
