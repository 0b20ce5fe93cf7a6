//! GROUP BY in one pass gives what GROUP BY gives group by group.
use crate::aggregate::{
    agg_row, agg_value, aggregate_of, avg_term, gather, gather_from, group_by_result, group_key,
    group_keys, group_row, group_rows_from, has_aggregate, nothing, picked, starred, Aggregate,
    Gathered, RowView,
};
use crate::ast::{Expr, SelectColumn};
use crate::builtins::aggregate_name;
use crate::error::ErrorView;
use crate::eval::eval;
use crate::grouping::{distinct_keys, groups, lemma_distinct_keys, lemma_places, places};
use crate::host::HostView;
use crate::streaming::{
    column_expr, finished_row, finished_rows, has_star, stream_from, stream_kind, stream_result,
    stream_row, stream_step, stream_value, StreamKind,
};
use crate::text::upper_text;
use crate::types::ValueView;
use vstd::prelude::*;

verus! {

// ---------------------------------------------------------------------------
// One column over one group
// ---------------------------------------------------------------------------

/// What a column has gathered from the first `n` rows of a group.
spec fn gathered_by(
    k: StreamKind,
    part: Seq<RowView>,
    n: int,
    names: Seq<Seq<char>>,
    h: HostView,
) -> std::result::Result<Gathered, ErrorView>
    decreases n,
{
    if n <= 0 {
        Ok(nothing())
    } else {
        match gathered_by(k, part, n - 1, names, h) {
            Err(e) => Err(e),
            Ok(st) => stream_step(k, n == 1, st, part[n - 1].1, names, h),
        }
    }
}

/// Whether a column is a plain one: a column reference, a literal, COUNT() without an argument,
/// or COUNT, SUM, AVG, MIN or MAX of one column, without DISTINCT.
pub open spec fn plain_column(c: SelectColumn) -> bool {
    c matches SelectColumn::Expr { expr, alias } && match expr {
        Expr::ColumnRef { table, column } => true,
        Expr::Literal(_) => true,
        Expr::Function { name, args, distinct } => aggregate_name(upper_text(name@)) && !distinct
            && if args.len() == 0 {
            upper_text(name@) == "COUNT"@
        } else {
            args.len() == 1 && args[0] is ColumnRef
        },
        _ => false,
    }
}

/// Whether what a column averages over the rows is numbers and NULL alone.
pub open spec fn averages_numbers(
    c: SelectColumn,
    rows: Seq<RowView>,
    names: Seq<Seq<char>>,
    h: HostView,
) -> bool {
    match stream_kind(column_expr(c)) {
        StreamKind::Over(f, arg) => f == Aggregate::Avg ==> forall|i: int|
            0 <= i < rows.len() ==> (eval(arg, (#[trigger] rows[i]).1, names, h) matches Ok(v)
                ==> v.is_null() || avg_term(v) is Some),
        _ => true,
    }
}

proof fn lemma_gather_more(
    f: Aggregate,
    arg: Expr,
    part: Seq<RowView>,
    n: int,
    i: int,
    st: Gathered,
    names: Seq<Seq<char>>,
    h: HostView,
)
    requires
        0 <= i < n <= part.len(),
    ensures
        gather_from(f, false, arg, part.take(n), i, st, names, h) == match gather_from(
            f,
            false,
            arg,
            part.take(n - 1),
            i,
            st,
            names,
            h,
        ) {
            Err(e) => Err(e),
            Ok(s) => match eval(arg, part[n - 1].1, names, h) {
                Err(e) => Err(e),
                Ok(v) => gather(f, false, s, v, h),
            },
        },
    decreases n - i,
{
    assert(part.take(n)[i] == part[i]);
    if i < n - 1 {
        assert(part.take(n - 1)[i] == part[i]);
        if let Ok(v) = eval(arg, part[i].1, names, h) {
            if let Ok(next) = gather(f, false, st, v, h) {
                lemma_gather_more(f, arg, part, n, i + 1, next, names, h);
            }
        }
    } else {
        if let Ok(v) = eval(arg, part[i].1, names, h) {
            if let Ok(next) = gather(f, false, st, v, h) {
                assert(gather_from(f, false, arg, part.take(n), n, next, names, h) == Ok::<
                    Gathered,
                    ErrorView,
                >(next));
            }
        }
    }
}

proof fn lemma_gathered_over(
    f: Aggregate,
    arg: Expr,
    part: Seq<RowView>,
    n: int,
    names: Seq<Seq<char>>,
    h: HostView,
)
    requires
        0 <= n <= part.len(),
        f == Aggregate::Avg ==> forall|i: int|
            0 <= i < part.len() ==> (eval(arg, (#[trigger] part[i]).1, names, h) matches Ok(v)
                ==> v.is_null() || avg_term(v) is Some),
    ensures
        gathered_by(StreamKind::Over(f, arg), part, n, names, h) == gather_from(
            f,
            false,
            arg,
            part.take(n),
            0,
            nothing(),
            names,
            h,
        ),
    decreases n,
{
    if n > 0 {
        lemma_gathered_over(f, arg, part, n - 1, names, h);
        lemma_gather_more(f, arg, part, n, 0, nothing(), names, h);
        let row = part[n - 1];
        if let Ok(v) = eval(arg, row.1, names, h) {
            if f == Aggregate::Avg {
                assert(v.is_null() || avg_term(v) is Some);
            }
        }
    } else {
        assert(part.take(0).len() == 0);
    }
}

proof fn lemma_gathered_rows(part: Seq<RowView>, n: int, names: Seq<Seq<char>>, h: HostView)
    requires
        0 <= n,
    ensures
        gathered_by(StreamKind::Rows, part, n, names, h) matches Ok(st) && st.count == n,
    decreases n,
{
    if n > 0 {
        lemma_gathered_rows(part, n - 1, names, h);
    }
}

proof fn lemma_gathered_first(
    e: Expr,
    part: Seq<RowView>,
    n: int,
    names: Seq<Seq<char>>,
    h: HostView,
)
    requires
        1 <= n,
    ensures
        match eval(e, part[0].1, names, h) {
            Err(x) => gathered_by(StreamKind::First(e), part, n, names, h) == Err::<
                Gathered,
                ErrorView,
            >(x),
            Ok(v) => gathered_by(StreamKind::First(e), part, n, names, h) matches Ok(st) && st.acc
                == v,
        },
    decreases n,
{
    if n > 1 {
        lemma_gathered_first(e, part, n - 1, names, h);
    } else {
        assert(gathered_by(StreamKind::First(e), part, 0, names, h) == Ok::<Gathered, ErrorView>(
            nothing(),
        ));
    }
}

/// The value of a column over a group, found in one pass.
spec fn passed_value(
    k: StreamKind,
    part: Seq<RowView>,
    names: Seq<Seq<char>>,
    h: HostView,
) -> std::result::Result<ValueView, ErrorView> {
    match gathered_by(k, part, part.len() as int, names, h) {
        Err(e) => Err(e),
        Ok(st) => stream_value(k, st, h),
    }
}

proof fn lemma_same_value(
    c: SelectColumn,
    part: Seq<RowView>,
    names: Seq<Seq<char>>,
    h: HostView,
)
    requires
        part.len() > 0,
        plain_column(c),
        averages_numbers(c, part, names, h),
    ensures
        passed_value(stream_kind(column_expr(c)), part, names, h) == agg_value(
            column_expr(c),
            part,
            names,
            h,
        ),
{
    let e = column_expr(c);
    let n = part.len() as int;
    assert(part.take(n) =~= part);
    match e {
        Expr::Function { name, args, distinct } => {
            let f = aggregate_of(upper_text(name@));
            assert(has_aggregate(e));
            if args.len() == 0 {
                assert(starred(args));
                lemma_gathered_rows(part, n, names, h);
            } else {
                assert(!starred(args));
                lemma_gathered_over(f, args[0], part, n, names, h);
            }
        },
        _ => {
            assert(!has_aggregate(e));
            lemma_gathered_first(e, part, n, names, h);
        },
    }
}

// ---------------------------------------------------------------------------
// All columns over all groups
// ---------------------------------------------------------------------------

/// The rows with a key.
spec fn part_of(rows: Seq<RowView>, keys: Seq<Seq<u8>>, key: Seq<u8>) -> Seq<RowView> {
    picked(rows, places(keys, key))
}

/// Whether the states are what the columns have gathered from a group.
spec fn states_of(
    cols: Seq<SelectColumn>,
    sts: Seq<Gathered>,
    part: Seq<RowView>,
    names: Seq<Seq<char>>,
    h: HostView,
) -> bool {
    &&& sts.len() == cols.len()
    &&& forall|j: int|
        0 <= j < cols.len() ==> gathered_by(
            stream_kind(column_expr(#[trigger] cols[j])),
            part,
            part.len() as int,
            names,
            h,
        ) == Ok::<Gathered, ErrorView>(sts[j])
}

/// Whether the map holds for each key what the columns have gathered from the rows with it.
spec fn gathers(
    cols: Seq<SelectColumn>,
    rows: Seq<RowView>,
    keys: Seq<Seq<u8>>,
    m: Map<Seq<u8>, Seq<Gathered>>,
    names: Seq<Seq<char>>,
    h: HostView,
) -> bool {
    forall|key: Seq<u8>| #[trigger] keys.contains(key) ==> states_of(
        cols,
        m[key],
        part_of(rows, keys, key),
        names,
        h,
    )
}

/// One row added to a group: each column gathers it.
proof fn lemma_row_gathered(
    cols: Seq<SelectColumn>,
    j: int,
    sts: Seq<Gathered>,
    acc: Seq<Gathered>,
    part: Seq<RowView>,
    row: RowView,
    names: Seq<Seq<char>>,
    h: HostView,
)
    requires
        0 <= j <= cols.len(),
        acc.len() == j,
        part.len() > 0 ==> states_of(cols, sts, part, names, h),
        forall|i: int|
            0 <= i < j ==> gathered_by(
                stream_kind(column_expr(#[trigger] cols[i])),
                part.push(row),
                part.len() as int + 1,
                names,
                h,
            ) == Ok::<Gathered, ErrorView>(acc[i]),
    ensures
        match stream_row(cols, j, part.len() == 0, sts, acc, row.1, names, h) {
            Ok(next) => states_of(cols, next, part.push(row), names, h),
            Err(_) => exists|i: int|
                j <= i < cols.len() && gathered_by(
                    stream_kind(column_expr(#[trigger] cols[i])),
                    part.push(row),
                    part.len() as int + 1,
                    names,
                    h,
                ) is Err,
        },
    decreases cols.len() - j,
{
    if j < cols.len() {
        let k = stream_kind(column_expr(cols[j]));
        let first = part.len() == 0;
        let st = if first {
            nothing()
        } else {
            sts[j]
        };
        let n = part.len() as int;
        lemma_gathered_prefix(k, part, row, n, names, h);
        assert(part.push(row)[n] == row);
        assert(gathered_by(k, part, n, names, h) == Ok::<Gathered, ErrorView>(st));
        assert(gathered_by(k, part.push(row), n + 1, names, h) == stream_step(
            k,
            first,
            st,
            row.1,
            names,
            h,
        ));
        match stream_step(k, first, st, row.1, names, h) {
            Err(_) => {
                assert(gathered_by(
                    stream_kind(column_expr(cols[j])),
                    part.push(row),
                    n + 1,
                    names,
                    h,
                ) is Err);
            },
            Ok(next) => {
                lemma_row_gathered(cols, j + 1, sts, acc.push(next), part, row, names, h);
            },
        }
    }
}

proof fn lemma_gathered_prefix(
    k: StreamKind,
    part: Seq<RowView>,
    row: RowView,
    n: int,
    names: Seq<Seq<char>>,
    h: HostView,
)
    requires
        n <= part.len(),
    ensures
        gathered_by(k, part.push(row), n, names, h) == gathered_by(k, part, n, names, h),
    decreases n,
{
    if n > 0 {
        lemma_gathered_prefix(k, part, row, n - 1, names, h);
        assert(part.push(row)[n - 1] == part[n - 1]);
    }
}

proof fn lemma_parts_after(rows: Seq<RowView>, keys: Seq<Seq<u8>>, k: Seq<u8>, key: Seq<u8>)
    requires
        keys.len() < rows.len() <= usize::MAX,
    ensures
        part_of(rows, keys.push(k), key) == if k == key {
            part_of(rows, keys, key).push(rows[keys.len() as int])
        } else {
            part_of(rows, keys, key)
        },
{
    let more = keys.push(k);
    assert(more.drop_last() =~= keys);
    assert(more.last() == k);
    assert(part_of(rows, more, key) =~= if k == key {
        part_of(rows, keys, key).push(rows[keys.len() as int])
    } else {
        part_of(rows, keys, key)
    });
}

/// A key that stands among keys has rows, and one that does not has none.
proof fn lemma_part_len(rows: Seq<RowView>, keys: Seq<Seq<u8>>, key: Seq<u8>)
    requires
        keys.len() <= usize::MAX,
    ensures
        keys.contains(key) <==> part_of(rows, keys, key).len() > 0,
    decreases keys.len(),
{
    lemma_places(keys, key);
    if keys.contains(key) {
        let short = keys.drop_last();
        if keys.last() != key {
            let i = choose|i: int| 0 <= i < keys.len() && keys[i] == key;
            assert(short[i] == key);
            lemma_part_len(rows, short, key);
        }
    }
}

proof fn lemma_map_after(
    cols: Seq<SelectColumn>,
    rows: Seq<RowView>,
    keys: Seq<Seq<u8>>,
    m: Map<Seq<u8>, Seq<Gathered>>,
    k: Seq<u8>,
    sts: Seq<Gathered>,
    names: Seq<Seq<char>>,
    h: HostView,
)
    requires
        keys.len() < rows.len() <= usize::MAX,
        gathers(cols, rows, keys, m, names, h),
        states_of(cols, sts, part_of(rows, keys.push(k), k), names, h),
    ensures
        gathers(cols, rows, keys.push(k), m.insert(k, sts), names, h),
{
    let more = keys.push(k);
    assert forall|key: Seq<u8>| #[trigger] more.contains(key) implies states_of(
        cols,
        m.insert(k, sts)[key],
        part_of(rows, more, key),
        names,
        h,
    ) by {
        lemma_parts_after(rows, keys, k, key);
        if key != k {
            let i = choose|i: int| 0 <= i < more.len() && more[i] == key;
            assert(keys[i] == key);
            assert(keys.contains(key));
        }
    }
}

/// A pass that succeeds has gathered from every group what its columns gather from it.
proof fn lemma_pass(
    exprs: Seq<Expr>,
    cols: Seq<SelectColumn>,
    rows: Seq<RowView>,
    i: int,
    keys: Seq<Seq<u8>>,
    m: Map<Seq<u8>, Seq<Gathered>>,
    names: Seq<Seq<char>>,
    h: HostView,
)
    requires
        0 <= i <= rows.len() <= usize::MAX,
        keys.len() == i,
        gathers(cols, rows, keys, m, names, h),
        stream_from(exprs, cols, rows, i, keys, m, names, h) is Ok,
    ensures
        ({
            let p = stream_from(exprs, cols, rows, i, keys, m, names, h)->Ok_0;
            &&& p.0.len() == rows.len()
            &&& group_keys(exprs, rows, i, keys, names, h) == Ok::<Seq<Seq<u8>>, ErrorView>(p.0)
            &&& gathers(cols, rows, p.0, p.1, names, h)
        }),
    decreases rows.len() - i,
{
    if i < rows.len() {
        let k = group_key(exprs, 0, Seq::empty(), rows[i].1, names, h)->Ok_0;
        let part = part_of(rows, keys, k);
        lemma_part_len(rows, keys, k);
        lemma_parts_after(rows, keys, k, k);
        lemma_row_gathered(cols, 0, m[k], Seq::empty(), part, rows[i], names, h);
        let sts = stream_row(
            cols,
            0,
            !keys.contains(k),
            m[k],
            Seq::empty(),
            rows[i].1,
            names,
            h,
        )->Ok_0;
        lemma_map_after(cols, rows, keys, m, k, sts, names, h);
        lemma_pass(exprs, cols, rows, i + 1, keys.push(k), m.insert(k, sts), names, h);
    }
}

/// Whether the columns can be gathered from every group.
spec fn all_gather(
    cols: Seq<SelectColumn>,
    rows: Seq<RowView>,
    keys: Seq<Seq<u8>>,
    names: Seq<Seq<char>>,
    h: HostView,
) -> bool {
    forall|key: Seq<u8>, j: int, n: int|
        0 <= j < cols.len() && 0 <= n <= part_of(rows, keys, key).len() ==> #[trigger] gathered_by(
            stream_kind(column_expr(cols[j])),
            part_of(rows, keys, key),
            n,
            names,
            h,
        ) is Ok
}

proof fn lemma_gathers_before(
    k: StreamKind,
    part: Seq<RowView>,
    n: int,
    m: int,
    names: Seq<Seq<char>>,
    h: HostView,
)
    requires
        n <= m,
        gathered_by(k, part, m, names, h) is Ok,
    ensures
        gathered_by(k, part, n, names, h) is Ok,
    decreases m - n,
{
    if n < m && m > 0 {
        lemma_gathers_before(k, part, n, m - 1, names, h);
    }
}

/// The rows with a key among the first rows are the first rows with that key.
proof fn lemma_part_prefix(rows: Seq<RowView>, keys: Seq<Seq<u8>>, i: int, key: Seq<u8>)
    requires
        0 <= i <= keys.len(),
        keys.len() <= rows.len() <= usize::MAX,
    ensures
        ({
            let a = part_of(rows, keys.take(i), key);
            let b = part_of(rows, keys, key);
            a.len() <= b.len() && a == b.take(a.len() as int)
        }),
    decreases keys.len() - i,
{
    if i == keys.len() {
        assert(keys.take(i) =~= keys);
        let b = part_of(rows, keys, key);
        assert(b.take(b.len() as int) =~= b);
    } else {
        lemma_part_prefix(rows, keys, i + 1, key);
        assert(keys.take(i + 1) =~= keys.take(i).push(keys[i]));
        lemma_parts_after(rows, keys.take(i), keys[i], key);
        let a = part_of(rows, keys.take(i), key);
        let c = part_of(rows, keys.take(i + 1), key);
        let b = part_of(rows, keys, key);
        assert(a =~= c.take(a.len() as int));
        assert(b.take(a.len() as int) =~= b.take(c.len() as int).take(a.len() as int));
    }
}

proof fn lemma_gathered_take(
    k: StreamKind,
    part: Seq<RowView>,
    m: int,
    n: int,
    names: Seq<Seq<char>>,
    h: HostView,
)
    requires
        n <= m <= part.len(),
    ensures
        gathered_by(k, part.take(m), n, names, h) == gathered_by(k, part, n, names, h),
    decreases n,
{
    if n > 0 {
        lemma_gathered_take(k, part, m, n - 1, names, h);
        assert(part.take(m)[n - 1] == part[n - 1]);
    }
}

/// A pass over rows from whose groups all columns can be gathered succeeds.
proof fn lemma_pass_succeeds(
    exprs: Seq<Expr>,
    cols: Seq<SelectColumn>,
    rows: Seq<RowView>,
    i: int,
    keys: Seq<Seq<u8>>,
    m: Map<Seq<u8>, Seq<Gathered>>,
    all: Seq<Seq<u8>>,
    names: Seq<Seq<char>>,
    h: HostView,
)
    requires
        0 <= i <= rows.len() <= usize::MAX,
        all.len() == rows.len(),
        keys == all.take(i),
        gathers(cols, rows, keys, m, names, h),
        group_keys(exprs, rows, i, keys, names, h) == Ok::<Seq<Seq<u8>>, ErrorView>(all),
        all_gather(cols, rows, all, names, h),
    ensures
        stream_from(exprs, cols, rows, i, keys, m, names, h) is Ok,
    decreases rows.len() - i,
{
    if i < rows.len() {
        let k = group_key(exprs, 0, Seq::empty(), rows[i].1, names, h)->Ok_0;
        lemma_keys_extend(exprs, rows, i + 1, keys.push(k), names, h);
        assert(all[i] == k);
        let more = keys.push(k);
        assert(more =~= all.take(i + 1));
        let part = part_of(rows, keys, k);
        lemma_part_len(rows, keys, k);
        lemma_parts_after(rows, keys, k, k);
        lemma_row_gathered(cols, 0, m[k], Seq::empty(), part, rows[i], names, h);
        let n = part.len() as int + 1;
        lemma_part_prefix(rows, all, i + 1, k);
        let whole = part_of(rows, all, k);
        assert(part.push(rows[i]) == whole.take(n));
        assert forall|j: int| 0 <= j < cols.len() implies gathered_by(
            stream_kind(column_expr(#[trigger] cols[j])),
            part.push(rows[i]),
            n,
            names,
            h,
        ) is Ok by {
            lemma_gathered_take(stream_kind(column_expr(cols[j])), whole, n, n, names, h);
            assert(gathered_by(stream_kind(column_expr(cols[j])), whole, n, names, h) is Ok);
        }
        let sts = stream_row(
            cols,
            0,
            !keys.contains(k),
            m[k],
            Seq::empty(),
            rows[i].1,
            names,
            h,
        )->Ok_0;
        lemma_map_after(cols, rows, keys, m, k, sts, names, h);
        lemma_pass_succeeds(exprs, cols, rows, i + 1, more, m.insert(k, sts), all, names, h);
    }
}

proof fn lemma_keys_extend(
    exprs: Seq<Expr>,
    rows: Seq<RowView>,
    i: int,
    acc: Seq<Seq<u8>>,
    names: Seq<Seq<char>>,
    h: HostView,
)
    requires
        0 <= i <= rows.len(),
        acc.len() == i,
        group_keys(exprs, rows, i, acc, names, h) is Ok,
    ensures
        ({
            let all = group_keys(exprs, rows, i, acc, names, h)->Ok_0;
            all.len() == rows.len() && forall|k: int| 0 <= k < i ==> #[trigger] all[k] == acc[k]
        }),
    decreases rows.len() - i,
{
    if i < rows.len() {
        let key = group_key(exprs, 0, Seq::empty(), rows[i].1, names, h)->Ok_0;
        lemma_keys_extend(exprs, rows, i + 1, acc.push(key), names, h);
        let all = group_keys(exprs, rows, i, acc, names, h)->Ok_0;
        assert forall|k: int| 0 <= k < i implies #[trigger] all[k] == acc[k] by {
            assert(all[k] == acc.push(key)[k]);
        }
    }
}

// ---------------------------------------------------------------------------
// Result rows
// ---------------------------------------------------------------------------

proof fn lemma_same_row(
    cols: Seq<SelectColumn>,
    j: int,
    sts: Seq<Gathered>,
    acc: Seq<ValueView>,
    part: Seq<RowView>,
    names: Seq<Seq<char>>,
    h: HostView,
)
    requires
        0 <= j <= cols.len(),
        part.len() > 0,
        states_of(cols, sts, part, names, h),
        forall|i: int| 0 <= i < cols.len() ==> plain_column(#[trigger] cols[i]),
        forall|i: int|
            0 <= i < cols.len() ==> averages_numbers(#[trigger] cols[i], part, names, h),
    ensures
        finished_row(cols, j, sts, acc, h) == agg_row(
            cols,
            j,
            acc,
            "cannot use * with GROUP BY"@,
            part,
            names,
            h,
        ),
    decreases cols.len() - j,
{
    if j < cols.len() {
        assert(plain_column(cols[j]));
        assert(averages_numbers(cols[j], part, names, h));
        lemma_same_value(cols[j], part, names, h);
        let k = stream_kind(column_expr(cols[j]));
        assert(gathered_by(k, part, part.len() as int, names, h) == Ok::<Gathered, ErrorView>(
            sts[j],
        ));
        if let Ok(v) = stream_value(k, sts[j], h) {
            lemma_same_row(cols, j + 1, sts, acc.push(v), part, names, h);
        }
    }
}

proof fn lemma_part_averages(
    c: SelectColumn,
    rows: Seq<RowView>,
    keys: Seq<Seq<u8>>,
    key: Seq<u8>,
    names: Seq<Seq<char>>,
    h: HostView,
)
    requires
        keys.len() <= rows.len() <= usize::MAX,
        averages_numbers(c, rows, names, h),
    ensures
        averages_numbers(c, part_of(rows, keys, key), names, h),
{
    lemma_places(keys, key);
    let part = part_of(rows, keys, key);
    if let StreamKind::Over(f, arg) = stream_kind(column_expr(c)) {
        if f == Aggregate::Avg {
            assert forall|i: int| 0 <= i < part.len() implies (eval(
                arg,
                (#[trigger] part[i]).1,
                names,
                h,
            ) matches Ok(v) ==> v.is_null() || avg_term(v) is Some) by {
                let p = places(keys, key)[i];
                assert(part[i] == rows[p as int]);
            }
        }
    }
}

proof fn lemma_same_rows(
    cols: Seq<SelectColumn>,
    rows: Seq<RowView>,
    keys: Seq<Seq<u8>>,
    m: Map<Seq<u8>, Seq<Gathered>>,
    g: int,
    acc: Seq<Seq<ValueView>>,
    names: Seq<Seq<char>>,
    h: HostView,
)
    requires
        0 <= g <= distinct_keys(keys).len(),
        keys.len() <= rows.len() <= usize::MAX,
        gathers(cols, rows, keys, m, names, h),
        forall|i: int| 0 <= i < cols.len() ==> plain_column(#[trigger] cols[i]),
        forall|i: int|
            0 <= i < cols.len() ==> averages_numbers(#[trigger] cols[i], rows, names, h),
    ensures
        finished_rows(cols, distinct_keys(keys), g, m, acc, h) == group_rows_from(
            None,
            cols,
            groups(keys),
            g,
            acc,
            rows,
            names,
            h,
        ),
    decreases distinct_keys(keys).len() - g,
{
    let d = distinct_keys(keys);
    if g < d.len() {
        let key = d[g];
        let part = part_of(rows, keys, key);
        lemma_distinct_keys(keys);
        assert(d.contains(key));
        assert(keys.contains(key));
        lemma_part_len(rows, keys, key);
        assert(groups(keys)[g] == places(keys, key));
        assert forall|i: int| 0 <= i < cols.len() implies averages_numbers(
            #[trigger] cols[i],
            part,
            names,
            h,
        ) by {
            lemma_part_averages(cols[i], rows, keys, key, names, h);
        }
        lemma_same_row(cols, 0, m[key], Seq::empty(), part, names, h);
        match finished_row(cols, 0, m[key], Seq::empty(), h) {
            Err(_) => {},
            Ok(row) => lemma_same_rows(cols, rows, keys, m, g + 1, acc.push(row), names, h),
        }
    }
}

/// Groups of which the result rows can be made can be gathered from.
proof fn lemma_rows_gather(
    cols: Seq<SelectColumn>,
    rows: Seq<RowView>,
    keys: Seq<Seq<u8>>,
    g: int,
    acc: Seq<Seq<ValueView>>,
    names: Seq<Seq<char>>,
    h: HostView,
    at: int,
    j: int,
)
    requires
        0 <= g <= at < distinct_keys(keys).len(),
        0 <= j < cols.len(),
        keys.len() <= rows.len() <= usize::MAX,
        forall|i: int| 0 <= i < cols.len() ==> plain_column(#[trigger] cols[i]),
        forall|i: int|
            0 <= i < cols.len() ==> averages_numbers(#[trigger] cols[i], rows, names, h),
        group_rows_from(None, cols, groups(keys), g, acc, rows, names, h) is Ok,
    ensures
        ({
            let part = part_of(rows, keys, distinct_keys(keys)[at]);
            gathered_by(
                stream_kind(column_expr(cols[j])),
                part,
                part.len() as int,
                names,
                h,
            ) is Ok
        }),
    decreases at - g,
{
    let d = distinct_keys(keys);
    let part = part_of(rows, keys, d[g]);
    assert(groups(keys)[g] == places(keys, d[g]));
    assert(group_row(None, cols, part, names, h) is Ok);
    if g < at {
        let row = (group_row(None, cols, part, names, h)->Ok_0)->0;
        lemma_rows_gather(cols, rows, keys, g + 1, acc.push(row), names, h, at, j);
    } else {
        lemma_distinct_keys(keys);
        assert(d.contains(d[g]));
        lemma_part_len(rows, keys, d[g]);
        lemma_part_averages(cols[j], rows, keys, d[g], names, h);
        lemma_value_made(
            cols,
            0,
            Seq::empty(),
            "cannot use * with GROUP BY"@,
            part,
            names,
            h,
            j,
        );
        lemma_same_value(cols[j], part, names, h);
    }
}

proof fn lemma_value_made(
    cols: Seq<SelectColumn>,
    i: int,
    acc: Seq<ValueView>,
    star_error: Seq<char>,
    part: Seq<RowView>,
    names: Seq<Seq<char>>,
    h: HostView,
    j: int,
)
    requires
        0 <= i <= j < cols.len(),
        plain_column(cols[j]),
        agg_row(cols, i, acc, star_error, part, names, h) is Ok,
    ensures
        agg_value(column_expr(cols[j]), part, names, h) is Ok,
    decreases cols.len() - i,
{
    if i < j {
        if let SelectColumn::Expr { expr, alias } = cols[i] {
            let v = agg_value(expr, part, names, h)->Ok_0;
            lemma_value_made(cols, i + 1, acc.push(v), star_error, part, names, h, j);
        }
    }
}

proof fn lemma_all_gather(
    cols: Seq<SelectColumn>,
    rows: Seq<RowView>,
    keys: Seq<Seq<u8>>,
    names: Seq<Seq<char>>,
    h: HostView,
)
    requires
        keys.len() <= rows.len() <= usize::MAX,
        forall|i: int| 0 <= i < cols.len() ==> plain_column(#[trigger] cols[i]),
        forall|i: int|
            0 <= i < cols.len() ==> averages_numbers(#[trigger] cols[i], rows, names, h),
        group_rows_from(None, cols, groups(keys), 0, Seq::empty(), rows, names, h) is Ok,
    ensures
        all_gather(cols, rows, keys, names, h),
{
    let d = distinct_keys(keys);
    lemma_distinct_keys(keys);
    assert forall|key: Seq<u8>, j: int, n: int|
        0 <= j < cols.len() && 0 <= n <= part_of(rows, keys, key).len() implies
        #[trigger] gathered_by(
        stream_kind(column_expr(cols[j])),
        part_of(rows, keys, key),
        n,
        names,
        h,
    ) is Ok by {
        let part = part_of(rows, keys, key);
        if n > 0 {
            lemma_part_len(rows, keys, key);
            assert(keys.contains(key));
            assert(d.contains(key));
            let at = choose|at: int| 0 <= at < d.len() && d[at] == key;
            lemma_rows_gather(cols, rows, keys, 0, Seq::empty(), names, h, at, j);
            lemma_gathers_before(
                stream_kind(column_expr(cols[j])),
                part,
                n,
                part.len() as int,
                names,
                h,
            );
        }
    }
}

/// GROUP BY in one pass succeeds with a result exactly if GROUP BY succeeds with it group by
/// group, for columns that are references, literals, counts of rows, and aggregates of one
/// column without DISTINCT, where only numbers and NULL are averaged.
pub proof fn law_one_pass_gives_what_groups_give(
    exprs: Seq<Expr>,
    having: Option<Expr>,
    cols: Seq<SelectColumn>,
    rows: Seq<RowView>,
    names: Seq<Seq<char>>,
    h: HostView,
    x: (Seq<Seq<char>>, Seq<Seq<ValueView>>),
)
    requires
        rows.len() <= usize::MAX,
        forall|i: int| 0 <= i < cols.len() ==> plain_column(#[trigger] cols[i]),
        forall|i: int|
            0 <= i < cols.len() ==> averages_numbers(#[trigger] cols[i], rows, names, h),
    ensures
        stream_result(exprs, having, cols, rows, names, h) == Ok::<_, ErrorView>(x)
            <==> group_by_result(exprs, having, cols, rows, names, h) == Ok::<_, ErrorView>(x),
{
    if having is None {
        assert(!has_star(cols)) by {
            if has_star(cols) {
                let i = choose|i: int| 0 <= i < cols.len() && #[trigger] cols[i] is AllColumns;
                assert(plain_column(cols[i]));
            }
        }
        let none: Seq<Seq<u8>> = Seq::empty();
        let m: Map<Seq<u8>, Seq<Gathered>> = Map::empty();
        assert(gathers(cols, rows, none, m, names, h));
        if group_by_result(exprs, having, cols, rows, names, h) is Ok {
            let all = group_keys(exprs, rows, 0, none, names, h)->Ok_0;
            lemma_keys_extend(exprs, rows, 0, none, names, h);
            lemma_all_gather(cols, rows, all, names, h);
            assert(all.take(0) =~= none);
            lemma_pass_succeeds(exprs, cols, rows, 0, none, m, all, names, h);
        }
        if stream_from(exprs, cols, rows, 0, none, m, names, h) is Ok {
            let p = stream_from(exprs, cols, rows, 0, none, m, names, h)->Ok_0;
            lemma_pass(exprs, cols, rows, 0, none, m, names, h);
            lemma_same_rows(cols, rows, p.0, p.1, 0, Seq::empty(), names, h);
        }
    }
}

} // verus!
