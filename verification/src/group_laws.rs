//! What GROUP BY promises: one row for each key, and counts that add up.
use crate::aggregate::{
    agg_eval, agg_row, agg_value, group_by_result, group_key, group_keys, group_passes, group_row,
    group_rows_from, has_aggregate, picked, starred, RowView,
};
use crate::ast::{Expr, SelectColumn};
use crate::error::ErrorView;
use crate::eval::eval;
use crate::grouping::{distinct_keys, groups, lemma_distinct_keys, lemma_places, places};
use crate::host::HostView;
use crate::text::upper_text;
use crate::types::ValueView;
use crate::values::{row_key, value_key};
use vstd::prelude::*;

verus! {

// ---------------------------------------------------------------------------
// Groups
// ---------------------------------------------------------------------------

/// How many places the keys from the `n` first of a list stand at.
spec fn total_places(keys: Seq<Seq<u8>>, d: Seq<Seq<u8>>, n: int) -> int
    decreases n,
{
    if n <= 0 {
        0
    } else {
        total_places(keys, d, n - 1) + places(keys, d[n - 1]).len()
    }
}

proof fn lemma_one_place_more(keys: Seq<Seq<u8>>, d: Seq<Seq<u8>>, n: int)
    requires
        keys.len() > 0,
        0 <= n <= d.len(),
        d.no_duplicates(),
    ensures
        total_places(keys, d, n) == total_places(keys.drop_last(), d, n) + if d.take(n).contains(
            keys.last(),
        ) {
            1int
        } else {
            0int
        },
    decreases n,
{
    if n > 0 {
        lemma_one_place_more(keys, d, n - 1);
        let a = d.take(n - 1);
        let b = d.take(n);
        let last = keys.last();
        assert(b =~= a.push(d[n - 1]));
        if a.contains(last) {
            let k = choose|k: int| 0 <= k < a.len() && a[k] == last;
            assert(b[k] == last);
            assert(d[k] != d[n - 1]);
        }
        if d[n - 1] == last {
            assert(b[n - 1] == last);
        }
        if b.contains(last) && d[n - 1] != last {
            let k = choose|k: int| 0 <= k < b.len() && b[k] == last;
            assert(a[k] == last);
        }
    } else {
        assert(d.take(n).len() == 0);
    }
}

proof fn lemma_same_total(keys: Seq<Seq<u8>>, d: Seq<Seq<u8>>, e: Seq<Seq<u8>>, n: int)
    requires
        0 <= n <= d.len(),
        n <= e.len(),
        d.take(n) == e.take(n),
    ensures
        total_places(keys, d, n) == total_places(keys, e, n),
    decreases n,
{
    if n > 0 {
        assert(d.take(n)[n - 1] == d[n - 1]);
        assert(e.take(n)[n - 1] == e[n - 1]);
        assert(d.take(n - 1) =~= d.take(n).take(n - 1));
        assert(e.take(n - 1) =~= e.take(n).take(n - 1));
        lemma_same_total(keys, d, e, n - 1);
    }
}

proof fn lemma_total_places(keys: Seq<Seq<u8>>)
    requires
        keys.len() <= usize::MAX,
    ensures
        total_places(keys, distinct_keys(keys), distinct_keys(keys).len() as int) == keys.len(),
    decreases keys.len(),
{
    if keys.len() > 0 {
        let short = keys.drop_last();
        let last = keys.last();
        let d = distinct_keys(short);
        let n = d.len() as int;
        lemma_total_places(short);
        lemma_distinct_keys(short);
        lemma_one_place_more(keys, d, n);
        assert(d.take(n) =~= d);
        if !d.contains(last) {
            let e = d.push(last);
            assert(distinct_keys(keys) == e);
            assert(e.take(n) =~= d.take(n));
            lemma_same_total(keys, d, e, n);
            assert(!short.contains(last));
            lemma_places(short, last);
            assert(e[n] == last);
            assert(places(keys, last).len() == places(short, last).len() + 1);
        }
    }
}

// ---------------------------------------------------------------------------
// Rows
// ---------------------------------------------------------------------------

/// The groups from `g` on that pass HAVING, behind `acc`.
pub open spec fn kept_from(
    having: Option<Expr>,
    groups: Seq<Seq<usize>>,
    g: int,
    acc: Seq<int>,
    rows: Seq<RowView>,
    names: Seq<Seq<char>>,
    h: HostView,
) -> Seq<int>
    decreases groups.len() - g,
{
    if g < 0 || g >= groups.len() {
        acc
    } else {
        kept_from(
            having,
            groups,
            g + 1,
            if group_passes(having, picked(rows, groups[g]), names, h) == Ok::<bool, ErrorView>(true) {
                acc.push(g)
            } else {
                acc
            },
            rows,
            names,
            h,
        )
    }
}

/// The values of the SELECT columns over a group.
pub open spec fn group_values(
    cols: Seq<SelectColumn>,
    part: Seq<RowView>,
    names: Seq<Seq<char>>,
    h: HostView,
) -> std::result::Result<Seq<ValueView>, ErrorView> {
    agg_row(cols, 0, Seq::empty(), "cannot use * with GROUP BY"@, part, names, h)
}

/// Whether the result rows are those of these groups, in order.
spec fn rows_are(
    out: Seq<Seq<ValueView>>,
    kept: Seq<int>,
    cols: Seq<SelectColumn>,
    groups: Seq<Seq<usize>>,
    rows: Seq<RowView>,
    names: Seq<Seq<char>>,
    h: HostView,
) -> bool {
    &&& out.len() == kept.len()
    &&& forall|k: int|
        0 <= k < kept.len() ==> group_values(cols, picked(rows, groups[#[trigger] kept[k]]), names, h)
            == Ok::<Seq<ValueView>, ErrorView>(out[k])
}

proof fn lemma_kept_rows(
    having: Option<Expr>,
    cols: Seq<SelectColumn>,
    groups: Seq<Seq<usize>>,
    g: int,
    acc: Seq<Seq<ValueView>>,
    kept: Seq<int>,
    rows: Seq<RowView>,
    names: Seq<Seq<char>>,
    h: HostView,
)
    requires
        0 <= g <= groups.len(),
        group_rows_from(having, cols, groups, g, acc, rows, names, h) is Ok,
        rows_are(acc, kept, cols, groups, rows, names, h),
    ensures
        rows_are(
            group_rows_from(having, cols, groups, g, acc, rows, names, h)->Ok_0,
            kept_from(having, groups, g, kept, rows, names, h),
            cols,
            groups,
            rows,
            names,
            h,
        ),
    decreases groups.len() - g,
{
    if g < groups.len() {
        let part = picked(rows, groups[g]);
        match group_row(having, cols, part, names, h) {
            Err(_) => {},
            Ok(None) => lemma_kept_rows(having, cols, groups, g + 1, acc, kept, rows, names, h),
            Ok(Some(row)) => {
                let more = acc.push(row);
                let also = kept.push(g);
                assert forall|k: int| 0 <= k < also.len() implies group_values(
                    cols,
                    picked(rows, groups[#[trigger] also[k]]),
                    names,
                    h,
                ) == Ok::<Seq<ValueView>, ErrorView>(more[k]) by {
                    if k < kept.len() {
                        assert(also[k] == kept[k]);
                    }
                }
                lemma_kept_rows(having, cols, groups, g + 1, more, also, rows, names, h);
            },
        }
    }
}

/// GROUP BY gives one row for each group that passes HAVING, and no other, in the order in which
/// the keys of the groups first occur.
pub proof fn law_one_row_for_each_passing_group(
    exprs: Seq<Expr>,
    having: Option<Expr>,
    cols: Seq<SelectColumn>,
    rows: Seq<RowView>,
    names: Seq<Seq<char>>,
    h: HostView,
)
    requires
        group_by_result(exprs, having, cols, rows, names, h) is Ok,
    ensures
        ({
            let keys = group_keys(exprs, rows, 0, Seq::empty(), names, h)->Ok_0;
            let kept = kept_from(having, groups(keys), 0, Seq::empty(), rows, names, h);
            let out = (group_by_result(exprs, having, cols, rows, names, h)->Ok_0).1;
            &&& out.len() == kept.len()
            &&& forall|k: int|
                0 <= k < kept.len() ==> group_values(
                    cols,
                    picked(rows, groups(keys)[#[trigger] kept[k]]),
                    names,
                    h,
                ) == Ok::<Seq<ValueView>, ErrorView>(out[k])
        }),
{
    let keys = group_keys(exprs, rows, 0, Seq::empty(), names, h)->Ok_0;
    lemma_kept_rows(
        having,
        cols,
        groups(keys),
        0,
        Seq::empty(),
        Seq::empty(),
        rows,
        names,
        h,
    );
}

proof fn lemma_all_kept(
    groups: Seq<Seq<usize>>,
    g: int,
    rows: Seq<RowView>,
    names: Seq<Seq<char>>,
    h: HostView,
)
    requires
        0 <= g <= groups.len(),
    ensures
        kept_from(None, groups, g, Seq::new(g as nat, |k: int| k), rows, names, h) == Seq::new(
            groups.len(),
            |k: int| k,
        ),
    decreases groups.len() - g,
{
    if g < groups.len() {
        let acc = Seq::new(g as nat, |k: int| k);
        assert(acc.push(g) =~= Seq::new((g + 1) as nat, |k: int| k));
        lemma_all_kept(groups, g + 1, rows, names, h);
    } else {
        assert(Seq::new(g as nat, |k: int| k) =~= Seq::new(groups.len(), |k: int| k));
    }
}

proof fn lemma_cell(
    cols: Seq<SelectColumn>,
    i: int,
    acc: Seq<ValueView>,
    star_error: Seq<char>,
    part: Seq<RowView>,
    names: Seq<Seq<char>>,
    h: HostView,
    c: int,
)
    requires
        0 <= i <= cols.len(),
        acc.len() == i,
        0 <= c < cols.len(),
        agg_row(cols, i, acc, star_error, part, names, h) is Ok,
    ensures
        ({
            let row = agg_row(cols, i, acc, star_error, part, names, h)->Ok_0;
            &&& row.len() == cols.len()
            &&& c < i ==> row[c] == acc[c]
            &&& c >= i ==> (cols[c] matches SelectColumn::Expr { expr, alias } && agg_value(
                expr,
                part,
                names,
                h,
            ) == Ok::<ValueView, ErrorView>(row[c]))
        }),
    decreases cols.len() - i,
{
    if i < cols.len() {
        match cols[i] {
            SelectColumn::AllColumns(_) => {},
            SelectColumn::Expr { expr, alias } => {
                let v = agg_value(expr, part, names, h)->Ok_0;
                lemma_cell(cols, i + 1, acc.push(v), star_error, part, names, h, c);
            },
        }
    }
}

/// Whether a SELECT column is COUNT(*).
pub open spec fn counts_rows(c: SelectColumn) -> bool {
    c matches SelectColumn::Expr { expr, alias } && expr matches Expr::Function {
        name,
        args,
        distinct,
    } && upper_text(name@) == "COUNT"@ && starred(args)
}

proof fn lemma_count_cell(
    cols: Seq<SelectColumn>,
    part: Seq<RowView>,
    names: Seq<Seq<char>>,
    h: HostView,
    c: int,
)
    requires
        0 <= c < cols.len(),
        counts_rows(cols[c]),
        group_values(cols, part, names, h) is Ok,
    ensures
        (group_values(cols, part, names, h)->Ok_0)[c] == ValueView::BigInt(part.len() as i64),
{
    lemma_cell(cols, 0, Seq::empty(), "cannot use * with GROUP BY"@, part, names, h, c);
    if let SelectColumn::Expr { expr, alias } = cols[c] {
        assert(has_aggregate(expr));
        assert(agg_value(expr, part, names, h) == agg_eval(expr, part, names, h));
    }
}

/// The sum of the numbers in a column of the first `n` rows.
pub open spec fn column_sum(out: Seq<Seq<ValueView>>, c: int, n: int) -> int
    decreases n,
{
    if n <= 0 {
        0
    } else {
        column_sum(out, c, n - 1) + match out[n - 1][c] {
            ValueView::BigInt(k) => k as int,
            _ => 0,
        }
    }
}

proof fn lemma_sum_is_total(
    out: Seq<Seq<ValueView>>,
    c: int,
    keys: Seq<Seq<u8>>,
    n: int,
)
    requires
        keys.len() <= i64::MAX,
        keys.len() <= usize::MAX,
        0 <= n <= out.len(),
        out.len() == distinct_keys(keys).len(),
        forall|g: int|
            0 <= g < out.len() ==> (#[trigger] out[g])[c] == ValueView::BigInt(
                groups(keys)[g].len() as i64,
            ),
    ensures
        column_sum(out, c, n) == total_places(keys, distinct_keys(keys), n),
    decreases n,
{
    if n > 0 {
        lemma_sum_is_total(out, c, keys, n - 1);
        let d = distinct_keys(keys);
        assert(groups(keys)[n - 1] == places(keys, d[n - 1]));
        lemma_few_places(keys, d[n - 1]);
        assert(out[n - 1][c] == ValueView::BigInt(groups(keys)[n - 1].len() as i64));
    }
}

proof fn lemma_few_places(keys: Seq<Seq<u8>>, key: Seq<u8>)
    ensures
        places(keys, key).len() <= keys.len(),
    decreases keys.len(),
{
    if keys.len() > 0 {
        lemma_few_places(keys.drop_last(), key);
    }
}

proof fn lemma_key_for_each_row(
    exprs: Seq<Expr>,
    rows: Seq<RowView>,
    i: int,
    acc: Seq<Seq<u8>>,
    names: Seq<Seq<char>>,
    h: HostView,
)
    requires
        0 <= i <= rows.len(),
        acc.len() == i,
        group_keys(exprs, rows, i, acc, names, h) is Ok,
    ensures
        group_keys(exprs, rows, i, acc, names, h)->Ok_0.len() == rows.len(),
    decreases rows.len() - i,
{
    if i < rows.len() {
        let key = group_key(exprs, 0, Seq::empty(), rows[i].1, names, h)->Ok_0;
        lemma_key_for_each_row(exprs, rows, i + 1, acc.push(key), names, h);
    }
}

/// Without HAVING there is one row for each different key, COUNT(*) tells how many rows have that
/// key, and the counts of all groups add up to the number of rows. No rows make no groups.
pub proof fn law_counts_add_up(
    exprs: Seq<Expr>,
    cols: Seq<SelectColumn>,
    rows: Seq<RowView>,
    names: Seq<Seq<char>>,
    h: HostView,
    c: int,
)
    requires
        rows.len() <= i64::MAX,
        rows.len() <= usize::MAX,
        0 <= c < cols.len(),
        counts_rows(cols[c]),
        group_by_result(exprs, None, cols, rows, names, h) is Ok,
    ensures
        ({
            let keys = group_keys(exprs, rows, 0, Seq::empty(), names, h)->Ok_0;
            let out = (group_by_result(exprs, None, cols, rows, names, h)->Ok_0).1;
            &&& out.len() == distinct_keys(keys).len()
            &&& forall|g: int|
                0 <= g < out.len() ==> (#[trigger] out[g])[c] == ValueView::BigInt(
                    places(keys, distinct_keys(keys)[g]).len() as i64,
                )
            &&& column_sum(out, c, out.len() as int) == rows.len()
            &&& rows.len() == 0 ==> out.len() == 0
        }),
{
    let keys = group_keys(exprs, rows, 0, Seq::empty(), names, h)->Ok_0;
    let out = (group_by_result(exprs, None, cols, rows, names, h)->Ok_0).1;
    let all = groups(keys);
    law_one_row_for_each_passing_group(exprs, None, cols, rows, names, h);
    lemma_all_kept(all, 0, rows, names, h);
    assert(Seq::new(0, |k: int| k) =~= Seq::<int>::empty());
    let kept = kept_from(None, all, 0, Seq::empty(), rows, names, h);
    assert forall|g: int| 0 <= g < out.len() implies (#[trigger] out[g])[c] == ValueView::BigInt(
        all[g].len() as i64,
    ) by {
        assert(kept[g] == g);
        lemma_count_cell(cols, picked(rows, all[g]), names, h, c);
    }
    lemma_key_for_each_row(exprs, rows, 0, Seq::empty(), names, h);
    lemma_sum_is_total(out, c, keys, out.len() as int);
    lemma_total_places(keys);
}

// ---------------------------------------------------------------------------
// GROUP BY as a whole
// ---------------------------------------------------------------------------

/// Whether the grouping expressions can be evaluated on every row.
pub open spec fn keys_evaluate(
    exprs: Seq<Expr>,
    rows: Seq<RowView>,
    names: Seq<Seq<char>>,
    h: HostView,
) -> bool {
    forall|i: int, j: int|
        0 <= i < rows.len() && 0 <= j < exprs.len() ==> eval(
            #[trigger] exprs[j],
            (#[trigger] rows[i]).1,
            names,
            h,
        ) is Ok
}

/// Whether HAVING can be evaluated on every group.
pub open spec fn having_evaluates(
    having: Option<Expr>,
    all: Seq<Seq<usize>>,
    rows: Seq<RowView>,
    names: Seq<Seq<char>>,
    h: HostView,
) -> bool {
    forall|g: int|
        0 <= g < all.len() ==> group_passes(having, picked(rows, #[trigger] all[g]), names, h) is Ok
}

/// Whether a SELECT column is a grouping expression.
pub open spec fn shows_key(c: SelectColumn, exprs: Seq<Expr>) -> bool {
    c matches SelectColumn::Expr { expr, alias } && !has_aggregate(expr) && exprs.contains(expr)
}

/// The values of the grouping expressions on a row.
pub open spec fn key_values(
    exprs: Seq<Expr>,
    row: Seq<ValueView>,
    names: Seq<Seq<char>>,
    h: HostView,
) -> Seq<ValueView> {
    Seq::new(exprs.len(), |j: int| eval(exprs[j], row, names, h)->Ok_0)
}

proof fn lemma_key_evaluates(
    exprs: Seq<Expr>,
    j: int,
    acc: Seq<u8>,
    row: Seq<ValueView>,
    names: Seq<Seq<char>>,
    h: HostView,
)
    requires
        0 <= j <= exprs.len(),
        forall|k: int| 0 <= k < exprs.len() ==> eval(#[trigger] exprs[k], row, names, h) is Ok,
        acc == row_key(key_values(exprs, row, names, h).take(j)),
    ensures
        group_key(exprs, j, acc, row, names, h) == Ok::<Seq<u8>, ErrorView>(
            row_key(key_values(exprs, row, names, h)),
        ),
    decreases exprs.len() - j,
{
    let all = key_values(exprs, row, names, h);
    if j < exprs.len() {
        assert(eval(exprs[j], row, names, h) is Ok);
        let v = eval(exprs[j], row, names, h)->Ok_0;
        assert(all.take(j + 1).drop_last() =~= all.take(j));
        assert(all.take(j + 1).last() == v);
        lemma_key_evaluates(exprs, j + 1, acc + value_key(v), row, names, h);
    } else {
        assert(all.take(j) =~= all);
    }
}

/// The keys of rows.
pub open spec fn keys_of(
    exprs: Seq<Expr>,
    rows: Seq<RowView>,
    names: Seq<Seq<char>>,
    h: HostView,
) -> Seq<Seq<u8>> {
    Seq::new(rows.len(), |i: int| row_key(key_values(exprs, rows[i].1, names, h)))
}

proof fn lemma_keys_evaluate(
    exprs: Seq<Expr>,
    rows: Seq<RowView>,
    i: int,
    acc: Seq<Seq<u8>>,
    names: Seq<Seq<char>>,
    h: HostView,
)
    requires
        0 <= i <= rows.len(),
        keys_evaluate(exprs, rows, names, h),
        acc == keys_of(exprs, rows, names, h).take(i),
    ensures
        group_keys(exprs, rows, i, acc, names, h) == Ok::<Seq<Seq<u8>>, ErrorView>(
            keys_of(exprs, rows, names, h),
        ),
    decreases rows.len() - i,
{
    let all = keys_of(exprs, rows, names, h);
    if i < rows.len() {
        assert forall|k: int| 0 <= k < exprs.len() implies eval(
            #[trigger] exprs[k],
            rows[i].1,
            names,
            h,
        ) is Ok by {
            assert(rows[i] == rows[i]);
        }
        assert(key_values(exprs, rows[i].1, names, h).take(0).len() == 0);
        lemma_key_evaluates(exprs, 0, Seq::empty(), rows[i].1, names, h);
        assert(acc.push(all[i]) =~= all.take(i + 1));
        lemma_keys_evaluate(exprs, rows, i + 1, acc.push(all[i]), names, h);
    } else {
        assert(all.take(i) =~= all);
    }
}

/// A group begins with the first row that has its key.
proof fn lemma_first_place(keys: Seq<Seq<u8>>, key: Seq<u8>)
    requires
        keys.len() <= usize::MAX,
        keys.contains(key),
    ensures
        places(keys, key).len() > 0,
        places(keys, key)[0] < keys.len(),
        keys[places(keys, key)[0] as int] == key,
        forall|i: int| 0 <= i < places(keys, key)[0] ==> #[trigger] keys[i] != key,
    decreases keys.len(),
{
    let short = keys.drop_last();
    if short.contains(key) {
        lemma_first_place(short, key);
        let f = places(short, key)[0];
        assert(places(keys, key)[0] == f);
        assert(keys[f as int] == short[f as int]);
        assert forall|i: int| 0 <= i < f implies #[trigger] keys[i] != key by {
            assert(keys[i] == short[i]);
        }
    } else {
        lemma_places(short, key);
        let k = choose|k: int| 0 <= k < keys.len() && keys[k] == key;
        if k < short.len() {
            assert(short[k] == key);
        }
        assert(keys.last() == key);
        assert(places(short, key).len() == 0);
        assert forall|i: int| 0 <= i < keys.len() - 1 implies #[trigger] keys[i] != key by {
            assert(keys[i] == short[i]);
        }
    }
}

/// The groups stand in the order of their first rows.
proof fn lemma_groups_in_order(keys: Seq<Seq<u8>>, a: int, b: int)
    requires
        keys.len() <= usize::MAX,
        0 <= a < b < distinct_keys(keys).len(),
    ensures
        places(keys, distinct_keys(keys)[a])[0] < places(keys, distinct_keys(keys)[b])[0],
    decreases keys.len(),
{
    if keys.len() > 0 {
        let short = keys.drop_last();
        let d = distinct_keys(short);
        let e = distinct_keys(keys);
        lemma_distinct_keys(short);
        lemma_distinct_keys(keys);
        assert(d.contains(e[a])) by {
            assert(e[a] == d[a]);
        }
        lemma_first_place(short, e[a]);
        if b < d.len() {
            assert(d.contains(e[b])) by {
                assert(e[b] == d[b]);
            }
            lemma_first_place(short, e[b]);
            lemma_groups_in_order(short, a, b);
        } else {
            assert(e[b] == keys.last());
            assert(!short.contains(keys.last())) by {
                if short.contains(keys.last()) {
                    assert(d.contains(keys.last()));
                }
            }
            lemma_places(short, keys.last());
        }
    }
}

proof fn lemma_cells_evaluate(
    cols: Seq<SelectColumn>,
    i: int,
    acc: Seq<ValueView>,
    star_error: Seq<char>,
    part: Seq<RowView>,
    names: Seq<Seq<char>>,
    h: HostView,
)
    requires
        0 <= i <= cols.len(),
        forall|j: int|
            i <= j < cols.len() ==> (#[trigger] cols[j] matches SelectColumn::Expr { expr, alias }
                && agg_value(expr, part, names, h) is Ok),
    ensures
        agg_row(cols, i, acc, star_error, part, names, h) is Ok,
    decreases cols.len() - i,
{
    if i < cols.len() {
        if let SelectColumn::Expr { expr, alias } = cols[i] {
            let v = agg_value(expr, part, names, h)->Ok_0;
            lemma_cells_evaluate(cols, i + 1, acc.push(v), star_error, part, names, h);
        }
    }
}

proof fn lemma_group_rows_evaluate(
    having: Option<Expr>,
    cols: Seq<SelectColumn>,
    all: Seq<Seq<usize>>,
    g: int,
    acc: Seq<Seq<ValueView>>,
    rows: Seq<RowView>,
    names: Seq<Seq<char>>,
    h: HostView,
)
    requires
        0 <= g <= all.len(),
        having_evaluates(having, all, rows, names, h),
        forall|k: int|
            0 <= k < all.len() ==> group_values(cols, picked(rows, #[trigger] all[k]), names, h)
                is Ok,
    ensures
        group_rows_from(having, cols, all, g, acc, rows, names, h) is Ok,
    decreases all.len() - g,
{
    if g < all.len() {
        let part = picked(rows, all[g]);
        assert(group_passes(having, part, names, h) is Ok);
        assert(group_values(cols, part, names, h) is Ok);
        match group_row(having, cols, part, names, h) {
            Ok(Some(row)) => lemma_group_rows_evaluate(
                having,
                cols,
                all,
                g + 1,
                acc.push(row),
                rows,
                names,
                h,
            ),
            _ => lemma_group_rows_evaluate(having, cols, all, g + 1, acc, rows, names, h),
        }
    }
}

/// Whether groups are listed in order, those below `g` that pass HAVING and no others.
pub open spec fn lists_passing(
    kept: Seq<int>,
    having: Option<Expr>,
    all: Seq<Seq<usize>>,
    g: int,
    rows: Seq<RowView>,
    names: Seq<Seq<char>>,
    h: HostView,
) -> bool {
    &&& forall|a: int, b: int| 0 <= a < b < kept.len() ==> #[trigger] kept[a] < #[trigger] kept[b]
    &&& forall|k: int| 0 <= k < kept.len() ==> 0 <= #[trigger] kept[k] < g
    &&& forall|x: int|
        0 <= x < g ==> (#[trigger] kept.contains(x) <==> group_passes(
            having,
            picked(rows, all[x]),
            names,
            h,
        ) == Ok::<bool, ErrorView>(true))
}

proof fn lemma_kept_lists(
    having: Option<Expr>,
    all: Seq<Seq<usize>>,
    g: int,
    acc: Seq<int>,
    rows: Seq<RowView>,
    names: Seq<Seq<char>>,
    h: HostView,
)
    requires
        0 <= g <= all.len(),
        lists_passing(acc, having, all, g, rows, names, h),
    ensures
        lists_passing(
            kept_from(having, all, g, acc, rows, names, h),
            having,
            all,
            all.len() as int,
            rows,
            names,
            h,
        ),
    decreases all.len() - g,
{
    if g < all.len() {
        let passed = group_passes(having, picked(rows, all[g]), names, h) == Ok::<bool, ErrorView>(
            true,
        );
        let next = if passed {
            acc.push(g)
        } else {
            acc
        };
        assert(lists_passing(next, having, all, g + 1, rows, names, h)) by {
            assert forall|x: int| 0 <= x < g + 1 implies (#[trigger] next.contains(x)
                <==> group_passes(having, picked(rows, all[x]), names, h) == Ok::<bool, ErrorView>(
                true,
            )) by {
                if passed {
                    assert(next[acc.len() as int] == g);
                }
                if x < g {
                    if acc.contains(x) {
                        let k = choose|k: int| 0 <= k < acc.len() && acc[k] == x;
                        assert(next[k] == x);
                    }
                    if next.contains(x) {
                        let k = choose|k: int| 0 <= k < next.len() && next[k] == x;
                        assert(acc[k] == x);
                    }
                } else if next.contains(x) && !passed {
                    let k = choose|k: int| 0 <= k < next.len() && next[k] == x;
                    assert(acc[k] < g);
                }
            }
        }
        lemma_kept_lists(having, all, g + 1, next, rows, names, h);
    }
}

/// Whether a result row shows a group: in the columns that are grouping expressions their values
/// on the first row with the group's key, and in those that count, how many rows have it.
pub open spec fn shows_group(
    row: Seq<ValueView>,
    cols: Seq<SelectColumn>,
    keys: Seq<Seq<u8>>,
    key: Seq<u8>,
    rows: Seq<RowView>,
    names: Seq<Seq<char>>,
    h: HostView,
) -> bool {
    let at = places(keys, key);
    &&& row.len() == cols.len()
    &&& at.len() > 0 && at[0] < rows.len() && keys[at[0] as int] == key
    &&& forall|i: int| 0 <= i < at[0] ==> #[trigger] keys[i] != key
    &&& forall|j: int|
        0 <= j < cols.len() ==> (#[trigger] cols[j] matches SelectColumn::Expr { expr, alias } && if counts_rows(
            cols[j],
        ) {
            row[j] == ValueView::BigInt(at.len() as i64)
        } else {
            eval(expr, rows[at[0] as int].1, names, h) == Ok::<ValueView, ErrorView>(row[j])
        })
}

proof fn lemma_group_shown(
    exprs: Seq<Expr>,
    cols: Seq<SelectColumn>,
    rows: Seq<RowView>,
    names: Seq<Seq<char>>,
    h: HostView,
    g: int,
)
    requires
        rows.len() <= usize::MAX,
        keys_evaluate(exprs, rows, names, h),
        forall|j: int|
            0 <= j < cols.len() ==> counts_rows(#[trigger] cols[j]) || shows_key(cols[j], exprs),
        0 <= g < distinct_keys(keys_of(exprs, rows, names, h)).len(),
    ensures
        ({
            let keys = keys_of(exprs, rows, names, h);
            let v = group_values(cols, picked(rows, groups(keys)[g]), names, h);
            v is Ok && shows_group(
                v->Ok_0,
                cols,
                keys,
                distinct_keys(keys)[g],
                rows,
                names,
                h,
            )
        }),
{
    let keys = keys_of(exprs, rows, names, h);
    let key = distinct_keys(keys)[g];
    let at = places(keys, key);
    let part = picked(rows, at);
    lemma_distinct_keys(keys);
    assert(distinct_keys(keys).contains(key));
    lemma_first_place(keys, key);
    assert(part[0] == rows[at[0] as int]);
    assert forall|j: int| 0 <= j < cols.len() implies (#[trigger] cols[j] matches SelectColumn::Expr {
        expr,
        alias,
    } && agg_value(expr, part, names, h) == if counts_rows(cols[j]) {
        Ok::<ValueView, ErrorView>(ValueView::BigInt(at.len() as i64))
    } else {
        eval(expr, rows[at[0] as int].1, names, h)
    } && agg_value(expr, part, names, h) is Ok) by {
        if let SelectColumn::Expr { expr, alias } = cols[j] {
            if counts_rows(cols[j]) {
                assert(has_aggregate(expr));
                assert(agg_value(expr, part, names, h) == agg_eval(expr, part, names, h));
            } else {
                let k = choose|k: int| 0 <= k < exprs.len() && exprs[k] == expr;
                assert(eval(exprs[k], rows[at[0] as int].1, names, h) is Ok);
            }
        }
    }
    let e = "cannot use * with GROUP BY"@;
    lemma_cells_evaluate(cols, 0, Seq::empty(), e, part, names, h);
    let row = group_values(cols, part, names, h)->Ok_0;
    assert(row.len() == cols.len()) by {
        lemma_row_len(cols, 0, Seq::empty(), e, part, names, h);
    }
    assert forall|j: int| 0 <= j < cols.len() implies (#[trigger] cols[j] matches SelectColumn::Expr {
        expr,
        alias,
    } && if counts_rows(cols[j]) {
        row[j] == ValueView::BigInt(at.len() as i64)
    } else {
        eval(expr, rows[at[0] as int].1, names, h) == Ok::<ValueView, ErrorView>(row[j])
    }) by {
        lemma_cell(cols, 0, Seq::empty(), e, part, names, h, j);
    }
}

proof fn lemma_row_len(
    cols: Seq<SelectColumn>,
    i: int,
    acc: Seq<ValueView>,
    star_error: Seq<char>,
    part: Seq<RowView>,
    names: Seq<Seq<char>>,
    h: HostView,
)
    requires
        0 <= i <= cols.len(),
        acc.len() == i,
        agg_row(cols, i, acc, star_error, part, names, h) is Ok,
    ensures
        agg_row(cols, i, acc, star_error, part, names, h)->Ok_0.len() == cols.len(),
    decreases cols.len() - i,
{
    if i < cols.len() {
        if let SelectColumn::Expr { expr, alias } = cols[i] {
            let v = agg_value(expr, part, names, h)->Ok_0;
            lemma_row_len(cols, i + 1, acc.push(v), star_error, part, names, h);
        }
    }
}

/// GROUP BY with grouping expressions and COUNT(*) in the SELECT list succeeds where the grouping
/// expressions and HAVING can be evaluated. The rows of the answer are those of the groups that
/// pass HAVING, in the order in which their keys first occur: each shows the grouping expressions
/// on the first row of its group, and how many rows the group has. Without HAVING there is a row
/// for each different key, and the counts add up to the number of rows.
pub proof fn law_group_by(
    exprs: Seq<Expr>,
    having: Option<Expr>,
    cols: Seq<SelectColumn>,
    rows: Seq<RowView>,
    names: Seq<Seq<char>>,
    h: HostView,
)
    requires
        rows.len() <= i64::MAX,
        rows.len() <= usize::MAX,
        keys_evaluate(exprs, rows, names, h),
        having_evaluates(having, groups(keys_of(exprs, rows, names, h)), rows, names, h),
        forall|j: int|
            0 <= j < cols.len() ==> counts_rows(#[trigger] cols[j]) || shows_key(cols[j], exprs),
    ensures
        ({
            let keys = keys_of(exprs, rows, names, h);
            let d = distinct_keys(keys);
            let kept = kept_from(having, groups(keys), 0, Seq::empty(), rows, names, h);
            let r = group_by_result(exprs, having, cols, rows, names, h);
            &&& r is Ok
            &&& lists_passing(kept, having, groups(keys), d.len() as int, rows, names, h)
            &&& r->Ok_0.1.len() == kept.len()
            &&& forall|k: int|
                0 <= k < kept.len() ==> shows_group(
                    r->Ok_0.1[k],
                    cols,
                    keys,
                    d[#[trigger] kept[k]],
                    rows,
                    names,
                    h,
                )
            &&& d.no_duplicates()
            &&& forall|key: Seq<u8>| #[trigger] d.contains(key) <==> keys.contains(key)
            &&& forall|a: int, b: int|
                0 <= a < b < d.len() ==> places(keys, #[trigger] d[a])[0] < places(
                    keys,
                    #[trigger] d[b],
                )[0]
            &&& having is None ==> kept == Seq::new(d.len(), |k: int| k) && forall|c: int|
                0 <= c < cols.len() && counts_rows(#[trigger] cols[c]) ==> column_sum(
                    r->Ok_0.1,
                    c,
                    r->Ok_0.1.len() as int,
                ) == rows.len()
            &&& rows.len() == 0 ==> r->Ok_0.1.len() == 0
        }),
{
    let keys = keys_of(exprs, rows, names, h);
    let d = distinct_keys(keys);
    let all = groups(keys);
    assert(keys.take(0) =~= Seq::<Seq<u8>>::empty());
    lemma_keys_evaluate(exprs, rows, 0, Seq::empty(), names, h);
    assert forall|k: int| 0 <= k < all.len() implies group_values(
        cols,
        picked(rows, #[trigger] all[k]),
        names,
        h,
    ) is Ok by {
        lemma_group_shown(exprs, cols, rows, names, h, k);
    }
    lemma_group_rows_evaluate(having, cols, all, 0, Seq::empty(), rows, names, h);
    let r = group_by_result(exprs, having, cols, rows, names, h);
    assert(r is Ok);
    law_one_row_for_each_passing_group(exprs, having, cols, rows, names, h);
    let kept = kept_from(having, all, 0, Seq::empty(), rows, names, h);
    lemma_kept_lists(having, all, 0, Seq::empty(), rows, names, h);
    let out = r->Ok_0.1;
    assert forall|k: int| 0 <= k < kept.len() implies shows_group(
        out[k],
        cols,
        keys,
        d[#[trigger] kept[k]],
        rows,
        names,
        h,
    ) by {
        lemma_group_shown(exprs, cols, rows, names, h, kept[k]);
    }
    lemma_distinct_keys(keys);
    assert forall|a: int, b: int| 0 <= a < b < d.len() implies places(keys, #[trigger] d[a])[0]
        < places(keys, #[trigger] d[b])[0] by {
        lemma_groups_in_order(keys, a, b);
    }
    if having is None {
        lemma_all_kept(all, 0, rows, names, h);
        assert(Seq::new(0, |k: int| k) =~= Seq::<int>::empty());
        assert forall|c: int| 0 <= c < cols.len() && counts_rows(
            #[trigger] cols[c],
        ) implies column_sum(out, c, out.len() as int) == rows.len() by {
            law_counts_add_up(exprs, cols, rows, names, h, c);
        }
    }
    if rows.len() == 0 {
        assert(keys.len() == 0);
    }
}

} // verus!
