//! A fast inner join gives a row for each pair of rows with the same integer in its columns.
use crate::aggregate::RowView;
use crate::arena_join::{kept_part, parts_from, table_parts};
use crate::ast::{BinaryOperator, Expr};
use crate::common::no_rid;
use crate::executor::{beside_each, fast_join, keyed_join, keyed_rows, keys_of};
use crate::iterator::values_of;
use crate::join::{equi_keys, key_column, match_places, matches_below, KeyView};
use crate::plan::PlanNode;
use crate::scan::{live, rows_from, table_of, table_rows};
use crate::schema::{name_from, prefixed, view_names};
use crate::state::ReadView;
use crate::storage::{table_tuples, RawView, MVCC_HEADER_SIZE};
use crate::text::same_name;
use crate::tuple::{law_single_column_agrees, tuple_read, types_of};
use crate::types::{DataType, ValueView};
use crate::window_laws::held;
use vstd::prelude::*;

verus! {

// ---------------------------------------------------------------------------
// Pairs
// ---------------------------------------------------------------------------

/// Rows with the integers in one of their columns; none where it holds none.
pub open spec fn marked(rows: Seq<RowView>, k: int) -> Seq<(Option<int>, Seq<ValueView>)> {
    Seq::new(rows.len(), |i: int| (held(rows[i].1[k]), rows[i].1))
}

/// Whether two rows have the same integer and are, one behind the other, the given values.
pub open spec fn make(
    a: (Option<int>, Seq<ValueView>),
    b: (Option<int>, Seq<ValueView>),
    x: Seq<ValueView>,
) -> bool {
    a.0 is Some && a.0 == b.0 && a.1 + b.1 == x
}

/// With how many of the first `m` rows of `b` a row makes the given values.
pub open spec fn partners(
    a: (Option<int>, Seq<ValueView>),
    b: Seq<(Option<int>, Seq<ValueView>)>,
    x: Seq<ValueView>,
    m: int,
) -> nat
    decreases m,
{
    if m <= 0 {
        0
    } else {
        partners(a, b, x, m - 1) + if make(a, b[m - 1], x) {
            1nat
        } else {
            0
        }
    }
}

/// How many pairs of one of the first `n` rows of `a` and one of the first `m` rows of `b` have
/// the same integer and are, one behind the other, the given values.
pub open spec fn pair_count(
    a: Seq<(Option<int>, Seq<ValueView>)>,
    b: Seq<(Option<int>, Seq<ValueView>)>,
    x: Seq<ValueView>,
    n: int,
    m: int,
) -> nat
    decreases n,
{
    if n <= 0 {
        0
    } else {
        pair_count(a, b, x, n - 1, m) + partners(a[n - 1], b, x, m)
    }
}

/// With how many of the first `n` rows of `a` a row of the other side makes the given values.
spec fn partners_left(
    a: Seq<(Option<int>, Seq<ValueView>)>,
    b: (Option<int>, Seq<ValueView>),
    x: Seq<ValueView>,
    n: int,
) -> nat
    decreases n,
{
    if n <= 0 {
        0
    } else {
        partners_left(a, b, x, n - 1) + if make(a[n - 1], b, x) {
            1nat
        } else {
            0
        }
    }
}

proof fn lemma_one_more_right(
    a: Seq<(Option<int>, Seq<ValueView>)>,
    b: Seq<(Option<int>, Seq<ValueView>)>,
    x: Seq<ValueView>,
    n: int,
    m: int,
)
    requires
        0 <= n,
        0 < m,
    ensures
        pair_count(a, b, x, n, m) == pair_count(a, b, x, n, m - 1) + partners_left(
            a,
            b[m - 1],
            x,
            n,
        ),
    decreases n,
{
    if n > 0 {
        lemma_one_more_right(a, b, x, n - 1, m);
    }
}

proof fn lemma_no_right(
    a: Seq<(Option<int>, Seq<ValueView>)>,
    b: Seq<(Option<int>, Seq<ValueView>)>,
    x: Seq<ValueView>,
    n: int,
)
    ensures
        pair_count(a, b, x, n, 0) == 0,
    decreases n,
{
    if n > 0 {
        lemma_no_right(a, b, x, n - 1);
    }
}

/// The rows that have an integer, with it.
spec fn kept(rows: Seq<RowView>, k: int, n: int) -> Seq<(i64, Seq<ValueView>)>
    decreases n,
{
    if n <= 0 {
        Seq::empty()
    } else {
        let before = kept(rows, k, n - 1);
        match held(rows[n - 1].1[k]) {
            Some(i) => before.push((i as i64, rows[n - 1].1)),
            None => before,
        }
    }
}

/// Rows with their integers, all of which have one.
spec fn all_marked(rows: Seq<(i64, Seq<ValueView>)>) -> Seq<(Option<int>, Seq<ValueView>)> {
    Seq::new(rows.len(), |i: int| (Some(rows[i].0 as int), rows[i].1))
}

proof fn lemma_partners_prefix(
    a: (Option<int>, Seq<ValueView>),
    b: Seq<(Option<int>, Seq<ValueView>)>,
    c: Seq<(Option<int>, Seq<ValueView>)>,
    x: Seq<ValueView>,
    m: int,
)
    requires
        m <= b.len(),
        m <= c.len(),
        forall|i: int| 0 <= i < m ==> b[i] == c[i],
    ensures
        partners(a, b, x, m) == partners(a, c, x, m),
    decreases m,
{
    if m > 0 {
        lemma_partners_prefix(a, b, c, x, m - 1);
    }
}

proof fn lemma_partners_kept(
    a: (Option<int>, Seq<ValueView>),
    rows: Seq<RowView>,
    k: int,
    x: Seq<ValueView>,
    m: int,
)
    requires
        0 <= m <= rows.len(),
    ensures
        partners(a, marked(rows, k), x, m) == partners(
            a,
            all_marked(kept(rows, k, m)),
            x,
            kept(rows, k, m).len() as int,
        ),
    decreases m,
{
    if m > 0 {
        lemma_partners_kept(a, rows, k, x, m - 1);
        let before = kept(rows, k, m - 1);
        let after = kept(rows, k, m);
        lemma_partners_prefix(
            a,
            all_marked(before),
            all_marked(after),
            x,
            before.len() as int,
        );
    }
}

proof fn lemma_count_prefix(
    a: Seq<(Option<int>, Seq<ValueView>)>,
    c: Seq<(Option<int>, Seq<ValueView>)>,
    b: Seq<(Option<int>, Seq<ValueView>)>,
    x: Seq<ValueView>,
    n: int,
    m: int,
)
    requires
        n <= a.len(),
        n <= c.len(),
        forall|i: int| 0 <= i < n ==> a[i] == c[i],
    ensures
        pair_count(a, b, x, n, m) == pair_count(c, b, x, n, m),
    decreases n,
{
    if n > 0 {
        lemma_count_prefix(a, c, b, x, n - 1, m);
    }
}

proof fn lemma_no_partner(
    a: (Option<int>, Seq<ValueView>),
    b: Seq<(Option<int>, Seq<ValueView>)>,
    x: Seq<ValueView>,
    m: int,
)
    requires
        a.0 is None,
    ensures
        partners(a, b, x, m) == 0,
    decreases m,
{
    if m > 0 {
        lemma_no_partner(a, b, x, m - 1);
    }
}

proof fn lemma_count_kept(
    left: Seq<RowView>,
    right: Seq<RowView>,
    lk: int,
    rk: int,
    x: Seq<ValueView>,
    n: int,
)
    requires
        0 <= n <= left.len(),
    ensures
        ({
            let a = kept(left, lk, n);
            let b = kept(right, rk, right.len() as int);
            pair_count(marked(left, lk), marked(right, rk), x, n, right.len() as int) == pair_count(
                all_marked(a),
                all_marked(b),
                x,
                a.len() as int,
                b.len() as int,
            )
        }),
    decreases n,
{
    if n > 0 {
        lemma_count_kept(left, right, lk, rk, x, n - 1);
        let before = kept(left, lk, n - 1);
        let after = kept(left, lk, n);
        let b = kept(right, rk, right.len() as int);
        let one = marked(left, lk)[n - 1];
        lemma_count_prefix(
            all_marked(before),
            all_marked(after),
            all_marked(b),
            x,
            before.len() as int,
            b.len() as int,
        );
        lemma_partners_kept(one, right, rk, x, right.len() as int);
        if one.0 is None {
            lemma_no_partner(one, marked(right, rk), x, right.len() as int);
        } else {
            lemma_held_fits(left[n - 1].1[lk]);
            assert(all_marked(after)[before.len() as int] == one);
        }
    }
}

proof fn lemma_held_fits(v: ValueView)
    ensures
        held(v) matches Some(n) ==> i64::MIN <= n <= i64::MAX,
{
}

// ---------------------------------------------------------------------------
// The join by keys
// ---------------------------------------------------------------------------

/// How often values occur.
spec fn times(rows: Seq<RowView>, x: Seq<ValueView>) -> nat {
    values_of(rows).to_multiset().count(x)
}

proof fn lemma_times_push(rows: Seq<RowView>, row: RowView, x: Seq<ValueView>)
    ensures
        times(rows.push(row), x) == times(rows, x) + if row.1 == x {
            1nat
        } else {
            0
        },
{
    broadcast use vstd::seq_lib::group_to_multiset_ensures;

    assert(values_of(rows.push(row)) =~= values_of(rows).push(row.1));
}

proof fn lemma_times_add(a: Seq<RowView>, b: Seq<RowView>, x: Seq<ValueView>)
    ensures
        times(a + b, x) == times(a, x) + times(b, x),
{
    assert(values_of(a + b) =~= values_of(a) + values_of(b));
    vstd::seq_lib::lemma_multiset_commutative(values_of(a), values_of(b));
}

proof fn lemma_times_none(x: Seq<ValueView>)
    ensures
        times(Seq::<RowView>::empty(), x) == 0,
{
    broadcast use vstd::seq_lib::group_to_multiset_ensures;

    assert(values_of(Seq::<RowView>::empty()) =~= Seq::<Seq<ValueView>>::empty());
}

proof fn lemma_beside(
    row: (i64, Seq<ValueView>),
    others: Seq<(i64, Seq<ValueView>)>,
    others_left: bool,
    x: Seq<ValueView>,
    m: int,
)
    requires
        0 <= m <= others.len() <= usize::MAX,
    ensures
        ({
            let found = matches_below(keys_of(others), Some(KeyView::BigInt(row.0)), m);
            let one = (Some(row.0 as int), row.1);
            times(beside_each(row.1, found, others, others_left), x) == if others_left {
                partners_left(all_marked(others), one, x, m)
            } else {
                partners(one, all_marked(others), x, m)
            }
        }),
    decreases m,
{
    let key = Some(KeyView::BigInt(row.0));
    let found = matches_below(keys_of(others), key, m);
    if m > 0 {
        lemma_beside(row, others, others_left, x, m - 1);
        let before = matches_below(keys_of(others), key, m - 1);
        let had = beside_each(row.1, before, others, others_left);
        if keys_of(others)[m - 1] == key {
            let more = (
                no_rid(),
                if others_left {
                    others[m - 1].1 + row.1
                } else {
                    row.1 + others[m - 1].1
                },
            );
            assert(beside_each(row.1, found, others, others_left) =~= had.push(more));
            lemma_times_push(had, more, x);
        }
    } else {
        assert(beside_each(row.1, found, others, others_left) =~= Seq::<RowView>::empty());
        lemma_times_none(x);
    }
}

/// How many pairs there are from row `i` of the side that is read on.
spec fn remaining(
    rows: Seq<(i64, Seq<ValueView>)>,
    i: int,
    others: Seq<(i64, Seq<ValueView>)>,
    others_left: bool,
    x: Seq<ValueView>,
) -> int {
    let a = all_marked(rows);
    let b = all_marked(others);
    if others_left {
        pair_count(b, a, x, others.len() as int, rows.len() as int) - pair_count(
            b,
            a,
            x,
            others.len() as int,
            i,
        )
    } else {
        pair_count(a, b, x, rows.len() as int, others.len() as int) - pair_count(
            a,
            b,
            x,
            i,
            others.len() as int,
        )
    }
}

proof fn lemma_keyed_join(
    rows: Seq<(i64, Seq<ValueView>)>,
    i: int,
    others: Seq<(i64, Seq<ValueView>)>,
    others_left: bool,
    acc: Seq<RowView>,
    x: Seq<ValueView>,
)
    requires
        0 <= i <= rows.len(),
        others.len() <= usize::MAX,
    ensures
        times(keyed_join(rows, i, others, others_left, acc), x) == times(acc, x) + remaining(
            rows,
            i,
            others,
            others_left,
            x,
        ),
    decreases rows.len() - i,
{
    if i < rows.len() {
        let m = others.len() as int;
        let found = match_places(keys_of(others), Some(KeyView::BigInt(rows[i].0)));
        let more = beside_each(rows[i].1, found, others, others_left);
        lemma_beside(rows[i], others, others_left, x, m);
        lemma_times_add(acc, more, x);
        lemma_keyed_join(rows, i + 1, others, others_left, acc + more, x);
        if others_left {
            lemma_one_more_right(all_marked(others), all_marked(rows), x, m, i + 1);
        }
    }
}

// ---------------------------------------------------------------------------
// Tables
// ---------------------------------------------------------------------------

/// Whether parts are those of rows.
spec fn parts_of(parts: Seq<Seq<u8>>, rows: Seq<RowView>, types: Seq<DataType>) -> bool {
    &&& parts.len() == rows.len()
    &&& forall|i: int|
        0 <= i < rows.len() ==> tuple_read(#[trigger] parts[i], types) == Ok::<
            Seq<ValueView>,
            crate::error::ErrorView,
        >(rows[i].1)
}

/// Whether the tuples of a table with versions have the header of one.
pub open spec fn have_headers(raws: Seq<RawView>, mvcc: bool) -> bool {
    mvcc ==> forall|i: int|
        0 <= i < raws.len() ==> (#[trigger] raws[i]).1.len() >= MVCC_HEADER_SIZE
}

proof fn lemma_parts(
    raws: Seq<RawView>,
    i: int,
    mvcc: bool,
    types: Seq<DataType>,
    parts: Seq<Seq<u8>>,
    rows: Seq<RowView>,
)
    requires
        0 <= i <= raws.len(),
        parts_of(parts, rows, types),
        have_headers(raws, mvcc),
        rows_from(raws, i, mvcc, None, types, None, rows) is Ok,
    ensures
        parts_of(
            parts_from(raws, i, mvcc, parts),
            rows_from(raws, i, mvcc, None, types, None, rows)->Ok_0,
            types,
        ),
    decreases raws.len() - i,
{
    if i < raws.len() {
        assert(kept_part(raws[i].1, mvcc) == live(raws[i].1, mvcc, None));
        match live(raws[i].1, mvcc, None) {
            None => lemma_parts(raws, i + 1, mvcc, types, parts, rows),
            Some(d) => {
                let row = (raws[i].0, tuple_read(d, types)->Ok_0);
                lemma_parts(raws, i + 1, mvcc, types, parts.push(d), rows.push(row));
            },
        }
    }
}

proof fn lemma_keyed(
    parts: Seq<Seq<u8>>,
    rows: Seq<RowView>,
    i: int,
    types: Seq<DataType>,
    col: int,
)
    requires
        parts_of(parts, rows, types),
        0 <= i <= parts.len(),
        0 <= col < types.len(),
    ensures
        keyed_rows(parts, i, types, col, kept(rows, col, i)) == kept(
            rows,
            col,
            rows.len() as int,
        ),
    decreases parts.len() - i,
{
    if i < parts.len() {
        law_single_column_agrees(parts[i], types, col);
        lemma_keyed(parts, rows, i + 1, types, col);
    }
}

/// The rows of a fast inner join of two tables by integer columns are the pairs of a row of the
/// left and one of the right table with the same integer in these columns, the left row before
/// the right one, each as often as there are such pairs, and nothing else.
pub proof fn law_fast_join_gives_each_pair(
    left: PlanNode,
    right: PlanNode,
    lt: Seq<char>,
    la: Option<Seq<char>>,
    rt: Seq<char>,
    ra: Option<Seq<char>>,
    on: Expr,
    lk: int,
    rk: int,
    rd: ReadView,
    x: Seq<ValueView>,
)
    requires
        left matches PlanNode::SeqScan { table_name, alias } && table_name@ == lt
            && alias.deep_view() == la,
        right matches PlanNode::SeqScan { table_name, alias } && table_name@ == rt
            && alias.deep_view() == ra,
        table_rows(rd.catalog, rd.pages, lt, None, None) is Ok,
        table_rows(rd.catalog, rd.pages, rt, None, None) is Ok,
        table_rows(rd.catalog, rd.pages, lt, None, None)->Ok_0.1.len() <= usize::MAX,
        table_rows(rd.catalog, rd.pages, rt, None, None)->Ok_0.1.len() <= usize::MAX,
        equi_keys(
            on,
            view_names(
                prefixed(
                    table_rows(rd.catalog, rd.pages, lt, None, None)->Ok_0.0,
                    match la {
                        Some(a) => a,
                        None => lt,
                    },
                ),
            ),
            view_names(
                prefixed(
                    table_rows(rd.catalog, rd.pages, rt, None, None)->Ok_0.0,
                    match ra {
                        Some(a) => a,
                        None => rt,
                    },
                ),
            ),
        ) == Some((lk, rk)),
        0 <= lk < table_rows(rd.catalog, rd.pages, lt, None, None)->Ok_0.0.len(),
        0 <= rk < table_rows(rd.catalog, rd.pages, rt, None, None)->Ok_0.0.len(),
        have_headers(
            table_tuples(rd.pages, table_of(rd.catalog, lt)->0.first_page_id.0)->Ok_0,
            table_of(rd.catalog, lt)->0.mvcc_enabled,
        ),
        have_headers(
            table_tuples(rd.pages, table_of(rd.catalog, rt)->0.first_page_id.0)->Ok_0,
            table_of(rd.catalog, rt)->0.mvcc_enabled,
        ),
        fast_join(left, right, on, rd) matches Some(Ok(_)),
    ensures
        ({
            let l = table_rows(rd.catalog, rd.pages, lt, None, None)->Ok_0.1;
            let r = table_rows(rd.catalog, rd.pages, rt, None, None)->Ok_0.1;
            let out = fast_join(left, right, on, rd)->0->Ok_0.1;
            values_of(out).to_multiset().count(x) == pair_count(
                marked(l, lk),
                marked(r, rk),
                x,
                l.len() as int,
                r.len() as int,
            )
        }),
{
    let l = table_rows(rd.catalog, rd.pages, lt, None, None)->Ok_0.1;
    let r = table_rows(rd.catalog, rd.pages, rt, None, None)->Ok_0.1;
    let linfo = table_of(rd.catalog, lt)->0;
    let rinfo = table_of(rd.catalog, rt)->0;
    let ltypes = types_of(linfo.schema);
    let rtypes = types_of(rinfo.schema);
    let lraws = table_tuples(rd.pages, linfo.first_page_id.0)->Ok_0;
    let rraws = table_tuples(rd.pages, rinfo.first_page_id.0)->Ok_0;
    lemma_parts(lraws, 0, linfo.mvcc_enabled, ltypes, Seq::empty(), Seq::empty());
    lemma_parts(rraws, 0, rinfo.mvcc_enabled, rtypes, Seq::empty(), Seq::empty());
    let lparts = table_parts(rd.pages, linfo)->0;
    let rparts = table_parts(rd.pages, rinfo)->0;
    lemma_keyed(lparts, l, 0, ltypes, lk);
    lemma_keyed(rparts, r, 0, rtypes, rk);
    let a = kept(l, lk, l.len() as int);
    let b = kept(r, rk, r.len() as int);
    lemma_kept_length(l, lk, l.len() as int);
    lemma_kept_length(r, rk, r.len() as int);
    lemma_count_kept(l, r, lk, rk, x, l.len() as int);
    lemma_times_none(x);
    if rtypes.len() <= ltypes.len() {
        lemma_keyed_join(a, 0, b, false, Seq::empty(), x);
    } else {
        lemma_keyed_join(b, 0, a, true, Seq::empty(), x);
        lemma_no_right(all_marked(a), all_marked(b), x, a.len() as int);
    }
}

proof fn lemma_kept_length(rows: Seq<RowView>, k: int, n: int)
    requires
        0 <= n,
    ensures
        kept(rows, k, n).len() <= n,
    decreases n,
{
    if n > 0 {
        lemma_kept_length(rows, k, n - 1);
    }
}

// ---------------------------------------------------------------------------
// Conditions
// ---------------------------------------------------------------------------

/// Whether an expression refers to a column of a table by the names of both.
pub open spec fn names_column(e: Expr, t: Seq<char>, c: Seq<char>) -> bool {
    e matches Expr::ColumnRef { table: Some(table), column } && table@ == t && column@ == c
}

proof fn lemma_first(names: Seq<Seq<char>>, name: Seq<char>, i: int, k: int)
    requires
        0 <= i <= k < names.len(),
        names[k] == name,
        forall|j: int| 0 <= j < k ==> !same_name(#[trigger] names[j], name),
    ensures
        name_from(names, name, i) == Some(k),
    decreases k - i,
{
    if i < k {
        assert(!same_name(names[i], name));
        lemma_first(names, name, i + 1, k);
    }
}

/// A condition `a.x = b.y` joins by the column of each side with that name, whichever of them it
/// names first.
pub proof fn law_condition_names_the_columns(
    on: Expr,
    lnames: Seq<Seq<char>>,
    rnames: Seq<Seq<char>>,
    lt: Seq<char>,
    lc: Seq<char>,
    rt: Seq<char>,
    rc: Seq<char>,
    lk: int,
    rk: int,
)
    requires
        on matches Expr::BinaryOp { left, op, right } && op == BinaryOperator::Eq && ((names_column(
            *left,
            lt,
            lc,
        ) && names_column(*right, rt, rc)) || (names_column(*left, rt, rc) && names_column(
            *right,
            lt,
            lc,
        ) && key_column(*left, lnames) is None)),
        0 <= lk < lnames.len(),
        0 <= rk < rnames.len(),
        lnames[lk] == lt + seq!['.'] + lc,
        rnames[rk] == rt + seq!['.'] + rc,
        forall|j: int| 0 <= j < lk ==> !same_name(#[trigger] lnames[j], lnames[lk]),
        forall|j: int| 0 <= j < rk ==> !same_name(#[trigger] rnames[j], rnames[rk]),
    ensures
        equi_keys(on, lnames, rnames) == Some((lk, rk)),
{
    lemma_first(lnames, lnames[lk], 0, lk);
    lemma_first(rnames, rnames[rk], 0, rk);
}

} // verus!
