//! How often each row comes out of a join: once for each pair of rows that meet, and once, beside
//! NULLs, for each row that meets none and is kept.
use crate::aggregate::RowView;
use crate::ast::{Expr, JoinType};
use crate::common::no_rid;
use crate::error::ErrorView;
use crate::eval::eval_bool;
use crate::grouping::all_places;
use crate::grace_join::{
    grace_rows_below, keys_meet, met_below, part, part_below, partition_of, partition_rows,
    value_meetings, NUM_PARTITIONS,
};
use crate::host::HostView;
use crate::join::{
    all_meetings, alone, condition_meetings, equi_keys, is_met, join_keys, join_result, join_rows,
    key_meetings, match_places, matches_below, meeting_rows, met_from, nulls, outer_rows, pair,
    row_join_key, unmet_rows, KeyView, Meetings,
};
use crate::types::ValueView;
use crate::window_laws::held;
use vstd::prelude::*;

verus! {

// ---------------------------------------------------------------------------
// Counting
// ---------------------------------------------------------------------------

/// How many of the numbers below `n` have a property.
pub open spec fn how_many(p: spec_fn(int) -> bool, n: int) -> nat
    decreases n,
{
    if n <= 0 {
        0
    } else {
        how_many(p, n - 1) + if p(n - 1) {
            1nat
        } else {
            0
        }
    }
}

/// How many pairs of a number below `n` and one below `m` have a property.
pub open spec fn how_many_pairs(p: spec_fn(int, int) -> bool, n: int, m: int) -> nat
    decreases n,
{
    if n <= 0 {
        0
    } else {
        how_many_pairs(p, n - 1, m) + how_many(|b: int| p(n - 1, b), m)
    }
}

pub proof fn lemma_same_count(p: spec_fn(int) -> bool, q: spec_fn(int) -> bool, n: int)
    requires
        forall|i: int| 0 <= i < n ==> #[trigger] p(i) == q(i),
    ensures
        how_many(p, n) == how_many(q, n),
    decreases n,
{
    if n > 0 {
        lemma_same_count(p, q, n - 1);
        assert(p(n - 1) == q(n - 1));
    }
}

pub proof fn lemma_same_pairs(
    p: spec_fn(int, int) -> bool,
    q: spec_fn(int, int) -> bool,
    n: int,
    m: int,
)
    requires
        forall|a: int, b: int| 0 <= a < n && 0 <= b < m ==> #[trigger] p(a, b) == q(a, b),
    ensures
        how_many_pairs(p, n, m) == how_many_pairs(q, n, m),
    decreases n,
{
    if n > 0 {
        lemma_same_pairs(p, q, n - 1, m);
        let f = |b: int| p(n - 1, b);
        let g = |b: int| q(n - 1, b);
        assert forall|b: int| 0 <= b < m implies #[trigger] f(b) == g(b) by {
            assert(p(n - 1, b) == q(n - 1, b));
        }
        lemma_same_count(f, g, m);
    }
}

proof fn lemma_none_left(p: spec_fn(int, int) -> bool, n: int)
    ensures
        how_many_pairs(p, n, 0) == 0,
    decreases n,
{
    if n > 0 {
        lemma_none_left(p, n - 1);
    }
}

proof fn lemma_one_more(p: spec_fn(int, int) -> bool, n: int, m: int)
    requires
        0 < m,
    ensures
        how_many_pairs(p, n, m) == how_many_pairs(p, n, m - 1) + how_many(|a: int| p(a, m - 1), n),
    decreases n,
{
    if n > 0 {
        lemma_one_more(p, n - 1, m);
        let f = |b: int| p(n - 1, b);
        assert(how_many(f, m) == how_many(f, m - 1) + if f(m - 1) {
            1nat
        } else {
            0
        });
        let g = |a: int| p(a, m - 1);
        assert(how_many(g, n) == how_many(g, n - 1) + if g(n - 1) {
            1nat
        } else {
            0
        });
    }
}

/// A property with its two numbers exchanged.
pub open spec fn turned(p: spec_fn(int, int) -> bool) -> spec_fn(int, int) -> bool {
    |a: int, b: int| p(b, a)
}

pub proof fn lemma_turned(p: spec_fn(int, int) -> bool, n: int, m: int)
    requires
        0 <= n,
        0 <= m,
    ensures
        how_many_pairs(turned(p), m, n) == how_many_pairs(p, n, m),
    decreases m,
{
    if m == 0 {
        lemma_none_left(p, n);
    } else {
        lemma_turned(p, n, m - 1);
        lemma_one_more(p, n, m);
        let f = |b: int| turned(p)(m - 1, b);
        let g = |a: int| p(a, m - 1);
        assert forall|b: int| 0 <= b < n implies #[trigger] f(b) == g(b) by {}
        lemma_same_count(f, g, n);
    }
}

// ---------------------------------------------------------------------------
// Places
// ---------------------------------------------------------------------------

/// The numbers below `n` that have a property, in order.
spec fn picked(p: spec_fn(int) -> bool, n: int) -> Seq<usize>
    decreases n,
{
    if n <= 0 {
        Seq::empty()
    } else if p(n - 1) {
        picked(p, n - 1).push((n - 1) as usize)
    } else {
        picked(p, n - 1)
    }
}

proof fn lemma_picked_same(p: spec_fn(int) -> bool, q: spec_fn(int) -> bool, n: int)
    requires
        forall|i: int| 0 <= i < n ==> #[trigger] p(i) == q(i),
    ensures
        picked(p, n) == picked(q, n),
    decreases n,
{
    if n > 0 {
        lemma_picked_same(p, q, n - 1);
        assert(p(n - 1) == q(n - 1));
    }
}

proof fn lemma_picked_within(p: spec_fn(int) -> bool, n: int)
    requires
        n <= usize::MAX,
    ensures
        forall|j: int| 0 <= j < picked(p, n).len() ==> 0 <= #[trigger] picked(p, n)[j] < n,
    decreases n,
{
    if n > 0 {
        lemma_picked_within(p, n - 1);
        let before = picked(p, n - 1);
        assert forall|j: int| 0 <= j < picked(p, n).len() implies 0 <= #[trigger] picked(p, n)[j]
            < n by {
            if j < before.len() {
                assert(picked(p, n)[j] == before[j]);
            }
        }
    }
}

proof fn lemma_picked_contains(p: spec_fn(int) -> bool, n: int, i: int)
    requires
        0 <= i < n <= usize::MAX,
    ensures
        picked(p, n).contains(i as usize) <==> p(i),
    decreases n,
{
    let before = picked(p, n - 1);
    lemma_picked_within(p, n - 1);
    if i < n - 1 {
        lemma_picked_contains(p, n - 1, i);
        if before.contains(i as usize) {
            let j = choose|j: int| 0 <= j < before.len() && before[j] == i as usize;
            assert(picked(p, n)[j] == i as usize);
        }
        if picked(p, n).contains(i as usize) {
            let all = picked(p, n);
            let j = choose|j: int| 0 <= j < all.len() && all[j] == i as usize;
            assert(before[j] == i as usize);
        }
    } else {
        if p(i) {
            assert(picked(p, n).last() == i as usize);
        } else if picked(p, n).contains(i as usize) {
            let j = choose|j: int| 0 <= j < before.len() && before[j] == i as usize;
            assert(before[j] < n - 1);
        }
    }
}

proof fn lemma_picked_none(p: spec_fn(int) -> bool, n: int)
    requires
        0 <= n <= usize::MAX,
    ensures
        picked(p, n).len() == 0 <==> forall|i: int| 0 <= i < n ==> !#[trigger] p(i),
{
    if picked(p, n).len() == 0 {
        assert forall|i: int| 0 <= i < n implies !#[trigger] p(i) by {
            lemma_picked_contains(p, n, i);
        }
    } else {
        lemma_picked_within(p, n);
        let i = picked(p, n)[0] as int;
        assert(picked(p, n).contains(i as usize));
        lemma_picked_contains(p, n, i);
    }
}

// ---------------------------------------------------------------------------
// Rows
// ---------------------------------------------------------------------------

/// The places of the rows that have the given values.
pub open spec fn having(rows: Seq<RowView>, x: Seq<ValueView>) -> spec_fn(int) -> bool {
    |i: int| rows[i].1 == x
}

/// How often values come among rows.
pub open spec fn occurrences(rows: Seq<RowView>, x: Seq<ValueView>) -> nat {
    how_many(having(rows, x), rows.len() as int)
}

proof fn lemma_one_row_more(rows: Seq<RowView>, row: RowView, x: Seq<ValueView>)
    ensures
        occurrences(rows.push(row), x) == occurrences(rows, x) + if row.1 == x {
            1nat
        } else {
            0
        },
{
    let more = rows.push(row);
    let f = having(more, x);
    let g = having(rows, x);
    assert forall|i: int| 0 <= i < rows.len() implies #[trigger] f(i) == g(i) by {}
    lemma_same_count(f, g, rows.len() as int);
    assert(more.len() == rows.len() + 1);
    assert(f(more.len() - 1) == (row.1 == x));
}

/// Whether values are those of a row with so many NULLs behind it, or else before it.
pub open spec fn beside_nulls(
    row: Seq<ValueView>,
    width: int,
    behind: bool,
    x: Seq<ValueView>,
) -> bool {
    &&& x.len() == row.len() + width
    &&& if behind {
        &&& x.take(row.len() as int) == row
        &&& forall|i: int| row.len() <= i < x.len() ==> (#[trigger] x[i]) is Null
    } else {
        &&& x.skip(width) == row
        &&& forall|i: int| 0 <= i < width ==> (#[trigger] x[i]) is Null
    }
}

proof fn lemma_beside_nulls(row: Seq<ValueView>, width: int, x: Seq<ValueView>)
    requires
        0 <= width,
    ensures
        beside_nulls(row, width, true, x) <==> x == row + nulls(width),
        beside_nulls(row, width, false, x) <==> x == nulls(width) + row,
{
    let after = row + nulls(width);
    let before = nulls(width) + row;
    assert(after.take(row.len() as int) =~= row);
    assert(before.skip(width) =~= row);
    if beside_nulls(row, width, true, x) {
        assert forall|i: int| 0 <= i < x.len() implies x[i] == after[i] by {
            if i < row.len() {
                assert(x[i] == x.take(row.len() as int)[i]);
            }
        }
        assert(x =~= after);
    }
    if beside_nulls(row, width, false, x) {
        assert forall|i: int| 0 <= i < x.len() implies x[i] == before[i] by {
            if i >= width {
                assert(x[i] == x.skip(width)[i - width]);
            }
        }
        assert(x =~= before);
    }
}

/// The places that one row meets.
spec fn met_by(f: spec_fn(int, int) -> bool, o: int) -> spec_fn(int) -> bool {
    |i: int| f(o, i)
}

/// Whether meetings are those that a property tells.
spec fn tells(m: Meetings, f: spec_fn(int, int) -> bool, n: int) -> bool {
    forall|o: int| 0 <= o < m.len() ==> #[trigger] m[o] == picked(met_by(f, o), n)
}

/// Pairs that meet and have the given values.
spec fn giving(
    left: Seq<RowView>,
    right: Seq<RowView>,
    f: spec_fn(int, int) -> bool,
    outer_left: bool,
    x: Seq<ValueView>,
) -> spec_fn(int, int) -> bool {
    |o: int, i: int| f(o, i) && pair(left, right, o, i, outer_left) == x
}

/// Outer rows that meet none and have the given values beside NULLs.
spec fn lonely(
    left: Seq<RowView>,
    right: Seq<RowView>,
    f: spec_fn(int, int) -> bool,
    n: int,
    outer_left: bool,
    width: int,
    x: Seq<ValueView>,
) -> spec_fn(int) -> bool {
    |o: int|
        (forall|i: int| 0 <= i < n ==> !#[trigger] f(o, i)) && alone(
            left,
            right,
            o,
            outer_left,
            width,
        ) == x
}

proof fn lemma_meeting_from(
    left: Seq<RowView>,
    right: Seq<RowView>,
    o: int,
    met: Seq<usize>,
    k: int,
    acc: Seq<RowView>,
    outer_left: bool,
    x: Seq<ValueView>,
)
    requires
        0 <= k <= met.len(),
    ensures
        occurrences(meeting_rows(left, right, o, met, k, acc, outer_left), x) + how_many(
            |j: int| pair(left, right, o, met[j] as int, outer_left) == x,
            k,
        ) == occurrences(acc, x) + how_many(
            |j: int| pair(left, right, o, met[j] as int, outer_left) == x,
            met.len() as int,
        ),
    decreases met.len() - k,
{
    if k < met.len() {
        let row = (no_rid(), pair(left, right, o, met[k] as int, outer_left));
        lemma_meeting_from(left, right, o, met, k + 1, acc.push(row), outer_left, x);
        lemma_one_row_more(acc, row, x);
    }
}

proof fn lemma_picked_giving(
    left: Seq<RowView>,
    right: Seq<RowView>,
    f: spec_fn(int, int) -> bool,
    o: int,
    n: int,
    outer_left: bool,
    x: Seq<ValueView>,
)
    requires
        n <= usize::MAX,
    ensures
        ({
            let met = picked(met_by(f, o), n);
            how_many(
                |j: int| pair(left, right, o, met[j] as int, outer_left) == x,
                met.len() as int,
            ) == how_many(|i: int| giving(left, right, f, outer_left, x)(o, i), n)
        }),
    decreases n,
{
    if n > 0 {
        lemma_picked_giving(left, right, f, o, n - 1, outer_left, x);
        let met = picked(met_by(f, o), n);
        let before = picked(met_by(f, o), n - 1);
        let p = |j: int| pair(left, right, o, met[j] as int, outer_left) == x;
        let q = |j: int| pair(left, right, o, before[j] as int, outer_left) == x;
        let g = |i: int| giving(left, right, f, outer_left, x)(o, i);
        assert(how_many(g, n) == how_many(g, n - 1) + if g(n - 1) {
            1nat
        } else {
            0
        });
        if f(o, n - 1) {
            assert forall|j: int| 0 <= j < before.len() implies #[trigger] p(j) == q(j) by {
                assert(met[j] == before[j]);
            }
            lemma_same_count(p, q, before.len() as int);
            assert(met[before.len() as int] == n - 1);
            assert(p(met.len() - 1) == g(n - 1));
        } else {
            assert(met == before);
        }
    }
}

proof fn lemma_outer_from(
    left: Seq<RowView>,
    right: Seq<RowView>,
    m: Meetings,
    f: spec_fn(int, int) -> bool,
    n: int,
    o: int,
    acc: Seq<RowView>,
    outer_left: bool,
    keep: bool,
    width: int,
    x: Seq<ValueView>,
)
    requires
        0 <= n <= usize::MAX,
        0 <= o <= m.len(),
        tells(m, f, n),
    ensures
        ({
            let g = giving(left, right, f, outer_left, x);
            let s = lonely(left, right, f, n, outer_left, width, x);
            let rows = outer_rows(left, right, m, o, acc, outer_left, keep, width);
            occurrences(rows, x) + how_many_pairs(g, o, n) + (if keep {
                how_many(s, o)
            } else {
                0
            }) == occurrences(acc, x) + how_many_pairs(g, m.len() as int, n) + (if keep {
                how_many(s, m.len() as int)
            } else {
                0
            })
        }),
    decreases m.len() - o,
{
    let g = giving(left, right, f, outer_left, x);
    let s = lonely(left, right, f, n, outer_left, width, x);
    if o < m.len() {
        let met = m[o];
        assert(met == picked(met_by(f, o), n));
        lemma_picked_none(met_by(f, o), n);
        let p = |i: int| g(o, i);
        assert(how_many_pairs(g, o + 1, n) == how_many_pairs(g, o, n) + how_many(p, n));
        assert(how_many(s, o + 1) == how_many(s, o) + if s(o) {
            1nat
        } else {
            0
        });
        if met.len() == 0 {
            let row = (no_rid(), alone(left, right, o, outer_left, width));
            assert forall|i: int| 0 <= i < n implies !#[trigger] f(o, i) by {
                assert(!met_by(f, o)(i));
            }
            assert(s(o) == (row.1 == x));
            let none = |i: int| false;
            assert forall|i: int| 0 <= i < n implies #[trigger] p(i) == none(i) by {
                assert(!met_by(f, o)(i));
            }
            lemma_same_count(p, none, n);
            lemma_nothing(n);
            lemma_one_row_more(acc, row, x);
            lemma_outer_from(
                left,
                right,
                m,
                f,
                n,
                o + 1,
                if keep {
                    acc.push(row)
                } else {
                    acc
                },
                outer_left,
                keep,
                width,
                x,
            );
        } else {
            let i = choose|i: int| 0 <= i < n && #[trigger] met_by(f, o)(i);
            assert(f(o, i));
            assert(!s(o));
            let next = meeting_rows(left, right, o, met, 0, acc, outer_left);
            lemma_meeting_from(left, right, o, met, 0, acc, outer_left, x);
            lemma_picked_giving(left, right, f, o, n, outer_left, x);
            let q = |i: int| giving(left, right, f, outer_left, x)(o, i);
            assert forall|i: int| 0 <= i < n implies #[trigger] p(i) == q(i) by {}
            lemma_same_count(p, q, n);
            assert(occurrences(next, x) == occurrences(acc, x) + how_many(p, n));
            lemma_outer_from(left, right, m, f, n, o + 1, next, outer_left, keep, width, x);
        }
    }
}

proof fn lemma_nothing(n: int)
    ensures
        how_many(|i: int| false, n) == 0,
    decreases n,
{
    if n > 0 {
        lemma_nothing(n - 1);
    }
}

/// Right rows that no left row meets and that have the given values beside NULLs.
spec fn unmet(
    left: Seq<RowView>,
    right: Seq<RowView>,
    f: spec_fn(int, int) -> bool,
    width: int,
    x: Seq<ValueView>,
) -> spec_fn(int) -> bool {
    |r: int|
        (forall|l: int| 0 <= l < left.len() ==> !#[trigger] f(l, r)) && nulls(width) + right[r].1
            == x
}

proof fn lemma_unmet_from(
    left: Seq<RowView>,
    right: Seq<RowView>,
    m: Meetings,
    f: spec_fn(int, int) -> bool,
    i: int,
    acc: Seq<RowView>,
    width: int,
    x: Seq<ValueView>,
)
    requires
        right.len() <= usize::MAX,
        m.len() == left.len(),
        tells(m, f, right.len() as int),
        0 <= i <= right.len(),
    ensures
        ({
            let u = unmet(left, right, f, width, x);
            occurrences(unmet_rows(right, m, i, acc, width), x) + how_many(u, i) == occurrences(
                acc,
                x,
            ) + how_many(u, right.len() as int)
        }),
    decreases right.len() - i,
{
    let u = unmet(left, right, f, width, x);
    if i < right.len() {
        let row = (no_rid(), nulls(width) + right[i].1);
        lemma_one_row_more(acc, row, x);
        if is_met(m, i) {
            let o = choose|o: int| 0 <= o < m.len() && (#[trigger] m[o]).contains(i as usize);
            lemma_picked_contains(met_by(f, o), right.len() as int, i);
            assert(f(o, i));
            assert(!u(i));
        } else {
            assert forall|l: int| 0 <= l < left.len() implies !#[trigger] f(l, i) by {
                lemma_picked_contains(met_by(f, l), right.len() as int, i);
                assert(!m[l].contains(i as usize));
            }
            assert(u(i) == (row.1 == x));
        }
        assert(how_many(u, i + 1) == how_many(u, i) + if u(i) {
            1nat
        } else {
            0
        });
        lemma_unmet_from(
            left,
            right,
            m,
            f,
            i + 1,
            if is_met(m, i) {
                acc
            } else {
                acc.push(row)
            },
            width,
            x,
        );
    }
}

// ---------------------------------------------------------------------------
// Joins
// ---------------------------------------------------------------------------

/// The pairs of rows that meet and are, one behind the other, the given values.
pub open spec fn meeting_as(
    left: Seq<RowView>,
    right: Seq<RowView>,
    meet: spec_fn(int, int) -> bool,
    x: Seq<ValueView>,
) -> spec_fn(int, int) -> bool {
    |l: int, r: int| meet(l, r) && left[l].1 + right[r].1 == x
}

/// The left rows that meet none and are, with NULLs behind them, the given values.
pub open spec fn left_alone(
    left: Seq<RowView>,
    right: Seq<RowView>,
    meet: spec_fn(int, int) -> bool,
    width: int,
    x: Seq<ValueView>,
) -> spec_fn(int) -> bool {
    |l: int|
        (forall|r: int| 0 <= r < right.len() ==> !#[trigger] meet(l, r)) && beside_nulls(
            left[l].1,
            width,
            true,
            x,
        )
}

/// The right rows that meet none and are, with NULLs before them, the given values.
pub open spec fn right_alone(
    left: Seq<RowView>,
    right: Seq<RowView>,
    meet: spec_fn(int, int) -> bool,
    width: int,
    x: Seq<ValueView>,
) -> spec_fn(int) -> bool {
    |r: int|
        (forall|l: int| 0 <= l < left.len() ==> !#[trigger] meet(l, r)) && beside_nulls(
            right[r].1,
            width,
            false,
            x,
        )
}

/// How often values come out of a join whose rows meet by a property of their places.
pub open spec fn due(
    left: Seq<RowView>,
    right: Seq<RowView>,
    t: JoinType,
    meet: spec_fn(int, int) -> bool,
    lwidth: int,
    rwidth: int,
    x: Seq<ValueView>,
) -> nat {
    let pairs = how_many_pairs(
        meeting_as(left, right, meet, x),
        left.len() as int,
        right.len() as int,
    );
    let left_alone = how_many(left_alone(left, right, meet, rwidth, x), left.len() as int);
    let right_alone = how_many(right_alone(left, right, meet, lwidth, x), right.len() as int);
    match t {
        JoinType::Inner => pairs,
        JoinType::Cross => pairs,
        JoinType::Left => pairs + left_alone,
        JoinType::Right => pairs + right_alone,
        JoinType::Full => pairs + left_alone + right_alone,
    }
}

proof fn lemma_left_outer(
    left: Seq<RowView>,
    right: Seq<RowView>,
    t: JoinType,
    m: Meetings,
    meet: spec_fn(int, int) -> bool,
    lwidth: int,
    rwidth: int,
    x: Seq<ValueView>,
)
    requires
        right.len() <= usize::MAX,
        0 <= lwidth,
        0 <= rwidth,
        t != JoinType::Right,
        m.len() == left.len(),
        tells(m, meet, right.len() as int),
    ensures
        occurrences(join_result(left, right, t, true, m, lwidth, rwidth), x) == due(
            left,
            right,
            t,
            meet,
            lwidth,
            rwidth,
            x,
        ),
{
    let n = right.len() as int;
    let keep = t == JoinType::Left || t == JoinType::Right || t == JoinType::Full;
    let rows = outer_rows(left, right, m, 0, Seq::empty(), true, keep, rwidth);
    lemma_outer_from(left, right, m, meet, n, 0, Seq::empty(), true, keep, rwidth, x);
    let g = giving(left, right, meet, true, x);
    let p = meeting_as(left, right, meet, x);
    assert forall|a: int, b: int| 0 <= a < left.len() && 0 <= b < n implies #[trigger] g(a, b) == p(
        a,
        b,
    ) by {}
    lemma_same_pairs(g, p, left.len() as int, n);
    let s = lonely(left, right, meet, n, true, rwidth, x);
    let q = left_alone(left, right, meet, rwidth, x);
    assert forall|l: int| 0 <= l < left.len() implies #[trigger] s(l) == q(l) by {
        lemma_beside_nulls(left[l].1, rwidth, x);
    }
    lemma_same_count(s, q, left.len() as int);
    if t == JoinType::Full {
        lemma_unmet_from(left, right, m, meet, 0, rows, lwidth, x);
        let u = unmet(left, right, meet, lwidth, x);
        let v = right_alone(left, right, meet, lwidth, x);
        assert forall|r: int| 0 <= r < right.len() implies #[trigger] u(r) == v(r) by {
            lemma_beside_nulls(right[r].1, lwidth, x);
        }
        lemma_same_count(u, v, n);
    }
}

proof fn lemma_right_outer(
    left: Seq<RowView>,
    right: Seq<RowView>,
    t: JoinType,
    m: Meetings,
    meet: spec_fn(int, int) -> bool,
    lwidth: int,
    rwidth: int,
    x: Seq<ValueView>,
)
    requires
        left.len() <= usize::MAX,
        0 <= lwidth,
        0 <= rwidth,
        t == JoinType::Right || t == JoinType::Inner,
        m.len() == right.len(),
        tells(m, turned(meet), left.len() as int),
    ensures
        occurrences(join_result(left, right, t, false, m, lwidth, rwidth), x) == due(
            left,
            right,
            t,
            meet,
            lwidth,
            rwidth,
            x,
        ),
{
    let n = left.len() as int;
    let keep = t == JoinType::Right;
    let back = turned(meet);
    lemma_outer_from(left, right, m, back, n, 0, Seq::empty(), false, keep, lwidth, x);
    let g = giving(left, right, back, false, x);
    let p = meeting_as(left, right, meet, x);
    assert forall|a: int, b: int| 0 <= a < right.len() && 0 <= b < n implies #[trigger] g(a, b)
        == turned(p)(a, b) by {}
    lemma_same_pairs(g, turned(p), right.len() as int, n);
    lemma_turned(p, n, right.len() as int);
    let s = lonely(left, right, back, n, false, lwidth, x);
    let q = right_alone(left, right, meet, lwidth, x);
    assert forall|r: int| 0 <= r < right.len() implies #[trigger] s(r) == q(r) by {
        lemma_beside_nulls(right[r].1, lwidth, x);
        assert(forall|l: int| #[trigger] back(r, l) == meet(l, r));
        if forall|l: int| 0 <= l < left.len() ==> !#[trigger] back(r, l) {
            assert forall|l: int| 0 <= l < left.len() implies !#[trigger] meet(l, r) by {
                assert(!back(r, l));
            }
        }
    }
    lemma_same_count(s, q, right.len() as int);
}

/// Without a condition, and for CROSS, each pair of rows comes out of a join once, and nothing
/// else does.
pub proof fn law_cross_join_pairs_all_rows(
    left: Seq<RowView>,
    right: Seq<RowView>,
    t: JoinType,
    on: Option<Expr>,
    lnames: Seq<Seq<char>>,
    rnames: Seq<Seq<char>>,
    h: HostView,
    x: Seq<ValueView>,
)
    requires
        right.len() <= usize::MAX,
        on is None || t == JoinType::Cross,
    ensures
        join_rows(left, right, t, on, lnames, rnames, h) is Ok,
        occurrences(join_rows(left, right, t, on, lnames, rnames, h)->Ok_0, x) == how_many_pairs(
            meeting_as(left, right, |l: int, r: int| true, x),
            left.len() as int,
            right.len() as int,
        ),
{
    let n = right.len() as int;
    let m = all_meetings(left.len() as int, n);
    let meet = |l: int, r: int| true;
    assert forall|o: int| 0 <= o < m.len() implies #[trigger] m[o] == picked(met_by(meet, o), n) by {
        assert(m[o] == all_places(n));
        lemma_all_picked(met_by(meet, o), n);
    }
    lemma_left_outer(left, right, JoinType::Cross, m, meet, 0, 0, x);
}

proof fn lemma_all_picked(p: spec_fn(int) -> bool, n: int)
    requires
        0 <= n,
        forall|i: int| #[trigger] p(i),
    ensures
        picked(p, n) == all_places(n),
    decreases n,
{
    if n > 0 {
        lemma_all_picked(p, n - 1);
        assert(p(n - 1));
        assert(all_places(n) =~= all_places(n - 1).push((n - 1) as usize));
    } else {
        assert(picked(p, n) =~= all_places(n));
    }
}

/// The pairs of rows on which a condition holds.
pub open spec fn satisfying(
    on: Expr,
    left: Seq<RowView>,
    right: Seq<RowView>,
    names: Seq<Seq<char>>,
    h: HostView,
) -> spec_fn(int, int) -> bool {
    |l: int, r: int|
        eval_bool(on, left[l].1 + right[r].1, names, h) == Ok::<bool, ErrorView>(true)
}

proof fn lemma_met_picked(
    on: Expr,
    left: Seq<RowView>,
    right: Seq<RowView>,
    o: int,
    i: int,
    f: spec_fn(int, int) -> bool,
    outer_left: bool,
    names: Seq<Seq<char>>,
    h: HostView,
)
    requires
        0 <= i <= (if outer_left {
            right.len()
        } else {
            left.len()
        }),
        f == (if outer_left {
            satisfying(on, left, right, names, h)
        } else {
            turned(satisfying(on, left, right, names, h))
        }),
        met_from(on, left, right, o, i, picked(met_by(f, o), i), outer_left, names, h) is Ok,
    ensures
        met_from(on, left, right, o, i, picked(met_by(f, o), i), outer_left, names, h) == Ok::<
            Seq<usize>,
            ErrorView,
        >(
            picked(
                met_by(f, o),
                if outer_left {
                    right.len() as int
                } else {
                    left.len() as int
                },
            ),
        ),
    decreases
            (if outer_left {
                right.len()
            } else {
                left.len()
            }) - i,
{
    let n = if outer_left {
        right.len()
    } else {
        left.len()
    };
    if i < n {
        let b = eval_bool(on, pair(left, right, o, i, outer_left), names, h)->Ok_0;
        assert(met_by(f, o)(i) == b);
        assert(picked(met_by(f, o), i + 1) == if b {
            picked(met_by(f, o), i).push(i as usize)
        } else {
            picked(met_by(f, o), i)
        });
        lemma_met_picked(on, left, right, o, i + 1, f, outer_left, names, h);
    }
}

proof fn lemma_condition_picked(
    on: Expr,
    left: Seq<RowView>,
    right: Seq<RowView>,
    o: int,
    acc: Meetings,
    f: spec_fn(int, int) -> bool,
    outer_left: bool,
    names: Seq<Seq<char>>,
    h: HostView,
)
    requires
        0 <= o <= (if outer_left {
            left.len()
        } else {
            right.len()
        }),
        acc.len() == o,
        f == (if outer_left {
            satisfying(on, left, right, names, h)
        } else {
            turned(satisfying(on, left, right, names, h))
        }),
        tells(
            acc,
            f,
            if outer_left {
                right.len() as int
            } else {
                left.len() as int
            },
        ),
        condition_meetings(on, left, right, o, acc, outer_left, names, h) is Ok,
    ensures
        ({
            let m = condition_meetings(on, left, right, o, acc, outer_left, names, h)->Ok_0;
            &&& m.len() == if outer_left {
                left.len()
            } else {
                right.len()
            }
            &&& tells(
                m,
                f,
                if outer_left {
                    right.len() as int
                } else {
                    left.len() as int
                },
            )
        }),
    decreases
            (if outer_left {
                left.len()
            } else {
                right.len()
            }) - o,
{
    let n = if outer_left {
        left.len()
    } else {
        right.len()
    };
    if o < n {
        assert(picked(met_by(f, o), 0) == Seq::<usize>::empty());
        lemma_met_picked(on, left, right, o, 0, f, outer_left, names, h);
        let met = met_from(on, left, right, o, 0, Seq::empty(), outer_left, names, h)->Ok_0;
        lemma_condition_picked(on, left, right, o + 1, acc.push(met), f, outer_left, names, h);
    }
}

/// A join under a condition that is no equality of columns gives each pair of rows on which the
/// condition holds once. An outer join gives besides, once and beside NULLs, each row of the sides
/// it keeps for which the condition holds with no row of the other. Nothing else comes out.
pub proof fn law_join_under_a_condition(
    left: Seq<RowView>,
    right: Seq<RowView>,
    t: JoinType,
    on: Expr,
    lnames: Seq<Seq<char>>,
    rnames: Seq<Seq<char>>,
    h: HostView,
    x: Seq<ValueView>,
)
    requires
        left.len() <= usize::MAX,
        right.len() <= usize::MAX,
        t != JoinType::Cross,
        equi_keys(on, lnames, rnames) is None,
        join_rows(left, right, t, Some(on), lnames, rnames, h) is Ok,
    ensures
        occurrences(join_rows(left, right, t, Some(on), lnames, rnames, h)->Ok_0, x) == due(
            left,
            right,
            t,
            satisfying(on, left, right, lnames + rnames, h),
            lnames.len() as int,
            rnames.len() as int,
            x,
        ),
{
    let names = lnames + rnames;
    let meet = satisfying(on, left, right, names, h);
    let outer_left = t != JoinType::Right;
    let f = if outer_left {
        meet
    } else {
        turned(meet)
    };
    let m = condition_meetings(on, left, right, 0, Seq::empty(), outer_left, names, h)->Ok_0;
    lemma_condition_picked(on, left, right, 0, Seq::empty(), f, outer_left, names, h);
    let lwidth = lnames.len() as int;
    let rwidth = rnames.len() as int;
    if outer_left {
        lemma_left_outer(left, right, t, m, meet, lwidth, rwidth, x);
    } else {
        lemma_right_outer(left, right, t, m, meet, lwidth, rwidth, x);
    }
}

/// Integers, texts, dates and the like, and NULL.
pub open spec fn plain(v: ValueView) -> bool {
    v is Null || v is Integer || v is BigInt || v is Varchar || v is Date || v is DateTime
        || v is Time
}

/// Whether two such values are known and the same.
pub open spec fn same_plain(a: ValueView, b: ValueView) -> bool {
    match (a, b) {
        (ValueView::Varchar(s), ValueView::Varchar(t)) => s == t,
        (ValueView::Date(d), ValueView::Date(e)) => d == e,
        (ValueView::DateTime(d), ValueView::DateTime(e)) => d == e,
        (ValueView::Time(d), ValueView::Time(e)) => d == e,
        _ => held(a) is Some && held(a) == held(b),
    }
}

/// The pairs of rows with the same value in their columns.
pub open spec fn agreeing(
    left: Seq<RowView>,
    right: Seq<RowView>,
    lk: int,
    rk: int,
) -> spec_fn(int, int) -> bool {
    |l: int, r: int| same_plain(left[l].1[lk], right[r].1[rk])
}

proof fn lemma_matches_picked(
    keys: Seq<Option<KeyView>>,
    key: Option<KeyView>,
    p: spec_fn(int) -> bool,
    n: int,
)
    requires
        0 <= n <= keys.len(),
        forall|i: int|
            0 <= i < keys.len() ==> #[trigger] p(i) == (key is Some && keys[i] == key),
    ensures
        matches_below(keys, key, n) == picked(p, n),
    decreases n,
{
    if n > 0 {
        lemma_matches_picked(keys, key, p, n - 1);
        assert(p(n - 1) == (key is Some && keys[n - 1] == key));
    }
}

/// A join on an equality of columns gives each pair of rows with the same value in them once. An
/// outer join gives besides, once and beside NULLs, each row of the sides it keeps whose value no
/// row of the other has. NULL is the same as nothing. Nothing else comes out.
pub proof fn law_join_on_equal_columns(
    left: Seq<RowView>,
    right: Seq<RowView>,
    t: JoinType,
    on: Expr,
    lnames: Seq<Seq<char>>,
    rnames: Seq<Seq<char>>,
    h: HostView,
    lk: int,
    rk: int,
    x: Seq<ValueView>,
)
    requires
        left.len() <= usize::MAX,
        right.len() <= usize::MAX,
        t != JoinType::Cross,
        equi_keys(on, lnames, rnames) == Some((lk, rk)),
        forall|l: int|
            0 <= l < left.len() ==> 0 <= lk < (#[trigger] left[l]).1.len() && plain(left[l].1[lk]),
        forall|r: int|
            0 <= r < right.len() ==> 0 <= rk < (#[trigger] right[r]).1.len() && plain(
                right[r].1[rk],
            ),
    ensures
        join_rows(left, right, t, Some(on), lnames, rnames, h) is Ok,
        occurrences(join_rows(left, right, t, Some(on), lnames, rnames, h)->Ok_0, x) == due(
            left,
            right,
            t,
            agreeing(left, right, lk, rk),
            lnames.len() as int,
            rnames.len() as int,
            x,
        ),
{
    let meet = agreeing(left, right, lk, rk);
    let lkeys = join_keys(left, lk);
    let rkeys = join_keys(right, rk);
    let lwidth = lnames.len() as int;
    let rwidth = rnames.len() as int;
    let outer_left = if t == JoinType::Inner {
        right.len() <= left.len()
    } else {
        t != JoinType::Right
    };
    assert forall|l: int, r: int|
        0 <= l < left.len() && 0 <= r < right.len() implies #[trigger] meet(l, r) == (lkeys[l] is Some
        && lkeys[l] == rkeys[r]) by {
        assert(plain(left[l].1[lk]));
        assert(plain(right[r].1[rk]));
        assert(lkeys[l] == row_join_key(left[l].1, lk));
        assert(rkeys[r] == row_join_key(right[r].1, rk));
    }
    if outer_left {
        let m = key_meetings(lkeys, rkeys);
        assert forall|o: int| 0 <= o < m.len() implies #[trigger] m[o] == picked(
            met_by(meet, o),
            right.len() as int,
        ) by {
            assert(m[o] == match_places(rkeys, lkeys[o]));
            let p = met_by(meet, o);
            assert forall|i: int| 0 <= i < rkeys.len() implies #[trigger] p(i) == (lkeys[o] is Some
                && rkeys[i] == lkeys[o]) by {
                assert(meet(o, i) == (lkeys[o] is Some && lkeys[o] == rkeys[i]));
            }
            lemma_matches_picked(rkeys, lkeys[o], p, right.len() as int);
        }
        lemma_left_outer(left, right, t, m, meet, lwidth, rwidth, x);
    } else {
        let m = key_meetings(rkeys, lkeys);
        let back = turned(meet);
        assert forall|o: int| 0 <= o < m.len() implies #[trigger] m[o] == picked(
            met_by(back, o),
            left.len() as int,
        ) by {
            assert(m[o] == match_places(lkeys, rkeys[o]));
            let p = met_by(back, o);
            assert forall|i: int| 0 <= i < lkeys.len() implies #[trigger] p(i) == (rkeys[o] is Some
                && lkeys[i] == rkeys[o]) by {
                assert(meet(i, o) == (lkeys[i] is Some && lkeys[i] == rkeys[o]));
            }
            lemma_matches_picked(lkeys, rkeys[o], p, left.len() as int);
        }
        lemma_right_outer(left, right, t, m, meet, lwidth, rwidth, x);
    }
}

// ---------------------------------------------------------------------------
// Partitions
// ---------------------------------------------------------------------------

/// Whether two values are integers, or one of them is NULL.
pub open spec fn alike(a: ValueView, b: ValueView) -> bool {
    a is Null || b is Null || (held(a) is Some && held(b) is Some)
}

proof fn lemma_below_picked(
    l: Seq<ValueView>,
    right: Seq<RowView>,
    lk: int,
    rk: int,
    hashed: bool,
    p: spec_fn(int) -> bool,
    n: int,
)
    requires
        0 <= n <= right.len(),
        forall|i: int|
            0 <= i < right.len() ==> #[trigger] p(i) == keys_meet(l, right[i].1, lk, rk, hashed),
    ensures
        met_below(l, right, lk, rk, hashed, n) == picked(p, n),
    decreases n,
{
    if n > 0 {
        lemma_below_picked(l, right, lk, rk, hashed, p, n - 1);
        assert(p(n - 1) == keys_meet(l, right[n - 1].1, lk, rk, hashed));
    }
}

/// A join of two partitions gives each pair of rows with the same integer in their columns once. An
/// outer join gives besides, once and beside NULLs, each row of the sides it keeps whose integer no
/// row of the other has. Nothing else comes out.
pub proof fn law_partitions_join_on_equal_columns(
    left: Seq<RowView>,
    right: Seq<RowView>,
    t: JoinType,
    lk: int,
    rk: int,
    lwidth: int,
    rwidth: int,
    x: Seq<ValueView>,
)
    requires
        left.len() <= usize::MAX,
        right.len() <= usize::MAX,
        0 <= lwidth,
        0 <= rwidth,
        t != JoinType::Cross,
        forall|l: int| 0 <= l < left.len() ==> 0 <= lk < (#[trigger] left[l]).1.len(),
        forall|r: int| 0 <= r < right.len() ==> 0 <= rk < (#[trigger] right[r]).1.len(),
        forall|l: int, r: int|
            0 <= l < left.len() && 0 <= r < right.len() ==> alike(
                (#[trigger] left[l]).1[lk],
                (#[trigger] right[r]).1[rk],
            ),
    ensures
        occurrences(partition_rows(left, right, t, lk, rk, lwidth, rwidth), x) == due(
            left,
            right,
            t,
            agreeing(left, right, lk, rk),
            lwidth,
            rwidth,
            x,
        ),
{
    let meet = agreeing(left, right, lk, rk);
    let hashed = t == JoinType::Inner || t == JoinType::Left;
    if t == JoinType::Right {
        let m = value_meetings(right, left, rk, lk, hashed);
        let back = turned(meet);
        assert forall|o: int| 0 <= o < m.len() implies #[trigger] m[o] == picked(
            met_by(back, o),
            left.len() as int,
        ) by {
            let p = met_by(back, o);
            assert forall|i: int| 0 <= i < left.len() implies #[trigger] p(i) == keys_meet(
                right[o].1,
                left[i].1,
                rk,
                lk,
                hashed,
            ) by {
                assert(alike(left[i].1[lk], right[o].1[rk]));
            }
            lemma_below_picked(right[o].1, left, rk, lk, hashed, p, left.len() as int);
        }
        lemma_right_outer(left, right, t, m, meet, lwidth, rwidth, x);
    } else {
        let m = value_meetings(left, right, lk, rk, hashed);
        assert forall|o: int| 0 <= o < m.len() implies #[trigger] m[o] == picked(
            met_by(meet, o),
            right.len() as int,
        ) by {
            let p = met_by(meet, o);
            assert forall|i: int| 0 <= i < right.len() implies #[trigger] p(i) == keys_meet(
                left[o].1,
                right[i].1,
                lk,
                rk,
                hashed,
            ) by {
                assert(alike(left[o].1[lk], right[i].1[rk]));
            }
            lemma_below_picked(left[o].1, right, lk, rk, hashed, p, right.len() as int);
        }
        lemma_left_outer(left, right, t, m, meet, lwidth, rwidth, x);
    }
}

proof fn lemma_occurrences_add(a: Seq<RowView>, b: Seq<RowView>, x: Seq<ValueView>)
    ensures
        occurrences(a + b, x) == occurrences(a, x) + occurrences(b, x),
    decreases b.len(),
{
    if b.len() == 0 {
        assert(a + b =~= a);
    } else {
        let short = b.drop_last();
        lemma_occurrences_add(a, short, x);
        assert(a + b =~= (a + short).push(b.last()));
        assert(b =~= short.push(b.last()));
        lemma_one_row_more(a + short, b.last(), x);
        lemma_one_row_more(short, b.last(), x);
    }
}

/// The rows among the first `n` that fall into a partition, in their order.
pub open spec fn falling(rows: Seq<RowView>, k: int, p: int, n: int) -> Seq<RowView>
    decreases n,
{
    if n <= 0 {
        Seq::empty()
    } else if partition_of(rows[n - 1].1, k) == p {
        falling(rows, k, p, n - 1).push(rows[n - 1])
    } else {
        falling(rows, k, p, n - 1)
    }
}

/// How often values come out of the joins of the first `p` partitions.
pub open spec fn due_below(
    left: Seq<RowView>,
    right: Seq<RowView>,
    t: JoinType,
    lk: int,
    rk: int,
    lwidth: int,
    rwidth: int,
    x: Seq<ValueView>,
    p: int,
) -> nat
    decreases p,
{
    if p <= 0 {
        0
    } else {
        let l = falling(left, lk, p - 1, left.len() as int);
        let r = falling(right, rk, p - 1, right.len() as int);
        due_below(left, right, t, lk, rk, lwidth, rwidth, x, p - 1) + due(
            l,
            r,
            t,
            agreeing(l, r, lk, rk),
            lwidth,
            rwidth,
            x,
        )
    }
}

proof fn lemma_part(rows: Seq<RowView>, k: int, p: int, n: int)
    requires
        0 <= n <= rows.len(),
    ensures
        part_below(rows, k, p, n) == falling(rows, k, p, n),
        part_below(rows, k, p, n).len() <= n,
        forall|i: int|
            0 <= i < part_below(rows, k, p, n).len() ==> rows.contains(
                #[trigger] part_below(rows, k, p, n)[i],
            ),
    decreases n,
{
    if n > 0 {
        lemma_part(rows, k, p, n - 1);
        let before = part_below(rows, k, p, n - 1);
        assert forall|i: int| 0 <= i < part_below(rows, k, p, n).len() implies rows.contains(
            #[trigger] part_below(rows, k, p, n)[i],
        ) by {
            if i < before.len() {
                assert(part_below(rows, k, p, n)[i] == before[i]);
            } else {
                assert(rows[n - 1] == part_below(rows, k, p, n)[i]);
            }
        }
    }
}

/// A join by partitions gives what the joins of the rows of the left and of the right that fall into
/// the same partition give, all together.
pub proof fn law_grace_join_joins_its_partitions(
    left: Seq<RowView>,
    right: Seq<RowView>,
    t: JoinType,
    lk: int,
    rk: int,
    lwidth: int,
    rwidth: int,
    x: Seq<ValueView>,
    p: int,
)
    requires
        left.len() <= usize::MAX,
        right.len() <= usize::MAX,
        0 <= lwidth,
        0 <= rwidth,
        t != JoinType::Cross,
        forall|l: int| 0 <= l < left.len() ==> 0 <= lk < (#[trigger] left[l]).1.len(),
        forall|r: int| 0 <= r < right.len() ==> 0 <= rk < (#[trigger] right[r]).1.len(),
        forall|l: int, r: int|
            0 <= l < left.len() && 0 <= r < right.len() ==> alike(
                (#[trigger] left[l]).1[lk],
                (#[trigger] right[r]).1[rk],
            ),
    ensures
        occurrences(grace_rows_below(left, right, t, lk, rk, lwidth, rwidth, p), x) == due_below(
            left,
            right,
            t,
            lk,
            rk,
            lwidth,
            rwidth,
            x,
            p,
        ),
    decreases p,
{
    if p > 0 {
        law_grace_join_joins_its_partitions(left, right, t, lk, rk, lwidth, rwidth, x, p - 1);
        let l = part(left, lk, p - 1);
        let r = part(right, rk, p - 1);
        lemma_part(left, lk, p - 1, left.len() as int);
        lemma_part(right, rk, p - 1, right.len() as int);
        assert forall|i: int| 0 <= i < l.len() implies 0 <= lk < (#[trigger] l[i]).1.len() by {
            assert(left.contains(l[i]));
        }
        assert forall|j: int| 0 <= j < r.len() implies 0 <= rk < (#[trigger] r[j]).1.len() by {
            assert(right.contains(r[j]));
        }
        assert forall|i: int, j: int| 0 <= i < l.len() && 0 <= j < r.len() implies alike(
            (#[trigger] l[i]).1[lk],
            (#[trigger] r[j]).1[rk],
        ) by {
            assert(left.contains(l[i]));
            assert(right.contains(r[j]));
            let a = choose|a: int| 0 <= a < left.len() && left[a] == l[i];
            let b = choose|b: int| 0 <= b < right.len() && right[b] == r[j];
            assert(alike(left[a].1[lk], right[b].1[rk]));
        }
        law_partitions_join_on_equal_columns(l, r, t, lk, rk, lwidth, rwidth, x);
        lemma_occurrences_add(
            grace_rows_below(left, right, t, lk, rk, lwidth, rwidth, p - 1),
            partition_rows(l, r, t, lk, rk, lwidth, rwidth),
            x,
        );
    }
}

/// Each row falls into one partition, and rows with the same integer in their columns fall into the
/// same one.
pub proof fn law_equal_integers_share_a_partition(
    a: Seq<ValueView>,
    b: Seq<ValueView>,
    lk: int,
    rk: int,
)
    requires
        0 <= lk < a.len(),
        0 <= rk < b.len(),
        alike(a[lk], b[rk]),
    ensures
        0 <= partition_of(a, lk) < NUM_PARTITIONS,
        same_plain(a[lk], b[rk]) ==> partition_of(a, lk) == partition_of(b, rk),
{
}

} // verus!
