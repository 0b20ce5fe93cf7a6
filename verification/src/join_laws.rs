//! What joins promise: which rows come out of them.
use crate::aggregate::RowView;
use crate::ast::{Expr, JoinType};
use crate::common::no_rid;
use crate::error::ErrorView;
use crate::eval::eval_bool;
use crate::grouping::all_places;
use crate::host::HostView;
use crate::join::{
    all_meetings, alone, condition_meetings, condition_rows, cross_rows, equi_rows, is_met,
    join_keys, join_result, key_meetings, match_places, matches_below, meeting_rows, met_from,
    nulls, outer_rows, pair, row_join_key, unmet_rows, KeyView, Meetings,
};
use crate::types::ValueView;
use vstd::prelude::*;

verus! {

/// Whether one of the rows has these values.
pub open spec fn has_row(rows: Seq<RowView>, x: Seq<ValueView>) -> bool {
    exists|z: int| 0 <= z < rows.len() && (#[trigger] rows[z]).1 == x
}

/// Whether these are the values of an outer row and of the `j`-th inner row that it meets.
pub open spec fn met_at(
    left: Seq<RowView>,
    right: Seq<RowView>,
    o: int,
    met: Seq<usize>,
    j: int,
    outer_left: bool,
    x: Seq<ValueView>,
) -> bool {
    0 <= j < met.len() && x == pair(left, right, o, met[j] as int, outer_left)
}

/// Whether an outer row gives these values: those of a meeting, or, if it meets nothing and is
/// kept, its own beside NULLs.
pub open spec fn outer_gives(
    left: Seq<RowView>,
    right: Seq<RowView>,
    m: Meetings,
    o: int,
    outer_left: bool,
    keep: bool,
    width: int,
    x: Seq<ValueView>,
) -> bool {
    if m[o].len() == 0 {
        keep && x == alone(left, right, o, outer_left, width)
    } else {
        exists|j: int| #[trigger] met_at(left, right, o, m[o], j, outer_left, x)
    }
}

proof fn lemma_push_has(rows: Seq<RowView>, row: RowView, x: Seq<ValueView>)
    ensures
        has_row(rows.push(row), x) <==> has_row(rows, x) || row.1 == x,
{
    let more = rows.push(row);
    if has_row(rows, x) {
        let z = choose|z: int| 0 <= z < rows.len() && (#[trigger] rows[z]).1 == x;
        assert(more[z].1 == x);
    }
    if row.1 == x {
        assert(more[rows.len() as int].1 == x);
    }
    if has_row(more, x) {
        let z = choose|z: int| 0 <= z < more.len() && (#[trigger] more[z]).1 == x;
        if z < rows.len() {
            assert(rows[z].1 == x);
        }
    }
}

proof fn lemma_meeting_rows(
    left: Seq<RowView>,
    right: Seq<RowView>,
    o: int,
    met: Seq<usize>,
    k: int,
    acc: Seq<RowView>,
    outer_left: bool,
    x: Seq<ValueView>,
)
    requires
        0 <= k <= met.len(),
    ensures
        has_row(meeting_rows(left, right, o, met, k, acc, outer_left), x) <==> has_row(acc, x)
            || exists|j: int| k <= j && #[trigger] met_at(left, right, o, met, j, outer_left, x),
    decreases met.len() - k,
{
    if k < met.len() {
        let row = (no_rid(), pair(left, right, o, met[k] as int, outer_left));
        lemma_push_has(acc, row, x);
        lemma_meeting_rows(left, right, o, met, k + 1, acc.push(row), outer_left, x);
        if row.1 == x {
            assert(met_at(left, right, o, met, k, outer_left, x));
        }
    }
}

proof fn lemma_outer_rows(
    left: Seq<RowView>,
    right: Seq<RowView>,
    m: Meetings,
    o: int,
    acc: Seq<RowView>,
    outer_left: bool,
    keep: bool,
    width: int,
    x: Seq<ValueView>,
)
    requires
        0 <= o <= m.len(),
    ensures
        has_row(outer_rows(left, right, m, o, acc, outer_left, keep, width), x) <==> has_row(acc, x)
            || exists|p: int|
            o <= p < m.len() && #[trigger] outer_gives(
                left,
                right,
                m,
                p,
                outer_left,
                keep,
                width,
                x,
            ),
    decreases m.len() - o,
{
    if o < m.len() {
        let own = outer_gives(left, right, m, o, outer_left, keep, width, x);
        let next = if m[o].len() == 0 {
            if keep {
                acc.push((no_rid(), alone(left, right, o, outer_left, width)))
            } else {
                acc
            }
        } else {
            meeting_rows(left, right, o, m[o], 0, acc, outer_left)
        };
        if m[o].len() == 0 {
            if keep {
                lemma_push_has(
                    acc,
                    (no_rid(), alone(left, right, o, outer_left, width)),
                    x,
                );
            }
        } else {
            lemma_meeting_rows(left, right, o, m[o], 0, acc, outer_left, x);
            if own {
                let j = choose|j: int| #[trigger] met_at(left, right, o, m[o], j, outer_left, x);
                assert(0 <= j && met_at(left, right, o, m[o], j, outer_left, x));
            }
        }
        assert(has_row(next, x) <==> has_row(acc, x) || own);
        lemma_outer_rows(left, right, m, o + 1, next, outer_left, keep, width, x);
    }
}

/// The rows of a join other than FULL are those that its outer rows give, and no others. The
/// outer rows of a LEFT or RIGHT join are kept.
pub proof fn law_join_rows_come_from_outer_rows(
    left: Seq<RowView>,
    right: Seq<RowView>,
    t: JoinType,
    outer_left: bool,
    m: Meetings,
    lwidth: int,
    rwidth: int,
    keep: bool,
    width: int,
    x: Seq<ValueView>,
)
    requires
        t != JoinType::Full,
        keep == (t == JoinType::Left || t == JoinType::Right),
        width == if outer_left {
            rwidth
        } else {
            lwidth
        },
    ensures
        has_row(join_result(left, right, t, outer_left, m, lwidth, rwidth), x) <==> exists|o: int|
            0 <= o < m.len() && #[trigger] outer_gives(
                left,
                right,
                m,
                o,
                outer_left,
                keep,
                width,
                x,
            ),
{
    lemma_outer_rows(left, right, m, 0, Seq::empty(), outer_left, keep, width, x);
}

/// A LEFT or FULL join keeps every left row: beside a right row, or, if it meets none, beside
/// NULLs.
pub proof fn law_left_rows_are_kept(
    left: Seq<RowView>,
    right: Seq<RowView>,
    t: JoinType,
    m: Meetings,
    lwidth: int,
    rwidth: int,
    l: int,
)
    requires
        t == JoinType::Left || t == JoinType::Full,
        0 <= l < m.len(),
    ensures
        has_row(
            join_result(left, right, t, true, m, lwidth, rwidth),
            if m[l].len() == 0 {
                left[l].1 + nulls(rwidth)
            } else {
                left[l].1 + right[m[l][0] as int].1
            },
        ),
{
    let x = if m[l].len() == 0 {
        left[l].1 + nulls(rwidth)
    } else {
        left[l].1 + right[m[l][0] as int].1
    };
    if m[l].len() > 0 {
        assert(met_at(left, right, l, m[l], 0, true, x));
    }
    assert(outer_gives(left, right, m, l, true, true, rwidth, x));
    let rows = outer_rows(left, right, m, 0, Seq::empty(), true, true, rwidth);
    lemma_outer_rows(left, right, m, 0, Seq::empty(), true, true, rwidth, x);
    if t == JoinType::Full {
        lemma_unmet_rows(right, m, 0, rows, lwidth, x);
    }
}

proof fn lemma_unmet_rows(
    right: Seq<RowView>,
    m: Meetings,
    i: int,
    acc: Seq<RowView>,
    width: int,
    x: Seq<ValueView>,
)
    requires
        0 <= i <= right.len(),
    ensures
        has_row(acc, x) ==> has_row(unmet_rows(right, m, i, acc, width), x),
        forall|k: int|
            i <= k < right.len() && !#[trigger] is_met(m, k) && x == nulls(width) + right[k].1
                ==> has_row(unmet_rows(right, m, i, acc, width), x),
    decreases right.len() - i,
{
    if i < right.len() {
        let next = if is_met(m, i) {
            acc
        } else {
            acc.push((no_rid(), nulls(width) + right[i].1))
        };
        if !is_met(m, i) {
            lemma_push_has(acc, (no_rid(), nulls(width) + right[i].1), x);
        }
        lemma_unmet_rows(right, m, i + 1, next, width, x);
    }
}

/// A FULL join keeps every right row that no left row meets, beside NULLs.
pub proof fn law_unmet_right_rows_are_kept(
    left: Seq<RowView>,
    right: Seq<RowView>,
    m: Meetings,
    lwidth: int,
    rwidth: int,
    r: int,
)
    requires
        0 <= r < right.len(),
        !is_met(m, r),
    ensures
        has_row(
            join_result(left, right, JoinType::Full, true, m, lwidth, rwidth),
            nulls(lwidth) + right[r].1,
        ),
{
    let rows = outer_rows(left, right, m, 0, Seq::empty(), true, true, rwidth);
    lemma_unmet_rows(right, m, 0, rows, lwidth, nulls(lwidth) + right[r].1);
}

// ---------------------------------------------------------------------------
// Conditions
// ---------------------------------------------------------------------------

proof fn lemma_met_from(
    on: Expr,
    left: Seq<RowView>,
    right: Seq<RowView>,
    o: int,
    i: int,
    acc: Seq<usize>,
    names: Seq<Seq<char>>,
    h: HostView,
    r: int,
)
    requires
        0 <= i <= right.len() <= usize::MAX,
        0 <= r < right.len(),
        met_from(on, left, right, o, i, acc, true, names, h) is Ok,
    ensures
        met_from(on, left, right, o, i, acc, true, names, h)->Ok_0.contains(r as usize)
            <==> acc.contains(r as usize) || (i <= r && eval_bool(
            on,
            left[o].1 + right[r].1,
            names,
            h,
        ) == Ok::<bool, ErrorView>(true)),
    decreases right.len() - i,
{
    if i < right.len() {
        let b = eval_bool(on, pair(left, right, o, i, true), names, h)->Ok_0;
        let next = if b {
            acc.push(i as usize)
        } else {
            acc
        };
        lemma_met_from(on, left, right, o, i + 1, next, names, h, r);
        if b {
            lemma_push_contains(acc, i as usize, r as usize);
        }
    }
}

proof fn lemma_push_contains(s: Seq<usize>, a: usize, x: usize)
    ensures
        s.push(a).contains(x) <==> s.contains(x) || a == x,
{
    let more = s.push(a);
    if s.contains(x) {
        let z = choose|z: int| 0 <= z < s.len() && s[z] == x;
        assert(more[z] == x);
    }
    if a == x {
        assert(more[s.len() as int] == x);
    }
    if more.contains(x) {
        let z = choose|z: int| 0 <= z < more.len() && more[z] == x;
        if z < s.len() {
            assert(s[z] == x);
        }
    }
}

proof fn lemma_condition_meetings(
    on: Expr,
    left: Seq<RowView>,
    right: Seq<RowView>,
    o: int,
    acc: Meetings,
    names: Seq<Seq<char>>,
    h: HostView,
)
    requires
        0 <= o <= left.len(),
        acc.len() == o,
        forall|l: int|
            0 <= l < o ==> met_from(on, left, right, l, 0, Seq::empty(), true, names, h) == Ok::<
                Seq<usize>,
                ErrorView,
            >(#[trigger] acc[l]),
        condition_meetings(on, left, right, o, acc, true, names, h) is Ok,
    ensures
        ({
            let m = condition_meetings(on, left, right, o, acc, true, names, h)->Ok_0;
            &&& m.len() == left.len()
            &&& forall|l: int|
                0 <= l < left.len() ==> met_from(
                    on,
                    left,
                    right,
                    l,
                    0,
                    Seq::empty(),
                    true,
                    names,
                    h,
                ) == Ok::<Seq<usize>, ErrorView>(#[trigger] m[l])
        }),
    decreases left.len() - o,
{
    if o < left.len() {
        let met = met_from(on, left, right, o, 0, Seq::empty(), true, names, h)->Ok_0;
        let next = acc.push(met);
        assert forall|l: int| 0 <= l < o + 1 implies met_from(
            on,
            left,
            right,
            l,
            0,
            Seq::empty(),
            true,
            names,
            h,
        ) == Ok::<Seq<usize>, ErrorView>(#[trigger] next[l]) by {
            if l < o {
                assert(next[l] == acc[l]);
            }
        }
        lemma_condition_meetings(on, left, right, o + 1, next, names, h);
    }
}

/// Whether a left row and a right row have these values together and satisfy a condition.
pub open spec fn satisfied_at(
    on: Expr,
    left: Seq<RowView>,
    right: Seq<RowView>,
    l: int,
    r: int,
    names: Seq<Seq<char>>,
    h: HostView,
    x: Seq<ValueView>,
) -> bool {
    &&& 0 <= l < left.len()
    &&& 0 <= r < right.len()
    &&& x == left[l].1 + right[r].1
    &&& eval_bool(on, x, names, h) == Ok::<bool, ErrorView>(true)
}

proof fn lemma_met_within(
    on: Expr,
    left: Seq<RowView>,
    right: Seq<RowView>,
    o: int,
    i: int,
    acc: Seq<usize>,
    names: Seq<Seq<char>>,
    h: HostView,
)
    requires
        0 <= i <= right.len() <= usize::MAX,
        forall|k: int| 0 <= k < acc.len() ==> #[trigger] acc[k] < right.len(),
        met_from(on, left, right, o, i, acc, true, names, h) is Ok,
    ensures
        ({
            let met = met_from(on, left, right, o, i, acc, true, names, h)->Ok_0;
            forall|k: int| 0 <= k < met.len() ==> #[trigger] met[k] < right.len()
        }),
    decreases right.len() - i,
{
    if i < right.len() {
        let b = eval_bool(on, pair(left, right, o, i, true), names, h)->Ok_0;
        let next = if b {
            acc.push(i as usize)
        } else {
            acc
        };
        lemma_met_within(on, left, right, o, i + 1, next, names, h);
    }
}

proof fn lemma_given_is_satisfied(
    on: Expr,
    left: Seq<RowView>,
    right: Seq<RowView>,
    m: Meetings,
    o: int,
    width: int,
    names: Seq<Seq<char>>,
    h: HostView,
    x: Seq<ValueView>,
)
    requires
        right.len() <= usize::MAX,
        m.len() == left.len(),
        0 <= o < left.len(),
        met_from(on, left, right, o, 0, Seq::empty(), true, names, h) == Ok::<
            Seq<usize>,
            ErrorView,
        >(m[o]),
        outer_gives(left, right, m, o, true, false, width, x),
    ensures
        exists|l: int, r: int| #[trigger] satisfied_at(on, left, right, l, r, names, h, x),
{
    let j = choose|j: int| #[trigger] met_at(left, right, o, m[o], j, true, x);
    lemma_met_within(on, left, right, o, 0, Seq::empty(), names, h);
    let met = met_from(on, left, right, o, 0, Seq::empty(), true, names, h)->Ok_0;
    assert(met == m[o]);
    assert(met[j] < right.len());
    let r = met[j] as int;
    lemma_met_from(on, left, right, o, 0, Seq::empty(), names, h, r);
    assert(m[o].contains(r as usize));
    assert(!Seq::<usize>::empty().contains(r as usize));
    assert(satisfied_at(on, left, right, o, r, names, h, x));
}

proof fn lemma_satisfied_is_given(
    on: Expr,
    left: Seq<RowView>,
    right: Seq<RowView>,
    m: Meetings,
    l: int,
    r: int,
    width: int,
    names: Seq<Seq<char>>,
    h: HostView,
    x: Seq<ValueView>,
)
    requires
        right.len() <= usize::MAX,
        m.len() == left.len(),
        satisfied_at(on, left, right, l, r, names, h, x),
        met_from(on, left, right, l, 0, Seq::empty(), true, names, h) == Ok::<
            Seq<usize>,
            ErrorView,
        >(m[l]),
    ensures
        outer_gives(left, right, m, l, true, false, width, x),
{
    lemma_met_from(on, left, right, l, 0, Seq::empty(), names, h, r);
    assert(m[l].contains(r as usize));
    let j = choose|j: int| 0 <= j < m[l].len() && m[l][j] == r as usize;
    assert(met_at(left, right, l, m[l], j, true, x));
}

/// The rows of an inner join under a condition are the pairs of rows that satisfy it, and no
/// others.
pub proof fn law_inner_join_gives_satisfying_pairs(
    left: Seq<RowView>,
    right: Seq<RowView>,
    on: Expr,
    lnames: Seq<Seq<char>>,
    rnames: Seq<Seq<char>>,
    h: HostView,
    x: Seq<ValueView>,
)
    requires
        right.len() <= usize::MAX,
        condition_rows(left, right, JoinType::Inner, on, lnames, rnames, h) is Ok,
    ensures
        has_row(condition_rows(left, right, JoinType::Inner, on, lnames, rnames, h)->Ok_0, x)
            <==> exists|l: int, r: int| #[trigger]
            satisfied_at(on, left, right, l, r, lnames + rnames, h, x),
{
    let names = lnames + rnames;
    let width = rnames.len() as int;
    let m = condition_meetings(on, left, right, 0, Seq::empty(), true, names, h)->Ok_0;
    lemma_condition_meetings(on, left, right, 0, Seq::empty(), names, h);
    law_join_rows_come_from_outer_rows(
        left,
        right,
        JoinType::Inner,
        true,
        m,
        lnames.len() as int,
        width,
        false,
        width,
        x,
    );
    assert forall|o: int|
        0 <= o < m.len() && #[trigger] outer_gives(
            left,
            right,
            m,
            o,
            true,
            false,
            width,
            x,
        ) implies exists|l: int, r: int| #[trigger]
        satisfied_at(on, left, right, l, r, names, h, x) by {
        assert(met_from(on, left, right, o, 0, Seq::empty(), true, names, h) == Ok::<
            Seq<usize>,
            ErrorView,
        >(m[o]));
        lemma_given_is_satisfied(on, left, right, m, o, width, names, h, x);
    }
    assert forall|l: int, r: int| #[trigger]
        satisfied_at(on, left, right, l, r, names, h, x) implies 0 <= l < m.len() && outer_gives(
        left,
        right,
        m,
        l,
        true,
        false,
        width,
        x,
    ) by {
        assert(met_from(on, left, right, l, 0, Seq::empty(), true, names, h) == Ok::<
            Seq<usize>,
            ErrorView,
        >(m[l]));
        lemma_satisfied_is_given(on, left, right, m, l, r, width, names, h, x);
    }
}

// ---------------------------------------------------------------------------
// Keys
// ---------------------------------------------------------------------------

proof fn lemma_matches(keys: Seq<Option<KeyView>>, key: Option<KeyView>, n: int, r: int)
    requires
        0 <= n <= keys.len() <= usize::MAX,
        0 <= r < keys.len(),
    ensures
        matches_below(keys, key, n).contains(r as usize) <==> r < n && key is Some && keys[r] == key,
    decreases n,
{
    if n > 0 {
        lemma_matches(keys, key, n - 1, r);
        if key is Some && keys[n - 1] == key {
            lemma_push_contains(matches_below(keys, key, n - 1), (n - 1) as usize, r as usize);
        }
    }
}

proof fn lemma_matches_within(keys: Seq<Option<KeyView>>, key: Option<KeyView>, n: int)
    requires
        0 <= n <= keys.len() <= usize::MAX,
    ensures
        forall|k: int|
            0 <= k < matches_below(keys, key, n).len() ==> #[trigger] matches_below(
                keys,
                key,
                n,
            )[k] < n,
    decreases n,
{
    if n > 0 {
        lemma_matches_within(keys, key, n - 1);
        let m = matches_below(keys, key, n - 1);
        assert forall|k: int| 0 <= k < matches_below(keys, key, n).len() implies (
        #[trigger] matches_below(keys, key, n)[k]) < n by {
            if k < m.len() {
                assert(matches_below(keys, key, n)[k] == m[k]);
            }
        }
    }
}

/// Whether a left row and a right row have these values together and the same key.
pub open spec fn keyed_at(
    left: Seq<RowView>,
    right: Seq<RowView>,
    lk: int,
    rk: int,
    l: int,
    r: int,
    x: Seq<ValueView>,
) -> bool {
    &&& 0 <= l < left.len()
    &&& 0 <= r < right.len()
    &&& x == left[l].1 + right[r].1
    &&& row_join_key(left[l].1, lk) is Some
    &&& row_join_key(left[l].1, lk) == row_join_key(right[r].1, rk)
}

/// The rows of an inner join by columns are the pairs of rows with the same key, and no others,
/// whichever side is read first.
pub proof fn law_inner_join_gives_equal_keys(
    left: Seq<RowView>,
    right: Seq<RowView>,
    lk: int,
    rk: int,
    lwidth: int,
    rwidth: int,
    x: Seq<ValueView>,
)
    requires
        left.len() <= usize::MAX,
        right.len() <= usize::MAX,
    ensures
        has_row(equi_rows(left, right, JoinType::Inner, lk, rk, lwidth, rwidth), x) <==> exists|
            l: int,
            r: int,
        | #[trigger] keyed_at(left, right, lk, rk, l, r, x),
{
    let outer_left = right.len() <= left.len();
    let lkeys = join_keys(left, lk);
    let rkeys = join_keys(right, rk);
    let (outer, inner) = if outer_left {
        (lkeys, rkeys)
    } else {
        (rkeys, lkeys)
    };
    let m = key_meetings(outer, inner);
    let width = if outer_left {
        rwidth
    } else {
        lwidth
    };
    law_join_rows_come_from_outer_rows(
        left,
        right,
        JoinType::Inner,
        outer_left,
        m,
        lwidth,
        rwidth,
        false,
        width,
        x,
    );
    if exists|o: int|
        0 <= o < m.len() && #[trigger] outer_gives(
            left,
            right,
            m,
            o,
            outer_left,
            false,
            width,
            x,
        ) {
        let o = choose|o: int|
            0 <= o < m.len() && #[trigger] outer_gives(
                left,
                right,
                m,
                o,
                outer_left,
                false,
                width,
                x,
            );
        let j = choose|j: int| #[trigger] met_at(left, right, o, m[o], j, outer_left, x);
        assert(m[o] == match_places(inner, outer[o]));
        lemma_matches_within(inner, outer[o], inner.len() as int);
        let i = m[o][j] as int;
        assert(m[o].contains(i as usize));
        lemma_matches(inner, outer[o], inner.len() as int, i);
        if outer_left {
            assert(keyed_at(left, right, lk, rk, o, i, x));
        } else {
            assert(keyed_at(left, right, lk, rk, i, o, x));
        }
    }
    if exists|l: int, r: int| #[trigger] keyed_at(left, right, lk, rk, l, r, x) {
        let (l, r) = choose|l: int, r: int| #[trigger] keyed_at(left, right, lk, rk, l, r, x);
        let (o, i) = if outer_left {
            (l, r)
        } else {
            (r, l)
        };
        lemma_matches(inner, outer[o], inner.len() as int, i);
        assert(m[o] == match_places(inner, outer[o]));
        assert(m[o].contains(i as usize));
        let j = choose|j: int| 0 <= j < m[o].len() && m[o][j] == i as usize;
        assert(met_at(left, right, o, m[o], j, outer_left, x));
        assert(outer_gives(left, right, m, o, outer_left, false, width, x));
    }
}

// ---------------------------------------------------------------------------
// Products
// ---------------------------------------------------------------------------

proof fn lemma_meeting_count(
    left: Seq<RowView>,
    right: Seq<RowView>,
    o: int,
    met: Seq<usize>,
    k: int,
    acc: Seq<RowView>,
    outer_left: bool,
)
    requires
        0 <= k <= met.len(),
    ensures
        meeting_rows(left, right, o, met, k, acc, outer_left).len() == acc.len() + met.len() - k,
    decreases met.len() - k,
{
    if k < met.len() {
        let row = (no_rid(), pair(left, right, o, met[k] as int, outer_left));
        lemma_meeting_count(left, right, o, met, k + 1, acc.push(row), outer_left);
    }
}

proof fn lemma_product_count(
    left: Seq<RowView>,
    right: Seq<RowView>,
    m: Meetings,
    o: int,
    acc: Seq<RowView>,
)
    requires
        0 <= o <= m.len(),
        forall|p: int| 0 <= p < m.len() ==> (#[trigger] m[p]).len() == right.len(),
    ensures
        outer_rows(left, right, m, o, acc, true, false, 0).len() == acc.len() + (m.len() - o)
            * right.len(),
    decreases m.len() - o,
{
    if o < m.len() {
        let n = right.len() as int;
        assert(m[o].len() == n);
        lemma_meeting_count(left, right, o, m[o], 0, acc, true);
        let next = if n == 0 {
            acc
        } else {
            meeting_rows(left, right, o, m[o], 0, acc, true)
        };
        lemma_product_count(left, right, m, o + 1, next);
        assert((m.len() - o) * n == (m.len() - (o + 1)) * n + n) by (nonlinear_arith);
    } else {
        assert((m.len() - o) * right.len() == 0) by (nonlinear_arith)
            requires
                m.len() - o == 0,
        ;
    }
}

/// A Cartesian product has as many rows as both sides multiplied.
pub proof fn law_product_count(left: Seq<RowView>, right: Seq<RowView>)
    ensures
        cross_rows(left, right).len() == left.len() * right.len(),
{
    let m = all_meetings(left.len() as int, right.len() as int);
    assert forall|p: int| 0 <= p < m.len() implies (#[trigger] m[p]).len() == right.len() by {
        assert(m[p] == all_places(right.len() as int));
    }
    lemma_product_count(left, right, m, 0, Seq::empty());
}

} // verus!
