//! What a nested loop gives, row for row, and that a join by keys gives the same.
use crate::aggregate::RowView;
use crate::ast::{BinaryOperator, Expr, JoinType};
use crate::common::no_rid;
use crate::error::ErrorView;
use crate::eval::{binary_op, eval, eval_bool, resolve, truth};
use crate::host::HostView;
use crate::iterator::values_of;
use crate::join::{
    alone, condition_meetings, condition_rows, ending_from, equi_keys, equi_rows, hash_join_rows,
    join_key, join_keys, key_column, key_meetings, match_places, matches_below, meeting_rows,
    met_from, outer_rows, pair, row_join_key, KeyView, Meetings,
};
use crate::schema::name_from;
use crate::text::{ascii_fold, ends, lower_text, same_name};
use crate::types::ValueView;
use vstd::multiset::Multiset;
use vstd::prelude::*;

verus! {

// ---------------------------------------------------------------------------
// The rows of a join
// ---------------------------------------------------------------------------

/// The pairs of an outer row with the inner rows below `n` that it meets, in order.
pub open spec fn pairs_of(
    left: Seq<RowView>,
    right: Seq<RowView>,
    outer_left: bool,
    meets: spec_fn(int, int) -> bool,
    o: int,
    n: int,
) -> Seq<Seq<ValueView>>
    decreases n,
{
    if n <= 0 {
        Seq::empty()
    } else {
        let m = pairs_of(left, right, outer_left, meets, o, n - 1);
        if meets(o, n - 1) {
            m.push(pair(left, right, o, n - 1, outer_left))
        } else {
            m
        }
    }
}

/// What an outer row gives: its pairs with the inner rows that it meets, each once; with `keep`,
/// if it meets none, its own values beside NULLs, once.
pub open spec fn given_by(
    left: Seq<RowView>,
    right: Seq<RowView>,
    outer_left: bool,
    meets: spec_fn(int, int) -> bool,
    keep: bool,
    width: int,
    o: int,
) -> Seq<Seq<ValueView>> {
    let inner = if outer_left {
        right.len()
    } else {
        left.len()
    };
    let own = pairs_of(left, right, outer_left, meets, o, inner as int);
    if own.len() == 0 && keep {
        seq![alone(left, right, o, outer_left, width)]
    } else {
        own
    }
}

/// What the outer rows below `n` give, one after the other.
pub open spec fn all_given(
    left: Seq<RowView>,
    right: Seq<RowView>,
    outer_left: bool,
    meets: spec_fn(int, int) -> bool,
    keep: bool,
    width: int,
    n: int,
) -> Seq<Seq<ValueView>>
    decreases n,
{
    if n <= 0 {
        Seq::empty()
    } else {
        all_given(left, right, outer_left, meets, keep, width, n - 1) + given_by(
            left,
            right,
            outer_left,
            meets,
            keep,
            width,
            n - 1,
        )
    }
}

/// The places below `n` that an outer row meets, in order.
spec fn places_below(meets: spec_fn(int, int) -> bool, o: int, n: int) -> Seq<usize>
    decreases n,
{
    if n <= 0 {
        Seq::empty()
    } else {
        let m = places_below(meets, o, n - 1);
        if meets(o, n - 1) {
            m.push((n - 1) as usize)
        } else {
            m
        }
    }
}

proof fn lemma_pairs_of_places(
    left: Seq<RowView>,
    right: Seq<RowView>,
    outer_left: bool,
    meets: spec_fn(int, int) -> bool,
    o: int,
    n: int,
)
    requires
        n <= usize::MAX,
    ensures
        ({
            let places = places_below(meets, o, n);
            pairs_of(left, right, outer_left, meets, o, n) == Seq::new(
                places.len(),
                |j: int| pair(left, right, o, places[j] as int, outer_left),
            )
        }),
    decreases n,
{
    let places = places_below(meets, o, n);
    if n > 0 {
        lemma_pairs_of_places(left, right, outer_left, meets, o, n - 1);
        let m = places_below(meets, o, n - 1);
        let before = pairs_of(left, right, outer_left, meets, o, n - 1);
        if meets(o, n - 1) {
            assert(places == m.push((n - 1) as usize));
        }
        assert(pairs_of(left, right, outer_left, meets, o, n) =~= Seq::new(
            places.len(),
            |j: int| pair(left, right, o, places[j] as int, outer_left),
        ));
    } else {
        assert(pairs_of(left, right, outer_left, meets, o, n) =~= Seq::new(
            places.len(),
            |j: int| pair(left, right, o, places[j] as int, outer_left),
        ));
    }
}

proof fn lemma_meeting_values(
    left: Seq<RowView>,
    right: Seq<RowView>,
    o: int,
    met: Seq<usize>,
    k: int,
    acc: Seq<RowView>,
    outer_left: bool,
)
    requires
        0 <= k <= met.len(),
    ensures
        values_of(meeting_rows(left, right, o, met, k, acc, outer_left)) == values_of(acc)
            + Seq::new(
            (met.len() - k) as nat,
            |j: int| pair(left, right, o, met[k + j] as int, outer_left),
        ),
    decreases met.len() - k,
{
    let rest = Seq::new(
        (met.len() - k) as nat,
        |j: int| pair(left, right, o, met[k + j] as int, outer_left),
    );
    if k < met.len() {
        let row = (no_rid(), pair(left, right, o, met[k] as int, outer_left));
        lemma_meeting_values(left, right, o, met, k + 1, acc.push(row), outer_left);
        let fewer = Seq::new(
            (met.len() - (k + 1)) as nat,
            |j: int| pair(left, right, o, met[k + 1 + j] as int, outer_left),
        );
        assert(values_of(acc.push(row)) =~= values_of(acc).push(row.1));
        assert(values_of(acc).push(row.1) + fewer =~= values_of(acc) + rest);
    } else {
        assert(values_of(acc) + rest =~= values_of(acc));
    }
}

/// Whether the meetings are those of a relation between outer and inner rows.
spec fn meetings_of(m: Meetings, meets: spec_fn(int, int) -> bool, inner: int) -> bool {
    forall|o: int| 0 <= o < m.len() ==> #[trigger] m[o] == places_below(meets, o, inner)
}

proof fn lemma_outer_values(
    left: Seq<RowView>,
    right: Seq<RowView>,
    m: Meetings,
    o: int,
    acc: Seq<RowView>,
    outer_left: bool,
    keep: bool,
    width: int,
    meets: spec_fn(int, int) -> bool,
)
    requires
        0 <= o <= m.len(),
        left.len() <= usize::MAX,
        right.len() <= usize::MAX,
        meetings_of(
            m,
            meets,
            if outer_left {
                right.len() as int
            } else {
                left.len() as int
            },
        ),
        values_of(acc) == all_given(left, right, outer_left, meets, keep, width, o),
    ensures
        values_of(outer_rows(left, right, m, o, acc, outer_left, keep, width)) == all_given(
            left,
            right,
            outer_left,
            meets,
            keep,
            width,
            m.len() as int,
        ),
    decreases m.len() - o,
{
    if o < m.len() {
        let n = if outer_left {
            right.len() as int
        } else {
            left.len() as int
        };
        assert(m[o] == places_below(meets, o, n));
        lemma_pairs_of_places(left, right, outer_left, meets, o, n);
        let own = pairs_of(left, right, outer_left, meets, o, n);
        assert(own.len() == m[o].len());
        let so_far = all_given(left, right, outer_left, meets, keep, width, o);
        if m[o].len() == 0 {
            let row = (no_rid(), alone(left, right, o, outer_left, width));
            let next = if keep {
                acc.push(row)
            } else {
                acc
            };
            if keep {
                assert(values_of(next) =~= so_far + seq![row.1]);
            } else {
                assert(own =~= Seq::<Seq<ValueView>>::empty());
                assert(values_of(next) =~= so_far + own);
            }
            lemma_outer_values(left, right, m, o + 1, next, outer_left, keep, width, meets);
        } else {
            let next = meeting_rows(left, right, o, m[o], 0, acc, outer_left);
            lemma_meeting_values(left, right, o, m[o], 0, acc, outer_left);
            assert(values_of(next) =~= so_far + own);
            lemma_outer_values(left, right, m, o + 1, next, outer_left, keep, width, meets);
        }
    }
}

// ---------------------------------------------------------------------------
// The nested loop
// ---------------------------------------------------------------------------

/// The pairs of rows that satisfy a condition.
pub open spec fn satisfying(
    on: Expr,
    left: Seq<RowView>,
    right: Seq<RowView>,
    outer_left: bool,
    names: Seq<Seq<char>>,
    h: HostView,
) -> spec_fn(int, int) -> bool {
    |o: int, i: int|
        eval_bool(on, pair(left, right, o, i, outer_left), names, h) == Ok::<bool, ErrorView>(true)
}

proof fn lemma_met_places(
    on: Expr,
    left: Seq<RowView>,
    right: Seq<RowView>,
    o: int,
    i: int,
    acc: Seq<usize>,
    outer_left: bool,
    names: Seq<Seq<char>>,
    h: HostView,
)
    requires
        0 <= i <= (if outer_left {
            right.len()
        } else {
            left.len()
        }),
        acc == places_below(satisfying(on, left, right, outer_left, names, h), o, i),
        met_from(on, left, right, o, i, acc, outer_left, names, h) is Ok,
    ensures
        met_from(on, left, right, o, i, acc, outer_left, names, h)->Ok_0 == places_below(
            satisfying(on, left, right, outer_left, names, h),
            o,
            if outer_left {
                right.len() as int
            } else {
                left.len() as int
            },
        ),
    decreases
            (if outer_left {
                right.len()
            } else {
                left.len()
            }) - i,
{
    let n = if outer_left {
        right.len()
    } else {
        left.len()
    };
    if i < n {
        let b = eval_bool(on, pair(left, right, o, i, outer_left), names, h)->Ok_0;
        let next = if b {
            acc.push(i as usize)
        } else {
            acc
        };
        assert(satisfying(on, left, right, outer_left, names, h)(o, i) == b);
        lemma_met_places(on, left, right, o, i + 1, next, outer_left, names, h);
    }
}

proof fn lemma_condition_places(
    on: Expr,
    left: Seq<RowView>,
    right: Seq<RowView>,
    o: int,
    acc: Meetings,
    outer_left: bool,
    names: Seq<Seq<char>>,
    h: HostView,
)
    requires
        0 <= o <= (if outer_left {
            left.len()
        } else {
            right.len()
        }),
        acc.len() == o,
        meetings_of(
            acc,
            satisfying(on, left, right, outer_left, names, h),
            if outer_left {
                right.len() as int
            } else {
                left.len() as int
            },
        ),
        condition_meetings(on, left, right, o, acc, outer_left, names, h) is Ok,
    ensures
        ({
            let m = condition_meetings(on, left, right, o, acc, outer_left, names, h)->Ok_0;
            &&& m.len() == if outer_left {
                left.len()
            } else {
                right.len()
            }
            &&& meetings_of(
                m,
                satisfying(on, left, right, outer_left, names, h),
                if outer_left {
                    right.len() as int
                } else {
                    left.len() as int
                },
            )
        }),
    decreases
            (if outer_left {
                left.len()
            } else {
                right.len()
            }) - o,
{
    let n = if outer_left {
        left.len()
    } else {
        right.len()
    };
    if o < n {
        let met = met_from(on, left, right, o, 0, Seq::empty(), outer_left, names, h)->Ok_0;
        lemma_met_places(on, left, right, o, 0, Seq::empty(), outer_left, names, h);
        let more = acc.push(met);
        let meets = satisfying(on, left, right, outer_left, names, h);
        let inner = if outer_left {
            right.len() as int
        } else {
            left.len() as int
        };
        assert forall|p: int| 0 <= p < more.len() implies #[trigger] more[p] == places_below(
            meets,
            p,
            inner,
        ) by {
            if p < o {
                assert(more[p] == acc[p]);
            }
        }
        lemma_condition_places(on, left, right, o + 1, more, outer_left, names, h);
    }
}

/// A nested-loop inner join gives exactly the pairs of rows that satisfy its condition, each
/// once, in the order of the left and then of the right rows. A left join gives besides, in its
/// place, each left row that meets nothing, once, beside NULLs; a right join does so with the
/// right rows, in whose order it goes.
pub proof fn law_nested_loop_gives_matching_pairs(
    left: Seq<RowView>,
    right: Seq<RowView>,
    t: JoinType,
    on: Expr,
    lnames: Seq<Seq<char>>,
    rnames: Seq<Seq<char>>,
    h: HostView,
)
    requires
        left.len() <= usize::MAX,
        right.len() <= usize::MAX,
        t == JoinType::Inner || t == JoinType::Left || t == JoinType::Right,
        condition_rows(left, right, t, on, lnames, rnames, h) is Ok,
    ensures
        ({
            let outer_left = t != JoinType::Right;
            values_of(condition_rows(left, right, t, on, lnames, rnames, h)->Ok_0) == all_given(
                left,
                right,
                outer_left,
                satisfying(on, left, right, outer_left, lnames + rnames, h),
                t != JoinType::Inner,
                if outer_left {
                    rnames.len() as int
                } else {
                    lnames.len() as int
                },
                if outer_left {
                    left.len() as int
                } else {
                    right.len() as int
                },
            )
        }),
{
    let outer_left = t != JoinType::Right;
    let names = lnames + rnames;
    let width = if outer_left {
        rnames.len() as int
    } else {
        lnames.len() as int
    };
    let m = condition_meetings(on, left, right, 0, Seq::empty(), outer_left, names, h)->Ok_0;
    lemma_condition_places(on, left, right, 0, Seq::empty(), outer_left, names, h);
    assert(values_of(Seq::<RowView>::empty()) =~= Seq::<Seq<ValueView>>::empty());
    lemma_outer_values(
        left,
        right,
        m,
        0,
        Seq::empty(),
        outer_left,
        t != JoinType::Inner,
        width,
        satisfying(on, left, right, outer_left, names, h),
    );
}

// ---------------------------------------------------------------------------
// Keys
// ---------------------------------------------------------------------------

/// The pairs of rows with equal keys.
pub open spec fn same_keys(outer: Seq<Option<KeyView>>, inner: Seq<Option<KeyView>>) -> spec_fn(
    int,
    int,
) -> bool {
    |o: int, i: int| outer[o] is Some && inner[i] == outer[o]
}

proof fn lemma_key_places(outer: Seq<Option<KeyView>>, inner: Seq<Option<KeyView>>, o: int, n: int)
    ensures
        matches_below(inner, outer[o], n) == places_below(same_keys(outer, inner), o, n),
    decreases n,
{
    if n > 0 {
        lemma_key_places(outer, inner, o, n - 1);
        assert(same_keys(outer, inner)(o, n - 1) == (outer[o] is Some && inner[n - 1] == outer[o]));
    }
}

/// What a join by keys gives: the pairs of rows with equal keys, and the outer rows of a LEFT or
/// RIGHT join that meet nothing, each once.
pub proof fn law_join_by_keys_gives_matching_pairs(
    left: Seq<RowView>,
    right: Seq<RowView>,
    t: JoinType,
    outer_left: bool,
    lk: int,
    rk: int,
    lwidth: int,
    rwidth: int,
)
    requires
        left.len() <= usize::MAX,
        right.len() <= usize::MAX,
        t == JoinType::Inner || t == JoinType::Left || t == JoinType::Right,
        outer_left == if t == JoinType::Inner {
            right.len() <= left.len()
        } else {
            t != JoinType::Right
        },
    ensures
        values_of(equi_rows(left, right, t, lk, rk, lwidth, rwidth)) == all_given(
            left,
            right,
            outer_left,
            if outer_left {
                same_keys(join_keys(left, lk), join_keys(right, rk))
            } else {
                same_keys(join_keys(right, rk), join_keys(left, lk))
            },
            t != JoinType::Inner,
            if outer_left {
                rwidth
            } else {
                lwidth
            },
            if outer_left {
                left.len() as int
            } else {
                right.len() as int
            },
        ),
{
    let (outer, inner) = if outer_left {
        (join_keys(left, lk), join_keys(right, rk))
    } else {
        (join_keys(right, rk), join_keys(left, lk))
    };
    let m = key_meetings(outer, inner);
    let meets = same_keys(outer, inner);
    assert forall|o: int| 0 <= o < m.len() implies #[trigger] m[o] == places_below(
        meets,
        o,
        inner.len() as int,
    ) by {
        assert(m[o] == match_places(inner, outer[o]));
        lemma_key_places(outer, inner, o, inner.len() as int);
    }
    assert(values_of(Seq::<RowView>::empty()) =~= Seq::<Seq<ValueView>>::empty());
    lemma_outer_values(
        left,
        right,
        m,
        0,
        Seq::empty(),
        outer_left,
        t != JoinType::Inner,
        if outer_left {
            rwidth
        } else {
            lwidth
        },
        meets,
    );
}

// ---------------------------------------------------------------------------
// Both ways round
// ---------------------------------------------------------------------------

proof fn lemma_same_pairs(
    left: Seq<RowView>,
    right: Seq<RowView>,
    outer_left: bool,
    a: spec_fn(int, int) -> bool,
    b: spec_fn(int, int) -> bool,
    o: int,
    n: int,
)
    requires
        forall|i: int| 0 <= i < n ==> #[trigger] a(o, i) == b(o, i),
    ensures
        pairs_of(left, right, outer_left, a, o, n) == pairs_of(left, right, outer_left, b, o, n),
    decreases n,
{
    if n > 0 {
        lemma_same_pairs(left, right, outer_left, a, b, o, n - 1);
        assert(a(o, n - 1) == b(o, n - 1));
    }
}

proof fn lemma_same_given(
    left: Seq<RowView>,
    right: Seq<RowView>,
    outer_left: bool,
    a: spec_fn(int, int) -> bool,
    b: spec_fn(int, int) -> bool,
    keep: bool,
    width: int,
    n: int,
)
    requires
        forall|o: int, i: int|
            0 <= o < n && 0 <= i < (if outer_left {
                right.len()
            } else {
                left.len()
            }) ==> #[trigger] a(o, i) == b(o, i),
    ensures
        all_given(left, right, outer_left, a, keep, width, n) == all_given(
            left,
            right,
            outer_left,
            b,
            keep,
            width,
            n,
        ),
    decreases n,
{
    if n > 0 {
        lemma_same_given(left, right, outer_left, a, b, keep, width, n - 1);
        let inner = if outer_left {
            right.len() as int
        } else {
            left.len() as int
        };
        lemma_same_pairs(left, right, outer_left, a, b, n - 1, inner);
    }
}

/// The pair of one left and one right row, if they meet.
spec fn one(
    left: Seq<RowView>,
    right: Seq<RowView>,
    meets: spec_fn(int, int) -> bool,
    l: int,
    r: int,
) -> Multiset<Seq<ValueView>> {
    if meets(l, r) {
        Multiset::singleton(left[l].1 + right[r].1)
    } else {
        Multiset::empty()
    }
}

/// The pairs of a left row with the right rows below `b`.
spec fn across(
    left: Seq<RowView>,
    right: Seq<RowView>,
    meets: spec_fn(int, int) -> bool,
    l: int,
    b: int,
) -> Multiset<Seq<ValueView>>
    decreases b,
{
    if b <= 0 {
        Multiset::empty()
    } else {
        across(left, right, meets, l, b - 1).add(one(left, right, meets, l, b - 1))
    }
}

/// The pairs of a right row with the left rows below `a`.
spec fn down(
    left: Seq<RowView>,
    right: Seq<RowView>,
    meets: spec_fn(int, int) -> bool,
    a: int,
    r: int,
) -> Multiset<Seq<ValueView>>
    decreases a,
{
    if a <= 0 {
        Multiset::empty()
    } else {
        down(left, right, meets, a - 1, r).add(one(left, right, meets, a - 1, r))
    }
}

/// The pairs of the left rows below `a` with the right rows below `b`, gone through by left rows.
spec fn by_left(
    left: Seq<RowView>,
    right: Seq<RowView>,
    meets: spec_fn(int, int) -> bool,
    a: int,
    b: int,
) -> Multiset<Seq<ValueView>>
    decreases a,
{
    if a <= 0 {
        Multiset::empty()
    } else {
        by_left(left, right, meets, a - 1, b).add(across(left, right, meets, a - 1, b))
    }
}

/// The same pairs, gone through by right rows.
spec fn by_right(
    left: Seq<RowView>,
    right: Seq<RowView>,
    meets: spec_fn(int, int) -> bool,
    a: int,
    b: int,
) -> Multiset<Seq<ValueView>>
    decreases b,
{
    if b <= 0 {
        Multiset::empty()
    } else {
        by_right(left, right, meets, a, b - 1).add(down(left, right, meets, a, b - 1))
    }
}

proof fn lemma_one_more(
    left: Seq<RowView>,
    right: Seq<RowView>,
    meets: spec_fn(int, int) -> bool,
    a: int,
    b: int,
)
    requires
        b > 0,
    ensures
        by_left(left, right, meets, a, b) == by_left(left, right, meets, a, b - 1).add(
            down(left, right, meets, a, b - 1),
        ),
    decreases a,
{
    if a > 0 {
        lemma_one_more(left, right, meets, a - 1, b);
    }
    assert(by_left(left, right, meets, a, b) =~= by_left(left, right, meets, a, b - 1).add(
        down(left, right, meets, a, b - 1),
    ));
}

proof fn lemma_both_ways(
    left: Seq<RowView>,
    right: Seq<RowView>,
    meets: spec_fn(int, int) -> bool,
    a: int,
    b: int,
)
    ensures
        by_left(left, right, meets, a, b) == by_right(left, right, meets, a, b),
    decreases b,
{
    if b > 0 {
        lemma_one_more(left, right, meets, a, b);
        lemma_both_ways(left, right, meets, a, b - 1);
    } else {
        lemma_nothing(left, right, meets, a, b);
    }
}

proof fn lemma_nothing(
    left: Seq<RowView>,
    right: Seq<RowView>,
    meets: spec_fn(int, int) -> bool,
    a: int,
    b: int,
)
    requires
        b <= 0,
    ensures
        by_left(left, right, meets, a, b) == Multiset::<Seq<ValueView>>::empty(),
    decreases a,
{
    if a > 0 {
        lemma_nothing(left, right, meets, a - 1, b);
    }
    assert(by_left(left, right, meets, a, b) =~= Multiset::<Seq<ValueView>>::empty());
}

proof fn lemma_pairs_left(
    left: Seq<RowView>,
    right: Seq<RowView>,
    meets: spec_fn(int, int) -> bool,
    l: int,
    b: int,
)
    ensures
        pairs_of(left, right, true, meets, l, b).to_multiset() == across(left, right, meets, l, b),
    decreases b,
{
    broadcast use vstd::seq_lib::group_to_multiset_ensures;

    if b > 0 {
        lemma_pairs_left(left, right, meets, l, b - 1);
        let m = pairs_of(left, right, true, meets, l, b - 1);
        assert(pairs_of(left, right, true, meets, l, b).to_multiset() =~= across(
            left,
            right,
            meets,
            l,
            b,
        ));
    } else {
        assert(pairs_of(left, right, true, meets, l, b) =~= Seq::<Seq<ValueView>>::empty());
        assert(Seq::<Seq<ValueView>>::empty().to_multiset().len() == 0);
        assert(pairs_of(left, right, true, meets, l, b).to_multiset() =~= across(
            left,
            right,
            meets,
            l,
            b,
        ));
    }
}

proof fn lemma_pairs_right(
    left: Seq<RowView>,
    right: Seq<RowView>,
    meets: spec_fn(int, int) -> bool,
    flipped: spec_fn(int, int) -> bool,
    a: int,
    r: int,
)
    requires
        forall|l: int| 0 <= l < a ==> #[trigger] flipped(r, l) == meets(l, r),
    ensures
        pairs_of(left, right, false, flipped, r, a).to_multiset() == down(left, right, meets, a, r),
    decreases a,
{
    broadcast use vstd::seq_lib::group_to_multiset_ensures;

    if a > 0 {
        lemma_pairs_right(left, right, meets, flipped, a - 1, r);
        assert(flipped(r, a - 1) == meets(a - 1, r));
        let m = pairs_of(left, right, false, flipped, r, a - 1);
        assert(pairs_of(left, right, false, flipped, r, a).to_multiset() =~= down(
            left,
            right,
            meets,
            a,
            r,
        ));
    } else {
        assert(pairs_of(left, right, false, flipped, r, a) =~= Seq::<Seq<ValueView>>::empty());
        assert(Seq::<Seq<ValueView>>::empty().to_multiset().len() == 0);
        assert(pairs_of(left, right, false, flipped, r, a).to_multiset() =~= down(
            left,
            right,
            meets,
            a,
            r,
        ));
    }
}

proof fn lemma_given_left(
    left: Seq<RowView>,
    right: Seq<RowView>,
    meets: spec_fn(int, int) -> bool,
    width: int,
    a: int,
)
    ensures
        all_given(left, right, true, meets, false, width, a).to_multiset() == by_left(
            left,
            right,
            meets,
            a,
            right.len() as int,
        ),
    decreases a,
{
    broadcast use vstd::seq_lib::group_to_multiset_ensures;

    if a > 0 {
        lemma_given_left(left, right, meets, width, a - 1);
        lemma_pairs_left(left, right, meets, a - 1, right.len() as int);
        vstd::seq_lib::lemma_multiset_commutative(
            all_given(left, right, true, meets, false, width, a - 1),
            given_by(left, right, true, meets, false, width, a - 1),
        );
    } else {
        assert(all_given(left, right, true, meets, false, width, a) =~= Seq::<
            Seq<ValueView>,
        >::empty());
        assert(Seq::<Seq<ValueView>>::empty().to_multiset().len() == 0);
        assert(all_given(left, right, true, meets, false, width, a).to_multiset() =~= by_left(
            left,
            right,
            meets,
            a,
            right.len() as int,
        ));
    }
}

proof fn lemma_given_right(
    left: Seq<RowView>,
    right: Seq<RowView>,
    meets: spec_fn(int, int) -> bool,
    flipped: spec_fn(int, int) -> bool,
    width: int,
    b: int,
)
    requires
        b <= right.len(),
        forall|r: int, l: int|
            0 <= r < right.len() && 0 <= l < left.len() ==> #[trigger] flipped(r, l) == meets(l, r),
    ensures
        all_given(left, right, false, flipped, false, width, b).to_multiset() == by_right(
            left,
            right,
            meets,
            left.len() as int,
            b,
        ),
    decreases b,
{
    broadcast use vstd::seq_lib::group_to_multiset_ensures;

    if b > 0 {
        lemma_given_right(left, right, meets, flipped, width, b - 1);
        lemma_pairs_right(left, right, meets, flipped, left.len() as int, b - 1);
        vstd::seq_lib::lemma_multiset_commutative(
            all_given(left, right, false, flipped, false, width, b - 1),
            given_by(left, right, false, flipped, false, width, b - 1),
        );
    } else {
        assert(all_given(left, right, false, flipped, false, width, b) =~= Seq::<
            Seq<ValueView>,
        >::empty());
        assert(Seq::<Seq<ValueView>>::empty().to_multiset().len() == 0);
        assert(all_given(left, right, false, flipped, false, width, b).to_multiset() =~= by_right(
            left,
            right,
            meets,
            left.len() as int,
            b,
        ));
    }
}

// ---------------------------------------------------------------------------
// Column references
// ---------------------------------------------------------------------------

/// Whether there is no point in a name, in whatever case it is written.
pub open spec fn pointless(name: Seq<char>) -> bool {
    !name.contains('.') && !lower_text(name).contains('.')
}

/// Whether names are without points, and no two of them are the same but for their case.
pub open spec fn plain_names(names: Seq<Seq<char>>) -> bool {
    &&& forall|i: int| 0 <= i < names.len() ==> pointless(#[trigger] names[i])
    &&& forall|i: int, j: int|
        0 <= i < names.len() && 0 <= j < names.len() && i != j ==> !same_name(
            #[trigger] names[i],
            #[trigger] names[j],
        )
}

/// Whether an expression is a reference to the column with this name.
pub open spec fn refers_to(e: Expr, name: Seq<char>) -> bool {
    e matches Expr::ColumnRef { table, column } && same_name(name, column@)
}

proof fn lemma_same_names(a: Seq<char>, b: Seq<char>, c: Seq<char>)
    requires
        same_name(a, c),
        same_name(b, c),
    ensures
        same_name(a, b),
{
    assert forall|i: int| 0 <= i < a.len() implies ascii_fold(#[trigger] a[i]) == ascii_fold(
        b[i],
    ) by {
        assert(ascii_fold(a[i]) == ascii_fold(c[i]));
        assert(ascii_fold(b[i]) == ascii_fold(c[i]));
    }
}

proof fn lemma_found(names: Seq<Seq<char>>, name: Seq<char>, k: int, i: int)
    requires
        plain_names(names),
        0 <= i <= k < names.len(),
        same_name(names[k], name),
    ensures
        name_from(names, name, i) == Some(k),
    decreases k - i,
{
    if i < k {
        if same_name(names[i], name) {
            lemma_same_names(names[i], names[k], name);
        }
        lemma_found(names, name, k, i + 1);
    }
}

proof fn lemma_not_qualified(names: Seq<Seq<char>>, t: Seq<char>, column: Seq<char>, i: int)
    requires
        plain_names(names),
        0 <= i,
    ensures
        name_from(names, t + seq!['.'] + column, i) is None,
    decreases names.len() - i,
{
    if i < names.len() {
        let q = t + seq!['.'] + column;
        if same_name(names[i], q) {
            let k = t.len() as int;
            assert(q[k] == '.');
            assert(ascii_fold(names[i][k]) == ascii_fold(q[k]));
            assert(names[i][k] == '.');
            assert(names[i].contains('.'));
            assert(pointless(names[i]));
        }
        lemma_not_qualified(names, t, column, i + 1);
    }
}

proof fn lemma_no_ending(names: Seq<Seq<char>>, rest: Seq<char>, i: int)
    requires
        plain_names(names),
        0 <= i,
    ensures
        ending_from(names, seq!['.'] + rest, i) is None,
    decreases names.len() - i,
{
    if i < names.len() {
        let s = lower_text(names[i]);
        let p = seq!['.'] + rest;
        assert(pointless(names[i]));
        if ends(s, p) {
            let at = s.len() - p.len();
            assert(s.subrange(at, at + p.len())[0] == p[0]);
            assert(s[at] == '.');
            assert(s.contains('.'));
        }
        lemma_no_ending(names, rest, i + 1);
    }
}

proof fn lemma_not_found(names: Seq<Seq<char>>, name: Seq<char>, i: int)
    requires
        0 <= i,
        forall|k: int| 0 <= k < names.len() ==> !same_name(#[trigger] names[k], name),
    ensures
        name_from(names, name, i) is None,
    decreases names.len() - i,
{
    if i < names.len() {
        lemma_not_found(names, name, i + 1);
    }
}

/// A reference to a column of one side is found there, and not on the other side.
proof fn lemma_reference(
    e: Expr,
    names: Seq<Seq<char>>,
    part: Seq<Seq<char>>,
    other: Seq<Seq<char>>,
    at: int,
    k: int,
)
    requires
        plain_names(names),
        plain_names(part),
        plain_names(other),
        0 <= k < part.len(),
        0 <= at + k < names.len(),
        names[at + k] == part[k],
        refers_to(e, part[k]),
        forall|i: int| 0 <= i < other.len() ==> !same_name(#[trigger] other[i], part[k]),
    ensures
        key_column(e, part) == Some(k),
        key_column(e, other) is None,
        resolve(names, e->ColumnRef_table.deep_view(), e->ColumnRef_column@) == Some(at + k),
{
    let column = e->ColumnRef_column@;
    lemma_found(part, column, k, 0);
    lemma_found(names, column, at + k, 0);
    assert forall|i: int| 0 <= i < other.len() implies !same_name(#[trigger] other[i], column) by {
        if same_name(other[i], column) {
            lemma_same_names(other[i], part[k], column);
        }
    }
    lemma_not_found(other, column, 0);
    lemma_no_ending(other, lower_text(column), 0);
    if let Some(t) = e->ColumnRef_table {
        lemma_not_qualified(part, t@, column, 0);
        lemma_not_qualified(other, t@, column, 0);
    }
}

// ---------------------------------------------------------------------------
// A join by keys and a nested loop
// ---------------------------------------------------------------------------

/// Whether a value is an integer of either width, or NULL.
pub open spec fn integral(v: ValueView) -> bool {
    v is Integer || v is BigInt || v is Null
}

/// Whether rows have one value for each of `n` columns, and an integer or NULL in column `k`.
pub open spec fn keyed_rows(rows: Seq<RowView>, n: int, k: int) -> bool {
    forall|i: int|
        0 <= i < rows.len() ==> (#[trigger] rows[i]).1.len() == n && integral(rows[i].1[k])
}

/// Whether a condition is that a column of the left side equals one of the right side, in either
/// order.
pub open spec fn equates(on: Expr, l: Seq<char>, r: Seq<char>) -> bool {
    on matches Expr::BinaryOp { left: a, op, right: b } && op == BinaryOperator::Eq && ((refers_to(
        *a,
        l,
    ) && refers_to(*b, r)) || (refers_to(*a, r) && refers_to(*b, l)))
}

proof fn lemma_integers_equal(a: ValueView, b: ValueView, h: HostView)
    requires
        integral(a),
        integral(b),
    ensures
        binary_op(a, BinaryOperator::Eq, b, h) is Ok,
        truth(binary_op(a, BinaryOperator::Eq, b, h)->Ok_0, h) == Ok::<
            bool,
            ErrorView,
        >(!(join_key(a) is Null) && join_key(b) == join_key(a)),
{
}

proof fn lemma_condition_is_key(
    on: Expr,
    lrow: Seq<ValueView>,
    rrow: Seq<ValueView>,
    lnames: Seq<Seq<char>>,
    rnames: Seq<Seq<char>>,
    lk: int,
    rk: int,
    h: HostView,
)
    requires
        plain_names(lnames + rnames),
        0 <= lk < lnames.len(),
        0 <= rk < rnames.len(),
        equates(on, lnames[lk], rnames[rk]),
        lrow.len() == lnames.len(),
        rrow.len() == rnames.len(),
        integral(lrow[lk]),
        integral(rrow[rk]),
    ensures
        equi_keys(on, lnames, rnames) == Some((lk, rk)),
        eval_bool(on, lrow + rrow, lnames + rnames, h) == Ok::<bool, ErrorView>(
            row_join_key(lrow, lk) is Some && row_join_key(rrow, rk) == row_join_key(lrow, lk),
        ),
{
    lemma_keys_found(on, lnames, rnames, lk, rk);
    let names = lnames + rnames;
    let row = lrow + rrow;
    let a = *on->BinaryOp_left;
    let b = *on->BinaryOp_right;
    assert(row[lk] == lrow[lk]);
    assert(row[lnames.len() + rk] == rrow[rk]);
    lemma_integers_equal(lrow[lk], rrow[rk], h);
    lemma_integers_equal(rrow[rk], lrow[lk], h);
    assert(eval(on, row, names, h) == match eval(a, row, names, h) {
        Err(x) => Err::<ValueView, ErrorView>(x),
        Ok(l) => match eval(b, row, names, h) {
            Err(x) => Err(x),
            Ok(r) => binary_op(l, BinaryOperator::Eq, r, h),
        },
    });
}

proof fn lemma_keys_found(
    on: Expr,
    lnames: Seq<Seq<char>>,
    rnames: Seq<Seq<char>>,
    lk: int,
    rk: int,
)
    requires
        plain_names(lnames + rnames),
        0 <= lk < lnames.len(),
        0 <= rk < rnames.len(),
        equates(on, lnames[lk], rnames[rk]),
    ensures
        equi_keys(on, lnames, rnames) == Some((lk, rk)),
        ({
            let a = *on->BinaryOp_left;
            let b = *on->BinaryOp_right;
            let ra = resolve(lnames + rnames, a->ColumnRef_table.deep_view(), a->ColumnRef_column@);
            let rb = resolve(lnames + rnames, b->ColumnRef_table.deep_view(), b->ColumnRef_column@);
            (ra == Some(lk) && rb == Some(lnames.len() + rk)) || (rb == Some(lk) && ra == Some(
                lnames.len() + rk,
            ))
        }),
{
    let names = lnames + rnames;
    let n = lnames.len() as int;
    let a = *on->BinaryOp_left;
    let b = *on->BinaryOp_right;
    assert forall|i: int| 0 <= i < n implies names[i] == #[trigger] lnames[i] by {}
    assert forall|i: int| 0 <= i < rnames.len() implies names[n + i] == #[trigger] rnames[i] by {}
    assert(plain_names(lnames)) by {
        assert forall|i: int| 0 <= i < n implies pointless(#[trigger] lnames[i]) by {
            assert(pointless(names[i]));
        }
        assert forall|i: int, j: int| 0 <= i < n && 0 <= j < n && i != j implies !same_name(
            #[trigger] lnames[i],
            #[trigger] lnames[j],
        ) by {
            assert(!same_name(names[i], names[j]));
        }
    }
    assert(plain_names(rnames)) by {
        assert forall|i: int| 0 <= i < rnames.len() implies pointless(#[trigger] rnames[i]) by {
            assert(pointless(names[n + i]));
        }
        assert forall|i: int, j: int|
            0 <= i < rnames.len() && 0 <= j < rnames.len() && i != j implies !same_name(
            #[trigger] rnames[i],
            #[trigger] rnames[j],
        ) by {
            assert(!same_name(names[n + i], names[n + j]));
        }
    }
    assert forall|i: int| 0 <= i < rnames.len() implies !same_name(
        #[trigger] rnames[i],
        lnames[lk],
    ) by {
        assert(!same_name(names[n + i], names[lk]));
    }
    assert forall|i: int| 0 <= i < n implies !same_name(#[trigger] lnames[i], rnames[rk]) by {
        assert(!same_name(names[i], names[n + rk]));
    }
    if refers_to(a, lnames[lk]) && refers_to(b, rnames[rk]) {
        lemma_reference(a, names, lnames, rnames, 0, lk);
        lemma_reference(b, names, rnames, lnames, n, rk);
    } else {
        lemma_reference(b, names, lnames, rnames, 0, lk);
        lemma_reference(a, names, rnames, lnames, n, rk);
    }
}

proof fn lemma_condition_never_fails(
    on: Expr,
    left: Seq<RowView>,
    right: Seq<RowView>,
    o: int,
    acc: Meetings,
    outer_left: bool,
    names: Seq<Seq<char>>,
    h: HostView,
)
    requires
        0 <= o,
        forall|a: int, b: int|
            0 <= a < left.len() && 0 <= b < right.len() ==> eval_bool(
                on,
                #[trigger] left[a].1 + #[trigger] right[b].1,
                names,
                h,
            ) is Ok,
    ensures
        condition_meetings(on, left, right, o, acc, outer_left, names, h) is Ok,
    decreases
            (if outer_left {
                left.len()
            } else {
                right.len()
            }) - o,
{
    let n = if outer_left {
        left.len()
    } else {
        right.len()
    };
    if o < n {
        lemma_row_never_fails(on, left, right, o, 0, Seq::empty(), outer_left, names, h);
        let met = met_from(on, left, right, o, 0, Seq::empty(), outer_left, names, h)->Ok_0;
        lemma_condition_never_fails(
            on,
            left,
            right,
            o + 1,
            acc.push(met),
            outer_left,
            names,
            h,
        );
    }
}

proof fn lemma_row_never_fails(
    on: Expr,
    left: Seq<RowView>,
    right: Seq<RowView>,
    o: int,
    i: int,
    acc: Seq<usize>,
    outer_left: bool,
    names: Seq<Seq<char>>,
    h: HostView,
)
    requires
        0 <= i,
        0 <= o < (if outer_left {
            left.len()
        } else {
            right.len()
        }),
        forall|a: int, b: int|
            0 <= a < left.len() && 0 <= b < right.len() ==> eval_bool(
                on,
                #[trigger] left[a].1 + #[trigger] right[b].1,
                names,
                h,
            ) is Ok,
    ensures
        met_from(on, left, right, o, i, acc, outer_left, names, h) is Ok,
    decreases
            (if outer_left {
                right.len()
            } else {
                left.len()
            }) - i,
{
    let n = if outer_left {
        right.len()
    } else {
        left.len()
    };
    if i < n {
        let (a, b) = if outer_left {
            (o, i)
        } else {
            (i, o)
        };
        assert(eval_bool(on, left[a].1 + right[b].1, names, h) is Ok);
        let hit = eval_bool(on, pair(left, right, o, i, outer_left), names, h)->Ok_0;
        let next = if hit {
            acc.push(i as usize)
        } else {
            acc
        };
        lemma_row_never_fails(on, left, right, o, i + 1, next, outer_left, names, h);
    }
}

/// An inner, left or right join on the equality of two integer columns gives the same rows,
/// each as often, whether rows are matched by their keys or by the condition in a nested loop.
pub proof fn law_hash_join_gives_nested_loop_rows(
    left: Seq<RowView>,
    right: Seq<RowView>,
    t: JoinType,
    on: Expr,
    lnames: Seq<Seq<char>>,
    rnames: Seq<Seq<char>>,
    lk: int,
    rk: int,
    h: HostView,
)
    requires
        left.len() <= usize::MAX,
        right.len() <= usize::MAX,
        t == JoinType::Inner || t == JoinType::Left || t == JoinType::Right,
        plain_names(lnames + rnames),
        0 <= lk < lnames.len(),
        0 <= rk < rnames.len(),
        equates(on, lnames[lk], rnames[rk]),
        keyed_rows(left, lnames.len() as int, lk),
        keyed_rows(right, rnames.len() as int, rk),
    ensures
        hash_join_rows(left, right, t, on, lnames, rnames, h) is Ok,
        condition_rows(left, right, t, on, lnames, rnames, h) is Ok,
        values_of(hash_join_rows(left, right, t, on, lnames, rnames, h)->Ok_0).to_multiset()
            == values_of(
            condition_rows(left, right, t, on, lnames, rnames, h)->Ok_0,
        ).to_multiset(),
{
    let names = lnames + rnames;
    let lkeys = join_keys(left, lk);
    let rkeys = join_keys(right, rk);
    let lw = lnames.len() as int;
    let rw = rnames.len() as int;
    lemma_keys_found(on, lnames, rnames, lk, rk);
    assert forall|a: int, b: int|
        0 <= a < left.len() && 0 <= b < right.len() implies eval_bool(
        on,
        #[trigger] left[a].1 + #[trigger] right[b].1,
        names,
        h,
    ) == Ok::<bool, ErrorView>(lkeys[a] is Some && rkeys[b] == lkeys[a]) by {
        lemma_condition_is_key(on, left[a].1, right[b].1, lnames, rnames, lk, rk, h);
    }
    let loop_left = t != JoinType::Right;
    lemma_condition_never_fails(on, left, right, 0, Seq::empty(), loop_left, names, h);
    law_nested_loop_gives_matching_pairs(left, right, t, on, lnames, rnames, h);
    let hash_left = if t == JoinType::Inner {
        right.len() <= left.len()
    } else {
        loop_left
    };
    law_join_by_keys_gives_matching_pairs(left, right, t, hash_left, lk, rk, lw, rw);
    let sat = satisfying(on, left, right, loop_left, names, h);
    if hash_left == loop_left {
        let keys = if loop_left {
            same_keys(lkeys, rkeys)
        } else {
            same_keys(rkeys, lkeys)
        };
        let (n, inner, width) = if loop_left {
            (left.len() as int, right.len() as int, rw)
        } else {
            (right.len() as int, left.len() as int, lw)
        };
        assert forall|o: int, i: int| 0 <= o < n && 0 <= i < inner implies #[trigger] sat(o, i)
            == keys(o, i) by {
            if loop_left {
                let x = left[o].1 + right[i].1;
            } else {
                let x = left[i].1 + right[o].1;
            }
        }
        lemma_same_given(left, right, loop_left, sat, keys, t != JoinType::Inner, width, n);
    } else {
        let flipped = same_keys(rkeys, lkeys);
        assert forall|r: int, l: int| 0 <= r < right.len() && 0 <= l < left.len() implies
            #[trigger] flipped(r, l) == sat(l, r) by {
            let x = left[l].1 + right[r].1;
        }
        lemma_given_left(left, right, sat, rw, left.len() as int);
        lemma_given_right(left, right, sat, flipped, lw, right.len() as int);
        lemma_both_ways(left, right, sat, left.len() as int, right.len() as int);
    }
}

} // verus!
