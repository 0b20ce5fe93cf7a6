//! ORDER BY puts rows into order.
use crate::ast::OrderByItem;
use crate::error::ErrorView;
use crate::eval::eval;
use crate::grouping::all_places;
use crate::host::HostView;
use crate::order::Order;
use crate::sort::{
    all_sort_keys, directions, goes_before, keys_order, law_sorting_orders, law_sorting_rearranges,
    sort_keys, sorted_places, sorted_rows, totally_ordered,
};
use crate::types::ValueView;
use crate::window_laws::held;
use vstd::prelude::*;

verus! {

/// Whether all of some keys are integers or NULL.
pub open spec fn integers_or_null(k: Seq<ValueView>) -> bool {
    forall|i: int| 0 <= i < k.len() ==> #[trigger] k[i] is Null || held(k[i]) is Some
}

/// The order of two lists of keys from entry `i` on, NULLs last.
#[verifier::opaque]
spec fn order_from(a: Seq<ValueView>, b: Seq<ValueView>, asc: Seq<bool>, i: int) -> Order {
    keys_order(a, b, asc, true, i)
}

/// The first entry decides, if it differs.
proof fn lemma_step(a: Seq<ValueView>, b: Seq<ValueView>, asc: Seq<bool>, i: int)
    requires
        0 <= i < asc.len(),
        a.len() == asc.len(),
        b.len() == asc.len(),
        integers_or_null(a),
        integers_or_null(b),
    ensures
        order_from(a, b, asc, i) == match (held(a[i]), held(b[i])) {
            (None, Some(_)) => Order::Greater,
            (Some(_), None) => Order::Less,
            (None, None) => order_from(a, b, asc, i + 1),
            (Some(x), Some(y)) => if x == y {
                order_from(a, b, asc, i + 1)
            } else if (x < y) == asc[i] {
                Order::Less
            } else {
                Order::Greater
            },
        },
{
    reveal(order_from);
    assert(a[i] is Null || held(a[i]) is Some);
    assert(b[i] is Null || held(b[i]) is Some);
}

proof fn lemma_end(a: Seq<ValueView>, b: Seq<ValueView>, asc: Seq<bool>)
    ensures
        order_from(a, b, asc, asc.len() as int) == Order::Equal,
{
    reveal(order_from);
}

proof fn lemma_one_way(a: Seq<ValueView>, b: Seq<ValueView>, asc: Seq<bool>, i: int)
    requires
        0 <= i <= asc.len(),
        a.len() == asc.len(),
        b.len() == asc.len(),
        integers_or_null(a),
        integers_or_null(b),
        order_from(a, b, asc, i) == Order::Less,
    ensures
        order_from(b, a, asc, i) != Order::Less,
    decreases asc.len() - i,
{
    if i < asc.len() {
        lemma_step(a, b, asc, i);
        lemma_step(b, a, asc, i);
        if order_from(a, b, asc, i + 1) == Order::Less {
            lemma_one_way(a, b, asc, i + 1);
        }
    } else {
        lemma_end(a, b, asc);
    }
}

proof fn lemma_between(
    a: Seq<ValueView>,
    b: Seq<ValueView>,
    c: Seq<ValueView>,
    asc: Seq<bool>,
    i: int,
)
    requires
        0 <= i <= asc.len(),
        a.len() == asc.len(),
        b.len() == asc.len(),
        c.len() == asc.len(),
        integers_or_null(a),
        integers_or_null(b),
        integers_or_null(c),
        order_from(a, c, asc, i) == Order::Less,
    ensures
        order_from(a, b, asc, i) == Order::Less || order_from(b, c, asc, i) == Order::Less,
    decreases asc.len() - i,
{
    if i < asc.len() {
        lemma_step(a, b, asc, i);
        lemma_step(b, c, asc, i);
        lemma_step(a, c, asc, i);
        if order_from(a, c, asc, i + 1) == Order::Less {
            lemma_between(a, b, c, asc, i + 1);
        }
    } else {
        lemma_end(a, c, asc);
    }
}

/// Whether an entry of a key may stand before that of a later row: NULL stands behind every
/// integer, and integers grow, or fall where the order is descending.
pub open spec fn may_precede(a: ValueView, b: ValueView, ascending: bool) -> bool {
    match (held(a), held(b)) {
        (Some(x), Some(y)) => if ascending {
            x <= y
        } else {
            x >= y
        },
        (Some(_), None) => true,
        (None, Some(_)) => false,
        (None, None) => true,
    }
}

/// Whether two entries of keys are equal.
pub open spec fn same_entry(a: ValueView, b: ValueView) -> bool {
    held(a) == held(b)
}

proof fn lemma_entry(a: Seq<ValueView>, b: Seq<ValueView>, asc: Seq<bool>, i: int, n: int)
    requires
        0 <= i <= n < asc.len(),
        a.len() == asc.len(),
        b.len() == asc.len(),
        integers_or_null(a),
        integers_or_null(b),
        order_from(b, a, asc, i) != Order::Less,
        forall|k: int| 0 <= k < n ==> same_entry(#[trigger] a[k], b[k]),
    ensures
        may_precede(a[n], b[n], asc[n]),
    decreases n - i,
{
    lemma_step(b, a, asc, i);
    if i < n {
        assert(same_entry(a[i], b[i]));
        lemma_entry(a, b, asc, i + 1, n);
    }
}

proof fn lemma_sort_keys(
    order_by: Seq<OrderByItem>,
    i: int,
    acc: Seq<ValueView>,
    row: Seq<ValueView>,
    names: Seq<Seq<char>>,
    h: HostView,
)
    requires
        0 <= i <= order_by.len(),
        acc.len() == i,
        sort_keys(order_by, i, acc, row, names, h) is Ok,
        forall|k: int|
            0 <= k < i ==> eval((#[trigger] order_by[k]).expr, row, names, h) == Ok::<
                ValueView,
                ErrorView,
            >(acc[k]),
    ensures
        ({
            let keys = sort_keys(order_by, i, acc, row, names, h)->Ok_0;
            &&& keys.len() == order_by.len()
            &&& forall|k: int|
                0 <= k < order_by.len() ==> eval((#[trigger] order_by[k]).expr, row, names, h)
                    == Ok::<ValueView, ErrorView>(keys[k])
        }),
    decreases order_by.len() - i,
{
    if i < order_by.len() {
        let v = eval(order_by[i].expr, row, names, h)->Ok_0;
        lemma_sort_keys(order_by, i + 1, acc.push(v), row, names, h);
    }
}

/// Whether keys are those of rows.
spec fn keys_are(
    keys: Seq<Seq<ValueView>>,
    order_by: Seq<OrderByItem>,
    rows: Seq<Seq<ValueView>>,
    names: Seq<Seq<char>>,
    h: HostView,
) -> bool {
    forall|r: int, k: int|
        0 <= r < keys.len() && 0 <= k < order_by.len() ==> (#[trigger] keys[r]).len()
            == order_by.len() && eval((#[trigger] order_by[k]).expr, rows[r], names, h) == Ok::<
            ValueView,
            ErrorView,
        >(keys[r][k])
}

proof fn lemma_all_keys(
    order_by: Seq<OrderByItem>,
    rows: Seq<Seq<ValueView>>,
    i: int,
    acc: Seq<Seq<ValueView>>,
    names: Seq<Seq<char>>,
    h: HostView,
)
    requires
        0 <= i <= rows.len(),
        acc.len() == i,
        all_sort_keys(order_by, rows, i, acc, names, h) is Ok,
        keys_are(acc, order_by, rows, names, h),
        forall|r: int| 0 <= r < acc.len() ==> (#[trigger] acc[r]).len() == order_by.len(),
    ensures
        ({
            let keys = all_sort_keys(order_by, rows, i, acc, names, h)->Ok_0;
            &&& keys.len() == rows.len()
            &&& keys_are(keys, order_by, rows, names, h)
            &&& forall|r: int| 0 <= r < keys.len() ==> (#[trigger] keys[r]).len() == order_by.len()
        }),
    decreases rows.len() - i,
{
    if i < rows.len() {
        lemma_sort_keys(order_by, 0, Seq::empty(), rows[i], names, h);
        let k = sort_keys(order_by, 0, Seq::empty(), rows[i], names, h)->Ok_0;
        let next = acc.push(k);
        assert forall|r: int, n: int|
            0 <= r < next.len() && 0 <= n < order_by.len() implies (#[trigger] next[r]).len()
            == order_by.len() && eval((#[trigger] order_by[n]).expr, rows[r], names, h) == Ok::<
            ValueView,
            ErrorView,
        >(next[r][n]) by {
            if r < i {
                assert(next[r] == acc[r]);
            }
        }
        lemma_all_keys(order_by, rows, i + 1, next, names, h);
    }
}

/// ORDER BY gives the rows that are there, each once, in order: of two rows that agree in the
/// first keys, the one with the lesser next key stands first, or the one with the greater where
/// the order is descending; NULL stands behind all others. This holds of keys that are integers or
/// NULL.
pub proof fn law_order_by_orders(
    order_by: Seq<OrderByItem>,
    rows: Seq<Seq<ValueView>>,
    names: Seq<Seq<char>>,
    h: HostView,
) -> (places: Seq<usize>)
    requires
        rows.len() <= usize::MAX,
        sorted_rows(order_by, rows, names, h) is Ok,
        forall|r: int, k: int|
            0 <= r < rows.len() && 0 <= k < order_by.len() ==> (eval(
                (#[trigger] order_by[k]).expr,
                #[trigger] rows[r],
                names,
                h,
            ) matches Ok(v) && (v is Null || held(v) is Some)),
    ensures
        ({
            let out = sorted_rows(order_by, rows, names, h)->Ok_0;
            &&& out.len() == rows.len()
            &&& places.len() == rows.len()
            &&& places.no_duplicates()
            &&& forall|i: int|
                0 <= i < out.len() ==> places[i] < rows.len() && #[trigger] out[i]
                    == rows[places[i] as int]
            &&& forall|i: int, j: int, n: int|
                #![trigger out[i], out[j], order_by[n]]
                0 <= i < j < out.len() && 0 <= n < order_by.len() && agree(
                    order_by,
                    out[i],
                    out[j],
                    n,
                    names,
                    h,
                ) ==> may_precede(
                    eval(order_by[n].expr, out[i], names, h)->Ok_0,
                    eval(order_by[n].expr, out[j], names, h)->Ok_0,
                    order_by[n].ascending,
                )
        }),
{
    broadcast use vstd::seq_lib::group_to_multiset_ensures;

    let keys = all_sort_keys(order_by, rows, 0, Seq::empty(), names, h)->Ok_0;
    lemma_all_keys(order_by, rows, 0, Seq::empty(), names, h);
    let asc = directions(order_by);
    let idx = all_places(rows.len() as int);
    assert forall|r: int| 0 <= r < keys.len() implies integers_or_null(#[trigger] keys[r]) by {
        assert forall|k: int| 0 <= k < keys[r].len() implies #[trigger] keys[r][k] is Null || held(
            keys[r][k],
        ) is Some by {
            let e = order_by[k];
            let row = rows[r];
        }
    }
    assert(totally_ordered(keys, asc, true, idx)) by {
        reveal(totally_ordered);
        reveal(order_from);
        assert forall|a: usize, b: usize|
            idx.contains(a) && idx.contains(b) && #[trigger] goes_before(
                keys,
                asc,
                true,
                a,
                b,
            ) implies !goes_before(keys, asc, true, b, a) by {
            lemma_place(a, rows.len() as int);
            lemma_place(b, rows.len() as int);
            lemma_one_way(keys[a as int], keys[b as int], asc, 0);
        }
        assert forall|a: usize, b: usize, c: usize|
            idx.contains(a) && idx.contains(b) && idx.contains(c) && !#[trigger] goes_before(
                keys,
                asc,
                true,
                a,
                b,
            ) && !#[trigger] goes_before(keys, asc, true, b, c) implies !goes_before(
            keys,
            asc,
            true,
            a,
            c,
        ) by {
            lemma_place(a, rows.len() as int);
            lemma_place(b, rows.len() as int);
            lemma_place(c, rows.len() as int);
            if goes_before(keys, asc, true, a, c) {
                lemma_between(keys[a as int], keys[b as int], keys[c as int], asc, 0);
            }
        }
    }
    law_sorting_orders(keys, asc, true, idx);
    law_sorting_rearranges(keys, asc, true, idx);
    let s = sorted_places(keys, asc, true, idx);
    lemma_permuted(s, rows.len() as int);
    let out = sorted_rows(order_by, rows, names, h)->Ok_0;
    assert forall|i: int, j: int, n: int|
        #![trigger out[i], out[j], order_by[n]]
        0 <= i < j < out.len() && 0 <= n < order_by.len() && agree(
            order_by,
            out[i],
            out[j],
            n,
            names,
            h,
        ) implies may_precede(
        eval(order_by[n].expr, out[i], names, h)->Ok_0,
        eval(order_by[n].expr, out[j], names, h)->Ok_0,
        order_by[n].ascending,
    ) by {
        let a = s[i];
        let b = s[j];
        assert(!goes_before(keys, asc, true, s[j], s[i]));
        reveal(order_from);
        let ka = keys[a as int];
        let kb = keys[b as int];
        assert forall|k: int| 0 <= k < n implies same_entry(#[trigger] ka[k], kb[k]) by {
            let e = order_by[k];
            assert(out[i] == rows[a as int] && out[j] == rows[b as int]);
        }
        lemma_entry(ka, kb, asc, 0, n);
    }
    s
}

/// Whether two rows agree in the first `n` keys.
pub open spec fn agree(
    order_by: Seq<OrderByItem>,
    a: Seq<ValueView>,
    b: Seq<ValueView>,
    n: int,
    names: Seq<Seq<char>>,
    h: HostView,
) -> bool {
    forall|k: int|
        0 <= k < n ==> same_entry(
            eval((#[trigger] order_by[k]).expr, a, names, h)->Ok_0,
            eval(order_by[k].expr, b, names, h)->Ok_0,
        )
}

proof fn lemma_place(a: usize, n: int)
    requires
        0 <= n <= usize::MAX,
        all_places(n).contains(a),
    ensures
        a < n,
{
    let k = choose|k: int| 0 <= k < all_places(n).len() && all_places(n)[k] == a;
}

proof fn lemma_permuted(s: Seq<usize>, n: int)
    requires
        0 <= n <= usize::MAX,
        s.to_multiset() == all_places(n).to_multiset(),
    ensures
        s.no_duplicates(),
        forall|i: int| 0 <= i < s.len() ==> #[trigger] s[i] < n,
{
    broadcast use vstd::seq_lib::group_to_multiset_ensures;

    let idx = all_places(n);
    assert(idx.no_duplicates());
    idx.lemma_multiset_has_no_duplicates();
    assert forall|x: usize| s.to_multiset().contains(x) implies s.to_multiset().count(x) == 1 by {
        assert(idx.to_multiset().contains(x));
    }
    s.lemma_multiset_has_no_duplicates_conv();
    assert forall|i: int| 0 <= i < s.len() implies #[trigger] s[i] < n by {
        assert(s.contains(s[i]));
        assert(s.to_multiset().count(s[i]) > 0);
        assert(idx.to_multiset().count(s[i]) > 0);
        assert(idx.contains(s[i]));
        lemma_place(s[i], n);
    }
}

} // verus!
