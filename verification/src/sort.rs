//! Sorting of rows by keys.
use crate::ast::OrderByItem;
use crate::error::{outcome, ErrorView, Result};
use crate::eval::{eval, evaluate};
use crate::grouping::{all_places, every_place, within};
use crate::host::{Host, HostView};
use crate::order::Order;
use crate::schema::Schema;
use crate::types::{clone_row, Value, ValueView};
use vstd::prelude::*;

verus! {

/// The order of two key lists from entry `i` on. The first entries that differ decide, in
/// reverse where the order is descending. With `nulls_last`, NULL stands behind every other
/// value in either direction. Values that do not compare do not decide.
pub open spec fn keys_order(
    a: Seq<ValueView>,
    b: Seq<ValueView>,
    asc: Seq<bool>,
    nulls_last: bool,
    i: int,
) -> Order
    decreases asc.len() - i,
{
    if i < 0 || i >= asc.len() || i >= a.len() || i >= b.len() {
        Order::Equal
    } else if nulls_last && a[i].is_null() && !b[i].is_null() {
        Order::Greater
    } else if nulls_last && !a[i].is_null() && b[i].is_null() {
        Order::Less
    } else {
        match a[i].compare(b[i]) {
            None => keys_order(a, b, asc, nulls_last, i + 1),
            Some(o) => {
                let d = if asc[i] {
                    o
                } else {
                    o.reverse()
                };
                if d == Order::Equal {
                    keys_order(a, b, asc, nulls_last, i + 1)
                } else {
                    d
                }
            },
        }
    }
}

/// The order of two key lists.
pub fn order_keys(a: &Vec<Value>, b: &Vec<Value>, asc: &Vec<bool>, nulls_last: bool) -> (r: Order)
    ensures
        r == keys_order(a.deep_view(), b.deep_view(), asc@, nulls_last, 0),
{
    let ghost x = a.deep_view();
    let ghost y = b.deep_view();
    let mut i: usize = 0;
    while i < asc.len() && i < a.len() && i < b.len()
        invariant
            0 <= i <= asc.len(),
            x == a.deep_view(),
            y == b.deep_view(),
            keys_order(x, y, asc@, nulls_last, 0) == keys_order(x, y, asc@, nulls_last, i as int),
        decreases asc.len() - i,
    {
        assert(x[i as int] == a@[i as int]@ && y[i as int] == b@[i as int]@);
        if nulls_last {
            if a[i].is_null() && !b[i].is_null() {
                return Order::Greater;
            }
            if !a[i].is_null() && b[i].is_null() {
                return Order::Less;
            }
        }
        if let Some(o) = a[i].compare(&b[i]) {
            let d: Order = if asc[i] {
                o
            } else {
                o.reverse()
            };
            if d != Order::Equal {
                return d;
            }
        }
        i += 1;
    }
    Order::Equal
}

/// A place put into places that are sorted by their keys: behind the last one whose key is
/// not greater.
pub open spec fn inserted(
    keys: Seq<Seq<ValueView>>,
    asc: Seq<bool>,
    nulls_last: bool,
    s: Seq<usize>,
    x: usize,
) -> Seq<usize>
    decreases s.len(),
{
    if s.len() > 0 && keys_order(keys[x as int], keys[s.last() as int], asc, nulls_last, 0)
        == Order::Less {
        inserted(keys, asc, nulls_last, s.drop_last(), x).push(s.last())
    } else {
        s.push(x)
    }
}

/// Places sorted by their keys, those with equal keys in the order in which they stood.
pub open spec fn sorted_places(
    keys: Seq<Seq<ValueView>>,
    asc: Seq<bool>,
    nulls_last: bool,
    idx: Seq<usize>,
) -> Seq<usize>
    decreases idx.len(),
{
    if idx.len() == 0 {
        Seq::empty()
    } else {
        inserted(
            keys,
            asc,
            nulls_last,
            sorted_places(keys, asc, nulls_last, idx.drop_last()),
            idx.last(),
        )
    }
}

proof fn lemma_inserted(
    keys: Seq<Seq<ValueView>>,
    asc: Seq<bool>,
    nulls_last: bool,
    s: Seq<usize>,
    x: usize,
)
    ensures
        inserted(keys, asc, nulls_last, s, x).len() == s.len() + 1,
        inserted(keys, asc, nulls_last, s, x).to_multiset() == s.to_multiset().insert(x),
    decreases s.len(),
{
    broadcast use vstd::seq_lib::group_to_multiset_ensures;

    if s.len() > 0 && keys_order(keys[x as int], keys[s.last() as int], asc, nulls_last, 0)
        == Order::Less {
        lemma_inserted(keys, asc, nulls_last, s.drop_last(), x);
        let t = inserted(keys, asc, nulls_last, s.drop_last(), x);
        assert(s.drop_last().push(s.last()) =~= s);
        assert(t.push(s.last()).to_multiset() =~= s.to_multiset().insert(x));
    } else {
        assert(s.push(x).to_multiset() =~= s.to_multiset().insert(x));
    }
}

/// Sorting rearranges: nothing is lost and nothing is added.
pub proof fn law_sorting_rearranges(
    keys: Seq<Seq<ValueView>>,
    asc: Seq<bool>,
    nulls_last: bool,
    idx: Seq<usize>,
)
    ensures
        sorted_places(keys, asc, nulls_last, idx).len() == idx.len(),
        sorted_places(keys, asc, nulls_last, idx).to_multiset() == idx.to_multiset(),
    decreases idx.len(),
{
    broadcast use vstd::seq_lib::group_to_multiset_ensures;

    if idx.len() > 0 {
        let s = sorted_places(keys, asc, nulls_last, idx.drop_last());
        law_sorting_rearranges(keys, asc, nulls_last, idx.drop_last());
        lemma_inserted(keys, asc, nulls_last, s, idx.last());
        assert(idx.drop_last().push(idx.last()) =~= idx);
        assert(idx.to_multiset() =~= idx.drop_last().to_multiset().insert(idx.last()));
    }
}

/// Whether no key in the list stands before one that comes later than it.
pub open spec fn in_order(
    keys: Seq<Seq<ValueView>>,
    asc: Seq<bool>,
    nulls_last: bool,
    s: Seq<usize>,
) -> bool {
    forall|i: int, j: int|
        0 <= i < j < s.len() ==> !goes_before(
            keys,
            asc,
            nulls_last,
            #[trigger] s[j],
            #[trigger] s[i],
        )
}

/// Whether the key at one place is before that at another.
pub open spec fn goes_before(
    keys: Seq<Seq<ValueView>>,
    asc: Seq<bool>,
    nulls_last: bool,
    a: usize,
    b: usize,
) -> bool {
    keys_order(keys[a as int], keys[b as int], asc, nulls_last, 0) == Order::Less
}

/// Whether the keys at the given places are ordered totally: a key that is before another is
/// not behind it, and being not before is transitive.
#[verifier::opaque]
pub open spec fn totally_ordered(
    keys: Seq<Seq<ValueView>>,
    asc: Seq<bool>,
    nulls_last: bool,
    idx: Seq<usize>,
) -> bool {
    &&& forall|a: usize, b: usize|
        idx.contains(a) && idx.contains(b) && #[trigger] goes_before(keys, asc, nulls_last, a, b)
            ==> !goes_before(keys, asc, nulls_last, b, a)
    &&& forall|a: usize, b: usize, c: usize|
        idx.contains(a) && idx.contains(b) && idx.contains(c) && !#[trigger] goes_before(
            keys,
            asc,
            nulls_last,
            a,
            b,
        ) && !#[trigger] goes_before(keys, asc, nulls_last, b, c) ==> !goes_before(
            keys,
            asc,
            nulls_last,
            a,
            c,
        )
}

pub proof fn lemma_one_way(
    keys: Seq<Seq<ValueView>>,
    asc: Seq<bool>,
    nulls_last: bool,
    idx: Seq<usize>,
    a: usize,
    b: usize,
)
    requires
        totally_ordered(keys, asc, nulls_last, idx),
        idx.contains(a),
        idx.contains(b),
        goes_before(keys, asc, nulls_last, a, b),
    ensures
        !goes_before(keys, asc, nulls_last, b, a),
{
    reveal(totally_ordered);
}

pub proof fn lemma_not_before(
    keys: Seq<Seq<ValueView>>,
    asc: Seq<bool>,
    nulls_last: bool,
    idx: Seq<usize>,
    a: usize,
    b: usize,
    c: usize,
)
    requires
        totally_ordered(keys, asc, nulls_last, idx),
        idx.contains(a),
        idx.contains(b),
        idx.contains(c),
        !goes_before(keys, asc, nulls_last, a, b),
        !goes_before(keys, asc, nulls_last, b, c),
    ensures
        !goes_before(keys, asc, nulls_last, a, c),
{
    reveal(totally_ordered);
}

pub proof fn lemma_part_ordered(
    keys: Seq<Seq<ValueView>>,
    asc: Seq<bool>,
    nulls_last: bool,
    idx: Seq<usize>,
    part: Seq<usize>,
)
    requires
        totally_ordered(keys, asc, nulls_last, idx),
        forall|x: usize| #[trigger] part.contains(x) ==> idx.contains(x),
    ensures
        totally_ordered(keys, asc, nulls_last, part),
{
    reveal(totally_ordered);
}

proof fn lemma_insert_keeps_order(
    keys: Seq<Seq<ValueView>>,
    asc: Seq<bool>,
    nulls_last: bool,
    idx: Seq<usize>,
    s: Seq<usize>,
    x: usize,
)
    requires
        totally_ordered(keys, asc, nulls_last, idx),
        idx.contains(x),
        forall|i: int| 0 <= i < s.len() ==> idx.contains(#[trigger] s[i]),
        in_order(keys, asc, nulls_last, s),
    ensures
        in_order(keys, asc, nulls_last, inserted(keys, asc, nulls_last, s, x)),
        forall|i: int|
            0 <= i < inserted(keys, asc, nulls_last, s, x).len() ==> ({
                let e = #[trigger] inserted(keys, asc, nulls_last, s, x)[i];
                e == x || s.contains(e)
            }),
    decreases s.len(),
{
    let t = inserted(keys, asc, nulls_last, s, x);
    if s.len() > 0 && goes_before(keys, asc, nulls_last, x, s.last()) {
        let short = s.drop_last();
        assert forall|i: int| 0 <= i < short.len() implies idx.contains(#[trigger] short[i]) by {
            assert(short[i] == s[i]);
        }
        assert(in_order(keys, asc, nulls_last, short)) by {
            assert forall|i: int, j: int| 0 <= i < j < short.len() implies !goes_before(
                keys,
                asc,
                nulls_last,
                #[trigger] short[j],
                #[trigger] short[i],
            ) by {
                assert(short[i] == s[i] && short[j] == s[j]);
            }
        }
        lemma_insert_keeps_order(keys, asc, nulls_last, idx, short, x);
        let u = inserted(keys, asc, nulls_last, short, x);
        let last = s[s.len() - 1];
        assert(idx.contains(last));
        lemma_one_way(keys, asc, nulls_last, idx, x, last);
        assert forall|i: int| 0 <= i < t.len() implies #[trigger] t[i] == x || s.contains(t[i]) by {
            if i < u.len() {
                assert(t[i] == u[i]);
                if u[i] != x {
                    let m = choose|m: int| 0 <= m < short.len() && short[m] == u[i];
                    assert(s[m] == u[i]);
                }
            } else {
                assert(s[s.len() - 1] == t[i]);
            }
        }
        assert forall|i: int, j: int| 0 <= i < j < t.len() implies !goes_before(
            keys,
            asc,
            nulls_last,
            #[trigger] t[j],
            #[trigger] t[i],
        ) by {
            assert(t[i] == u[i]);
            if j < u.len() {
                assert(t[j] == u[j]);
            } else if u[i] != x {
                let m = choose|m: int| 0 <= m < short.len() && short[m] == u[i];
                assert(s[m] == u[i]);
                assert(!goes_before(keys, asc, nulls_last, s[s.len() - 1], s[m]));
            }
        }
    } else {
        assert(t =~= s.push(x));
        assert forall|i: int| 0 <= i < t.len() implies #[trigger] t[i] == x || s.contains(t[i]) by {
            if i < s.len() {
                assert(s[i] == t[i]);
            }
        }
        assert forall|i: int, j: int| 0 <= i < j < t.len() implies !goes_before(
            keys,
            asc,
            nulls_last,
            #[trigger] t[j],
            #[trigger] t[i],
        ) by {
            assert(t[i] == s[i]);
            if j < s.len() {
                assert(t[j] == s[j]);
            } else {
                let last = s[s.len() - 1];
                assert(idx.contains(last));
                if i < s.len() - 1 {
                    assert(!goes_before(keys, asc, nulls_last, last, s[i]));
                    lemma_not_before(keys, asc, nulls_last, idx, x, last, s[i]);
                }
            }
        }
    }
}

/// Where the keys are ordered totally, sorting puts them in order.
pub proof fn law_sorting_orders(
    keys: Seq<Seq<ValueView>>,
    asc: Seq<bool>,
    nulls_last: bool,
    idx: Seq<usize>,
)
    requires
        totally_ordered(keys, asc, nulls_last, idx),
    ensures
        in_order(keys, asc, nulls_last, sorted_places(keys, asc, nulls_last, idx)),
{
    lemma_sorted_prefix(keys, asc, nulls_last, idx, idx.len() as int);
    assert(idx.take(idx.len() as int) =~= idx);
}

proof fn lemma_sorted_prefix(
    keys: Seq<Seq<ValueView>>,
    asc: Seq<bool>,
    nulls_last: bool,
    idx: Seq<usize>,
    n: int,
)
    requires
        totally_ordered(keys, asc, nulls_last, idx),
        0 <= n <= idx.len(),
    ensures
        in_order(keys, asc, nulls_last, sorted_places(keys, asc, nulls_last, idx.take(n))),
        forall|i: int|
            0 <= i < sorted_places(keys, asc, nulls_last, idx.take(n)).len() ==> idx.contains(
                #[trigger] sorted_places(keys, asc, nulls_last, idx.take(n))[i],
            ),
    decreases n,
{
    if n > 0 {
        let part = idx.take(n);
        assert(part.drop_last() =~= idx.take(n - 1));
        assert(part.last() == idx[n - 1]);
        lemma_sorted_prefix(keys, asc, nulls_last, idx, n - 1);
        let s = sorted_places(keys, asc, nulls_last, idx.take(n - 1));
        lemma_insert_keeps_order(keys, asc, nulls_last, idx, s, part.last());
        let t = sorted_places(keys, asc, nulls_last, part);
        assert forall|i: int| 0 <= i < t.len() implies idx.contains(#[trigger] t[i]) by {
            if t[i] != part.last() {
                let m = choose|m: int| 0 <= m < s.len() && s[m] == t[i];
                assert(idx.contains(s[m]));
            }
        }
    }
}

pub proof fn lemma_sorted_within(
    keys: Seq<Seq<ValueView>>,
    asc: Seq<bool>,
    nulls_last: bool,
    idx: Seq<usize>,
    n: int,
)
    requires
        within(idx, n),
    ensures
        within(sorted_places(keys, asc, nulls_last, idx), n),
    decreases idx.len(),
{
    if idx.len() > 0 {
        let short = idx.drop_last();
        assert(within(short, n)) by {
            assert forall|k: int| 0 <= k < short.len() implies #[trigger] short[k] < n by {
                assert(short[k] == idx[k]);
            }
        }
        lemma_sorted_within(keys, asc, nulls_last, short, n);
        assert(idx[idx.len() - 1] < n);
        lemma_inserted_within(
            keys,
            asc,
            nulls_last,
            sorted_places(keys, asc, nulls_last, short),
            idx.last(),
            n,
        );
    }
}

proof fn lemma_inserted_within(
    keys: Seq<Seq<ValueView>>,
    asc: Seq<bool>,
    nulls_last: bool,
    s: Seq<usize>,
    x: usize,
    n: int,
)
    requires
        within(s, n),
        x < n,
    ensures
        within(inserted(keys, asc, nulls_last, s, x), n),
    decreases s.len(),
{
    if s.len() > 0 && keys_order(keys[x as int], keys[s.last() as int], asc, nulls_last, 0)
        == Order::Less {
        let short = s.drop_last();
        assert forall|k: int| 0 <= k < short.len() implies #[trigger] short[k] < n by {
            assert(short[k] == s[k]);
        }
        lemma_inserted_within(keys, asc, nulls_last, short, x, n);
        assert(s[s.len() - 1] < n);
    }
}

/// Sorts places by their keys.
pub fn sort_places(
    keys: &Vec<Vec<Value>>,
    asc: &Vec<bool>,
    nulls_last: bool,
    idx: &Vec<usize>,
) -> (r: Vec<usize>)
    requires
        within(idx@, keys.len() as int),
    ensures
        r@ == sorted_places(keys.deep_view(), asc@, nulls_last, idx@),
        r.len() == idx.len(),
        within(r@, keys.len() as int),
{
    let ghost kv = keys.deep_view();
    let mut out: Vec<usize> = Vec::new();
    let mut i: usize = 0;
    assert(idx@.take(0).len() == 0);
    while i < idx.len()
        invariant
            0 <= i <= idx.len(),
            kv == keys.deep_view(),
            within(idx@, keys.len() as int),
            within(out@, keys.len() as int),
            out@ == sorted_places(kv, asc@, nulls_last, idx@.take(i as int)),
        decreases idx.len() - i,
    {
        let x: usize = idx[i];
        let ghost s = out@;
        let mut j: usize = out.len();
        assert(s.take(s.len() as int) == s);
        while j > 0 && order_keys(&keys[x], &keys[out[j - 1]], asc, nulls_last) == Order::Less
            invariant
                0 <= j <= out.len(),
                out@ == s,
                x < keys.len(),
                kv == keys.deep_view(),
                within(s, keys.len() as int),
                inserted(kv, asc@, nulls_last, s, x) == inserted(
                    kv,
                    asc@,
                    nulls_last,
                    s.take(j as int),
                    x,
                ) + s.skip(j as int),
            decreases j,
        {
            proof {
                let t = s.take(j as int);
                assert(t.drop_last() =~= s.take(j - 1));
                assert(t.last() == s[j - 1]);
                assert(kv[x as int] == keys@[x as int].deep_view());
                assert(kv[s[j - 1] as int] == keys@[s[j - 1] as int].deep_view());
                assert(inserted(kv, asc@, nulls_last, s.take(j - 1), x).push(s[j - 1]) + s.skip(
                    j as int,
                ) =~= inserted(kv, asc@, nulls_last, s.take(j - 1), x) + s.skip(j - 1));
            }
            j -= 1;
        }
        proof {
            let t = s.take(j as int);
            if j > 0 {
                assert(t.last() == s[j - 1]);
                assert(kv[x as int] == keys@[x as int].deep_view());
                assert(kv[s[j - 1] as int] == keys@[s[j - 1] as int].deep_view());
            }
            assert(inserted(kv, asc@, nulls_last, t, x) == t.push(x));
            assert(s.insert(j as int, x) =~= t.push(x) + s.skip(j as int));
            assert(idx@.take(i + 1).drop_last() =~= idx@.take(i as int));
            assert(idx@.take(i + 1).last() == x);
            lemma_inserted_within(kv, asc@, nulls_last, s, x, keys.len() as int);
        }
        out.insert(j, x);
        i += 1;
    }
    proof {
        assert(idx@.take(idx.len() as int) =~= idx@);
        law_sorting_rearranges(kv, asc@, nulls_last, idx@);
    }
    out
}

// ---------------------------------------------------------------------------
// ORDER BY
// ---------------------------------------------------------------------------

/// The directions of the keys of an ORDER BY clause.
pub open spec fn directions(order_by: Seq<OrderByItem>) -> Seq<bool> {
    Seq::new(order_by.len(), |i: int| order_by[i].ascending)
}

/// The directions of the keys of an ORDER BY clause.
pub fn sort_directions(order_by: &[OrderByItem]) -> (r: Vec<bool>)
    ensures
        r@ == directions(order_by@),
{
    let mut out: Vec<bool> = Vec::new();
    let mut i: usize = 0;
    while i < order_by.len()
        invariant
            0 <= i <= order_by.len(),
            out@ == directions(order_by@).take(i as int),
        decreases order_by.len() - i,
    {
        out.push(order_by[i].ascending);
        assert(out@ =~= directions(order_by@).take(i + 1));
        i += 1;
    }
    assert(directions(order_by@).take(order_by.len() as int) =~= directions(order_by@));
    out
}

/// The sort keys of a row from entry `i` on, behind `acc`.
pub open spec fn sort_keys(
    order_by: Seq<OrderByItem>,
    i: int,
    acc: Seq<ValueView>,
    row: Seq<ValueView>,
    names: Seq<Seq<char>>,
    h: HostView,
) -> std::result::Result<Seq<ValueView>, ErrorView>
    decreases order_by.len() - i,
{
    if i < 0 || i >= order_by.len() {
        Ok(acc)
    } else {
        match eval(order_by[i].expr, row, names, h) {
            Err(e) => Err(e),
            Ok(v) => sort_keys(order_by, i + 1, acc.push(v), row, names, h),
        }
    }
}

/// The sort keys of a row.
pub fn compute_sort_keys(order_by: &[OrderByItem], row: &[Value], schema: &Schema, host: &Host) -> (r:
    Result<Vec<Value>>)
    ensures
        outcome(r) == sort_keys(
            order_by@,
            0,
            Seq::empty(),
            row.deep_view(),
            schema.names(),
            host@,
        ),
{
    let mut keys: Vec<Value> = Vec::new();
    let mut i: usize = 0;
    assert(keys.deep_view() =~= Seq::<ValueView>::empty());
    while i < order_by.len()
        invariant
            0 <= i <= order_by.len(),
            sort_keys(order_by@, 0, Seq::empty(), row.deep_view(), schema.names(), host@)
                == sort_keys(
                order_by@,
                i as int,
                keys.deep_view(),
                row.deep_view(),
                schema.names(),
                host@,
            ),
        decreases order_by.len() - i,
    {
        let v = evaluate(&order_by[i].expr, row, schema, host)?;
        let ghost before = keys.deep_view();
        keys.push(v);
        assert(keys.deep_view() =~= before.push(v@));
        i += 1;
    }
    Ok(keys)
}

/// The sort keys of the rows from `i` on, behind `acc`.
pub open spec fn all_sort_keys(
    order_by: Seq<OrderByItem>,
    rows: Seq<Seq<ValueView>>,
    i: int,
    acc: Seq<Seq<ValueView>>,
    names: Seq<Seq<char>>,
    h: HostView,
) -> std::result::Result<Seq<Seq<ValueView>>, ErrorView>
    decreases rows.len() - i,
{
    if i < 0 || i >= rows.len() {
        Ok(acc)
    } else {
        match sort_keys(order_by, 0, Seq::empty(), rows[i], names, h) {
            Err(e) => Err(e),
            Ok(k) => all_sort_keys(order_by, rows, i + 1, acc.push(k), names, h),
        }
    }
}

/// The sort keys of all rows.
pub fn compute_all_sort_keys(
    order_by: &[OrderByItem],
    rows: &Vec<Vec<Value>>,
    schema: &Schema,
    host: &Host,
) -> (r: Result<Vec<Vec<Value>>>)
    ensures
        outcome(r) == all_sort_keys(
            order_by@,
            rows.deep_view(),
            0,
            Seq::empty(),
            schema.names(),
            host@,
        ),
        r matches Ok(k) ==> k.len() == rows.len(),
{
    let ghost view = rows.deep_view();
    let mut out: Vec<Vec<Value>> = Vec::new();
    let mut i: usize = 0;
    assert(out.deep_view() =~= Seq::<Seq<ValueView>>::empty());
    while i < rows.len()
        invariant
            0 <= i <= rows.len(),
            out.len() == i,
            view == rows.deep_view(),
            all_sort_keys(order_by@, view, 0, Seq::empty(), schema.names(), host@)
                == all_sort_keys(
                order_by@,
                view,
                i as int,
                out.deep_view(),
                schema.names(),
                host@,
            ),
        decreases rows.len() - i,
    {
        assert(view[i as int] == rows@[i as int].deep_view());
        let k = compute_sort_keys(order_by, rows[i].as_slice(), schema, host)?;
        let ghost before = out.deep_view();
        let ghost kv = k.deep_view();
        out.push(k);
        assert(out.deep_view() =~= before.push(kv));
        i += 1;
    }
    Ok(out)
}

/// The rows that stand at the given places.
pub open spec fn rows_at(rows: Seq<Seq<ValueView>>, idx: Seq<usize>) -> Seq<Seq<ValueView>> {
    Seq::new(idx.len(), |k: int| rows[idx[k] as int])
}

/// The rows sorted by an ORDER BY clause: NULL last, equal keys in the order they stood in.
pub open spec fn sorted_rows(
    order_by: Seq<OrderByItem>,
    rows: Seq<Seq<ValueView>>,
    names: Seq<Seq<char>>,
    h: HostView,
) -> std::result::Result<Seq<Seq<ValueView>>, ErrorView> {
    match all_sort_keys(order_by, rows, 0, Seq::empty(), names, h) {
        Err(e) => Err(e),
        Ok(keys) => Ok(
            rows_at(
                rows,
                sorted_places(keys, directions(order_by), true, all_places(rows.len() as int)),
            ),
        ),
    }
}

/// Copies the rows at the given places.
pub fn take_rows(rows: &Vec<Vec<Value>>, idx: &Vec<usize>) -> (r: Vec<Vec<Value>>)
    requires
        within(idx@, rows.len() as int),
    ensures
        r.deep_view() == rows_at(rows.deep_view(), idx@),
{
    let mut out: Vec<Vec<Value>> = Vec::new();
    let mut i: usize = 0;
    while i < idx.len()
        invariant
            0 <= i <= idx.len(),
            within(idx@, rows.len() as int),
            out.deep_view() == rows_at(rows.deep_view(), idx@).take(i as int),
        decreases idx.len() - i,
    {
        let k: usize = idx[i];
        let row = clone_row(rows[k].as_slice());
        let ghost before = out.deep_view();
        let ghost rv = row.deep_view();
        out.push(row);
        assert(out.deep_view() =~= before.push(rv));
        assert(rows_at(rows.deep_view(), idx@).take(i + 1) =~= before.push(rv));
        i += 1;
    }
    assert(rows_at(rows.deep_view(), idx@).take(idx.len() as int) =~= rows_at(
        rows.deep_view(),
        idx@,
    ));
    out
}

/// Sorts rows by an ORDER BY clause.
pub fn execute_sort(order_by: &[OrderByItem], rows: &mut Vec<Vec<Value>>, schema: &Schema, host: &Host) -> (r:
    Result<()>)
    ensures
        match r {
            Ok(_) => sorted_rows(order_by@, old(rows).deep_view(), schema.names(), host@) == Ok::<
                Seq<Seq<ValueView>>,
                ErrorView,
            >(final(rows).deep_view()),
            Err(e) => sorted_rows(order_by@, old(rows).deep_view(), schema.names(), host@) == Err::<
                Seq<Seq<ValueView>>,
                ErrorView,
            >(e@) && final(rows).deep_view() == old(rows).deep_view(),
        },
{
    let keys = compute_all_sort_keys(order_by, rows, schema, host)?;
    let asc = sort_directions(order_by);
    let idx = every_place(rows.len());
    let sorted = sort_places(&keys, &asc, true, &idx);
    let out = take_rows(rows, &sorted);
    *rows = out;
    Ok(())
}

} // verus!
