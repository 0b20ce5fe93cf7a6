//! External merge sort for large result sets.
//!
//! When the number of rows exceeds `SORT_MEMORY_LIMIT`, the rows are split into runs that
//! are sorted one by one and then merged: the least of the runs' first remaining rows comes
//! out next.
use crate::ast::OrderByItem;
use crate::error::{ErrorView, Result};
use crate::grouping::within;
use crate::host::{Host, HostView};
use crate::order::Order;
use crate::schema::Schema;
use crate::sort::{
    all_sort_keys, compute_all_sort_keys, directions, execute_sort, goes_before, in_order,
    keys_order, law_sorting_orders, law_sorting_rearranges, lemma_not_before, lemma_one_way,
    lemma_part_ordered, lemma_sorted_within, order_keys, rows_at, sort_directions, sort_places,
    sorted_places, sorted_rows, take_rows, totally_ordered,
};
use crate::types::{Value, ValueView};
use vstd::prelude::*;

verus! {

/// Maximum number of rows to sort in memory before spilling.
pub const SORT_MEMORY_LIMIT: usize = 10_000;

/// The places from `from` up to `to`, in order.
pub open spec fn span(from: int, to: int) -> Seq<usize> {
    Seq::new((to - from) as nat, |i: int| (from + i) as usize)
}

/// The smaller of two integers.
pub open spec fn min(a: int, b: int) -> int {
    if a < b {
        a
    } else {
        b
    }
}

/// The sorted runs of the rows from `from` on, `limit` rows each.
pub open spec fn runs_from(
    keys: Seq<Seq<ValueView>>,
    asc: Seq<bool>,
    limit: int,
    from: int,
) -> Seq<Seq<usize>>
    decreases keys.len() - from,
{
    if limit <= 0 || from < 0 || from >= keys.len() {
        Seq::empty()
    } else {
        let to = min(from + limit, keys.len() as int);
        seq![sorted_places(keys, asc, true, span(from, to))] + runs_from(keys, asc, limit, to)
    }
}

/// The run, among those from `r` on and `best`, whose first remaining row is least; the
/// earlier one, where two are equal.
pub open spec fn least_from(
    keys: Seq<Seq<ValueView>>,
    asc: Seq<bool>,
    runs: Seq<Seq<usize>>,
    r: int,
    best: Option<int>,
) -> Option<int>
    decreases runs.len() - r,
{
    if r < 0 || r >= runs.len() {
        best
    } else {
        let next = if runs[r].len() == 0 {
            best
        } else {
            match best {
                None => Some(r),
                Some(b) => if keys_order(
                    keys[runs[r][0] as int],
                    keys[runs[b][0] as int],
                    asc,
                    true,
                    0,
                ) == Order::Less {
                    Some(r)
                } else {
                    best
                },
            }
        };
        least_from(keys, asc, runs, r + 1, next)
    }
}

/// How many places the runs hold together.
pub open spec fn total(runs: Seq<Seq<usize>>) -> nat
    decreases runs.len(),
{
    if runs.len() == 0 {
        0
    } else {
        total(runs.drop_last()) + runs.last().len()
    }
}

/// The places of all runs, as a collection without order.
pub open spec fn contents(runs: Seq<Seq<usize>>) -> vstd::multiset::Multiset<usize>
    decreases runs.len(),
{
    if runs.len() == 0 {
        vstd::multiset::Multiset::empty()
    } else {
        contents(runs.drop_last()).add(runs.last().to_multiset())
    }
}

/// The runs merged, behind `acc`: the least first row comes out first.
pub open spec fn merged(
    keys: Seq<Seq<ValueView>>,
    asc: Seq<bool>,
    runs: Seq<Seq<usize>>,
    acc: Seq<usize>,
) -> Seq<usize>
    decreases total(runs),
    via merged_decreases
{
    match least_from(keys, asc, runs, 0, None) {
        None => acc,
        Some(r) => merged(keys, asc, runs.update(r, runs[r].skip(1)), acc.push(runs[r][0])),
    }
}

#[via_fn]
proof fn merged_decreases(
    keys: Seq<Seq<ValueView>>,
    asc: Seq<bool>,
    runs: Seq<Seq<usize>>,
    acc: Seq<usize>,
) {
    match least_from(keys, asc, runs, 0, None) {
        None => {},
        Some(r) => {
            lemma_least(keys, asc, runs, 0, None);
            lemma_total_update(runs, r);
        },
    }
}

proof fn lemma_least(
    keys: Seq<Seq<ValueView>>,
    asc: Seq<bool>,
    runs: Seq<Seq<usize>>,
    r: int,
    best: Option<int>,
)
    requires
        0 <= r <= runs.len(),
        best matches Some(b) ==> 0 <= b < r && runs[b].len() > 0,
    ensures
        least_from(keys, asc, runs, r, best) matches Some(b) ==> 0 <= b < runs.len()
            && runs[b].len() > 0,
        least_from(keys, asc, runs, r, best) is None ==> best is None && forall|k: int|
            r <= k < runs.len() ==> (#[trigger] runs[k]).len() == 0,
    decreases runs.len() - r,
{
    if r < runs.len() {
        let next = if runs[r].len() == 0 {
            best
        } else {
            match best {
                None => Some(r),
                Some(b) => if keys_order(
                    keys[runs[r][0] as int],
                    keys[runs[b][0] as int],
                    asc,
                    true,
                    0,
                ) == Order::Less {
                    Some(r)
                } else {
                    best
                },
            }
        };
        lemma_least(keys, asc, runs, r + 1, next);
    }
}

proof fn lemma_total_update(runs: Seq<Seq<usize>>, r: int)
    requires
        0 <= r < runs.len(),
        runs[r].len() > 0,
    ensures
        total(runs.update(r, runs[r].skip(1))) + 1 == total(runs),
    decreases runs.len(),
{
    let u = runs.update(r, runs[r].skip(1));
    if r == runs.len() - 1 {
        assert(u.drop_last() =~= runs.drop_last());
    } else {
        lemma_total_update(runs.drop_last(), r);
        assert(u.drop_last() =~= runs.drop_last().update(r, runs[r].skip(1)));
    }
}

fn least_run(keys: &Vec<Vec<Value>>, asc: &Vec<bool>, runs: &Vec<Vec<usize>>, pos: &Vec<usize>) -> (r:
    Option<usize>)
    requires
        pos.len() == runs.len(),
        forall|k: int| 0 <= k < runs.len() ==> #[trigger] pos@[k] <= runs@[k].len(),
        forall|k: int| 0 <= k < runs.len() ==> within((#[trigger] runs@[k])@, keys.len() as int),
    ensures
        match r {
            None => least_from(keys.deep_view(), asc@, left(runs@, pos@), 0, None) is None,
            Some(b) => least_from(keys.deep_view(), asc@, left(runs@, pos@), 0, None) == Some(
                b as int,
            ) && b < runs.len() && pos@[b as int] < runs@[b as int].len(),
        },
{
    let ghost kv = keys.deep_view();
    let ghost rest = left(runs@, pos@);
    let mut best: Option<usize> = None;
    let mut r: usize = 0;
    while r < runs.len()
        invariant
            0 <= r <= runs.len(),
            kv == keys.deep_view(),
            rest == left(runs@, pos@),
            pos.len() == runs.len(),
            forall|k: int| 0 <= k < runs.len() ==> #[trigger] pos@[k] <= runs@[k].len(),
            forall|k: int|
                0 <= k < runs.len() ==> within((#[trigger] runs@[k])@, keys.len() as int),
            best matches Some(b) ==> b < r && pos@[b as int] < runs@[b as int].len(),
            least_from(kv, asc@, rest, 0, None) == least_from(
                kv,
                asc@,
                rest,
                r as int,
                match best {
                    Some(b) => Some(b as int),
                    None => None,
                },
            ),
        decreases runs.len() - r,
    {
        assert(pos@[r as int] <= runs@[r as int].len());
        assert(rest[r as int] == runs@[r as int]@.skip(pos@[r as int] as int));
        if pos[r] < runs[r].len() {
            match best {
                None => {
                    best = Some(r);
                },
                Some(b) => {
                    let x: usize = runs[r][pos[r]];
                    let y: usize = runs[b][pos[b]];
                    assert(rest[b as int] == runs@[b as int]@.skip(pos@[b as int] as int));
                    assert(within(runs@[r as int]@, keys.len() as int));
                    assert(within(runs@[b as int]@, keys.len() as int));
                    assert(kv[x as int] == keys@[x as int].deep_view());
                    assert(kv[y as int] == keys@[y as int].deep_view());
                    if order_keys(&keys[x], &keys[y], asc, true) == Order::Less {
                        best = Some(r);
                    }
                },
            }
        }
        r += 1;
    }
    best
}

/// What is left of runs of which `pos` places are taken.
pub open spec fn left(runs: Seq<Vec<usize>>, pos: Seq<usize>) -> Seq<Seq<usize>> {
    Seq::new(runs.len(), |k: int| runs[k]@.skip(pos[k] as int))
}

fn merge_runs(keys: &Vec<Vec<Value>>, asc: &Vec<bool>, runs: &Vec<Vec<usize>>) -> (r: Vec<usize>)
    requires
        forall|k: int| 0 <= k < runs.len() ==> within((#[trigger] runs@[k])@, keys.len() as int),
    ensures
        r@ == merged(keys.deep_view(), asc@, runs.deep_view(), Seq::empty()),
        within(r@, keys.len() as int),
{
    let ghost kv = keys.deep_view();
    let mut pos: Vec<usize> = Vec::new();
    let mut k: usize = 0;
    while k < runs.len()
        invariant
            0 <= k <= runs.len(),
            pos.len() == k,
            forall|i: int| 0 <= i < k ==> #[trigger] pos@[i] == 0,
        decreases runs.len() - k,
    {
        pos.push(0);
        k += 1;
    }
    assert(left(runs@, pos@) =~= runs.deep_view()) by {
        assert forall|i: int| 0 <= i < runs.len() implies left(runs@, pos@)[i]
            == runs.deep_view()[i] by {
            assert(pos@[i] == 0);
            assert(runs.deep_view()[i] =~= runs@[i]@);
            assert(runs@[i]@.skip(0) =~= runs@[i]@);
        }
    }
    let mut out: Vec<usize> = Vec::new();
    loop
        invariant
            kv == keys.deep_view(),
            pos.len() == runs.len(),
            forall|i: int| 0 <= i < runs.len() ==> #[trigger] pos@[i] <= runs@[i].len(),
            forall|i: int|
                0 <= i < runs.len() ==> within((#[trigger] runs@[i])@, keys.len() as int),
            within(out@, keys.len() as int),
            merged(kv, asc@, runs.deep_view(), Seq::empty()) == merged(
                kv,
                asc@,
                left(runs@, pos@),
                out@,
            ),
        decreases total(left(runs@, pos@)),
    {
        match least_run(keys, asc, runs, &pos) {
            None => {
                return out;
            },
            Some(r) => {
                let ghost rest = left(runs@, pos@);
                let p: usize = pos[r];
                let x: usize = runs[r][p];
                assert(within(runs@[r as int]@, keys.len() as int));
                proof {
                    assert(rest[r as int] == runs@[r as int]@.skip(p as int));
                    lemma_total_update(rest, r as int);
                }
                out.push(x);
                pos.set(r, p + 1);
                assert(left(runs@, pos@) =~= rest.update(r as int, rest[r as int].skip(1))) by {
                    assert(runs@[r as int]@.skip(p as int).skip(1) =~= runs@[r as int]@.skip(
                        p + 1,
                    ));
                }
            },
        }
    }
}

/// The rows in the order of an external sort.
pub open spec fn externally_sorted(
    order_by: Seq<OrderByItem>,
    rows: Seq<Seq<ValueView>>,
    names: Seq<Seq<char>>,
    h: HostView,
) -> std::result::Result<Seq<Seq<ValueView>>, ErrorView> {
    if rows.len() <= SORT_MEMORY_LIMIT {
        sorted_rows(order_by, rows, names, h)
    } else {
        match all_sort_keys(order_by, rows, 0, Seq::empty(), names, h) {
            Err(e) => Err(e),
            Ok(keys) => {
                let asc = directions(order_by);
                let runs = runs_from(keys, asc, SORT_MEMORY_LIMIT as int, 0);
                Ok(rows_at(rows, merged(keys, asc, runs, Seq::empty())))
            },
        }
    }
}

fn make_runs(keys: &Vec<Vec<Value>>, asc: &Vec<bool>) -> (r: Vec<Vec<usize>>)
    ensures
        r.deep_view() == runs_from(keys.deep_view(), asc@, SORT_MEMORY_LIMIT as int, 0),
        forall|k: int| 0 <= k < r.len() ==> within((#[trigger] r@[k])@, keys.len() as int),
{
    let ghost kv = keys.deep_view();
    let mut out: Vec<Vec<usize>> = Vec::new();
    let mut from: usize = 0;
    assert(out.deep_view() + runs_from(kv, asc@, SORT_MEMORY_LIMIT as int, 0) =~= runs_from(
        kv,
        asc@,
        SORT_MEMORY_LIMIT as int,
        0,
    ));
    while from < keys.len()
        invariant
            0 <= from <= keys.len(),
            kv == keys.deep_view(),
            out.deep_view() + runs_from(kv, asc@, SORT_MEMORY_LIMIT as int, from as int)
                == runs_from(kv, asc@, SORT_MEMORY_LIMIT as int, 0),
            forall|k: int|
                0 <= k < out.len() ==> within((#[trigger] out@[k])@, keys.len() as int),
        decreases keys.len() - from,
    {
        let to: usize = if keys.len() - from < SORT_MEMORY_LIMIT {
            keys.len()
        } else {
            from + SORT_MEMORY_LIMIT
        };
        let mut idx: Vec<usize> = Vec::new();
        let mut i: usize = from;
        while i < to
            invariant
                from <= i <= to <= keys.len(),
                idx@ == span(from as int, i as int),
            decreases to - i,
        {
            idx.push(i);
            assert(idx@ =~= span(from as int, i + 1));
            i += 1;
        }
        let run = sort_places(keys, asc, true, &idx);
        let ghost before = out.deep_view();
        let ghost rv = run@;
        assert(run.deep_view() =~= rv);
        out.push(run);
        assert(out.deep_view() =~= before.push(rv));
        assert(before.push(rv) + runs_from(kv, asc@, SORT_MEMORY_LIMIT as int, to as int) =~= before
            + (seq![rv] + runs_from(kv, asc@, SORT_MEMORY_LIMIT as int, to as int)));
        from = to;
    }
    assert(out.deep_view() + runs_from(kv, asc@, SORT_MEMORY_LIMIT as int, from as int)
        =~= out.deep_view());
    out
}

/// Perform an external merge sort on the given rows.
///
/// 1. Split input into chunks of `SORT_MEMORY_LIMIT` rows
/// 2. Sort each chunk
/// 3. Streaming k-way merge: take one row at a time from the run whose first row is least
pub fn external_sort(
    order_by: &[OrderByItem],
    rows: &mut Vec<Vec<Value>>,
    schema: &Schema,
    host: &Host,
) -> (r: Result<()>)
    ensures
        match r {
            Ok(_) => externally_sorted(order_by@, old(rows).deep_view(), schema.names(), host@)
                == Ok::<Seq<Seq<ValueView>>, ErrorView>(final(rows).deep_view()),
            Err(e) => externally_sorted(order_by@, old(rows).deep_view(), schema.names(), host@)
                == Err::<Seq<Seq<ValueView>>, ErrorView>(e@) && final(rows).deep_view() == old(
                rows,
            ).deep_view(),
        },
{
    if rows.len() <= SORT_MEMORY_LIMIT {
        return execute_sort(order_by, rows, schema, host);
    }
    let keys = compute_all_sort_keys(order_by, rows, schema, host)?;
    let asc = sort_directions(order_by);
    let runs = make_runs(&keys, &asc);
    let order = merge_runs(&keys, &asc, &runs);
    let out = take_rows(rows, &order);
    *rows = out;
    Ok(())
}

// ---------------------------------------------------------------------------
// Laws
// ---------------------------------------------------------------------------

proof fn lemma_contents_update(runs: Seq<Seq<usize>>, r: int)
    requires
        0 <= r < runs.len(),
        runs[r].len() > 0,
    ensures
        contents(runs.update(r, runs[r].skip(1))).insert(runs[r][0]) == contents(runs),
    decreases runs.len(),
{
    broadcast use vstd::seq_lib::group_to_multiset_ensures;

    let u = runs.update(r, runs[r].skip(1));
    let head = runs[r][0];
    assert(seq![head] + runs[r].skip(1) =~= runs[r]);
    vstd::seq_lib::lemma_multiset_commutative(seq![head], runs[r].skip(1));
    assert(seq![head].to_multiset() =~= vstd::multiset::Multiset::<usize>::empty().insert(head)) by {
        assert(seq![head] =~= Seq::<usize>::empty().push(head));
    }
    if r == runs.len() - 1 {
        assert(u.drop_last() =~= runs.drop_last());
        assert(contents(u).insert(head) =~= contents(runs));
    } else {
        lemma_contents_update(runs.drop_last(), r);
        assert(u.drop_last() =~= runs.drop_last().update(r, runs[r].skip(1)));
        assert(contents(u).insert(head) =~= contents(runs));
    }
}

proof fn lemma_contents_empty(runs: Seq<Seq<usize>>)
    requires
        forall|k: int| 0 <= k < runs.len() ==> (#[trigger] runs[k]).len() == 0,
    ensures
        contents(runs) == vstd::multiset::Multiset::<usize>::empty(),
    decreases runs.len(),
{
    broadcast use vstd::seq_lib::group_to_multiset_ensures;

    if runs.len() > 0 {
        let short = runs.drop_last();
        assert forall|k: int| 0 <= k < short.len() implies (#[trigger] short[k]).len() == 0 by {
            assert(short[k] == runs[k]);
        }
        lemma_contents_empty(short);
        assert(runs[runs.len() - 1].len() == 0);
        assert(runs.last() =~= Seq::<usize>::empty());
        assert(contents(runs) =~= vstd::multiset::Multiset::<usize>::empty());
    }
}

proof fn lemma_merged_contents(
    keys: Seq<Seq<ValueView>>,
    asc: Seq<bool>,
    runs: Seq<Seq<usize>>,
    acc: Seq<usize>,
)
    ensures
        merged(keys, asc, runs, acc).to_multiset() == acc.to_multiset().add(contents(runs)),
    decreases total(runs),
{
    broadcast use vstd::seq_lib::group_to_multiset_ensures;

    lemma_least(keys, asc, runs, 0, None);
    match least_from(keys, asc, runs, 0, None) {
        None => {
            lemma_contents_empty(runs);
            assert(acc.to_multiset().add(contents(runs)) =~= acc.to_multiset());
        },
        Some(r) => {
            let u = runs.update(r, runs[r].skip(1));
            lemma_total_update(runs, r);
            lemma_merged_contents(keys, asc, u, acc.push(runs[r][0]));
            lemma_contents_update(runs, r);
            assert(acc.push(runs[r][0]).to_multiset().add(contents(u)) =~= acc.to_multiset().add(
                contents(runs),
            ));
        },
    }
}

proof fn lemma_contents_front(a: Seq<usize>, rest: Seq<Seq<usize>>)
    ensures
        contents(seq![a] + rest) == a.to_multiset().add(contents(rest)),
    decreases rest.len(),
{
    let all = seq![a] + rest;
    if rest.len() == 0 {
        assert(all.drop_last() =~= Seq::<Seq<usize>>::empty());
        assert(all.last() == a);
        assert(contents(all.drop_last()) =~= vstd::multiset::Multiset::<usize>::empty());
        assert(contents(rest) =~= vstd::multiset::Multiset::<usize>::empty());
        assert(contents(all) =~= a.to_multiset().add(contents(rest)));
    } else {
        assert(all.drop_last() =~= seq![a] + rest.drop_last());
        lemma_contents_front(a, rest.drop_last());
        assert(contents(all) =~= a.to_multiset().add(contents(rest)));
    }
}

proof fn lemma_runs_contents(keys: Seq<Seq<ValueView>>, asc: Seq<bool>, limit: int, from: int)
    requires
        limit > 0,
        0 <= from <= keys.len(),
    ensures
        contents(runs_from(keys, asc, limit, from)) == span(
            from,
            keys.len() as int,
        ).to_multiset(),
    decreases keys.len() - from,
{
    broadcast use vstd::seq_lib::group_to_multiset_ensures;

    if from < keys.len() {
        let to = min(from + limit, keys.len() as int);
        let run = sorted_places(keys, asc, true, span(from, to));
        law_sorting_rearranges(keys, asc, true, span(from, to));
        lemma_runs_contents(keys, asc, limit, to);
        lemma_contents_front(run, runs_from(keys, asc, limit, to));
        assert(span(from, keys.len() as int) =~= span(from, to) + span(to, keys.len() as int));
        vstd::seq_lib::lemma_multiset_commutative(span(from, to), span(to, keys.len() as int));
    } else {
        assert(span(from, keys.len() as int) =~= Seq::<usize>::empty());
    }
}

/// An external sort rearranges: every row comes out exactly once.
pub proof fn law_external_sort_rearranges(keys: Seq<Seq<ValueView>>, asc: Seq<bool>, limit: int)
    requires
        limit > 0,
    ensures
        merged(keys, asc, runs_from(keys, asc, limit, 0), Seq::empty()).to_multiset() == span(
            0,
            keys.len() as int,
        ).to_multiset(),
{
    broadcast use vstd::seq_lib::group_to_multiset_ensures;

    lemma_merged_contents(keys, asc, runs_from(keys, asc, limit, 0), Seq::empty());
    lemma_runs_contents(keys, asc, limit, 0);
    let m = contents(runs_from(keys, asc, limit, 0));
    assert(Seq::<usize>::empty().to_multiset().add(m) =~= m);
}

spec fn member(runs: Seq<Seq<usize>>, x: usize) -> bool {
    exists|k: int, p: int|
        0 <= k < runs.len() && 0 <= p < runs[k].len() && #[trigger] runs[k][p] == x
}

/// Every run is in order and holds only places of `idx`.
spec fn good_runs(
    keys: Seq<Seq<ValueView>>,
    asc: Seq<bool>,
    idx: Seq<usize>,
    runs: Seq<Seq<usize>>,
) -> bool {
    &&& forall|k: int| 0 <= k < runs.len() ==> in_order(keys, asc, true, #[trigger] runs[k])
    &&& forall|x: usize| #[trigger] member(runs, x) ==> idx.contains(x)
}

/// Whether no first row of the runs below `r` is before that of run `b`.
spec fn least_below(
    keys: Seq<Seq<ValueView>>,
    asc: Seq<bool>,
    runs: Seq<Seq<usize>>,
    r: int,
    b: int,
) -> bool {
    &&& 0 <= b < runs.len() && runs[b].len() > 0
    &&& forall|k: int|
        0 <= k < r && (#[trigger] runs[k]).len() > 0 ==> !goes_before(
            keys,
            asc,
            true,
            runs[k][0],
            runs[b][0],
        )
}

proof fn lemma_least_head(
    keys: Seq<Seq<ValueView>>,
    asc: Seq<bool>,
    idx: Seq<usize>,
    runs: Seq<Seq<usize>>,
    r: int,
    best: Option<int>,
)
    requires
        totally_ordered(keys, asc, true, idx),
        good_runs(keys, asc, idx, runs),
        0 <= r <= runs.len(),
        best is None ==> forall|k: int| 0 <= k < r ==> (#[trigger] runs[k]).len() == 0,
        best matches Some(b) ==> b < r && least_below(keys, asc, runs, r, b),
    ensures
        least_from(keys, asc, runs, r, best) matches Some(b) ==> least_below(
            keys,
            asc,
            runs,
            runs.len() as int,
            b,
        ),
    decreases runs.len() - r,
{
    if r < runs.len() {
        if runs[r].len() == 0 {
            lemma_least_head(keys, asc, idx, runs, r + 1, best);
        } else {
            let x = runs[r][0];
            assert(member(runs, x));
            if goes_before(keys, asc, true, x, x) {
                lemma_one_way(keys, asc, true, idx, x, x);
            }
            match best {
                None => {
                    assert(least_below(keys, asc, runs, r + 1, r));
                    lemma_least_head(keys, asc, idx, runs, r + 1, Some(r));
                },
                Some(b) => {
                    let y = runs[b][0];
                    assert(member(runs, y));
                    if goes_before(keys, asc, true, x, y) {
                        lemma_one_way(keys, asc, true, idx, x, y);
                        assert(least_below(keys, asc, runs, r + 1, r)) by {
                            assert forall|k: int|
                                0 <= k < r + 1 && (#[trigger] runs[k]).len() > 0 implies !goes_before(
                                keys,
                                asc,
                                true,
                                runs[k][0],
                                x,
                            ) by {
                                if k < r {
                                    let z = runs[k][0];
                                    assert(member(runs, z));
                                    lemma_not_before(keys, asc, true, idx, z, y, x);
                                }
                            }
                        }
                        lemma_least_head(keys, asc, idx, runs, r + 1, Some(r));
                    } else {
                        lemma_least_head(keys, asc, idx, runs, r + 1, best);
                    }
                },
            }
        }
    }
}

proof fn lemma_member_update(runs: Seq<Seq<usize>>, r: int, x: usize)
    requires
        0 <= r < runs.len(),
        runs[r].len() > 0,
        member(runs.update(r, runs[r].skip(1)), x),
    ensures
        member(runs, x),
{
    let u = runs.update(r, runs[r].skip(1));
    let (k, p) = choose|k: int, p: int|
        0 <= k < u.len() && 0 <= p < u[k].len() && #[trigger] u[k][p] == x;
    if k == r {
        assert(runs[r][p + 1] == x);
    } else {
        assert(runs[k][p] == x);
    }
}

/// Whether nothing that is left in the runs is before what has come out.
spec fn nothing_before(
    keys: Seq<Seq<ValueView>>,
    asc: Seq<bool>,
    runs: Seq<Seq<usize>>,
    acc: Seq<usize>,
) -> bool {
    forall|i: int, x: usize|
        0 <= i < acc.len() && #[trigger] member(runs, x) ==> !goes_before(
            keys,
            asc,
            true,
            x,
            #[trigger] acc[i],
        )
}

proof fn lemma_good_update(
    keys: Seq<Seq<ValueView>>,
    asc: Seq<bool>,
    idx: Seq<usize>,
    runs: Seq<Seq<usize>>,
    r: int,
)
    requires
        good_runs(keys, asc, idx, runs),
        0 <= r < runs.len(),
        runs[r].len() > 0,
    ensures
        good_runs(keys, asc, idx, runs.update(r, runs[r].skip(1))),
{
    let u = runs.update(r, runs[r].skip(1));
    assert forall|x: usize| #[trigger] member(u, x) implies idx.contains(x) by {
        lemma_member_update(runs, r, x);
    }
    assert forall|k: int| 0 <= k < u.len() implies in_order(keys, asc, true, #[trigger] u[k]) by {
        assert(in_order(keys, asc, true, runs[k]));
        if k == r {
            assert forall|i: int, j: int| 0 <= i < j < u[k].len() implies !goes_before(
                keys,
                asc,
                true,
                #[trigger] u[k][j],
                #[trigger] u[k][i],
            ) by {
                assert(u[k][i] == runs[k][i + 1]);
                assert(u[k][j] == runs[k][j + 1]);
            }
        }
    }
}

proof fn lemma_after_head(
    keys: Seq<Seq<ValueView>>,
    asc: Seq<bool>,
    idx: Seq<usize>,
    runs: Seq<Seq<usize>>,
    r: int,
    x: usize,
)
    requires
        totally_ordered(keys, asc, true, idx),
        good_runs(keys, asc, idx, runs),
        least_below(keys, asc, runs, runs.len() as int, r),
        member(runs, x),
    ensures
        !goes_before(keys, asc, true, x, runs[r][0]),
{
    let head = runs[r][0];
    assert(member(runs, head));
    let (k, p) = choose|k: int, p: int|
        0 <= k < runs.len() && 0 <= p < runs[k].len() && #[trigger] runs[k][p] == x;
    let first = runs[k][0];
    assert(member(runs, first));
    assert(!goes_before(keys, asc, true, first, head));
    if p > 0 {
        assert(in_order(keys, asc, true, runs[k]));
        assert(!goes_before(keys, asc, true, runs[k][p], runs[k][0]));
        lemma_not_before(keys, asc, true, idx, x, first, head);
    }
}

proof fn lemma_merged_order(
    keys: Seq<Seq<ValueView>>,
    asc: Seq<bool>,
    idx: Seq<usize>,
    runs: Seq<Seq<usize>>,
    acc: Seq<usize>,
)
    requires
        totally_ordered(keys, asc, true, idx),
        good_runs(keys, asc, idx, runs),
        in_order(keys, asc, true, acc),
        nothing_before(keys, asc, runs, acc),
    ensures
        in_order(keys, asc, true, merged(keys, asc, runs, acc)),
    decreases total(runs),
{
    lemma_least_head(keys, asc, idx, runs, 0, None);
    match least_from(keys, asc, runs, 0, None) {
        None => {},
        Some(r) => {
            let u = runs.update(r, runs[r].skip(1));
            let head = runs[r][0];
            let next = acc.push(head);
            assert(member(runs, head));
            lemma_total_update(runs, r);
            lemma_good_update(keys, asc, idx, runs, r);
            assert(in_order(keys, asc, true, next)) by {
                assert forall|i: int, j: int| 0 <= i < j < next.len() implies !goes_before(
                    keys,
                    asc,
                    true,
                    #[trigger] next[j],
                    #[trigger] next[i],
                ) by {
                    assert(next[i] == acc[i]);
                    if j < acc.len() {
                        assert(next[j] == acc[j]);
                    }
                }
            }
            assert(nothing_before(keys, asc, u, next)) by {
                assert forall|i: int, x: usize|
                    0 <= i < next.len() && #[trigger] member(u, x) implies !goes_before(
                    keys,
                    asc,
                    true,
                    x,
                    #[trigger] next[i],
                ) by {
                    lemma_member_update(runs, r, x);
                    if i < acc.len() {
                        assert(next[i] == acc[i]);
                    } else {
                        lemma_after_head(keys, asc, idx, runs, r, x);
                    }
                }
            }
            lemma_merged_order(keys, asc, idx, u, next);
        },
    }
}

proof fn lemma_runs_good(
    keys: Seq<Seq<ValueView>>,
    asc: Seq<bool>,
    limit: int,
    from: int,
    idx: Seq<usize>,
)
    requires
        limit > 0,
        0 <= from,
        keys.len() <= usize::MAX,
        idx == span(0, keys.len() as int),
        totally_ordered(keys, asc, true, idx),
    ensures
        good_runs(keys, asc, idx, runs_from(keys, asc, limit, from)),
    decreases keys.len() - from,
{
    let runs = runs_from(keys, asc, limit, from);
    if from < keys.len() {
        let to = min(from + limit, keys.len() as int);
        let part = span(from, to);
        let rest = runs_from(keys, asc, limit, to);
        lemma_runs_good(keys, asc, limit, to, idx);
        assert forall|x: usize| #[trigger] part.contains(x) implies idx.contains(x) by {
            let i = choose|i: int| 0 <= i < part.len() && part[i] == x;
            assert(idx[from + i] == x);
        }
        lemma_part_ordered(keys, asc, true, idx, part);
        law_sorting_orders(keys, asc, true, part);
        assert forall|k: int| 0 <= k < runs.len() implies in_order(
            keys,
            asc,
            true,
            #[trigger] runs[k],
        ) by {
            if k > 0 {
                assert(runs[k] == rest[k - 1]);
            }
        }
        assert(within(part, to)) by {
            assert forall|k: int| 0 <= k < part.len() implies #[trigger] part[k] < to by {}
        }
        lemma_sorted_within(keys, asc, true, part, to);
        assert forall|x: usize| #[trigger] member(runs, x) implies idx.contains(x) by {
            let (k, p) = choose|k: int, p: int|
                0 <= k < runs.len() && 0 <= p < runs[k].len() && #[trigger] runs[k][p] == x;
            if k == 0 {
                assert(x < to);
                assert(idx[x as int] == x);
            } else {
                assert(rest[k - 1][p] == x);
                assert(member(rest, x));
            }
        }
    } else {
        assert(runs =~= Seq::<Seq<usize>>::empty());
    }
}

/// Where the keys are ordered totally, an external sort puts the rows in order.
pub proof fn law_external_sort_orders(keys: Seq<Seq<ValueView>>, asc: Seq<bool>, limit: int)
    requires
        limit > 0,
        keys.len() <= usize::MAX,
        totally_ordered(keys, asc, true, span(0, keys.len() as int)),
    ensures
        in_order(
            keys,
            asc,
            true,
            merged(keys, asc, runs_from(keys, asc, limit, 0), Seq::empty()),
        ),
{
    let idx = span(0, keys.len() as int);
    lemma_runs_good(keys, asc, limit, 0, idx);
    lemma_merged_order(keys, asc, idx, runs_from(keys, asc, limit, 0), Seq::empty());
}

} // verus!
