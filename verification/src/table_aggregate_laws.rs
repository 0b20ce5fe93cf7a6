//! Aggregates over a column of a table that are found without building its rows are those of the
//! values in that column.
use crate::aggregate::RowView;
use crate::catalog::Catalog;
use crate::error::ErrorView;
use crate::expression_laws::{host_gives, stands_for};
use crate::float::float_of_int;
use crate::gather_laws::{all_integers, total};
use crate::host::{FloatOp, HostView};
use crate::order::Order;
use crate::scan::{
    column_aggregate, live, rows_from, run_from, run_start, run_step, table_of, table_rows, AggFunc,
    Running,
};
use crate::schema::name_from;
use crate::storage::{PageView, RawView};
use crate::tuple::{law_single_column_agrees, tuple_read, types_of};
use crate::types::{DataType, ValueView};
use crate::window_laws::{held, no_better};
use vstd::prelude::*;

verus! {

/// The values other than NULL in a column of the first `n` rows, in their order.
pub open spec fn in_column(rows: Seq<RowView>, k: int, n: int) -> Seq<ValueView>
    decreases n,
{
    if n <= 0 {
        Seq::empty()
    } else if rows[n - 1].1[k] is Null {
        in_column(rows, k, n - 1)
    } else {
        in_column(rows, k, n - 1).push(rows[n - 1].1[k])
    }
}

/// Whether a value is one of some values and none of them is less, or else greater.
pub open spec fn is_extreme(v: ValueView, vals: Seq<ValueView>, want: Order) -> bool {
    &&& vals.contains(v)
    &&& forall|i: int| 0 <= i < vals.len() ==> no_better(#[trigger] vals[i], v, want)
}

/// What is known of an aggregate after some integers.
spec fn sums_up(f: AggFunc, st: Running, vals: Seq<ValueView>) -> bool {
    &&& st.count == vals.len()
    &&& match f {
        AggFunc::Sum | AggFunc::Avg => st.float is None && st.whole == total(vals),
        AggFunc::Min => if vals.len() == 0 {
            st.held is None
        } else {
            st.held matches Some(v) && is_extreme(v, vals, Order::Less)
        },
        AggFunc::Max => if vals.len() == 0 {
            st.held is None
        } else {
            st.held matches Some(v) && is_extreme(v, vals, Order::Greater)
        },
    }
}

proof fn lemma_one_value_more(
    f: AggFunc,
    st: Running,
    vals: Seq<ValueView>,
    v: ValueView,
    h: HostView,
)
    requires
        all_integers(vals),
        held(v) is Some,
        sums_up(f, st, vals),
        run_step(f, st, v, h) is Ok,
    ensures
        sums_up(f, run_step(f, st, v, h)->Ok_0, vals.push(v)),
        all_integers(vals.push(v)),
{
    let more = vals.push(v);
    let next = run_step(f, st, v, h)->Ok_0;
    assert(more.drop_last() =~= vals);
    assert forall|i: int| 0 <= i < more.len() implies held(#[trigger] more[i]) is Some by {
        if i < vals.len() {
            assert(more[i] == vals[i]);
        }
    }
    if f == AggFunc::Min || f == AggFunc::Max {
        let want = if f == AggFunc::Min {
            Order::Less
        } else {
            Order::Greater
        };
        let m = next.held->0;
        if vals.len() > 0 {
            let old = st.held->0;
            let j = choose|j: int| 0 <= j < vals.len() && vals[j] == old;
            assert(held(vals[j]) is Some);
            assert(more[j] == old);
        }
        assert(more[vals.len() as int] == v);
        assert(more.contains(m));
        assert forall|i: int| 0 <= i < more.len() implies no_better(
            #[trigger] more[i],
            m,
            want,
        ) by {
            if i < vals.len() {
                assert(more[i] == vals[i]);
                assert(no_better(vals[i], st.held->0, want));
            }
        }
    }
}

proof fn lemma_rows_stay(
    raws: Seq<RawView>,
    i: int,
    mvcc: bool,
    types: Seq<DataType>,
    acc: Seq<RowView>,
)
    requires
        rows_from(raws, i, mvcc, None, types, None, acc) is Ok,
    ensures
        ({
            let all = rows_from(raws, i, mvcc, None, types, None, acc)->Ok_0;
            acc.len() <= all.len() && forall|j: int|
                0 <= j < acc.len() ==> #[trigger] all[j] == acc[j]
        }),
    decreases raws.len() - i,
{
    if 0 <= i < raws.len() {
        match live(raws[i].1, mvcc, None) {
            None => lemma_rows_stay(raws, i + 1, mvcc, types, acc),
            Some(d) => {
                let next = acc.push((raws[i].0, tuple_read(d, types)->Ok_0));
                lemma_rows_stay(raws, i + 1, mvcc, types, next);
                let all = rows_from(raws, i, mvcc, None, types, None, acc)->Ok_0;
                assert forall|j: int| 0 <= j < acc.len() implies #[trigger] all[j] == acc[j] by {
                    assert(next[j] == acc[j]);
                }
            },
        }
    }
}

proof fn lemma_run(
    raws: Seq<RawView>,
    i: int,
    mvcc: bool,
    types: Seq<DataType>,
    k: int,
    f: AggFunc,
    st: Running,
    acc: Seq<RowView>,
    all: Seq<RowView>,
    h: HostView,
)
    requires
        0 <= i,
        0 <= k < types.len(),
        rows_from(raws, i, mvcc, None, types, None, acc) == Ok::<Seq<RowView>, ErrorView>(all),
        all_integers(in_column(all, k, acc.len() as int)),
        sums_up(f, st, in_column(all, k, acc.len() as int)),
        forall|j: int|
            0 <= j < all.len() ==> (#[trigger] all[j]).1[k] is Null || held(all[j].1[k]) is Some,
        run_from(raws, i, mvcc, types, k, f, st, h) is Ok,
    ensures
        sums_up(
            f,
            run_from(raws, i, mvcc, types, k, f, st, h)->Ok_0,
            in_column(all, k, all.len() as int),
        ),
    decreases raws.len() - i,
{
    if i < raws.len() {
        match live(raws[i].1, mvcc, None) {
            None => lemma_run(raws, i + 1, mvcc, types, k, f, st, acc, all, h),
            Some(d) => {
                let row = tuple_read(d, types)->Ok_0;
                let next = acc.push((raws[i].0, row));
                lemma_rows_stay(raws, i + 1, mvcc, types, next);
                assert(all[acc.len() as int] == next[acc.len() as int]);
                law_single_column_agrees(d, types, k);
                let v = row[k];
                if v is Null {
                    lemma_run(raws, i + 1, mvcc, types, k, f, st, next, all, h);
                } else {
                    let vals = in_column(all, k, acc.len() as int);
                    lemma_one_value_more(f, st, vals, v, h);
                    let more = run_step(f, st, v, h)->Ok_0;
                    lemma_run(raws, i + 1, mvcc, types, k, f, more, next, all, h);
                }
            },
        }
    }
}

/// SUM, AVG, MIN and MAX over a column of integers of a table are the sum, the sum divided by the
/// number, the least and the greatest of the values other than NULL in it, and NULL where there
/// are none.
pub proof fn law_table_aggregates(
    c: Catalog,
    pages: Seq<PageView>,
    table: Seq<char>,
    column: Seq<char>,
    k: int,
    f: AggFunc,
    txn: bool,
    h: HostView,
)
    requires
        table_rows(c, pages, table, None, None) is Ok,
        table_of(c, table) matches Some(t) && name_from(t.schema.names(), column, 0) == Some(k)
            && 0 <= k < types_of(t.schema).len(),
        forall|j: int|
            0 <= j < table_rows(c, pages, table, None, None)->Ok_0.1.len() ==> (
            #[trigger] table_rows(c, pages, table, None, None)->Ok_0.1[j]).1[k] is Null || held(
                table_rows(c, pages, table, None, None)->Ok_0.1[j].1[k],
            ) is Some,
        column_aggregate(c, pages, table, column, f, txn, h) matches Ok(Some(_)),
    ensures
        ({
            let rows = table_rows(c, pages, table, None, None)->Ok_0.1;
            let vals = in_column(rows, k, rows.len() as int);
            let v = column_aggregate(c, pages, table, column, f, txn, h)->Ok_0->0;
            if vals.len() == 0 {
                v is Null
            } else {
                match f {
                    AggFunc::Sum => stands_for(v, total(vals)),
                    AggFunc::Avg => host_gives(
                        h.numeric(
                            FloatOp::Div,
                            float_of_int(total(vals)) as u64,
                            float_of_int(vals.len() as i64 as int) as u64,
                        ),
                    ) == Ok::<ValueView, ErrorView>(v),
                    AggFunc::Min => is_extreme(v, vals, Order::Less),
                    AggFunc::Max => is_extreme(v, vals, Order::Greater),
                }
            }
        }),
{
    let t = table_of(c, table)->0;
    let raws = crate::storage::table_tuples(pages, t.first_page_id.0)->Ok_0;
    let all = table_rows(c, pages, table, None, None)->Ok_0.1;
    lemma_run(
        raws,
        0,
        t.mvcc_enabled,
        types_of(t.schema),
        k,
        f,
        run_start(),
        Seq::empty(),
        all,
        h,
    );
}

} // verus!
