//! What the aggregate functions make of the values of an expression on rows.
use crate::aggregate::{
    agg_value, aggregate, aggregate_of, gather, gather_from, gather_value, gathered_value, nothing,
    Aggregate, Gathered, RowView,
};
use crate::ast::{BinaryOperator, Expr, LiteralValue};
use crate::error::ErrorView;
use crate::eval::{binary_op, eval};
use crate::expression_laws::{host_gives, stands_for};
use crate::float::float_of_int;
use crate::host::{FloatOp, HostView};
use crate::order::Order;
use crate::text::upper_text;
use crate::types::ValueView;
use crate::values::value_key;
use crate::window_laws::{added_up, held, no_better};
use vstd::prelude::*;

verus! {

// ---------------------------------------------------------------------------
// Values
// ---------------------------------------------------------------------------

/// Whether an expression calls an aggregate function on an argument that is no star.
pub open spec fn calls(e: Expr, s: Seq<char>, x: Expr, distinct: bool) -> bool {
    e matches Expr::Function { name, args, distinct: d } && upper_text(name@) == s && args@.len() > 0
        && args@[0] == x && d == distinct && !(x matches Expr::Literal(LiteralValue::String(t)))
}

/// The values other than NULL that an expression has on the first `n` rows, in their order.
pub open spec fn known(
    x: Expr,
    rows: Seq<RowView>,
    n: int,
    names: Seq<Seq<char>>,
    h: HostView,
) -> Seq<ValueView>
    decreases n,
{
    if n <= 0 {
        Seq::empty()
    } else {
        let before = known(x, rows, n - 1, names, h);
        match eval(x, rows[n - 1].1, names, h) {
            Ok(ValueView::Null) => before,
            Ok(v) => before.push(v),
            Err(_) => before,
        }
    }
}

/// The keys of values.
pub open spec fn keys_of(vals: Seq<ValueView>) -> Set<Seq<u8>> {
    Set::new(|k: Seq<u8>| exists|i: int| 0 <= i < vals.len() && value_key(#[trigger] vals[i]) == k)
}

/// Values of which each that has the key of an earlier one is left out.
pub open spec fn firsts(vals: Seq<ValueView>) -> Seq<ValueView>
    decreases vals.len(),
{
    if vals.len() == 0 {
        vals
    } else {
        let before = firsts(vals.drop_last());
        if keys_of(vals.drop_last()).contains(value_key(vals.last())) {
            before
        } else {
            before.push(vals.last())
        }
    }
}

pub proof fn lemma_keys_grow(vals: Seq<ValueView>, v: ValueView)
    ensures
        keys_of(vals.push(v)) == keys_of(vals).insert(value_key(v)),
{
    let more = vals.push(v);
    assert forall|k: Seq<u8>|
        keys_of(more).contains(k) <==> keys_of(vals).insert(value_key(v)).contains(k) by {
        if keys_of(more).contains(k) {
            let i = choose|i: int| 0 <= i < more.len() && value_key(#[trigger] more[i]) == k;
            if i < vals.len() {
                assert(value_key(vals[i]) == k);
            }
        }
        if keys_of(vals).contains(k) {
            let i = choose|i: int| 0 <= i < vals.len() && value_key(#[trigger] vals[i]) == k;
            assert(value_key(more[i]) == k);
        }
        if k == value_key(v) {
            assert(value_key(more[vals.len() as int]) == k);
        }
    }
    assert(keys_of(more) =~= keys_of(vals).insert(value_key(v)));
}

pub proof fn lemma_firsts(vals: Seq<ValueView>)
    ensures
        keys_of(vals).finite(),
        keys_of(vals).len() == firsts(vals).len(),
    decreases vals.len(),
{
    if vals.len() == 0 {
        assert(keys_of(vals) =~= Set::<Seq<u8>>::empty());
    } else {
        let short = vals.drop_last();
        lemma_firsts(short);
        lemma_keys_grow(short, vals.last());
        assert(short.push(vals.last()) =~= vals);
        if keys_of(short).contains(value_key(vals.last())) {
            assert(keys_of(short).insert(value_key(vals.last())) =~= keys_of(short));
        }
    }
}

// ---------------------------------------------------------------------------
// Gathering
// ---------------------------------------------------------------------------

/// What is gathered from values, one after the other.
spec fn taken(f: Aggregate, vals: Seq<ValueView>, h: HostView) -> std::result::Result<
    Gathered,
    ErrorView,
>
    decreases vals.len(),
{
    if vals.len() == 0 {
        Ok(nothing())
    } else {
        match taken(f, vals.drop_last(), h) {
            Err(e) => Err(e),
            Ok(g) => gather_value(f, g, vals.last(), h),
        }
    }
}

/// Two gatherings that differ in the keys seen at most.
spec fn alike(a: Gathered, b: Gathered) -> bool {
    a.count == b.count && a.acc == b.acc && a.fsum == b.fsum
}

/// The values that count: with DISTINCT the first of each key, but for extremes.
spec fn counted(f: Aggregate, distinct: bool, vals: Seq<ValueView>) -> Seq<ValueView> {
    if distinct && f != Aggregate::Min && f != Aggregate::Max {
        firsts(vals)
    } else {
        vals
    }
}

spec fn seen_alike(f: Aggregate, distinct: bool, vals: Seq<ValueView>, st: Gathered) -> bool {
    distinct && f != Aggregate::Min && f != Aggregate::Max ==> forall|k: Seq<u8>| #[trigger]
        st.seen.contains(k) <==> keys_of(vals).contains(k)
}

proof fn lemma_gathered(
    f: Aggregate,
    distinct: bool,
    x: Expr,
    rows: Seq<RowView>,
    i: int,
    st: Gathered,
    names: Seq<Seq<char>>,
    h: HostView,
)
    requires
        0 <= i <= rows.len(),
        gather_from(f, distinct, x, rows, i, st, names, h) is Ok,
        ({
            let vals = known(x, rows, i, names, h);
            &&& taken(f, counted(f, distinct, vals), h) matches Ok(g) && alike(st, g)
            &&& seen_alike(f, distinct, vals, st)
        }),
    ensures
        ({
            let vals = known(x, rows, rows.len() as int, names, h);
            taken(f, counted(f, distinct, vals), h) matches Ok(g) && alike(
                gather_from(f, distinct, x, rows, i, st, names, h)->Ok_0,
                g,
            )
        }),
    decreases rows.len() - i,
{
    if i < rows.len() {
        let v = eval(x, rows[i].1, names, h)->Ok_0;
        let vals = known(x, rows, i, names, h);
        let more = known(x, rows, i + 1, names, h);
        let next = gather(f, distinct, st, v, h)->Ok_0;
        if !(v is Null) {
            assert(more == vals.push(v));
            assert(more.drop_last() =~= vals);
            lemma_keys_grow(vals, v);
            let dist = distinct && f != Aggregate::Min && f != Aggregate::Max;
            if dist && st.seen.contains(value_key(v)) {
                assert(counted(f, distinct, more) == counted(f, distinct, vals));
            } else {
                let c = counted(f, distinct, vals);
                assert(counted(f, distinct, more) == c.push(v));
                assert(c.push(v).drop_last() =~= c);
            }
            if dist {
                assert forall|k: Seq<u8>| #[trigger] next.seen.contains(k) <==> keys_of(
                    more,
                ).contains(k) by {
                    if !st.seen.contains(value_key(v)) {
                        let s = st.seen.push(value_key(v));
                        assert(next.seen == s);
                        if s.contains(k) {
                            let z = choose|z: int| 0 <= z < s.len() && s[z] == k;
                            if z < st.seen.len() {
                                assert(st.seen[z] == k);
                            }
                        }
                        if st.seen.contains(k) {
                            let z = choose|z: int| 0 <= z < st.seen.len() && st.seen[z] == k;
                            assert(s[z] == k);
                        }
                        if k == value_key(v) {
                            assert(s[st.seen.len() as int] == k);
                        }
                    }
                }
            }
        }
        lemma_gathered(f, distinct, x, rows, i + 1, next, names, h);
    }
}

proof fn lemma_value(
    f: Aggregate,
    distinct: bool,
    e: Expr,
    x: Expr,
    rows: Seq<RowView>,
    names: Seq<Seq<char>>,
    h: HostView,
)
    requires
        calls(
            e,
            match f {
                Aggregate::Count => "COUNT"@,
                Aggregate::Sum => "SUM"@,
                Aggregate::Avg => "AVG"@,
                Aggregate::Min => "MIN"@,
                Aggregate::Max => "MAX"@,
            },
            x,
            distinct,
        ),
        agg_value(e, rows, names, h) is Ok,
    ensures
        ({
            let vals = counted(f, distinct, known(x, rows, rows.len() as int, names, h));
            taken(f, vals, h) matches Ok(g) && agg_value(e, rows, names, h) == gathered_value(f, g, h)
        }),
{
    reveal_strlit("COUNT");
    reveal_strlit("SUM");
    reveal_strlit("AVG");
    reveal_strlit("MIN");
    reveal_strlit("MAX");
    assert("COUNT"@.len() == 5 && "SUM"@.len() == 3 && "AVG"@.len() == 3);
    assert("SUM"@[0] == 'S' && "AVG"@[0] == 'A' && "MIN"@[0] == 'M' && "MAX"@[0] == 'M');
    assert("MIN"@[1] == 'I' && "MAX"@[1] == 'A');
    if let Expr::Function { name, args, distinct: d } = e {
        assert(aggregate_of(upper_text(name@)) == f);
        assert(agg_value(e, rows, names, h) == aggregate(f, args, distinct, rows, names, h));
    }
    let none = known(x, rows, 0, names, h);
    assert(counted(f, distinct, none) =~= Seq::<ValueView>::empty());
    assert(keys_of(none) =~= Set::<Seq<u8>>::empty());
    lemma_gathered(f, distinct, x, rows, 0, nothing(), names, h);
}

proof fn lemma_count(vals: Seq<ValueView>, h: HostView)
    ensures
        taken(Aggregate::Count, vals, h) matches Ok(g) && g.count == vals.len(),
    decreases vals.len(),
{
    if vals.len() > 0 {
        lemma_count(vals.drop_last(), h);
    }
}

/// COUNT(e) is the number of rows on which `e` is not NULL, and COUNT(DISTINCT e) the number of
/// different keys of its values there.
pub proof fn law_count_counts(
    e: Expr,
    x: Expr,
    distinct: bool,
    rows: Seq<RowView>,
    names: Seq<Seq<char>>,
    h: HostView,
)
    requires
        calls(e, "COUNT"@, x, distinct),
        agg_value(e, rows, names, h) is Ok,
    ensures
        ({
            let vals = known(x, rows, rows.len() as int, names, h);
            &&& keys_of(vals).finite()
            &&& agg_value(e, rows, names, h) == Ok::<ValueView, ErrorView>(
                ValueView::BigInt(
                    if distinct {
                        keys_of(vals).len() as i64
                    } else {
                        vals.len() as i64
                    },
                ),
            )
        }),
{
    let vals = known(x, rows, rows.len() as int, names, h);
    lemma_value(Aggregate::Count, distinct, e, x, rows, names, h);
    lemma_count(counted(Aggregate::Count, distinct, vals), h);
    lemma_firsts(vals);
}

/// COUNT(*) is the number of rows.
pub proof fn law_count_star_counts_rows(
    e: Expr,
    rows: Seq<RowView>,
    names: Seq<Seq<char>>,
    h: HostView,
)
    requires
        e matches Expr::Function { name, args, distinct } && upper_text(name@) == "COUNT"@ && (
        args@.len() == 0 || (args@[0] matches Expr::Literal(LiteralValue::String(t)) && t@
            == "*"@)),
    ensures
        agg_value(e, rows, names, h) == Ok::<ValueView, ErrorView>(
            ValueView::BigInt(rows.len() as i64),
        ),
{
    reveal_strlit("COUNT");
}

// ---------------------------------------------------------------------------
// Sums
// ---------------------------------------------------------------------------

/// Integers added up.
pub open spec fn total(vals: Seq<ValueView>) -> int
    decreases vals.len(),
{
    if vals.len() == 0 {
        0
    } else {
        total(vals.drop_last()) + match vals.last() {
            ValueView::Integer(n) => n as int,
            ValueView::BigInt(n) => n as int,
            _ => 0,
        }
    }
}

/// Whether all values are integers.
pub open spec fn all_integers(vals: Seq<ValueView>) -> bool {
    forall|i: int| 0 <= i < vals.len() ==> held(#[trigger] vals[i]) is Some
}

proof fn lemma_sum(vals: Seq<ValueView>, h: HostView)
    requires
        all_integers(vals),
        taken(Aggregate::Sum, vals, h) is Ok,
    ensures
        ({
            let acc = taken(Aggregate::Sum, vals, h)->Ok_0.acc;
            if vals.len() == 0 {
                acc is Null
            } else {
                stands_for(acc, total(vals))
            }
        }),
    decreases vals.len(),
{
    if vals.len() > 0 {
        let short = vals.drop_last();
        assert(held(vals[vals.len() - 1]) is Some);
        assert forall|i: int| 0 <= i < short.len() implies held(#[trigger] short[i]) is Some by {
            assert(short[i] == vals[i]);
        }
        lemma_sum(short, h);
        assert(short.len() == 0 ==> total(short) == 0);
        assert(total(vals) == total(short) + held(vals.last())->0);
    }
}

/// SUM(e) of integers is their sum, and SUM(DISTINCT e) the sum of those that are left when each
/// is left out that has the key of an earlier one; NULL, if there are none.
pub proof fn law_sum_adds_up(
    e: Expr,
    x: Expr,
    distinct: bool,
    rows: Seq<RowView>,
    names: Seq<Seq<char>>,
    h: HostView,
)
    requires
        calls(e, "SUM"@, x, distinct),
        agg_value(e, rows, names, h) is Ok,
        all_integers(known(x, rows, rows.len() as int, names, h)),
    ensures
        ({
            let all = known(x, rows, rows.len() as int, names, h);
            let vals = if distinct {
                firsts(all)
            } else {
                all
            };
            if all.len() == 0 {
                agg_value(e, rows, names, h) == Ok::<ValueView, ErrorView>(ValueView::Null)
            } else {
                agg_value(e, rows, names, h) matches Ok(v) && stands_for(v, total(vals))
            }
        }),
{
    let all = known(x, rows, rows.len() as int, names, h);
    lemma_value(Aggregate::Sum, distinct, e, x, rows, names, h);
    lemma_firsts_are_of(all);
    lemma_sum(counted(Aggregate::Sum, distinct, all), h);
}

proof fn lemma_firsts_are_of(vals: Seq<ValueView>)
    ensures
        all_integers(vals) ==> all_integers(firsts(vals)),
        vals.len() > 0 ==> firsts(vals).len() > 0,
        vals.len() == 0 ==> firsts(vals).len() == 0,
    decreases vals.len(),
{
    if vals.len() > 0 {
        let short = vals.drop_last();
        lemma_firsts_are_of(short);
        if all_integers(vals) {
            assert(held(vals[vals.len() - 1]) is Some);
            assert forall|i: int| 0 <= i < short.len() implies held(#[trigger] short[i]) is Some by {
                assert(short[i] == vals[i]);
            }
        }
        if short.len() == 0 {
            assert(!keys_of(short).contains(value_key(vals.last())));
        }
    }
}

/// SUM, AVG and COUNT with DISTINCT are what they are without it over the rows that are left when
/// each is left out on which the expression has the key of its value on an earlier row.
pub proof fn law_distinct_leaves_out_repetitions(
    e: Expr,
    plain: Expr,
    s: Seq<char>,
    x: Expr,
    rows: Seq<RowView>,
    left: Seq<RowView>,
    names: Seq<Seq<char>>,
    h: HostView,
)
    requires
        s == "SUM"@ || s == "AVG"@ || s == "COUNT"@,
        calls(e, s, x, true),
        calls(plain, s, x, false),
        known(x, left, left.len() as int, names, h) == firsts(
            known(x, rows, rows.len() as int, names, h),
        ),
        agg_value(e, rows, names, h) is Ok,
        agg_value(plain, left, names, h) is Ok,
    ensures
        agg_value(e, rows, names, h) == agg_value(plain, left, names, h),
{
    let f = if s == "SUM"@ {
        Aggregate::Sum
    } else if s == "AVG"@ {
        Aggregate::Avg
    } else {
        Aggregate::Count
    };
    lemma_value(f, true, e, x, rows, names, h);
    lemma_value(f, false, plain, x, left, names, h);
}

// ---------------------------------------------------------------------------
// Averages
// ---------------------------------------------------------------------------

/// The double that a number is averaged as.
pub open spec fn double_of(v: ValueView) -> u64 {
    match v {
        ValueView::Integer(n) => float_of_int(n as int) as u64,
        ValueView::BigInt(n) => float_of_int(n as int) as u64,
        ValueView::Float(f) => f,
        _ => 0,
    }
}

/// The doubles that numbers are averaged as.
pub open spec fn doubles(vals: Seq<ValueView>) -> Seq<u64> {
    Seq::new(vals.len(), |i: int| double_of(vals[i]))
}

proof fn lemma_average(vals: Seq<ValueView>, h: HostView)
    requires
        taken(Aggregate::Avg, vals, h) is Ok,
    ensures
        ({
            let g = taken(Aggregate::Avg, vals, h)->Ok_0;
            &&& g.count == vals.len()
            &&& added_up(doubles(vals), h) == Ok::<u64, ErrorView>(g.fsum)
        }),
    decreases vals.len(),
{
    if vals.len() > 0 {
        lemma_average(vals.drop_last(), h);
        assert(doubles(vals).drop_last() =~= doubles(vals.drop_last()));
    }
}

/// AVG(e) is the sum of the values that `e` has on the rows, divided by how many they are, and
/// AVG(DISTINCT e) that of those that are left when each is left out that has the key of an
/// earlier one; NULL, if there are none.
pub proof fn law_average_divides_the_sum(
    e: Expr,
    x: Expr,
    distinct: bool,
    rows: Seq<RowView>,
    names: Seq<Seq<char>>,
    h: HostView,
)
    requires
        calls(e, "AVG"@, x, distinct),
        agg_value(e, rows, names, h) is Ok,
    ensures
        ({
            let all = known(x, rows, rows.len() as int, names, h);
            let vals = if distinct {
                firsts(all)
            } else {
                all
            };
            if vals.len() == 0 {
                agg_value(e, rows, names, h) == Ok::<ValueView, ErrorView>(ValueView::Null)
            } else {
                added_up(doubles(vals), h) matches Ok(sum) && agg_value(e, rows, names, h)
                    == host_gives(
                    h.numeric(FloatOp::Div, sum, float_of_int((vals.len() as i64) as int) as u64),
                )
            }
        }),
{
    let all = known(x, rows, rows.len() as int, names, h);
    lemma_value(Aggregate::Avg, distinct, e, x, rows, names, h);
    lemma_average(counted(Aggregate::Avg, distinct, all), h);
}

// ---------------------------------------------------------------------------
// Extremes
// ---------------------------------------------------------------------------

proof fn lemma_extreme(f: Aggregate, vals: Seq<ValueView>, h: HostView)
    requires
        f == Aggregate::Min || f == Aggregate::Max,
        all_integers(vals),
    ensures
        taken(f, vals, h) matches Ok(g) && {
            let m = g.acc;
            let want = if f == Aggregate::Min {
                Order::Less
            } else {
                Order::Greater
            };
            &&& vals.len() == 0 <==> m is Null
            &&& vals.len() > 0 ==> vals.contains(m)
            &&& forall|i: int| 0 <= i < vals.len() ==> no_better(#[trigger] vals[i], m, want)
        },
    decreases vals.len(),
{
    if vals.len() > 0 {
        let short = vals.drop_last();
        let v = vals.last();
        assert(held(vals[vals.len() - 1]) is Some);
        assert forall|i: int| 0 <= i < short.len() implies held(#[trigger] short[i]) is Some by {
            assert(short[i] == vals[i]);
        }
        lemma_extreme(f, short, h);
        let want = if f == Aggregate::Min {
            Order::Less
        } else {
            Order::Greater
        };
        let before = taken(f, short, h)->Ok_0.acc;
        let m = taken(f, vals, h)->Ok_0.acc;
        assert(vals[vals.len() - 1] == v);
        if short.contains(m) {
            let k = choose|k: int| 0 <= k < short.len() && short[k] == m;
            assert(vals[k] == m);
        }
        if short.len() > 0 {
            let k = choose|k: int| 0 <= k < short.len() && short[k] == before;
            assert(held(short[k]) is Some);
        }
        assert forall|i: int| 0 <= i < vals.len() implies no_better(#[trigger] vals[i], m, want) by {
            if i < short.len() {
                assert(short[i] == vals[i]);
                assert(no_better(short[i], before, want));
            }
        }
    }
}

/// MIN(e) is the least and MAX(e) the greatest of the integers that `e` has on the rows; NULL, if
/// there are none.
pub proof fn law_extreme_is_extreme(
    e: Expr,
    x: Expr,
    distinct: bool,
    least: bool,
    rows: Seq<RowView>,
    names: Seq<Seq<char>>,
    h: HostView,
)
    requires
        calls(
            e,
            if least {
                "MIN"@
            } else {
                "MAX"@
            },
            x,
            distinct,
        ),
        agg_value(e, rows, names, h) is Ok,
        all_integers(known(x, rows, rows.len() as int, names, h)),
    ensures
        ({
            let vals = known(x, rows, rows.len() as int, names, h);
            let m = agg_value(e, rows, names, h)->Ok_0;
            &&& vals.len() == 0 ==> m is Null
            &&& vals.len() > 0 ==> vals.contains(m)
            &&& forall|i: int|
                0 <= i < vals.len() ==> (held(m) matches Some(b) && held(
                    #[trigger] vals[i],
                ) matches Some(a) && if least {
                    b <= a
                } else {
                    a <= b
                })
        }),
{
    let f = if least {
        Aggregate::Min
    } else {
        Aggregate::Max
    };
    let vals = known(x, rows, rows.len() as int, names, h);
    lemma_value(f, distinct, e, x, rows, names, h);
    lemma_extreme(f, vals, h);
}

/// With one value more, MIN and MAX stay as they are unless the value is less, or else greater;
/// this holds of values of every kind that can be compared.
pub proof fn law_extreme_takes_better_values(
    e: Expr,
    x: Expr,
    distinct: bool,
    least: bool,
    rows: Seq<RowView>,
    row: RowView,
    names: Seq<Seq<char>>,
    h: HostView,
)
    requires
        calls(
            e,
            if least {
                "MIN"@
            } else {
                "MAX"@
            },
            x,
            distinct,
        ),
        agg_value(e, rows, names, h) is Ok,
        agg_value(e, rows.push(row), names, h) is Ok,
        eval(x, row.1, names, h) is Ok,
    ensures
        ({
            let m = agg_value(e, rows, names, h)->Ok_0;
            let v = eval(x, row.1, names, h)->Ok_0;
            agg_value(e, rows.push(row), names, h) == Ok::<ValueView, ErrorView>(
                if v is Null {
                    m
                } else if m is Null {
                    v
                } else if v.compare(m) == Some(
                    if least {
                        Order::Less
                    } else {
                        Order::Greater
                    },
                ) {
                    v
                } else {
                    m
                },
            )
        }),
{
    let f = if least {
        Aggregate::Min
    } else {
        Aggregate::Max
    };
    let more = rows.push(row);
    lemma_value(f, distinct, e, x, rows, names, h);
    lemma_value(f, distinct, e, x, more, names, h);
    lemma_known_prefix(x, rows, row, rows.len() as int, names, h);
    let vals = known(x, rows, rows.len() as int, names, h);
    let v = eval(x, row.1, names, h)->Ok_0;
    assert(vals.push(v).drop_last() =~= vals);
}

proof fn lemma_known_prefix(
    x: Expr,
    rows: Seq<RowView>,
    row: RowView,
    n: int,
    names: Seq<Seq<char>>,
    h: HostView,
)
    requires
        0 <= n <= rows.len(),
    ensures
        known(x, rows.push(row), n, names, h) == known(x, rows, n, names, h),
    decreases n,
{
    if n > 0 {
        lemma_known_prefix(x, rows, row, n - 1, names, h);
    }
}

/// SUM with one row more is the sum and the value on that row put together by `+`.
pub proof fn law_sum_grows_by_addition(
    e: Expr,
    x: Expr,
    rows: Seq<RowView>,
    row: RowView,
    names: Seq<Seq<char>>,
    h: HostView,
)
    requires
        calls(e, "SUM"@, x, false),
        agg_value(e, rows, names, h) is Ok,
        agg_value(e, rows.push(row), names, h) is Ok,
        eval(x, row.1, names, h) is Ok,
    ensures
        ({
            let sum = agg_value(e, rows, names, h)->Ok_0;
            let v = eval(x, row.1, names, h)->Ok_0;
            agg_value(e, rows.push(row), names, h) == if v is Null {
                Ok(sum)
            } else if sum is Null {
                Ok(v)
            } else {
                binary_op(sum, BinaryOperator::Add, v, h)
            }
        }),
{
    let f = Aggregate::Sum;
    lemma_value(f, false, e, x, rows, names, h);
    lemma_value(f, false, e, x, rows.push(row), names, h);
    lemma_known_prefix(x, rows, row, rows.len() as int, names, h);
    let vals = known(x, rows, rows.len() as int, names, h);
    let v = eval(x, row.1, names, h)->Ok_0;
    assert(vals.push(v).drop_last() =~= vals);
}

} // verus!
