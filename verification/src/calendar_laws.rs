//! Days are counted from 1970-01-01 on, and each date is followed by the next one of the calendar.
use crate::ast::Expr;
use crate::builtins::{builtin, unary, wrap32, Builtin, UnaryFn};
use crate::call_laws::{gives, is_call, lemma_unary_call};
use crate::dates::{civil_date, days_from_civil, is_date, lemma_civil_date};
use crate::error::ErrorView;
use crate::eval::eval;
use crate::function_laws::lemma_names;
use crate::host::HostView;
use crate::types::ValueView;
use vstd::prelude::*;

verus! {

/// How many days a month has.
pub open spec fn length_of_month(y: int, m: int) -> int {
    if m == 2 {
        if y % 400 == 0 || (y % 4 == 0 && y % 100 != 0) {
            29
        } else {
            28
        }
    } else if m == 4 || m == 6 || m == 9 || m == 11 {
        30
    } else {
        31
    }
}

/// The date behind a date.
pub open spec fn day_after(p: (int, int, int)) -> (int, int, int) {
    if p.2 < length_of_month(p.0, p.1) {
        (p.0, p.1, p.2 + 1)
    } else if p.1 < 12 {
        (p.0, p.1 + 1, 1)
    } else {
        (p.0 + 1, 1, 1)
    }
}

/// The date before a date.
pub open spec fn day_before(p: (int, int, int)) -> (int, int, int) {
    if p.2 > 1 {
        (p.0, p.1, p.2 - 1)
    } else if p.1 > 1 {
        (p.0, p.1 - 1, length_of_month(p.0, p.1 - 1))
    } else {
        (p.0 - 1, 12, 31)
    }
}

/// The date so many days after 1970-01-01.
pub open spec fn date_of_day(n: int) -> (int, int, int)
    decreases
            if n < 0 {
                -n
            } else {
                n
            },
{
    if n == 0 {
        (1970, 1, 1)
    } else if n > 0 {
        day_after(date_of_day(n - 1))
    } else {
        day_before(date_of_day(n + 1))
    }
}

proof fn lemma_day_after(p: (int, int, int))
    requires
        is_date(p.0, p.1, p.2),
    ensures
        ({
            let q = day_after(p);
            is_date(q.0, q.1, q.2) && days_from_civil(q.0, q.1, q.2) == days_from_civil(
                p.0,
                p.1,
                p.2,
            ) + 1
        }),
{
}

proof fn lemma_day_before(p: (int, int, int))
    requires
        is_date(p.0, p.1, p.2),
    ensures
        ({
            let q = day_before(p);
            is_date(q.0, q.1, q.2) && days_from_civil(q.0, q.1, q.2) == days_from_civil(
                p.0,
                p.1,
                p.2,
            ) - 1
        }),
{
}

proof fn lemma_date_of_day(n: int)
    ensures
        ({
            let p = date_of_day(n);
            is_date(p.0, p.1, p.2) && days_from_civil(p.0, p.1, p.2) == n
        }),
    decreases
            if n < 0 {
                -n
            } else {
                n
            },
{
    if n > 0 {
        lemma_date_of_day(n - 1);
        lemma_day_after(date_of_day(n - 1));
    } else if n < 0 {
        lemma_date_of_day(n + 1);
        lemma_day_before(date_of_day(n + 1));
    }
}

/// The date of a day is found by going on from 1970-01-01 day by day.
pub proof fn law_calendar_goes_day_by_day(n: int)
    ensures
        civil_date(n) == date_of_day(n),
{
    lemma_date_of_day(n);
    let p = date_of_day(n);
    lemma_civil_date(p.0, p.1, p.2);
}

proof fn lemma_parts(t: i64, h: HostView)
    requires
        i32::MIN <= date_of_day(t as int / 86400).0 <= i32::MAX,
    ensures
        ({
            let v = ValueView::DateTime(t);
            let p = date_of_day(t as int / 86400);
            &&& unary(UnaryFn::Year, v, h) == Ok::<ValueView, ErrorView>(
                ValueView::Integer(p.0 as i32),
            )
            &&& unary(UnaryFn::Month, v, h) == Ok::<ValueView, ErrorView>(
                ValueView::Integer(p.1 as i32),
            )
            &&& unary(UnaryFn::Day, v, h) == Ok::<ValueView, ErrorView>(
                ValueView::Integer(p.2 as i32),
            )
        }),
{
    let n = t as int / 86400;
    law_calendar_goes_day_by_day(n);
    lemma_date_of_day(n);
    let p = date_of_day(n);
    assert(wrap32(p.0) == p.0);
    assert(wrap32(p.1) == p.1);
    assert(wrap32(p.2) == p.2);
}

/// YEAR, MONTH and DAY are the parts of the date that a moment lies in.
#[verifier::rlimit(60)]
pub proof fn law_parts_of_a_date(
    e: Expr,
    args: Vec<Expr>,
    t: i64,
    row: Seq<ValueView>,
    names: Seq<Seq<char>>,
    h: HostView,
)
    requires
        args.len() > 0,
        gives(args[0], ValueView::DateTime(t), row, names, h),
        i32::MIN <= date_of_day(t as int / 86400).0 <= i32::MAX,
    ensures
        is_call(e, "YEAR"@, args) ==> gives(
            e,
            ValueView::Integer(date_of_day(t as int / 86400).0 as i32),
            row,
            names,
            h,
        ),
        is_call(e, "MONTH"@, args) ==> gives(
            e,
            ValueView::Integer(date_of_day(t as int / 86400).1 as i32),
            row,
            names,
            h,
        ),
        is_call(e, "DAY"@, args) ==> gives(
            e,
            ValueView::Integer(date_of_day(t as int / 86400).2 as i32),
            row,
            names,
            h,
        ),
{
    let v = ValueView::DateTime(t);
    let p = date_of_day(t as int / 86400);
    assert(builtin("YEAR"@) == Builtin::Unary(UnaryFn::Year) && builtin("MONTH"@)
        == Builtin::Unary(UnaryFn::Month) && builtin("DAY"@) == Builtin::Unary(UnaryFn::Day)) by {
        lemma_names();
    }
    assert(unary(UnaryFn::Year, v, h) == Ok::<ValueView, ErrorView>(ValueView::Integer(p.0 as i32))
        && unary(UnaryFn::Month, v, h) == Ok::<ValueView, ErrorView>(ValueView::Integer(p.1 as i32))
        && unary(UnaryFn::Day, v, h) == Ok::<ValueView, ErrorView>(ValueView::Integer(p.2 as i32)))
        by {
        lemma_parts(t, h);
    }
    assert(is_call(e, "YEAR"@, args) ==> eval(e, row, names, h) == unary(UnaryFn::Year, v, h)) by {
        if is_call(e, "YEAR"@, args) {
            lemma_unary_call(e, "YEAR"@, args, UnaryFn::Year, v, row, names, h);
        }
    }
    assert(is_call(e, "MONTH"@, args) ==> eval(e, row, names, h) == unary(UnaryFn::Month, v, h)) by {
        if is_call(e, "MONTH"@, args) {
            lemma_unary_call(e, "MONTH"@, args, UnaryFn::Month, v, row, names, h);
        }
    }
    assert(is_call(e, "DAY"@, args) ==> eval(e, row, names, h) == unary(UnaryFn::Day, v, h)) by {
        if is_call(e, "DAY"@, args) {
            lemma_unary_call(e, "DAY"@, args, UnaryFn::Day, v, row, names, h);
        }
    }
}

} // verus!
