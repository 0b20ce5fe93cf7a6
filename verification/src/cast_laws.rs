//! What CAST makes of a value.
use crate::ast::Expr;
use crate::error::ErrorView;
use crate::eval::eval;
use crate::expression_laws::{stands_for, truncated};
use crate::float::float_of_int;
use crate::host::HostView;
use crate::text::{
    digit, int_text, law_integer_text_is_read_back, lemma_digits_of_nat, nat_text, trim_end,
    trim_start, trimmed, white, CharSet,
};
use crate::types::{pow10, DataType, ValueView};
use crate::values::{abs, lemma_quot_rem, quot, rem};
use vstd::prelude::*;

verus! {

/// CAST of an expression to a type.
pub open spec fn cast_to(x: Expr, t: DataType) -> Expr {
    Expr::Cast { expr: Box::new(x), data_type: t }
}

/// Whether an expression has a value.
pub open spec fn becomes(
    x: Expr,
    v: ValueView,
    row: Seq<ValueView>,
    names: Seq<Seq<char>>,
    h: HostView,
) -> bool {
    eval(x, row, names, h) == Ok::<ValueView, ErrorView>(v)
}

/// Ten to a power.
pub open spec fn ten_to(n: nat) -> int
    decreases n,
{
    if n == 0 {
        1
    } else {
        10 * ten_to((n - 1) as nat)
    }
}

proof fn lemma_ten_to(n: nat)
    ensures
        pow10(n) == ten_to(n),
        ten_to(n) > 0,
    decreases n,
{
    if n > 0 {
        lemma_ten_to((n - 1) as nat);
    }
}

/// The number that the first `n` characters of a text denote as digits.
pub open spec fn number_of_digits(s: Seq<char>, n: int) -> int
    decreases n,
{
    if n <= 0 {
        0
    } else {
        10 * number_of_digits(s, n - 1) + (s[n - 1] as int - '0' as int)
    }
}

/// Whether a text is a number written out: digits, without zeros before them.
pub open spec fn writes_out(s: Seq<char>, n: nat) -> bool {
    &&& s.len() > 0
    &&& forall|i: int| 0 <= i < s.len() ==> '0' <= #[trigger] s[i] <= '9'
    &&& number_of_digits(s, s.len() as int) == n
    &&& s[0] == '0' ==> n == 0 && s.len() == 1
}

proof fn lemma_same_digits(s: Seq<char>, t: Seq<char>, n: int)
    requires
        n <= s.len(),
        n <= t.len(),
        forall|i: int| 0 <= i < n ==> #[trigger] s[i] == t[i],
    ensures
        number_of_digits(s, n) == number_of_digits(t, n),
    decreases n,
{
    if n > 0 {
        lemma_same_digits(s, t, n - 1);
        assert(s[n - 1] == t[n - 1]);
    }
}

proof fn lemma_writes_out(n: nat)
    ensures
        writes_out(nat_text(n), n),
    decreases n,
{
    lemma_digits_of_nat(n);
    let s = nat_text(n);
    if n < 10 {
        assert(s =~= seq![digit(n as int)]);
        assert(number_of_digits(s, 0) == 0);
        assert(number_of_digits(s, 1) == n);
    } else {
        lemma_writes_out(n / 10);
        let head = nat_text(n / 10);
        assert(s == head.push(digit((n % 10) as int)));
        lemma_same_digits(s, head, head.len() as int);
        assert(s[0] == head[0]);
        assert(s[s.len() - 1] == digit((n % 10) as int));
    }
}

/// An integer keeps its number as a wider or narrower one, as far as that can hold it; it is TRUE
/// unless it is 0; and as a double, a moment and a decimal it has the same value.
pub proof fn law_cast_keeps_integers(
    x: Expr,
    v: ValueView,
    n: int,
    precision: u8,
    scale: u8,
    row: Seq<ValueView>,
    names: Seq<Seq<char>>,
    h: HostView,
)
    requires
        becomes(x, v, row, names, h),
        stands_for(v, n),
    ensures
        becomes(cast_to(x, DataType::BigInt), ValueView::BigInt(n as i64), row, names, h),
        i32::MIN <= n <= i32::MAX ==> becomes(
            cast_to(x, DataType::Integer),
            ValueView::Integer(n as i32),
            row,
            names,
            h,
        ),
        eval(cast_to(x, DataType::Integer), row, names, h) matches Ok(ValueView::Integer(m)) && (n
            - m) % 0x1_0000_0000 == 0,
        becomes(cast_to(x, DataType::Boolean), ValueView::Boolean(n != 0), row, names, h),
        becomes(cast_to(x, DataType::DateTime), ValueView::DateTime(n as i64), row, names, h),
        becomes(
            cast_to(x, DataType::Float),
            ValueView::Float(float_of_int(n) as u64),
            row,
            names,
            h,
        ),
        i64::MIN <= n * ten_to(scale as nat) <= i64::MAX ==> becomes(
            cast_to(x, DataType::Decimal(precision, scale)),
            ValueView::Decimal((n * ten_to(scale as nat)) as i64, scale),
            row,
            names,
            h,
        ),
        !(i64::MIN <= n * ten_to(scale as nat) <= i64::MAX) ==> eval(
            cast_to(x, DataType::Decimal(precision, scale)),
            row,
            names,
            h,
        ) is Err,
{
    reveal_with_fuel(eval, 2);
    lemma_ten_to(scale as nat);
}

/// NULL stays NULL, whatever type it is cast to.
pub proof fn law_cast_keeps_null(
    x: Expr,
    t: DataType,
    row: Seq<ValueView>,
    names: Seq<Seq<char>>,
    h: HostView,
)
    requires
        becomes(x, ValueView::Null, row, names, h),
    ensures
        becomes(cast_to(x, t), ValueView::Null, row, names, h),
{
    reveal_with_fuel(eval, 2);
}

/// A value that has a type already stays as it is.
pub proof fn law_cast_to_own_type(
    x: Expr,
    v: ValueView,
    n: u16,
    precision: u8,
    scale: u8,
    row: Seq<ValueView>,
    names: Seq<Seq<char>>,
    h: HostView,
)
    requires
        becomes(x, v, row, names, h),
    ensures
        v is Integer ==> becomes(cast_to(x, DataType::Integer), v, row, names, h),
        v is BigInt ==> becomes(cast_to(x, DataType::BigInt), v, row, names, h),
        v is Float ==> becomes(cast_to(x, DataType::Float), v, row, names, h),
        v is Varchar ==> becomes(cast_to(x, DataType::Varchar(n)), v, row, names, h),
        v is Boolean ==> becomes(cast_to(x, DataType::Boolean), v, row, names, h),
        v is DateTime ==> becomes(cast_to(x, DataType::DateTime), v, row, names, h),
        v is Date ==> becomes(cast_to(x, DataType::Date), v, row, names, h),
        v is Time ==> becomes(cast_to(x, DataType::Time), v, row, names, h),
        v is Decimal ==> becomes(
            cast_to(x, DataType::Decimal(precision, scale)),
            v,
            row,
            names,
            h,
        ),
        v is Binary ==> becomes(cast_to(x, DataType::VarBinary(n)), v, row, names, h),
{
    reveal_with_fuel(eval, 2);
}

/// TRUE is the integer 1 and FALSE is 0.
pub proof fn law_cast_of_truth_values(
    x: Expr,
    b: bool,
    row: Seq<ValueView>,
    names: Seq<Seq<char>>,
    h: HostView,
)
    requires
        becomes(x, ValueView::Boolean(b), row, names, h),
    ensures
        becomes(
            cast_to(x, DataType::Integer),
            ValueView::Integer(
                if b {
                    1
                } else {
                    0
                },
            ),
            row,
            names,
            h,
        ),
        becomes(
            cast_to(x, DataType::BigInt),
            ValueView::BigInt(
                if b {
                    1
                } else {
                    0
                },
            ),
            row,
            names,
            h,
        ),
{
    reveal_with_fuel(eval, 2);
}

/// A decimal is cast to an integer by leaving its fraction out.
pub proof fn law_cast_of_decimals(
    x: Expr,
    n: i64,
    scale: u8,
    row: Seq<ValueView>,
    names: Seq<Seq<char>>,
    h: HostView,
)
    requires
        becomes(x, ValueView::Decimal(n, scale), row, names, h),
    ensures
        eval(cast_to(x, DataType::BigInt), row, names, h) matches Ok(ValueView::BigInt(q))
            && truncated(n as int, ten_to(scale as nat), q as int),
{
    reveal_with_fuel(eval, 2);
    lemma_ten_to(scale as nat);
    let a = n as int;
    let b = ten_to(scale as nat);
    lemma_quot_rem(a, b);
    assert(0 <= abs(a) % b < b) by (nonlinear_arith)
        requires
            b > 0,
    ;
    assert(a == 0 ==> rem(a, b) == 0) by {
        if a == 0 {
            assert(0int % b == 0) by (nonlinear_arith)
                requires
                    b > 0,
            ;
        }
    }
    assert(-abs(a) <= quot(a, b) <= abs(a)) by {
        assert(0 <= abs(a) / b <= abs(a)) by (nonlinear_arith)
            requires
                b > 0,
                abs(a) >= 0,
        ;
    }
}

/// A moment is cast to the day that it lies in and to the seconds since that day began.
pub proof fn law_cast_splits_moments(
    x: Expr,
    e: i64,
    row: Seq<ValueView>,
    names: Seq<Seq<char>>,
    h: HostView,
)
    requires
        becomes(x, ValueView::DateTime(e), row, names, h),
        i32::MIN * 86400 <= e <= i32::MAX * 86400,
    ensures
        eval(cast_to(x, DataType::Date), row, names, h) matches Ok(ValueView::Date(d)) && eval(
            cast_to(x, DataType::Time),
            row,
            names,
            h,
        ) matches Ok(ValueView::Time(t)) && 0 <= t < 86400 && e == d * 86400 + t,
        becomes(cast_to(x, DataType::BigInt), ValueView::BigInt(e), row, names, h),
{
    reveal_with_fuel(eval, 2);
}

proof fn lemma_nothing_to_trim(s: Seq<char>)
    requires
        s.len() > 0,
        !white(s[0]),
        !white(s.last()),
    ensures
        trimmed(s) == s,
{
    assert(trim_start(s, CharSet::White) == s);
    assert(trim_end(s, CharSet::White) == s);
}

/// An integer is cast to its digits, with a sign before them if it is negative; and from there back
/// to itself.
pub proof fn law_cast_writes_integers_out(
    x: Expr,
    v: ValueView,
    n: int,
    width: u16,
    row: Seq<ValueView>,
    names: Seq<Seq<char>>,
    h: HostView,
)
    requires
        becomes(x, v, row, names, h),
        stands_for(v, n),
    ensures
        eval(cast_to(x, DataType::Varchar(width)), row, names, h) matches Ok(ValueView::Varchar(s))
            && (if n < 0 {
            s.len() > 0 && s[0] == '-' && writes_out(s.skip(1), (-n) as nat)
        } else {
            writes_out(s, n as nat)
        }),
        becomes(
            cast_to(cast_to(x, DataType::Varchar(width)), DataType::BigInt),
            ValueView::BigInt(n as i64),
            row,
            names,
            h,
        ),
{
    reveal_with_fuel(eval, 3);
    let s = int_text(n);
    law_integer_text_is_read_back(n);
    if n < 0 {
        lemma_writes_out((-n) as nat);
        let d = nat_text((-n) as nat);
        assert(s.skip(1) =~= d);
        assert(s.last() == d.last());
    } else {
        lemma_writes_out(n as nat);
    }
    lemma_nothing_to_trim(s);
}

} // verus!
