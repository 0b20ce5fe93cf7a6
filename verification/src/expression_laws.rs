//! What the operators of the query language do to the values they are given.
use crate::ast::{BinaryOperator, Expr, LiteralValue, UnaryOperator};
use crate::compare::coerced_equal;
use crate::error::ErrorView;
use crate::eval::{binary_op, chosen_branch, eval, listed, truth};
use crate::float::float_of_int;
use crate::host::{FloatOp, HostView};
use crate::like::like_at;
use crate::order::Order;
use crate::schema::name_from;
use crate::text::{lower_text, same_name, text_order};
use crate::types::{pow10, ValueView};
use crate::values::{abs, lemma_quot_rem, quot, rem};
use vstd::prelude::*;

verus! {

// ---------------------------------------------------------------------------
// Expressions
// ---------------------------------------------------------------------------

/// An operator between two expressions.
pub open spec fn between_two(x: Expr, op: BinaryOperator, y: Expr) -> Expr {
    Expr::BinaryOp { left: Box::new(x), op, right: Box::new(y) }
}

/// Whether a value holds an integer.
pub open spec fn stands_for(v: ValueView, n: int) -> bool {
    match v {
        ValueView::Integer(i) => i == n,
        ValueView::BigInt(i) => i == n,
        _ => false,
    }
}

/// Whether a result is an integer: narrow, if it may be and fits, else wide, and an error if it
/// fits neither.
pub open spec fn comes_to(
    r: std::result::Result<ValueView, ErrorView>,
    n: int,
    narrow: bool,
) -> bool {
    if narrow && i32::MIN <= n <= i32::MAX {
        r == Ok::<ValueView, ErrorView>(ValueView::Integer(n as i32))
    } else if i64::MIN <= n <= i64::MAX {
        r == Ok::<ValueView, ErrorView>(ValueView::BigInt(n as i64))
    } else {
        r == Err::<ValueView, ErrorView>(ErrorView::Execution("integer out of range"@))
    }
}

/// Whether `q` is the quotient of `a` and `b` without its fraction.
pub open spec fn truncated(a: int, b: int, q: int) -> bool {
    let left = a - q * b;
    &&& b > 0 ==> -b < left < b
    &&& b < 0 ==> b < left < -b
    &&& a >= 0 ==> left >= 0
    &&& a <= 0 ==> left <= 0
}

// ---------------------------------------------------------------------------
// Arithmetic
// ---------------------------------------------------------------------------

/// `+`, `-` and `*` on integers add, subtract and multiply them.
pub proof fn law_integer_arithmetic(
    x: Expr,
    y: Expr,
    v: ValueView,
    w: ValueView,
    a: int,
    b: int,
    row: Seq<ValueView>,
    names: Seq<Seq<char>>,
    h: HostView,
)
    requires
        eval(x, row, names, h) == Ok::<ValueView, ErrorView>(v),
        eval(y, row, names, h) == Ok::<ValueView, ErrorView>(w),
        stands_for(v, a),
        stands_for(w, b),
    ensures
        comes_to(
            eval(between_two(x, BinaryOperator::Add, y), row, names, h),
            a + b,
            v is Integer && w is Integer,
        ),
        comes_to(
            eval(between_two(x, BinaryOperator::Sub, y), row, names, h),
            a - b,
            v is Integer && w is Integer,
        ),
        comes_to(
            eval(between_two(x, BinaryOperator::Mul, y), row, names, h),
            a * b,
            v is Integer && w is Integer,
        ),
{
    reveal_with_fuel(eval, 2);
}

/// Adding undoes subtracting, on narrow integers whose difference is narrow too.
pub proof fn law_adding_undoes_subtracting(a: i32, b: i32, h: HostView)
    requires
        i32::MIN <= a - b <= i32::MAX,
    ensures
        binary_op(ValueView::Integer(a), BinaryOperator::Sub, ValueView::Integer(b), h) matches Ok(
            d,
        ) && binary_op(d, BinaryOperator::Add, ValueView::Integer(b), h) == Ok::<
            ValueView,
            ErrorView,
        >(ValueView::Integer(a)),
{
}

proof fn lemma_truncated(a: int, b: int)
    requires
        b != 0,
    ensures
        truncated(a, b, quot(a, b)),
        rem(a, b) == a - quot(a, b) * b,
{
    lemma_quot_rem(a, b);
    let x = abs(a);
    let y = abs(b);
    assert(0 <= x % y < y) by (nonlinear_arith)
        requires
            y > 0,
    ;
    assert(a == 0 ==> rem(a, b) == 0) by {
        if a == 0 {
            assert(0int % y == 0) by (nonlinear_arith)
                requires
                    y > 0,
            ;
        }
    }
}

/// `/` and `%` on integers give the quotient without its fraction, and what it leaves over.
pub proof fn law_integer_division(
    x: Expr,
    y: Expr,
    v: ValueView,
    w: ValueView,
    a: int,
    b: int,
    row: Seq<ValueView>,
    names: Seq<Seq<char>>,
    h: HostView,
) -> (q: int)
    requires
        eval(x, row, names, h) == Ok::<ValueView, ErrorView>(v),
        eval(y, row, names, h) == Ok::<ValueView, ErrorView>(w),
        stands_for(v, a),
        stands_for(w, b),
    ensures
        b != 0 ==> truncated(a, b, q),
        b != 0 ==> comes_to(
            eval(between_two(x, BinaryOperator::Div, y), row, names, h),
            q,
            v is Integer && w is Integer,
        ),
        b != 0 ==> comes_to(
            eval(between_two(x, BinaryOperator::Modulo, y), row, names, h),
            a - q * b,
            v is Integer && w is Integer,
        ),
        b == 0 ==> eval(between_two(x, BinaryOperator::Div, y), row, names, h) == Err::<
            ValueView,
            ErrorView,
        >(ErrorView::Execution("division by zero"@)),
        b == 0 ==> eval(between_two(x, BinaryOperator::Modulo, y), row, names, h) == Err::<
            ValueView,
            ErrorView,
        >(ErrorView::Execution("modulo by zero"@)),
{
    reveal_with_fuel(eval, 2);
    if b != 0 {
        lemma_truncated(a, b);
    }
    quot(a, b)
}

/// The double that a number enters arithmetic with doubles as.
pub open spec fn as_double(v: ValueView, d: u64) -> bool {
    match v {
        ValueView::Float(f) => f == d,
        ValueView::Integer(n) => float_of_int(n as int) == d,
        ValueView::BigInt(n) => float_of_int(n as int) == d,
        _ => false,
    }
}

/// The result that a host gives, as a value.
pub open spec fn host_gives(
    r: std::result::Result<u64, ErrorView>,
) -> std::result::Result<ValueView, ErrorView> {
    match r {
        Ok(z) => Ok(ValueView::Float(z)),
        Err(e) => Err(e),
    }
}

/// Arithmetic in which a double takes part is what the host computes from the first and the
/// second operand, in this order.
pub proof fn law_double_arithmetic(
    x: Expr,
    y: Expr,
    v: ValueView,
    w: ValueView,
    a: u64,
    b: u64,
    row: Seq<ValueView>,
    names: Seq<Seq<char>>,
    h: HostView,
)
    requires
        eval(x, row, names, h) == Ok::<ValueView, ErrorView>(v),
        eval(y, row, names, h) == Ok::<ValueView, ErrorView>(w),
        as_double(v, a),
        as_double(w, b),
        v is Float || w is Float,
    ensures
        eval(between_two(x, BinaryOperator::Add, y), row, names, h) == host_gives(
            h.numeric(FloatOp::Add, a, b),
        ),
        eval(between_two(x, BinaryOperator::Sub, y), row, names, h) == host_gives(
            h.numeric(FloatOp::Sub, a, b),
        ),
        eval(between_two(x, BinaryOperator::Mul, y), row, names, h) == host_gives(
            h.numeric(FloatOp::Mul, a, b),
        ),
        b != 0 && b != 0x8000_0000_0000_0000 ==> eval(
            between_two(x, BinaryOperator::Div, y),
            row,
            names,
            h,
        ) == host_gives(h.numeric(FloatOp::Div, a, b)),
        b != 0 && b != 0x8000_0000_0000_0000 ==> eval(
            between_two(x, BinaryOperator::Modulo, y),
            row,
            names,
            h,
        ) == host_gives(h.numeric(FloatOp::Rem, a, b)),
        b == 0 || b == 0x8000_0000_0000_0000 ==> eval(
            between_two(x, BinaryOperator::Div, y),
            row,
            names,
            h,
        ) == Err::<ValueView, ErrorView>(ErrorView::Execution("division by zero"@)),
{
    reveal_with_fuel(eval, 2);
}

// ---------------------------------------------------------------------------
// Comparison
// ---------------------------------------------------------------------------

/// Whether the six comparisons of two expressions come out as those of two numbers or texts of
/// which it is known whether the first is less and whether they are equal.
pub open spec fn compared_as(
    x: Expr,
    y: Expr,
    row: Seq<ValueView>,
    names: Seq<Seq<char>>,
    h: HostView,
    less: bool,
    equal: bool,
) -> bool {
    &&& says(eval(between_two(x, BinaryOperator::Eq, y), row, names, h), equal)
    &&& says(eval(between_two(x, BinaryOperator::NotEq, y), row, names, h), !equal)
    &&& says(eval(between_two(x, BinaryOperator::Lt, y), row, names, h), less)
    &&& says(eval(between_two(x, BinaryOperator::LtEq, y), row, names, h), less || equal)
    &&& says(eval(between_two(x, BinaryOperator::Gt, y), row, names, h), !less && !equal)
    &&& says(eval(between_two(x, BinaryOperator::GtEq, y), row, names, h), !less)
}

/// Whether a result is TRUE or FALSE.
pub open spec fn says(r: std::result::Result<ValueView, ErrorView>, b: bool) -> bool {
    r == Ok::<ValueView, ErrorView>(ValueView::Boolean(b))
}

/// Integers compare by their values, whatever their widths.
pub proof fn law_integers_compare(
    x: Expr,
    y: Expr,
    v: ValueView,
    w: ValueView,
    a: int,
    b: int,
    row: Seq<ValueView>,
    names: Seq<Seq<char>>,
    h: HostView,
)
    requires
        eval(x, row, names, h) == Ok::<ValueView, ErrorView>(v),
        eval(y, row, names, h) == Ok::<ValueView, ErrorView>(w),
        stands_for(v, a),
        stands_for(w, b),
    ensures
        compared_as(x, y, row, names, h, a < b, a == b),
{
    reveal_with_fuel(eval, 2);
}

/// Moments, dates and times of day compare as they follow each other, and FALSE is less than
/// TRUE.
pub proof fn law_moments_compare(
    x: Expr,
    y: Expr,
    v: ValueView,
    w: ValueView,
    row: Seq<ValueView>,
    names: Seq<Seq<char>>,
    h: HostView,
)
    requires
        eval(x, row, names, h) == Ok::<ValueView, ErrorView>(v),
        eval(y, row, names, h) == Ok::<ValueView, ErrorView>(w),
    ensures
        v matches ValueView::DateTime(a) ==> w matches ValueView::DateTime(b) ==> compared_as(
            x,
            y,
            row,
            names,
            h,
            a < b,
            a == b,
        ),
        v matches ValueView::Date(a) ==> w matches ValueView::Date(b) ==> compared_as(
            x,
            y,
            row,
            names,
            h,
            a < b,
            a == b,
        ),
        v matches ValueView::Time(a) ==> w matches ValueView::Time(b) ==> compared_as(
            x,
            y,
            row,
            names,
            h,
            a < b,
            a == b,
        ),
        v matches ValueView::Boolean(a) ==> w matches ValueView::Boolean(b) ==> compared_as(
            x,
            y,
            row,
            names,
            h,
            !a && b,
            a == b,
        ),
{
    reveal_with_fuel(eval, 2);
}

/// Decimals compare by the numbers that they stand for.
pub proof fn law_decimals_compare(
    x: Expr,
    y: Expr,
    a: i64,
    s: u8,
    b: i64,
    t: u8,
    row: Seq<ValueView>,
    names: Seq<Seq<char>>,
    h: HostView,
)
    requires
        eval(x, row, names, h) == Ok::<ValueView, ErrorView>(ValueView::Decimal(a, s)),
        eval(y, row, names, h) == Ok::<ValueView, ErrorView>(ValueView::Decimal(b, t)),
    ensures
        compared_as(
            x,
            y,
            row,
            names,
            h,
            a * pow10(t as nat) < b * pow10(s as nat),
            a * pow10(t as nat) == b * pow10(s as nat),
        ),
        forall|n: nat| #[trigger] pow10(n + 1) == 10 * pow10(n),
        pow10(0) == 1,
{
    reveal_with_fuel(eval, 2);
}

/// Whether a text comes before another: at the first place where they differ it has the lesser
/// character, or it ends there.
pub open spec fn comes_before(a: Seq<char>, b: Seq<char>, k: int) -> bool {
    &&& 0 <= k <= a.len()
    &&& k < b.len()
    &&& forall|i: int| 0 <= i < k ==> a[i] == b[i]
    &&& k < a.len() ==> a[k] < b[k]
}

proof fn lemma_texts_differ(a: Seq<char>, b: Seq<char>) -> (k: int)
    ensures
        text_order(a, b) == Order::Equal ==> a == b,
        text_order(a, b) == Order::Less ==> comes_before(a, b, k),
        text_order(a, b) == Order::Greater ==> comes_before(b, a, k),
    decreases a.len(),
{
    if a.len() == 0 || b.len() == 0 || a[0] != b[0] {
        if a.len() == 0 && b.len() == 0 {
            assert(a =~= b);
        }
        0
    } else {
        let k = lemma_texts_differ(a.skip(1), b.skip(1));
        if text_order(a, b) == Order::Equal {
            assert(a =~= seq![a[0]] + a.skip(1));
            assert(b =~= seq![b[0]] + b.skip(1));
        } else {
            let (p, q) = if text_order(a, b) == Order::Less {
                (a, b)
            } else {
                (b, a)
            };
            assert forall|i: int| 0 <= i < k + 1 implies p[i] == q[i] by {
                if i > 0 {
                    assert(p.skip(1)[i - 1] == q.skip(1)[i - 1]);
                }
            }
            if k + 1 < p.len() {
                assert(p.skip(1)[k] == p[k + 1]);
            }
            assert(q.skip(1)[k] == q[k + 1]);
        }
        k + 1
    }
}

/// Texts compare as words are listed: by the first character in which they differ.
pub proof fn law_texts_compare(
    x: Expr,
    y: Expr,
    a: Seq<char>,
    b: Seq<char>,
    row: Seq<ValueView>,
    names: Seq<Seq<char>>,
    h: HostView,
)
    requires
        eval(x, row, names, h) == Ok::<ValueView, ErrorView>(ValueView::Varchar(a)),
        eval(y, row, names, h) == Ok::<ValueView, ErrorView>(ValueView::Varchar(b)),
    ensures
        compared_as(
            x,
            y,
            row,
            names,
            h,
            exists|k: int| #[trigger] comes_before(a, b, k),
            a == b,
        ),
{
    reveal_with_fuel(eval, 2);
    let k = lemma_texts_differ(a, b);
    let less = exists|k: int| #[trigger] comes_before(a, b, k);
    if less {
        let j = choose|j: int| #[trigger] comes_before(a, b, j);
        if text_order(a, b) == Order::Equal {
            assert(false);
        }
        if text_order(a, b) == Order::Greater {
            if j < k {
                assert(b[j] == a[j]);
            } else if k < j {
                assert(a[k] == b[k]);
            }
            assert(false);
        }
    }
    if a == b {
        if text_order(a, b) != Order::Equal {
            assert(false);
        }
    }
}

// ---------------------------------------------------------------------------
// Logic
// ---------------------------------------------------------------------------

/// Whether a value is TRUE, FALSE or unknown.
pub open spec fn known_as(v: ValueView, b: Option<bool>) -> bool {
    match b {
        Some(t) => v == ValueView::Boolean(t),
        None => v is Null,
    }
}

/// AND is TRUE if both sides are, FALSE if one is FALSE, and else unknown; OR is TRUE if one side
/// is, FALSE if both are FALSE, and else unknown.
pub proof fn law_and_or_decide(
    x: Expr,
    y: Expr,
    a: Option<bool>,
    b: Option<bool>,
    row: Seq<ValueView>,
    names: Seq<Seq<char>>,
    h: HostView,
)
    requires
        eval(x, row, names, h) matches Ok(v) && known_as(v, a),
        eval(y, row, names, h) matches Ok(w) && known_as(w, b),
    ensures
        eval(between_two(x, BinaryOperator::And, y), row, names, h) matches Ok(r) && known_as(
            r,
            if a == Some(false) || b == Some(false) {
                Some(false)
            } else if a == Some(true) && b == Some(true) {
                Some(true)
            } else {
                None
            },
        ),
        eval(between_two(x, BinaryOperator::Or, y), row, names, h) matches Ok(r) && known_as(
            r,
            if a == Some(true) || b == Some(true) {
                Some(true)
            } else if a == Some(false) && b == Some(false) {
                Some(false)
            } else {
                None
            },
        ),
{
    reveal_with_fuel(eval, 2);
}

/// An operator before an expression.
pub open spec fn before_one(op: UnaryOperator, x: Expr) -> Expr {
    Expr::UnaryOp { op, expr: Box::new(x) }
}

/// NOT turns TRUE into FALSE and FALSE into TRUE and leaves what is unknown; a minus sign turns a
/// number into its negative.
pub proof fn law_not_and_minus(
    x: Expr,
    v: ValueView,
    row: Seq<ValueView>,
    names: Seq<Seq<char>>,
    h: HostView,
)
    requires
        eval(x, row, names, h) == Ok::<ValueView, ErrorView>(v),
    ensures
        v matches ValueView::Boolean(b) ==> says(
            eval(before_one(UnaryOperator::Not, x), row, names, h),
            !b,
        ),
        v is Null ==> eval(before_one(UnaryOperator::Not, x), row, names, h) == Ok::<
            ValueView,
            ErrorView,
        >(ValueView::Null),
        v is Null ==> eval(before_one(UnaryOperator::Neg, x), row, names, h) == Ok::<
            ValueView,
            ErrorView,
        >(ValueView::Null),
        v matches ValueView::Integer(n) ==> n != i32::MIN ==> (eval(
            before_one(UnaryOperator::Neg, x),
            row,
            names,
            h,
        ) matches Ok(ValueView::Integer(m)) && m + n == 0),
        v matches ValueView::BigInt(n) ==> n != i64::MIN ==> (eval(
            before_one(UnaryOperator::Neg, x),
            row,
            names,
            h,
        ) matches Ok(ValueView::BigInt(m)) && m + n == 0),
        v matches ValueView::Float(f) ==> (eval(
            before_one(UnaryOperator::Neg, x),
            row,
            names,
            h,
        ) matches Ok(ValueView::Float(g)) && if f < 0x8000_0000_0000_0000 {
            g == f + 0x8000_0000_0000_0000
        } else {
            g == f - 0x8000_0000_0000_0000
        }),
{
    reveal_with_fuel(eval, 2);
}

/// IS NULL is TRUE of NULL and FALSE of everything else, and IS NOT NULL the other way round.
pub proof fn law_null_is_told(
    x: Expr,
    v: ValueView,
    row: Seq<ValueView>,
    names: Seq<Seq<char>>,
    h: HostView,
)
    requires
        eval(x, row, names, h) == Ok::<ValueView, ErrorView>(v),
    ensures
        says(eval(Expr::IsNull(Box::new(x)), row, names, h), v is Null),
        says(eval(Expr::IsNotNull(Box::new(x)), row, names, h), !(v is Null)),
{
    reveal_with_fuel(eval, 2);
}

/// A condition holds exactly if it is TRUE or a number other than zero.
pub proof fn law_condition_holds(v: ValueView, h: HostView)
    ensures
        v matches ValueView::Boolean(b) ==> truth(v, h) == Ok::<bool, ErrorView>(b),
        v is Null ==> truth(v, h) == Ok::<bool, ErrorView>(false),
        forall|n: int| #[trigger]
            stands_for(v, n) ==> truth(v, h) == Ok::<bool, ErrorView>(n != 0),
        !(v is Boolean || v is Null || v is Integer || v is BigInt) ==> truth(v, h) is Err,
{
}

// ---------------------------------------------------------------------------
// Ranges and lists
// ---------------------------------------------------------------------------

/// Whether a value lies between two others.
pub open spec fn within_two(x: Expr, lo: Expr, hi: Expr) -> Expr {
    Expr::Between { expr: Box::new(x), low: Box::new(lo), high: Box::new(hi) }
}

/// BETWEEN is what the two comparisons with its bounds are together, on values that compare as
/// they stand.
pub proof fn law_between_is_two_comparisons(
    x: Expr,
    lo: Expr,
    hi: Expr,
    row: Seq<ValueView>,
    names: Seq<Seq<char>>,
    h: HostView,
)
    requires
        eval(x, row, names, h) matches Ok(v) && eval(lo, row, names, h) matches Ok(l) && eval(
            hi,
            row,
            names,
            h,
        ) matches Ok(u) && same_kind(v, l) && same_kind(v, u),
    ensures
        ({
            let at_least = eval(between_two(x, BinaryOperator::GtEq, lo), row, names, h);
            let at_most = eval(between_two(x, BinaryOperator::LtEq, hi), row, names, h);
            at_least matches Ok(ValueView::Boolean(a)) && at_most matches Ok(ValueView::Boolean(b))
                && says(eval(within_two(x, lo, hi), row, names, h), a && b)
        }),
{
    reveal_with_fuel(eval, 2);
}

/// Whether two values are of one kind whose values all compare.
pub open spec fn same_kind(a: ValueView, b: ValueView) -> bool {
    (a is Integer && b is Integer) || (a is BigInt && b is BigInt) || (a is Varchar && b is Varchar)
        || (a is DateTime && b is DateTime) || (a is Date && b is Date) || (a is Time && b is Time)
        || (a is Decimal && b is Decimal) || (a is Boolean && b is Boolean)
}

proof fn lemma_listed(
    v: ValueView,
    list: Vec<Expr>,
    i: int,
    row: Seq<ValueView>,
    names: Seq<Seq<char>>,
    h: HostView,
)
    requires
        0 <= i <= list.len(),
        !(v is Null),
        listed(v, list, i, row, names, h) is Ok,
        forall|k: int|
            0 <= k < list.len() ==> (eval(#[trigger] list[k], row, names, h) matches Ok(w) && (
            w is Null || same_kind(v, w))),
    ensures
        listed(v, list, i, row, names, h)->Ok_0 <==> exists|k: int|
            i <= k < list.len() && equals(v, eval(#[trigger] list[k], row, names, h)),
    decreases list.len() - i,
{
    if i < list.len() {
        let w = eval(list[i], row, names, h)->Ok_0;
        lemma_same_kind(v, w, h);
        if !equals(v, eval(list[i], row, names, h)) {
            lemma_listed(v, list, i + 1, row, names, h);
        }
    }
}

/// Whether a result is a value, known and equal to a given one.
pub open spec fn equals(v: ValueView, r: std::result::Result<ValueView, ErrorView>) -> bool {
    r matches Ok(w) && if v is Decimal && w is Decimal {
        v->Decimal_0 * pow10(w->Decimal_1 as nat) == w->Decimal_0 * pow10(v->Decimal_1 as nat)
    } else {
        v == w
    }
}

proof fn lemma_same_kind(v: ValueView, w: ValueView, h: HostView)
    requires
        !(v is Null),
        w is Null || same_kind(v, w),
    ensures
        coerced_equal(v, w, h) == Ok::<bool, ErrorView>(equals(v, Ok(w))),
{
    match (v, w) {
        (ValueView::Varchar(a), ValueView::Varchar(b)) => {
            let k = lemma_texts_differ(a, b);
        },
        _ => {},
    }
}

/// IN is TRUE exactly if the value equals one of the list, and NOT IN exactly if it equals none.
pub proof fn law_in_looks_through_the_list(
    e: Expr,
    not: Expr,
    x: Expr,
    list: Vec<Expr>,
    row: Seq<ValueView>,
    names: Seq<Seq<char>>,
    h: HostView,
)
    requires
        e matches Expr::In { expr, list: l } && *expr == x && l == list,
        not matches Expr::NotIn { expr, list: l } && *expr == x && l == list,
        eval(x, row, names, h) matches Ok(v) && !(v is Null) && forall|k: int|
            0 <= k < list.len() ==> (eval(#[trigger] list[k], row, names, h) matches Ok(w) && (
            w is Null || same_kind(v, w))),
    ensures
        ({
            let found = exists|k: int|
                0 <= k < list.len() && equals(
                    eval(x, row, names, h)->Ok_0,
                    eval(#[trigger] list[k], row, names, h),
                );
            &&& says(eval(e, row, names, h), found)
            &&& says(eval(not, row, names, h), !found)
        }),
{
    let v = eval(x, row, names, h)->Ok_0;
    lemma_listed_succeeds(v, list, 0, row, names, h);
    lemma_listed(v, list, 0, row, names, h);
}

proof fn lemma_listed_succeeds(
    v: ValueView,
    list: Vec<Expr>,
    i: int,
    row: Seq<ValueView>,
    names: Seq<Seq<char>>,
    h: HostView,
)
    requires
        0 <= i <= list.len(),
        !(v is Null),
        forall|k: int|
            0 <= k < list.len() ==> (eval(#[trigger] list[k], row, names, h) matches Ok(w) && (
            w is Null || same_kind(v, w))),
    ensures
        listed(v, list, i, row, names, h) is Ok,
    decreases list.len() - i,
{
    if i < list.len() {
        let w = eval(list[i], row, names, h)->Ok_0;
        lemma_same_kind(v, w, h);
        lemma_listed_succeeds(v, list, i + 1, row, names, h);
    }
}

// ---------------------------------------------------------------------------
// Patterns
// ---------------------------------------------------------------------------

/// Whether a text matches a pattern without `%`: it is as long, and has the same character
/// wherever the pattern has another than `_`.
pub open spec fn fits(s: Seq<char>, p: Seq<char>) -> bool {
    s.len() == p.len() && forall|i: int|
        0 <= i < p.len() ==> p[i] == '_' || #[trigger] p[i] == s[i]
}

/// Whether a pattern has no `%`.
pub open spec fn without_percent(p: Seq<char>) -> bool {
    forall|i: int| 0 <= i < p.len() ==> #[trigger] p[i] != '%'
}

proof fn lemma_fits(s: Seq<char>, p: Seq<char>, i: int, j: int)
    requires
        without_percent(p),
        0 <= i <= s.len(),
        0 <= j <= p.len(),
    ensures
        like_at(s, p, i, j) <==> fits(s.skip(i), p.skip(j)),
    decreases p.len() - j,
{
    let t = s.skip(i);
    let q = p.skip(j);
    if j < p.len() {
        assert(p[j] != '%');
        if i < s.len() {
            lemma_fits(s, p, i + 1, j + 1);
            let t1 = s.skip(i + 1);
            let q1 = p.skip(j + 1);
            assert(q[0] == p[j] && t[0] == s[i]);
            if fits(t, q) {
                assert forall|k: int| 0 <= k < q1.len() implies q1[k] == '_' || #[trigger] q1[k]
                    == t1[k] by {
                    assert(q[k + 1] == q1[k] && t[k + 1] == t1[k]);
                }
            }
            if fits(t1, q1) && (p[j] == '_' || p[j] == s[i]) {
                assert forall|k: int| 0 <= k < q.len() implies q[k] == '_' || #[trigger] q[k]
                    == t[k] by {
                    if k > 0 {
                        assert(q1[k - 1] == q[k] && t1[k - 1] == t[k]);
                    }
                }
            }
        }
    }
}

/// Where the part of a pattern behind its first `%` matches the rest of a text.
proof fn lemma_rest(s: Seq<char>, a: Seq<char>, b: Seq<char>, i: int, j: int)
    requires
        without_percent(a),
        0 <= i <= s.len(),
        0 <= j <= a.len(),
    ensures
        like_at(s, a + seq!['%'] + b, i, j) <==> exists|k: int|
            #[trigger] splits(s, a, b, i, j, k),
    decreases a.len() - j, s.len() - i,
{
    let p = a + seq!['%'] + b;
    let m = a.len() as int;
    if j < m {
        assert(p[j] == a[j]);
        assert(a[j] != '%');
        if i < s.len() && (a[j] == '_' || a[j] == s[i]) {
            lemma_rest(s, a, b, i + 1, j + 1);
            if like_at(s, p, i, j) {
                let k = choose|k: int| #[trigger] splits(s, a, b, i + 1, j + 1, k);
                lemma_split_back(s, a, b, i, j, k);
            }
            if exists|k: int| #[trigger] splits(s, a, b, i, j, k) {
                let k = choose|k: int| #[trigger] splits(s, a, b, i, j, k);
                lemma_split_on(s, a, b, i, j, k);
                assert(splits(s, a, b, i + 1, j + 1, k));
            }
        } else {
            if exists|k: int| #[trigger] splits(s, a, b, i, j, k) {
                let k = choose|k: int| #[trigger] splits(s, a, b, i, j, k);
                let t = s.subrange(i, i + m - j);
                assert(a.skip(j)[0] == a[j] && t[0] == s[i]);
                assert(false);
            }
        }
    } else {
        assert(p[j] == '%');
        lemma_tail(s, a, b, i, 0);
        if i < s.len() {
            lemma_rest(s, a, b, i + 1, j);
        }
        let none = a.skip(j);
        if like_at(s, p, i, j + 1) {
            assert(s.subrange(i, i) =~= none);
            assert(splits(s, a, b, i, j, i));
        } else if i < s.len() && like_at(s, p, i + 1, j) {
            let k = choose|k: int| #[trigger] splits(s, a, b, i + 1, j, k);
            assert(s.subrange(i, i) =~= none);
            assert(splits(s, a, b, i, j, k));
        }
        if exists|k: int| #[trigger] splits(s, a, b, i, j, k) {
            let k = choose|k: int| #[trigger] splits(s, a, b, i, j, k);
            if k > i {
                assert(s.subrange(i + 1, i + 1) =~= none);
                assert(splits(s, a, b, i + 1, j, k));
            }
        }
    }
}

/// Whether the text from `i` on begins with what fits the pattern `a` from `j` on, and from `k` on
/// matches `b`.
pub open spec fn splits(
    s: Seq<char>,
    a: Seq<char>,
    b: Seq<char>,
    i: int,
    j: int,
    k: int,
) -> bool {
    &&& i + a.len() - j <= k <= s.len()
    &&& fits(s.subrange(i, i + a.len() - j), a.skip(j))
    &&& like_at(s.skip(k), b, 0, 0)
}

proof fn lemma_split_back(s: Seq<char>, a: Seq<char>, b: Seq<char>, i: int, j: int, k: int)
    requires
        0 <= i < s.len(),
        0 <= j < a.len(),
        a[j] == '_' || a[j] == s[i],
        splits(s, a, b, i + 1, j + 1, k),
    ensures
        splits(s, a, b, i, j, k),
{
    let t = s.subrange(i, i + a.len() - j);
    let t1 = s.subrange(i + 1, i + a.len() - j);
    let q = a.skip(j);
    assert forall|n: int| 0 <= n < q.len() implies q[n] == '_' || #[trigger] q[n] == t[n] by {
        if n > 0 {
            assert(a.skip(j + 1)[n - 1] == q[n] && t1[n - 1] == t[n]);
        }
    }
}

proof fn lemma_split_on(s: Seq<char>, a: Seq<char>, b: Seq<char>, i: int, j: int, k: int)
    requires
        0 <= i < s.len(),
        0 <= j < a.len(),
        splits(s, a, b, i, j, k),
    ensures
        splits(s, a, b, i + 1, j + 1, k),
{
    let t = s.subrange(i, i + a.len() - j);
    let t1 = s.subrange(i + 1, i + a.len() - j);
    let q1 = a.skip(j + 1);
    assert forall|n: int| 0 <= n < q1.len() implies q1[n] == '_' || #[trigger] q1[n] == t1[n] by {
        assert(a.skip(j)[n + 1] == q1[n] && t[n + 1] == t1[n]);
    }
}

/// Behind a `%`, the pattern matches as the rest of it does by itself.
proof fn lemma_tail(s: Seq<char>, a: Seq<char>, b: Seq<char>, i: int, j: int)
    requires
        0 <= i <= s.len(),
        0 <= j <= b.len(),
    ensures
        like_at(s, a + seq!['%'] + b, i, a.len() + 1 + j) == like_at(s, b, i, j),
        like_at(s, b, i, j) == like_at(s.skip(i), b, 0, j),
    decreases (s.len() - i) + (b.len() - j),
{
    let p = a + seq!['%'] + b;
    let t = s.skip(i);
    if j < b.len() {
        assert(p[a.len() + 1 + j] == b[j]);
        if b[j] == '%' {
            lemma_tail(s, a, b, i, j + 1);
        }
        if i < s.len() {
            assert(t[0] == s[i]);
            assert(t.skip(1) =~= s.skip(i + 1));
            if b[j] == '%' {
                lemma_tail(s, a, b, i + 1, j);
                lemma_tail(t, a, b, 1, j);
            } else {
                lemma_tail(s, a, b, i + 1, j + 1);
                lemma_tail(t, a, b, 1, j + 1);
            }
        }
    }
}

/// The LIKE of two expressions, and its opposite.
pub open spec fn like_expr(x: Expr, y: Expr, negated: bool) -> Expr {
    if negated {
        Expr::NotLike { expr: Box::new(x), pattern: Box::new(y) }
    } else {
        Expr::Like { expr: Box::new(x), pattern: Box::new(y) }
    }
}

/// A text is LIKE a pattern without `%` if it is as long and has the same characters but where the
/// pattern has `_`. It is LIKE a pattern with `%` if it begins with what the pattern has before its
/// first `%` and is, from some place behind that on, LIKE what the pattern has behind it. Upper and
/// lower case make no difference. NOT LIKE is the opposite.
pub proof fn law_like_matches(
    x: Expr,
    y: Expr,
    s: Seq<char>,
    p: Seq<char>,
    a: Seq<char>,
    b: Seq<char>,
    row: Seq<ValueView>,
    names: Seq<Seq<char>>,
    h: HostView,
)
    requires
        eval(x, row, names, h) == Ok::<ValueView, ErrorView>(ValueView::Varchar(s)),
        eval(y, row, names, h) == Ok::<ValueView, ErrorView>(ValueView::Varchar(p)),
        without_percent(a),
    ensures
        lower_text(p) == a ==> says(
            eval(like_expr(x, y, false), row, names, h),
            fits(lower_text(s), a),
        ),
        lower_text(p) == a + seq!['%'] + b ==> says(
            eval(like_expr(x, y, false), row, names, h),
            exists|k: int| #[trigger] splits(lower_text(s), a, b, 0, 0, k),
        ),
        eval(like_expr(x, y, false), row, names, h) matches Ok(ValueView::Boolean(t)) && says(
            eval(like_expr(x, y, true), row, names, h),
            !t,
        ),
{
    reveal_with_fuel(eval, 2);
    let low = lower_text(s);
    lemma_fits(low, a, 0, 0);
    assert(low.skip(0) =~= low);
    assert(a.skip(0) =~= a);
    lemma_rest(low, a, b, 0, 0);
}

// ---------------------------------------------------------------------------
// Columns, literals, CASE
// ---------------------------------------------------------------------------

proof fn lemma_named(names: Seq<Seq<char>>, column: Seq<char>, i: int, k: int)
    requires
        0 <= i <= k < names.len(),
        names[k] == column,
        forall|j: int| 0 <= j < k ==> !same_name(#[trigger] names[j], column),
    ensures
        name_from(names, column, i) == Some(k),
    decreases k - i,
{
    if i < k {
        assert(!same_name(names[i], column));
        lemma_named(names, column, i + 1, k);
    }
}

/// A reference to a column by its name is the value that the row has there.
pub proof fn law_column_is_read(
    e: Expr,
    k: int,
    row: Seq<ValueView>,
    names: Seq<Seq<char>>,
    h: HostView,
)
    requires
        0 <= k < names.len(),
        k < row.len(),
        e matches Expr::ColumnRef { table, column } && column@ == names[k] && forall|j: int|
            0 <= j < k ==> !same_name(#[trigger] names[j], names[k]),
    ensures
        eval(e, row, names, h) == Ok::<ValueView, ErrorView>(row[k]),
{
    if let Expr::ColumnRef { table, column } = e {
        lemma_named(names, column@, 0, k);
    }
}

/// A literal stands for itself; an integer is narrow where it fits.
pub proof fn law_literal_is_itself(
    l: LiteralValue,
    row: Seq<ValueView>,
    names: Seq<Seq<char>>,
    h: HostView,
)
    ensures
        l matches LiteralValue::Integer(n) ==> comes_to(
            eval(Expr::Literal(l), row, names, h),
            n as int,
            true,
        ),
        l matches LiteralValue::Float(f) ==> eval(Expr::Literal(l), row, names, h) == Ok::<
            ValueView,
            ErrorView,
        >(ValueView::Float(f)),
        l matches LiteralValue::String(s) ==> eval(Expr::Literal(l), row, names, h) == Ok::<
            ValueView,
            ErrorView,
        >(ValueView::Varchar(s@)),
        l matches LiteralValue::Boolean(b) ==> says(eval(Expr::Literal(l), row, names, h), b),
        l is Null ==> eval(Expr::Literal(l), row, names, h) == Ok::<ValueView, ErrorView>(
            ValueView::Null,
        ),
{
}

proof fn lemma_chosen(
    operand: Option<ValueView>,
    whens: Vec<(Expr, Expr)>,
    i: int,
    k: int,
    row: Seq<ValueView>,
    names: Seq<Seq<char>>,
    h: HostView,
)
    requires
        0 <= i <= k <= whens.len(),
        forall|j: int|
            0 <= j < k ==> (eval((#[trigger] whens[j]).0, row, names, h) matches Ok(c) && (
            match operand {
                Some(v) => coerced_equal(v, c, h),
                None => truth(c, h),
            }) == Ok::<bool, ErrorView>(false)),
    ensures
        chosen_branch(operand, whens, i, row, names, h) == chosen_branch(
            operand,
            whens,
            k,
            row,
            names,
            h,
        ),
    decreases k - i,
{
    if i < k {
        assert(eval(whens[i].0, row, names, h) is Ok);
        lemma_chosen(operand, whens, i + 1, k, row, names, h);
    }
}

/// A CASE without an operand is the first of its values whose condition holds; else its ELSE, or
/// NULL without one.
pub proof fn law_case_takes_the_first_that_holds(
    e: Expr,
    whens: Vec<(Expr, Expr)>,
    els: Option<Box<Expr>>,
    k: int,
    row: Seq<ValueView>,
    names: Seq<Seq<char>>,
    h: HostView,
)
    requires
        e matches Expr::Case { operand, when_clauses, else_result } && operand is None
            && when_clauses == whens && else_result == els,
        0 <= k <= whens.len(),
        forall|j: int|
            0 <= j < k ==> (eval((#[trigger] whens[j]).0, row, names, h) matches Ok(c) && (
            c == ValueView::Boolean(false) || c is Null)),
        k < whens.len() ==> eval(whens[k].0, row, names, h) == Ok::<ValueView, ErrorView>(
            ValueView::Boolean(true),
        ),
    ensures
        eval(e, row, names, h) == if k < whens.len() {
            eval(whens[k].1, row, names, h)
        } else {
            match els {
                Some(x) => eval(*x, row, names, h),
                None => Ok(ValueView::Null),
            }
        },
{
    reveal_with_fuel(eval, 2);
    lemma_chosen(None, whens, 0, k, row, names, h);
}

/// A CASE with an operand is the first of its values whose comparand equals the operand; else its
/// ELSE, or NULL without one.
pub proof fn law_case_takes_the_first_that_equals(
    e: Expr,
    x: Expr,
    v: ValueView,
    whens: Vec<(Expr, Expr)>,
    els: Option<Box<Expr>>,
    k: int,
    row: Seq<ValueView>,
    names: Seq<Seq<char>>,
    h: HostView,
)
    requires
        e matches Expr::Case { operand, when_clauses, else_result } && operand == Some(Box::new(x))
            && when_clauses == whens && else_result == els,
        eval(x, row, names, h) == Ok::<ValueView, ErrorView>(v),
        !(v is Null),
        0 <= k <= whens.len(),
        forall|j: int|
            0 <= j < whens.len() ==> (eval((#[trigger] whens[j]).0, row, names, h) matches Ok(c) && (
            c is Null || same_kind(v, c)) && (j < k ==> !equals(v, Ok(c))) && (j == k ==> equals(
                v,
                Ok(c),
            ))),
    ensures
        eval(e, row, names, h) == if k < whens.len() {
            eval(whens[k].1, row, names, h)
        } else {
            match els {
                Some(y) => eval(*y, row, names, h),
                None => Ok(ValueView::Null),
            }
        },
{
    reveal_with_fuel(eval, 2);
    assert forall|j: int| 0 <= j < k implies (eval((#[trigger] whens[j]).0, row, names, h) matches Ok(
        c,
    ) && coerced_equal(v, c, h) == Ok::<bool, ErrorView>(false)) by {
        lemma_same_kind(v, eval(whens[j].0, row, names, h)->Ok_0, h);
    }
    lemma_chosen(Some(v), whens, 0, k, row, names, h);
    if k < whens.len() {
        lemma_same_kind(v, eval(whens[k].0, row, names, h)->Ok_0, h);
    }
}

/// `||` puts two texts one behind the other.
pub proof fn law_concatenation_joins_texts(
    x: Expr,
    y: Expr,
    s: Seq<char>,
    t: Seq<char>,
    row: Seq<ValueView>,
    names: Seq<Seq<char>>,
    h: HostView,
)
    requires
        eval(x, row, names, h) == Ok::<ValueView, ErrorView>(ValueView::Varchar(s)),
        eval(y, row, names, h) == Ok::<ValueView, ErrorView>(ValueView::Varchar(t)),
    ensures
        eval(Expr::Concat { left: Box::new(x), right: Box::new(y) }, row, names, h) == Ok::<
            ValueView,
            ErrorView,
        >(ValueView::Varchar(s + t)),
{
    reveal_with_fuel(eval, 2);
}

} // verus!
