//! Comparison across kinds of values, and the remainder operation.
use crate::dates::{datetime_value, parse_datetime_to_epoch};
use crate::debug_text::{complain_of_pair, pair_complaint};
use crate::error::{execution, outcome, ErrorView, Result};
use crate::float;
use crate::float::{float_as_i64, float_of_int, float_order, magnitude};
use crate::host::{FloatOp, Host, HostView};
use crate::order::Order;
use crate::types::{Value, ValueView};
use crate::values::{decimal_float, float_of_decimal, rem, remainder};
use vstd::prelude::*;

verus! {

/// The decimal with `scale` digits behind the point that is nearest to a double.
pub open spec fn float_decimal(f: u64, scale: u8, h: HostView) -> std::result::Result<
    ValueView,
    ErrorView,
> {
    match h.numeric(FloatOp::PowTen, scale as u64, 0) {
        Err(e) => Err(e),
        Ok(p) => match h.numeric(FloatOp::Mul, f, p) {
            Err(e) => Err(e),
            Ok(x) => match h.numeric(FloatOp::Round, x, 0) {
                Err(e) => Err(e),
                Ok(r) => Ok(ValueView::Decimal(float_as_i64(r) as i64, scale)),
            },
        },
    }
}

/// The decimal with `scale` digits behind the point that is nearest to a double.
pub fn decimal_of_float(f: u64, scale: u8, host: &Host) -> (r: Result<Value>)
    ensures
        outcome(r) == float_decimal(f, scale, host@),
{
    let p: u64 = host.numeric(FloatOp::PowTen, scale as u64, 0)?;
    let x: u64 = host.numeric(FloatOp::Mul, f, p)?;
    let y: u64 = host.numeric(FloatOp::Round, x, 0)?;
    Ok(Value::Decimal(float::as_i64(y), scale))
}

/// A text as the decimal that it denotes; the text itself, if it denotes no number.
pub open spec fn text_decimal(s: Seq<char>, scale: u8, h: HostView) -> std::result::Result<
    ValueView,
    ErrorView,
> {
    match h.parsed(s) {
        Err(e) => Err(e),
        Ok(None) => Ok(ValueView::Varchar(s)),
        Ok(Some(f)) => float_decimal(f, scale, h),
    }
}

fn decimal_of_text(s: &String, scale: u8, host: &Host) -> (r: Result<Value>)
    ensures
        outcome(r) == text_decimal(s@, scale, host@),
{
    match host.parsed(s.as_str())? {
        None => Ok(Value::Varchar(s.clone())),
        Some(f) => decimal_of_float(f, scale, host),
    }
}

/// The value that `v` becomes when it is compared with `other`: a truth value becomes an
/// integer beside an integer, an integer or a decimal a double beside a double, a narrow
/// integer a wide one beside a wide one, a text a moment beside a moment or a decimal beside
/// a decimal.
pub open spec fn coerced(v: ValueView, other: ValueView, h: HostView) -> std::result::Result<
    ValueView,
    ErrorView,
> {
    match (v, other) {
        (ValueView::Boolean(b), ValueView::Integer(_)) => Ok(
            ValueView::Integer(
                if b {
                    1
                } else {
                    0
                },
            ),
        ),
        (ValueView::Boolean(b), ValueView::BigInt(_)) => Ok(
            ValueView::BigInt(
                if b {
                    1
                } else {
                    0
                },
            ),
        ),
        (ValueView::Integer(n), ValueView::Float(_)) => Ok(
            ValueView::Float(float_of_int(n as int) as u64),
        ),
        (ValueView::BigInt(n), ValueView::Float(_)) => Ok(
            ValueView::Float(float_of_int(n as int) as u64),
        ),
        (ValueView::Integer(n), ValueView::BigInt(_)) => Ok(ValueView::BigInt(n as i64)),
        (ValueView::Varchar(s), ValueView::DateTime(_)) => Ok(
            ValueView::DateTime(datetime_value(s) as i64),
        ),
        (ValueView::Varchar(s), ValueView::Decimal(_, scale)) => text_decimal(s, scale, h),
        _ => Ok(v),
    }
}

/// Two values brought to kinds that compare with each other.
pub open spec fn coerced_pair(l: ValueView, r: ValueView, h: HostView) -> std::result::Result<
    (ValueView, ValueView),
    ErrorView,
> {
    match coerced(l, r, h) {
        Err(e) => Err(e),
        Ok(a) => match coerced(r, l, h) {
            Err(e) => Err(e),
            Ok(b) => Ok((a, b)),
        },
    }
}

fn coerce(v: &Value, other: &Value, host: &Host) -> (r: Result<Value>)
    ensures
        outcome(r) == coerced(v@, other@, host@),
{
    match (v, other) {
        (Value::Boolean(b), Value::Integer(_)) => Ok(
            Value::Integer(
                if *b {
                    1
                } else {
                    0
                },
            ),
        ),
        (Value::Boolean(b), Value::BigInt(_)) => Ok(
            Value::BigInt(
                if *b {
                    1
                } else {
                    0
                },
            ),
        ),
        (Value::Integer(n), Value::Float(_)) => Ok(Value::Float(float::of_i64(*n as i64))),
        (Value::BigInt(n), Value::Float(_)) => Ok(Value::Float(float::of_i64(*n))),
        (Value::Integer(n), Value::BigInt(_)) => Ok(Value::BigInt(*n as i64)),
        (Value::Varchar(s), Value::DateTime(_)) => Ok(
            Value::DateTime(parse_datetime_to_epoch(s.as_str())),
        ),
        (Value::Varchar(s), Value::Decimal(_, scale)) => decimal_of_text(s, *scale, host),
        _ => Ok(v.clone()),
    }
}

/// Coerce two values so they can be compared across types.
pub fn coerce_for_comparison(left: &Value, right: &Value, host: &Host) -> (r: Result<
    (Value, Value),
>)
    ensures
        outcome(r) == coerced_pair(left@, right@, host@),
{
    let a = coerce(left, right, host)?;
    let b = coerce(right, left, host)?;
    Ok((a, b))
}

/// The order of two values once they are coerced. A decimal is compared with a double as one.
pub open spec fn coerced_order(l: ValueView, r: ValueView, h: HostView) -> std::result::Result<
    Option<Order>,
    ErrorView,
> {
    match coerced_pair(l, r, h) {
        Err(e) => Err(e),
        Ok(p) => match p {
            (ValueView::Decimal(n, s), ValueView::Float(f)) => match decimal_float(n, s, h) {
                Err(e) => Err(e),
                Ok(d) => Ok(float_order(d, f)),
            },
            (ValueView::Float(f), ValueView::Decimal(n, s)) => match decimal_float(n, s, h) {
                Err(e) => Err(e),
                Ok(d) => Ok(float_order(f, d)),
            },
            _ => Ok(p.0.compare(p.1)),
        },
    }
}

/// The order of two values once they are coerced.
pub fn order_coerced(l: &Value, r: &Value, host: &Host) -> (o: Result<Option<Order>>)
    ensures
        outcome(o) == coerced_order(l@, r@, host@),
{
    let (a, b) = coerce_for_comparison(l, r, host)?;
    match (&a, &b) {
        (Value::Decimal(n, s), Value::Float(f)) => {
            let d: u64 = float_of_decimal(*n, *s, host)?;
            Ok(float::order(d, *f))
        },
        (Value::Float(f), Value::Decimal(n, s)) => {
            let d: u64 = float_of_decimal(*n, *s, host)?;
            Ok(float::order(*f, d))
        },
        _ => Ok(a.compare(&b)),
    }
}

/// Whether two values that are not NULL are equal once they are coerced.
pub open spec fn coerced_equal(l: ValueView, r: ValueView, h: HostView) -> std::result::Result<
    bool,
    ErrorView,
> {
    if l.is_null() || r.is_null() {
        Ok(false)
    } else {
        match coerced_order(l, r, h) {
            Err(e) => Err(e),
            Ok(o) => Ok(o == Some(Order::Equal)),
        }
    }
}

/// Whether two values that are not NULL are equal once they are coerced.
pub fn equal_coerced(l: &Value, r: &Value, host: &Host) -> (o: Result<bool>)
    ensures
        outcome(o) == coerced_equal(l@, r@, host@),
{
    if l.is_null() || r.is_null() {
        return Ok(false);
    }
    let o = order_coerced(l, r, host)?;
    Ok(
        match o {
            Some(Order::Equal) => true,
            _ => false,
        },
    )
}

// ---------------------------------------------------------------------------
// Remainder
// ---------------------------------------------------------------------------

/// The remainder of two doubles; the second is not zero.
pub open spec fn float_rem(x: u64, y: u64, h: HostView) -> std::result::Result<
    ValueView,
    ErrorView,
> {
    if magnitude(y) == 0 {
        Err(ErrorView::Execution("modulo by zero"@))
    } else {
        match h.numeric(FloatOp::Rem, x, y) {
            Ok(z) => Ok(ValueView::Float(z)),
            Err(e) => Err(e),
        }
    }
}

fn rem_float(x: u64, y: u64, host: &Host) -> (r: Result<Value>)
    ensures
        outcome(r) == float_rem(x, y, host@),
{
    if float::abs(y) == 0 {
        return execution("modulo by zero");
    }
    let z: u64 = host.numeric(FloatOp::Rem, x, y)?;
    Ok(Value::Float(z))
}

/// The remainder of two integers: narrow, if both are.
pub open spec fn int_rem(a: int, b: int, wide: bool) -> std::result::Result<ValueView, ErrorView> {
    if b == 0 {
        Err(ErrorView::Execution("modulo by zero"@))
    } else if wide {
        Ok(ValueView::BigInt(rem(a, b) as i64))
    } else {
        Ok(ValueView::Integer(rem(a, b) as i32))
    }
}

fn rem_int(a: i64, b: i64, wide: bool) -> (r: Result<Value>)
    requires
        !wide ==> i32::MIN <= b <= i32::MAX,
    ensures
        outcome(r) == int_rem(a as int, b as int, wide),
{
    if b == 0 {
        return execution("modulo by zero");
    }
    let m: i64 = remainder(a, b);
    if wide {
        Ok(Value::BigInt(m))
    } else {
        Ok(Value::Integer(m as i32))
    }
}

/// The remainder of two numbers. It has the sign of the first.
pub open spec fn modulo(l: ValueView, r: ValueView, h: HostView) -> std::result::Result<
    ValueView,
    ErrorView,
> {
    match (l, r) {
        (ValueView::Integer(a), ValueView::Integer(b)) => int_rem(a as int, b as int, false),
        (ValueView::BigInt(a), ValueView::BigInt(b)) => int_rem(a as int, b as int, true),
        (ValueView::BigInt(a), ValueView::Integer(b)) => int_rem(a as int, b as int, true),
        (ValueView::Integer(a), ValueView::BigInt(b)) => int_rem(a as int, b as int, true),
        (ValueView::Float(a), ValueView::Float(b)) => float_rem(a, b, h),
        (ValueView::Integer(a), ValueView::Float(b)) => float_rem(
            float_of_int(a as int) as u64,
            b,
            h,
        ),
        (ValueView::BigInt(a), ValueView::Float(b)) => float_rem(
            float_of_int(a as int) as u64,
            b,
            h,
        ),
        (ValueView::Float(a), ValueView::Integer(b)) => float_rem(
            a,
            float_of_int(b as int) as u64,
            h,
        ),
        (ValueView::Float(a), ValueView::BigInt(b)) => float_rem(
            a,
            float_of_int(b as int) as u64,
            h,
        ),
        _ => Err(pair_complaint("cannot compute modulo of "@, l, " and "@, r, h)),
    }
}

/// The remainder of two numbers.
pub fn eval_modulo(left: &Value, right: &Value, host: &Host) -> (r: Result<Value>)
    ensures
        outcome(r) == modulo(left@, right@, host@),
{
    match (left, right) {
        (Value::Integer(a), Value::Integer(b)) => rem_int(*a as i64, *b as i64, false),
        (Value::BigInt(a), Value::BigInt(b)) => rem_int(*a, *b, true),
        (Value::BigInt(a), Value::Integer(b)) => rem_int(*a, *b as i64, true),
        (Value::Integer(a), Value::BigInt(b)) => rem_int(*a as i64, *b, true),
        (Value::Float(a), Value::Float(b)) => rem_float(*a, *b, host),
        (Value::Integer(a), Value::Float(b)) => rem_float(float::of_i64(*a as i64), *b, host),
        (Value::BigInt(a), Value::Float(b)) => rem_float(float::of_i64(*a), *b, host),
        (Value::Float(a), Value::Integer(b)) => rem_float(*a, float::of_i64(*b as i64), host),
        (Value::Float(a), Value::BigInt(b)) => rem_float(*a, float::of_i64(*b), host),
        _ => complain_of_pair("cannot compute modulo of ", left, " and ", right, host),
    }
}

} // verus!
