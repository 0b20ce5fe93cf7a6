//! The scalar functions of the query language, on values.
use crate::float;
use crate::compare::{coerced_equal, equal_coerced, eval_modulo, modulo};
use crate::dates::{
    civil_date, datetime_value, div_floor, epoch_to_ymd, parse_datetime_to_epoch,
};
use crate::error::{execution, outcome, ErrorView, Result};
use crate::float::{float_as_i32, float_as_i64, float_order, magnitude};
use crate::host::{FloatOp, Host, HostView};
use crate::order::Order;
use crate::text::{
    begins, chars_of, contains, ends, ends_with, has_text, lower_text, replace, replaced, reversed,
    same_text, split_whitespace, starts_with, string_of, trim, trim_both, trim_both_text, trim_end,
    trim_end_text, trim_start, trim_start_text, trimmed, upper_text, words, CharSet,
};
use crate::types::{Value, ValueView};
use crate::values::{
    hex_text, int_result, int_value, show, show_hex, value_float, value_int, value_text,
    value_to_f64, value_to_i64,
};
use vstd::prelude::*;

verus! {

/// Functions of one argument.
#[derive(Debug, Clone, Copy, PartialEq, Eq, Structural)]
pub enum UnaryFn {
    Year,
    Month,
    Day,
    Upper,
    Lower,
    Trim,
    TrimStart,
    TrimEnd,
    Length,
    Reverse,
    Abs,
    Ceil,
    Floor,
    Sqrt,
    Sign,
    Same,
}

/// Functions of two arguments.
#[derive(Debug, Clone, Copy, PartialEq, Eq, Structural)]
pub enum BinaryFn {
    Left,
    Right,
    Power,
    Mod,
    DateAdd,
    DateSub,
    DateDiff,
    NullIf,
    Contains,
    FreeText,
}

/// Functions of three arguments.
#[derive(Debug, Clone, Copy, PartialEq, Eq, Structural)]
pub enum TernaryFn {
    Replace,
    PadLeft,
    PadRight,
}

/// What a function name stands for.
#[derive(Debug, Clone, Copy, PartialEq, Eq, Structural)]
pub enum Builtin {
    Unary(UnaryFn),
    Binary(BinaryFn),
    Ternary(TernaryFn),
    Substring,
    Round,
    If,
    Coalesce,
    Concat,
    Greatest,
    Least,
    Now,
    CurrentDate,
    NewId,
    Aggregate,
    Unknown,
}

/// The function that an uppercase name stands for.
#[verifier::opaque]
pub open spec fn builtin(s: Seq<char>) -> Builtin {
    if s == "YEAR"@ {
        Builtin::Unary(UnaryFn::Year)
    } else if s == "MONTH"@ {
        Builtin::Unary(UnaryFn::Month)
    } else if s == "DAY"@ || s == "DAYOFMONTH"@ {
        Builtin::Unary(UnaryFn::Day)
    } else if s == "NOW"@ || s == "CURRENT_TIMESTAMP"@ {
        Builtin::Now
    } else if s == "CONCAT"@ {
        Builtin::Concat
    } else if s == "IF"@ {
        Builtin::If
    } else if s == "IFNULL"@ || s == "COALESCE"@ {
        Builtin::Coalesce
    } else if s == "UPPER"@ || s == "UCASE"@ {
        Builtin::Unary(UnaryFn::Upper)
    } else if s == "LOWER"@ || s == "LCASE"@ {
        Builtin::Unary(UnaryFn::Lower)
    } else if s == "TRIM"@ {
        Builtin::Unary(UnaryFn::Trim)
    } else if s == "LTRIM"@ {
        Builtin::Unary(UnaryFn::TrimStart)
    } else if s == "RTRIM"@ {
        Builtin::Unary(UnaryFn::TrimEnd)
    } else if s == "LENGTH"@ || s == "CHAR_LENGTH"@ || s == "CHARACTER_LENGTH"@ {
        Builtin::Unary(UnaryFn::Length)
    } else if s == "SUBSTRING"@ || s == "SUBSTR"@ || s == "MID"@ {
        Builtin::Substring
    } else if s == "LEFT"@ {
        Builtin::Binary(BinaryFn::Left)
    } else if s == "RIGHT"@ {
        Builtin::Binary(BinaryFn::Right)
    } else if s == "REPLACE"@ {
        Builtin::Ternary(TernaryFn::Replace)
    } else if s == "REVERSE"@ {
        Builtin::Unary(UnaryFn::Reverse)
    } else if s == "LPAD"@ {
        Builtin::Ternary(TernaryFn::PadLeft)
    } else if s == "RPAD"@ {
        Builtin::Ternary(TernaryFn::PadRight)
    } else if s == "ABS"@ {
        Builtin::Unary(UnaryFn::Abs)
    } else if s == "ROUND"@ {
        Builtin::Round
    } else if s == "CEIL"@ || s == "CEILING"@ {
        Builtin::Unary(UnaryFn::Ceil)
    } else if s == "FLOOR"@ {
        Builtin::Unary(UnaryFn::Floor)
    } else if s == "POWER"@ || s == "POW"@ {
        Builtin::Binary(BinaryFn::Power)
    } else if s == "SQRT"@ {
        Builtin::Unary(UnaryFn::Sqrt)
    } else if s == "MOD"@ {
        Builtin::Binary(BinaryFn::Mod)
    } else if s == "SIGN"@ {
        Builtin::Unary(UnaryFn::Sign)
    } else if s == "DATE_ADD"@ || s == "ADDDATE"@ {
        Builtin::Binary(BinaryFn::DateAdd)
    } else if s == "DATE_SUB"@ || s == "SUBDATE"@ {
        Builtin::Binary(BinaryFn::DateSub)
    } else if s == "DATEDIFF"@ {
        Builtin::Binary(BinaryFn::DateDiff)
    } else if s == "CURDATE"@ || s == "CURRENT_DATE"@ {
        Builtin::CurrentDate
    } else if s == "CAST"@ {
        Builtin::Unary(UnaryFn::Same)
    } else if s == "NULLIF"@ {
        Builtin::Binary(BinaryFn::NullIf)
    } else if s == "GREATEST"@ {
        Builtin::Greatest
    } else if s == "LEAST"@ {
        Builtin::Least
    } else if s == "NEWID"@ || s == "UUID"@ || s == "GEN_RANDOM_UUID"@ || s == "UUID_GENERATE_V4"@ {
        Builtin::NewId
    } else if s == "CONTAINS"@ {
        Builtin::Binary(BinaryFn::Contains)
    } else if s == "FREETEXT"@ {
        Builtin::Binary(BinaryFn::FreeText)
    } else if aggregate_name(s) {
        Builtin::Aggregate
    } else {
        Builtin::Unknown
    }
}

/// Whether an uppercase name is that of an aggregate function.
pub open spec fn aggregate_name(s: Seq<char>) -> bool {
    s == "COUNT"@ || s == "SUM"@ || s == "AVG"@ || s == "MIN"@ || s == "MAX"@
}

/// Whether an uppercase name is that of an aggregate function.
pub fn is_aggregate_name(s: &str) -> (r: bool)
    ensures
        r == aggregate_name(s@),
{
    same_text(s, "COUNT") || same_text(s, "SUM") || same_text(s, "AVG") || same_text(s, "MIN")
        || same_text(s, "MAX")
}

/// The function that an uppercase name stands for.
pub fn builtin_of(s: &str) -> (r: Builtin)
    ensures
        r == builtin(s@),
{
    proof {
        reveal(builtin);
    }
    if same_text(s, "YEAR") {
        Builtin::Unary(UnaryFn::Year)
    } else if same_text(s, "MONTH") {
        Builtin::Unary(UnaryFn::Month)
    } else if same_text(s, "DAY") || same_text(s, "DAYOFMONTH") {
        Builtin::Unary(UnaryFn::Day)
    } else if same_text(s, "NOW") || same_text(s, "CURRENT_TIMESTAMP") {
        Builtin::Now
    } else if same_text(s, "CONCAT") {
        Builtin::Concat
    } else if same_text(s, "IF") {
        Builtin::If
    } else if same_text(s, "IFNULL") || same_text(s, "COALESCE") {
        Builtin::Coalesce
    } else if same_text(s, "UPPER") || same_text(s, "UCASE") {
        Builtin::Unary(UnaryFn::Upper)
    } else if same_text(s, "LOWER") || same_text(s, "LCASE") {
        Builtin::Unary(UnaryFn::Lower)
    } else if same_text(s, "TRIM") {
        Builtin::Unary(UnaryFn::Trim)
    } else if same_text(s, "LTRIM") {
        Builtin::Unary(UnaryFn::TrimStart)
    } else if same_text(s, "RTRIM") {
        Builtin::Unary(UnaryFn::TrimEnd)
    } else if same_text(s, "LENGTH") || same_text(s, "CHAR_LENGTH") || same_text(
        s,
        "CHARACTER_LENGTH",
    ) {
        Builtin::Unary(UnaryFn::Length)
    } else if same_text(s, "SUBSTRING") || same_text(s, "SUBSTR") || same_text(s, "MID") {
        Builtin::Substring
    } else if same_text(s, "LEFT") {
        Builtin::Binary(BinaryFn::Left)
    } else if same_text(s, "RIGHT") {
        Builtin::Binary(BinaryFn::Right)
    } else if same_text(s, "REPLACE") {
        Builtin::Ternary(TernaryFn::Replace)
    } else if same_text(s, "REVERSE") {
        Builtin::Unary(UnaryFn::Reverse)
    } else if same_text(s, "LPAD") {
        Builtin::Ternary(TernaryFn::PadLeft)
    } else if same_text(s, "RPAD") {
        Builtin::Ternary(TernaryFn::PadRight)
    } else if same_text(s, "ABS") {
        Builtin::Unary(UnaryFn::Abs)
    } else if same_text(s, "ROUND") {
        Builtin::Round
    } else if same_text(s, "CEIL") || same_text(s, "CEILING") {
        Builtin::Unary(UnaryFn::Ceil)
    } else if same_text(s, "FLOOR") {
        Builtin::Unary(UnaryFn::Floor)
    } else if same_text(s, "POWER") || same_text(s, "POW") {
        Builtin::Binary(BinaryFn::Power)
    } else if same_text(s, "SQRT") {
        Builtin::Unary(UnaryFn::Sqrt)
    } else if same_text(s, "MOD") {
        Builtin::Binary(BinaryFn::Mod)
    } else if same_text(s, "SIGN") {
        Builtin::Unary(UnaryFn::Sign)
    } else if same_text(s, "DATE_ADD") || same_text(s, "ADDDATE") {
        Builtin::Binary(BinaryFn::DateAdd)
    } else if same_text(s, "DATE_SUB") || same_text(s, "SUBDATE") {
        Builtin::Binary(BinaryFn::DateSub)
    } else if same_text(s, "DATEDIFF") {
        Builtin::Binary(BinaryFn::DateDiff)
    } else if same_text(s, "CURDATE") || same_text(s, "CURRENT_DATE") {
        Builtin::CurrentDate
    } else if same_text(s, "CAST") {
        Builtin::Unary(UnaryFn::Same)
    } else if same_text(s, "NULLIF") {
        Builtin::Binary(BinaryFn::NullIf)
    } else if same_text(s, "GREATEST") {
        Builtin::Greatest
    } else if same_text(s, "LEAST") {
        Builtin::Least
    } else if same_text(s, "NEWID") || same_text(s, "UUID") || same_text(s, "GEN_RANDOM_UUID")
        || same_text(s, "UUID_GENERATE_V4") {
        Builtin::NewId
    } else if same_text(s, "CONTAINS") {
        Builtin::Binary(BinaryFn::Contains)
    } else if same_text(s, "FREETEXT") {
        Builtin::Binary(BinaryFn::FreeText)
    } else if is_aggregate_name(s) {
        Builtin::Aggregate
    } else {
        Builtin::Unknown
    }
}

// ---------------------------------------------------------------------------
// Conversions
// ---------------------------------------------------------------------------

/// The 32-bit integer that agrees with an integer in its 32 low bits.
pub open spec fn wrap32(n: int) -> int {
    let m = n % 0x1_0000_0000;
    if m >= 0x8000_0000 {
        m - 0x1_0000_0000
    } else {
        m
    }
}

/// The 32-bit integer that agrees with an integer in its 32 low bits.
pub fn wrap_i32(n: i128) -> (r: i32)
    requires
        -0x1_0000_0000_0000_0000_0000 <= n <= 0x1_0000_0000_0000_0000_0000,
    ensures
        r == wrap32(n as int),
{
    // Adding a multiple of the modulus makes the dividend positive.
    let shifted: i128 = n + 0x1_0000_0000_0000_0000_0000;
    let m: i128 = shifted % 0x1_0000_0000;
    assert((n as int + 0x1_0000_0000 * 0x1_0000_0000_0000) % 0x1_0000_0000 == n as int
        % 0x1_0000_0000) by {
        vstd::arithmetic::div_mod::lemma_mod_multiples_vanish(
            0x1_0000_0000_0000,
            n as int,
            0x1_0000_0000,
        );
    }
    if m >= 0x8000_0000 {
        (m - 0x1_0000_0000) as i32
    } else {
        m as i32
    }
}

/// A double without a fraction as an integer value: narrow where it fits.
pub open spec fn float_whole(f: u64) -> ValueView {
    let above = float_order(f, float::I32_MIN_BITS);
    let below = float_order(f, float::I32_MAX_BITS);
    if (above == Some(Order::Greater) || above == Some(Order::Equal)) && (below == Some(Order::Less)
        || below == Some(Order::Equal)) {
        ValueView::Integer(float_as_i32(f) as i32)
    } else {
        ValueView::BigInt(float_as_i64(f) as i64)
    }
}

fn whole_of_float(f: u64) -> (r: Value)
    ensures
        r@ == float_whole(f),
{
    let above: bool = match float::order(f, float::I32_MIN_BITS) {
        Some(Order::Greater) => true,
        Some(Order::Equal) => true,
        _ => false,
    };
    let below: bool = match float::order(f, float::I32_MAX_BITS) {
        Some(Order::Less) => true,
        Some(Order::Equal) => true,
        _ => false,
    };
    if above && below {
        Value::Integer(float::as_i32(f))
    } else {
        Value::BigInt(float::as_i64(f))
    }
}

/// The moment that a value stands for, in seconds since 1970-01-01.
pub open spec fn value_epoch(v: ValueView) -> int {
    match v {
        ValueView::DateTime(e) => e as int,
        ValueView::Varchar(s) => datetime_value(s),
        ValueView::Integer(n) => n as int,
        ValueView::BigInt(n) => n as int,
        ValueView::Date(d) => d as int * 86400,
        _ => 0,
    }
}

fn value_to_epoch(v: &Value) -> (r: i64)
    ensures
        r == value_epoch(v@),
{
    match v {
        Value::DateTime(e) => *e,
        Value::Varchar(s) => parse_datetime_to_epoch(s.as_str()),
        Value::Integer(n) => *n as i64,
        Value::BigInt(n) => *n,
        Value::Date(d) => *d as i64 * 86400,
        _ => 0,
    }
}

/// A moment as a value, if it is within range.
pub open spec fn moment(e: int) -> std::result::Result<ValueView, ErrorView> {
    if i64::MIN <= e <= i64::MAX {
        Ok(ValueView::DateTime(e as i64))
    } else {
        Err(ErrorView::Execution("datetime out of range"@))
    }
}

pub fn moment_value(e: i128) -> (r: Result<Value>)
    ensures
        outcome(r) == moment(e as int),
{
    if -0x8000_0000_0000_0000 <= e && e <= 0x7fff_ffff_ffff_ffff {
        Ok(Value::DateTime(e as i64))
    } else {
        execution("datetime out of range")
    }
}

// ---------------------------------------------------------------------------
// One argument
// ---------------------------------------------------------------------------

/// The part of the date of a moment that a function asks for.
pub open spec fn date_part(f: UnaryFn, epoch: int) -> ValueView {
    let d = civil_date(epoch / 86400);
    let n = if f == UnaryFn::Year {
        d.0
    } else if f == UnaryFn::Month {
        d.1
    } else {
        d.2
    };
    ValueView::Integer(wrap32(n) as i32)
}

/// A function from text to text or length, on the text of a value that is not NULL.
pub open spec fn text_fn(f: UnaryFn, s: Seq<char>) -> ValueView {
    match f {
        UnaryFn::Upper => ValueView::Varchar(upper_text(s)),
        UnaryFn::Lower => ValueView::Varchar(lower_text(s)),
        UnaryFn::Trim => ValueView::Varchar(trimmed(s)),
        UnaryFn::TrimStart => ValueView::Varchar(trim_start(s, CharSet::White)),
        UnaryFn::TrimEnd => ValueView::Varchar(trim_end(s, CharSet::White)),
        UnaryFn::Reverse => ValueView::Varchar(s.reverse()),
        _ => ValueView::Integer(wrap32(s.len() as int) as i32),
    }
}

/// The double that a rounding function yields, as an integer value.
pub open spec fn rounded(op: FloatOp, x: u64, h: HostView) -> std::result::Result<
    ValueView,
    ErrorView,
> {
    match h.numeric(op, x, 0) {
        Ok(c) => Ok(float_whole(c)),
        Err(e) => Err(e),
    }
}

/// The sign of an integer.
pub open spec fn sign(n: int) -> ValueView {
    ValueView::Integer(
        if n > 0 {
            1
        } else if n < 0 {
            -1i32
        } else {
            0
        },
    )
}

/// A function of one argument.
pub open spec fn unary(f: UnaryFn, v: ValueView, h: HostView) -> std::result::Result<
    ValueView,
    ErrorView,
> {
    match f {
        UnaryFn::Year | UnaryFn::Month | UnaryFn::Day => match v {
            ValueView::DateTime(e) => Ok(date_part(f, e as int)),
            ValueView::Varchar(s) => if f == UnaryFn::Day {
                Ok(ValueView::Null)
            } else {
                Ok(date_part(f, datetime_value(s)))
            },
            _ => Ok(ValueView::Null),
        },
        UnaryFn::Upper
        | UnaryFn::Lower
        | UnaryFn::Trim
        | UnaryFn::TrimStart
        | UnaryFn::TrimEnd
        | UnaryFn::Length
        | UnaryFn::Reverse => if v.is_null() {
            Ok(ValueView::Null)
        } else {
            match value_text(v, h) {
                Ok(s) => Ok(text_fn(f, s)),
                Err(e) => Err(e),
            }
        },
        UnaryFn::Abs => match v {
            ValueView::Integer(n) => Ok(
                ValueView::Integer(
                    if n < 0 && n != i32::MIN {
                        (-n) as i32
                    } else {
                        n
                    },
                ),
            ),
            ValueView::BigInt(n) => Ok(
                ValueView::BigInt(
                    if n < 0 && n != i64::MIN {
                        (-n) as i64
                    } else {
                        n
                    },
                ),
            ),
            ValueView::Float(x) => Ok(ValueView::Float(magnitude(x))),
            ValueView::Null => Ok(ValueView::Null),
            _ => Err(ErrorView::Execution("ABS requires a numeric argument"@)),
        },
        UnaryFn::Ceil => match v {
            ValueView::Integer(_) => Ok(v),
            ValueView::BigInt(_) => Ok(v),
            ValueView::Float(x) => rounded(FloatOp::Ceil, x, h),
            ValueView::Null => Ok(ValueView::Null),
            _ => Err(ErrorView::Execution("CEIL requires a numeric argument"@)),
        },
        UnaryFn::Floor => match v {
            ValueView::Integer(_) => Ok(v),
            ValueView::BigInt(_) => Ok(v),
            ValueView::Float(x) => rounded(FloatOp::Floor, x, h),
            ValueView::Null => Ok(ValueView::Null),
            _ => Err(ErrorView::Execution("FLOOR requires a numeric argument"@)),
        },
        UnaryFn::Sqrt => if v.is_null() {
            Ok(ValueView::Null)
        } else {
            match value_float(v, h) {
                Err(e) => Err(e),
                Ok(x) => if float_order(x, 0) == Some(Order::Less) {
                    Ok(ValueView::Null)
                } else {
                    match h.numeric(FloatOp::Sqrt, x, 0) {
                        Ok(r) => Ok(ValueView::Float(r)),
                        Err(e) => Err(e),
                    }
                },
            }
        },
        UnaryFn::Sign => match v {
            ValueView::Integer(n) => Ok(sign(n as int)),
            ValueView::BigInt(n) => Ok(sign(n as int)),
            ValueView::Float(x) => Ok(
                match float_order(x, 0) {
                    Some(Order::Greater) => ValueView::Integer(1),
                    Some(Order::Less) => ValueView::Integer(-1i32),
                    _ => ValueView::Integer(0),
                },
            ),
            ValueView::Null => Ok(ValueView::Null),
            _ => Err(ErrorView::Execution("SIGN requires a numeric argument"@)),
        },
        UnaryFn::Same => Ok(v),
    }
}

fn apply_date_part(f: UnaryFn, epoch: i64) -> (r: Value)
    requires
        f == UnaryFn::Year || f == UnaryFn::Month || f == UnaryFn::Day,
    ensures
        r@ == date_part(f, epoch as int),
{
    let (y, m, d) = epoch_to_ymd(epoch);
    let n: i64 = match f {
        UnaryFn::Year => y,
        UnaryFn::Month => m,
        _ => d,
    };
    Value::Integer(wrap_i32(n as i128))
}

fn apply_text_fn(f: UnaryFn, s: &String) -> (r: Value)
    ensures
        r@ == text_fn(f, s@),
{
    let s: &str = s.as_str();
    match f {
        UnaryFn::Upper => Value::Varchar(s.to_uppercase()),
        UnaryFn::Lower => Value::Varchar(s.to_lowercase()),
        UnaryFn::Trim => Value::Varchar(trim(s)),
        UnaryFn::TrimStart => Value::Varchar(trim_start_text(s, CharSet::White)),
        UnaryFn::TrimEnd => Value::Varchar(trim_end_text(s, CharSet::White)),
        UnaryFn::Reverse => Value::Varchar(reversed(s)),
        _ => Value::Integer(wrap_i32(s.unicode_len() as i128)),
    }
}

fn apply_sign(n: i64) -> (r: Value)
    ensures
        r@ == sign(n as int),
{
    Value::Integer(
        if n > 0 {
            1
        } else if n < 0 {
            -1
        } else {
            0
        },
    )
}

/// A function of one argument.
pub fn apply_unary(f: UnaryFn, v: Value, host: &Host) -> (r: Result<Value>)
    ensures
        outcome(r) == unary(f, v@, host@),
{
    match f {
        UnaryFn::Year | UnaryFn::Month | UnaryFn::Day => match &v {
            Value::DateTime(e) => Ok(apply_date_part(f, *e)),
            Value::Varchar(s) => if f == UnaryFn::Day {
                Ok(Value::Null)
            } else {
                Ok(apply_date_part(f, parse_datetime_to_epoch(s.as_str())))
            },
            _ => Ok(Value::Null),
        },
        UnaryFn::Upper
        | UnaryFn::Lower
        | UnaryFn::Trim
        | UnaryFn::TrimStart
        | UnaryFn::TrimEnd
        | UnaryFn::Length
        | UnaryFn::Reverse => {
            if v.is_null() {
                return Ok(Value::Null);
            }
            let s = show(&v, host)?;
            Ok(apply_text_fn(f, &s))
        },
        UnaryFn::Abs => match &v {
            Value::Integer(n) => Ok(
                Value::Integer(
                    if *n < 0 && *n != i32::MIN {
                        -*n
                    } else {
                        *n
                    },
                ),
            ),
            Value::BigInt(n) => Ok(
                Value::BigInt(
                    if *n < 0 && *n != i64::MIN {
                        -*n
                    } else {
                        *n
                    },
                ),
            ),
            Value::Float(x) => Ok(Value::Float(float::abs(*x))),
            Value::Null => Ok(Value::Null),
            _ => execution("ABS requires a numeric argument"),
        },
        UnaryFn::Ceil => match &v {
            Value::Integer(_) => Ok(v),
            Value::BigInt(_) => Ok(v),
            Value::Float(x) => {
                let c: u64 = host.numeric(FloatOp::Ceil, *x, 0)?;
                Ok(whole_of_float(c))
            },
            Value::Null => Ok(Value::Null),
            _ => execution("CEIL requires a numeric argument"),
        },
        UnaryFn::Floor => match &v {
            Value::Integer(_) => Ok(v),
            Value::BigInt(_) => Ok(v),
            Value::Float(x) => {
                let c: u64 = host.numeric(FloatOp::Floor, *x, 0)?;
                Ok(whole_of_float(c))
            },
            Value::Null => Ok(Value::Null),
            _ => execution("FLOOR requires a numeric argument"),
        },
        UnaryFn::Sqrt => {
            if v.is_null() {
                return Ok(Value::Null);
            }
            let x: u64 = value_to_f64(&v, host)?;
            match float::order(x, 0) {
                Some(Order::Less) => Ok(Value::Null),
                _ => {
                    let y: u64 = host.numeric(FloatOp::Sqrt, x, 0)?;
                    Ok(Value::Float(y))
                },
            }
        },
        UnaryFn::Sign => match &v {
            Value::Integer(n) => Ok(apply_sign(*n as i64)),
            Value::BigInt(n) => Ok(apply_sign(*n)),
            Value::Float(x) => Ok(
                match float::order(*x, 0) {
                    Some(Order::Greater) => Value::Integer(1),
                    Some(Order::Less) => Value::Integer(-1),
                    _ => Value::Integer(0),
                },
            ),
            Value::Null => Ok(Value::Null),
            _ => execution("SIGN requires a numeric argument"),
        },
        UnaryFn::Same => Ok(v),
    }
}

// ---------------------------------------------------------------------------
// Two arguments
// ---------------------------------------------------------------------------

/// A number of characters asked for, cut to what there is.
pub open spec fn count_of(n: int, len: int) -> int {
    if n < 0 {
        0
    } else if n > len {
        len
    } else {
        n
    }
}

fn clip(n: i64, len: usize) -> (r: usize)
    ensures
        r == count_of(n as int, len as int),
{
    if n < 0 {
        0
    } else if n as u64 > len as u64 {
        len
    } else {
        n as usize
    }
}

/// Whether a word of a search has no meaning of its own.
pub open spec fn noise(w: Seq<char>) -> bool {
    w == "and"@ || w == "or"@ || w == "not"@
}

/// Whether a word of a search is found in a text: anywhere in it, or, with a trailing `*`, at
/// the beginning of one of its words.
pub open spec fn word_found(text: Seq<char>, w: Seq<char>) -> bool {
    if ends(w, seq!['*']) {
        exists|i: int|
            0 <= i < words(text).len() && begins(#[trigger] words(text)[i], w.drop_last())
    } else {
        has_text(text, w)
    }
}

/// Whether a lowercase text contains what a lowercase search asks for: the phrase between
/// quotation marks, or every word that is no noise.
pub open spec fn search_found(text: Seq<char>, search: Seq<char>) -> bool {
    let inner = trim_both(trimmed(search), CharSet::One('"'));
    if begins(search, seq!['"']) && ends(search, seq!['"']) {
        has_text(text, inner)
    } else {
        forall|i: int|
            0 <= i < words(inner).len() && !noise(#[trigger] words(inner)[i]) ==> word_found(
                text,
                words(inner)[i],
            )
    }
}

/// Whether a lowercase text contains any word of a lowercase search.
pub open spec fn any_word_found(text: Seq<char>, search: Seq<char>) -> bool {
    exists|i: int| 0 <= i < words(search).len() && has_text(text, #[trigger] words(search)[i])
}

/// A function of two arguments.
pub open spec fn binary(f: BinaryFn, a: ValueView, b: ValueView, h: HostView) -> std::result::Result<
    ValueView,
    ErrorView,
> {
    match f {
        BinaryFn::NullIf => match coerced_equal(a, b, h) {
            Err(e) => Err(e),
            Ok(same) => if same {
                Ok(ValueView::Null)
            } else {
                Ok(a)
            },
        },
        BinaryFn::Contains | BinaryFn::FreeText => if a.is_null() || b.is_null() {
            Ok(ValueView::Boolean(false))
        } else {
            match value_text(a, h) {
                Err(e) => Err(e),
                Ok(s) => match value_text(b, h) {
                    Err(e) => Err(e),
                    Ok(t) => Ok(
                        ValueView::Boolean(
                            if f == BinaryFn::Contains {
                                search_found(lower_text(s), lower_text(t))
                            } else {
                                any_word_found(lower_text(s), lower_text(t))
                            },
                        ),
                    ),
                },
            }
        },
        _ => if a.is_null() || b.is_null() {
            Ok(ValueView::Null)
        } else {
            match f {
                BinaryFn::Left => match value_text(a, h) {
                    Err(e) => Err(e),
                    Ok(s) => Ok(
                        ValueView::Varchar(s.take(count_of(value_int(b), s.len() as int))),
                    ),
                },
                BinaryFn::Right => match value_text(a, h) {
                    Err(e) => Err(e),
                    Ok(s) => Ok(
                        ValueView::Varchar(s.skip(s.len() - count_of(value_int(b), s.len() as int))),
                    ),
                },
                BinaryFn::Power => match value_float(a, h) {
                    Err(e) => Err(e),
                    Ok(x) => match value_float(b, h) {
                        Err(e) => Err(e),
                        Ok(y) => match h.numeric(FloatOp::Pow, x, y) {
                            Ok(z) => Ok(ValueView::Float(z)),
                            Err(e) => Err(e),
                        },
                    },
                },
                BinaryFn::Mod => modulo(a, b, h),
                BinaryFn::DateAdd => moment(value_epoch(a) + value_int(b) * 86400),
                BinaryFn::DateSub => moment(value_epoch(a) - value_int(b) * 86400),
                _ => int_result(
                    value_epoch(a) / 86400 - value_epoch(b) / 86400,
                    false,
                ),
            }
        },
    }
}

fn is_noise(w: &str) -> (r: bool)
    ensures
        r == noise(w@),
{
    same_text(w, "and") || same_text(w, "or") || same_text(w, "not")
}

fn find_word(text: &str, w: &str) -> (r: bool)
    ensures
        r == word_found(text@, w@),
{
    let mut star = String::new();
    star.push('*');
    assert(star@ == seq!['*']);
    if !ends_with(w, star.as_str()) {
        return contains(text, w);
    }
    let c = chars_of(w);
    let prefix = string_of(&c, 0, c.len() - 1);
    assert(prefix@ == w@.drop_last());
    let parts = split_whitespace(text);
    let ghost all = words(text@);
    let mut i: usize = 0;
    while i < parts.len()
        invariant
            0 <= i <= parts.len(),
            all == words(text@),
            parts.deep_view() == all,
            ends(w@, seq!['*']),
            prefix@ == w@.drop_last(),
            forall|k: int| 0 <= k < i ==> !begins(#[trigger] all[k], w@.drop_last()),
        decreases parts.len() - i,
    {
        assert(all[i as int] == parts@[i as int]@);
        if starts_with(parts[i].as_str(), prefix.as_str()) {
            return true;
        }
        i += 1;
    }
    false
}

fn search(text: &str, asked: &str) -> (r: bool)
    ensures
        r == search_found(text@, asked@),
{
    let mut quote = String::new();
    quote.push('"');
    assert(quote@ == seq!['"']);
    let inner = trim_both_text(trim(asked).as_str(), CharSet::One('"'));
    if starts_with(asked, quote.as_str()) && ends_with(asked, quote.as_str()) {
        return contains(text, inner.as_str());
    }
    let list = split_whitespace(inner.as_str());
    let ghost all = words(inner@);
    let mut i: usize = 0;
    while i < list.len()
        invariant
            0 <= i <= list.len(),
            inner@ == trim_both(trimmed(asked@), CharSet::One('"')),
            !(begins(asked@, seq!['"']) && ends(asked@, seq!['"'])),
            all == words(inner@),
            list.deep_view() == all,
            forall|k: int|
                0 <= k < i && !noise(#[trigger] all[k]) ==> word_found(text@, all[k]),
        decreases list.len() - i,
    {
        assert(all[i as int] == list@[i as int]@);
        if !is_noise(list[i].as_str()) && !find_word(text, list[i].as_str()) {
            return false;
        }
        i += 1;
    }
    true
}

fn search_any(text: &str, asked: &str) -> (r: bool)
    ensures
        r == any_word_found(text@, asked@),
{
    let list = split_whitespace(asked);
    let ghost all = words(asked@);
    let mut i: usize = 0;
    while i < list.len()
        invariant
            0 <= i <= list.len(),
            all == words(asked@),
            list.deep_view() == all,
            forall|k: int| 0 <= k < i ==> !has_text(text@, #[trigger] all[k]),
        decreases list.len() - i,
    {
        assert(all[i as int] == list@[i as int]@);
        if contains(text, list[i].as_str()) {
            return true;
        }
        i += 1;
    }
    false
}

/// A function of two arguments.
pub fn apply_binary(f: BinaryFn, a: Value, b: Value, host: &Host) -> (r: Result<Value>)
    ensures
        outcome(r) == binary(f, a@, b@, host@),
{
    match f {
        BinaryFn::NullIf => {
            if equal_coerced(&a, &b, host)? {
                Ok(Value::Null)
            } else {
                Ok(a)
            }
        },
        BinaryFn::Contains | BinaryFn::FreeText => {
            if a.is_null() || b.is_null() {
                return Ok(Value::Boolean(false));
            }
            let s = show(&a, host)?;
            let t = show(&b, host)?;
            let text = s.as_str().to_lowercase();
            let asked = t.as_str().to_lowercase();
            if f == BinaryFn::Contains {
                Ok(Value::Boolean(search(text.as_str(), asked.as_str())))
            } else {
                Ok(Value::Boolean(search_any(text.as_str(), asked.as_str())))
            }
        },
        _ => {
            if a.is_null() || b.is_null() {
                return Ok(Value::Null);
            }
            match f {
                BinaryFn::Left => {
                    let s = show(&a, host)?;
                    let c = chars_of(s.as_str());
                    let n: usize = clip(value_to_i64(&b), c.len());
                    assert(c@.subrange(0, n as int) == s@.take(n as int));
                    Ok(Value::Varchar(string_of(&c, 0, n)))
                },
                BinaryFn::Right => {
                    let s = show(&a, host)?;
                    let c = chars_of(s.as_str());
                    let n: usize = clip(value_to_i64(&b), c.len());
                    assert(c@.subrange(c.len() - n, c.len() as int) == s@.skip(s@.len() - n));
                    Ok(Value::Varchar(string_of(&c, c.len() - n, c.len())))
                },
                BinaryFn::Power => {
                    let x: u64 = value_to_f64(&a, host)?;
                    let y: u64 = value_to_f64(&b, host)?;
                    let z: u64 = host.numeric(FloatOp::Pow, x, y)?;
                    Ok(Value::Float(z))
                },
                BinaryFn::Mod => eval_modulo(&a, &b, host),
                BinaryFn::DateAdd => moment_value(
                    value_to_epoch(&a) as i128 + value_to_i64(&b) as i128 * 86400,
                ),
                BinaryFn::DateSub => moment_value(
                    value_to_epoch(&a) as i128 - value_to_i64(&b) as i128 * 86400,
                ),
                _ => {
                    let x: i64 = div_floor(value_to_epoch(&a), 86400);
                    let y: i64 = div_floor(value_to_epoch(&b), 86400);
                    int_value(x as i128 - y as i128, false)
                },
            }
        },
    }
}

// ---------------------------------------------------------------------------
// Three arguments
// ---------------------------------------------------------------------------

/// The first `n` characters of a text that is repeated without end.
pub open spec fn cycled(p: Seq<char>, n: int) -> Seq<char> {
    Seq::new(n as nat, |i: int| p[i % p.len() as int])
}

/// A text brought to a length: cut at the end, or filled up with a repeated text in front or
/// behind. An empty filler leaves a short text as it is.
pub open spec fn padded(s: Seq<char>, n: int, p: Seq<char>, front: bool) -> Seq<char> {
    if s.len() >= n {
        s.take(n)
    } else if p.len() == 0 {
        s
    } else if front {
        cycled(p, n - s.len()) + s
    } else {
        s + cycled(p, n - s.len())
    }
}

/// A function of three arguments.
pub open spec fn ternary(f: TernaryFn, a: ValueView, b: ValueView, c: ValueView, h: HostView) -> std::result::Result<
    ValueView,
    ErrorView,
> {
    if a.is_null() || b.is_null() || c.is_null() {
        Ok(ValueView::Null)
    } else {
        match value_text(a, h) {
            Err(e) => Err(e),
            Ok(s) => if f == TernaryFn::Replace {
                match value_text(b, h) {
                    Err(e) => Err(e),
                    Ok(from) => match value_text(c, h) {
                        Err(e) => Err(e),
                        Ok(to) => Ok(ValueView::Varchar(replaced(s, from, to))),
                    },
                }
            } else {
                match value_text(c, h) {
                    Err(e) => Err(e),
                    Ok(p) => {
                        let n = if value_int(b) < 0 {
                            0
                        } else {
                            value_int(b)
                        };
                        Ok(ValueView::Varchar(padded(s, n, p, f == TernaryFn::PadLeft)))
                    },
                }
            },
        }
    }
}

fn pad(s: &str, n: u64, p: &str, front: bool) -> (r: String)
    ensures
        r@ == padded(s@, n as int, p@, front),
{
    let c = chars_of(s);
    let q = chars_of(p);
    if c.len() as u64 >= n {
        assert(c@.subrange(0, n as int) == s@.take(n as int));
        return string_of(&c, 0, n as usize);
    }
    if q.len() == 0 {
        return s.to_owned();
    }
    let needed: u64 = n - c.len() as u64;
    let mut fill = String::new();
    let mut i: u64 = 0;
    let mut k: usize = 0;
    while i < needed
        invariant
            0 <= i <= needed,
            q@ == p@,
            q.len() > 0,
            k < q.len(),
            k == i as int % q.len() as int,
            fill@ == cycled(p@, i as int),
        decreases needed - i,
    {
        fill.push(q[k]);
        assert(fill@ =~= cycled(p@, i + 1));
        proof {
            lemma_next_mod(i as int, q.len() as int);
        }
        k = if k + 1 == q.len() {
            0
        } else {
            k + 1
        };
        i += 1;
    }
    if front {
        fill.append(s);
        fill
    } else {
        let mut out = s.to_owned();
        out.append(fill.as_str());
        out
    }
}

proof fn lemma_next_mod(i: int, n: int)
    requires
        0 <= i,
        n > 0,
    ensures
        (i + 1) % n == if i % n + 1 == n {
            0
        } else {
            i % n + 1
        },
{
    vstd::arithmetic::div_mod::lemma_fundamental_div_mod(i, n);
    vstd::arithmetic::div_mod::lemma_mod_bound(i, n);
    if i % n + 1 == n {
        assert(i + 1 == n * (i / n + 1)) by (nonlinear_arith)
            requires
                i == n * (i / n) + i % n,
                i % n + 1 == n,
        ;
        vstd::arithmetic::div_mod::lemma_fundamental_div_mod_converse(i + 1, n, i / n + 1, 0);
    } else {
        assert(n * (i / n) == (i / n) * n) by (nonlinear_arith);
        vstd::arithmetic::div_mod::lemma_fundamental_div_mod_converse(
            i + 1,
            n,
            i / n,
            i % n + 1,
        );
    }
}

/// A function of three arguments.
pub fn apply_ternary(f: TernaryFn, a: Value, b: Value, c: Value, host: &Host) -> (r: Result<Value>)
    ensures
        outcome(r) == ternary(f, a@, b@, c@, host@),
{
    if a.is_null() || b.is_null() || c.is_null() {
        return Ok(Value::Null);
    }
    let s = show(&a, host)?;
    if f == TernaryFn::Replace {
        let from = show(&b, host)?;
        let to = show(&c, host)?;
        Ok(Value::Varchar(replace(s.as_str(), from.as_str(), to.as_str())))
    } else {
        let p = show(&c, host)?;
        let n: i64 = value_to_i64(&b);
        let n: u64 = if n < 0 {
            0
        } else {
            n as u64
        };
        Ok(Value::Varchar(pad(s.as_str(), n, p.as_str(), f == TernaryFn::PadLeft)))
    }
}

// ---------------------------------------------------------------------------
// ROUND, SUBSTRING, dates and identifiers
// ---------------------------------------------------------------------------

/// A number rounded to a number of digits behind the point; a negative one counts digits
/// before it. Without digits behind the point the result is an integer.
pub open spec fn round_to(v: ValueView, digits: int, h: HostView) -> std::result::Result<
    ValueView,
    ErrorView,
> {
    let up = digits >= 0;
    match value_float(v, h) {
        Err(e) => Err(e),
        Ok(f) => match h.numeric(
            FloatOp::PowTen,
            (if up {
                digits
            } else {
                -digits
            }) as u64,
            0,
        ) {
            Err(e) => Err(e),
            Ok(p) => match h.numeric(
                if up {
                    FloatOp::Mul
                } else {
                    FloatOp::Div
                },
                f,
                p,
            ) {
                Err(e) => Err(e),
                Ok(x) => match h.numeric(FloatOp::Round, x, 0) {
                    Err(e) => Err(e),
                    Ok(y) => match h.numeric(
                        if up {
                            FloatOp::Div
                        } else {
                            FloatOp::Mul
                        },
                        y,
                        p,
                    ) {
                        Err(e) => Err(e),
                        Ok(z) => if digits > 0 {
                            Ok(ValueView::Float(z))
                        } else {
                            Ok(float_whole(z))
                        },
                    },
                },
            },
        },
    }
}

/// A number rounded to a number of digits behind the point.
pub fn apply_round(v: &Value, digits: i32, host: &Host) -> (r: Result<Value>)
    ensures
        outcome(r) == round_to(v@, digits as int, host@),
{
    let f: u64 = value_to_f64(v, host)?;
    let up: bool = digits >= 0;
    let power: u64 = if up {
        digits as u64
    } else {
        (-(digits as i64)) as u64
    };
    let p: u64 = host.numeric(FloatOp::PowTen, power, 0)?;
    let first = if up {
        FloatOp::Mul
    } else {
        FloatOp::Div
    };
    let second = if up {
        FloatOp::Div
    } else {
        FloatOp::Mul
    };
    let x: u64 = host.numeric(first, f, p)?;
    let y: u64 = host.numeric(FloatOp::Round, x, 0)?;
    let z: u64 = host.numeric(second, y, p)?;
    if digits > 0 {
        Ok(Value::Float(z))
    } else {
        Ok(whole_of_float(z))
    }
}

/// The index of the first character that SUBSTRING takes; positions count from one.
pub open spec fn first_index(start: int) -> int {
    if start < 1 {
        0
    } else {
        start - 1
    }
}

/// At most `len` characters of a text, from an index within it on.
pub open spec fn cut(s: Seq<char>, from: int, len: Option<int>) -> Seq<char> {
    match len {
        None => s.skip(from),
        Some(n) => s.subrange(from, from + count_of(n, s.len() - from)),
    }
}

/// At most `len` characters of a text, from an index within it on.
pub fn substring(c: &Vec<char>, from: usize, len: Option<i64>) -> (r: String)
    requires
        from < c.len(),
    ensures
        len is None ==> r@ == cut(c@, from as int, None),
        len is Some ==> r@ == cut(c@, from as int, Some(len->0 as int)),
{
    match len {
        None => {
            assert(c@.subrange(from as int, c.len() as int) == c@.skip(from as int));
            string_of(c, from, c.len())
        },
        Some(n) => string_of(c, from, from + clip(n, c.len() - from)),
    }
}

/// The midnight that began the day of a moment.
pub open spec fn midnight(now: int) -> int {
    now / 86400 * 86400
}

/// The identifier made of a clock reading: five groups of hexadecimal digits, with the marks
/// of a random identifier.
pub open spec fn uuid_text(nanos: int) -> Seq<char> {
    hex_text(nanos / 0x1_0000_0000_0000_0000_0000_0000, 8) + seq!['-'] + hex_text(
        nanos / 0x1_0000_0000_0000_0000_0000,
        4,
    ) + seq!['-', '4'] + hex_text(nanos / 0x1_0000_0000_0000_0000, 3) + seq!['-'] + hex_text(
        nanos / 0x1_0000_0000_0000 % 0x4000 + 0x8000,
        4,
    ) + seq!['-'] + hex_text(nanos, 12)
}

/// The identifier made of a clock reading.
pub fn make_uuid(nanos: u128) -> (r: String)
    ensures
        r@ == uuid_text(nanos as int),
{
    let mut s = show_hex(nanos / 0x1_0000_0000_0000_0000_0000_0000, 8);
    s.push('-');
    s.append(show_hex(nanos / 0x1_0000_0000_0000_0000_0000, 4).as_str());
    s.push('-');
    s.push('4');
    s.append(show_hex(nanos / 0x1_0000_0000_0000_0000, 3).as_str());
    s.push('-');
    s.append(show_hex(nanos / 0x1_0000_0000_0000 % 0x4000 + 0x8000, 4).as_str());
    s.push('-');
    s.append(show_hex(nanos, 12).as_str());
    assert(s@ =~= uuid_text(nanos as int));
    s
}

} // verus!
