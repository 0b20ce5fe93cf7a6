//! CAST: conversion of a value to a type.
use crate::float;
use crate::builtins::{wrap32, wrap_i32};
use crate::bytes::put_bytes;
use crate::compare::{decimal_of_float, float_decimal};
use crate::dates::{datetime_value, div_floor, parse_datetime_to_epoch};
use crate::error::{execution, outcome, ErrorView, Result};
use crate::float::{float_as_i32, float_as_i64, float_of_int, magnitude};
use crate::host::{Host, HostView};
use crate::text::{
    int_value_in, lower_text, parse_i32, parse_i64, pieces, same_text, split_char, trim, trimmed,
};
use crate::types::{pow10, pow10_i64, DataType, Value, ValueView};
use crate::values::{
    decimal_float, decimal_whole, float_of_decimal, lemma_no_pow10_at_min, quot, show, value_text,
};
use vstd::prelude::*;
use vstd::utf8::encode_utf8;

verus! {

/// The double that a text denotes; zero, if it denotes none.
pub open spec fn text_float(s: Seq<char>, h: HostView) -> std::result::Result<u64, ErrorView> {
    match h.parsed(trimmed(s)) {
        Err(e) => Err(e),
        Ok(None) => Ok(0),
        Ok(Some(f)) => Ok(f),
    }
}

fn float_of_text(s: &String, host: &Host) -> (r: Result<u64>)
    ensures
        outcome(r) == text_float(s@, host@),
{
    match host.parsed(trim(s.as_str()).as_str())? {
        None => Ok(0),
        Some(f) => Ok(f),
    }
}

/// A value as a 32-bit integer.
pub open spec fn cast_integer(v: ValueView, h: HostView) -> std::result::Result<
    ValueView,
    ErrorView,
> {
    match v {
        ValueView::Integer(n) => Ok(v),
        ValueView::BigInt(n) => Ok(ValueView::Integer(wrap32(n as int) as i32)),
        ValueView::Float(f) => Ok(ValueView::Integer(float_as_i32(f) as i32)),
        ValueView::Varchar(s) => match int_value_in(trimmed(s), i32::MIN as int, i32::MAX as int) {
            Some(n) => Ok(ValueView::Integer(n as i32)),
            None => match text_float(s, h) {
                Ok(f) => Ok(ValueView::Integer(float_as_i32(f) as i32)),
                Err(e) => Err(e),
            },
        },
        ValueView::Boolean(b) => Ok(
            ValueView::Integer(
                if b {
                    1
                } else {
                    0
                },
            ),
        ),
        ValueView::DateTime(e) => Ok(ValueView::Integer(wrap32(e as int) as i32)),
        ValueView::Null => Ok(ValueView::Null),
        ValueView::Decimal(n, s) => Ok(
            ValueView::Integer(wrap32(quot(n as int, pow10(s as nat))) as i32),
        ),
        _ => Ok(ValueView::Integer(0)),
    }
}

fn to_integer(v: &Value, host: &Host) -> (r: Result<Value>)
    ensures
        outcome(r) == cast_integer(v@, host@),
{
    match v {
        Value::Integer(n) => Ok(Value::Integer(*n)),
        Value::BigInt(n) => Ok(Value::Integer(wrap_i32(*n as i128))),
        Value::Float(f) => Ok(Value::Integer(float::as_i32(*f))),
        Value::Varchar(s) => match parse_i32(trim(s.as_str()).as_str()) {
            Some(n) => Ok(Value::Integer(n)),
            None => {
                let f: u64 = float_of_text(s, host)?;
                Ok(Value::Integer(float::as_i32(f)))
            },
        },
        Value::Boolean(b) => Ok(
            Value::Integer(
                if *b {
                    1
                } else {
                    0
                },
            ),
        ),
        Value::DateTime(e) => Ok(Value::Integer(wrap_i32(*e as i128))),
        Value::Null => Ok(Value::Null),
        Value::Decimal(n, s) => Ok(Value::Integer(wrap_i32(decimal_whole(*n, *s) as i128))),
        _ => Ok(Value::Integer(0)),
    }
}

/// A value as a 64-bit integer.
pub open spec fn cast_bigint(v: ValueView, h: HostView) -> std::result::Result<
    ValueView,
    ErrorView,
> {
    match v {
        ValueView::Integer(n) => Ok(ValueView::BigInt(n as i64)),
        ValueView::BigInt(n) => Ok(v),
        ValueView::Float(f) => Ok(ValueView::BigInt(float_as_i64(f) as i64)),
        ValueView::Varchar(s) => match int_value_in(trimmed(s), i64::MIN as int, i64::MAX as int) {
            Some(n) => Ok(ValueView::BigInt(n as i64)),
            None => match text_float(s, h) {
                Ok(f) => Ok(ValueView::BigInt(float_as_i64(f) as i64)),
                Err(e) => Err(e),
            },
        },
        ValueView::Boolean(b) => Ok(
            ValueView::BigInt(
                if b {
                    1
                } else {
                    0
                },
            ),
        ),
        ValueView::DateTime(e) => Ok(ValueView::BigInt(e)),
        ValueView::Null => Ok(ValueView::Null),
        ValueView::Decimal(n, s) => Ok(ValueView::BigInt(quot(n as int, pow10(s as nat)) as i64)),
        _ => Ok(ValueView::BigInt(0)),
    }
}

fn to_bigint(v: &Value, host: &Host) -> (r: Result<Value>)
    ensures
        outcome(r) == cast_bigint(v@, host@),
{
    match v {
        Value::Integer(n) => Ok(Value::BigInt(*n as i64)),
        Value::BigInt(n) => Ok(Value::BigInt(*n)),
        Value::Float(f) => Ok(Value::BigInt(float::as_i64(*f))),
        Value::Varchar(s) => match parse_i64(trim(s.as_str()).as_str()) {
            Some(n) => Ok(Value::BigInt(n)),
            None => {
                let f: u64 = float_of_text(s, host)?;
                Ok(Value::BigInt(float::as_i64(f)))
            },
        },
        Value::Boolean(b) => Ok(
            Value::BigInt(
                if *b {
                    1
                } else {
                    0
                },
            ),
        ),
        Value::DateTime(e) => Ok(Value::BigInt(*e)),
        Value::Null => Ok(Value::Null),
        Value::Decimal(n, s) => Ok(Value::BigInt(decimal_whole(*n, *s))),
        _ => Ok(Value::BigInt(0)),
    }
}

/// A value as a double.
pub open spec fn cast_float(v: ValueView, h: HostView) -> std::result::Result<
    ValueView,
    ErrorView,
> {
    match v {
        ValueView::Integer(n) => Ok(ValueView::Float(float_of_int(n as int) as u64)),
        ValueView::BigInt(n) => Ok(ValueView::Float(float_of_int(n as int) as u64)),
        ValueView::Float(f) => Ok(v),
        ValueView::Varchar(s) => match text_float(s, h) {
            Ok(f) => Ok(ValueView::Float(f)),
            Err(e) => Err(e),
        },
        ValueView::Boolean(b) => Ok(
            ValueView::Float(
                if b {
                    float::ONE
                } else {
                    0
                },
            ),
        ),
        ValueView::DateTime(e) => Ok(ValueView::Float(float_of_int(e as int) as u64)),
        ValueView::Null => Ok(ValueView::Null),
        ValueView::Decimal(n, s) => match decimal_float(n, s, h) {
            Ok(f) => Ok(ValueView::Float(f)),
            Err(e) => Err(e),
        },
        _ => Ok(ValueView::Float(0)),
    }
}

fn to_float(v: &Value, host: &Host) -> (r: Result<Value>)
    ensures
        outcome(r) == cast_float(v@, host@),
{
    match v {
        Value::Integer(n) => Ok(Value::Float(float::of_i64(*n as i64))),
        Value::BigInt(n) => Ok(Value::Float(float::of_i64(*n))),
        Value::Float(f) => Ok(Value::Float(*f)),
        Value::Varchar(s) => {
            let f: u64 = float_of_text(s, host)?;
            Ok(Value::Float(f))
        },
        Value::Boolean(b) => Ok(
            Value::Float(
                if *b {
                    float::ONE
                } else {
                    0
                },
            ),
        ),
        Value::DateTime(e) => Ok(Value::Float(float::of_i64(*e))),
        Value::Null => Ok(Value::Null),
        Value::Decimal(n, s) => {
            let f: u64 = float_of_decimal(*n, *s, host)?;
            Ok(Value::Float(f))
        },
        _ => Ok(Value::Float(0)),
    }
}

/// Whether a text says yes.
pub open spec fn affirmative(s: Seq<char>) -> bool {
    let t = lower_text(trimmed(s));
    t == "true"@ || t == "1"@ || t == "yes"@ || t == "on"@
}

/// A value as a truth value.
pub open spec fn cast_boolean(v: ValueView) -> ValueView {
    match v {
        ValueView::Boolean(_) => v,
        ValueView::Integer(n) => ValueView::Boolean(n != 0),
        ValueView::BigInt(n) => ValueView::Boolean(n != 0),
        ValueView::Float(f) => ValueView::Boolean(magnitude(f) != 0),
        ValueView::Varchar(s) => ValueView::Boolean(affirmative(s)),
        ValueView::DateTime(_) => ValueView::Boolean(true),
        ValueView::Null => ValueView::Null,
        _ => ValueView::Boolean(false),
    }
}

fn to_boolean(v: &Value) -> (r: Value)
    ensures
        r@ == cast_boolean(v@),
{
    match v {
        Value::Boolean(b) => Value::Boolean(*b),
        Value::Integer(n) => Value::Boolean(*n != 0),
        Value::BigInt(n) => Value::Boolean(*n != 0),
        Value::Float(f) => Value::Boolean(float::abs(*f) != 0),
        Value::Varchar(s) => {
            let t = trim(s.as_str());
            let lower = t.as_str().to_lowercase();
            let l: &str = lower.as_str();
            Value::Boolean(
                same_text(l, "true") || same_text(l, "1") || same_text(l, "yes") || same_text(
                    l,
                    "on",
                ),
            )
        },
        Value::DateTime(_) => Value::Boolean(true),
        Value::Null => Value::Null,
        _ => Value::Boolean(false),
    }
}

/// A value as a moment.
pub open spec fn cast_datetime(v: ValueView) -> std::result::Result<ValueView, ErrorView> {
    match v {
        ValueView::DateTime(_) => Ok(v),
        ValueView::Varchar(s) => Ok(ValueView::DateTime(datetime_value(s) as i64)),
        ValueView::Integer(n) => Ok(ValueView::DateTime(n as i64)),
        ValueView::BigInt(n) => Ok(ValueView::DateTime(n)),
        ValueView::Float(f) => Ok(ValueView::DateTime(float_as_i64(f) as i64)),
        ValueView::Boolean(_) => Err(ErrorView::Execution("cannot cast boolean to datetime"@)),
        ValueView::Null => Ok(ValueView::Null),
        _ => Ok(ValueView::DateTime(0)),
    }
}

fn to_datetime(v: &Value) -> (r: Result<Value>)
    ensures
        outcome(r) == cast_datetime(v@),
{
    match v {
        Value::DateTime(e) => Ok(Value::DateTime(*e)),
        Value::Varchar(s) => Ok(Value::DateTime(parse_datetime_to_epoch(s.as_str()))),
        Value::Integer(n) => Ok(Value::DateTime(*n as i64)),
        Value::BigInt(n) => Ok(Value::DateTime(*n)),
        Value::Float(f) => Ok(Value::DateTime(float::as_i64(*f))),
        Value::Boolean(_) => execution("cannot cast boolean to datetime"),
        Value::Null => Ok(Value::Null),
        _ => Ok(Value::DateTime(0)),
    }
}

/// An integer as a decimal, if it is within range.
pub open spec fn int_decimal(n: int, scale: u8) -> std::result::Result<ValueView, ErrorView> {
    let m = n * pow10(scale as nat);
    if i64::MIN <= m <= i64::MAX {
        Ok(ValueView::Decimal(m as i64, scale))
    } else {
        Err(ErrorView::Execution("decimal out of range"@))
    }
}

fn decimal_of_int(n: i64, scale: u8) -> (r: Result<Value>)
    ensures
        outcome(r) == int_decimal(n as int, scale),
{
    if n == 0 {
        assert(0 * pow10(scale as nat) == 0);
        return Ok(Value::Decimal(0, scale));
    }
    match pow10_i64(scale) {
        None => {
            let ghost p = pow10(scale as nat);
            proof {
                lemma_no_pow10_at_min(scale as nat);
            }
            assert(n > 0 ==> n * p > i64::MAX) by (nonlinear_arith)
                requires
                    p > 0x8000_0000_0000_0000,
            ;
            assert(n < 0 ==> n * p < i64::MIN) by (nonlinear_arith)
                requires
                    p > 0x8000_0000_0000_0000,
            ;
            execution("decimal out of range")
        },
        Some(p) => {
            assert(-0x4000_0000_0000_0000_0000_0000_0000_0000 <= n as int * p as int
                <= 0x4000_0000_0000_0000_0000_0000_0000_0000) by (nonlinear_arith)
                requires
                    -0x8000_0000_0000_0000 <= n <= 0x8000_0000_0000_0000,
                    -0x8000_0000_0000_0000 <= p <= 0x8000_0000_0000_0000,
            ;
            let m: i128 = n as i128 * p as i128;
            if -0x8000_0000_0000_0000 <= m && m <= 0x7fff_ffff_ffff_ffff {
                Ok(Value::Decimal(m as i64, scale))
            } else {
                execution("decimal out of range")
            }
        },
    }
}

/// A value as a decimal.
pub open spec fn cast_decimal(v: ValueView, scale: u8, h: HostView) -> std::result::Result<
    ValueView,
    ErrorView,
> {
    match v {
        ValueView::Decimal(_, _) => Ok(v),
        ValueView::Integer(n) => int_decimal(n as int, scale),
        ValueView::BigInt(n) => int_decimal(n as int, scale),
        ValueView::Float(f) => float_decimal(f, scale, h),
        ValueView::Varchar(s) => match h.parsed(trimmed(s)) {
            Err(e) => Err(e),
            Ok(None) => Ok(ValueView::Decimal(0, scale)),
            Ok(Some(f)) => float_decimal(f, scale, h),
        },
        _ => Ok(ValueView::Decimal(0, scale)),
    }
}

fn to_decimal(v: &Value, scale: u8, host: &Host) -> (r: Result<Value>)
    ensures
        outcome(r) == cast_decimal(v@, scale, host@),
{
    match v {
        Value::Decimal(n, s) => Ok(Value::Decimal(*n, *s)),
        Value::Integer(n) => decimal_of_int(*n as i64, scale),
        Value::BigInt(n) => decimal_of_int(*n, scale),
        Value::Float(f) => decimal_of_float(*f, scale, host),
        Value::Varchar(s) => match host.parsed(trim(s.as_str()).as_str())? {
            None => Ok(Value::Decimal(0, scale)),
            Some(f) => decimal_of_float(f, scale, host),
        },
        _ => Ok(Value::Decimal(0, scale)),
    }
}

/// A value as a date.
pub open spec fn cast_date(v: ValueView) -> ValueView {
    match v {
        ValueView::Date(_) => v,
        ValueView::DateTime(e) => ValueView::Date(wrap32(e as int / 86400) as i32),
        ValueView::Varchar(s) => ValueView::Date(
            wrap32(datetime_value(s) / 86400) as i32,
        ),
        ValueView::Integer(n) => ValueView::Date(n),
        _ => ValueView::Date(0),
    }
}

fn to_date(v: &Value) -> (r: Value)
    ensures
        r@ == cast_date(v@),
{
    match v {
        Value::Date(d) => Value::Date(*d),
        Value::DateTime(e) => Value::Date(wrap_i32(div_floor(*e, 86400) as i128)),
        Value::Varchar(s) => Value::Date(
            wrap_i32(div_floor(parse_datetime_to_epoch(s.as_str()), 86400) as i128),
        ),
        Value::Integer(n) => Value::Date(*n),
        _ => Value::Date(0),
    }
}

/// The number in one piece of a time text; zero, where there is none.
pub open spec fn time_piece(p: Seq<Seq<char>>, i: int) -> int {
    if i < p.len() {
        match int_value_in(p[i], i32::MIN as int, i32::MAX as int) {
            Some(n) => n,
            None => 0,
        }
    } else {
        0
    }
}

/// A text of hours, minutes and seconds as a time of day.
pub open spec fn text_time(s: Seq<char>) -> std::result::Result<ValueView, ErrorView> {
    let p = pieces(s, ':');
    let n = time_piece(p, 0) * 3600 + time_piece(p, 1) * 60 + time_piece(p, 2);
    if i32::MIN <= n <= i32::MAX {
        Ok(ValueView::Time(n as i32))
    } else {
        Err(ErrorView::Execution("time out of range"@))
    }
}

fn piece_number(p: &Vec<String>, i: usize) -> (r: i32)
    ensures
        r == time_piece(p.deep_view(), i as int),
{
    if i < p.len() {
        match parse_i32(p[i].as_str()) {
            Some(n) => n,
            None => 0,
        }
    } else {
        0
    }
}

fn time_of_text(s: &String) -> (r: Result<Value>)
    ensures
        outcome(r) == text_time(s@),
{
    let p = split_char(s.as_str(), ':');
    let n: i64 = piece_number(&p, 0) as i64 * 3600 + piece_number(&p, 1) as i64 * 60
        + piece_number(&p, 2) as i64;
    if -0x8000_0000 <= n && n <= 0x7fff_ffff {
        Ok(Value::Time(n as i32))
    } else {
        execution("time out of range")
    }
}

/// A value as a time of day.
pub open spec fn cast_time(v: ValueView) -> std::result::Result<ValueView, ErrorView> {
    match v {
        ValueView::Time(_) => Ok(v),
        ValueView::DateTime(e) => Ok(ValueView::Time((e as int % 86400) as i32)),
        ValueView::Varchar(s) => text_time(s),
        _ => Ok(ValueView::Time(0)),
    }
}

fn to_time(v: &Value) -> (r: Result<Value>)
    ensures
        outcome(r) == cast_time(v@),
{
    match v {
        Value::Time(t) => Ok(Value::Time(*t)),
        Value::DateTime(e) => {
            let q: i64 = div_floor(*e, 86400);
            let t: i128 = *e as i128 - q as i128 * 86400;
            Ok(Value::Time(t as i32))
        },
        Value::Varchar(s) => time_of_text(s),
        _ => Ok(Value::Time(0)),
    }
}

/// A value converted to a type.
pub open spec fn cast(v: ValueView, t: DataType, h: HostView) -> std::result::Result<
    ValueView,
    ErrorView,
> {
    match t {
        DataType::Integer => cast_integer(v, h),
        DataType::BigInt => cast_bigint(v, h),
        DataType::Float => cast_float(v, h),
        DataType::Varchar(_) => match value_text(v, h) {
            Ok(s) => Ok(ValueView::Varchar(s)),
            Err(e) => Err(e),
        },
        DataType::Boolean => Ok(cast_boolean(v)),
        DataType::DateTime => cast_datetime(v),
        DataType::Decimal(_, scale) => cast_decimal(v, scale, h),
        DataType::Date => Ok(cast_date(v)),
        DataType::Time => cast_time(v),
        DataType::VarBinary(_) => match v {
            ValueView::Binary(_) => Ok(v),
            ValueView::Varchar(s) => Ok(ValueView::Binary(encode_utf8(s))),
            _ => Ok(ValueView::Binary(Seq::empty())),
        },
        DataType::Json => match value_text(v, h) {
            Ok(s) => Ok(ValueView::Json(s)),
            Err(e) => Err(e),
        },
        DataType::Uuid => match value_text(v, h) {
            Ok(s) => Ok(ValueView::Uuid(s)),
            Err(e) => Err(e),
        },
    }
}

/// Evaluate a CAST expression: convert a value to the target DataType.
pub fn eval_cast(v: &Value, target: &DataType, host: &Host) -> (r: Result<Value>)
    ensures
        outcome(r) == cast(v@, *target, host@),
{
    match target {
        DataType::Integer => to_integer(v, host),
        DataType::BigInt => to_bigint(v, host),
        DataType::Float => to_float(v, host),
        DataType::Varchar(_) => {
            let s = show(v, host)?;
            Ok(Value::Varchar(s))
        },
        DataType::Boolean => Ok(to_boolean(v)),
        DataType::DateTime => to_datetime(v),
        DataType::Decimal(_, scale) => to_decimal(v, *scale, host),
        DataType::Date => Ok(to_date(v)),
        DataType::Time => to_time(v),
        DataType::VarBinary(_) => {
            let mut b: Vec<u8> = Vec::new();
            match v {
                Value::Binary(x) => put_bytes(&mut b, x.as_slice()),
                Value::Varchar(s) => put_bytes(&mut b, s.as_str().as_bytes()),
                _ => {},
            }
            assert(Seq::<u8>::empty() + b@ == b@);
            Ok(Value::Binary(b))
        },
        DataType::Json => {
            let s = show(v, host)?;
            Ok(Value::Json(s))
        },
        DataType::Uuid => {
            let s = show(v, host)?;
            Ok(Value::Uuid(s))
        },
    }
}

} // verus!
