//! Operations on values: text, numbers, arithmetic, keys.
use crate::float;
use crate::bytes::{complement, le, put_bytes, put_le, word_i32, word_i64};
use crate::dates::{date_text, div_floor, show_date, show_padded, show_time, time_text, zero_padded};
use crate::error::{execution, outcome, ErrorView, Result};
use crate::float::{float_as_i64, float_of_int, magnitude};
use crate::host::{FloatOp, Host, HostView};
use crate::text::{chars_of, digit, int_text, lower_text, nat_text, show_i64, string_of};
use crate::types::{lemma_pow10_mono, lemma_pow10_pos, pow10, pow10_i64, Value, ValueView};
use vstd::prelude::*;
use vstd::utf8::encode_utf8;

verus! {

// ---------------------------------------------------------------------------
// Integer division
// ---------------------------------------------------------------------------

/// The absolute value of an integer.
pub open spec fn abs(n: int) -> int {
    if n < 0 {
        -n
    } else {
        n
    }
}

/// The quotient of two integers, the fraction dropped.
pub open spec fn quot(a: int, b: int) -> int {
    if (a < 0) == (b < 0) {
        abs(a) / abs(b)
    } else {
        -(abs(a) / abs(b))
    }
}

/// The remainder that goes with [`quot`]; it has the sign of `a`.
pub open spec fn rem(a: int, b: int) -> int {
    if a < 0 {
        -(abs(a) % abs(b))
    } else {
        abs(a) % abs(b)
    }
}

/// The remainder is what the quotient leaves over.
pub proof fn lemma_quot_rem(a: int, b: int)
    requires
        b != 0,
    ensures
        a == quot(a, b) * b + rem(a, b),
        abs(rem(a, b)) < abs(b),
        abs(quot(a, b)) <= abs(a),
{
    let x = abs(a);
    let y = abs(b);
    vstd::arithmetic::div_mod::lemma_fundamental_div_mod(x, y);
    vstd::arithmetic::div_mod::lemma_mod_bound(x, y);
    let q = x / y;
    assert(0 <= q <= x) by (nonlinear_arith)
        requires
            q == x / y,
            x >= 0,
            y >= 1,
    ;
    assert((-q) * y == -(q * y)) by (nonlinear_arith);
    assert(q * (-y) == -(q * y)) by (nonlinear_arith);
    assert((-q) * (-y) == q * y) by (nonlinear_arith);
    assert(y * q == q * y) by (nonlinear_arith);
}

fn abs_u64(n: i64) -> (r: u64)
    ensures
        r == abs(n as int),
{
    if n == i64::MIN {
        0x8000_0000_0000_0000
    } else if n < 0 {
        (-n) as u64
    } else {
        n as u64
    }
}

/// The quotient of two integers, the fraction dropped.
pub fn quotient(a: i64, b: i64) -> (r: i128)
    requires
        b != 0,
    ensures
        r == quot(a as int, b as int),
        -0x8000_0000_0000_0000 <= r <= 0x8000_0000_0000_0000,
{
    proof {
        lemma_quot_rem(a as int, b as int);
    }
    let q: u64 = abs_u64(a) / abs_u64(b);
    if (a < 0) == (b < 0) {
        q as i128
    } else {
        -(q as i128)
    }
}

/// The remainder that goes with [`quotient`].
pub fn remainder(a: i64, b: i64) -> (r: i64)
    requires
        b != 0,
    ensures
        r == rem(a as int, b as int),
        abs(r as int) < abs(b as int),
{
    proof {
        lemma_quot_rem(a as int, b as int);
    }
    let m: u64 = abs_u64(a) % abs_u64(b);
    if a < 0 {
        -(m as i64)
    } else {
        m as i64
    }
}

// ---------------------------------------------------------------------------
// Text
// ---------------------------------------------------------------------------

/// The hexadecimal digit of a number below sixteen.
pub open spec fn hex_digit(n: int) -> char {
    if n < 10 {
        digit(n)
    } else if n == 10 {
        'a'
    } else if n == 11 {
        'b'
    } else if n == 12 {
        'c'
    } else if n == 13 {
        'd'
    } else if n == 14 {
        'e'
    } else {
        'f'
    }
}

/// The `k` lowest hexadecimal digits of a number.
pub open spec fn hex_text(n: int, k: nat) -> Seq<char>
    decreases k,
{
    if k == 0 {
        Seq::empty()
    } else {
        hex_text(n / 16, (k - 1) as nat).push(hex_digit(n % 16))
    }
}

/// The hexadecimal text of bytes, two digits for each.
pub open spec fn bytes_text(b: Seq<u8>) -> Seq<char>
    decreases b.len(),
{
    if b.len() == 0 {
        Seq::empty()
    } else {
        bytes_text(b.drop_last()) + hex_text(b.last() as int, 2)
    }
}

/// The text of a decimal: `scale` digits behind the point.
pub open spec fn decimal_text(v: int, scale: int) -> Seq<char> {
    if scale == 0 {
        int_text(v)
    } else {
        let d = zero_padded(nat_text(abs(v) as nat), scale + 1);
        let sign = if v < 0 {
            seq!['-']
        } else {
            Seq::empty()
        };
        sign + d.take(d.len() - scale) + seq!['.'] + d.skip(d.len() - scale)
    }
}

/// The text of a value. That of a double comes from the host.
pub open spec fn value_text(v: ValueView, h: HostView) -> std::result::Result<
    Seq<char>,
    ErrorView,
> {
    match v {
        ValueView::Null => Ok("NULL"@),
        ValueView::Boolean(b) => Ok(
            if b {
                "true"@
            } else {
                "false"@
            },
        ),
        ValueView::Integer(n) => Ok(int_text(n as int)),
        ValueView::BigInt(n) => Ok(int_text(n as int)),
        ValueView::Float(f) => h.shown(f),
        ValueView::Varchar(s) => Ok(s),
        ValueView::DateTime(e) => Ok(
            date_text(e as int / 86400) + seq![' '] + time_text(e as int % 86400),
        ),
        ValueView::Decimal(n, s) => Ok(decimal_text(n as int, s as int)),
        ValueView::Date(d) => Ok(date_text(d as int)),
        ValueView::Time(t) => Ok(
            if t < 0 {
                seq!['-'] + time_text(-(t as int))
            } else {
                time_text(t as int)
            },
        ),
        ValueView::Binary(b) => Ok("0x"@ + bytes_text(b)),
        ValueView::Json(s) => Ok(s),
        ValueView::Uuid(s) => Ok(s),
    }
}

fn hex_char(n: u128) -> (c: char)
    requires
        n < 16,
    ensures
        c == hex_digit(n as int),
{
    if n == 0 {
        '0'
    } else if n == 1 {
        '1'
    } else if n == 2 {
        '2'
    } else if n == 3 {
        '3'
    } else if n == 4 {
        '4'
    } else if n == 5 {
        '5'
    } else if n == 6 {
        '6'
    } else if n == 7 {
        '7'
    } else if n == 8 {
        '8'
    } else if n == 9 {
        '9'
    } else if n == 10 {
        'a'
    } else if n == 11 {
        'b'
    } else if n == 12 {
        'c'
    } else if n == 13 {
        'd'
    } else if n == 14 {
        'e'
    } else {
        'f'
    }
}

/// The `k` lowest hexadecimal digits of a number.
pub fn show_hex(n: u128, k: u8) -> (r: String)
    ensures
        r@ == hex_text(n as int, k as nat),
    decreases k,
{
    if k == 0 {
        String::new()
    } else {
        let mut s = show_hex(n / 16, k - 1);
        s.push(hex_char(n % 16));
        s
    }
}

/// The hexadecimal text of bytes.
pub fn show_bytes(b: &Vec<u8>) -> (r: String)
    ensures
        r@ == "0x"@ + bytes_text(b@),
{
    let mut s = "0x".to_owned();
    let mut i: usize = 0;
    assert(b@.take(0).len() == 0);
    assert("0x"@ + bytes_text(b@.take(0)) == s@);
    while i < b.len()
        invariant
            0 <= i <= b.len(),
            s@ == "0x"@ + bytes_text(b@.take(i as int)),
        decreases b.len() - i,
    {
        let d = show_hex(b[i] as u128, 2);
        let ghost before = bytes_text(b@.take(i as int));
        assert(b@.take(i + 1).drop_last() == b@.take(i as int));
        s.append(d.as_str());
        assert(s@ == "0x"@ + (before + d@));
        i += 1;
    }
    assert(b@.take(b.len() as int) == b@);
    s
}

fn show_decimal(v: i64, scale: u8) -> (r: String)
    ensures
        r@ == decimal_text(v as int, scale as int),
{
    if scale == 0 {
        return show_i64(v);
    }
    let d = show_padded(abs_u64(v), scale as usize + 1);
    let c = chars_of(d.as_str());
    proof {
        lemma_padded_len(nat_text(abs(v as int) as nat), scale as int + 1);
    }
    let point: usize = c.len() - scale as usize;
    let mut s = String::new();
    if v < 0 {
        s.push('-');
    }
    let ghost sign = s@;
    let whole = string_of(&c, 0, point);
    let fraction = string_of(&c, point, c.len());
    s.append(whole.as_str());
    s.push('.');
    s.append(fraction.as_str());
    assert(whole@ == d@.take(point as int));
    assert(fraction@ == d@.skip(point as int));
    assert(v < 0 ==> sign == seq!['-']);
    assert(s@ =~= sign + whole@ + seq!['.'] + fraction@);
    s
}

proof fn lemma_padded_len(s: Seq<char>, w: int)
    ensures
        zero_padded(s, w).len() >= w,
    decreases w - s.len(),
{
    if s.len() < w {
        lemma_padded_len(seq!['0'] + s, w);
    }
}

/// The text of a value.
pub fn show(v: &Value, host: &Host) -> (r: Result<String>)
    ensures
        outcome(r) == value_text(v@, host@),
{
    match v {
        Value::Null => Ok("NULL".to_owned()),
        Value::Boolean(b) => Ok(
            if *b {
                "true".to_owned()
            } else {
                "false".to_owned()
            },
        ),
        Value::Integer(n) => Ok(show_i64(*n as i64)),
        Value::BigInt(n) => Ok(show_i64(*n)),
        Value::Float(f) => host.shown(*f),
        Value::Varchar(s) => Ok(s.clone()),
        Value::DateTime(e) => {
            let e: i64 = *e;
            let days: i64 = div_floor(e, 86400);
            let secs: u64 = (e as i128 - days as i128 * 86400) as u64;
            assert(secs == e as int % 86400);
            let mut s = show_date(days);
            s.push(' ');
            let t = show_time(secs);
            s.append(t.as_str());
            assert(s@ =~= date_text(days as int) + seq![' '] + t@);
            Ok(s)
        },
        Value::Decimal(n, scale) => Ok(show_decimal(*n, *scale)),
        Value::Date(d) => Ok(show_date(*d as i64)),
        Value::Time(t) => {
            if *t < 0 {
                let mut s = String::new();
                s.push('-');
                let w = show_time((-(*t as i64)) as u64);
                s.append(w.as_str());
                assert(s@ =~= seq!['-'] + w@);
                Ok(s)
            } else {
                Ok(show_time(*t as u64))
            }
        },
        Value::Binary(b) => Ok(show_bytes(b)),
        Value::Json(s) => Ok(s.clone()),
        Value::Uuid(s) => Ok(s.clone()),
    }
}

// ---------------------------------------------------------------------------
// Numbers
// ---------------------------------------------------------------------------

/// The double that a value stands for in arithmetic; zero for what is no number.
pub open spec fn value_float(v: ValueView, h: HostView) -> std::result::Result<u64, ErrorView> {
    match v {
        ValueView::Integer(n) => Ok(float_of_int(n as int) as u64),
        ValueView::BigInt(n) => Ok(float_of_int(n as int) as u64),
        ValueView::Float(f) => Ok(f),
        ValueView::Boolean(b) => Ok(
            if b {
                float::ONE
            } else {
                0
            },
        ),
        ValueView::Decimal(n, s) => decimal_float(n, s, h),
        _ => Ok(0),
    }
}

/// The double that a decimal stands for: its digits divided by a power of ten.
pub open spec fn decimal_float(n: i64, s: u8, h: HostView) -> std::result::Result<u64, ErrorView> {
    match h.numeric(FloatOp::PowTen, s as u64, 0) {
        Ok(p) => h.numeric(FloatOp::Div, float_of_int(n as int) as u64, p),
        Err(e) => Err(e),
    }
}

/// The double that a decimal stands for.
pub fn float_of_decimal(n: i64, s: u8, host: &Host) -> (r: Result<u64>)
    ensures
        outcome(r) == decimal_float(n, s, host@),
{
    let p: u64 = host.numeric(FloatOp::PowTen, s as u64, 0)?;
    host.numeric(FloatOp::Div, float::of_i64(n), p)
}

/// The double that a value stands for in arithmetic; zero for what is no number.
pub fn value_to_f64(v: &Value, host: &Host) -> (r: Result<u64>)
    ensures
        outcome(r) == value_float(v@, host@),
{
    match v {
        Value::Integer(n) => Ok(float::of_i64(*n as i64)),
        Value::BigInt(n) => Ok(float::of_i64(*n)),
        Value::Float(f) => Ok(*f),
        Value::Boolean(b) => Ok(
            if *b {
                float::ONE
            } else {
                0
            },
        ),
        Value::Decimal(n, s) => float_of_decimal(*n, *s, host),
        _ => Ok(0),
    }
}

/// The integer that a value stands for; zero for what is no number. The fraction of a
/// double or of a decimal is dropped.
pub open spec fn value_int(v: ValueView) -> int {
    match v {
        ValueView::Integer(n) => n as int,
        ValueView::BigInt(n) => n as int,
        ValueView::Float(f) => float_as_i64(f),
        ValueView::Boolean(b) => if b {
            1
        } else {
            0
        },
        ValueView::Decimal(n, s) => quot(n as int, pow10(s as nat)),
        ValueView::Date(d) => d as int,
        ValueView::Time(t) => t as int,
        _ => 0,
    }
}

/// The whole part of a decimal.
pub fn decimal_whole(n: i64, s: u8) -> (r: i64)
    ensures
        r == quot(n as int, pow10(s as nat)),
{
    match pow10_i64(s) {
        Some(p) => {
            proof {
                lemma_pow10_pos(s as nat);
                lemma_quot_rem(n as int, p as int);
                assert(abs(n as int) / 1 == abs(n as int));
                if p > 1 && n == i64::MIN {
                    assert(abs(n as int) / (p as int) < abs(n as int)) by (nonlinear_arith)
                        requires
                            p > 1,
                            abs(n as int) > 0,
                    ;
                }
            }
            quotient(n, p) as i64
        },
        None => {
            let ghost p = pow10(s as nat);
            proof {
                lemma_no_pow10_at_min(s as nat);
                vstd::arithmetic::div_mod::lemma_basic_div(abs(n as int), p);
            }
            0
        },
    }
}

pub proof fn lemma_no_pow10_at_min(k: nat)
    requires
        pow10(k) > i64::MAX,
    ensures
        pow10(k) > 0x8000_0000_0000_0000,
{
    reveal_with_fuel(pow10, 20);
    if k >= 19 {
        lemma_pow10_mono(19, k);
    } else {
        lemma_pow10_mono(k, 18);
    }
}

/// The integer that a value stands for; zero for what is no number.
pub fn value_to_i64(v: &Value) -> (r: i64)
    ensures
        r == value_int(v@),
{
    match v {
        Value::Integer(n) => *n as i64,
        Value::BigInt(n) => *n,
        Value::Float(f) => float::as_i64(*f),
        Value::Boolean(b) => if *b {
            1
        } else {
            0
        },
        Value::Decimal(n, s) => decimal_whole(*n, *s),
        Value::Date(d) => *d as i64,
        Value::Time(t) => *t as i64,
        _ => 0,
    }
}

/// Whether a value counts as true; none for NULL.
pub open spec fn tribool(v: ValueView) -> Option<bool> {
    match v {
        ValueView::Boolean(b) => Some(b),
        ValueView::Integer(n) => Some(n != 0),
        ValueView::BigInt(n) => Some(n != 0),
        ValueView::Null => None,
        _ => Some(true),
    }
}

/// Whether a value counts as true; none for NULL.
pub fn to_tribool(v: &Value) -> (r: Option<bool>)
    ensures
        r == tribool(v@),
{
    match v {
        Value::Boolean(b) => Some(*b),
        Value::Integer(n) => Some(*n != 0),
        Value::BigInt(n) => Some(*n != 0),
        Value::Null => None,
        _ => Some(true),
    }
}

// ---------------------------------------------------------------------------
// Arithmetic
// ---------------------------------------------------------------------------

/// The four arithmetic operations.
#[derive(Debug, Clone, Copy, PartialEq, Eq, Structural)]
pub enum Arith {
    Plus,
    Minus,
    Times,
    Over,
}

impl Arith {
    /// The operation on doubles that goes with it.
    pub open spec fn on_floats(self) -> FloatOp {
        match self {
            Arith::Plus => FloatOp::Add,
            Arith::Minus => FloatOp::Sub,
            Arith::Times => FloatOp::Mul,
            Arith::Over => FloatOp::Div,
        }
    }

    /// Its result on integers; the divisor is not zero.
    pub open spec fn on_ints(self, a: int, b: int) -> int {
        match self {
            Arith::Plus => a + b,
            Arith::Minus => a - b,
            Arith::Times => a * b,
            Arith::Over => quot(a, b),
        }
    }

    fn float_op(self) -> (r: FloatOp)
        ensures
            r == self.on_floats(),
    {
        match self {
            Arith::Plus => FloatOp::Add,
            Arith::Minus => FloatOp::Sub,
            Arith::Times => FloatOp::Mul,
            Arith::Over => FloatOp::Div,
        }
    }
}

/// The value that holds an integer: of the narrow type where it fits and is asked for, else
/// of the wide one.
pub open spec fn int_result(n: int, wide: bool) -> std::result::Result<ValueView, ErrorView> {
    if !wide && i32::MIN <= n <= i32::MAX {
        Ok(ValueView::Integer(n as i32))
    } else if i64::MIN <= n <= i64::MAX {
        Ok(ValueView::BigInt(n as i64))
    } else {
        Err(ErrorView::Execution("integer out of range"@))
    }
}

/// The value that holds an integer.
pub fn int_value(n: i128, wide: bool) -> (r: Result<Value>)
    ensures
        outcome(r) == int_result(n as int, wide),
{
    if !wide && -0x8000_0000 <= n && n <= 0x7fff_ffff {
        Ok(Value::Integer(n as i32))
    } else if -0x8000_0000_0000_0000 <= n && n <= 0x7fff_ffff_ffff_ffff {
        Ok(Value::BigInt(n as i64))
    } else {
        execution("integer out of range")
    }
}

/// The integer that an integer value holds.
pub open spec fn whole(v: ValueView) -> Option<int> {
    match v {
        ValueView::Integer(n) => Some(n as int),
        ValueView::BigInt(n) => Some(n as int),
        _ => None,
    }
}

fn whole_of(v: &Value) -> (r: Option<i64>)
    ensures
        r is Some == whole(v@) is Some,
        r is Some ==> whole(v@) == Some(r->0 as int),
{
    match v {
        Value::Integer(n) => Some(*n as i64),
        Value::BigInt(n) => Some(*n),
        _ => None,
    }
}

/// Whether arithmetic is done on a value.
pub open spec fn numeric(v: ValueView) -> bool {
    v is Integer || v is BigInt || v is Float || v is Decimal
}

fn is_numeric(v: &Value) -> (r: bool)
    ensures
        r == numeric(v@),
{
    match v {
        Value::Integer(_) => true,
        Value::BigInt(_) => true,
        Value::Float(_) => true,
        Value::Decimal(_, _) => true,
        _ => false,
    }
}

/// The result of an arithmetic operation: NULL where an operand is, an integer where both
/// are, a double where one of them is no integer.
pub open spec fn arith(op: Arith, a: ValueView, b: ValueView, h: HostView) -> std::result::Result<
    ValueView,
    ErrorView,
> {
    if a.is_null() || b.is_null() {
        Ok(ValueView::Null)
    } else if !numeric(a) || !numeric(b) {
        Err(ErrorView::Execution("arithmetic requires numeric operands"@))
    } else if whole(a) is Some && whole(b) is Some {
        if op == Arith::Over && whole(b)->0 == 0 {
            Err(ErrorView::Execution("division by zero"@))
        } else {
            int_result(op.on_ints(whole(a)->0, whole(b)->0), !(a is Integer && b is Integer))
        }
    } else {
        match (value_float(a, h), value_float(b, h)) {
            (Err(e), _) => Err(e),
            (_, Err(e)) => Err(e),
            (Ok(x), Ok(y)) => if op == Arith::Over && magnitude(y) == 0 {
                Err(ErrorView::Execution("division by zero"@))
            } else {
                match h.numeric(op.on_floats(), x, y) {
                    Ok(z) => Ok(ValueView::Float(z)),
                    Err(e) => Err(e),
                }
            },
        }
    }
}

/// The result of an arithmetic operation.
pub fn apply_arith(op: Arith, a: &Value, b: &Value, host: &Host) -> (r: Result<Value>)
    ensures
        outcome(r) == arith(op, a@, b@, host@),
{
    if a.is_null() || b.is_null() {
        return Ok(Value::Null);
    }
    if !is_numeric(a) || !is_numeric(b) {
        return execution("arithmetic requires numeric operands");
    }
    match (whole_of(a), whole_of(b)) {
        (Some(x), Some(y)) => {
            if op == Arith::Over && y == 0 {
                return execution("division by zero");
            }
            let wide: bool = match (a, b) {
                (Value::Integer(_), Value::Integer(_)) => false,
                _ => true,
            };
            let n: i128 = match op {
                Arith::Plus => x as i128 + y as i128,
                Arith::Minus => x as i128 - y as i128,
                Arith::Times => {
                    assert(-0x4000_0000_0000_0000_0000_0000_0000_0000 <= x as int * y as int
                        <= 0x4000_0000_0000_0000_0000_0000_0000_0000) by (nonlinear_arith)
                        requires
                            -0x8000_0000_0000_0000 <= x <= 0x8000_0000_0000_0000,
                            -0x8000_0000_0000_0000 <= y <= 0x8000_0000_0000_0000,
                    ;
                    x as i128 * y as i128
                },
                Arith::Over => quotient(x, y),
            };
            int_value(n, wide)
        },
        _ => {
            let x: u64 = value_to_f64(a, host)?;
            let y: u64 = value_to_f64(b, host)?;
            if op == Arith::Over && float::abs(y) == 0 {
                return execution("division by zero");
            }
            let z: u64 = host.numeric(op.float_op(), x, y)?;
            Ok(Value::Float(z))
        },
    }
}

// ---------------------------------------------------------------------------
// Keys
// ---------------------------------------------------------------------------

/// The bytes by which a value is told apart from others in grouping and deduplication: a
/// tag for the kind, then the content. Texts count without regard to case.
pub open spec fn value_key(v: ValueView) -> Seq<u8> {
    match v {
        ValueView::Null => seq![0u8],
        ValueView::Boolean(b) => seq![
            1u8,
            if b {
                1u8
            } else {
                0u8
            },
        ],
        ValueView::Integer(n) => seq![2u8] + le(complement(n as int, 4), 4),
        ValueView::BigInt(n) => seq![3u8] + le(complement(n as int, 8), 8),
        ValueView::Float(f) => seq![4u8] + le(f as int, 8),
        ValueView::Varchar(s) => {
            let b = encode_utf8(lower_text(s));
            seq![5u8] + le(b.len() as int, 4) + b
        },
        ValueView::DateTime(e) => seq![6u8] + le(complement(e as int, 8), 8),
        ValueView::Decimal(n, s) => (seq![7u8] + le(complement(n as int, 8), 8)).push(s),
        ValueView::Date(d) => seq![8u8] + le(complement(d as int, 4), 4),
        ValueView::Time(t) => seq![9u8] + le(complement(t as int, 4), 4),
        ValueView::Binary(b) => seq![10u8] + le(b.len() as int, 4) + b,
        ValueView::Json(s) => {
            let b = encode_utf8(s);
            seq![11u8] + le(b.len() as int, 4) + b
        },
        ValueView::Uuid(s) => {
            let b = encode_utf8(s);
            seq![12u8] + le(b.len() as int, 4) + b
        },
    }
}

/// The bytes by which a value is found among the values of a list or told apart in a
/// partition: as [`value_key`], but integers of either width count alike and texts by case.
pub open spec fn sort_key(v: ValueView) -> Seq<u8> {
    match v {
        ValueView::Integer(n) => value_key(ValueView::BigInt(n as i64)),
        ValueView::Varchar(s) => seq![5u8] + encode_utf8(s),
        _ => value_key(v),
    }
}

/// The key of a row: the keys of its values one after the other.
pub open spec fn row_key(row: Seq<ValueView>) -> Seq<u8>
    decreases row.len(),
{
    if row.len() == 0 {
        Seq::empty()
    } else {
        row_key(row.drop_last()) + value_key(row.last())
    }
}

/// Appends the key of a value.
pub fn put_key(buf: &mut Vec<u8>, v: &Value)
    ensures
        final(buf)@ == old(buf)@ + value_key(v@),
{
    let ghost start = buf@;
    match v {
        Value::Null => buf.push(0),
        Value::Boolean(b) => {
            buf.push(1);
            buf.push(
                if *b {
                    1
                } else {
                    0
                },
            );
        },
        Value::Integer(n) => {
            buf.push(2);
            put_le(buf, word_i32(*n), 4);
        },
        Value::BigInt(n) => {
            buf.push(3);
            put_le(buf, word_i64(*n), 8);
        },
        Value::Float(f) => {
            buf.push(4);
            put_le(buf, *f, 8);
        },
        Value::Varchar(s) => {
            buf.push(5);
            let lower = s.as_str().to_lowercase();
            let b = lower.as_str().as_bytes();
            put_le(buf, b.len() as u64, 4);
            put_bytes(buf, b);
        },
        Value::DateTime(e) => {
            buf.push(6);
            put_le(buf, word_i64(*e), 8);
        },
        Value::Decimal(n, s) => {
            buf.push(7);
            put_le(buf, word_i64(*n), 8);
            buf.push(*s);
        },
        Value::Date(d) => {
            buf.push(8);
            put_le(buf, word_i32(*d), 4);
        },
        Value::Time(t) => {
            buf.push(9);
            put_le(buf, word_i32(*t), 4);
        },
        Value::Binary(b) => {
            buf.push(10);
            put_le(buf, b.len() as u64, 4);
            put_bytes(buf, b.as_slice());
        },
        Value::Json(s) => {
            buf.push(11);
            let b = s.as_str().as_bytes();
            put_le(buf, b.len() as u64, 4);
            put_bytes(buf, b);
        },
        Value::Uuid(s) => {
            buf.push(12);
            let b = s.as_str().as_bytes();
            put_le(buf, b.len() as u64, 4);
            put_bytes(buf, b);
        },
    }
    assert(buf@ =~= start + value_key(v@));
}

/// The key of one value.
pub fn serialize_value_key(v: &Value) -> (r: Vec<u8>)
    ensures
        r@ == value_key(v@),
{
    let mut buf: Vec<u8> = Vec::new();
    put_key(&mut buf, v);
    assert(Seq::<u8>::empty() + value_key(v@) == value_key(v@));
    buf
}

/// Appends the sort key of a value.
pub fn put_sort_key(buf: &mut Vec<u8>, v: &Value)
    ensures
        final(buf)@ == old(buf)@ + sort_key(v@),
{
    let ghost start = buf@;
    match v {
        Value::Integer(n) => put_key(buf, &Value::BigInt(*n as i64)),
        Value::Varchar(s) => {
            buf.push(5);
            put_bytes(buf, s.as_str().as_bytes());
            assert(buf@ =~= start + sort_key(v@));
        },
        _ => put_key(buf, v),
    }
}

impl Value {
    /// The sort key of the value.
    pub fn to_sort_key_bytes(&self) -> (r: Vec<u8>)
        ensures
            r@ == sort_key(self@),
    {
        let mut buf: Vec<u8> = Vec::new();
        put_sort_key(&mut buf, self);
        assert(Seq::<u8>::empty() + sort_key(self@) == sort_key(self@));
        buf
    }
}

/// The key of a row, for grouping and deduplication.
pub fn serialize_row_key(key: &[Value]) -> (r: Vec<u8>)
    ensures
        r@ == row_key(key.deep_view()),
{
    let mut buf: Vec<u8> = Vec::new();
    let mut i: usize = 0;
    let ghost row = key.deep_view();
    assert(row.take(0).len() == 0);
    while i < key.len()
        invariant
            0 <= i <= key.len(),
            row == key.deep_view(),
            buf@ == row_key(row.take(i as int)),
        decreases key.len() - i,
    {
        put_key(&mut buf, &key[i]);
        assert(row.take(i + 1).drop_last() == row.take(i as int));
        assert(row.take(i + 1).last() == key@[i as int]@);
        i += 1;
    }
    assert(row.take(key.len() as int) == row);
    buf
}

} // verus!
