//! Column types and runtime values.
use crate::bytes::put_bytes;
use crate::float;
use crate::float::{float_of_int, float_order};
use crate::order::{int_order, order_i128, order_i64, Order};
use crate::text::{order_text, text_order};
use vstd::prelude::*;

verus! {

/// The type of a column.
#[derive(Debug, Clone, Copy, PartialEq, Eq, Structural)]
pub enum DataType {
    Integer,
    Float,
    Varchar(u16),
    Boolean,
    BigInt,
    DateTime,
    /// Precision and scale.
    Decimal(u8, u8),
    Date,
    Time,
    VarBinary(u16),
    Json,
    Uuid,
}

/// A runtime value. A double is held as its bit pattern, a decimal as an integer and the
/// number of its digits behind the point.
#[derive(Debug, PartialEq, Eq)]
pub enum Value {
    Null,
    Boolean(bool),
    Integer(i32),
    BigInt(i64),
    Float(u64),
    Varchar(String),
    DateTime(i64),
    Decimal(i64, u8),
    Date(i32),
    Time(i32),
    Binary(Vec<u8>),
    Json(String),
    Uuid(String),
}

/// [`Value`] with its texts and bytes as sequences.
pub enum ValueView {
    Null,
    Boolean(bool),
    Integer(i32),
    BigInt(i64),
    Float(u64),
    Varchar(Seq<char>),
    DateTime(i64),
    Decimal(i64, u8),
    Date(i32),
    Time(i32),
    Binary(Seq<u8>),
    Json(Seq<char>),
    Uuid(Seq<char>),
}

impl View for Value {
    type V = ValueView;

    open spec fn view(&self) -> ValueView {
        match *self {
            Value::Null => ValueView::Null,
            Value::Boolean(b) => ValueView::Boolean(b),
            Value::Integer(n) => ValueView::Integer(n),
            Value::BigInt(n) => ValueView::BigInt(n),
            Value::Float(f) => ValueView::Float(f),
            Value::Varchar(s) => ValueView::Varchar(s@),
            Value::DateTime(e) => ValueView::DateTime(e),
            Value::Decimal(v, s) => ValueView::Decimal(v, s),
            Value::Date(d) => ValueView::Date(d),
            Value::Time(t) => ValueView::Time(t),
            Value::Binary(b) => ValueView::Binary(b@),
            Value::Json(s) => ValueView::Json(s@),
            Value::Uuid(s) => ValueView::Uuid(s@),
        }
    }
}

impl DeepView for Value {
    type V = ValueView;

    open spec fn deep_view(&self) -> ValueView {
        self@
    }
}

impl Clone for Value {
    fn clone(&self) -> (r: Value)
        ensures
            r@ == self@,
    {
        match self {
            Value::Null => Value::Null,
            Value::Boolean(b) => Value::Boolean(*b),
            Value::Integer(n) => Value::Integer(*n),
            Value::BigInt(n) => Value::BigInt(*n),
            Value::Float(f) => Value::Float(*f),
            Value::Varchar(s) => Value::Varchar(s.clone()),
            Value::DateTime(e) => Value::DateTime(*e),
            Value::Decimal(v, s) => Value::Decimal(*v, *s),
            Value::Date(d) => Value::Date(*d),
            Value::Time(t) => Value::Time(*t),
            Value::Binary(b) => {
                let mut c: Vec<u8> = Vec::new();
                put_bytes(&mut c, b.as_slice());
                assert(c@ == b@);
                Value::Binary(c)
            },
            Value::Json(s) => Value::Json(s.clone()),
            Value::Uuid(s) => Value::Uuid(s.clone()),
        }
    }
}

/// Copies a row.
pub fn clone_row(row: &[Value]) -> (r: Vec<Value>)
    ensures
        r.deep_view() == row.deep_view(),
{
    let mut out: Vec<Value> = Vec::new();
    let mut i: usize = 0;
    while i < row.len()
        invariant
            0 <= i <= row.len(),
            out.deep_view() == row.deep_view().take(i as int),
        decreases row.len() - i,
    {
        let ghost before = out.deep_view();
        let v = row[i].clone();
        out.push(v);
        assert(out.deep_view() == before.push(v@));
        assert(row.deep_view().take(i + 1) == row.deep_view().take(i as int).push(v@));
        i += 1;
    }
    assert(row.deep_view().take(row.len() as int) == row.deep_view());
    out
}

/// Ten to the power `k`.
pub open spec fn pow10(k: nat) -> int
    decreases k,
{
    if k == 0 {
        1
    } else {
        10 * pow10((k - 1) as nat)
    }
}

pub proof fn lemma_pow10_pos(k: nat)
    ensures
        pow10(k) >= 1,
    decreases k,
{
    if k > 0 {
        lemma_pow10_pos((k - 1) as nat);
    }
}

pub proof fn lemma_pow10_mono(a: nat, b: nat)
    requires
        a <= b,
    ensures
        1 <= pow10(a) <= pow10(b),
    decreases b,
{
    if a < b {
        lemma_pow10_mono(a, (b - 1) as nat);
    } else {
        lemma_pow10_pos(a);
    }
}

pub proof fn lemma_pow10_adds(a: nat, b: nat)
    ensures
        pow10(a + b) == pow10(a) * pow10(b),
    decreases a,
{
    if a > 0 {
        lemma_pow10_adds((a - 1) as nat, b);
        assert(10 * (pow10((a - 1) as nat) * pow10(b)) == (10 * pow10((a - 1) as nat)) * pow10(b))
            by (nonlinear_arith);
    }
}

/// Ten to a power that fits a 64-bit word.
pub fn pow10_i64(k: u8) -> (r: Option<i64>)
    ensures
        r is Some == (pow10(k as nat) <= i64::MAX),
        r is Some ==> r->0 == pow10(k as nat),
{
    proof {
        reveal_with_fuel(pow10, 20);
        if k > 18 {
            lemma_pow10_mono(19, k as nat);
        } else {
            lemma_pow10_mono(k as nat, 18);
        }
    }
    if k > 18 {
        return None;
    }
    let mut p: i64 = 1;
    let mut i: u8 = 0;
    while i < k
        invariant
            0 <= i <= k <= 18,
            p == pow10(i as nat),
        decreases k - i,
    {
        proof {
            lemma_pow10_mono((i + 1) as nat, 18);
            reveal_with_fuel(pow10, 20);
        }
        p = p * 10;
        i += 1;
    }
    Some(p)
}

/// The order of two decimals, each an integer and its number of digits behind the point.
pub open spec fn decimal_order(a: int, s: nat, b: int, t: nat) -> Order {
    int_order(a * pow10(t), b * pow10(s))
}

proof fn lemma_scale(a: int, b: int, s: nat, t: nat)
    requires
        s <= t,
    ensures
        decimal_order(a, s, b, t) == int_order(a * pow10((t - s) as nat), b),
{
    let d = (t - s) as nat;
    lemma_pow10_adds(d, s);
    lemma_pow10_pos(s);
    let p = pow10(s);
    let q = pow10(d);
    assert(a * (q * p) == (a * q) * p) by (nonlinear_arith);
    assert((a * q) * p < b * p <==> a * q < b) by (nonlinear_arith)
        requires
            p >= 1,
    ;
    assert((a * q) * p == b * p <==> a * q == b) by (nonlinear_arith)
        requires
            p >= 1,
    ;
}

/// Compares `a * 10^d` with `b`.
fn order_shifted(a: i64, d: u8, b: i64) -> (r: Order)
    ensures
        r == int_order(a * pow10(d as nat), b as int),
{
    if a == 0 {
        assert(0 * pow10(d as nat) == 0);
        return order_i64(0, b);
    }
    if d > 19 {
        proof {
            reveal_with_fuel(pow10, 21);
            lemma_pow10_mono(20, d as nat);
            assert(a > 0 ==> a * pow10(d as nat) > i64::MAX) by (nonlinear_arith)
                requires
                    pow10(d as nat) >= 100_000_000_000_000_000_000,
            ;
            assert(a < 0 ==> a * pow10(d as nat) < i64::MIN) by (nonlinear_arith)
                requires
                    pow10(d as nat) >= 100_000_000_000_000_000_000,
            ;
        }
        return if a > 0 {
            Order::Greater
        } else {
            Order::Less
        };
    }
    let mut p: i128 = 1;
    let mut i: u8 = 0;
    proof {
        reveal_with_fuel(pow10, 20);
    }
    while i < d
        invariant
            0 <= i <= d <= 19,
            p == pow10(i as nat),
        decreases d - i,
    {
        proof {
            reveal_with_fuel(pow10, 20);
            lemma_pow10_mono((i + 1) as nat, 19);
        }
        p = p * 10;
        i += 1;
    }
    proof {
        reveal_with_fuel(pow10, 20);
        lemma_pow10_mono(d as nat, 19);
        assert(-0x8000_0000_0000_0000 * 10_000_000_000_000_000_000 <= a * p
            <= 0x8000_0000_0000_0000 * 10_000_000_000_000_000_000) by (nonlinear_arith)
            requires
                -0x8000_0000_0000_0000 <= a <= 0x8000_0000_0000_0000,
                1 <= p <= 10_000_000_000_000_000_000,
        ;
    }
    order_i128(a as i128 * p, b as i128)
}

/// Compares two decimals.
pub fn order_decimal(a: i64, s: u8, b: i64, t: u8) -> (r: Order)
    ensures
        r == decimal_order(a as int, s as nat, b as int, t as nat),
{
    if s <= t {
        proof {
            lemma_scale(a as int, b as int, s as nat, t as nat);
        }
        order_shifted(a, t - s, b)
    } else {
        proof {
            lemma_scale(b as int, a as int, t as nat, s as nat);
        }
        order_shifted(b, s - t, a).reverse()
    }
}

impl ValueView {
    /// The order of two values; none, where one is NULL, no number, or of a kind that does
    /// not compare with the other's. Numbers of different width compare by their values, an
    /// integer with a double as the double nearest to it.
    pub open spec fn compare(self, other: ValueView) -> Option<Order> {
        match (self, other) {
            (ValueView::Boolean(a), ValueView::Boolean(b)) => Some(
                int_order(
                    if a {
                        1int
                    } else {
                        0int
                    },
                    if b {
                        1int
                    } else {
                        0int
                    },
                ),
            ),
            (ValueView::Integer(a), ValueView::Integer(b)) => Some(int_order(a as int, b as int)),
            (ValueView::BigInt(a), ValueView::BigInt(b)) => Some(int_order(a as int, b as int)),
            (ValueView::Integer(a), ValueView::BigInt(b)) => Some(int_order(a as int, b as int)),
            (ValueView::BigInt(a), ValueView::Integer(b)) => Some(int_order(a as int, b as int)),
            (ValueView::Float(a), ValueView::Float(b)) => float_order(a, b),
            (ValueView::Integer(a), ValueView::Float(b)) => float_order(
                float_of_int(a as int) as u64,
                b,
            ),
            (ValueView::BigInt(a), ValueView::Float(b)) => float_order(
                float_of_int(a as int) as u64,
                b,
            ),
            (ValueView::Float(a), ValueView::Integer(b)) => float_order(
                a,
                float_of_int(b as int) as u64,
            ),
            (ValueView::Float(a), ValueView::BigInt(b)) => float_order(
                a,
                float_of_int(b as int) as u64,
            ),
            (ValueView::Varchar(a), ValueView::Varchar(b)) => Some(text_order(a, b)),
            (ValueView::DateTime(a), ValueView::DateTime(b)) => Some(
                int_order(a as int, b as int),
            ),
            (ValueView::Decimal(a, s), ValueView::Decimal(b, t)) => Some(
                decimal_order(a as int, s as nat, b as int, t as nat),
            ),
            (ValueView::Decimal(a, s), ValueView::Integer(b)) => Some(
                decimal_order(a as int, s as nat, b as int, 0),
            ),
            (ValueView::Decimal(a, s), ValueView::BigInt(b)) => Some(
                decimal_order(a as int, s as nat, b as int, 0),
            ),
            (ValueView::Integer(a), ValueView::Decimal(b, t)) => Some(
                decimal_order(a as int, 0, b as int, t as nat),
            ),
            (ValueView::BigInt(a), ValueView::Decimal(b, t)) => Some(
                decimal_order(a as int, 0, b as int, t as nat),
            ),
            (ValueView::Date(a), ValueView::Date(b)) => Some(int_order(a as int, b as int)),
            (ValueView::Time(a), ValueView::Time(b)) => Some(int_order(a as int, b as int)),
            (ValueView::Json(a), ValueView::Json(b)) => Some(text_order(a, b)),
            (ValueView::Uuid(a), ValueView::Uuid(b)) => Some(text_order(a, b)),
            (ValueView::Binary(a), ValueView::Binary(b)) => Some(bytes_order(a, b)),
            _ => None,
        }
    }

    pub open spec fn is_null(self) -> bool {
        self is Null
    }
}

/// The lexicographic order of two byte sequences.
pub open spec fn bytes_order(a: Seq<u8>, b: Seq<u8>) -> Order
    decreases a.len(),
{
    if a.len() == 0 {
        if b.len() == 0 {
            Order::Equal
        } else {
            Order::Less
        }
    } else if b.len() == 0 {
        Order::Greater
    } else if a[0] == b[0] {
        bytes_order(a.skip(1), b.skip(1))
    } else {
        int_order(a[0] as int, b[0] as int)
    }
}

/// Compares two byte sequences.
pub fn order_bytes(a: &Vec<u8>, b: &Vec<u8>) -> (r: Order)
    ensures
        r == bytes_order(a@, b@),
{
    let mut i: usize = 0;
    assert(a@.skip(0) == a@ && b@.skip(0) == b@);
    while i < a.len() && i < b.len()
        invariant
            0 <= i <= a.len(),
            i <= b.len(),
            bytes_order(a@, b@) == bytes_order(a@.skip(i as int), b@.skip(i as int)),
        decreases a.len() - i,
    {
        if a[i] != b[i] {
            return if a[i] < b[i] {
                Order::Less
            } else {
                Order::Greater
            };
        }
        assert(a@.skip(i as int).skip(1) == a@.skip(i + 1));
        assert(b@.skip(i as int).skip(1) == b@.skip(i + 1));
        i += 1;
    }
    if i == a.len() {
        if i == b.len() {
            Order::Equal
        } else {
            Order::Less
        }
    } else {
        Order::Greater
    }
}

impl Value {
    /// Whether the value is NULL.
    pub fn is_null(&self) -> (r: bool)
        ensures
            r == self@.is_null(),
    {
        match self {
            Value::Null => true,
            _ => false,
        }
    }

    /// The order of two values.
    pub fn compare(&self, other: &Value) -> (r: Option<Order>)
        ensures
            r == self@.compare(other@),
    {
        match (self, other) {
            (Value::Boolean(a), Value::Boolean(b)) => Some(
                order_i64(
                    if *a {
                        1
                    } else {
                        0
                    },
                    if *b {
                        1
                    } else {
                        0
                    },
                ),
            ),
            (Value::Integer(a), Value::Integer(b)) => Some(order_i64(*a as i64, *b as i64)),
            (Value::BigInt(a), Value::BigInt(b)) => Some(order_i64(*a, *b)),
            (Value::Integer(a), Value::BigInt(b)) => Some(order_i64(*a as i64, *b)),
            (Value::BigInt(a), Value::Integer(b)) => Some(order_i64(*a, *b as i64)),
            (Value::Float(a), Value::Float(b)) => float::order(*a, *b),
            (Value::Integer(a), Value::Float(b)) => float::order(float::of_i64(*a as i64), *b),
            (Value::BigInt(a), Value::Float(b)) => float::order(float::of_i64(*a), *b),
            (Value::Float(a), Value::Integer(b)) => float::order(*a, float::of_i64(*b as i64)),
            (Value::Float(a), Value::BigInt(b)) => float::order(*a, float::of_i64(*b)),
            (Value::Varchar(a), Value::Varchar(b)) => Some(order_text(a.as_str(), b.as_str())),
            (Value::DateTime(a), Value::DateTime(b)) => Some(order_i64(*a, *b)),
            (Value::Decimal(a, s), Value::Decimal(b, t)) => Some(order_decimal(*a, *s, *b, *t)),
            (Value::Decimal(a, s), Value::Integer(b)) => Some(order_decimal(*a, *s, *b as i64, 0)),
            (Value::Decimal(a, s), Value::BigInt(b)) => Some(order_decimal(*a, *s, *b, 0)),
            (Value::Integer(a), Value::Decimal(b, t)) => Some(order_decimal(*a as i64, 0, *b, *t)),
            (Value::BigInt(a), Value::Decimal(b, t)) => Some(order_decimal(*a, 0, *b, *t)),
            (Value::Date(a), Value::Date(b)) => Some(order_i64(*a as i64, *b as i64)),
            (Value::Time(a), Value::Time(b)) => Some(order_i64(*a as i64, *b as i64)),
            (Value::Json(a), Value::Json(b)) => Some(order_text(a.as_str(), b.as_str())),
            (Value::Uuid(a), Value::Uuid(b)) => Some(order_text(a.as_str(), b.as_str())),
            (Value::Binary(a), Value::Binary(b)) => Some(order_bytes(a, b)),
            _ => None,
        }
    }
}

} // verus!
