//! The binary format of tuples.
//!
//! A tuple begins with one bit for each column that tells whether the column is NULL, the
//! lowest bit of a byte first. The columns that are not NULL follow in order: an integer,
//! date or time in four bytes, a wide integer, moment or double in eight, a truth value in
//! one, a decimal in eight and one for its scale; a text or bytes behind its length in four.
//! Numbers are little-endian.
use crate::bytes::{
    as_i32, as_i64, complement, get_le, le, le_value, lemma_le_round_trip, lemma_pow256,
    lemma_signed_round_trip, put_bytes, put_le, signed, word_i32, word_i64,
};
use crate::cast::{cast, eval_cast};
use crate::error::{outcome, ErrorView, ForgeError, Result};
use crate::host::{Host, HostView};
use crate::schema::Schema;
use crate::text::string_from_utf8;
use crate::types::{DataType, Value, ValueView};
use vstd::prelude::*;
use vstd::utf8::{
    decode_utf8, encode_utf8, encode_utf8_decode_utf8, encode_utf8_valid_utf8, valid_utf8,
};

verus! {

// ---------------------------------------------------------------------------
// Types
// ---------------------------------------------------------------------------

/// The types of the columns of a schema.
pub open spec fn types_of(s: Schema) -> Seq<DataType> {
    Seq::new(s.columns@.len(), |i: int| s.columns@[i].data_type)
}

/// Whether a value is of a type.
pub open spec fn of_type(v: ValueView, t: DataType) -> bool {
    match t {
        DataType::Integer => v is Integer,
        DataType::Float => v is Float,
        DataType::Varchar(_) => v is Varchar,
        DataType::Boolean => v is Boolean,
        DataType::BigInt => v is BigInt,
        DataType::DateTime => v is DateTime,
        DataType::Decimal(_, _) => v is Decimal,
        DataType::Date => v is Date,
        DataType::Time => v is Time,
        DataType::VarBinary(_) => v is Binary,
        DataType::Json => v is Json,
        DataType::Uuid => v is Uuid,
    }
}

fn is_of_type(v: &Value, t: &DataType) -> (r: bool)
    ensures
        r == of_type(v@, *t),
{
    match (t, v) {
        (DataType::Integer, Value::Integer(_)) => true,
        (DataType::Float, Value::Float(_)) => true,
        (DataType::Varchar(_), Value::Varchar(_)) => true,
        (DataType::Boolean, Value::Boolean(_)) => true,
        (DataType::BigInt, Value::BigInt(_)) => true,
        (DataType::DateTime, Value::DateTime(_)) => true,
        (DataType::Decimal(_, _), Value::Decimal(_, _)) => true,
        (DataType::Date, Value::Date(_)) => true,
        (DataType::Time, Value::Time(_)) => true,
        (DataType::VarBinary(_), Value::Binary(_)) => true,
        (DataType::Json, Value::Json(_)) => true,
        (DataType::Uuid, Value::Uuid(_)) => true,
        _ => false,
    }
}

/// The value that a column of a type takes in place of a NULL that it does not allow.
pub open spec fn default_of(t: DataType) -> ValueView {
    match t {
        DataType::Integer => ValueView::Integer(0),
        DataType::Float => ValueView::Float(0),
        DataType::Varchar(_) => ValueView::Varchar(Seq::empty()),
        DataType::Boolean => ValueView::Boolean(false),
        DataType::BigInt => ValueView::BigInt(0),
        DataType::DateTime => ValueView::DateTime(0),
        DataType::Decimal(_, s) => ValueView::Decimal(0, s),
        DataType::Date => ValueView::Date(0),
        DataType::Time => ValueView::Time(0),
        DataType::VarBinary(_) => ValueView::Binary(Seq::empty()),
        DataType::Json => ValueView::Json(Seq::empty()),
        DataType::Uuid => ValueView::Uuid(Seq::empty()),
    }
}

fn default_value(t: &DataType) -> (r: Value)
    ensures
        r@ == default_of(*t),
{
    match t {
        DataType::Integer => Value::Integer(0),
        DataType::Float => Value::Float(0),
        DataType::Varchar(_) => Value::Varchar(String::new()),
        DataType::Boolean => Value::Boolean(false),
        DataType::BigInt => Value::BigInt(0),
        DataType::DateTime => Value::DateTime(0),
        DataType::Decimal(_, s) => Value::Decimal(0, *s),
        DataType::Date => Value::Date(0),
        DataType::Time => Value::Time(0),
        DataType::VarBinary(_) => {
            let v: Vec<u8> = Vec::new();
            assert(v@ =~= Seq::<u8>::empty());
            Value::Binary(v)
        },
        DataType::Json => Value::Json(String::new()),
        DataType::Uuid => Value::Uuid(String::new()),
    }
}

/// A value made to fit a column's type: NULL and a value of the type stay as they are, any
/// other is converted as CAST does.
pub open spec fn fitted(v: ValueView, t: DataType, h: HostView) -> std::result::Result<
    ValueView,
    ErrorView,
> {
    if v.is_null() || of_type(v, t) {
        Ok(v)
    } else {
        cast(v, t, h)
    }
}

/// A value made to fit a column's type.
pub fn coerce_value_pub(v: &Value, t: &DataType, host: &Host) -> (r: Result<Value>)
    ensures
        outcome(r) == fitted(v@, *t, host@),
{
    if v.is_null() || is_of_type(v, t) {
        Ok(v.clone())
    } else {
        eval_cast(v, t, host)
    }
}

/// The value that a column stores for a value.
pub open spec fn stored(v: ValueView, t: DataType, nullable: bool, h: HostView) -> std::result::Result<
    ValueView,
    ErrorView,
> {
    if v.is_null() && !nullable {
        Ok(default_of(t))
    } else {
        fitted(v, t, h)
    }
}

// ---------------------------------------------------------------------------
// Bits
// ---------------------------------------------------------------------------

/// Two to the power `j`, for `j` below eight.
pub open spec fn bit_weight(j: int) -> int {
    if j == 0 {
        1
    } else if j == 1 {
        2
    } else if j == 2 {
        4
    } else if j == 3 {
        8
    } else if j == 4 {
        16
    } else if j == 5 {
        32
    } else if j == 6 {
        64
    } else {
        128
    }
}

fn weight(j: usize) -> (r: u8)
    requires
        j < 8,
    ensures
        r == bit_weight(j as int),
{
    if j == 0 {
        1
    } else if j == 1 {
        2
    } else if j == 2 {
        4
    } else if j == 3 {
        8
    } else if j == 4 {
        16
    } else if j == 5 {
        32
    } else if j == 6 {
        64
    } else {
        128
    }
}

/// Whether bit `j` of a byte is set.
pub open spec fn bit_set(b: u8, j: int) -> bool {
    (b as int / bit_weight(j)) % 2 == 1
}

/// Whether the column at a place is marked as NULL.
pub open spec fn marked_null(data: Seq<u8>, i: int) -> bool {
    bit_set(data[i / 8], i % 8)
}

/// Whether the column at a place is marked as NULL.
pub fn is_marked_null(data: &[u8], i: usize) -> (r: bool)
    requires
        i / 8 < data.len(),
    ensures
        r == marked_null(data@, i as int),
{
    let b: u8 = data[i / 8];
    (b / weight(i % 8)) % 2 == 1
}

/// The length of the bitmap for a number of columns.
pub open spec fn bitmap_len(n: int) -> int {
    (n + 7) / 8
}

/// The byte that marks, of the eight columns from `at` on, the first `j` that are NULL.
pub open spec fn mark_byte(vals: Seq<ValueView>, at: int, j: int) -> int
    decreases j,
{
    if j <= 0 {
        0
    } else {
        mark_byte(vals, at, j - 1) + if at + j - 1 < vals.len() && vals[at + j - 1].is_null() {
            bit_weight(j - 1)
        } else {
            0
        }
    }
}

/// The bitmap of a row.
pub open spec fn bitmap(vals: Seq<ValueView>) -> Seq<u8> {
    Seq::new(bitmap_len(vals.len() as int) as nat, |k: int| mark_byte(vals, 8 * k, 8) as u8)
}

proof fn lemma_mark_byte(vals: Seq<ValueView>, at: int, j: int)
    requires
        0 <= j <= 8,
    ensures
        0 <= mark_byte(vals, at, j) < if j == 8 {
            256
        } else {
            bit_weight(j)
        },
        forall|i: int|
            0 <= i < j ==> ((#[trigger] (mark_byte(vals, at, j) / bit_weight(i))) % 2 == 1) == (at
                + i < vals.len() && vals[at + i].is_null()),
    decreases j,
{
    if j > 0 {
        lemma_mark_byte(vals, at, j - 1);
        let m = mark_byte(vals, at, j - 1);
        let w = bit_weight(j - 1);
        let full = mark_byte(vals, at, j);
        assert forall|i: int| 0 <= i < j implies ((#[trigger] (full / bit_weight(i))) % 2 == 1) == (
        at + i < vals.len() && vals[at + i].is_null()) by {
            if i < j - 1 {
                assert((m / bit_weight(i)) % 2 == 1 <==> (at + i < vals.len()
                    && vals[at + i].is_null()));
                lemma_higher_bit(m, i, j - 1);
            } else {
                assert(m < w);
                if full == m {
                    assert(m / w == 0) by (nonlinear_arith)
                        requires
                            0 <= m < w,
                    ;
                } else {
                    assert((m + w) / w == 1) by (nonlinear_arith)
                        requires
                            0 <= m < w,
                    ;
                }
            }
        }
    }
}

/// A higher bit does not change a lower one.
proof fn lemma_higher_bit(m: int, i: int, j: int)
    requires
        0 <= m,
        0 <= i < j < 8,
    ensures
        ((m + bit_weight(j)) / bit_weight(i)) % 2 == (m / bit_weight(i)) % 2,
{
    let w = bit_weight(i);
    let q = bit_weight(j) / w;
    assert(bit_weight(j) == q * w && q % 2 == 0);
    vstd::arithmetic::div_mod::lemma_hoist_over_denominator(m, q, w as nat);
}

proof fn lemma_bitmap(vals: Seq<ValueView>, i: int)
    requires
        0 <= i < vals.len(),
    ensures
        0 <= i / 8 < bitmap(vals).len(),
        marked_null(bitmap(vals), i) == vals[i].is_null(),
{
    let k = i / 8;
    let j = i % 8;
    lemma_mark_byte(vals, 8 * k, 8);
    assert((mark_byte(vals, 8 * k, 8) / bit_weight(j)) % 2 == 1 <==> (8 * k + j < vals.len()
        && vals[8 * k + j].is_null()));
}

fn put_bitmap(buf: &mut Vec<u8>, vals: &Vec<Value>)
    ensures
        final(buf)@ == old(buf)@ + bitmap(vals.deep_view()),
{
    let ghost start = buf@;
    let ghost vv = vals.deep_view();
    let n: usize = vals.len();
    let len: usize = if n % 8 == 0 {
        n / 8
    } else {
        n / 8 + 1
    };
    assert(len == bitmap_len(n as int));
    let mut k: usize = 0;
    assert(bitmap(vv).take(0) =~= Seq::<u8>::empty());
    assert(start + bitmap(vv).take(0) =~= start);
    while k < len
        invariant
            0 <= k <= len,
            n == vals.len(),
            len == bitmap_len(n as int),
            vv == vals.deep_view(),
            buf@ == start + bitmap(vv).take(k as int),
        decreases len - k,
    {
        let mut b: u8 = 0;
        let mut j: usize = 0;
        while j < 8
            invariant
                0 <= j <= 8,
                k < len,
                n == vals.len(),
                len == bitmap_len(n as int),
                vv == vals.deep_view(),
                b == mark_byte(vv, 8 * k, j as int),
            decreases 8 - j,
        {
            proof {
                lemma_mark_byte(vv, 8 * k, j + 1);
            }
            if j < n - 8 * k {
                assert(vv[8 * k + j] == vals@[8 * k + j]@);
                if vals[8 * k + j].is_null() {
                    b = b + weight(j);
                }
            }
            j += 1;
        }
        buf.push(b);
        assert(bitmap(vv).take(k + 1) =~= bitmap(vv).take(k as int).push(b));
        assert(buf@ =~= start + bitmap(vv).take(k + 1));
        k += 1;
    }
    assert(bitmap(vv).take(len as int) =~= bitmap(vv));
}

// ---------------------------------------------------------------------------
// Fields
// ---------------------------------------------------------------------------

/// Bytes behind their length.
pub open spec fn counted(b: Seq<u8>) -> Seq<u8> {
    le(b.len() as int, 4) + b
}

/// The bytes of a value that is not NULL.
pub open spec fn field_bytes(v: ValueView) -> Seq<u8> {
    match v {
        ValueView::Null => Seq::empty(),
        ValueView::Integer(n) => le(complement(n as int, 4), 4),
        ValueView::Date(n) => le(complement(n as int, 4), 4),
        ValueView::Time(n) => le(complement(n as int, 4), 4),
        ValueView::BigInt(n) => le(complement(n as int, 8), 8),
        ValueView::DateTime(n) => le(complement(n as int, 8), 8),
        ValueView::Float(f) => le(f as int, 8),
        ValueView::Boolean(b) => seq![
            if b {
                1u8
            } else {
                0u8
            },
        ],
        ValueView::Decimal(n, s) => le(complement(n as int, 8), 8) + seq![s],
        ValueView::Varchar(s) => counted(encode_utf8(s)),
        ValueView::Json(s) => counted(encode_utf8(s)),
        ValueView::Uuid(s) => counted(encode_utf8(s)),
        ValueView::Binary(b) => counted(b),
    }
}

/// The fields of a row, one after the other.
pub open spec fn fields_bytes(vals: Seq<ValueView>) -> Seq<u8>
    decreases vals.len(),
{
    if vals.len() == 0 {
        Seq::empty()
    } else {
        fields_bytes(vals.drop_last()) + field_bytes(vals.last())
    }
}

/// The bytes of a row.
pub open spec fn tuple_bytes(vals: Seq<ValueView>) -> Seq<u8> {
    bitmap(vals) + fields_bytes(vals)
}

fn put_counted(buf: &mut Vec<u8>, b: &[u8])
    ensures
        final(buf)@ == old(buf)@ + counted(b@),
{
    let ghost start = buf@;
    put_le(buf, b.len() as u64, 4);
    put_bytes(buf, b);
    assert(buf@ =~= start + counted(b@));
}

/// Writes the bytes of a value that is not NULL.
pub fn put_field(buf: &mut Vec<u8>, v: &Value)
    ensures
        final(buf)@ == old(buf)@ + field_bytes(v@),
{
    let ghost start = buf@;
    match v {
        Value::Null => {},
        Value::Integer(n) => put_le(buf, word_i32(*n), 4),
        Value::Date(n) => put_le(buf, word_i32(*n), 4),
        Value::Time(n) => put_le(buf, word_i32(*n), 4),
        Value::BigInt(n) => put_le(buf, word_i64(*n), 8),
        Value::DateTime(n) => put_le(buf, word_i64(*n), 8),
        Value::Float(f) => put_le(buf, *f, 8),
        Value::Boolean(b) => buf.push(
            if *b {
                1
            } else {
                0
            },
        ),
        Value::Decimal(n, s) => {
            put_le(buf, word_i64(*n), 8);
            buf.push(*s);
        },
        Value::Varchar(s) => put_counted(buf, s.as_str().as_bytes()),
        Value::Json(s) => put_counted(buf, s.as_str().as_bytes()),
        Value::Uuid(s) => put_counted(buf, s.as_str().as_bytes()),
        Value::Binary(b) => put_counted(buf, b.as_slice()),
    }
    assert(buf@ =~= start + field_bytes(v@));
}

/// The values that the columns of a schema store for values, from column `i` on, behind
/// `acc`.
pub open spec fn stored_from(
    vals: Seq<ValueView>,
    s: Schema,
    i: int,
    acc: Seq<ValueView>,
    h: HostView,
) -> std::result::Result<Seq<ValueView>, ErrorView>
    decreases vals.len() - i,
{
    if i < 0 || i >= vals.len() {
        Ok(acc)
    } else {
        match stored(vals[i], s.columns@[i].data_type, s.columns@[i].nullable, h) {
            Err(e) => Err(e),
            Ok(v) => stored_from(vals, s, i + 1, acc.push(v), h),
        }
    }
}

/// The bytes that a table stores for a row, which must have as many values as the table has
/// columns.
pub open spec fn serialized(vals: Seq<ValueView>, s: Schema, h: HostView) -> std::result::Result<
    Seq<u8>,
    ErrorView,
> {
    if vals.len() != s.columns@.len() {
        Err(ErrorView::Tuple("number of values differs from number of columns"@))
    } else {
        match stored_from(vals, s, 0, Seq::empty(), h) {
            Err(e) => Err(e),
            Ok(row) => Ok(tuple_bytes(row)),
        }
    }
}

/// The bytes that a table stores for a row.
pub fn serialize(vals: &Vec<Value>, schema: &Schema, host: &Host) -> (r: Result<Vec<u8>>)
    ensures
        outcome(r) == serialized(vals.deep_view(), *schema, host@),
{
    if vals.len() != schema.columns.len() {
        return Err(
            ForgeError::Tuple("number of values differs from number of columns".to_owned()),
        );
    }
    let ghost vv = vals.deep_view();
    let mut row: Vec<Value> = Vec::new();
    let mut i: usize = 0;
    assert(row.deep_view() =~= Seq::<ValueView>::empty());
    while i < vals.len()
        invariant
            0 <= i <= vals.len(),
            vv == vals.deep_view(),
            vals.len() == schema.columns.len(),
            stored_from(vv, *schema, 0, Seq::empty(), host@) == stored_from(
                vv,
                *schema,
                i as int,
                row.deep_view(),
                host@,
            ),
        decreases vals.len() - i,
    {
        let t = &schema.columns[i].data_type;
        assert(vv[i as int] == vals@[i as int]@);
        let v = if vals[i].is_null() && !schema.columns[i].nullable {
            default_value(t)
        } else {
            coerce_value_pub(&vals[i], t, host)?
        };
        let ghost before = row.deep_view();
        row.push(v);
        assert(row.deep_view() =~= before.push(v@));
        i += 1;
    }
    let buf = encode_tuple(&row);
    assert(buf.deep_view() =~= buf@);
    Ok(buf)
}

/// The bytes of a row.
pub fn encode_tuple(row: &Vec<Value>) -> (r: Vec<u8>)
    ensures
        r@ == tuple_bytes(row.deep_view()),
{
    let ghost rv = row.deep_view();
    let mut buf: Vec<u8> = Vec::new();
    put_bitmap(&mut buf, row);
    let ghost head = buf@;
    assert(head =~= bitmap(rv));
    assert(rv.take(0).len() == 0);
    assert(head + fields_bytes(rv.take(0)) =~= head);
    let mut i: usize = 0;
    while i < row.len()
        invariant
            0 <= i <= row.len(),
            rv == row.deep_view(),
            buf@ == head + fields_bytes(rv.take(i as int)),
        decreases row.len() - i,
    {
        put_field(&mut buf, &row[i]);
        assert(rv.take(i + 1).drop_last() =~= rv.take(i as int));
        assert(rv.take(i + 1).last() == row@[i as int]@);
        assert(buf@ =~= head + fields_bytes(rv.take(i + 1)));
        i += 1;
    }
    assert(rv.take(row.len() as int) =~= rv);
    buf
}

// ---------------------------------------------------------------------------
// Reading
// ---------------------------------------------------------------------------

/// The error for a tuple that ends too early.
pub open spec fn short_error() -> ErrorView {
    ErrorView::Tuple("tuple too short"@)
}

/// The bytes behind their length at a position, and the position behind them.
pub open spec fn counted_read(data: Seq<u8>, pos: int) -> std::result::Result<
    (Seq<u8>, int),
    ErrorView,
> {
    if pos + 4 > data.len() {
        Err(short_error())
    } else {
        let n = le_value(data.subrange(pos, pos + 4));
        if pos + 4 + n > data.len() {
            Err(short_error())
        } else {
            Ok((data.subrange(pos + 4, pos + 4 + n), pos + 4 + n))
        }
    }
}

/// The text behind its length at a position, and the position behind it.
pub open spec fn text_read(data: Seq<u8>, pos: int) -> std::result::Result<
    (Seq<char>, int),
    ErrorView,
> {
    match counted_read(data, pos) {
        Err(e) => Err(e),
        Ok(p) => if valid_utf8(p.0) {
            Ok((decode_utf8(p.0), p.1))
        } else {
            Err(ErrorView::Tuple("invalid UTF-8"@))
        },
    }
}

/// The number of bytes that a value of a type takes; none, where that depends on the value.
pub open spec fn fixed_size(t: DataType) -> Option<int> {
    match t {
        DataType::Integer => Some(4),
        DataType::Date => Some(4),
        DataType::Time => Some(4),
        DataType::BigInt => Some(8),
        DataType::Float => Some(8),
        DataType::DateTime => Some(8),
        DataType::Boolean => Some(1),
        DataType::Decimal(_, _) => Some(9),
        _ => None,
    }
}

/// The value of a type with a fixed size that bytes hold.
pub open spec fn fixed_value(t: DataType, b: Seq<u8>) -> ValueView {
    match t {
        DataType::Integer => ValueView::Integer(signed(le_value(b), 4) as i32),
        DataType::Date => ValueView::Date(signed(le_value(b), 4) as i32),
        DataType::Time => ValueView::Time(signed(le_value(b), 4) as i32),
        DataType::BigInt => ValueView::BigInt(signed(le_value(b), 8) as i64),
        DataType::DateTime => ValueView::DateTime(signed(le_value(b), 8) as i64),
        DataType::Float => ValueView::Float(le_value(b) as u64),
        DataType::Boolean => ValueView::Boolean(b[0] != 0),
        _ => ValueView::Decimal(signed(le_value(b.take(8)), 8) as i64, b[8]),
    }
}

/// The value of a type at a position, and the position behind it.
pub open spec fn field_read(data: Seq<u8>, pos: int, t: DataType) -> std::result::Result<
    (ValueView, int),
    ErrorView,
> {
    match fixed_size(t) {
        Some(n) => if pos + n > data.len() {
            Err(short_error())
        } else {
            Ok((fixed_value(t, data.subrange(pos, pos + n)), pos + n))
        },
        None => match t {
            DataType::VarBinary(_) => match counted_read(data, pos) {
                Err(e) => Err(e),
                Ok(p) => Ok((ValueView::Binary(p.0), p.1)),
            },
            _ => match text_read(data, pos) {
                Err(e) => Err(e),
                Ok(p) => Ok(
                    (
                        match t {
                            DataType::Varchar(_) => ValueView::Varchar(p.0),
                            DataType::Json => ValueView::Json(p.0),
                            _ => ValueView::Uuid(p.0),
                        },
                        p.1,
                    ),
                ),
            },
        },
    }
}

/// The values of the columns from `i` on, which begin at a position, behind `acc`.
pub open spec fn fields_read(
    data: Seq<u8>,
    types: Seq<DataType>,
    i: int,
    pos: int,
    acc: Seq<ValueView>,
) -> std::result::Result<Seq<ValueView>, ErrorView>
    decreases types.len() - i,
{
    if i < 0 || i >= types.len() {
        Ok(acc)
    } else if marked_null(data, i) {
        fields_read(data, types, i + 1, pos, acc.push(ValueView::Null))
    } else {
        match field_read(data, pos, types[i]) {
            Err(e) => Err(e),
            Ok(p) => fields_read(data, types, i + 1, p.1, acc.push(p.0)),
        }
    }
}

/// The row that bytes hold.
pub open spec fn tuple_read(data: Seq<u8>, types: Seq<DataType>) -> std::result::Result<
    Seq<ValueView>,
    ErrorView,
> {
    let b = bitmap_len(types.len() as int);
    if data.len() < b {
        Err(short_error())
    } else {
        fields_read(data, types, 0, b, Seq::empty())
    }
}

fn too_short<T>() -> (r: std::result::Result<T, ForgeError>)
    ensures
        r matches Err(e) && e@ == short_error(),
{
    Err(ForgeError::Tuple("tuple too short".to_owned()))
}

fn read_counted(data: &[u8], pos: usize) -> (r: std::result::Result<(Vec<u8>, usize), ForgeError>)
    requires
        pos <= data.len(),
    ensures
        match r {
            Ok(p) => counted_read(data@, pos as int) == Ok::<(Seq<u8>, int), ErrorView>(
                (p.0@, p.1 as int),
            ) && p.1 <= data.len(),
            Err(e) => counted_read(data@, pos as int) == Err::<(Seq<u8>, int), ErrorView>(e@),
        },
{
    if data.len() - pos < 4 {
        return too_short();
    }
    let n: u64 = get_le(data, pos, 4);
    let at: usize = pos + 4;
    if n > (data.len() - at) as u64 {
        return too_short();
    }
    let n: usize = n as usize;
    let mut b: Vec<u8> = Vec::new();
    put_bytes(&mut b, vstd::slice::slice_subrange(data, at, at + n));
    assert(b@ =~= data@.subrange(at as int, at + n));
    Ok((b, at + n))
}

fn read_text(data: &[u8], pos: usize) -> (r: std::result::Result<(String, usize), ForgeError>)
    requires
        pos <= data.len(),
    ensures
        match r {
            Ok(p) => text_read(data@, pos as int) == Ok::<(Seq<char>, int), ErrorView>(
                (p.0@, p.1 as int),
            ) && p.1 <= data.len(),
            Err(e) => text_read(data@, pos as int) == Err::<(Seq<char>, int), ErrorView>(e@),
        },
{
    let (b, at) = read_counted(data, pos)?;
    match string_from_utf8(b) {
        Some(s) => Ok((s, at)),
        None => Err(ForgeError::Tuple("invalid UTF-8".to_owned())),
    }
}

/// The number of bytes that a value of a type takes.
pub fn size_of_type(t: &DataType) -> (r: Option<usize>)
    ensures
        r is Some == fixed_size(*t) is Some,
        r is Some ==> fixed_size(*t) == Some(r->0 as int) && 1 <= r->0 <= 9,
{
    match t {
        DataType::Integer => Some(4),
        DataType::Date => Some(4),
        DataType::Time => Some(4),
        DataType::BigInt => Some(8),
        DataType::Float => Some(8),
        DataType::DateTime => Some(8),
        DataType::Boolean => Some(1),
        DataType::Decimal(_, _) => Some(9),
        _ => None,
    }
}

fn read_fixed(data: &[u8], pos: usize, t: &DataType, n: usize) -> (r: Value)
    requires
        fixed_size(*t) == Some(n as int),
        pos + n <= data.len(),
    ensures
        r@ == fixed_value(*t, data@.subrange(pos as int, pos + n)),
{
    proof {
        lemma_pow256();
    }
    let ghost b = data@.subrange(pos as int, pos + n);
    match t {
        DataType::Integer => Value::Integer(as_i32(get_le(data, pos, 4))),
        DataType::Date => Value::Date(as_i32(get_le(data, pos, 4))),
        DataType::Time => Value::Time(as_i32(get_le(data, pos, 4))),
        DataType::BigInt => Value::BigInt(as_i64(get_le(data, pos, 8))),
        DataType::DateTime => Value::DateTime(as_i64(get_le(data, pos, 8))),
        DataType::Float => Value::Float(get_le(data, pos, 8)),
        DataType::Boolean => Value::Boolean(data[pos] != 0),
        _ => {
            assert(b.take(8) =~= data@.subrange(pos as int, pos + 8));
            Value::Decimal(as_i64(get_le(data, pos, 8)), data[pos + 8])
        },
    }
}

/// Reads the value of a type at a position.
pub fn read_field(data: &[u8], pos: usize, t: &DataType) -> (r: std::result::Result<
    (Value, usize),
    ForgeError,
>)
    requires
        pos <= data.len(),
    ensures
        match r {
            Ok(p) => field_read(data@, pos as int, *t) == Ok::<(ValueView, int), ErrorView>(
                (p.0@, p.1 as int),
            ) && p.1 <= data.len(),
            Err(e) => field_read(data@, pos as int, *t) == Err::<(ValueView, int), ErrorView>(e@),
        },
{
    match size_of_type(t) {
        Some(n) => {
            if n > data.len() - pos {
                return too_short();
            }
            Ok((read_fixed(data, pos, t, n), pos + n))
        },
        None => match t {
            DataType::VarBinary(_) => {
                let (b, at) = read_counted(data, pos)?;
                Ok((Value::Binary(b), at))
            },
            _ => {
                let (s, at) = read_text(data, pos)?;
                match t {
                    DataType::Varchar(_) => Ok((Value::Varchar(s), at)),
                    DataType::Json => Ok((Value::Json(s), at)),
                    _ => Ok((Value::Uuid(s), at)),
                }
            },
        },
    }
}

/// The row that bytes hold.
pub fn deserialize(data: &[u8], schema: &Schema) -> (r: Result<Vec<Value>>)
    ensures
        outcome(r) == tuple_read(data@, types_of(*schema)),
{
    let ghost types = types_of(*schema);
    let n: usize = schema.columns.len();
    let len: usize = if n % 8 == 0 {
        n / 8
    } else {
        n / 8 + 1
    };
    assert(len == bitmap_len(n as int));
    if data.len() < len {
        return too_short();
    }
    let mut out: Vec<Value> = Vec::new();
    let mut pos: usize = len;
    let mut i: usize = 0;
    assert(out.deep_view() =~= Seq::<ValueView>::empty());
    while i < n
        invariant
            0 <= i <= n,
            n == schema.columns.len(),
            types == types_of(*schema),
            len == bitmap_len(n as int),
            len <= data.len(),
            pos <= data.len(),
            fields_read(data@, types, 0, len as int, Seq::empty()) == fields_read(
                data@,
                types,
                i as int,
                pos as int,
                out.deep_view(),
            ),
        decreases n - i,
    {
        let ghost before = out.deep_view();
        if is_marked_null(data, i) {
            out.push(Value::Null);
            assert(out.deep_view() =~= before.push(ValueView::Null));
        } else {
            let (v, next) = read_field(data, pos, &schema.columns[i].data_type)?;
            out.push(v);
            assert(out.deep_view() =~= before.push(v@));
            pos = next;
        }
        i += 1;
    }
    Ok(out)
}

/// The value of column `col` when the columns from `i` on begin at a position.
pub open spec fn column_read_from(
    data: Seq<u8>,
    types: Seq<DataType>,
    i: int,
    pos: int,
    col: int,
) -> std::result::Result<ValueView, ErrorView>
    decreases types.len() - i,
{
    if i < 0 || i >= types.len() {
        Err(short_error())
    } else if marked_null(data, i) {
        if i == col {
            Ok(ValueView::Null)
        } else {
            column_read_from(data, types, i + 1, pos, col)
        }
    } else {
        match field_read(data, pos, types[i]) {
            Err(e) => Err(e),
            Ok(p) => if i == col {
                Ok(p.0)
            } else {
                column_read_from(data, types, i + 1, p.1, col)
            },
        }
    }
}

/// The value of one column of the row that bytes hold.
pub open spec fn single_column(data: Seq<u8>, types: Seq<DataType>, col: int) -> std::result::Result<
    ValueView,
    ErrorView,
> {
    let b = bitmap_len(types.len() as int);
    if data.len() < b {
        Err(short_error())
    } else {
        column_read_from(data, types, 0, b, col)
    }
}

/// The value of one column of the row that bytes hold; the columns behind it are not read.
pub fn deserialize_single_column(data: &[u8], schema: &Schema, col: usize) -> (r: Result<Value>)
    ensures
        outcome(r) == single_column(data@, types_of(*schema), col as int),
{
    let ghost types = types_of(*schema);
    let n: usize = schema.columns.len();
    let len: usize = if n % 8 == 0 {
        n / 8
    } else {
        n / 8 + 1
    };
    assert(len == bitmap_len(n as int));
    if data.len() < len {
        return too_short();
    }
    let mut pos: usize = len;
    let mut i: usize = 0;
    while i < n
        invariant
            0 <= i <= n,
            n == schema.columns.len(),
            types == types_of(*schema),
            len == bitmap_len(n as int),
            len <= data.len(),
            pos <= data.len(),
            column_read_from(data@, types, 0, len as int, col as int) == column_read_from(
                data@,
                types,
                i as int,
                pos as int,
                col as int,
            ),
        decreases n - i,
    {
        if is_marked_null(data, i) {
            if i == col {
                return Ok(Value::Null);
            }
        } else {
            let (v, next) = read_field(data, pos, &schema.columns[i].data_type)?;
            if i == col {
                return Ok(v);
            }
            pos = next;
        }
        i += 1;
    }
    too_short()
}

/// The integer in one column of the row that bytes hold; none, where it is NULL, no integer,
/// or cannot be read.
pub open spec fn column_int(data: Seq<u8>, types: Seq<DataType>, col: int) -> Option<i64> {
    match single_column(data, types, col) {
        Ok(ValueView::Integer(n)) => Some(n as i64),
        Ok(ValueView::BigInt(n)) => Some(n),
        _ => None,
    }
}

/// The integer in one column of the row that bytes hold.
pub fn read_column_i64_raw(data: &[u8], schema: &Schema, col: usize) -> (r: Option<i64>)
    ensures
        r == column_int(data@, types_of(*schema), col as int),
{
    match deserialize_single_column(data, schema, col) {
        Ok(Value::Integer(n)) => Some(n as i64),
        Ok(Value::BigInt(n)) => Some(n),
        _ => None,
    }
}

// ---------------------------------------------------------------------------
// Laws
// ---------------------------------------------------------------------------

/// Whether the length of a value's bytes fits four bytes.
pub open spec fn value_fits(v: ValueView) -> bool {
    match v {
        ValueView::Varchar(s) => encode_utf8(s).len() < 0x1_0000_0000,
        ValueView::Json(s) => encode_utf8(s).len() < 0x1_0000_0000,
        ValueView::Uuid(s) => encode_utf8(s).len() < 0x1_0000_0000,
        ValueView::Binary(b) => b.len() < 0x1_0000_0000,
        _ => true,
    }
}

/// Whether a row fits columns of the given types.
pub open spec fn row_fits(vals: Seq<ValueView>, types: Seq<DataType>) -> bool {
    &&& vals.len() == types.len()
    &&& forall|i: int|
        0 <= i < vals.len() ==> ((#[trigger] vals[i]).is_null() || of_type(vals[i], types[i]))
            && value_fits(vals[i])
}

/// Whether bytes stand at a position of data.
pub open spec fn stands(data: Seq<u8>, pos: int, b: Seq<u8>) -> bool {
    0 <= pos && pos + b.len() <= data.len() && data.subrange(pos, pos + b.len()) == b
}

proof fn lemma_counted(data: Seq<u8>, pos: int, b: Seq<u8>)
    requires
        stands(data, pos, counted(b)),
        b.len() < 0x1_0000_0000,
    ensures
        counted_read(data, pos) == Ok::<(Seq<u8>, int), ErrorView>((b, pos + counted(b).len())),
{
    lemma_pow256();
    lemma_le_round_trip(b.len() as int, 4);
    let whole = data.subrange(pos, pos + counted(b).len());
    assert(data.subrange(pos, pos + 4) =~= whole.take(4));
    assert(whole.take(4) =~= le(b.len() as int, 4));
    assert(data.subrange(pos + 4, pos + 4 + b.len()) =~= whole.skip(4));
    assert(whole.skip(4) =~= b);
}

/// The value that was written at a position is read there.
pub proof fn lemma_field(data: Seq<u8>, pos: int, v: ValueView, t: DataType)
    requires
        !v.is_null(),
        of_type(v, t),
        value_fits(v),
        stands(data, pos, field_bytes(v)),
    ensures
        field_read(data, pos, t) == Ok::<(ValueView, int), ErrorView>(
            (v, pos + field_bytes(v).len()),
        ),
{
    lemma_pow256();
    match v {
        ValueView::Integer(n) => {
            lemma_signed_round_trip(n as int, 4);
            lemma_le_round_trip(complement(n as int, 4), 4);
        },
        ValueView::Date(n) => {
            lemma_signed_round_trip(n as int, 4);
            lemma_le_round_trip(complement(n as int, 4), 4);
        },
        ValueView::Time(n) => {
            lemma_signed_round_trip(n as int, 4);
            lemma_le_round_trip(complement(n as int, 4), 4);
        },
        ValueView::BigInt(n) => {
            lemma_signed_round_trip(n as int, 8);
            lemma_le_round_trip(complement(n as int, 8), 8);
        },
        ValueView::DateTime(n) => {
            lemma_signed_round_trip(n as int, 8);
            lemma_le_round_trip(complement(n as int, 8), 8);
        },
        ValueView::Float(f) => {
            lemma_le_round_trip(f as int, 8);
        },
        ValueView::Boolean(b) => {
            assert(data.subrange(pos, pos + 1)[0] == field_bytes(v)[0]);
        },
        ValueView::Decimal(n, s) => {
            lemma_signed_round_trip(n as int, 8);
            lemma_le_round_trip(complement(n as int, 8), 8);
            let b = data.subrange(pos, pos + 9);
            assert(b =~= field_bytes(v));
            assert(b.take(8) =~= le(complement(n as int, 8), 8));
            assert(b[8] == s);
        },
        ValueView::Varchar(s) => {
            lemma_counted(data, pos, encode_utf8(s));
            encode_utf8_valid_utf8(s);
            encode_utf8_decode_utf8(s);
        },
        ValueView::Json(s) => {
            lemma_counted(data, pos, encode_utf8(s));
            encode_utf8_valid_utf8(s);
            encode_utf8_decode_utf8(s);
        },
        ValueView::Uuid(s) => {
            lemma_counted(data, pos, encode_utf8(s));
            encode_utf8_valid_utf8(s);
            encode_utf8_decode_utf8(s);
        },
        ValueView::Binary(b) => {
            lemma_counted(data, pos, b);
        },
        ValueView::Null => {},
    }
}

proof fn lemma_fields_prefix(data: Seq<u8>, pos: int, vals: Seq<ValueView>, k: int)
    requires
        0 <= k <= vals.len(),
        stands(data, pos, fields_bytes(vals)),
    ensures
        stands(data, pos, fields_bytes(vals.take(k))),
    decreases vals.len() - k,
{
    if k == vals.len() {
        assert(vals.take(k) =~= vals);
    } else {
        lemma_fields_prefix(data, pos, vals, k + 1);
        assert(vals.take(k + 1).drop_last() =~= vals.take(k));
        let a = fields_bytes(vals.take(k));
        let b = field_bytes(vals.take(k + 1).last());
        let whole = data.subrange(pos, pos + (a + b).len());
        assert(data.subrange(pos, pos + a.len()) =~= whole.take(a.len() as int));
        assert(whole.take(a.len() as int) =~= a);
    }
}

#[verifier::rlimit(40)]
#[verifier::spinoff_prover]
proof fn lemma_fields(data: Seq<u8>, vals: Seq<ValueView>, types: Seq<DataType>, k: int)
    requires
        data == tuple_bytes(vals),
        row_fits(vals, types),
        0 <= k <= vals.len(),
    ensures
        fields_read(data, types, 0, bitmap(vals).len() as int, Seq::empty()) == fields_read(
            data,
            types,
            k,
            (bitmap(vals).len() + fields_bytes(vals.take(k)).len()) as int,
            vals.take(k),
        ),
    decreases k,
{
    let start = bitmap(vals).len() as int;
    if k == 0 {
        assert(vals.take(0) =~= Seq::<ValueView>::empty());
    } else {
        lemma_fields(data, vals, types, k - 1);
        let i = k - 1;
        lemma_bitmap(vals, i);
        assert(data[i / 8] == bitmap(vals)[i / 8]);
        assert(vals.take(k).drop_last() =~= vals.take(i));
        assert(vals.take(k).last() == vals[i]);
        assert(vals.take(i).push(vals[i]) =~= vals.take(k));
        let a = fields_bytes(vals.take(i));
        let b = field_bytes(vals[i]);
        if vals[i].is_null() {
            assert(a + b =~= a);
        } else {
            assert(data.subrange(start, data.len() as int) =~= fields_bytes(vals));
            lemma_fields_prefix(data, start, vals, k);
            let whole = data.subrange(start, start + (a + b).len());
            assert(data.subrange(start + a.len(), start + a.len() + b.len()) =~= whole.skip(
                a.len() as int,
            ));
            assert(whole.skip(a.len() as int) =~= b);
            lemma_field(data, start + a.len(), vals[i], types[i]);
        }
    }
}

/// Reading a tuple gives back the row that was written.
pub proof fn law_tuple_round_trip(vals: Seq<ValueView>, types: Seq<DataType>)
    requires
        row_fits(vals, types),
    ensures
        tuple_read(tuple_bytes(vals), types) == Ok::<Seq<ValueView>, ErrorView>(vals),
{
    lemma_fields(tuple_bytes(vals), vals, types, vals.len() as int);
    assert(vals.take(vals.len() as int) =~= vals);
}

proof fn lemma_column_is_field(
    data: Seq<u8>,
    types: Seq<DataType>,
    i: int,
    pos: int,
    acc: Seq<ValueView>,
    col: int,
)
    requires
        0 <= i <= col < types.len(),
        acc.len() == i,
        fields_read(data, types, i, pos, acc) is Ok,
    ensures
        fields_read(data, types, i, pos, acc)->Ok_0.len() == types.len(),
        column_read_from(data, types, i, pos, col) == Ok::<ValueView, ErrorView>(
            fields_read(data, types, i, pos, acc)->Ok_0[col],
        ),
    decreases types.len() - i,
{
    if marked_null(data, i) {
        if i < col {
            lemma_column_is_field(data, types, i + 1, pos, acc.push(ValueView::Null), col);
        } else {
            lemma_fields_keep(data, types, i + 1, pos, acc.push(ValueView::Null));
            assert(acc.push(ValueView::Null)[i] == ValueView::Null);
        }
    } else {
        let p = field_read(data, pos, types[i])->Ok_0;
        if i < col {
            lemma_column_is_field(data, types, i + 1, p.1, acc.push(p.0), col);
        } else {
            lemma_fields_keep(data, types, i + 1, p.1, acc.push(p.0));
            assert(acc.push(p.0)[i] == p.0);
        }
    }
}

proof fn lemma_fields_keep(
    data: Seq<u8>,
    types: Seq<DataType>,
    i: int,
    pos: int,
    acc: Seq<ValueView>,
)
    requires
        0 <= i <= types.len(),
        acc.len() == i,
        fields_read(data, types, i, pos, acc) is Ok,
    ensures
        fields_read(data, types, i, pos, acc)->Ok_0.len() == types.len(),
        forall|k: int|
            0 <= k < i ==> fields_read(data, types, i, pos, acc)->Ok_0[k] == #[trigger] acc[k],
    decreases types.len() - i,
{
    if i < types.len() {
        let next = if marked_null(data, i) {
            acc.push(ValueView::Null)
        } else {
            acc.push(field_read(data, pos, types[i])->Ok_0.0)
        };
        let at = if marked_null(data, i) {
            pos
        } else {
            field_read(data, pos, types[i])->Ok_0.1
        };
        lemma_fields_keep(data, types, i + 1, at, next);
        assert forall|k: int| 0 <= k < i implies fields_read(data, types, i, pos, acc)->Ok_0[k]
            == #[trigger] acc[k] by {
            assert(next[k] == acc[k]);
        }
    }
}

/// Reading one column gives what reading the whole tuple gives in that column.
pub proof fn law_single_column_agrees(data: Seq<u8>, types: Seq<DataType>, col: int)
    requires
        0 <= col < types.len(),
        tuple_read(data, types) is Ok,
    ensures
        tuple_read(data, types)->Ok_0.len() == types.len(),
        single_column(data, types, col) == Ok::<ValueView, ErrorView>(
            tuple_read(data, types)->Ok_0[col],
        ),
{
    lemma_column_is_field(
        data,
        types,
        0,
        bitmap_len(types.len() as int),
        Seq::empty(),
        col,
    );
}

} // verus!
