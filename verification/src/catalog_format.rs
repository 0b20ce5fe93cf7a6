//! The binary format of the catalog file.
//!
//! Numbers are little-endian. The file begins with the number of tables and the next table
//! identifier, four bytes each. A table is its identifier, name, first page and number of
//! columns, followed by its columns: name, type tag with its parameters, one byte that tells
//! whether NULL is allowed, a column identifier of two bytes, one byte each for AUTO_INCREMENT,
//! PRIMARY KEY and UNIQUE, the default value, the reference to another table and the CHECK
//! condition. A name is its length in bytes, four bytes long, and its bytes in UTF-8. A default
//! value is a byte that tells whether there is one, and whether it is NULL, the tag of its type
//! and its bytes.
use crate::bytes::{
    get_le, le, le_value, lemma_le_len, lemma_le_round_trip, lemma_pow256, pow256, put_bytes,
    put_le,
};
use crate::catalog::{entry_from, find_entry, keys_differ, lemma_entry_from, Catalog, TableInfo};
use crate::common::{PageId, TableId};
use crate::error::{ErrorView, ForgeError, Result};
use crate::expr_format::{
    check_bytes, check_read, lemma_check, lemma_short_fits, put_check, read_check, tree_fits,
    tree_short,
};
use crate::schema::{Column, ColumnView, Schema};
use crate::text::{int_text, lower_text, show_u64, string_from_utf8};
use crate::tuple::{field_bytes, field_read, lemma_field, put_field, read_field, stands, value_fits};
use crate::types::{DataType, Value, ValueView};
use vstd::prelude::*;
use vstd::utf8::{
    decode_utf8, encode_utf8, encode_utf8_decode_utf8, encode_utf8_valid_utf8, valid_utf8,
};

verus! {

/// What the file holds of a table.
pub struct TableRecord {
    pub table_id: u32,
    pub name: Seq<char>,
    pub first_page: u32,
    pub columns: Seq<ColumnView>,
}

/// What the file holds of columns.
pub open spec fn column_records(cols: Seq<Column>) -> Seq<ColumnView> {
    Seq::new(cols.len(), |i: int| cols[i].deep_view())
}

/// What the file holds of a table.
pub open spec fn table_record(t: TableInfo) -> TableRecord {
    TableRecord {
        table_id: t.table_id.0,
        name: t.name@,
        first_page: t.first_page_id.0,
        columns: column_records(t.schema.columns@),
    }
}

/// What the file holds of tables.
pub open spec fn table_records(tables: Seq<(String, TableInfo)>) -> Seq<TableRecord> {
    Seq::new(tables.len(), |i: int| table_record(tables[i].1))
}

// ---------------------------------------------------------------------------
// Writing
// ---------------------------------------------------------------------------

/// The bytes of a name.
pub open spec fn name_bytes(s: Seq<char>) -> Seq<u8> {
    le(encode_utf8(s).len() as int, 4) + encode_utf8(s)
}

/// The bytes of a type: a tag and the type's parameters.
pub open spec fn type_bytes(t: DataType) -> Seq<u8> {
    match t {
        DataType::Integer => seq![0u8],
        DataType::Float => seq![1u8],
        DataType::Varchar(n) => seq![2u8] + le(n as int, 2),
        DataType::Boolean => seq![3u8],
        DataType::BigInt => seq![4u8],
        DataType::DateTime => seq![5u8],
        DataType::Decimal(p, s) => seq![6u8, p, s],
        DataType::Date => seq![7u8],
        DataType::Time => seq![8u8],
        DataType::VarBinary(n) => seq![9u8] + le(n as int, 2),
        DataType::Json => seq![10u8],
        DataType::Uuid => seq![11u8],
    }
}

/// The byte of a truth value.
pub open spec fn flag_byte(b: bool) -> u8 {
    if b {
        1u8
    } else {
        0u8
    }
}

/// The type under which a default value is written.
pub open spec fn type_of(v: ValueView) -> DataType {
    match v {
        ValueView::Integer(_) => DataType::Integer,
        ValueView::BigInt(_) => DataType::BigInt,
        ValueView::Float(_) => DataType::Float,
        ValueView::Boolean(_) => DataType::Boolean,
        ValueView::DateTime(_) => DataType::DateTime,
        ValueView::Decimal(_, s) => DataType::Decimal(0, s),
        ValueView::Date(_) => DataType::Date,
        ValueView::Time(_) => DataType::Time,
        ValueView::Binary(_) => DataType::VarBinary(0),
        ValueView::Json(_) => DataType::Json,
        ValueView::Uuid(_) => DataType::Uuid,
        _ => DataType::Varchar(0),
    }
}

/// The bytes of a default value.
#[verifier::opaque]
pub open spec fn default_bytes(d: Option<ValueView>) -> Seq<u8> {
    match d {
        None => seq![0u8],
        Some(v) => if v.is_null() {
            seq![1u8]
        } else {
            seq![2u8] + (type_bytes(type_of(v)) + field_bytes(v))
        },
    }
}

/// The bytes of a reference to another table.
pub open spec fn reference_bytes(r: Option<(Seq<char>, Seq<char>, u8)>) -> Seq<u8> {
    match r {
        None => seq![0u8],
        Some(f) => seq![1u8] + (name_bytes(f.0) + (name_bytes(f.1) + seq![f.2])),
    }
}

/// The bytes of a column's constraints, without a CHECK condition.
#[verifier::opaque]
pub open spec fn constraint_bytes(c: ColumnView) -> Seq<u8> {
    seq![flag_byte(c.auto_increment)] + (seq![flag_byte(c.is_primary_key)] + (seq![
        flag_byte(c.is_unique),
    ] + (default_bytes(c.default_value) + reference_bytes(c.fk_ref))))
}

/// The bytes of a column.
#[verifier::opaque]
pub open spec fn column_bytes(c: ColumnView) -> Seq<u8> {
    name_bytes(c.name) + type_bytes(c.data_type) + seq![flag_byte(c.nullable)] + le(
        c.column_id as int,
        2,
    ) + constraint_bytes(c) + check_bytes(c.check)
}

/// The bytes of columns.
pub open spec fn columns_bytes(cols: Seq<ColumnView>) -> Seq<u8>
    decreases cols.len(),
{
    if cols.len() == 0 {
        Seq::empty()
    } else {
        columns_bytes(cols.drop_last()) + column_bytes(cols.last())
    }
}

/// The bytes of a table.
pub open spec fn table_bytes(t: TableRecord) -> Seq<u8> {
    le(t.table_id as int, 4) + name_bytes(t.name) + le(t.first_page as int, 4) + le(
        t.columns.len() as int,
        4,
    ) + columns_bytes(t.columns)
}

/// The bytes of tables.
pub open spec fn tables_bytes(tables: Seq<TableRecord>) -> Seq<u8>
    decreases tables.len(),
{
    if tables.len() == 0 {
        Seq::empty()
    } else {
        tables_bytes(tables.drop_last()) + table_bytes(tables.last())
    }
}

/// The bytes of a catalog.
pub open spec fn catalog_bytes(tables: Seq<TableRecord>, next: u32) -> Seq<u8> {
    le(tables.len() as int, 4) + le(next as int, 4) + tables_bytes(tables)
}

fn put_name(buf: &mut Vec<u8>, s: &str)
    ensures
        final(buf)@ == old(buf)@ + name_bytes(s@),
{
    let ghost start = buf@;
    let b = s.as_bytes();
    put_le(buf, b.len() as u64, 4);
    put_bytes(buf, b);
    assert(buf@ =~= start + name_bytes(s@));
}

fn put_type(buf: &mut Vec<u8>, t: &DataType)
    ensures
        final(buf)@ == old(buf)@ + type_bytes(*t),
{
    let ghost start = buf@;
    match t {
        DataType::Integer => buf.push(0),
        DataType::Float => buf.push(1),
        DataType::Varchar(n) => {
            buf.push(2);
            put_le(buf, *n as u64, 2);
        },
        DataType::Boolean => buf.push(3),
        DataType::BigInt => buf.push(4),
        DataType::DateTime => buf.push(5),
        DataType::Decimal(p, s) => {
            buf.push(6);
            buf.push(*p);
            buf.push(*s);
        },
        DataType::Date => buf.push(7),
        DataType::Time => buf.push(8),
        DataType::VarBinary(n) => {
            buf.push(9);
            put_le(buf, *n as u64, 2);
        },
        DataType::Json => buf.push(10),
        DataType::Uuid => buf.push(11),
    }
    assert(buf@ =~= start + type_bytes(*t));
}

fn put_flag(buf: &mut Vec<u8>, b: bool)
    ensures
        final(buf)@ == old(buf)@ + seq![flag_byte(b)],
{
    let ghost start = buf@;
    buf.push(
        if b {
            1
        } else {
            0
        },
    );
    assert(buf@ =~= start + seq![flag_byte(b)]);
}

fn find_type(v: &Value) -> (r: DataType)
    ensures
        r == type_of(v@),
{
    match v {
        Value::Integer(_) => DataType::Integer,
        Value::BigInt(_) => DataType::BigInt,
        Value::Float(_) => DataType::Float,
        Value::Boolean(_) => DataType::Boolean,
        Value::DateTime(_) => DataType::DateTime,
        Value::Decimal(_, s) => DataType::Decimal(0, *s),
        Value::Date(_) => DataType::Date,
        Value::Time(_) => DataType::Time,
        Value::Binary(_) => DataType::VarBinary(0),
        Value::Json(_) => DataType::Json,
        Value::Uuid(_) => DataType::Uuid,
        _ => DataType::Varchar(0),
    }
}

pub fn put_default(buf: &mut Vec<u8>, d: &Option<Value>)
    ensures
        final(buf)@ == old(buf)@ + default_bytes(d.deep_view()),
{
    reveal(default_bytes);
    let ghost start = buf@;
    match d {
        None => buf.push(0),
        Some(v) => if v.is_null() {
            buf.push(1);
        } else {
            buf.push(2);
            put_type(buf, &find_type(v));
            put_field(buf, v);
        },
    }
    assert(buf@ =~= start + default_bytes(d.deep_view()));
}

fn put_reference(buf: &mut Vec<u8>, f: &Option<(String, String, u8)>)
    ensures
        final(buf)@ == old(buf)@ + reference_bytes(f.deep_view()),
{
    let ghost start = buf@;
    match f {
        None => buf.push(0),
        Some((table, column, action)) => {
            buf.push(1);
            put_name(buf, table.as_str());
            put_name(buf, column.as_str());
            buf.push(*action);
        },
    }
    assert(buf@ =~= start + reference_bytes(f.deep_view()));
}

fn put_constraints(buf: &mut Vec<u8>, c: &Column)
    ensures
        final(buf)@ == old(buf)@ + constraint_bytes(c.deep_view()),
{
    let ghost start = buf@;
    put_flag(buf, c.auto_increment);
    put_flag(buf, c.is_primary_key);
    put_flag(buf, c.is_unique);
    let ghost a = seq![flag_byte(c.auto_increment)];
    let ghost p = seq![flag_byte(c.is_primary_key)];
    let ghost u = seq![flag_byte(c.is_unique)];
    put_default(buf, &c.default_value);
    let ghost d = default_bytes(c.default_value.deep_view());
    put_reference(buf, &c.fk_ref);
    let ghost f = reference_bytes(c.fk_ref.deep_view());
    assert(buf@ == start + a + p + u + d + f);
    reveal(constraint_bytes);
    assert(constraint_bytes(c.deep_view()) == a + (p + (u + (d + f))));
    assert(start + a + p + u + d + f =~= start + (a + (p + (u + (d + f)))));
}

fn put_column(buf: &mut Vec<u8>, c: &Column)
    ensures
        final(buf)@ == old(buf)@ + column_bytes(c.deep_view()),
{
    let ghost start = buf@;
    put_name(buf, c.name.as_str());
    put_type(buf, &c.data_type);
    put_flag(buf, c.nullable);
    put_le(buf, c.column_id as u64, 2);
    put_constraints(buf, c);
    put_check(buf, &c.check_expr);
    reveal(column_bytes);
    assert(buf@ =~= start + column_bytes(c.deep_view()));
}

fn put_table(buf: &mut Vec<u8>, t: &TableInfo)
    ensures
        final(buf)@ == old(buf)@ + table_bytes(table_record(*t)),
{
    let ghost start = buf@;
    let ghost records = column_records(t.schema.columns@);
    put_le(buf, t.table_id.0 as u64, 4);
    put_name(buf, t.name.as_str());
    put_le(buf, t.first_page_id.0 as u64, 4);
    put_le(buf, t.schema.columns.len() as u64, 4);
    let ghost head = buf@;
    assert(records.take(0) =~= Seq::<ColumnView>::empty());
    assert(head + columns_bytes(records.take(0)) =~= head);
    let mut i: usize = 0;
    while i < t.schema.columns.len()
        invariant
            0 <= i <= t.schema.columns.len(),
            records == column_records(t.schema.columns@),
            buf@ == head + columns_bytes(records.take(i as int)),
        decreases t.schema.columns.len() - i,
    {
        put_column(buf, &t.schema.columns[i]);
        assert(records.take(i + 1).drop_last() =~= records.take(i as int));
        assert(buf@ =~= head + columns_bytes(records.take(i + 1)));
        i += 1;
    }
    assert(records.take(records.len() as int) =~= records);
    assert(buf@ =~= start + table_bytes(table_record(*t)));
}

impl Catalog {
    /// Serializes the catalog: the bytes to be kept in its file.
    pub fn persist(&self) -> (r: Vec<u8>)
        ensures
            r@ == catalog_bytes(table_records(self.tables@), self.next_table_id),
    {
        let ghost records = table_records(self.tables@);
        let mut buf: Vec<u8> = Vec::new();
        put_le(&mut buf, self.tables.len() as u64, 4);
        put_le(&mut buf, self.next_table_id as u64, 4);
        let ghost head = buf@;
        assert(records.take(0) =~= Seq::<TableRecord>::empty());
        assert(head + tables_bytes(records.take(0)) =~= head);
        let mut i: usize = 0;
        while i < self.tables.len()
            invariant
                0 <= i <= self.tables.len(),
                records == table_records(self.tables@),
                buf@ == head + tables_bytes(records.take(i as int)),
            decreases self.tables.len() - i,
        {
            put_table(&mut buf, &self.tables[i].1);
            assert(records.take(i + 1).drop_last() =~= records.take(i as int));
            assert(buf@ =~= head + tables_bytes(records.take(i + 1)));
            i += 1;
        }
        assert(records.take(records.len() as int) =~= records);
        assert(buf@ =~= catalog_bytes(records, self.next_table_id));
        buf
    }
}

// ---------------------------------------------------------------------------
// Reading
// ---------------------------------------------------------------------------

/// The error for data that ends too early.
pub open spec fn end_error() -> ErrorView {
    ErrorView::Catalog("unexpected EOF"@)
}

/// The number in the `k` bytes at a position, and the position behind it.
pub open spec fn number_read(data: Seq<u8>, pos: int, k: int) -> std::result::Result<
    (int, int),
    ErrorView,
> {
    if pos + k <= data.len() {
        Ok((le_value(data.subrange(pos, pos + k)), pos + k))
    } else {
        Err(end_error())
    }
}

/// The name at a position, and the position behind it.
pub open spec fn name_read(data: Seq<u8>, pos: int) -> std::result::Result<
    (Seq<char>, int),
    ErrorView,
> {
    match number_read(data, pos, 4) {
        Err(e) => Err(e),
        Ok(n) => if n.1 + n.0 <= data.len() {
            let b = data.subrange(n.1, n.1 + n.0);
            if valid_utf8(b) {
                Ok((decode_utf8(b), n.1 + n.0))
            } else {
                Err(ErrorView::Catalog("invalid UTF-8"@))
            }
        } else {
            Err(end_error())
        },
    }
}

/// The type at a position, and the position behind it.
pub open spec fn type_read(data: Seq<u8>, pos: int) -> std::result::Result<
    (DataType, int),
    ErrorView,
> {
    match number_read(data, pos, 1) {
        Err(e) => Err(e),
        Ok(t) => if t.0 == 0 {
            Ok((DataType::Integer, t.1))
        } else if t.0 == 1 {
            Ok((DataType::Float, t.1))
        } else if t.0 == 2 || t.0 == 9 {
            match number_read(data, t.1, 2) {
                Err(e) => Err(e),
                Ok(n) => if t.0 == 2 {
                    Ok((DataType::Varchar(n.0 as u16), n.1))
                } else {
                    Ok((DataType::VarBinary(n.0 as u16), n.1))
                },
            }
        } else if t.0 == 3 {
            Ok((DataType::Boolean, t.1))
        } else if t.0 == 4 {
            Ok((DataType::BigInt, t.1))
        } else if t.0 == 5 {
            Ok((DataType::DateTime, t.1))
        } else if t.0 == 6 {
            match number_read(data, t.1, 1) {
                Err(e) => Err(e),
                Ok(p) => match number_read(data, p.1, 1) {
                    Err(e) => Err(e),
                    Ok(s) => Ok((DataType::Decimal(p.0 as u8, s.0 as u8), s.1)),
                },
            }
        } else if t.0 == 7 {
            Ok((DataType::Date, t.1))
        } else if t.0 == 8 {
            Ok((DataType::Time, t.1))
        } else if t.0 == 10 {
            Ok((DataType::Json, t.1))
        } else if t.0 == 11 {
            Ok((DataType::Uuid, t.1))
        } else {
            Err(ErrorView::Catalog("unknown data type tag: "@ + int_text(t.0)))
        },
    }
}

/// The default value at a position, and the position behind it.
#[verifier::opaque]
pub open spec fn default_read(data: Seq<u8>, pos: int) -> std::result::Result<
    (Option<ValueView>, int),
    ErrorView,
> {
    match number_read(data, pos, 1) {
        Err(e) => Err(e),
        Ok(k) => if k.0 == 0 {
            Ok((None, k.1))
        } else if k.0 == 1 {
            Ok((Some(ValueView::Null), k.1))
        } else {
            match type_read(data, k.1) {
                Err(e) => Err(e),
                Ok(t) => match field_read(data, t.1, t.0) {
                    Err(e) => Err(e),
                    Ok(v) => Ok((Some(v.0), v.1)),
                },
            }
        },
    }
}

/// The reference to another table at a position, and the position behind it.
pub open spec fn reference_read(data: Seq<u8>, pos: int) -> std::result::Result<
    (Option<(Seq<char>, Seq<char>, u8)>, int),
    ErrorView,
> {
    match number_read(data, pos, 1) {
        Err(e) => Err(e),
        Ok(k) => if k.0 == 0 {
            Ok((None, k.1))
        } else {
            match name_read(data, k.1) {
                Err(e) => Err(e),
                Ok(table) => match name_read(data, table.1) {
                    Err(e) => Err(e),
                    Ok(column) => match number_read(data, column.1, 1) {
                        Err(e) => Err(e),
                        Ok(action) => Ok(
                            (Some((table.0, column.0, action.0 as u8)), action.1),
                        ),
                    },
                },
            }
        },
    }
}

/// The column with the constraints that stand at a position, and the position behind them.
#[verifier::opaque]
pub open spec fn constraints_read(data: Seq<u8>, pos: int, c: ColumnView) -> std::result::Result<
    (ColumnView, int),
    ErrorView,
> {
    match number_read(data, pos, 1) {
        Err(e) => Err(e),
        Ok(a) => match number_read(data, a.1, 1) {
            Err(e) => Err(e),
            Ok(p) => match number_read(data, p.1, 1) {
                Err(e) => Err(e),
                Ok(u) => match default_read(data, u.1) {
                    Err(e) => Err(e),
                    Ok(d) => match reference_read(data, d.1) {
                        Err(e) => Err(e),
                        Ok(f) => Ok(
                            (
                                ColumnView {
                                    auto_increment: a.0 != 0,
                                    is_primary_key: p.0 != 0,
                                    is_unique: u.0 != 0,
                                    default_value: d.0,
                                    fk_ref: f.0,
                                    ..c
                                },
                                f.1,
                            ),
                        ),
                    },
                },
            },
        },
    }
}

/// A column without constraints.
pub open spec fn bare_column(
    name: Seq<char>,
    data_type: DataType,
    nullable: bool,
    column_id: u16,
) -> ColumnView {
    ColumnView {
        name,
        data_type,
        nullable,
        column_id,
        auto_increment: false,
        default_value: None,
        is_primary_key: false,
        is_unique: false,
        check: None,
        fk_ref: None,
    }
}

/// The column at a position, and the position behind it.
#[verifier::opaque]
pub open spec fn column_read(data: Seq<u8>, pos: int) -> std::result::Result<
    (ColumnView, int),
    ErrorView,
> {
    match name_read(data, pos) {
        Err(e) => Err(e),
        Ok(n) => match type_read(data, n.1) {
            Err(e) => Err(e),
            Ok(t) => match number_read(data, t.1, 1) {
                Err(e) => Err(e),
                Ok(b) => match number_read(data, b.1, 2) {
                    Err(e) => Err(e),
                    Ok(id) => match constraints_read(
                        data,
                        id.1,
                        bare_column(n.0, t.0, b.0 != 0, id.0 as u16),
                    ) {
                        Err(e) => Err(e),
                        Ok(c) => match check_read(data, c.1) {
                            Err(e) => Err(e),
                            Ok(k) => Ok((ColumnView { check: k.0, ..c.0 }, k.1)),
                        },
                    },
                },
            },
        },
    }
}

/// `n` columns from a position on, behind `acc`, and the position behind them.
pub open spec fn columns_read(data: Seq<u8>, pos: int, n: int, acc: Seq<ColumnView>) -> std::result::Result<
    (Seq<ColumnView>, int),
    ErrorView,
>
    decreases n,
{
    if n <= 0 {
        Ok((acc, pos))
    } else {
        match column_read(data, pos) {
            Err(e) => Err(e),
            Ok(c) => columns_read(data, c.1, n - 1, acc.push(c.0)),
        }
    }
}

/// The table at a position, and the position behind it.
pub open spec fn table_read(data: Seq<u8>, pos: int) -> std::result::Result<
    (TableRecord, int),
    ErrorView,
> {
    match number_read(data, pos, 4) {
        Err(e) => Err(e),
        Ok(id) => match name_read(data, id.1) {
            Err(e) => Err(e),
            Ok(name) => match number_read(data, name.1, 4) {
                Err(e) => Err(e),
                Ok(page) => match number_read(data, page.1, 4) {
                    Err(e) => Err(e),
                    Ok(n) => match columns_read(data, n.1, n.0, Seq::empty()) {
                        Err(e) => Err(e),
                        Ok(cols) => Ok(
                            (
                                TableRecord {
                                    table_id: id.0 as u32,
                                    name: name.0,
                                    first_page: page.0 as u32,
                                    columns: cols.0,
                                },
                                cols.1,
                            ),
                        ),
                    },
                },
            },
        },
    }
}

/// The first table, from `i` on, whose lowercase name is a key.
pub open spec fn record_from(tables: Seq<TableRecord>, key: Seq<char>, i: int) -> Option<int>
    decreases tables.len() - i,
{
    if i < 0 || i >= tables.len() {
        None
    } else if lower_text(tables[i].name) == key {
        Some(i)
    } else {
        record_from(tables, key, i + 1)
    }
}

/// A table put among others: in place of one with the same lowercase name, else at the end.
pub open spec fn with_table(tables: Seq<TableRecord>, t: TableRecord) -> Seq<TableRecord> {
    match record_from(tables, lower_text(t.name), 0) {
        Some(i) => tables.update(i, t),
        None => tables.push(t),
    }
}

/// `n` tables from a position on, added to `acc`, and the position behind them.
pub open spec fn tables_read(data: Seq<u8>, pos: int, n: int, acc: Seq<TableRecord>) -> std::result::Result<
    (Seq<TableRecord>, int),
    ErrorView,
>
    decreases n,
{
    if n <= 0 {
        Ok((acc, pos))
    } else {
        match table_read(data, pos) {
            Err(e) => Err(e),
            Ok(t) => tables_read(data, t.1, n - 1, with_table(acc, t.0)),
        }
    }
}

/// The tables and the next table identifier that a catalog file holds.
pub open spec fn catalog_read(data: Seq<u8>) -> std::result::Result<
    (Seq<TableRecord>, u32),
    ErrorView,
> {
    match number_read(data, 0, 4) {
        Err(e) => Err(e),
        Ok(n) => match number_read(data, n.1, 4) {
            Err(e) => Err(e),
            Ok(next) => match tables_read(data, next.1, n.0, Seq::empty()) {
                Err(e) => Err(e),
                Ok(t) => Ok((t.0, next.0 as u32)),
            },
        },
    }
}

pub fn end_of_data<T>() -> (r: std::result::Result<T, ForgeError>)
    ensures
        r matches Err(e) && e@ == end_error(),
{
    Err(ForgeError::Catalog("unexpected EOF".to_owned()))
}

pub fn read_number(data: &[u8], pos: usize, k: usize) -> (r: std::result::Result<
    (u64, usize),
    ForgeError,
>)
    requires
        pos <= data.len(),
        k <= 8,
    ensures
        match r {
            Ok(p) => number_read(data@, pos as int, k as int) == Ok::<(int, int), ErrorView>(
                (p.0 as int, p.1 as int),
            ) && p.1 <= data.len() && p.0 < pow256(k as nat),
            Err(e) => number_read(data@, pos as int, k as int) == Err::<(int, int), ErrorView>(e@),
        },
{
    if k > data.len() - pos {
        return end_of_data();
    }
    Ok((get_le(data, pos, k), pos + k))
}

fn read_name(data: &[u8], pos: usize) -> (r: std::result::Result<(String, usize), ForgeError>)
    requires
        pos <= data.len(),
    ensures
        match r {
            Ok(p) => name_read(data@, pos as int) == Ok::<(Seq<char>, int), ErrorView>(
                (p.0@, p.1 as int),
            ) && p.1 <= data.len(),
            Err(e) => name_read(data@, pos as int) == Err::<(Seq<char>, int), ErrorView>(e@),
        },
{
    let (n, at) = read_number(data, pos, 4)?;
    if n > (data.len() - at) as u64 {
        return end_of_data();
    }
    let n: usize = n as usize;
    let mut b: Vec<u8> = Vec::new();
    let part = vstd::slice::slice_subrange(data, at, at + n);
    put_bytes(&mut b, part);
    assert(b@ =~= data@.subrange(at as int, at + n));
    match string_from_utf8(b) {
        Some(s) => Ok((s, at + n)),
        None => Err(ForgeError::Catalog("invalid UTF-8".to_owned())),
    }
}

fn read_type(data: &[u8], pos: usize) -> (r: std::result::Result<(DataType, usize), ForgeError>)
    requires
        pos <= data.len(),
    ensures
        match r {
            Ok(p) => type_read(data@, pos as int) == Ok::<(DataType, int), ErrorView>(
                (p.0, p.1 as int),
            ) && p.1 <= data.len(),
            Err(e) => type_read(data@, pos as int) == Err::<(DataType, int), ErrorView>(e@),
        },
{
    proof {
        lemma_pow256();
    }
    let (tag, at) = read_number(data, pos, 1)?;
    if tag == 0 {
        Ok((DataType::Integer, at))
    } else if tag == 1 {
        Ok((DataType::Float, at))
    } else if tag == 2 || tag == 9 {
        let (n, end) = read_number(data, at, 2)?;
        if tag == 2 {
            Ok((DataType::Varchar(n as u16), end))
        } else {
            Ok((DataType::VarBinary(n as u16), end))
        }
    } else if tag == 3 {
        Ok((DataType::Boolean, at))
    } else if tag == 4 {
        Ok((DataType::BigInt, at))
    } else if tag == 5 {
        Ok((DataType::DateTime, at))
    } else if tag == 6 {
        let (p, mid) = read_number(data, at, 1)?;
        let (s, end) = read_number(data, mid, 1)?;
        Ok((DataType::Decimal(p as u8, s as u8), end))
    } else if tag == 7 {
        Ok((DataType::Date, at))
    } else if tag == 8 {
        Ok((DataType::Time, at))
    } else if tag == 10 {
        Ok((DataType::Json, at))
    } else if tag == 11 {
        Ok((DataType::Uuid, at))
    } else {
        let mut s = "unknown data type tag: ".to_owned();
        s.append(show_u64(tag).as_str());
        Err(ForgeError::Catalog(s))
    }
}

pub fn read_default(data: &[u8], pos: usize) -> (r: std::result::Result<
    (Option<Value>, usize),
    ForgeError,
>)
    requires
        pos <= data.len(),
    ensures
        match r {
            Ok(p) => default_read(data@, pos as int) == Ok::<(Option<ValueView>, int), ErrorView>(
                (p.0.deep_view(), p.1 as int),
            ) && p.1 <= data.len(),
            Err(e) => default_read(data@, pos as int) == Err::<
                (Option<ValueView>, int),
                ErrorView,
            >(e@),
        },
{
    reveal(default_read);
    let (k, at) = read_number(data, pos, 1)?;
    if k == 0 {
        return Ok((None, at));
    }
    if k == 1 {
        return Ok((Some(Value::Null), at));
    }
    let (t, at) = read_type(data, at)?;
    let (v, at) = read_field(data, at, &t)?;
    Ok((Some(v), at))
}

fn read_reference(data: &[u8], pos: usize) -> (r: std::result::Result<
    (Option<(String, String, u8)>, usize),
    ForgeError,
>)
    requires
        pos <= data.len(),
    ensures
        match r {
            Ok(p) => reference_read(data@, pos as int) == Ok::<
                (Option<(Seq<char>, Seq<char>, u8)>, int),
                ErrorView,
            >((p.0.deep_view(), p.1 as int)) && p.1 <= data.len(),
            Err(e) => reference_read(data@, pos as int) == Err::<
                (Option<(Seq<char>, Seq<char>, u8)>, int),
                ErrorView,
            >(e@),
        },
{
    proof {
        lemma_pow256();
    }
    let (k, at) = read_number(data, pos, 1)?;
    if k == 0 {
        return Ok((None, at));
    }
    let (table, at) = read_name(data, at)?;
    let (column, at) = read_name(data, at)?;
    let (action, at) = read_number(data, at, 1)?;
    Ok((Some((table, column, action as u8)), at))
}

fn read_column(data: &[u8], pos: usize) -> (r: std::result::Result<(Column, usize), ForgeError>)
    requires
        pos <= data.len(),
    ensures
        match r {
            Ok(p) => column_read(data@, pos as int) == Ok::<(ColumnView, int), ErrorView>(
                (p.0.deep_view(), p.1 as int),
            ) && p.1 <= data.len(),
            Err(e) => column_read(data@, pos as int) == Err::<(ColumnView, int), ErrorView>(e@),
        },
{
    proof {
        lemma_pow256();
        reveal(column_read);
        reveal(constraints_read);
    }
    let (name, at) = read_name(data, pos)?;
    let (data_type, at) = read_type(data, at)?;
    let (flag, at) = read_number(data, at, 1)?;
    let (id, at) = read_number(data, at, 2)?;
    let (auto, at) = read_number(data, at, 1)?;
    let (primary, at) = read_number(data, at, 1)?;
    let (unique, at) = read_number(data, at, 1)?;
    let (default_value, at) = read_default(data, at)?;
    let (fk_ref, at) = read_reference(data, at)?;
    let (check_expr, at) = read_check(data, at)?;
    let c = Column {
        name,
        data_type,
        nullable: flag != 0,
        column_id: id as u16,
        auto_increment: auto != 0,
        default_value,
        is_primary_key: primary != 0,
        is_unique: unique != 0,
        check_expr,
        fk_ref,
    };
    Ok((c, at))
}

fn read_columns(data: &[u8], pos: usize, n: u64) -> (r: std::result::Result<
    (Vec<Column>, usize),
    ForgeError,
>)
    requires
        pos <= data.len(),
    ensures
        match r {
            Ok(p) => columns_read(data@, pos as int, n as int, Seq::empty()) == Ok::<
                (Seq<ColumnView>, int),
                ErrorView,
            >((column_records(p.0@), p.1 as int)) && p.1 <= data.len(),
            Err(e) => columns_read(data@, pos as int, n as int, Seq::empty()) == Err::<
                (Seq<ColumnView>, int),
                ErrorView,
            >(e@),
        },
{
    let mut out: Vec<Column> = Vec::new();
    let mut at: usize = pos;
    let mut left: u64 = n;
    assert(column_records(out@) =~= Seq::<ColumnView>::empty());
    while left > 0
        invariant
            at <= data.len(),
            columns_read(data@, pos as int, n as int, Seq::empty()) == columns_read(
                data@,
                at as int,
                left as int,
                column_records(out@),
            ),
        decreases left,
    {
        let (c, next) = read_column(data, at)?;
        let ghost before = column_records(out@);
        let ghost cr = c.deep_view();
        out.push(c);
        assert(column_records(out@) =~= before.push(cr));
        at = next;
        left = left - 1;
    }
    Ok((out, at))
}

fn read_table(data: &[u8], pos: usize) -> (r: std::result::Result<(TableInfo, usize), ForgeError>)
    requires
        pos <= data.len(),
    ensures
        match r {
            Ok(p) => table_read(data@, pos as int) == Ok::<(TableRecord, int), ErrorView>(
                (table_record(p.0), p.1 as int),
            ) && p.1 <= data.len() && plain_table(p.0),
            Err(e) => table_read(data@, pos as int) == Err::<(TableRecord, int), ErrorView>(e@),
        },
{
    proof {
        lemma_pow256();
    }
    let (id, at) = read_number(data, pos, 4)?;
    let (name, at) = read_name(data, at)?;
    let (page, at) = read_number(data, at, 4)?;
    let (n, at) = read_number(data, at, 4)?;
    let (columns, at) = read_columns(data, at, n)?;
    let t = TableInfo {
        table_id: TableId(id as u32),
        name,
        schema: Schema { columns },
        first_page_id: PageId(page as u32),
        mvcc_enabled: true,
        stats: None,
        column_stats: Vec::new(),
    };
    Ok((t, at))
}

/// Whether a table has none of what the file does not hold.
pub open spec fn plain_table(t: TableInfo) -> bool {
    t.mvcc_enabled && t.stats is None && t.column_stats@.len() == 0
}

proof fn lemma_records_entry(tables: Seq<(String, TableInfo)>, key: Seq<char>, i: int)
    requires
        0 <= i,
        forall|k: int|
            0 <= k < tables.len() ==> (#[trigger] tables[k]).0@ == lower_text(tables[k].1.name@),
    ensures
        record_from(table_records(tables), key, i) == entry_from(tables, key, i),
    decreases tables.len() - i,
{
    if i < tables.len() {
        assert(tables[i].0@ == lower_text(tables[i].1.name@));
        lemma_records_entry(tables, key, i + 1);
    }
}

impl Catalog {
    /// Loads a catalog from what its file holds. Where there is no file, the catalog is empty.
    pub fn load(path: &str, file: Option<&[u8]>) -> (r: std::result::Result<Catalog, ForgeError>)
        ensures
            match (file, r) {
                (None, Ok(c)) => {
                    &&& c.wf()
                    &&& c.tables@.len() == 0
                    &&& c.views@.len() == 0
                    &&& c.next_table_id == 0
                    &&& c.path@ == path@
                },
                (None, Err(_)) => false,
                (Some(data), Ok(c)) => {
                    &&& catalog_read(data@) == Ok::<(Seq<TableRecord>, u32), ErrorView>(
                        (table_records(c.tables@), c.next_table_id),
                    )
                    &&& c.wf()
                    &&& c.path@ == path@
                    &&& c.views@.len() == 0
                    &&& forall|i: int|
                        0 <= i < c.tables@.len() ==> plain_table((#[trigger] c.tables@[i]).1)
                },
                (Some(data), Err(e)) => catalog_read(data@) == Err::<
                    (Seq<TableRecord>, u32),
                    ErrorView,
                >(e@),
            },
    {
        match file {
            None => Ok(Catalog::new(path)),
            Some(data) => Catalog::decode(path, data),
        }
    }

    /// The catalog that the bytes of a catalog file hold.
    fn decode(path: &str, data: &[u8]) -> (r: std::result::Result<Catalog, ForgeError>)
        ensures
            match r {
                Ok(c) => {
                    &&& catalog_read(data@) == Ok::<(Seq<TableRecord>, u32), ErrorView>(
                        (table_records(c.tables@), c.next_table_id),
                    )
                    &&& c.wf()
                    &&& c.path@ == path@
                    &&& c.views@.len() == 0
                    &&& forall|i: int|
                        0 <= i < c.tables@.len() ==> plain_table((#[trigger] c.tables@[i]).1)
                },
                Err(e) => catalog_read(data@) == Err::<(Seq<TableRecord>, u32), ErrorView>(e@),
            },
    {
        proof {
            lemma_pow256();
        }
        let (n, at) = read_number(data, 0, 4)?;
        let (next, at) = read_number(data, at, 4)?;
        let ghost start = at;
        let mut tables: Vec<(String, TableInfo)> = Vec::new();
        let mut pos: usize = at;
        let mut left: u64 = n;
        assert(table_records(tables@) =~= Seq::<TableRecord>::empty());
        while left > 0
            invariant
                pos <= data.len(),
                number_read(data@, 0, 4) == Ok::<(int, int), ErrorView>((n as int, 4)),
                number_read(data@, 4, 4) == Ok::<(int, int), ErrorView>((next as int, 8)),
                start == 8,
                tables_read(data@, start as int, n as int, Seq::empty()) == tables_read(
                    data@,
                    pos as int,
                    left as int,
                    table_records(tables@),
                ),
                keys_differ(tables@),
                forall|k: int|
                    0 <= k < tables@.len() ==> (#[trigger] tables@[k]).0@ == lower_text(
                        tables@[k].1.name@,
                    ),
                forall|k: int|
                    0 <= k < tables@.len() ==> plain_table((#[trigger] tables@[k]).1),
            decreases left,
        {
            let (t, after) = read_table(data, pos)?;
            let key = t.name.as_str().to_lowercase();
            let ghost before = tables@;
            let ghost rec = table_record(t);
            proof {
                lemma_records_entry(tables@, key@, 0);
                lemma_entry_from(tables@, key@, 0);
            }
            match find_entry(&tables, key.as_str()) {
                Some(i) => {
                    tables.set(i, (key, t));
                    assert(table_records(tables@) =~= table_records(before).update(i as int, rec));
                    assert(keys_differ(tables@)) by {
                        assert forall|a: int, b: int| 0 <= a < b < tables@.len() implies (
                        #[trigger] tables@[a]).0@ != (#[trigger] tables@[b]).0@ by {
                            assert(before[a].0@ != before[b].0@);
                        }
                    }
                },
                None => {
                    tables.push((key, t));
                    assert(table_records(tables@) =~= table_records(before).push(rec));
                },
            }
            pos = after;
            left = left - 1;
        }
        Ok(
            Catalog {
                tables,
                next_table_id: next as u32,
                path: path.to_owned(),
                views: Vec::new(),
            },
        )
    }
}

// ---------------------------------------------------------------------------
// What is written can be read
// ---------------------------------------------------------------------------

pub proof fn lemma_stands_split(data: Seq<u8>, pos: int, a: Seq<u8>, b: Seq<u8>)
    requires
        stands(data, pos, a + b),
    ensures
        stands(data, pos, a),
        stands(data, pos + a.len(), b),
{
    let whole = data.subrange(pos, pos + a.len() + b.len());
    assert(data.subrange(pos, pos + a.len()) =~= whole.take(a.len() as int));
    assert(whole.take(a.len() as int) =~= a);
    assert(data.subrange(pos + a.len(), pos + a.len() + b.len()) =~= whole.skip(a.len() as int));
    assert(whole.skip(a.len() as int) =~= b);
}

proof fn lemma_number(data: Seq<u8>, pos: int, n: int, k: nat)
    requires
        0 <= n < pow256(k),
        stands(data, pos, le(n, k)),
    ensures
        number_read(data, pos, k as int) == Ok::<(int, int), ErrorView>((n, pos + k)),
{
    lemma_le_round_trip(n, k);
}

pub proof fn lemma_byte(data: Seq<u8>, pos: int, b: u8)
    requires
        stands(data, pos, seq![b]),
    ensures
        number_read(data, pos, 1) == Ok::<(int, int), ErrorView>((b as int, pos + 1)),
{
    let s = data.subrange(pos, pos + 1);
    assert(s[0] == b);
    assert(s.skip(1) =~= Seq::<u8>::empty());
    assert(le_value(s.skip(1)) == 0);
}

proof fn lemma_name(data: Seq<u8>, pos: int, s: Seq<char>)
    requires
        stands(data, pos, name_bytes(s)),
        encode_utf8(s).len() < 0x1_0000_0000,
    ensures
        name_read(data, pos) == Ok::<(Seq<char>, int), ErrorView>(
            (s, pos + name_bytes(s).len()),
        ),
{
    let b = encode_utf8(s);
    lemma_pow256();
    lemma_le_len(b.len() as int, 4);
    lemma_stands_split(data, pos, le(b.len() as int, 4), b);
    lemma_number(data, pos, b.len() as int, 4);
    encode_utf8_valid_utf8(s);
    encode_utf8_decode_utf8(s);
}

proof fn lemma_type(data: Seq<u8>, pos: int, t: DataType)
    requires
        stands(data, pos, type_bytes(t)),
    ensures
        type_read(data, pos) == Ok::<(DataType, int), ErrorView>((t, pos + type_bytes(t).len())),
{
    lemma_pow256();
    match t {
        DataType::Varchar(n) => {
            lemma_le_len(n as int, 2);
            lemma_stands_split(data, pos, seq![2u8], le(n as int, 2));
            lemma_byte(data, pos, 2);
            lemma_number(data, pos + 1, n as int, 2);
        },
        DataType::VarBinary(n) => {
            lemma_le_len(n as int, 2);
            lemma_stands_split(data, pos, seq![9u8], le(n as int, 2));
            lemma_byte(data, pos, 9);
            lemma_number(data, pos + 1, n as int, 2);
        },
        DataType::Decimal(p, s) => {
            assert(seq![6u8, p, s] =~= seq![6u8] + (seq![p] + seq![s]));
            lemma_stands_split(data, pos, seq![6u8], seq![p] + seq![s]);
            lemma_stands_split(data, pos + 1, seq![p], seq![s]);
            lemma_byte(data, pos, 6);
            lemma_byte(data, pos + 1, p);
            lemma_byte(data, pos + 2, s);
        },
        _ => {
            lemma_byte(data, pos, type_bytes(t)[0]);
        },
    }
}

/// Whether the names, the default value and the CHECK condition of a column are short enough to
/// be written, and the condition stands for an expression.
pub open spec fn column_fits(c: ColumnView) -> bool {
    &&& encode_utf8(c.name).len() < 0x1_0000_0000
    &&& c.default_value matches Some(v) ==> value_fits(v)
    &&& c.fk_ref matches Some(f) ==> encode_utf8(f.0).len() < 0x1_0000_0000 && encode_utf8(
        f.1,
    ).len() < 0x1_0000_0000
    &&& c.check matches Some(t) ==> tree_fits(t)
}

/// Whether a table's names and number of columns are small enough to be written.
pub open spec fn table_fits(t: TableRecord) -> bool {
    &&& encode_utf8(t.name).len() < 0x1_0000_0000
    &&& t.columns.len() < 0x1_0000_0000
    &&& forall|i: int| 0 <= i < t.columns.len() ==> column_fits(#[trigger] t.columns[i])
}

pub proof fn lemma_default(data: Seq<u8>, pos: int, d: Option<ValueView>)
    requires
        stands(data, pos, default_bytes(d)),
        d matches Some(v) ==> value_fits(v),
    ensures
        default_read(data, pos) == Ok::<(Option<ValueView>, int), ErrorView>(
            (d, pos + default_bytes(d).len()),
        ),
{
    reveal(default_bytes);
    reveal(default_read);
    match d {
        None => lemma_byte(data, pos, 0),
        Some(v) => if v.is_null() {
            lemma_byte(data, pos, 1);
        } else {
            let t = type_bytes(type_of(v));
            lemma_stands_split(data, pos, seq![2u8], t + field_bytes(v));
            lemma_stands_split(data, pos + 1, t, field_bytes(v));
            lemma_byte(data, pos, 2);
            lemma_type(data, pos + 1, type_of(v));
            lemma_field(data, pos + 1 + t.len(), v, type_of(v));
        },
    }
}

proof fn lemma_reference(data: Seq<u8>, pos: int, r: Option<(Seq<char>, Seq<char>, u8)>)
    requires
        stands(data, pos, reference_bytes(r)),
        r matches Some(f) ==> encode_utf8(f.0).len() < 0x1_0000_0000 && encode_utf8(f.1).len()
            < 0x1_0000_0000,
    ensures
        reference_read(data, pos) == Ok::<(Option<(Seq<char>, Seq<char>, u8)>, int), ErrorView>(
            (r, pos + reference_bytes(r).len()),
        ),
{
    match r {
        None => lemma_byte(data, pos, 0),
        Some(f) => {
            let a = name_bytes(f.0);
            let b = name_bytes(f.1);
            lemma_stands_split(data, pos, seq![1u8], a + (b + seq![f.2]));
            lemma_stands_split(data, pos + 1, a, b + seq![f.2]);
            lemma_stands_split(data, pos + 1 + a.len(), b, seq![f.2]);
            lemma_byte(data, pos, 1);
            lemma_name(data, pos + 1, f.0);
            lemma_name(data, pos + 1 + a.len(), f.1);
            lemma_byte(data, pos + 1 + a.len() + b.len(), f.2);
        },
    }
}

proof fn lemma_constraints(data: Seq<u8>, pos: int, c: ColumnView)
    requires
        stands(data, pos, constraint_bytes(c)),
        column_fits(c),
    ensures
        constraints_read(
            data,
            pos,
            bare_column(c.name, c.data_type, c.nullable, c.column_id),
        ) == Ok::<(ColumnView, int), ErrorView>(
            (ColumnView { check: None, ..c }, pos + constraint_bytes(c).len()),
        ),
{
    reveal(constraint_bytes);
    reveal(constraints_read);
    let a = flag_byte(c.auto_increment);
    let p = flag_byte(c.is_primary_key);
    let u = flag_byte(c.is_unique);
    let d = default_bytes(c.default_value);
    let f = reference_bytes(c.fk_ref);
    lemma_stands_split(data, pos, seq![a], seq![p] + (seq![u] + (d + f)));
    lemma_stands_split(data, pos + 1, seq![p], seq![u] + (d + f));
    lemma_stands_split(data, pos + 2, seq![u], d + f);
    lemma_stands_split(data, pos + 3, d, f);
    lemma_byte(data, pos, a);
    lemma_byte(data, pos + 1, p);
    lemma_byte(data, pos + 2, u);
    lemma_default(data, pos + 3, c.default_value);
    lemma_reference(data, pos + 3 + d.len(), c.fk_ref);
}

#[verifier::spinoff_prover]
#[verifier::rlimit(50)]
proof fn lemma_column(data: Seq<u8>, pos: int, c: ColumnView)
    requires
        stands(data, pos, column_bytes(c)),
        column_fits(c),
    ensures
        column_read(data, pos) == Ok::<(ColumnView, int), ErrorView>(
            (c, pos + column_bytes(c).len()),
        ),
{
    reveal(column_bytes);
    reveal(column_read);
    let flag = flag_byte(c.nullable);
    let a = name_bytes(c.name);
    let b = type_bytes(c.data_type);
    let id = le(c.column_id as int, 2);
    lemma_pow256();
    lemma_le_len(c.column_id as int, 2);
    let k = constraint_bytes(c);
    lemma_stands_split(data, pos, a + b + seq![flag] + id + k, check_bytes(c.check));
    lemma_stands_split(data, pos, a + b + seq![flag] + id, k);
    lemma_stands_split(data, pos, a + b + seq![flag], id);
    lemma_stands_split(data, pos, a + b, seq![flag]);
    lemma_stands_split(data, pos, a, b);
    lemma_name(data, pos, c.name);
    lemma_type(data, pos + a.len(), c.data_type);
    lemma_byte(data, pos + a.len() + b.len(), flag);
    lemma_number(data, pos + a.len() + b.len() + 1, c.column_id as int, 2);
    lemma_constraints(data, pos + a.len() + b.len() + 3, c);
    lemma_check(data, pos + a.len() + b.len() + 3 + k.len(), c.check);
}

proof fn lemma_columns(data: Seq<u8>, pos: int, cols: Seq<ColumnView>, k: int)
    requires
        0 <= k <= cols.len(),
        stands(data, pos, columns_bytes(cols)),
        forall|i: int| 0 <= i < cols.len() ==> column_fits(#[trigger] cols[i]),
    ensures
        columns_read(data, pos, cols.len() as int, Seq::empty()) == columns_read(
            data,
            pos + columns_bytes(cols.take(k)).len(),
            cols.len() - k,
            cols.take(k),
        ),
        stands(data, pos, columns_bytes(cols.take(k))),
    decreases k,
{
    if k == 0 {
        assert(cols.take(0) =~= Seq::<ColumnView>::empty());
        assert(data.subrange(pos, pos) =~= Seq::<u8>::empty());
    } else {
        lemma_columns(data, pos, cols, k - 1);
        lemma_columns_prefix(data, pos, cols, k);
        let part = cols.take(k);
        assert(part.drop_last() =~= cols.take(k - 1));
        assert(part.last() == cols[k - 1]);
        let head = columns_bytes(cols.take(k - 1));
        lemma_stands_split(data, pos, head, column_bytes(cols[k - 1]));
        lemma_column(data, pos + head.len(), cols[k - 1]);
        assert(cols.take(k - 1).push(cols[k - 1]) =~= cols.take(k));
    }
}

proof fn lemma_columns_prefix(data: Seq<u8>, pos: int, cols: Seq<ColumnView>, k: int)
    requires
        0 <= k <= cols.len(),
        stands(data, pos, columns_bytes(cols)),
    ensures
        stands(data, pos, columns_bytes(cols.take(k))),
    decreases cols.len() - k,
{
    if k == cols.len() {
        assert(cols.take(k) =~= cols);
    } else {
        lemma_columns_prefix(data, pos, cols, k + 1);
        assert(cols.take(k + 1).drop_last() =~= cols.take(k));
        lemma_stands_split(
            data,
            pos,
            columns_bytes(cols.take(k)),
            column_bytes(cols.take(k + 1).last()),
        );
    }
}

proof fn lemma_table(data: Seq<u8>, pos: int, t: TableRecord)
    requires
        stands(data, pos, table_bytes(t)),
        table_fits(t),
    ensures
        table_read(data, pos) == Ok::<(TableRecord, int), ErrorView>(
            (t, pos + table_bytes(t).len()),
        ),
{
    let a = le(t.table_id as int, 4);
    let b = name_bytes(t.name);
    let c = le(t.first_page as int, 4);
    let d = le(t.columns.len() as int, 4);
    let e = columns_bytes(t.columns);
    lemma_pow256();
    lemma_le_len(t.table_id as int, 4);
    lemma_le_len(t.first_page as int, 4);
    lemma_le_len(t.columns.len() as int, 4);
    lemma_stands_split(data, pos, a + b + c + d, e);
    lemma_stands_split(data, pos, a + b + c, d);
    lemma_stands_split(data, pos, a + b, c);
    lemma_stands_split(data, pos, a, b);
    lemma_number(data, pos, t.table_id as int, 4);
    lemma_name(data, pos + 4, t.name);
    lemma_number(data, pos + 4 + b.len(), t.first_page as int, 4);
    lemma_number(data, pos + 8 + b.len(), t.columns.len() as int, 4);
    lemma_columns(data, pos + 12 + b.len(), t.columns, t.columns.len() as int);
    assert(t.columns.take(t.columns.len() as int) =~= t.columns);
}

proof fn lemma_tables_prefix(data: Seq<u8>, pos: int, ts: Seq<TableRecord>, k: int)
    requires
        0 <= k <= ts.len(),
        stands(data, pos, tables_bytes(ts)),
    ensures
        stands(data, pos, tables_bytes(ts.take(k))),
    decreases ts.len() - k,
{
    if k == ts.len() {
        assert(ts.take(k) =~= ts);
    } else {
        lemma_tables_prefix(data, pos, ts, k + 1);
        assert(ts.take(k + 1).drop_last() =~= ts.take(k));
        lemma_stands_split(
            data,
            pos,
            tables_bytes(ts.take(k)),
            table_bytes(ts.take(k + 1).last()),
        );
    }
}

/// Whether no two tables have the same lowercase name.
pub open spec fn names_differ(ts: Seq<TableRecord>) -> bool {
    forall|i: int, j: int|
        0 <= i < j < ts.len() ==> lower_text((#[trigger] ts[i]).name) != lower_text(
            (#[trigger] ts[j]).name,
        )
}

proof fn lemma_record_absent(ts: Seq<TableRecord>, k: int, i: int)
    requires
        names_differ(ts),
        0 <= k < ts.len(),
        0 <= i <= k,
    ensures
        record_from(ts.take(k), lower_text(ts[k].name), i) is None,
    decreases k - i,
{
    if i < k {
        assert(ts.take(k)[i] == ts[i]);
        assert(lower_text(ts[i].name) != lower_text(ts[k].name));
        lemma_record_absent(ts, k, i + 1);
    }
}

proof fn lemma_tables(data: Seq<u8>, pos: int, ts: Seq<TableRecord>, k: int)
    requires
        0 <= k <= ts.len(),
        stands(data, pos, tables_bytes(ts)),
        names_differ(ts),
        forall|i: int| 0 <= i < ts.len() ==> table_fits(#[trigger] ts[i]),
    ensures
        tables_read(data, pos, ts.len() as int, Seq::empty()) == tables_read(
            data,
            pos + tables_bytes(ts.take(k)).len(),
            ts.len() - k,
            ts.take(k),
        ),
    decreases k,
{
    if k == 0 {
        assert(ts.take(0) =~= Seq::<TableRecord>::empty());
    } else {
        lemma_tables(data, pos, ts, k - 1);
        lemma_tables_prefix(data, pos, ts, k);
        let part = ts.take(k);
        assert(part.drop_last() =~= ts.take(k - 1));
        assert(part.last() == ts[k - 1]);
        let head = tables_bytes(ts.take(k - 1));
        lemma_stands_split(data, pos, head, table_bytes(ts[k - 1]));
        lemma_table(data, pos + head.len(), ts[k - 1]);
        lemma_record_absent(ts, k - 1, 0);
        assert(ts.take(k - 1).push(ts[k - 1]) =~= ts.take(k));
    }
}

/// Reading a catalog file gives back the tables, in their order, and the next table
/// identifier that were written to it, provided that lengths and numbers fit four bytes.
pub proof fn law_catalog_round_trip(tables: Seq<TableRecord>, next: u32)
    requires
        names_differ(tables),
        tables.len() < 0x1_0000_0000,
        forall|i: int| 0 <= i < tables.len() ==> table_fits(#[trigger] tables[i]),
    ensures
        catalog_read(catalog_bytes(tables, next)) == Ok::<(Seq<TableRecord>, u32), ErrorView>(
            (tables, next),
        ),
{
    let data = catalog_bytes(tables, next);
    let a = le(tables.len() as int, 4);
    let b = le(next as int, 4);
    let c = tables_bytes(tables);
    lemma_pow256();
    lemma_le_len(tables.len() as int, 4);
    lemma_le_len(next as int, 4);
    assert(data.subrange(0, data.len() as int) =~= data);
    lemma_stands_split(data, 0, a + b, c);
    lemma_stands_split(data, 0, a, b);
    lemma_number(data, 0, tables.len() as int, 4);
    lemma_number(data, 4, next as int, 4);
    lemma_tables(data, 8, tables, tables.len() as int);
    assert(tables.take(tables.len() as int) =~= tables);
}

/// Whether the names, the default value and the texts in the CHECK condition of a column are
/// short enough to be written.
pub open spec fn column_short(c: ColumnView) -> bool {
    &&& encode_utf8(c.name).len() < 0x1_0000_0000
    &&& c.default_value matches Some(v) ==> value_fits(v)
    &&& c.fk_ref matches Some(f) ==> encode_utf8(f.0).len() < 0x1_0000_0000 && encode_utf8(
        f.1,
    ).len() < 0x1_0000_0000
    &&& c.check matches Some(t) ==> tree_short(t)
}

/// Whether a table's names and number of columns are small enough to be written.
pub open spec fn table_short(t: TableRecord) -> bool {
    &&& encode_utf8(t.name).len() < 0x1_0000_0000
    &&& t.columns.len() < 0x1_0000_0000
    &&& forall|i: int| 0 <= i < t.columns.len() ==> column_short(#[trigger] t.columns[i])
}

/// A catalog survives being written to its file and read back, with every field of its columns,
/// provided that lengths and numbers fit four bytes.
pub proof fn law_catalog_survives(c: Catalog)
    requires
        c.wf(),
        c.tables@.len() < 0x1_0000_0000,
        forall|i: int|
            0 <= i < c.tables@.len() ==> table_short(table_record((#[trigger] c.tables@[i]).1)),
    ensures
        catalog_read(catalog_bytes(table_records(c.tables@), c.next_table_id)) == Ok::<
            (Seq<TableRecord>, u32),
            ErrorView,
        >((table_records(c.tables@), c.next_table_id)),
{
    let ts = table_records(c.tables@);
    assert forall|i: int, j: int| 0 <= i < j < ts.len() implies lower_text(
        (#[trigger] ts[i]).name,
    ) != lower_text((#[trigger] ts[j]).name) by {
        assert(c.tables@[i].0@ != c.tables@[j].0@);
        assert(c.tables@[i].0@ == lower_text(c.tables@[i].1.name@));
        assert(c.tables@[j].0@ == lower_text(c.tables@[j].1.name@));
    }
    assert forall|i: int| 0 <= i < ts.len() implies table_fits(#[trigger] ts[i]) by {
        let cols = c.tables@[i].1.schema.columns@;
        assert(ts[i] == table_record(c.tables@[i].1));
        assert forall|k: int| 0 <= k < ts[i].columns.len() implies column_fits(
            #[trigger] ts[i].columns[k],
        ) by {
            assert(column_short(ts[i].columns[k]));
            if let Some(e) = cols[k].check_expr {
                lemma_short_fits(e);
            }
        }
    }
    law_catalog_round_trip(ts, c.next_table_id);
}

} // verus!
