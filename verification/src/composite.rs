//! Keys over several columns.
use crate::bytes::{le, put_bytes, put_le};
use crate::insert::{find_index_column, index_column};
use crate::schema::{name_from, Schema};
use crate::text::{eq_ignore_ascii_case, pieces, same_name, split_char};
use crate::types::{Value, ValueView};
use crate::values::sort_key;
use vstd::prelude::*;

verus! {

/// The bytes of a key over several columns, from column `i` of the list on, behind `acc`;
/// none, where one of them is NULL.
pub open spec fn composite_from(row: Seq<ValueView>, cols: Seq<int>, i: int, acc: Seq<u8>) -> Option<
    Seq<u8>,
>
    decreases cols.len() - i,
{
    if i < 0 || i >= cols.len() {
        Some(acc)
    } else if cols[i] >= row.len() || row[cols[i]].is_null() {
        None
    } else {
        let part = sort_key(row[cols[i]]);
        composite_from(row, cols, i + 1, acc + le(part.len() as int, 4) + part)
    }
}

/// The key over several columns: a text with one character for each byte.
pub open spec fn composite_key(row: Seq<ValueView>, cols: Seq<int>) -> Option<ValueView> {
    match composite_from(row, cols, 0, Seq::empty()) {
        Some(b) => Some(ValueView::Varchar(bytes_as_text(b))),
        None => None,
    }
}

/// A text with one character for each byte.
pub open spec fn bytes_as_text(b: Seq<u8>) -> Seq<char> {
    Seq::new(b.len(), |i: int| b[i] as char)
}

fn text_of_bytes(b: &Vec<u8>) -> (r: String)
    ensures
        r@ == bytes_as_text(b@),
{
    let mut s = String::new();
    let mut i: usize = 0;
    while i < b.len()
        invariant
            0 <= i <= b.len(),
            s@ == bytes_as_text(b@).take(i as int),
        decreases b.len() - i,
    {
        let c: char = b[i] as char;
        let ghost before = s@;
        s.push(c);
        assert(bytes_as_text(b@).take(i + 1) =~= before.push(c));
        i += 1;
    }
    assert(bytes_as_text(b@).take(b.len() as int) =~= bytes_as_text(b@));
    s
}

/// Places, as mathematical integers.
pub open spec fn as_ints(v: Seq<usize>) -> Seq<int> {
    Seq::new(v.len(), |i: int| v[i] as int)
}

/// The key of a row over several columns.
pub fn build_composite_key(values: &Vec<Value>, col_indices: &Vec<usize>) -> (r: Option<Value>)
    ensures
        r.deep_view() == composite_key(values.deep_view(), as_ints(col_indices@)),
{
    let ghost row = values.deep_view();
    let ghost cols = as_ints(col_indices@);
    let mut b: Vec<u8> = Vec::new();
    let mut i: usize = 0;
    while i < col_indices.len()
        invariant
            0 <= i <= col_indices.len(),
            row == values.deep_view(),
            cols == as_ints(col_indices@),
            composite_from(row, cols, 0, Seq::empty()) == composite_from(
                row,
                cols,
                i as int,
                b@,
            ),
        decreases col_indices.len() - i,
    {
        let c: usize = col_indices[i];
        assert(cols[i as int] == c);
        if c >= values.len() {
            return None;
        }
        assert(row[c as int] == values@[c as int]@);
        if values[c].is_null() {
            return None;
        }
        let part = values[c].to_sort_key_bytes();
        put_le(&mut b, part.len() as u64, 4);
        put_bytes(&mut b, part.as_slice());
        i += 1;
    }
    Some(Value::Varchar(text_of_bytes(&b)))
}

/// The bytes of a column's value in a key over several columns: their number, and the bytes.
pub open spec fn part_bytes(v: ValueView) -> Seq<u8> {
    le(sort_key(v).len() as int, 4) + sort_key(v)
}

/// What the keys over several columns of the rows with a value in the first of them begin with.
pub open spec fn first_part(v: ValueView) -> ValueView {
    ValueView::Varchar(bytes_as_text(part_bytes(v)))
}

/// What the keys of the rows with a value in the first column begin with.
pub fn make_first_part(v: &Value) -> (r: Value)
    ensures
        r@ == first_part(v@),
{
    let part = v.to_sort_key_bytes();
    let mut b: Vec<u8> = Vec::new();
    put_le(&mut b, part.len() as u64, 4);
    put_bytes(&mut b, part.as_slice());
    assert(b@ =~= part_bytes(v@));
    Value::Varchar(text_of_bytes(&b))
}

// ---------------------------------------------------------------------------
// The key of a row in an index
// ---------------------------------------------------------------------------

/// Whether an index is on several columns of a table, going by its name.
pub open spec fn on_several(name: Seq<char>, columns: Seq<Seq<char>>, table: Seq<char>) -> bool {
    let p = pieces(name, '.');
    columns.len() > 1 && p.len() > 2 && same_name(p[0], table)
}

/// The places of the columns named from `i` on, behind `acc`; none, where one is not there.
pub open spec fn places_from(
    columns: Seq<Seq<char>>,
    i: int,
    names: Seq<Seq<char>>,
    acc: Seq<int>,
) -> Option<Seq<int>>
    decreases columns.len() - i,
{
    if i < 0 || i >= columns.len() {
        Some(acc)
    } else {
        match name_from(names, columns[i], 0) {
            None => None,
            Some(k) => places_from(columns, i + 1, names, acc.push(k)),
        }
    }
}

/// Whether an index is on a column of a table, or on several.
pub open spec fn is_on(
    name: Seq<char>,
    columns: Seq<Seq<char>>,
    table: Seq<char>,
    names: Seq<Seq<char>>,
) -> bool {
    index_column(name, table, names) is Some || on_several(name, columns, table)
}

/// The key under which a row of a table stands in an index with a name: the value of its column,
/// or one made of those of its columns; none, if the index is not on the table or one of several
/// values is NULL.
pub open spec fn key_in(
    name: Seq<char>,
    columns: Seq<Seq<char>>,
    table: Seq<char>,
    names: Seq<Seq<char>>,
    row: Seq<ValueView>,
) -> Option<ValueView> {
    match index_column(name, table, names) {
        Some(c) => if c < row.len() {
            Some(row[c])
        } else {
            None
        },
        None => if on_several(name, columns, table) {
            match places_from(columns, 0, names, Seq::empty()) {
                Some(cols) => composite_key(row, cols),
                None => None,
            }
        } else {
            None
        },
    }
}

fn is_on_several(name: &str, columns: &Vec<String>, table: &str) -> (r: bool)
    ensures
        r == on_several(name@, columns.deep_view(), table@),
{
    let p = split_char(name, '.');
    let ghost pv = p.deep_view();
    assert(columns.deep_view().len() == columns.len());
    assert(pv.len() == p.len());
    if columns.len() > 1 && p.len() > 2 {
        assert(pv[0] == p@[0]@);
        eq_ignore_ascii_case(p[0].as_str(), table)
    } else {
        false
    }
}

fn find_places(columns: &Vec<String>, schema: &Schema) -> (r: Option<Vec<usize>>)
    ensures
        match r {
            Some(v) => places_from(columns.deep_view(), 0, schema.names(), Seq::empty()) == Some(
                as_ints(v@),
            ),
            None => places_from(columns.deep_view(), 0, schema.names(), Seq::empty()) is None,
        },
{
    let ghost cv = columns.deep_view();
    let mut out: Vec<usize> = Vec::new();
    assert(as_ints(out@) =~= Seq::<int>::empty());
    let mut i: usize = 0;
    while i < columns.len()
        invariant
            0 <= i <= columns.len(),
            cv == columns.deep_view(),
            places_from(cv, 0, schema.names(), Seq::empty()) == places_from(
                cv,
                i as int,
                schema.names(),
                as_ints(out@),
            ),
        decreases columns.len() - i,
    {
        assert(cv[i as int] == columns@[i as int]@);
        match schema.get_column(columns[i].as_str()) {
            None => {
                return None;
            },
            Some(k) => {
                let ghost before = as_ints(out@);
                out.push(k);
                assert(as_ints(out@) =~= before.push(k as int));
            },
        }
        i += 1;
    }
    Some(out)
}

/// Whether an index is on a column of a table, or on several.
pub fn belongs_to(name: &str, columns: &Vec<String>, table: &str, schema: &Schema) -> (r: bool)
    ensures
        r == is_on(name@, columns.deep_view(), table@, schema.names()),
{
    find_index_column(name, table, schema).is_some() || is_on_several(name, columns, table)
}

/// The key under which a row of a table stands in an index.
pub fn find_key_in(
    name: &str,
    columns: &Vec<String>,
    table: &str,
    schema: &Schema,
    row: &Vec<Value>,
) -> (r: Option<Value>)
    ensures
        r.deep_view() == key_in(
            name@,
            columns.deep_view(),
            table@,
            schema.names(),
            row.deep_view(),
        ),
{
    let ghost rv = row.deep_view();
    assert(rv.len() == row.len());
    match find_index_column(name, table, schema) {
        Some(c) => if c < row.len() {
            assert(rv[c as int] == row@[c as int]@);
            Some(row[c].clone())
        } else {
            None
        },
        None => if is_on_several(name, columns, table) {
            match find_places(columns, schema) {
                Some(cols) => build_composite_key(row, &cols),
                None => None,
            }
        } else {
            None
        },
    }
}

} // verus!
