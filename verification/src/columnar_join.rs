//! Columnar hash join: the columns of both tables as flat arrays, joined by their places.
use crate::arena_join::{find_sides, read_parts, sides, table_parts};
use crate::ast::Expr;
use crate::builtins::{wrap32, wrap_i32};
use crate::catalog::{Catalog, TableInfo};
use crate::float::{float_of_int, self};
use crate::grouping::within;
use crate::iterator::bare_names;
use crate::join::{match_places, HashKey, KeyIndex, KeyView};
use crate::projection::{bare_name, strip_table_prefix};
use crate::schema::{lemma_view_names, prefixed, view_names, Schema};
use crate::state::{answer, ExecuteResult};
use crate::storage::{BufferPool, PageView};
use crate::tuple::{
    bitmap_len, deserialize, field_read, fields_read, marked_null, tuple_read, types_of,
};
use crate::txn::TxnContext;
use crate::types::{DataType, Value, ValueView};
use crate::wire::{
    append_msg, done_message, header_message, message, plain_text, put_done, put_header, put_wire,
    show_plain, wire_value, MSG_ROW,
};
use vstd::prelude::*;

verus! {

// ---------------------------------------------------------------------------
// Columns
// ---------------------------------------------------------------------------

/// Columnar representation of a table scan — each column is a typed flat array. Doubles are
/// held as bit patterns.
#[derive(Debug)]
pub enum ColumnArray {
    Int32(Vec<i32>),
    Int64(Vec<i64>),
    Float64(Vec<u64>),
    Str(Vec<String>),
}

/// [`ColumnArray`] as mathematical values: the tag of its values, and the values.
pub struct ArrayView {
    pub tag: u8,
    pub cells: Seq<ValueView>,
}

impl DeepView for ColumnArray {
    type V = ArrayView;

    open spec fn deep_view(&self) -> ArrayView {
        match *self {
            ColumnArray::Int32(v) => ArrayView {
                tag: 1,
                cells: Seq::new(v@.len(), |i: int| ValueView::Integer(v@[i])),
            },
            ColumnArray::Int64(v) => ArrayView {
                tag: 2,
                cells: Seq::new(v@.len(), |i: int| ValueView::BigInt(v@[i])),
            },
            ColumnArray::Float64(v) => ArrayView {
                tag: 3,
                cells: Seq::new(v@.len(), |i: int| ValueView::Float(v@[i])),
            },
            ColumnArray::Str(v) => ArrayView {
                tag: 5,
                cells: Seq::new(v@.len(), |i: int| ValueView::Varchar(v@[i]@)),
            },
        }
    }
}

/// The tag of the array that holds a column of a type.
pub open spec fn array_tag(t: DataType) -> u8 {
    match t {
        DataType::Integer => 1,
        DataType::BigInt => 2,
        DataType::DateTime => 2,
        DataType::Float => 3,
        _ => 5,
    }
}

/// A value as an array with a tag holds it; zero for what it cannot hold.
pub open spec fn cell(tag: u8, v: ValueView) -> ValueView {
    if tag == 1 {
        ValueView::Integer(
            match v {
                ValueView::Integer(n) => n,
                ValueView::BigInt(n) => wrap32(n as int) as i32,
                _ => 0,
            },
        )
    } else if tag == 2 {
        ValueView::BigInt(
            match v {
                ValueView::Integer(n) => n as i64,
                ValueView::BigInt(n) => n,
                ValueView::DateTime(n) => n,
                _ => 0,
            },
        )
    } else if tag == 3 {
        ValueView::Float(
            match v {
                ValueView::Float(f) => f,
                ValueView::Integer(n) => float_of_int(n as int) as u64,
                _ => 0,
            },
        )
    } else {
        ValueView::Varchar(plain_text(v))
    }
}

impl ColumnArray {
    /// An array without values for a column of a type.
    pub fn for_type(t: &DataType) -> (r: ColumnArray)
        ensures
            r.deep_view() == (ArrayView { tag: array_tag(*t), cells: Seq::empty() }),
    {
        let r = match t {
            DataType::Integer => ColumnArray::Int32(Vec::new()),
            DataType::BigInt => ColumnArray::Int64(Vec::new()),
            DataType::DateTime => ColumnArray::Int64(Vec::new()),
            DataType::Float => ColumnArray::Float64(Vec::new()),
            _ => ColumnArray::Str(Vec::new()),
        };
        assert(r.deep_view().cells =~= Seq::<ValueView>::empty());
        r
    }

    /// How many values the array holds.
    pub fn len(&self) -> (n: usize)
        ensures
            n == self.deep_view().cells.len(),
    {
        match self {
            ColumnArray::Int32(v) => v.len(),
            ColumnArray::Int64(v) => v.len(),
            ColumnArray::Float64(v) => v.len(),
            ColumnArray::Str(v) => v.len(),
        }
    }

    /// Appends a value.
    pub fn push(&mut self, val: &Value)
        ensures
            final(self).deep_view() == (ArrayView {
                tag: old(self).deep_view().tag,
                cells: old(self).deep_view().cells.push(cell(old(self).deep_view().tag, val@)),
            }),
    {
        let ghost before = self.deep_view();
        match self {
            ColumnArray::Int32(v) => {
                let n: i32 = match val {
                    Value::Integer(n) => *n,
                    Value::BigInt(n) => wrap_i32(*n as i128),
                    _ => 0,
                };
                v.push(n);
            },
            ColumnArray::Int64(v) => {
                let n: i64 = match val {
                    Value::Integer(n) => *n as i64,
                    Value::BigInt(n) => *n,
                    Value::DateTime(n) => *n,
                    _ => 0,
                };
                v.push(n);
            },
            ColumnArray::Float64(v) => {
                let f: u64 = match val {
                    Value::Float(f) => *f,
                    Value::Integer(n) => float::of_i64(*n as i64),
                    _ => 0,
                };
                v.push(f);
            },
            ColumnArray::Str(v) => {
                v.push(show_plain(val));
            },
        }
        assert(self.deep_view().cells =~= before.cells.push(cell(before.tag, val@)));
    }

    /// The value at a place.
    pub fn get(&self, idx: usize) -> (v: Value)
        requires
            idx < self.deep_view().cells.len(),
        ensures
            v@ == self.deep_view().cells[idx as int],
    {
        match self {
            ColumnArray::Int32(v) => Value::Integer(v[idx]),
            ColumnArray::Int64(v) => Value::BigInt(v[idx]),
            ColumnArray::Float64(v) => Value::Float(v[idx]),
            ColumnArray::Str(v) => Value::Varchar(v[idx].clone()),
        }
    }
}

/// The values of an array at some places.
pub open spec fn gathered(a: ArrayView, at: Seq<usize>) -> ArrayView {
    ArrayView { tag: a.tag, cells: Seq::new(at.len(), |i: int| a.cells[at[i] as int]) }
}

/// Gather values from a column by index array.
fn gather_column(col: &ColumnArray, indices: &Vec<usize>) -> (r: ColumnArray)
    requires
        within(indices@, col.deep_view().cells.len() as int),
    ensures
        r.deep_view() == gathered(col.deep_view(), indices@),
{
    let ghost all = gathered(col.deep_view(), indices@);
    match col {
        ColumnArray::Int32(v) => {
            let mut out: Vec<i32> = Vec::new();
            let mut i: usize = 0;
            while i < indices.len()
                invariant
                    0 <= i <= indices.len(),
                    out.len() == i,
                    within(indices@, v.len() as int),
                    forall|k: int| 0 <= k < i ==> #[trigger] out@[k] == v@[indices@[k] as int],
                decreases indices.len() - i,
            {
                out.push(v[indices[i]]);
                i += 1;
            }
            let r = ColumnArray::Int32(out);
            assert(r.deep_view().cells =~= all.cells);
            r
        },
        ColumnArray::Int64(v) => {
            let mut out: Vec<i64> = Vec::new();
            let mut i: usize = 0;
            while i < indices.len()
                invariant
                    0 <= i <= indices.len(),
                    out.len() == i,
                    within(indices@, v.len() as int),
                    forall|k: int| 0 <= k < i ==> #[trigger] out@[k] == v@[indices@[k] as int],
                decreases indices.len() - i,
            {
                out.push(v[indices[i]]);
                i += 1;
            }
            let r = ColumnArray::Int64(out);
            assert(r.deep_view().cells =~= all.cells);
            r
        },
        ColumnArray::Float64(v) => {
            let mut out: Vec<u64> = Vec::new();
            let mut i: usize = 0;
            while i < indices.len()
                invariant
                    0 <= i <= indices.len(),
                    out.len() == i,
                    within(indices@, v.len() as int),
                    forall|k: int| 0 <= k < i ==> #[trigger] out@[k] == v@[indices@[k] as int],
                decreases indices.len() - i,
            {
                out.push(v[indices[i]]);
                i += 1;
            }
            let r = ColumnArray::Float64(out);
            assert(r.deep_view().cells =~= all.cells);
            r
        },
        ColumnArray::Str(v) => {
            let mut out: Vec<String> = Vec::new();
            let mut i: usize = 0;
            while i < indices.len()
                invariant
                    0 <= i <= indices.len(),
                    out.len() == i,
                    within(indices@, v.len() as int),
                    forall|k: int| 0 <= k < i ==> (#[trigger] out@[k])@ == v@[indices@[k] as int]@,
                decreases indices.len() - i,
            {
                out.push(v[indices[i]].clone());
                i += 1;
            }
            let r = ColumnArray::Str(out);
            assert(r.deep_view().cells =~= all.cells);
            r
        },
    }
}

// ---------------------------------------------------------------------------
// Scans
// ---------------------------------------------------------------------------

/// The rows of the parts from `i` on that can be read, behind `acc`.
pub open spec fn readable_from(
    parts: Seq<Seq<u8>>,
    i: int,
    types: Seq<DataType>,
    acc: Seq<Seq<ValueView>>,
) -> Seq<Seq<ValueView>>
    decreases parts.len() - i,
{
    if i < 0 || i >= parts.len() {
        acc
    } else {
        readable_from(
            parts,
            i + 1,
            types,
            match tuple_read(parts[i], types) {
                Ok(row) => acc.push(row),
                Err(_) => acc,
            },
        )
    }
}

/// The column at a place of rows, as an array.
pub open spec fn array_of(rows: Seq<Seq<ValueView>>, t: DataType, c: int) -> ArrayView {
    ArrayView {
        tag: array_tag(t),
        cells: Seq::new(rows.len(), |i: int| cell(array_tag(t), rows[i][c])),
    }
}

/// The columns of rows, as arrays.
pub open spec fn arrays_of(rows: Seq<Seq<ValueView>>, types: Seq<DataType>) -> Seq<ArrayView> {
    Seq::new(types.len(), |c: int| array_of(rows, types[c], c))
}

proof fn lemma_row_width(data: Seq<u8>, types: Seq<DataType>)
    requires
        tuple_read(data, types) is Ok,
    ensures
        tuple_read(data, types)->Ok_0.len() == types.len(),
{
    lemma_fields_width(
        data,
        types,
        0,
        bitmap_len(types.len() as int),
        Seq::empty(),
    );
}

proof fn lemma_fields_width(
    data: Seq<u8>,
    types: Seq<DataType>,
    i: int,
    pos: int,
    acc: Seq<ValueView>,
)
    requires
        0 <= i <= types.len(),
        acc.len() == i,
        fields_read(data, types, i, pos, acc) is Ok,
    ensures
        fields_read(data, types, i, pos, acc)->Ok_0.len() == types.len(),
    decreases types.len() - i,
{
    if i < types.len() {
        if marked_null(data, i) {
            lemma_fields_width(data, types, i + 1, pos, acc.push(ValueView::Null));
        } else {
            let p = field_read(data, pos, types[i])->Ok_0;
            lemma_fields_width(data, types, i + 1, p.1, acc.push(p.0));
        }
    }
}

/// Scan a table into columnar arrays — one per column. Rows that cannot be read are passed
/// over.
fn scan_to_columns(info: &TableInfo, cbpm: &BufferPool) -> (r: Option<Vec<ColumnArray>>)
    ensures
        match table_parts(cbpm@, *info) {
            None => r is None,
            Some(parts) => r is Some && r->0.deep_view() == arrays_of(
                readable_from(parts, 0, types_of(info.schema), Seq::empty()),
                types_of(info.schema),
            ),
        },
{
    let ghost types = types_of(info.schema);
    let parts = match read_parts(cbpm, info) {
        None => {
            return None;
        },
        Some(p) => p,
    };
    let ghost pv = parts.deep_view();
    let n = info.schema.columns.len();
    let mut arrays: Vec<ColumnArray> = Vec::new();
    let mut c: usize = 0;
    let ghost none = Seq::<Seq<ValueView>>::empty();
    while c < n
        invariant
            0 <= c <= n,
            n == info.schema.columns.len(),
            types == types_of(info.schema),
            arrays.len() == c,
            none.len() == 0,
            forall|k: int|
                0 <= k < c ==> (#[trigger] arrays@[k]).deep_view() == array_of(none, types[k], k),
        decreases n - c,
    {
        arrays.push(ColumnArray::for_type(&info.schema.columns[c].data_type));
        assert(array_of(none, types[c as int], c as int).cells =~= Seq::<ValueView>::empty());
        c += 1;
    }
    let ghost mut rows = none;
    let mut i: usize = 0;
    while i < parts.len()
        invariant
            0 <= i <= parts.len(),
            n == info.schema.columns.len(),
            types == types_of(info.schema),
            pv == parts.deep_view(),
            arrays.len() == n,
            forall|k: int|
                0 <= k < n ==> (#[trigger] arrays@[k]).deep_view() == array_of(rows, types[k], k),
            readable_from(pv, 0, types, Seq::empty()) == readable_from(pv, i as int, types, rows),
        decreases parts.len() - i,
    {
        assert(pv[i as int] =~= parts@[i as int]@);
        if let Ok(row) = deserialize(parts[i].as_slice(), &info.schema) {
            let ghost rv = row.deep_view();
            proof {
                lemma_row_width(pv[i as int], types);
            }
            push_row(&mut arrays, &row, Ghost(rows), Ghost(types));
            proof {
                rows = rows.push(rv);
            }
        }
        i += 1;
    }
    assert(arrays.deep_view() =~= arrays_of(rows, types));
    Some(arrays)
}

fn push_row(
    arrays: &mut Vec<ColumnArray>,
    row: &Vec<Value>,
    Ghost(rows): Ghost<Seq<Seq<ValueView>>>,
    Ghost(types): Ghost<Seq<DataType>>,
)
    requires
        old(arrays).len() == types.len(),
        row.len() == types.len(),
        forall|k: int|
            0 <= k < types.len() ==> (#[trigger] old(arrays)@[k]).deep_view() == array_of(
                rows,
                types[k],
                k,
            ),
    ensures
        final(arrays).len() == types.len(),
        forall|k: int|
            0 <= k < types.len() ==> (#[trigger] final(arrays)@[k]).deep_view() == array_of(
                rows.push(row.deep_view()),
                types[k],
                k,
            ),
{
    let ghost rv = row.deep_view();
    let mut c: usize = 0;
    while c < row.len()
        invariant
            0 <= c <= row.len(),
            arrays.len() == types.len(),
            row.len() == types.len(),
            rv == row.deep_view(),
            forall|k: int|
                0 <= k < c ==> (#[trigger] arrays@[k]).deep_view() == array_of(
                    rows.push(rv),
                    types[k],
                    k,
                ),
            forall|k: int|
                c <= k < types.len() ==> (#[trigger] arrays@[k]).deep_view() == array_of(
                    rows,
                    types[k],
                    k,
                ),
        decreases row.len() - c,
    {
        assert(rv[c as int] == row@[c as int]@);
        let ghost was = array_of(rows, types[c as int], c as int);
        arrays[c].push(&row[c]);
        assert(array_of(rows.push(rv), types[c as int], c as int).cells =~= was.cells.push(
            cell(was.tag, rv[c as int]),
        ));
        c += 1;
    }
}

// ---------------------------------------------------------------------------
// Joining
// ---------------------------------------------------------------------------

/// The keys of an array of integers.
pub open spec fn array_keys(a: ArrayView) -> Seq<Option<KeyView>> {
    Seq::new(a.cells.len(), |i: int| Some(KeyView::BigInt(cell_int(a.cells[i]))))
}

/// The integer of a cell.
pub open spec fn cell_int(v: ValueView) -> i64 {
    match v {
        ValueView::Integer(n) => n as i64,
        ValueView::BigInt(n) => n,
        _ => 0,
    }
}

fn column_keys(col: &ColumnArray) -> (r: Vec<Option<HashKey>>)
    ensures
        r.deep_view() == array_keys(col.deep_view()),
{
    let ghost all = array_keys(col.deep_view());
    let mut out: Vec<Option<HashKey>> = Vec::new();
    let n = col.len();
    let mut i: usize = 0;
    while i < n
        invariant
            0 <= i <= n,
            n == col.deep_view().cells.len(),
            out.len() == i,
            all == array_keys(col.deep_view()),
            forall|k: int| 0 <= k < i ==> (#[trigger] out@[k]).deep_view() == all[k],
        decreases n - i,
    {
        let x: i64 = match col.get(i) {
            Value::Integer(x) => x as i64,
            Value::BigInt(x) => x,
            _ => 0,
        };
        out.push(Some(HashKey::BigInt(x)));
        i += 1;
    }
    assert(out.deep_view() =~= all);
    out
}

/// The places at which the keys from `i` on meet others, behind `acc`.
pub open spec fn place_pairs(
    keys: Seq<Option<KeyView>>,
    i: int,
    others: Seq<Option<KeyView>>,
    acc: Seq<(usize, usize)>,
) -> Seq<(usize, usize)>
    decreases keys.len() - i,
{
    if i < 0 || i >= keys.len() {
        acc
    } else {
        place_pairs(keys, i + 1, others, acc + with_each(i as usize, match_places(others, keys[i])))
    }
}

/// A place with each of some others.
pub open spec fn with_each(i: usize, found: Seq<usize>) -> Seq<(usize, usize)> {
    Seq::new(found.len(), |j: int| (i, found[j]))
}

/// The first places of pairs.
pub open spec fn firsts(p: Seq<(usize, usize)>) -> Seq<usize> {
    Seq::new(p.len(), |i: int| p[i].0)
}

/// The second places of pairs.
pub open spec fn seconds(p: Seq<(usize, usize)>) -> Seq<usize> {
    Seq::new(p.len(), |i: int| p[i].1)
}

fn pair_places(keys: &Vec<Option<HashKey>>, others: &Vec<Option<HashKey>>) -> (r: (
    Vec<usize>,
    Vec<usize>,
))
    ensures
        ({
            let p = place_pairs(keys.deep_view(), 0, others.deep_view(), Seq::empty());
            &&& r.0@ == firsts(p)
            &&& r.1@ == seconds(p)
            &&& within(r.0@, keys.len() as int)
            &&& within(r.1@, others.len() as int)
        }),
{
    let ghost kv = keys.deep_view();
    let ghost ov = others.deep_view();
    let index = KeyIndex::build(others);
    let ghost mut pairs = Seq::<(usize, usize)>::empty();
    let mut a: Vec<usize> = Vec::new();
    let mut b: Vec<usize> = Vec::new();
    assert(a@ =~= firsts(pairs));
    assert(b@ =~= seconds(pairs));
    let mut i: usize = 0;
    while i < keys.len()
        invariant
            0 <= i <= keys.len(),
            kv == keys.deep_view(),
            ov == others.deep_view(),
            index.of(ov, others.len() as int),
            a@ == firsts(pairs),
            b@ == seconds(pairs),
            within(a@, keys.len() as int),
            within(b@, others.len() as int),
            place_pairs(kv, 0, ov, Seq::empty()) == place_pairs(kv, i as int, ov, pairs),
        decreases keys.len() - i,
    {
        assert(kv[i as int] == keys@[i as int].deep_view());
        let found = index.lookup(others, &keys[i]);
        let ghost more = with_each(i, found@);
        let ghost start = pairs;
        let mut j: usize = 0;
        assert(start + more.take(0) =~= start);
        while j < found.len()
            invariant
                0 <= j <= found.len(),
                i < keys.len(),
                more == with_each(i, found@),
                within(found@, others.len() as int),
                pairs == start + more.take(j as int),
                a@ == firsts(pairs),
                b@ == seconds(pairs),
                within(a@, keys.len() as int),
                within(b@, others.len() as int),
            decreases found.len() - j,
        {
            let ghost was = pairs;
            a.push(i);
            b.push(found[j]);
            proof {
                pairs = was.push((i, found@[j as int]));
                assert(more.take(j + 1) =~= more.take(j as int).push(more[j as int]));
                assert(pairs =~= start + more.take(j + 1));
                assert(a@ =~= firsts(pairs));
                assert(b@ =~= seconds(pairs));
            }
            j += 1;
        }
        assert(more.take(found.len() as int) =~= more);
        i += 1;
    }
    (a, b)
}

/// Result of a columnar join — ready for direct wire encoding.
#[derive(Debug)]
pub struct ColumnarResult {
    pub col_names: Vec<String>,
    /// Tags of the columns' values.
    pub col_types: Vec<u8>,
    pub columns: Vec<ColumnArray>,
    pub row_count: usize,
}

/// [`ColumnarResult`] as mathematical values.
pub struct ColumnarView {
    pub names: Seq<Seq<char>>,
    pub tags: Seq<u8>,
    pub columns: Seq<ArrayView>,
    pub rows: int,
}

impl DeepView for ColumnarResult {
    type V = ColumnarView;

    open spec fn deep_view(&self) -> ColumnarView {
        ColumnarView {
            names: self.col_names.deep_view(),
            tags: self.col_types@,
            columns: self.columns.deep_view(),
            rows: self.row_count as int,
        }
    }
}

impl ColumnarView {
    /// Whether there is a name and a tag for every column, and every column has all rows.
    pub open spec fn wf(self) -> bool {
        &&& self.names.len() == self.columns.len()
        &&& self.tags.len() == self.columns.len()
        &&& forall|c: int|
            0 <= c < self.columns.len() ==> (#[trigger] self.columns[c]).cells.len() == self.rows
    }
}

/// The arrays gathered at some places.
pub open spec fn all_gathered(arrays: Seq<ArrayView>, at: Seq<usize>) -> Seq<ArrayView> {
    Seq::new(arrays.len(), |c: int| gathered(arrays[c], at))
}

/// The tags of arrays.
pub open spec fn tags_of(arrays: Seq<ArrayView>) -> Seq<u8> {
    Seq::new(arrays.len(), |c: int| arrays[c].tag)
}

/// The places of the left and of the right rows that meet. The table with fewer rows is
/// looked up in.
pub open spec fn meeting_places(lk: Seq<Option<KeyView>>, rk: Seq<Option<KeyView>>) -> (
    Seq<usize>,
    Seq<usize>,
) {
    if rk.len() <= lk.len() {
        let p = place_pairs(lk, 0, rk, Seq::empty());
        (firsts(p), seconds(p))
    } else {
        let p = place_pairs(rk, 0, lk, Seq::empty());
        (seconds(p), firsts(p))
    }
}

/// An inner join of two tables by integer columns, as columns; none, where it is not one.
pub open spec fn columnar(
    c: Catalog,
    pages: Seq<PageView>,
    lt: Seq<char>,
    la: Seq<char>,
    rt: Seq<char>,
    ra: Seq<char>,
    on: Expr,
) -> Option<ColumnarView> {
    match sides(c, lt, rt, on) {
        None => None,
        Some(s) => match (table_parts(pages, s.left), table_parts(pages, s.right)) {
            (Some(lparts), Some(rparts)) => {
                let ltypes = types_of(s.left.schema);
                let rtypes = types_of(s.right.schema);
                let l = arrays_of(readable_from(lparts, 0, ltypes, Seq::empty()), ltypes);
                let r = arrays_of(readable_from(rparts, 0, rtypes, Seq::empty()), rtypes);
                let at = meeting_places(array_keys(l[s.lk]), array_keys(r[s.rk]));
                let columns = all_gathered(l, at.0) + all_gathered(r, at.1);
                Some(
                    ColumnarView {
                        names: view_names(prefixed(s.left.schema.deep_view(), la)) + view_names(
                            prefixed(s.right.schema.deep_view(), ra),
                        ),
                        tags: tags_of(columns),
                        columns,
                        rows: at.0.len() as int,
                    },
                )
            },
            _ => None,
        },
    }
}

fn gather_all(cols: &Vec<ColumnArray>, at: &Vec<usize>, out: &mut Vec<ColumnArray>, n: usize)
    requires
        within(at@, n as int),
        forall|c: int|
            0 <= c < cols.len() ==> (#[trigger] cols@[c]).deep_view().cells.len() == n,
    ensures
        final(out).deep_view() == old(out).deep_view() + all_gathered(cols.deep_view(), at@),
{
    let ghost start = out.deep_view();
    let ghost cv = cols.deep_view();
    let ghost all = all_gathered(cv, at@);
    let mut c: usize = 0;
    assert(start + all.take(0) =~= start);
    while c < cols.len()
        invariant
            0 <= c <= cols.len(),
            within(at@, n as int),
            forall|k: int|
                0 <= k < cols.len() ==> (#[trigger] cols@[k]).deep_view().cells.len() == n,
            cv == cols.deep_view(),
            all == all_gathered(cv, at@),
            out.deep_view() == start + all.take(c as int),
        decreases cols.len() - c,
    {
        let ghost had = out.deep_view();
        assert(cv[c as int] == cols@[c as int].deep_view());
        let g = gather_column(&cols[c], at);
        let ghost gv = g.deep_view();
        out.push(g);
        assert(out.deep_view() =~= had.push(gv));
        assert(all.take(c + 1) =~= all.take(c as int).push(gv));
        assert(out.deep_view() =~= start + all.take(c + 1));
        c += 1;
    }
    assert(all.take(all.len() as int) =~= all);
}

fn array_tags(cols: &Vec<ColumnArray>) -> (r: Vec<u8>)
    ensures
        r@ == tags_of(cols.deep_view()),
{
    let mut out: Vec<u8> = Vec::new();
    let mut c: usize = 0;
    while c < cols.len()
        invariant
            0 <= c <= cols.len(),
            out.len() == c,
            forall|k: int| 0 <= k < c ==> #[trigger] out@[k] == cols@[k].deep_view().tag,
        decreases cols.len() - c,
    {
        let tag: u8 = match &cols[c] {
            ColumnArray::Int32(_) => 1,
            ColumnArray::Int64(_) => 2,
            ColumnArray::Float64(_) => 3,
            ColumnArray::Str(_) => 5,
        };
        out.push(tag);
        c += 1;
    }
    assert(out@ =~= tags_of(cols.deep_view()));
    out
}

fn push_names(out: &mut Vec<String>, schema: &Schema, prefix: &str)
    ensures
        final(out).deep_view() == old(out).deep_view() + view_names(
            prefixed(schema.deep_view(), prefix@),
        ),
{
    let ghost start = out.deep_view();
    let p = schema.prefixed(prefix);
    let ghost all = view_names(prefixed(schema.deep_view(), prefix@));
    let mut c: usize = 0;
    assert(start + all.take(0) =~= start);
    proof {
        lemma_view_names(p);
    }
    while c < p.columns.len()
        invariant
            0 <= c <= p.columns.len(),
            p.names() == all,
            out.deep_view() == start + all.take(c as int),
        decreases p.columns.len() - c,
    {
        let ghost had = out.deep_view();
        let name = p.columns[c].name.clone();
        let ghost nv = name@;
        assert(p.names()[c as int] == nv);
        out.push(name);
        assert(out.deep_view() =~= had.push(nv));
        assert(all.take(c + 1) =~= all.take(c as int).push(nv));
        assert(out.deep_view() =~= start + all.take(c + 1));
        c += 1;
    }
    assert(all.take(all.len() as int) =~= all);
}

/// The name of a table in a query: its alias, or its own name.
pub open spec fn called(alias: Option<&str>, table: Seq<char>) -> Seq<char> {
    match alias {
        Some(a) => a@,
        None => table,
    }
}

/// Try to execute an INNER JOIN entirely in columnar mode.
/// Returns None if the tables/columns don't support columnar processing.
pub fn try_columnar_inner_join(
    left_table: &str,
    left_alias: Option<&str>,
    right_table: &str,
    right_alias: Option<&str>,
    on_expr: &Expr,
    catalog: &Catalog,
    cbpm: &BufferPool,
    _txn_ctx: Option<&TxnContext>,
) -> (r: Option<ColumnarResult>)
    ensures
        r.deep_view() == columnar(
            *catalog,
            cbpm@,
            left_table@,
            called(left_alias, left_table@),
            right_table@,
            called(right_alias, right_table@),
            *on_expr,
        ),
        r matches Some(x) ==> x.deep_view().wf(),
{
    let t = match find_sides(catalog, left_table, right_table, on_expr) {
        None => {
            return None;
        },
        Some(t) => t,
    };
    let left_cols = match scan_to_columns(t.left, cbpm) {
        None => {
            return None;
        },
        Some(c) => c,
    };
    let right_cols = match scan_to_columns(t.right, cbpm) {
        None => {
            return None;
        },
        Some(c) => c,
    };
    let ghost l = left_cols.deep_view();
    let ghost r = right_cols.deep_view();
    assert(l[t.lk as int] == left_cols@[t.lk as int].deep_view());
    assert(r[t.rk as int] == right_cols@[t.rk as int].deep_view());
    let left_keys = column_keys(&left_cols[t.lk]);
    let right_keys = column_keys(&right_cols[t.rk]);
    let (left_at, right_at) = if right_keys.len() <= left_keys.len() {
        pair_places(&left_keys, &right_keys)
    } else {
        let (b, a) = pair_places(&right_keys, &left_keys);
        (a, b)
    };
    let ghost at = meeting_places(left_keys.deep_view(), right_keys.deep_view());
    assert(left_at@ == at.0 && right_at@ == at.1);
    let n: usize = left_at.len();
    assert(right_at.len() == n);
    let mut columns: Vec<ColumnArray> = Vec::new();
    assert(columns.deep_view() =~= Seq::<ArrayView>::empty());
    proof {
        assert forall|c: int| 0 <= c < left_cols.len() implies (
        #[trigger] left_cols@[c]).deep_view().cells.len() == left_keys.len() by {
            assert(l[c] == left_cols@[c].deep_view());
        }
        assert forall|c: int| 0 <= c < right_cols.len() implies (
        #[trigger] right_cols@[c]).deep_view().cells.len() == right_keys.len() by {
            assert(r[c] == right_cols@[c].deep_view());
        }
    }
    gather_all(&left_cols, &left_at, &mut columns, left_keys.len());
    gather_all(&right_cols, &right_at, &mut columns, right_keys.len());
    assert(columns.deep_view() =~= all_gathered(l, at.0) + all_gathered(r, at.1));
    let col_types = array_tags(&columns);
    let mut col_names: Vec<String> = Vec::new();
    assert(col_names.deep_view() =~= Seq::<Seq<char>>::empty());
    let left_prefix: &str = match left_alias {
        Some(a) => a,
        None => left_table,
    };
    let right_prefix: &str = match right_alias {
        Some(a) => a,
        None => right_table,
    };
    push_names(&mut col_names, &t.left.schema, left_prefix);
    push_names(&mut col_names, &t.right.schema, right_prefix);
    assert(col_names.deep_view() =~= view_names(
        prefixed(t.left.schema.deep_view(), left_prefix@),
    ) + view_names(prefixed(t.right.schema.deep_view(), right_prefix@)));
    let out = ColumnarResult { col_names, col_types, columns, row_count: n };
    proof {
        let v = out.deep_view();
        assert forall|c: int| 0 <= c < v.columns.len() implies (
        #[trigger] v.columns[c]).cells.len() == v.rows by {
            if c < l.len() {
                assert(v.columns[c] == gathered(l[c], at.0));
            } else {
                assert(v.columns[c] == gathered(r[c - l.len()], at.1));
            }
        }
    }
    Some(out)
}

// ---------------------------------------------------------------------------
// Results
// ---------------------------------------------------------------------------

/// The row at a place of columns.
pub open spec fn columns_row(columns: Seq<ArrayView>, i: int) -> Seq<ValueView> {
    Seq::new(columns.len(), |c: int| columns[c].cells[i])
}

fn strip_all(names: &Vec<String>) -> (r: Vec<String>)
    ensures
        r.deep_view() == bare_names(names.deep_view()),
{
    let mut out: Vec<String> = Vec::new();
    let mut i: usize = 0;
    while i < names.len()
        invariant
            0 <= i <= names.len(),
            out.len() == i,
            forall|k: int| 0 <= k < i ==> (#[trigger] out@[k])@ == bare_name(names@[k]@),
        decreases names.len() - i,
    {
        out.push(strip_table_prefix(names[i].as_str()));
        i += 1;
    }
    assert(out.deep_view() =~= bare_names(names.deep_view()));
    out
}

fn read_columns(columns: &Vec<ColumnArray>, i: usize) -> (r: Vec<Value>)
    requires
        forall|c: int|
            0 <= c < columns.len() ==> i < (#[trigger] columns@[c]).deep_view().cells.len(),
    ensures
        r.deep_view() == columns_row(columns.deep_view(), i as int),
{
    let mut row: Vec<Value> = Vec::new();
    let mut c: usize = 0;
    while c < columns.len()
        invariant
            0 <= c <= columns.len(),
            row.len() == c,
            forall|k: int|
                0 <= k < columns.len() ==> i < (#[trigger] columns@[k]).deep_view().cells.len(),
            forall|k: int|
                0 <= k < c ==> (#[trigger] row@[k])@ == columns@[k].deep_view().cells[i as int],
        decreases columns.len() - c,
    {
        row.push(columns[c].get(i));
        c += 1;
    }
    assert(row.deep_view() =~= columns_row(columns.deep_view(), i as int));
    row
}

/// The rows of columns.
pub open spec fn columns_rows(columns: Seq<ArrayView>, n: int) -> Seq<Seq<ValueView>> {
    Seq::new(n as nat, |i: int| columns_row(columns, i))
}

/// Convert a ColumnarResult to ExecuteResult (for non-ForgeWire paths).
pub fn columnar_to_execute_result(cr: ColumnarResult) -> (r: ExecuteResult)
    requires
        cr.deep_view().wf(),
    ensures
        r.deep_view() == answer(
            bare_names(cr.deep_view().names),
            columns_rows(cr.deep_view().columns, cr.deep_view().rows),
        ),
{
    let ghost v = cr.deep_view();
    let names = strip_all(&cr.col_names);
    let mut rows: Vec<Vec<Value>> = Vec::new();
    let mut i: usize = 0;
    proof {
        assert forall|c: int| 0 <= c < cr.columns.len() implies (
        #[trigger] cr.columns@[c]).deep_view().cells.len() == v.rows by {
            assert(v.columns[c] == cr.columns@[c].deep_view());
        }
    }
    while i < cr.row_count
        invariant
            0 <= i <= cr.row_count,
            v == cr.deep_view(),
            rows.len() == i,
            forall|c: int|
                0 <= c < cr.columns.len() ==> (#[trigger] cr.columns@[c]).deep_view().cells.len()
                    == v.rows,
            forall|k: int|
                0 <= k < i ==> (#[trigger] rows@[k]).deep_view() == columns_row(v.columns, k),
        decreases cr.row_count - i,
    {
        rows.push(read_columns(&cr.columns, i));
        i += 1;
    }
    assert(rows.deep_view() =~= columns_rows(v.columns, v.rows));
    ExecuteResult::answer(names, rows)
}

/// The first `n` values of a row as values of a message.
pub open spec fn wire_cells(columns: Seq<ArrayView>, i: int, n: int) -> Seq<u8>
    decreases n,
{
    if n <= 0 {
        Seq::empty()
    } else {
        wire_cells(columns, i, n - 1) + wire_value(columns[n - 1].cells[i])
    }
}

/// The messages of the first `n` rows of columns.
pub open spec fn wire_columns_rows(columns: Seq<ArrayView>, n: int) -> Seq<u8>
    decreases n,
{
    if n <= 0 {
        Seq::empty()
    } else {
        wire_columns_rows(columns, n - 1) + message(
            MSG_ROW,
            wire_cells(columns, n - 1, columns.len() as int),
        )
    }
}

/// A columnar result as messages.
pub open spec fn columnar_messages(v: ColumnarView) -> Seq<u8> {
    header_message(bare_names(v.names), v.tags) + wire_columns_rows(v.columns, v.rows)
        + done_message(v.rows)
}

/// Encode a ColumnarResult directly to ForgeWire binary.
pub fn columnar_to_forgewire(cr: &ColumnarResult) -> (r: Vec<u8>)
    requires
        cr.deep_view().wf(),
    ensures
        r@ == columnar_messages(cr.deep_view()),
{
    let ghost v = cr.deep_view();
    let names = strip_all(&cr.col_names);
    let mut out: Vec<u8> = Vec::new();
    put_header(&mut out, &names, &cr.col_types);
    let ghost start = header_message(bare_names(v.names), v.tags);
    assert(out@ =~= start);
    assert(start + wire_columns_rows(v.columns, 0) =~= start);
    proof {
        assert forall|c: int| 0 <= c < cr.columns.len() implies (
        #[trigger] cr.columns@[c]).deep_view().cells.len() == v.rows by {
            assert(v.columns[c] == cr.columns@[c].deep_view());
        }
    }
    let mut i: usize = 0;
    while i < cr.row_count
        invariant
            0 <= i <= cr.row_count,
            v == cr.deep_view(),
            forall|c: int|
                0 <= c < cr.columns.len() ==> (#[trigger] cr.columns@[c]).deep_view().cells.len()
                    == v.rows,
            out@ == start + wire_columns_rows(v.columns, i as int),
        decreases cr.row_count - i,
    {
        let p = wire_row_cells(&cr.columns, i);
        append_msg(&mut out, MSG_ROW, &p);
        assert(out@ =~= start + wire_columns_rows(v.columns, i + 1));
        i += 1;
    }
    put_done(&mut out, cr.row_count);
    out
}

fn wire_row_cells(columns: &Vec<ColumnArray>, i: usize) -> (p: Vec<u8>)
    requires
        forall|c: int|
            0 <= c < columns.len() ==> i < (#[trigger] columns@[c]).deep_view().cells.len(),
    ensures
        p@ == wire_cells(columns.deep_view(), i as int, columns.len() as int),
{
    let ghost cv = columns.deep_view();
    let mut p: Vec<u8> = Vec::new();
    let mut c: usize = 0;
    assert(p@ =~= wire_cells(cv, i as int, 0));
    while c < columns.len()
        invariant
            0 <= c <= columns.len(),
            cv == columns.deep_view(),
            forall|k: int|
                0 <= k < columns.len() ==> i < (#[trigger] columns@[k]).deep_view().cells.len(),
            p@ == wire_cells(cv, i as int, c as int),
        decreases columns.len() - c,
    {
        assert(cv[c as int] == columns@[c as int].deep_view());
        put_wire(&mut p, &columns[c].get(i));
        c += 1;
    }
    p
}

} // verus!
