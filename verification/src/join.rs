//! Joins of materialized rows.
use crate::float;
use crate::aggregate::RowView;
use crate::ast::{BinaryOperator, Expr, JoinType};
use crate::bytes::{complement, same_bytes, word_i64};
use crate::common::{dummy_rid, no_rid, RID};
use crate::dates::div_floor;
use crate::error::{outcome, ErrorView, Result};
use crate::eval::{eval_bool, eval_to_bool};
use crate::float::{float_as_i64, float_of_int, float_order, nan};
use crate::grouping::{all_places, every_place, within};
use crate::host::{Host, HostView};
use crate::order::Order;
use crate::schema::{name_from, Column, ColumnView, Schema};
use crate::storage::copy_bytes;
use crate::text::{chars_of, code, ends, ends_with, lower_text, same_text};
use crate::types::{clone_row, Value, ValueView};
use vstd::prelude::*;

verus! {

// ---------------------------------------------------------------------------
// Schemas
// ---------------------------------------------------------------------------

/// A column of a join result: the left side keeps whether NULL is allowed, the right side
/// always allows it. Defaults and constraints are dropped.
pub open spec fn joined_column(c: ColumnView, id: int, right: bool) -> ColumnView {
    ColumnView {
        name: c.name,
        data_type: c.data_type,
        nullable: right || c.nullable,
        column_id: id as u16,
        auto_increment: false,
        default_value: None,
        is_primary_key: false,
        is_unique: false,
        check: None,
        fk_ref: None,
    }
}

/// The columns of a join result: those of the left side, then those of the right side.
pub open spec fn joined_columns(left: Seq<ColumnView>, right: Seq<ColumnView>) -> Seq<ColumnView> {
    Seq::new(
        left.len() + right.len(),
        |i: int|
            if i < left.len() {
                joined_column(left[i], i, false)
            } else {
                joined_column(right[i - left.len()], i, true)
            },
    )
}

fn join_column(c: &Column, id: usize, right: bool) -> (r: Column)
    ensures
        r.deep_view() == joined_column(c.deep_view(), id as int, right),
{
    let none: Option<Value> = None;
    let no_ref: Option<(String, String, u8)> = None;
    let col = Column {
        name: c.name.clone(),
        data_type: c.data_type,
        nullable: right || c.nullable,
        column_id: id as u16,
        auto_increment: false,
        default_value: none,
        is_primary_key: false,
        is_unique: false,
        check_expr: None,
        fk_ref: no_ref,
    };
    col
}

/// The schema of a join result.
pub fn build_combined_schema_pub(left: &Schema, right: &Schema) -> (r: Schema)
    ensures
        r.deep_view() == joined_columns(left.deep_view(), right.deep_view()),
        r.names() == left.names() + right.names(),
{
    let ghost all = joined_columns(left.deep_view(), right.deep_view());
    let n = left.columns.len();
    let mut cols: Vec<Column> = Vec::new();
    let mut i: usize = 0;
    while i < n
        invariant
            0 <= i <= n,
            n == left.columns.len(),
            all == joined_columns(left.deep_view(), right.deep_view()),
            cols.len() == i,
            cols.deep_view() == all.take(i as int),
        decreases n - i,
    {
        let ghost before = cols.deep_view();
        let c = join_column(&left.columns[i], i, false);
        let ghost cv = c.deep_view();
        cols.push(c);
        assert(cols.deep_view() =~= before.push(cv));
        assert(all.take(i + 1) =~= before.push(all[i as int]));
        i += 1;
    }
    let mut j: usize = 0;
    while j < right.columns.len()
        invariant
            0 <= j <= right.columns.len(),
            n == left.columns.len(),
            all == joined_columns(left.deep_view(), right.deep_view()),
            cols.len() == n + j,
            cols.deep_view() == all.take(n + j),
        decreases right.columns.len() - j,
    {
        let ghost before = cols.deep_view();
        let id: usize = cols.len();
        let c = join_column(&right.columns[j], id, true);
        let ghost cv = c.deep_view();
        cols.push(c);
        assert(cols.deep_view() =~= before.push(cv));
        assert(all.take(n + j + 1) =~= before.push(all[n + j]));
        j += 1;
    }
    let s = Schema { columns: cols };
    assert(all.take(all.len() as int) =~= all);
    proof {
        assert forall|k: int| 0 <= k < all.len() implies #[trigger] s.names()[k] == (left.names()
            + right.names())[k] by {
            assert(cols.deep_view()[k].name == cols@[k].name@);
            if k < left.columns.len() {
                assert(left.deep_view()[k].name == left.columns@[k].name@);
            } else {
                assert(right.deep_view()[k - n].name == right.columns@[k - n].name@);
            }
        }
        assert(s.names() =~= left.names() + right.names());
    }
    s
}

// ---------------------------------------------------------------------------
// Keys
// ---------------------------------------------------------------------------

/// The first column, from `i` on, whose lowercase name ends with a suffix.
pub open spec fn ending_from(names: Seq<Seq<char>>, suffix: Seq<char>, i: int) -> Option<int>
    decreases names.len() - i,
{
    if i < 0 || i >= names.len() {
        None
    } else if ends(lower_text(names[i]), suffix) {
        Some(i)
    } else {
        ending_from(names, suffix, i + 1)
    }
}

/// The column of one side of a join that an expression refers to: by its qualified name, else
/// by its bare name, else by the end of its name.
pub open spec fn key_column(e: Expr, names: Seq<Seq<char>>) -> Option<int> {
    match e {
        Expr::ColumnRef { table, column } => {
            let qualified = match table {
                Some(t) => name_from(names, t@ + seq!['.'] + column@, 0),
                None => None,
            };
            match qualified {
                Some(i) => Some(i),
                None => match name_from(names, column@, 0) {
                    Some(i) => Some(i),
                    None => ending_from(names, seq!['.'] + lower_text(column@), 0),
                },
            }
        },
        _ => None,
    }
}

/// The key columns of a join whose condition is that a column of one side equals a column of
/// the other.
pub open spec fn equi_keys(on: Expr, left: Seq<Seq<char>>, right: Seq<Seq<char>>) -> Option<
    (int, int),
> {
    match on {
        Expr::BinaryOp { left: a, op, right: b } => if op == BinaryOperator::Eq {
            match (key_column(*a, left), key_column(*b, right)) {
                (Some(l), Some(r)) => Some((l, r)),
                _ => match (key_column(*b, left), key_column(*a, right)) {
                    (Some(l), Some(r)) => Some((l, r)),
                    _ => None,
                },
            }
        } else {
            None
        },
        _ => None,
    }
}

fn extract_column_index(expr: &Expr, schema: &Schema) -> (r: Option<usize>)
    ensures
        r is Some == key_column(*expr, schema.names()) is Some,
        r is Some ==> key_column(*expr, schema.names()) == Some(r->0 as int) && r->0
            < schema.columns.len(),
{
    match expr {
        Expr::ColumnRef { table, column } => {
            if let Some(t) = table {
                let mut q = t.clone();
                q.push('.');
                q.append(column.as_str());
                assert(q@ =~= t@ + seq!['.'] + column@);
                if let Some(i) = schema.get_column(q.as_str()) {
                    return Some(i);
                }
            }
            if let Some(i) = schema.get_column(column.as_str()) {
                return Some(i);
            }
            let mut suffix = String::new();
            suffix.push('.');
            let low = column.as_str().to_lowercase();
            suffix.append(low.as_str());
            assert(suffix@ =~= seq!['.'] + lower_text(column@));
            let ghost names = schema.names();
            let mut i: usize = 0;
            while i < schema.columns.len()
                invariant
                    0 <= i <= schema.columns.len(),
                    names == schema.names(),
                    key_column(*expr, names) == ending_from(names, suffix@, 0),
                    ending_from(names, suffix@, 0) == ending_from(names, suffix@, i as int),
                decreases schema.columns.len() - i,
            {
                if ends_with(
                    schema.columns[i].name.as_str().to_lowercase().as_str(),
                    suffix.as_str(),
                ) {
                    return Some(i);
                }
                i += 1;
            }
            None
        },
        _ => None,
    }
}

/// The key columns of an equi-join, if the condition is one.
pub fn extract_equi_join_keys(on: &Expr, left: &Schema, right: &Schema) -> (r: Option<
    (usize, usize),
>)
    ensures
        r is Some == equi_keys(*on, left.names(), right.names()) is Some,
        r is Some ==> equi_keys(*on, left.names(), right.names()) == Some(
            ((r->0).0 as int, (r->0).1 as int),
        ) && (r->0).0 < left.columns.len() && (r->0).1 < right.columns.len(),
{
    match on {
        Expr::BinaryOp { left: a, op: BinaryOperator::Eq, right: b } => {
            if let (Some(l), Some(r)) = (
                extract_column_index(a, left),
                extract_column_index(b, right),
            ) {
                return Some((l, r));
            }
            if let (Some(l), Some(r)) = (
                extract_column_index(b, left),
                extract_column_index(a, right),
            ) {
                return Some((l, r));
            }
            None
        },
        _ => None,
    }
}

/// A key by which rows are matched. Numbers that are whole have the same key, whatever their
/// type.
#[derive(Debug)]
pub enum HashKey {
    BigInt(i64),
    Float(u64),
    Decimal(i64, u8),
    Str(String),
    DateTime(i64),
    Date(i32),
    Time(i32),
    Binary(Vec<u8>),
    Json(String),
    Uuid(String),
    Null,
}

/// [`HashKey`] with its texts and bytes as sequences.
pub enum KeyView {
    BigInt(i64),
    Float(u64),
    Decimal(i64, u8),
    Str(Seq<char>),
    DateTime(i64),
    Date(i32),
    Time(i32),
    Binary(Seq<u8>),
    Json(Seq<char>),
    Uuid(Seq<char>),
    Null,
}

impl DeepView for HashKey {
    type V = KeyView;

    open spec fn deep_view(&self) -> KeyView {
        match *self {
            HashKey::BigInt(n) => KeyView::BigInt(n),
            HashKey::Float(f) => KeyView::Float(f),
            HashKey::Decimal(n, s) => KeyView::Decimal(n, s),
            HashKey::Str(s) => KeyView::Str(s@),
            HashKey::DateTime(t) => KeyView::DateTime(t),
            HashKey::Date(d) => KeyView::Date(d),
            HashKey::Time(t) => KeyView::Time(t),
            HashKey::Binary(b) => KeyView::Binary(b@),
            HashKey::Json(s) => KeyView::Json(s@),
            HashKey::Uuid(s) => KeyView::Uuid(s@),
            HashKey::Null => KeyView::Null,
        }
    }
}

/// The key of a decimal: zeros at the end of its fraction do not count.
pub open spec fn decimal_key(n: i64, s: u8) -> KeyView
    decreases s,
{
    if s == 0 {
        KeyView::BigInt(n)
    } else if n as int % 10 == 0 {
        decimal_key((n as int / 10) as i64, (s - 1) as u8)
    } else {
        KeyView::Decimal(n, s)
    }
}

/// The key of a double: that of a whole number, if it is one. What is not a number has none.
pub open spec fn float_join_key(f: u64) -> KeyView {
    if nan(f) {
        KeyView::Null
    } else if float_order(f, float_of_int(float_as_i64(f)) as u64) == Some(Order::Equal) {
        KeyView::BigInt(float_as_i64(f) as i64)
    } else {
        KeyView::Float(f)
    }
}

/// The key of a value. Values with the same key are equal; NULL has none.
pub open spec fn join_key(v: ValueView) -> KeyView {
    match v {
        ValueView::Integer(n) => KeyView::BigInt(n as i64),
        ValueView::BigInt(n) => KeyView::BigInt(n),
        ValueView::Float(f) => float_join_key(f),
        ValueView::Varchar(s) => KeyView::Str(s),
        ValueView::Boolean(b) => KeyView::BigInt(
            if b {
                1
            } else {
                0
            },
        ),
        ValueView::DateTime(t) => KeyView::DateTime(t),
        ValueView::Decimal(n, s) => decimal_key(n, s),
        ValueView::Date(d) => KeyView::Date(d),
        ValueView::Time(t) => KeyView::Time(t),
        ValueView::Binary(b) => KeyView::Binary(b),
        ValueView::Json(s) => KeyView::Json(s),
        ValueView::Uuid(s) => KeyView::Uuid(s),
        ValueView::Null => KeyView::Null,
    }
}

fn key_of_decimal(num: i64, scale: u8) -> (r: HashKey)
    ensures
        r.deep_view() == decimal_key(num, scale),
{
    let mut n: i64 = num;
    let mut s: u8 = scale;
    while s > 0
        invariant
            decimal_key(num, scale) == decimal_key(n, s),
        decreases s,
    {
        let q: i64 = div_floor(n, 10);
        if n as i128 - q as i128 * 10 != 0 {
            return HashKey::Decimal(n, s);
        }
        n = q;
        s = s - 1;
    }
    HashKey::BigInt(n)
}

fn key_of_float(f: u64) -> (r: HashKey)
    ensures
        r.deep_view() == float_join_key(f),
{
    let n: i64 = float::as_i64(f);
    if float::order(f, f).is_none() {
        return HashKey::Null;
    }
    match float::order(f, float::of_i64(n)) {
        Some(Order::Equal) => HashKey::BigInt(n),
        _ => HashKey::Float(f),
    }
}

impl HashKey {
    /// The key of a value.
    pub fn from_value(v: &Value) -> (r: HashKey)
        ensures
            r.deep_view() == join_key(v@),
    {
        match v {
            Value::Integer(n) => HashKey::BigInt(*n as i64),
            Value::BigInt(n) => HashKey::BigInt(*n),
            Value::Float(f) => key_of_float(*f),
            Value::Varchar(s) => HashKey::Str(s.clone()),
            Value::Boolean(b) => HashKey::BigInt(
                if *b {
                    1
                } else {
                    0
                },
            ),
            Value::DateTime(t) => HashKey::DateTime(*t),
            Value::Decimal(n, s) => key_of_decimal(*n, *s),
            Value::Date(d) => HashKey::Date(*d),
            Value::Time(t) => HashKey::Time(*t),
            Value::Binary(b) => {
                let c = copy_bytes(b.as_slice());
                assert(c@ == b@);
                HashKey::Binary(c)
            },
            Value::Json(s) => HashKey::Json(s.clone()),
            Value::Uuid(s) => HashKey::Uuid(s.clone()),
            Value::Null => HashKey::Null,
        }
    }

    fn same(&self, other: &HashKey) -> (r: bool)
        ensures
            r == (self.deep_view() == other.deep_view()),
    {
        match (self, other) {
            (HashKey::BigInt(a), HashKey::BigInt(b)) => *a == *b,
            (HashKey::Float(a), HashKey::Float(b)) => *a == *b,
            (HashKey::Decimal(a, s), HashKey::Decimal(b, t)) => *a == *b && *s == *t,
            (HashKey::Str(a), HashKey::Str(b)) => same_text(a.as_str(), b.as_str()),
            (HashKey::DateTime(a), HashKey::DateTime(b)) => *a == *b,
            (HashKey::Date(a), HashKey::Date(b)) => *a == *b,
            (HashKey::Time(a), HashKey::Time(b)) => *a == *b,
            (HashKey::Binary(a), HashKey::Binary(b)) => same_bytes(a, b),
            (HashKey::Json(a), HashKey::Json(b)) => same_text(a.as_str(), b.as_str()),
            (HashKey::Uuid(a), HashKey::Uuid(b)) => same_text(a.as_str(), b.as_str()),
            (HashKey::Null, HashKey::Null) => true,
            _ => false,
        }
    }

    fn is_none(&self) -> (r: bool)
        ensures
            r == (self.deep_view() is Null),
    {
        match self {
            HashKey::Null => true,
            _ => false,
        }
    }
}

/// The number by which keys are distributed over buckets.
pub open spec fn key_hash(k: KeyView) -> u64 {
    match k {
        KeyView::BigInt(n) => complement(n as int, 8) as u64,
        KeyView::Float(f) => f,
        KeyView::Decimal(n, _) => complement(n as int, 8) as u64,
        KeyView::Str(s) => text_hash(s),
        KeyView::DateTime(t) => complement(t as int, 8) as u64,
        KeyView::Date(d) => complement(d as int, 8) as u64,
        KeyView::Time(t) => complement(t as int, 8) as u64,
        KeyView::Binary(b) => b.len() as u64,
        KeyView::Json(s) => text_hash(s),
        KeyView::Uuid(s) => text_hash(s),
        KeyView::Null => 0,
    }
}

/// The hash of a text: its character codes, mixed in one after the other.
pub open spec fn text_hash(s: Seq<char>) -> u64
    decreases s.len(),
{
    if s.len() == 0 {
        0xcbf2_9ce4_8422_2325
    } else {
        hash_step(text_hash(s.drop_last()), s.last() as u64)
    }
}

/// One number mixed into a hash.
pub open spec fn hash_step(h: u64, x: u64) -> u64 {
    (((h ^ x) as int * 0x100_0000_01b3) % 0x1_0000_0000_0000_0000) as u64
}

/// Mixes one number into a hash.
pub fn step_hash(h: u64, x: u64) -> (r: u64)
    ensures
        r == hash_step(h, x),
{
    let y: u64 = h ^ x;
    let p: u128 = y as u128 * 0x100_0000_01b3u128;
    (p % 0x1_0000_0000_0000_0000) as u64
}

fn hash_text(s: &str) -> (r: u64)
    ensures
        r == text_hash(s@),
{
    let c = chars_of(s);
    let mut h: u64 = 0xcbf2_9ce4_8422_2325;
    let mut i: usize = 0;
    assert(s@.take(0).len() == 0);
    while i < c.len()
        invariant
            0 <= i <= c.len(),
            c@ == s@,
            h == text_hash(s@.take(i as int)),
        decreases c.len() - i,
    {
        assert(s@.take(i + 1).drop_last() =~= s@.take(i as int));
        h = step_hash(h, code(c[i]) as u64);
        i += 1;
    }
    assert(s@.take(c.len() as int) =~= s@);
    h
}

fn hash_of(k: &HashKey) -> (r: u64)
    ensures
        r == key_hash(k.deep_view()),
{
    match k {
        HashKey::BigInt(n) => word_i64(*n),
        HashKey::Float(f) => *f,
        HashKey::Decimal(n, _) => word_i64(*n),
        HashKey::Str(s) => hash_text(s.as_str()),
        HashKey::DateTime(t) => word_i64(*t),
        HashKey::Date(d) => word_i64(*d as i64),
        HashKey::Time(t) => word_i64(*t as i64),
        HashKey::Binary(b) => b.len() as u64,
        HashKey::Json(s) => hash_text(s.as_str()),
        HashKey::Uuid(s) => hash_text(s.as_str()),
        HashKey::Null => 0,
    }
}

/// The key of a row in a column; none, where the row has no such column, or NULL in it.
pub open spec fn row_join_key(row: Seq<ValueView>, k: int) -> Option<KeyView> {
    if 0 <= k < row.len() && !(join_key(row[k]) is Null) {
        Some(join_key(row[k]))
    } else {
        None
    }
}

/// The keys of rows in a column.
pub open spec fn join_keys(rows: Seq<RowView>, k: int) -> Seq<Option<KeyView>> {
    Seq::new(rows.len(), |i: int| row_join_key(rows[i].1, k))
}

/// The places from which a key can be met, below `n`, in order.
pub open spec fn matches_below(keys: Seq<Option<KeyView>>, key: Option<KeyView>, n: int) -> Seq<
    usize,
>
    decreases n,
{
    if n <= 0 {
        Seq::empty()
    } else {
        let m = matches_below(keys, key, n - 1);
        if key is Some && keys[n - 1] == key {
            m.push((n - 1) as usize)
        } else {
            m
        }
    }
}

/// The places at which a key stands among keys, in order.
pub open spec fn match_places(keys: Seq<Option<KeyView>>, key: Option<KeyView>) -> Seq<usize> {
    matches_below(keys, key, keys.len() as int)
}

/// The places below `n` whose keys fall into bucket `b` of `count`, in order.
pub open spec fn bucket_below(keys: Seq<Option<KeyView>>, count: int, b: int, n: int) -> Seq<usize>
    decreases n,
{
    if n <= 0 {
        Seq::empty()
    } else {
        let m = bucket_below(keys, count, b, n - 1);
        if keys[n - 1] matches Some(k) && key_hash(k) as int % count == b {
            m.push((n - 1) as usize)
        } else {
            m
        }
    }
}

/// The places of a list at which a key stands.
pub open spec fn keyed(keys: Seq<Option<KeyView>>, key: KeyView, list: Seq<usize>) -> Seq<usize>
    decreases list.len(),
{
    if list.len() == 0 {
        Seq::empty()
    } else {
        let m = keyed(keys, key, list.drop_last());
        if keys[list.last() as int] == Some(key) {
            m.push(list.last())
        } else {
            m
        }
    }
}

/// The bucket of a key holds all its places, in order.
proof fn lemma_bucket_matches(keys: Seq<Option<KeyView>>, count: int, key: KeyView, n: int)
    requires
        0 <= n <= keys.len(),
        n <= usize::MAX,
    ensures
        keyed(keys, key, bucket_below(keys, count, key_hash(key) as int % count, n))
            == matches_below(keys, Some(key), n),
    decreases n,
{
    if n > 0 {
        let b = key_hash(key) as int % count;
        lemma_bucket_matches(keys, count, key, n - 1);
        let m = bucket_below(keys, count, b, n - 1);
        let full = bucket_below(keys, count, b, n);
        if keys[n - 1] matches Some(k) && key_hash(k) as int % count == b {
            assert(full.drop_last() =~= m);
            assert(full.last() == (n - 1) as usize);
        }
    }
}

proof fn lemma_bucket_within(keys: Seq<Option<KeyView>>, count: int, b: int, n: int)
    requires
        0 <= n <= keys.len(),
        n <= usize::MAX,
    ensures
        within(bucket_below(keys, count, b, n), n),
    decreases n,
{
    if n > 0 {
        lemma_bucket_within(keys, count, b, n - 1);
        let m = bucket_below(keys, count, b, n - 1);
        let full = bucket_below(keys, count, b, n);
        assert forall|k: int| 0 <= k < full.len() implies #[trigger] full[k] < n by {
            if k < m.len() {
                assert(full[k] == m[k]);
            }
        }
    }
}

pub proof fn lemma_matches_within(keys: Seq<Option<KeyView>>, key: Option<KeyView>, n: int)
    requires
        0 <= n <= keys.len(),
        n <= usize::MAX,
    ensures
        within(matches_below(keys, key, n), n),
    decreases n,
{
    if n > 0 {
        lemma_matches_within(keys, key, n - 1);
        let m = matches_below(keys, key, n - 1);
        let full = matches_below(keys, key, n);
        assert forall|k: int| 0 <= k < full.len() implies #[trigger] full[k] < n by {
            if k < m.len() {
                assert(full[k] == m[k]);
            }
        }
    }
}

fn collect_keys(rows: &[(RID, Vec<Value>)], k: usize) -> (r: Vec<Option<HashKey>>)
    ensures
        r.deep_view() == join_keys(rows.deep_view(), k as int),
{
    let ghost all = join_keys(rows.deep_view(), k as int);
    let mut out: Vec<Option<HashKey>> = Vec::new();
    let mut i: usize = 0;
    while i < rows.len()
        invariant
            0 <= i <= rows.len(),
            all == join_keys(rows.deep_view(), k as int),
            out.deep_view() == all.take(i as int),
        decreases rows.len() - i,
    {
        let row = &rows[i].1;
        assert(rows.deep_view()[i as int].1 == row.deep_view());
        let key: Option<HashKey> = if k < row.len() {
            let own = HashKey::from_value(&row[k]);
            if own.is_none() {
                None
            } else {
                Some(own)
            }
        } else {
            None
        };
        let ghost before = out.deep_view();
        let ghost kv = key.deep_view();
        out.push(key);
        assert(out.deep_view() =~= before.push(kv));
        assert(all.take(i + 1) =~= before.push(all[i as int]));
        i += 1;
    }
    assert(all.take(rows.len() as int) =~= all);
    out
}

/// Buckets of the places of keys, by hash.
pub struct KeyIndex {
    buckets: Vec<Vec<usize>>,
}

impl KeyIndex {
    /// Whether the buckets hold the first `n` places of the keys.
    pub closed spec fn of(self, keys: Seq<Option<KeyView>>, n: int) -> bool {
        &&& self.buckets.len() > 0
        &&& forall|b: int|
            0 <= b < self.buckets.len() ==> (#[trigger] self.buckets@[b])@ == bucket_below(
                keys,
                self.buckets.len() as int,
                b,
                n,
            )
    }

    /// The places of keys.
    pub fn build(keys: &Vec<Option<HashKey>>) -> (r: KeyIndex)
        ensures
            r.of(keys.deep_view(), keys.len() as int),
    {
        let ghost kv = keys.deep_view();
        let count: usize = if keys.len() < 64 {
            64
        } else {
            keys.len()
        };
        let mut buckets: Vec<Vec<usize>> = Vec::new();
        let mut b: usize = 0;
        while b < count
            invariant
                0 <= b <= count,
                buckets.len() == b,
                forall|i: int| 0 <= i < b ==> (#[trigger] buckets@[i])@ =~= Seq::<usize>::empty(),
            decreases count - b,
        {
            buckets.push(Vec::new());
            b += 1;
        }
        let mut idx = KeyIndex { buckets };
        let mut i: usize = 0;
        while i < keys.len()
            invariant
                0 <= i <= keys.len(),
                count >= 64,
                idx.buckets.len() == count,
                kv == keys.deep_view(),
                idx.of(kv, i as int),
            decreases keys.len() - i,
        {
            assert(kv[i as int] == keys@[i as int].deep_view());
            if let Some(k) = &keys[i] {
                let h: u64 = hash_of(k);
                let b: usize = (h % (count as u64)) as usize;
                let ghost old_b = idx.buckets@;
                let mut list: Vec<usize> = Vec::new();
                core::mem::swap(&mut list, &mut idx.buckets[b]);
                list.push(i);
                idx.buckets.set(b, list);
                assert(idx.of(kv, i + 1)) by {
                    assert forall|x: int| 0 <= x < idx.buckets.len() implies (
                    #[trigger] idx.buckets@[x])@ == bucket_below(kv, count as int, x, i + 1) by {
                        assert(old_b[x]@ == bucket_below(kv, count as int, x, i as int));
                        if x != b {
                            assert(idx.buckets@[x] == old_b[x]);
                        }
                    }
                }
            } else {
                assert(idx.of(kv, i + 1)) by {
                    assert forall|x: int| 0 <= x < idx.buckets.len() implies (
                    #[trigger] idx.buckets@[x])@ == bucket_below(kv, count as int, x, i + 1) by {
                        assert(bucket_below(kv, count as int, x, i + 1) == bucket_below(
                            kv,
                            count as int,
                            x,
                            i as int,
                        ));
                    }
                }
            }
            i += 1;
        }
        idx
    }

    /// The places at which a key stands, in order.
    pub fn lookup(&self, keys: &Vec<Option<HashKey>>, key: &Option<HashKey>) -> (r: Vec<usize>)
        requires
            self.of(keys.deep_view(), keys.len() as int),
        ensures
            r@ == match_places(keys.deep_view(), key.deep_view()),
            within(r@, keys.len() as int),
    {
        let ghost kv = keys.deep_view();
        let mut out: Vec<usize> = Vec::new();
        match key {
            None => {
                proof {
                    lemma_no_key(kv, kv.len() as int);
                }
                out
            },
            Some(k) => {
                let ghost key_v = k.deep_view();
                let count: usize = self.buckets.len();
                let b: usize = (hash_of(k) % (count as u64)) as usize;
                let list = &self.buckets[b];
                proof {
                    lemma_bucket_matches(kv, count as int, key_v, kv.len() as int);
                    lemma_bucket_within(kv, count as int, b as int, kv.len() as int);
                    assert(list@.take(0).len() == 0);
                }
                let mut i: usize = 0;
                while i < list.len()
                    invariant
                        0 <= i <= list.len(),
                        kv == keys.deep_view(),
                        key_v == k.deep_view(),
                        within(list@, keys.len() as int),
                        out@ == keyed(kv, key_v, list@.take(i as int)),
                        within(out@, keys.len() as int),
                    decreases list.len() - i,
                {
                    let p: usize = list[i];
                    proof {
                        assert(list@.take(i + 1).drop_last() =~= list@.take(i as int));
                        assert(list@.take(i + 1).last() == p);
                        assert(kv[p as int] == keys@[p as int].deep_view());
                    }
                    if let Some(other) = &keys[p] {
                        if other.same(k) {
                            out.push(p);
                        }
                    }
                    i += 1;
                }
                assert(list@.take(list.len() as int) =~= list@);
                out
            },
        }
    }
}

proof fn lemma_no_key(keys: Seq<Option<KeyView>>, n: int)
    ensures
        matches_below(keys, None, n) == Seq::<usize>::empty(),
    decreases n,
{
    if n > 0 {
        lemma_no_key(keys, n - 1);
    }
}

// ---------------------------------------------------------------------------
// Which rows meet
// ---------------------------------------------------------------------------

/// For each outer row, the places of the inner rows it meets.
pub type Meetings = Seq<Seq<usize>>;

/// The meetings of outer and inner rows with equal keys. An outer row that has no key meets
/// nothing.
pub open spec fn key_meetings(outer: Seq<Option<KeyView>>, inner: Seq<Option<KeyView>>) -> Meetings {
    Seq::new(outer.len(), |o: int| match_places(inner, outer[o]))
}

/// A left row and a right row put together.
pub open spec fn pair(
    left: Seq<RowView>,
    right: Seq<RowView>,
    o: int,
    i: int,
    outer_left: bool,
) -> Seq<ValueView> {
    if outer_left {
        left[o].1 + right[i].1
    } else {
        left[i].1 + right[o].1
    }
}

/// The inner rows from `i` on that outer row `o` meets under a condition, behind `acc`.
pub open spec fn met_from(
    on: Expr,
    left: Seq<RowView>,
    right: Seq<RowView>,
    o: int,
    i: int,
    acc: Seq<usize>,
    outer_left: bool,
    names: Seq<Seq<char>>,
    h: HostView,
) -> std::result::Result<Seq<usize>, ErrorView>
    decreases
            (if outer_left {
                right.len()
            } else {
                left.len()
            }) - i,
{
    let n = if outer_left {
        right.len()
    } else {
        left.len()
    };
    if i < 0 || i >= n {
        Ok(acc)
    } else {
        match eval_bool(on, pair(left, right, o, i, outer_left), names, h) {
            Err(e) => Err(e),
            Ok(b) => met_from(
                on,
                left,
                right,
                o,
                i + 1,
                if b {
                    acc.push(i as usize)
                } else {
                    acc
                },
                outer_left,
                names,
                h,
            ),
        }
    }
}

/// The meetings under a condition of the outer rows from `o` on, behind `acc`.
pub open spec fn condition_meetings(
    on: Expr,
    left: Seq<RowView>,
    right: Seq<RowView>,
    o: int,
    acc: Meetings,
    outer_left: bool,
    names: Seq<Seq<char>>,
    h: HostView,
) -> std::result::Result<Meetings, ErrorView>
    decreases
            (if outer_left {
                left.len()
            } else {
                right.len()
            }) - o,
{
    let n = if outer_left {
        left.len()
    } else {
        right.len()
    };
    if o < 0 || o >= n {
        Ok(acc)
    } else {
        match met_from(on, left, right, o, 0, Seq::empty(), outer_left, names, h) {
            Err(e) => Err(e),
            Ok(m) => condition_meetings(
                on,
                left,
                right,
                o + 1,
                acc.push(m),
                outer_left,
                names,
                h,
            ),
        }
    }
}

/// Every outer row meets every inner row.
pub open spec fn all_meetings(outer: int, inner: int) -> Meetings {
    Seq::new(outer as nat, |o: int| all_places(inner))
}

/// Whether the meetings lie within the inner rows.
pub open spec fn meetings_within(m: Seq<Vec<usize>>, inner: int) -> bool {
    forall|o: int| 0 <= o < m.len() ==> within((#[trigger] m[o])@, inner)
}

fn meet_by_keys(
    outer: &[(RID, Vec<Value>)],
    outer_key: usize,
    inner: &[(RID, Vec<Value>)],
    inner_key: usize,
) -> (r: Vec<Vec<usize>>)
    ensures
        r.deep_view() == key_meetings(
            join_keys(outer.deep_view(), outer_key as int),
            join_keys(inner.deep_view(), inner_key as int),
        ),
        meetings_within(r@, inner@.len() as int),
        r.len() == outer@.len(),
{
    let outer_keys = collect_keys(outer, outer_key);
    let inner_keys = collect_keys(inner, inner_key);
    let ghost ov = outer_keys.deep_view();
    let ghost iv = inner_keys.deep_view();
    let ghost all = key_meetings(ov, iv);
    assert(inner_keys.len() == inner@.len()) by {
        assert(iv.len() == inner_keys.len());
    }
    assert(outer_keys.len() == outer@.len()) by {
        assert(ov.len() == outer_keys.len());
    }
    let index = KeyIndex::build(&inner_keys);
    let mut out: Vec<Vec<usize>> = Vec::new();
    let mut o: usize = 0;
    while o < outer_keys.len()
        invariant
            0 <= o <= outer_keys.len(),
            ov == outer_keys.deep_view(),
            iv == inner_keys.deep_view(),
            all == key_meetings(ov, iv),
            index.of(iv, inner_keys.len() as int),
            inner_keys.len() == inner@.len(),
            out.len() == o,
            out.deep_view() == all.take(o as int),
            meetings_within(out@, inner@.len() as int),
        decreases outer_keys.len() - o,
    {
        assert(ov[o as int] == outer_keys@[o as int].deep_view());
        let list = index.lookup(&inner_keys, &outer_keys[o]);
        let ghost before = out.deep_view();
        let ghost lv = list@;
        assert(list.deep_view() =~= lv);
        out.push(list);
        assert(out.deep_view() =~= before.push(lv));
        assert(all.take(o + 1) =~= before.push(all[o as int]));
        o += 1;
    }
    assert(all.take(outer_keys.len() as int) =~= all);
    out
}

/// Two rows put together.
pub fn concat_rows(l: &Vec<Value>, r: &Vec<Value>) -> (o: Vec<Value>)
    ensures
        o.deep_view() == l.deep_view() + r.deep_view(),
{
    let mut out = clone_row(l.as_slice());
    let mut more = clone_row(r.as_slice());
    let ghost a = out.deep_view();
    let ghost b = more.deep_view();
    out.append(&mut more);
    assert(out.deep_view() =~= a + b);
    out
}

fn meet_by_condition(
    on: &Expr,
    left: &[(RID, Vec<Value>)],
    right: &[(RID, Vec<Value>)],
    outer_left: bool,
    schema: &Schema,
    host: &Host,
) -> (r: Result<Vec<Vec<usize>>>)
    ensures
        outcome(r) == condition_meetings(
            *on,
            left.deep_view(),
            right.deep_view(),
            0,
            Seq::empty(),
            outer_left,
            schema.names(),
            host@,
        ),
        r matches Ok(m) ==> meetings_within(
            m@,
            if outer_left {
                right@.len() as int
            } else {
                left@.len() as int
            },
        ) && m.len() == if outer_left {
            left@.len()
        } else {
            right@.len()
        },
{
    let ghost lv = left.deep_view();
    let ghost rv = right.deep_view();
    let n: usize = if outer_left {
        left.len()
    } else {
        right.len()
    };
    let ghost inner = if outer_left {
        right@.len() as int
    } else {
        left@.len() as int
    };
    let mut out: Vec<Vec<usize>> = Vec::new();
    let mut o: usize = 0;
    assert(out.deep_view() =~= Seq::<Seq<usize>>::empty());
    while o < n
        invariant
            0 <= o <= n,
            n == if outer_left {
                left@.len()
            } else {
                right@.len()
            },
            inner == if outer_left {
                right@.len() as int
            } else {
                left@.len() as int
            },
            lv == left.deep_view(),
            rv == right.deep_view(),
            out.len() == o,
            meetings_within(out@, inner),
            condition_meetings(
                *on,
                lv,
                rv,
                0,
                Seq::empty(),
                outer_left,
                schema.names(),
                host@,
            ) == condition_meetings(
                *on,
                lv,
                rv,
                o as int,
                out.deep_view(),
                outer_left,
                schema.names(),
                host@,
            ),
        decreases n - o,
    {
        let list = meet_one(on, left, right, o, outer_left, schema, host)?;
        let ghost before = out.deep_view();
        let ghost v = list@;
        assert(list.deep_view() =~= v);
        out.push(list);
        assert(out.deep_view() =~= before.push(v));
        o += 1;
    }
    Ok(out)
}

fn meet_one(
    on: &Expr,
    left: &[(RID, Vec<Value>)],
    right: &[(RID, Vec<Value>)],
    o: usize,
    outer_left: bool,
    schema: &Schema,
    host: &Host,
) -> (r: Result<Vec<usize>>)
    requires
        o < if outer_left {
            left@.len()
        } else {
            right@.len()
        },
    ensures
        outcome(r) == met_from(
            *on,
            left.deep_view(),
            right.deep_view(),
            o as int,
            0,
            Seq::empty(),
            outer_left,
            schema.names(),
            host@,
        ),
        r matches Ok(m) ==> within(
            m@,
            if outer_left {
                right@.len() as int
            } else {
                left@.len() as int
            },
        ),
{
    let ghost lv = left.deep_view();
    let ghost rv = right.deep_view();
    let n: usize = if outer_left {
        right.len()
    } else {
        left.len()
    };
    let mut out: Vec<usize> = Vec::new();
    let mut i: usize = 0;
    while i < n
        invariant
            0 <= i <= n,
            n == if outer_left {
                right@.len()
            } else {
                left@.len()
            },
            o < if outer_left {
                left@.len()
            } else {
                right@.len()
            },
            lv == left.deep_view(),
            rv == right.deep_view(),
            within(out@, n as int),
            met_from(
                *on,
                lv,
                rv,
                o as int,
                0,
                Seq::empty(),
                outer_left,
                schema.names(),
                host@,
            ) == met_from(
                *on,
                lv,
                rv,
                o as int,
                i as int,
                out@,
                outer_left,
                schema.names(),
                host@,
            ),
        decreases n - i,
    {
        let row = if outer_left {
            concat_rows(&left[o].1, &right[i].1)
        } else {
            concat_rows(&left[i].1, &right[o].1)
        };
        assert(row.deep_view() == pair(lv, rv, o as int, i as int, outer_left));
        if eval_to_bool(on, row.as_slice(), schema, host)? {
            out.push(i);
        }
        i += 1;
    }
    assert(out.deep_view() =~= out@);
    Ok(out)
}

fn meet_all(outer: usize, inner: usize) -> (r: Vec<Vec<usize>>)
    ensures
        r.deep_view() == all_meetings(outer as int, inner as int),
        meetings_within(r@, inner as int),
        r.len() == outer,
{
    let mut out: Vec<Vec<usize>> = Vec::new();
    let mut o: usize = 0;
    while o < outer
        invariant
            0 <= o <= outer,
            out.len() == o,
            out.deep_view() == all_meetings(o as int, inner as int),
            meetings_within(out@, inner as int),
        decreases outer - o,
    {
        let list = every_place(inner);
        let ghost before = out.deep_view();
        let ghost v = list@;
        assert(list.deep_view() =~= v);
        out.push(list);
        assert(out.deep_view() =~= before.push(v));
        assert(all_meetings(o + 1, inner as int) =~= before.push(v));
        o += 1;
    }
    out
}

// ---------------------------------------------------------------------------
// Result rows
// ---------------------------------------------------------------------------

/// A row of NULLs.
pub open spec fn nulls(n: int) -> Seq<ValueView> {
    Seq::new(n as nat, |i: int| ValueView::Null)
}

fn null_row(n: usize) -> (r: Vec<Value>)
    ensures
        r.deep_view() == nulls(n as int),
{
    let mut out: Vec<Value> = Vec::new();
    let mut i: usize = 0;
    while i < n
        invariant
            0 <= i <= n,
            out.deep_view() == nulls(i as int),
        decreases n - i,
    {
        let ghost before = out.deep_view();
        out.push(Value::Null);
        assert(out.deep_view() =~= before.push(ValueView::Null));
        assert(nulls(i + 1) =~= before.push(ValueView::Null));
        i += 1;
    }
    out
}

/// An outer row beside NULLs for the other side.
pub open spec fn alone(
    left: Seq<RowView>,
    right: Seq<RowView>,
    o: int,
    outer_left: bool,
    width: int,
) -> Seq<ValueView> {
    if outer_left {
        left[o].1 + nulls(width)
    } else {
        nulls(width) + right[o].1
    }
}

/// The rows of outer row `o` with the inner rows it meets, from the `k`-th on, behind `acc`.
pub open spec fn meeting_rows(
    left: Seq<RowView>,
    right: Seq<RowView>,
    o: int,
    met: Seq<usize>,
    k: int,
    acc: Seq<RowView>,
    outer_left: bool,
) -> Seq<RowView>
    decreases met.len() - k,
{
    if k < 0 || k >= met.len() {
        acc
    } else {
        meeting_rows(
            left,
            right,
            o,
            met,
            k + 1,
            acc.push((no_rid(), pair(left, right, o, met[k] as int, outer_left))),
            outer_left,
        )
    }
}

/// The result rows of the outer rows from `o` on, behind `acc`. With `keep`, an outer row that
/// meets nothing appears beside NULLs.
pub open spec fn outer_rows(
    left: Seq<RowView>,
    right: Seq<RowView>,
    m: Meetings,
    o: int,
    acc: Seq<RowView>,
    outer_left: bool,
    keep: bool,
    width: int,
) -> Seq<RowView>
    decreases m.len() - o,
{
    if o < 0 || o >= m.len() {
        acc
    } else if m[o].len() == 0 {
        outer_rows(
            left,
            right,
            m,
            o + 1,
            if keep {
                acc.push((no_rid(), alone(left, right, o, outer_left, width)))
            } else {
                acc
            },
            outer_left,
            keep,
            width,
        )
    } else {
        outer_rows(
            left,
            right,
            m,
            o + 1,
            meeting_rows(left, right, o, m[o], 0, acc, outer_left),
            outer_left,
            keep,
            width,
        )
    }
}

/// Whether an inner row is met by an outer row.
pub open spec fn is_met(m: Meetings, i: int) -> bool {
    exists|o: int| 0 <= o < m.len() && (#[trigger] m[o]).contains(i as usize)
}

/// The right rows from `i` on that no left row meets, beside NULLs, behind `acc`.
pub open spec fn unmet_rows(
    right: Seq<RowView>,
    m: Meetings,
    i: int,
    acc: Seq<RowView>,
    width: int,
) -> Seq<RowView>
    decreases right.len() - i,
{
    if i < 0 || i >= right.len() {
        acc
    } else {
        unmet_rows(
            right,
            m,
            i + 1,
            if is_met(m, i) {
                acc
            } else {
                acc.push((no_rid(), nulls(width) + right[i].1))
            },
            width,
        )
    }
}

fn make_outer_rows(
    left: &[(RID, Vec<Value>)],
    right: &[(RID, Vec<Value>)],
    m: &Vec<Vec<usize>>,
    outer_left: bool,
    keep: bool,
    width: usize,
) -> (r: Vec<(RID, Vec<Value>)>)
    requires
        meetings_within(
            m@,
            if outer_left {
                right@.len() as int
            } else {
                left@.len() as int
            },
        ),
        m.len() <= if outer_left {
            left@.len()
        } else {
            right@.len()
        },
    ensures
        r.deep_view() == outer_rows(
            left.deep_view(),
            right.deep_view(),
            m.deep_view(),
            0,
            Seq::empty(),
            outer_left,
            keep,
            width as int,
        ),
{
    let ghost lv = left.deep_view();
    let ghost rv = right.deep_view();
    let ghost mv = m.deep_view();
    let mut out: Vec<(RID, Vec<Value>)> = Vec::new();
    let mut o: usize = 0;
    assert(out.deep_view() =~= Seq::<RowView>::empty());
    while o < m.len()
        invariant
            0 <= o <= m.len(),
            lv == left.deep_view(),
            rv == right.deep_view(),
            mv == m.deep_view(),
            meetings_within(
                m@,
                if outer_left {
                    right@.len() as int
                } else {
                    left@.len() as int
                },
            ),
            m.len() <= if outer_left {
                left@.len()
            } else {
                right@.len()
            },
            outer_rows(lv, rv, mv, 0, Seq::empty(), outer_left, keep, width as int) == outer_rows(
                lv,
                rv,
                mv,
                o as int,
                out.deep_view(),
                outer_left,
                keep,
                width as int,
            ),
        decreases m.len() - o,
    {
        let met = &m[o];
        assert(mv[o as int] =~= met@);
        if met.len() == 0 {
            if keep {
                let row = if outer_left {
                    concat_rows(&left[o].1, &null_row(width))
                } else {
                    concat_rows(&null_row(width), &right[o].1)
                };
                push_row(&mut out, row);
            }
        } else {
            let ghost start = out.deep_view();
            let mut k: usize = 0;
            while k < met.len()
                invariant
                    0 <= k <= met.len(),
                    lv == left.deep_view(),
                    rv == right.deep_view(),
                    o < if outer_left {
                        left@.len()
                    } else {
                        right@.len()
                    },
                    within(
                        met@,
                        if outer_left {
                            right@.len() as int
                        } else {
                            left@.len() as int
                        },
                    ),
                    meeting_rows(lv, rv, o as int, met@, 0, start, outer_left) == meeting_rows(
                        lv,
                        rv,
                        o as int,
                        met@,
                        k as int,
                        out.deep_view(),
                        outer_left,
                    ),
                decreases met.len() - k,
            {
                let i: usize = met[k];
                let row = if outer_left {
                    concat_rows(&left[o].1, &right[i].1)
                } else {
                    concat_rows(&left[i].1, &right[o].1)
                };
                assert(row.deep_view() == pair(lv, rv, o as int, i as int, outer_left));
                push_row(&mut out, row);
                k += 1;
            }
        }
        o += 1;
    }
    out
}

/// Appends a row that no page holds.
pub fn push_row(out: &mut Vec<(RID, Vec<Value>)>, row: Vec<Value>)
    ensures
        final(out).deep_view() == old(out).deep_view().push((no_rid(), row.deep_view())),
{
    let ghost before = out.deep_view();
    let ghost rv = row.deep_view();
    out.push((dummy_rid(), row));
    assert(out.deep_view() =~= before.push((no_rid(), rv)));
}

fn push_unmet(
    out: &mut Vec<(RID, Vec<Value>)>,
    right: &[(RID, Vec<Value>)],
    m: &Vec<Vec<usize>>,
    width: usize,
)
    requires
        meetings_within(m@, right@.len() as int),
    ensures
        final(out).deep_view() == unmet_rows(
            right.deep_view(),
            m.deep_view(),
            0,
            old(out).deep_view(),
            width as int,
        ),
{
    let met = mark_met(m, right.len());
    let ghost start = out.deep_view();
    let ghost rv = right.deep_view();
    let ghost mv = m.deep_view();
    let mut i: usize = 0;
    while i < right.len()
        invariant
            0 <= i <= right.len(),
            rv == right.deep_view(),
            mv == m.deep_view(),
            met.len() == right@.len(),
            forall|k: int| 0 <= k < met.len() ==> #[trigger] met@[k] == is_met(mv, k),
            unmet_rows(rv, mv, 0, start, width as int) == unmet_rows(
                rv,
                mv,
                i as int,
                out.deep_view(),
                width as int,
            ),
        decreases right.len() - i,
    {
        assert(met@[i as int] == is_met(mv, i as int));
        if !met[i] {
            let row = concat_rows(&null_row(width), &right[i].1);
            push_row(out, row);
        }
        i += 1;
    }
}

fn mark_met(m: &Vec<Vec<usize>>, n: usize) -> (r: Vec<bool>)
    requires
        meetings_within(m@, n as int),
    ensures
        r.len() == n,
        forall|k: int| 0 <= k < n ==> #[trigger] r@[k] == is_met(m.deep_view(), k),
{
    let ghost mv = m.deep_view();
    let mut out: Vec<bool> = Vec::new();
    let mut i: usize = 0;
    while i < n
        invariant
            0 <= i <= n,
            out.len() == i,
            forall|k: int| 0 <= k < i ==> !(#[trigger] out@[k]),
        decreases n - i,
    {
        out.push(false);
        i += 1;
    }
    let mut o: usize = 0;
    while o < m.len()
        invariant
            0 <= o <= m.len(),
            mv == m.deep_view(),
            out.len() == n,
            meetings_within(m@, n as int),
            forall|k: int|
                0 <= k < n ==> (#[trigger] out@[k] == exists|p: int|
                    0 <= p < o && (#[trigger] mv[p]).contains(k as usize)),
        decreases m.len() - o,
    {
        let list = &m[o];
        assert(mv[o as int] =~= list@);
        let ghost before = out@;
        let mut j: usize = 0;
        while j < list.len()
            invariant
                0 <= j <= list.len(),
                out.len() == n,
                before.len() == n,
                within(list@, n as int),
                forall|k: int|
                    0 <= k < n ==> (#[trigger] out@[k] == (before[k] || list@.take(
                        j as int,
                    ).contains(k as usize))),
            decreases list.len() - j,
        {
            let x: usize = list[j];
            let ghost prev = out@;
            out.set(x, true);
            assert forall|k: int| 0 <= k < n implies (#[trigger] out@[k] == (before[k]
                || list@.take(j + 1).contains(k as usize))) by {
                let t = list@.take(j + 1);
                let u = list@.take(j as int);
                assert(t =~= u.push(x));
                if k == x {
                    assert(t[j as int] == x);
                } else {
                    assert(out@[k] == prev[k]);
                    if t.contains(k as usize) {
                        let q = choose|q: int| 0 <= q < t.len() && #[trigger] t[q] == k as usize;
                        assert(u[q] == k as usize);
                    }
                    if u.contains(k as usize) {
                        let q = choose|q: int| 0 <= q < u.len() && #[trigger] u[q] == k as usize;
                        assert(t[q] == k as usize);
                    }
                }
            }
            j += 1;
        }
        assert(list@.take(list.len() as int) =~= list@);
        assert forall|k: int| 0 <= k < n implies (#[trigger] out@[k] == exists|p: int|
            0 <= p < o + 1 && (#[trigger] mv[p]).contains(k as usize)) by {
            assert(out@[k] == (before[k] || mv[o as int].contains(k as usize)));
            if before[k] {
                let p = choose|p: int| 0 <= p < o && (#[trigger] mv[p]).contains(k as usize);
                assert(mv[p].contains(k as usize));
            }
        }
        o += 1;
    }
    out
}

// ---------------------------------------------------------------------------
// Joins
// ---------------------------------------------------------------------------

/// The result rows of a join, given the meetings of its outer rows. The outer rows of a RIGHT
/// join are the right ones, those of an inner join are chosen, and else the left ones.
pub open spec fn join_result(
    left: Seq<RowView>,
    right: Seq<RowView>,
    t: JoinType,
    outer_left: bool,
    m: Meetings,
    lwidth: int,
    rwidth: int,
) -> Seq<RowView> {
    let keep = t == JoinType::Left || t == JoinType::Right || t == JoinType::Full;
    let width = if outer_left {
        rwidth
    } else {
        lwidth
    };
    let rows = outer_rows(left, right, m, 0, Seq::empty(), outer_left, keep, width);
    if t == JoinType::Full {
        unmet_rows(right, m, 0, rows, lwidth)
    } else {
        rows
    }
}

/// The result rows of a join, given the meetings of its outer rows.
pub fn make_join_rows(
    left: &[(RID, Vec<Value>)],
    right: &[(RID, Vec<Value>)],
    t: &JoinType,
    outer_left: bool,
    m: &Vec<Vec<usize>>,
    lwidth: usize,
    rwidth: usize,
) -> (r: Vec<(RID, Vec<Value>)>)
    requires
        meetings_within(
            m@,
            if outer_left {
                right@.len() as int
            } else {
                left@.len() as int
            },
        ),
        m.len() <= if outer_left {
            left@.len()
        } else {
            right@.len()
        },
        *t == JoinType::Full ==> outer_left,
    ensures
        r.deep_view() == join_result(
            left.deep_view(),
            right.deep_view(),
            *t,
            outer_left,
            m.deep_view(),
            lwidth as int,
            rwidth as int,
        ),
{
    let keep: bool = match t {
        JoinType::Left => true,
        JoinType::Right => true,
        JoinType::Full => true,
        _ => false,
    };
    let width: usize = if outer_left {
        rwidth
    } else {
        lwidth
    };
    let mut out = make_outer_rows(left, right, m, outer_left, keep, width);
    if *t == JoinType::Full {
        push_unmet(&mut out, right, m, lwidth);
    }
    out
}

/// A Cartesian product.
pub open spec fn cross_rows(left: Seq<RowView>, right: Seq<RowView>) -> Seq<RowView> {
    join_result(
        left,
        right,
        JoinType::Cross,
        true,
        all_meetings(left.len() as int, right.len() as int),
        0,
        0,
    )
}

/// The rows of a join on an equality of columns.
pub open spec fn equi_rows(
    left: Seq<RowView>,
    right: Seq<RowView>,
    t: JoinType,
    lk: int,
    rk: int,
    lwidth: int,
    rwidth: int,
) -> Seq<RowView> {
    let outer_left = if t == JoinType::Inner {
        right.len() <= left.len()
    } else {
        t != JoinType::Right
    };
    let lkeys = join_keys(left, lk);
    let rkeys = join_keys(right, rk);
    let m = if outer_left {
        key_meetings(lkeys, rkeys)
    } else {
        key_meetings(rkeys, lkeys)
    };
    join_result(left, right, t, outer_left, m, lwidth, rwidth)
}

/// The rows of a join under a condition.
pub open spec fn condition_rows(
    left: Seq<RowView>,
    right: Seq<RowView>,
    t: JoinType,
    on: Expr,
    lnames: Seq<Seq<char>>,
    rnames: Seq<Seq<char>>,
    h: HostView,
) -> std::result::Result<Seq<RowView>, ErrorView> {
    let outer_left = t != JoinType::Right;
    match condition_meetings(
        on,
        left,
        right,
        0,
        Seq::empty(),
        outer_left,
        lnames + rnames,
        h,
    ) {
        Err(e) => Err(e),
        Ok(m) => Ok(
            join_result(left, right, t, outer_left, m, lnames.len() as int, rnames.len() as int),
        ),
    }
}

/// The rows of a join: a Cartesian product for CROSS, else by keys where the condition is an
/// equality of columns, else by the condition.
pub open spec fn hash_join_rows(
    left: Seq<RowView>,
    right: Seq<RowView>,
    t: JoinType,
    on: Expr,
    lnames: Seq<Seq<char>>,
    rnames: Seq<Seq<char>>,
    h: HostView,
) -> std::result::Result<Seq<RowView>, ErrorView> {
    if t == JoinType::Cross {
        Ok(cross_rows(left, right))
    } else {
        match equi_keys(on, lnames, rnames) {
            Some(k) => Ok(
                equi_rows(
                    left,
                    right,
                    t,
                    k.0,
                    k.1,
                    lnames.len() as int,
                    rnames.len() as int,
                ),
            ),
            None => condition_rows(left, right, t, on, lnames, rnames, h),
        }
    }
}

/// Rows together with the columns of a join result.
pub open spec fn with_columns(
    left: Seq<ColumnView>,
    right: Seq<ColumnView>,
    rows: std::result::Result<Seq<RowView>, ErrorView>,
) -> std::result::Result<(Seq<ColumnView>, Seq<RowView>), ErrorView> {
    match rows {
        Err(e) => Err(e),
        Ok(r) => Ok((joined_columns(left, right), r)),
    }
}

fn cross_join(left: &[(RID, Vec<Value>)], right: &[(RID, Vec<Value>)]) -> (r: Vec<
    (RID, Vec<Value>),
>)
    ensures
        r.deep_view() == cross_rows(left.deep_view(), right.deep_view()),
{
    let m = meet_all(left.len(), right.len());
    make_join_rows(left, right, &JoinType::Cross, true, &m, 0, 0)
}

fn equi_join(
    left: &[(RID, Vec<Value>)],
    right: &[(RID, Vec<Value>)],
    t: &JoinType,
    lk: usize,
    rk: usize,
    lwidth: usize,
    rwidth: usize,
) -> (r: Vec<(RID, Vec<Value>)>)
    ensures
        r.deep_view() == equi_rows(
            left.deep_view(),
            right.deep_view(),
            *t,
            lk as int,
            rk as int,
            lwidth as int,
            rwidth as int,
        ),
{
    let inner: bool = *t == JoinType::Inner;
    let outer_left: bool = if inner {
        right.len() <= left.len()
    } else {
        *t != JoinType::Right
    };
    if outer_left {
        let m = meet_by_keys(left, lk, right, rk);
        make_join_rows(left, right, t, true, &m, lwidth, rwidth)
    } else {
        let m = meet_by_keys(right, rk, left, lk);
        make_join_rows(left, right, t, false, &m, lwidth, rwidth)
    }
}

/// Execute a nested-loop join between left and right row sets.
pub fn execute_nested_loop_join(
    left_rows: &[(RID, Vec<Value>)],
    right_rows: &[(RID, Vec<Value>)],
    join_type: &JoinType,
    on: &Expr,
    left_schema: &Schema,
    right_schema: &Schema,
    host: &Host,
) -> (r: Result<(Schema, Vec<(RID, Vec<Value>)>)>)
    ensures
        outcome(r) == with_columns(
            left_schema.deep_view(),
            right_schema.deep_view(),
            condition_rows(
                left_rows.deep_view(),
                right_rows.deep_view(),
                *join_type,
                *on,
                left_schema.names(),
                right_schema.names(),
                host@,
            ),
        ),
{
    let schema = build_combined_schema_pub(left_schema, right_schema);
    let outer_left: bool = *join_type != JoinType::Right;
    let m = meet_by_condition(on, left_rows, right_rows, outer_left, &schema, host)?;
    let rows = make_join_rows(
        left_rows,
        right_rows,
        join_type,
        outer_left,
        &m,
        left_schema.columns.len(),
        right_schema.columns.len(),
    );
    Ok((schema, rows))
}

/// Execute a hash join for equi-join conditions.
/// Falls back to nested-loop for non-equi joins.
pub fn execute_hash_join(
    left_rows: &[(RID, Vec<Value>)],
    right_rows: &[(RID, Vec<Value>)],
    join_type: &JoinType,
    on: &Expr,
    left_schema: &Schema,
    right_schema: &Schema,
    host: &Host,
) -> (r: Result<(Schema, Vec<(RID, Vec<Value>)>)>)
    ensures
        outcome(r) == with_columns(
            left_schema.deep_view(),
            right_schema.deep_view(),
            hash_join_rows(
                left_rows.deep_view(),
                right_rows.deep_view(),
                *join_type,
                *on,
                left_schema.names(),
                right_schema.names(),
                host@,
            ),
        ),
{
    if *join_type == JoinType::Cross {
        let schema = build_combined_schema_pub(left_schema, right_schema);
        return Ok((schema, cross_join(left_rows, right_rows)));
    }
    match extract_equi_join_keys(on, left_schema, right_schema) {
        Some((lk, rk)) => {
            let schema = build_combined_schema_pub(left_schema, right_schema);
            let rows = equi_join(
                left_rows,
                right_rows,
                join_type,
                lk,
                rk,
                left_schema.columns.len(),
                right_schema.columns.len(),
            );
            Ok((schema, rows))
        },
        None => execute_nested_loop_join(
            left_rows,
            right_rows,
            join_type,
            on,
            left_schema,
            right_schema,
            host,
        ),
    }
}

/// The rows of a join with an optional condition; without one, the Cartesian product.
pub open spec fn join_rows(
    left: Seq<RowView>,
    right: Seq<RowView>,
    t: JoinType,
    on: Option<Expr>,
    lnames: Seq<Seq<char>>,
    rnames: Seq<Seq<char>>,
    h: HostView,
) -> std::result::Result<Seq<RowView>, ErrorView> {
    match on {
        Some(e) => hash_join_rows(left, right, t, e, lnames, rnames, h),
        None => Ok(cross_rows(left, right)),
    }
}

/// Execute a join with an optional ON condition.
///
/// For CROSS JOIN, `on` should be `None` (produces Cartesian product).
/// For all other join types, delegates to `execute_hash_join` with the ON condition.
pub fn execute_join(
    left_rows: &[(RID, Vec<Value>)],
    right_rows: &[(RID, Vec<Value>)],
    join_type: &JoinType,
    on: &Option<Expr>,
    left_schema: &Schema,
    right_schema: &Schema,
    host: &Host,
) -> (r: Result<(Schema, Vec<(RID, Vec<Value>)>)>)
    ensures
        outcome(r) == with_columns(
            left_schema.deep_view(),
            right_schema.deep_view(),
            join_rows(
                left_rows.deep_view(),
                right_rows.deep_view(),
                *join_type,
                *on,
                left_schema.names(),
                right_schema.names(),
                host@,
            ),
        ),
{
    match on {
        Some(e) => execute_hash_join(
            left_rows,
            right_rows,
            join_type,
            e,
            left_schema,
            right_schema,
            host,
        ),
        None => {
            let schema = build_combined_schema_pub(left_schema, right_schema);
            Ok((schema, cross_join(left_rows, right_rows)))
        },
    }
}

} // verus!
