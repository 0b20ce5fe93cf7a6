//! Hash join of two tables on an integer column, on stored tuples.
//!
//! The tuples of one table are kept in an arena with their hash values. A table of buckets
//! leads to the last tuple of each bucket, and each tuple to the one before it in its bucket.
use crate::ast::{BinaryOperator, Expr};
use crate::bytes::{
    as_i32, as_i64, complement, get_le, le, le_value, lemma_le_value_bound, lemma_pow256, pow256,
    put_bytes, signed,
};
use crate::catalog::{Catalog, TableInfo};
use crate::error::ErrorView;
use crate::insert::nulls;
use crate::scan::table_of;
use crate::schema::{name_from, Schema};
use crate::state::{answer, ExecuteResult, ResultView};
use crate::storage::{
    copy_bytes, decode_version_header, table_tuples, xmax_of, BufferPool, MVCC_HEADER_SIZE,
    PageView, RawView, XMAX_NONE,
};
use crate::tuple::{
    bitmap_len, column_int, column_read_from, deserialize, deserialize_single_column, fixed_size,
    fixed_value, is_marked_null, marked_null, read_column_i64_raw, single_column, size_of_type,
    tuple_read, types_of,
};
use crate::types::{DataType, Value, ValueView};
use crate::wire::{
    append_msg, datatype_to_wire_tag, done_message, header_message, message, put_done, put_header,
    put_wire, wire_tag, wire_value, MSG_ROW,
};
use vstd::prelude::*;

verus! {

// ---------------------------------------------------------------------------
// Keys at a known place
// ---------------------------------------------------------------------------

/// Where a column begins when no column before it is NULL, if the columns from `i` on begin
/// at `pos`; none, where one of them has no fixed size.
pub open spec fn offset_from(types: Seq<DataType>, i: int, pos: int, col: int) -> Option<int>
    decreases types.len() - i,
{
    if i < 0 || i >= types.len() {
        None
    } else if i == col {
        Some(pos)
    } else {
        match fixed_size(types[i]) {
            Some(n) => if pos + n <= usize::MAX {
                offset_from(types, i + 1, pos + n, col)
            } else {
                None
            },
            None => None,
        }
    }
}

/// Where an integer column begins when no column before it is NULL.
pub open spec fn key_offset(types: Seq<DataType>, col: int) -> Option<int> {
    if types[col] is Integer || types[col] is BigInt {
        offset_from(types, 0, bitmap_len(types.len() as int), col)
    } else {
        None
    }
}

fn bitmap_bytes(n: usize) -> (r: usize)
    ensures
        r == bitmap_len(n as int),
{
    if n % 8 == 0 {
        n / 8
    } else {
        n / 8 + 1
    }
}

fn find_offset(schema: &Schema, col: usize) -> (r: Option<usize>)
    requires
        col < schema.columns.len(),
    ensures
        match r {
            Some(p) => offset_from(
                types_of(*schema),
                0,
                bitmap_len(schema.columns.len() as int),
                col as int,
            ) == Some(p as int),
            None => offset_from(
                types_of(*schema),
                0,
                bitmap_len(schema.columns.len() as int),
                col as int,
            ) is None,
        },
{
    let ghost types = types_of(*schema);
    let ghost start = bitmap_len(schema.columns.len() as int);
    let mut pos: usize = bitmap_bytes(schema.columns.len());
    let mut i: usize = 0;
    while i < col
        invariant
            0 <= i <= col,
            col < schema.columns.len(),
            types == types_of(*schema),
            start == bitmap_len(schema.columns.len() as int),
            offset_from(types, 0, start, col as int) == offset_from(
                types,
                i as int,
                pos as int,
                col as int,
            ),
        decreases col - i,
    {
        match size_of_type(&schema.columns[i].data_type) {
            Some(n) => match pos.checked_add(n) {
                Some(p) => {
                    pos = p;
                },
                None => {
                    return None;
                },
            },
            None => {
                return None;
            },
        }
        i += 1;
    }
    Some(pos)
}

/// Pre-compute the byte offset of an integer key column for O(1) reads.
/// Returns (bitmap_len, byte_offset, is_i32). None if column is variable-length.
///
/// The offset holds for tuples that have no NULL before the column.
pub fn precompute_key_offset(schema: &Schema, col_idx: usize) -> (r: Option<(usize, usize, bool)>)
    requires
        col_idx < schema.columns.len(),
    ensures
        match r {
            Some(p) => key_offset(types_of(*schema), col_idx as int) == Some(p.1 as int) && p.0
                == bitmap_len(schema.columns.len() as int) && p.2
                == schema.columns@[col_idx as int].data_type is Integer,
            None => key_offset(types_of(*schema), col_idx as int) is None,
        },
{
    let is_i32 = match schema.columns[col_idx].data_type {
        DataType::Integer => true,
        DataType::BigInt => false,
        _ => {
            return None;
        },
    };
    match find_offset(schema, col_idx) {
        Some(pos) => Some((bitmap_bytes(schema.columns.len()), pos, is_i32)),
        None => None,
    }
}

/// The integer of four or eight bytes at an offset; none, where the column is NULL or the
/// bytes end before.
pub open spec fn key_read(data: Seq<u8>, offset: int, is_i32: bool, col: int) -> Option<i64> {
    let n = if is_i32 {
        4int
    } else {
        8int
    };
    if data.len() <= col / 8 || marked_null(data, col) || offset + n > data.len() {
        None
    } else {
        Some(signed(le_value(data.subrange(offset, offset + n)), n as nat) as i64)
    }
}

/// Read an i64 key from a tuple using pre-computed offset. O(1) instead of O(col_idx).
pub fn read_key_fast(data: &[u8], _bitmap_len: usize, offset: usize, is_i32: bool, col_idx: usize) -> (r:
    Option<i64>)
    ensures
        r == key_read(data@, offset as int, is_i32, col_idx as int),
{
    if data.len() <= col_idx / 8 {
        return None;
    }
    if is_marked_null(data, col_idx) {
        return None;
    }
    if offset > data.len() {
        return None;
    }
    proof {
        lemma_pow256();
    }
    if is_i32 {
        if data.len() - offset < 4 {
            return None;
        }
        Some(as_i32(get_le(data, offset, 4)) as i64)
    } else {
        if data.len() - offset < 8 {
            return None;
        }
        Some(as_i64(get_le(data, offset, 8)))
    }
}

/// The key of a tuple: read at its known place where there is one, else found column by
/// column.
pub open spec fn arena_key(data: Seq<u8>, types: Seq<DataType>, col: int) -> Option<i64> {
    match key_offset(types, col) {
        Some(off) => key_read(data, off, types[col] is Integer, col),
        None => column_int(data, types, col),
    }
}

/// The key of a tuple, read in the one way or the other.
pub open spec fn key_by(fast: bool, data: Seq<u8>, types: Seq<DataType>, col: int) -> Option<i64> {
    if fast {
        arena_key(data, types, col)
    } else {
        column_int(data, types, col)
    }
}

fn read_key(
    fast: bool,
    data: &[u8],
    schema: &Schema,
    col: usize,
    info: Option<(usize, usize, bool)>,
) -> (r: Option<i64>)
    requires
        col < schema.columns.len(),
        match info {
            Some(p) => key_offset(types_of(*schema), col as int) == Some(p.1 as int) && p.2
                == schema.columns@[col as int].data_type is Integer,
            None => key_offset(types_of(*schema), col as int) is None,
        },
    ensures
        r == key_by(fast, data@, types_of(*schema), col as int),
{
    if fast {
        if let Some((b, off, is_i32)) = info {
            return read_key_fast(data, b, off, is_i32, col);
        }
    }
    read_column_i64_raw(data, schema, col)
}

/// A key at its known place is the one found column by column, if no column before it is NULL
/// and the tuple holds them all.
pub proof fn law_key_at_known_place(data: Seq<u8>, types: Seq<DataType>, col: int, off: int)
    requires
        0 <= col < types.len(),
        data.len() >= bitmap_len(types.len() as int),
        key_offset(types, col) == Some(off),
        off <= data.len(),
        forall|j: int| 0 <= j < col ==> !#[trigger] marked_null(data, j),
    ensures
        key_read(data, off, types[col] is Integer, col) == column_int(data, types, col),
{
    lemma_key_walk(data, types, 0, bitmap_len(types.len() as int), col, off);
}

proof fn lemma_key_walk(data: Seq<u8>, types: Seq<DataType>, i: int, pos: int, col: int, off: int)
    requires
        0 <= i <= col < types.len(),
        0 <= pos,
        data.len() >= bitmap_len(types.len() as int),
        offset_from(types, i, pos, col) == Some(off),
        off <= data.len(),
        types[col] is Integer || types[col] is BigInt,
        forall|j: int| 0 <= j < col ==> !#[trigger] marked_null(data, j),
    ensures
        key_read(data, off, types[col] is Integer, col) == match column_read_from(
            data,
            types,
            i,
            pos,
            col,
        ) {
            Ok(ValueView::Integer(n)) => Some(n as i64),
            Ok(ValueView::BigInt(n)) => Some(n),
            _ => None,
        },
        pos <= off,
    decreases col - i,
{
    if i < col {
        assert(!marked_null(data, i));
        let n = fixed_size(types[i])->0;
        lemma_key_walk(data, types, i + 1, pos + n, col, off);
    } else {
        lemma_pow256();
        let n = if types[col] is Integer {
            4int
        } else {
            8int
        };
        if off + n <= data.len() {
            lemma_le_value_bound(data.subrange(off, off + n));
        }
    }
}

// ---------------------------------------------------------------------------
// The arena
// ---------------------------------------------------------------------------

/// The hash value of a key: the finalizer of Murmur3.
pub open spec fn key_hash(key: i64) -> u32 {
    let a = key as u64;
    let b = a ^ (a >> 33);
    let c = ((b * 0xff51afd7ed558ccd) % 0x1_0000_0000_0000_0000) as u64;
    let d = c ^ (c >> 33);
    let e = ((d * 0xc4ceb9fe1a85ec53) % 0x1_0000_0000_0000_0000) as u64;
    let f = e ^ (e >> 33);
    f as u32
}

#[verifier::truncate]
fn hash_i64(key: i64) -> (r: u32)
    ensures
        r == key_hash(key),
{
    let a: u64 = key as u64;
    let b: u64 = a ^ (a >> 33);
    let c: u64 = b.wrapping_mul(0xff51afd7ed558ccd);
    let d: u64 = c ^ (c >> 33);
    let e: u64 = d.wrapping_mul(0xc4ceb9fe1a85ec53);
    let f: u64 = e ^ (e >> 33);
    f as u32
}

/// A tuple in the arena: the hash value of its key, and its bytes.
pub type ArenaTuple = (u32, Seq<u8>);

/// The last of the first `n` tuples that is in a bucket, counted from one; zero, if none is.
pub open spec fn last_before(hashes: Seq<u32>, n: int, b: int, m: int) -> int
    decreases n,
{
    if n <= 0 {
        0
    } else if hashes[n - 1] as int % m == b {
        n
    } else {
        last_before(hashes, n - 1, b, m)
    }
}

proof fn lemma_last_before(hashes: Seq<u32>, n: int, b: int, m: int)
    requires
        0 <= n <= hashes.len(),
    ensures
        0 <= last_before(hashes, n, b, m) <= n,
        last_before(hashes, n, b, m) > 0 ==> hashes[last_before(hashes, n, b, m) - 1] as int % m
            == b,
    decreases n,
{
    if n > 0 && hashes[n - 1] as int % m != b {
        lemma_last_before(hashes, n - 1, b, m);
    }
}

proof fn lemma_last_before_longer(hashes: Seq<u32>, h: u32, n: int, b: int, m: int)
    requires
        0 <= n <= hashes.len(),
    ensures
        last_before(hashes.push(h), n, b, m) == last_before(hashes, n, b, m),
    decreases n,
{
    if n > 0 {
        lemma_last_before_longer(hashes, h, n - 1, b, m);
    }
}

/// The places of those of the first `n` tuples whose key is `k`, the last one first.
pub open spec fn meeting(
    arena: Seq<ArenaTuple>,
    n: int,
    k: i64,
    fast: bool,
    types: Seq<DataType>,
    col: int,
) -> Seq<int>
    decreases n,
{
    if n <= 0 {
        Seq::empty()
    } else if arena[n - 1].0 == key_hash(k) && key_by(fast, arena[n - 1].1, types, col) == Some(
        k,
    ) {
        seq![n - 1] + meeting(arena, n - 1, k, fast, types, col)
    } else {
        meeting(arena, n - 1, k, fast, types, col)
    }
}

struct ArenaTable {
    /// The last tuple of each bucket, counted from one.
    heads: Vec<usize>,
    hashes: Vec<u32>,
    /// The tuple before each in its bucket, counted from one.
    before: Vec<usize>,
    data: Vec<Vec<u8>>,
}

impl ArenaTable {
    spec fn wf(self) -> bool {
        let m = self.heads@.len() as int;
        &&& m > 0
        &&& self.before@.len() == self.hashes@.len()
        &&& self.data@.len() == self.hashes@.len()
        &&& forall|b: int|
            0 <= b < m ==> #[trigger] self.heads@[b] == last_before(
                self.hashes@,
                self.hashes@.len() as int,
                b,
                m,
            )
        &&& forall|i: int|
            0 <= i < self.hashes@.len() ==> #[trigger] self.before@[i] == last_before(
                self.hashes@,
                i,
                self.hashes@[i] as int % m,
                m,
            )
    }

    spec fn tuples(self) -> Seq<ArenaTuple> {
        Seq::new(self.hashes@.len(), |i: int| (self.hashes@[i], self.data@[i]@))
    }

    fn new(estimated: usize) -> (r: ArenaTable)
        ensures
            r.wf(),
            r.tuples() == Seq::<ArenaTuple>::empty(),
    {
        let mut m: usize = 64;
        while m < estimated && m < 0x10_0000
            invariant
                64 <= m <= 0x10_0000,
            decreases 0x10_0000 - m,
        {
            m = m * 2;
            if m > 0x10_0000 {
                m = 0x10_0000;
            }
        }
        let mut heads: Vec<usize> = Vec::new();
        let mut i: usize = 0;
        while i < m
            invariant
                0 <= i <= m,
                heads.len() == i,
                forall|k: int| 0 <= k < i ==> #[trigger] heads@[k] == 0,
            decreases m - i,
        {
            heads.push(0);
            i += 1;
        }
        let r = ArenaTable { heads, hashes: Vec::new(), before: Vec::new(), data: Vec::new() };
        assert(r.tuples() =~= Seq::<ArenaTuple>::empty());
        r
    }

    fn push(&mut self, h: u32, data: Vec<u8>)
        requires
            old(self).wf(),
            old(self).hashes@.len() < usize::MAX,
        ensures
            final(self).wf(),
            final(self).tuples() == old(self).tuples().push((h, data@)),
    {
        let ghost start = *self;
        let ghost m = self.heads@.len() as int;
        let b: usize = h as usize % self.heads.len();
        let n: usize = self.hashes.len();
        self.before.push(self.heads[b]);
        self.heads.set(b, n + 1);
        self.hashes.push(h);
        self.data.push(data);
        proof {
            assert forall|k: int| 0 <= k < m implies #[trigger] self.heads@[k] == last_before(
                self.hashes@,
                n + 1,
                k,
                m,
            ) by {
                lemma_last_before_longer(start.hashes@, h, n as int, k, m);
                if k != b {
                    assert(start.heads@[k] == last_before(start.hashes@, n as int, k, m));
                }
            }
            assert forall|i: int| 0 <= i < n + 1 implies #[trigger] self.before@[i] == last_before(
                self.hashes@,
                i,
                self.hashes@[i] as int % m,
                m,
            ) by {
                lemma_last_before_longer(start.hashes@, h, i, self.hashes@[i] as int % m, m);
                if i < n {
                    assert(start.before@[i] == last_before(
                        start.hashes@,
                        i,
                        start.hashes@[i] as int % m,
                        m,
                    ));
                } else {
                    assert(start.heads@[b as int] == last_before(
                        start.hashes@,
                        n as int,
                        b as int,
                        m,
                    ));
                }
            }
            assert(self.tuples() =~= start.tuples().push((h, data@)));
        }
    }

    fn probe(
        &self,
        k: i64,
        fast: bool,
        schema: &Schema,
        col: usize,
        info: Option<(usize, usize, bool)>,
    ) -> (r: Vec<usize>)
        requires
            self.wf(),
            col < schema.columns.len(),
            match info {
                Some(p) => key_offset(types_of(*schema), col as int) == Some(p.1 as int) && p.2
                    == schema.columns@[col as int].data_type is Integer,
                None => key_offset(types_of(*schema), col as int) is None,
            },
        ensures
            as_places(r@) == meeting(
                self.tuples(),
                self.tuples().len() as int,
                k,
                fast,
                types_of(*schema),
                col as int,
            ),
            forall|i: int| 0 <= i < r.len() ==> #[trigger] r@[i] < self.data@.len(),
    {
        let ghost arena = self.tuples();
        let ghost types = types_of(*schema);
        let ghost m = self.heads@.len() as int;
        let ghost all = meeting(arena, arena.len() as int, k, fast, types, col as int);
        let h: u32 = hash_i64(k);
        let b: usize = h as usize % self.heads.len();
        let mut out: Vec<usize> = Vec::new();
        let mut cur: usize = self.heads[b];
        proof {
            lemma_last_before(self.hashes@, self.hashes@.len() as int, b as int, m);
            lemma_meeting_skips(
                arena,
                self.hashes@,
                arena.len() as int,
                k,
                fast,
                types,
                col as int,
                m,
            );
            assert(as_places(out@) + meeting(arena, cur as int, k, fast, types, col as int)
                =~= all);
        }
        while cur > 0
            invariant
                self.wf(),
                col < schema.columns.len(),
                arena == self.tuples(),
                types == types_of(*schema),
                m == self.heads@.len(),
                h == key_hash(k),
                b == h as int % m,
                0 <= cur <= self.hashes@.len(),
                cur > 0 ==> self.hashes@[cur - 1] as int % m == b,
                match info {
                    Some(p) => key_offset(types_of(*schema), col as int) == Some(p.1 as int) && p.2
                        == schema.columns@[col as int].data_type is Integer,
                    None => key_offset(types_of(*schema), col as int) is None,
                },
                as_places(out@) + meeting(arena, cur as int, k, fast, types, col as int) == all,
                forall|i: int| 0 <= i < out.len() ==> #[trigger] out@[i] < self.data@.len(),
            decreases cur,
        {
            let i: usize = cur - 1;
            let ghost had = as_places(out@);
            assert(arena[i as int] == (self.hashes@[i as int], self.data@[i as int]@));
            if self.hashes[i] == h && read_key(
                fast,
                self.data[i].as_slice(),
                schema,
                col,
                info,
            ) == Some(k) {
                out.push(i);
                assert(as_places(out@) =~= had.push(i as int));
            }
            assert(as_places(out@) + meeting(arena, i as int, k, fast, types, col as int)
                =~= had + meeting(arena, cur as int, k, fast, types, col as int));
            cur = self.before[i];
            proof {
                assert(self.before@[i as int] == last_before(self.hashes@, i as int, b as int, m));
                lemma_last_before(self.hashes@, i as int, b as int, m);
                lemma_meeting_skips(
                    arena,
                    self.hashes@,
                    i as int,
                    k,
                    fast,
                    types,
                    col as int,
                    m,
                );
            }
        }
        assert(as_places(out@) + Seq::<int>::empty() =~= as_places(out@));
        out
    }
}

/// Places, as mathematical integers.
pub open spec fn as_places(v: Seq<usize>) -> Seq<int> {
    Seq::new(v.len(), |i: int| v[i] as int)
}

/// Tuples outside the bucket of a key do not meet it.
proof fn lemma_meeting_skips(
    arena: Seq<ArenaTuple>,
    hashes: Seq<u32>,
    n: int,
    k: i64,
    fast: bool,
    types: Seq<DataType>,
    col: int,
    m: int,
)
    requires
        0 <= n <= arena.len(),
        hashes.len() == arena.len(),
        m > 0,
        forall|i: int| 0 <= i < arena.len() ==> (#[trigger] arena[i]).0 == hashes[i],
    ensures
        meeting(arena, n, k, fast, types, col) == meeting(
            arena,
            last_before(hashes, n, key_hash(k) as int % m, m),
            k,
            fast,
            types,
            col,
        ),
    decreases n,
{
    if n > 0 {
        assert(arena[n - 1].0 == hashes[n - 1]);
        if hashes[n - 1] as int % m != key_hash(k) as int % m {
            lemma_meeting_skips(arena, hashes, n - 1, k, fast, types, col, m);
        }
    }
}

// ---------------------------------------------------------------------------
// Matching
// ---------------------------------------------------------------------------

/// The part of a stored tuple that holds its row, unless the tuple is deleted.
pub open spec fn kept_part(raw: Seq<u8>, mvcc: bool) -> Option<Seq<u8>> {
    if mvcc && raw.len() >= MVCC_HEADER_SIZE {
        if xmax_of(raw) == XMAX_NONE {
            Some(raw.skip(MVCC_HEADER_SIZE as int))
        } else {
            None
        }
    } else {
        Some(raw)
    }
}

/// The parts of the tuples from `i` on that are not deleted, behind `acc`.
pub open spec fn parts_from(raws: Seq<RawView>, i: int, mvcc: bool, acc: Seq<Seq<u8>>) -> Seq<
    Seq<u8>,
>
    decreases raws.len() - i,
{
    if i < 0 || i >= raws.len() {
        acc
    } else {
        parts_from(
            raws,
            i + 1,
            mvcc,
            match kept_part(raws[i].1, mvcc) {
                Some(d) => acc.push(d),
                None => acc,
            },
        )
    }
}

/// The rows of a table, as bytes.
pub open spec fn table_parts(pages: Seq<PageView>, info: TableInfo) -> Option<Seq<Seq<u8>>> {
    match table_tuples(pages, info.first_page_id.0) {
        Err(_) => None,
        Ok(raws) => Some(parts_from(raws, 0, info.mvcc_enabled, Seq::empty())),
    }
}

/// The rows of a table, as bytes.
pub fn read_parts(bpm: &BufferPool, info: &TableInfo) -> (r: Option<Vec<Vec<u8>>>)
    ensures
        r.deep_view() == table_parts(bpm@, *info),
{
    match bpm.table_iterator(info.first_page_id) {
        Err(_) => None,
        Ok(raws) => {
            let ghost rv = raws.deep_view();
            let mvcc = info.mvcc_enabled;
            let mut out: Vec<Vec<u8>> = Vec::new();
            assert(out.deep_view() =~= Seq::<Seq<u8>>::empty());
            let mut i: usize = 0;
            while i < raws.len()
                invariant
                    0 <= i <= raws.len(),
                    rv == raws.deep_view(),
                    parts_from(rv, 0, mvcc, Seq::empty()) == parts_from(
                        rv,
                        i as int,
                        mvcc,
                        out.deep_view(),
                    ),
                decreases raws.len() - i,
            {
                assert(rv[i as int].1 =~= raws@[i as int].1@);
                let raw = raws[i].1.as_slice();
                let ghost had = out.deep_view();
                if mvcc && raw.len() >= MVCC_HEADER_SIZE {
                    let (_, xmax) = decode_version_header(raw);
                    if xmax == XMAX_NONE {
                        let d = vstd::slice::slice_subrange(raw, MVCC_HEADER_SIZE, raw.len());
                        assert(d@ =~= raw@.skip(MVCC_HEADER_SIZE as int));
                        let c = copy_bytes(d);
                        out.push(c);
                        assert(out.deep_view() =~= had.push(d@));
                    }
                } else {
                    let c = copy_bytes(raw);
                    out.push(c);
                    assert(out.deep_view() =~= had.push(raw@));
                }
                i += 1;
            }
            Some(out)
        },
    }
}

/// The column names of a condition that one column equals another.
pub open spec fn join_columns(on: Expr) -> Option<(Seq<char>, Seq<char>)> {
    match on {
        Expr::BinaryOp { left, op, right } => if op == BinaryOperator::Eq {
            match (*left, *right) {
                (
                    Expr::ColumnRef { table: _, column: a },
                    Expr::ColumnRef { table: _, column: b },
                ) => Some((a@, b@)),
                _ => None,
            }
        } else {
            None
        },
        _ => None,
    }
}

/// The column names of a condition that one column equals another.
pub fn extract_join_keys<'a>(expr: &'a Expr) -> (r: Option<(&'a str, &'a str)>)
    ensures
        match r {
            Some(p) => join_columns(*expr) == Some((p.0@, p.1@)),
            None => join_columns(*expr) is None,
        },
{
    match expr {
        Expr::BinaryOp { left, op: BinaryOperator::Eq, right } => match (&**left, &**right) {
            (Expr::ColumnRef { table: _, column: a }, Expr::ColumnRef { table: _, column: b }) => {
                Some((a.as_str(), b.as_str()))
            },
            _ => None,
        },
        _ => None,
    }
}

/// Whether values of a type are integers.
pub open spec fn int_type(t: DataType) -> bool {
    t is Integer || t is BigInt
}

/// Two tables, and the columns by which their rows meet.
pub struct Sides {
    pub left: TableInfo,
    pub right: TableInfo,
    pub lk: int,
    pub rk: int,
}

/// The two tables of a join by integer columns.
pub open spec fn sides(c: Catalog, lt: Seq<char>, rt: Seq<char>, on: Expr) -> Option<Sides> {
    match join_columns(on) {
        None => None,
        Some(names) => match (table_of(c, lt), table_of(c, rt)) {
            (Some(left), Some(right)) => match (
                name_from(left.schema.names(), names.0, 0),
                name_from(right.schema.names(), names.1, 0),
            ) {
                (Some(lk), Some(rk)) => if int_type(left.schema.columns@[lk].data_type)
                    && int_type(right.schema.columns@[rk].data_type) {
                    Some(Sides { left, right, lk, rk })
                } else {
                    None
                },
                _ => None,
            },
            _ => None,
        },
    }
}

/// [`Sides`], as they are found.
pub struct Tables<'a> {
    pub left: &'a TableInfo,
    pub right: &'a TableInfo,
    pub lk: usize,
    pub rk: usize,
}

impl<'a> Tables<'a> {
    spec fn sides(self) -> Sides {
        Sides { left: *self.left, right: *self.right, lk: self.lk as int, rk: self.rk as int }
    }
}

fn is_int_type(dt: &DataType) -> (r: bool)
    ensures
        r == int_type(*dt),
{
    match dt {
        DataType::Integer => true,
        DataType::BigInt => true,
        _ => false,
    }
}

/// The two tables of a join by integer columns.
pub fn find_sides<'a>(catalog: &'a Catalog, lt: &str, rt: &str, on: &Expr) -> (r: Option<Tables<'a>>)
    ensures
        match r {
            Some(t) => sides(*catalog, lt@, rt@, *on) == Some(
                Sides { left: *t.left, right: *t.right, lk: t.lk as int, rk: t.rk as int },
            ) && t.lk < t.left.schema.columns.len() && t.rk < t.right.schema.columns.len(),
            None => sides(*catalog, lt@, rt@, *on) is None,
        },
{
    let (lname, rname) = match extract_join_keys(on) {
        Some(p) => p,
        None => {
            return None;
        },
    };
    let left = match catalog.get_table(lt) {
        Some(t) => t,
        None => {
            return None;
        },
    };
    let right = match catalog.get_table(rt) {
        Some(t) => t,
        None => {
            return None;
        },
    };
    let lk: usize = match left.schema.get_column(lname) {
        Some(k) => k,
        None => {
            return None;
        },
    };
    let rk: usize = match right.schema.get_column(rname) {
        Some(k) => k,
        None => {
            return None;
        },
    };
    if is_int_type(&left.schema.columns[lk].data_type) && is_int_type(
        &right.schema.columns[rk].data_type,
    ) {
        Some(Tables { left, right, lk, rk })
    } else {
        None
    }
}

/// The arena of the rows from `i` on that have a key, behind `acc`.
pub open spec fn arena_from(
    parts: Seq<Seq<u8>>,
    i: int,
    types: Seq<DataType>,
    col: int,
    acc: Seq<ArenaTuple>,
) -> Seq<ArenaTuple>
    decreases parts.len() - i,
{
    if i < 0 || i >= parts.len() {
        acc
    } else {
        arena_from(
            parts,
            i + 1,
            types,
            col,
            match arena_key(parts[i], types, col) {
                Some(k) => acc.push((key_hash(k), parts[i])),
                None => acc,
            },
        )
    }
}

fn build_arena(
    parts: Vec<Vec<u8>>,
    info: &TableInfo,
    col: usize,
    key_info: Option<(usize, usize, bool)>,
) -> (r: ArenaTable)
    requires
        col < info.schema.columns.len(),
        match key_info {
            Some(p) => key_offset(types_of(info.schema), col as int) == Some(p.1 as int) && p.2
                == info.schema.columns@[col as int].data_type is Integer,
            None => key_offset(types_of(info.schema), col as int) is None,
        },
    ensures
        r.wf(),
        r.tuples() == arena_from(
            parts.deep_view(),
            0,
            types_of(info.schema),
            col as int,
            Seq::empty(),
        ),
{
    let ghost pv = parts.deep_view();
    let ghost types = types_of(info.schema);
    let estimated: usize = match &info.stats {
        Some(s) => if s.row_count > 0x10_0000 {
            0x10_0000
        } else {
            s.row_count as usize
        },
        None => 4096,
    };
    let mut table = ArenaTable::new(estimated);
    assert(table.tuples().len() == table.hashes@.len());
    let mut left = parts;
    let mut i: usize = 0;
    while i < left.len()
        invariant
            0 <= i <= left.len(),
            left.len() == pv.len(),
            col < info.schema.columns.len(),
            types == types_of(info.schema),
            match key_info {
                Some(p) => key_offset(types_of(info.schema), col as int) == Some(p.1 as int) && p.2
                    == info.schema.columns@[col as int].data_type is Integer,
                None => key_offset(types_of(info.schema), col as int) is None,
            },
            table.wf(),
            table.hashes@.len() <= i,
            forall|k: int| i <= k < left.len() ==> (#[trigger] left@[k])@ == pv[k],
            arena_from(pv, 0, types, col as int, Seq::empty()) == arena_from(
                pv,
                i as int,
                types,
                col as int,
                table.tuples(),
            ),
        decreases left.len() - i,
    {
        let mut d: Vec<u8> = Vec::new();
        core::mem::swap(&mut d, &mut left[i]);
        if let Some(k) = read_key(true, d.as_slice(), &info.schema, col, key_info) {
            let ghost had = table.tuples();
            table.push(hash_i64(k), d);
            assert(table.tuples().len() == table.hashes@.len());
        }
        i += 1;
    }
    table
}

/// The rows from `i` on with those of the arena that they meet, behind `acc`. For an outer
/// join a row that meets none comes with none.
pub open spec fn pairs_from(
    parts: Seq<Seq<u8>>,
    i: int,
    types: Seq<DataType>,
    col: int,
    arena: Seq<ArenaTuple>,
    arena_types: Seq<DataType>,
    arena_col: int,
    fast: bool,
    outer: bool,
    acc: Seq<(int, Option<int>)>,
) -> Seq<(int, Option<int>)>
    decreases parts.len() - i,
{
    if i < 0 || i >= parts.len() {
        acc
    } else {
        let found = match key_by(fast, parts[i], types, col) {
            Some(k) => meeting(arena, arena.len() as int, k, fast, arena_types, arena_col),
            None => Seq::empty(),
        };
        let more = if found.len() == 0 && outer {
            acc.push((i, None))
        } else {
            acc + paired(i, found)
        };
        pairs_from(parts, i + 1, types, col, arena, arena_types, arena_col, fast, outer, more)
    }
}

/// A row with each of the rows that it meets.
pub open spec fn paired(i: int, found: Seq<int>) -> Seq<(int, Option<int>)> {
    Seq::new(found.len(), |j: int| (i, Some(found[j])))
}

/// Two rows that meet, as bytes; the second is missing where an outer join found none.
pub type Met = (Seq<u8>, Option<Seq<u8>>);

/// The left and the right row of pairs of a row and a row of the arena.
pub open spec fn met_rows(
    pairs: Seq<(int, Option<int>)>,
    parts: Seq<Seq<u8>>,
    arena: Seq<ArenaTuple>,
    arena_is_left: bool,
) -> Seq<Met> {
    Seq::new(
        pairs.len(),
        |i: int|
            match pairs[i].1 {
                None => (parts[pairs[i].0], None),
                Some(j) => if arena_is_left {
                    (arena[j].1, Some(parts[pairs[i].0]))
                } else {
                    (parts[pairs[i].0], Some(arena[j].1))
                },
            },
    )
}

/// The rows of two tables that meet. The arena is made of the table with fewer columns, for
/// an outer join of the right one.
pub open spec fn matched(pages: Seq<PageView>, s: Sides, fast: bool, outer: bool) -> Option<
    Seq<Met>,
> {
    match (table_parts(pages, s.left), table_parts(pages, s.right)) {
        (Some(lparts), Some(rparts)) => {
            let ltypes = types_of(s.left.schema);
            let rtypes = types_of(s.right.schema);
            if outer || rtypes.len() <= ltypes.len() {
                let arena = arena_from(rparts, 0, rtypes, s.rk, Seq::empty());
                Some(
                    met_rows(
                        pairs_from(
                            lparts,
                            0,
                            ltypes,
                            s.lk,
                            arena,
                            rtypes,
                            s.rk,
                            fast,
                            outer,
                            Seq::empty(),
                        ),
                        lparts,
                        arena,
                        false,
                    ),
                )
            } else {
                let arena = arena_from(lparts, 0, ltypes, s.lk, Seq::empty());
                Some(
                    met_rows(
                        pairs_from(
                            rparts,
                            0,
                            rtypes,
                            s.rk,
                            arena,
                            ltypes,
                            s.lk,
                            fast,
                            outer,
                            Seq::empty(),
                        ),
                        rparts,
                        arena,
                        true,
                    ),
                )
            }
        },
        _ => None,
    }
}

struct Matches {
    parts: Vec<Vec<u8>>,
    arena: ArenaTable,
    pairs: Vec<(usize, Option<usize>)>,
    arena_is_left: bool,
}

spec fn as_pairs(v: Seq<(usize, Option<usize>)>) -> Seq<(int, Option<int>)> {
    Seq::new(
        v.len(),
        |i: int|
            (
                v[i].0 as int,
                match v[i].1 {
                    Some(j) => Some(j as int),
                    None => None,
                },
            ),
    )
}

impl Matches {
    spec fn wf(self) -> bool {
        &&& self.arena.wf()
        &&& forall|i: int|
            0 <= i < self.pairs@.len() ==> (#[trigger] self.pairs@[i]).0 < self.parts@.len() && (
            self.pairs@[i].1 matches Some(j) ==> j < self.arena.data@.len()) && (
            self.pairs@[i].1 is None ==> !self.arena_is_left)
    }

    spec fn met(self) -> Seq<Met> {
        met_rows(
            as_pairs(self.pairs@),
            self.parts.deep_view(),
            self.arena.tuples(),
            self.arena_is_left,
        )
    }

    fn row(&self, i: usize) -> (r: (&[u8], Option<&[u8]>))
        requires
            self.wf(),
            i < self.pairs.len(),
        ensures
            self.met()[i as int].0 == r.0@,
            match r.1 {
                Some(d) => self.met()[i as int].1 == Some(d@),
                None => self.met()[i as int].1 is None,
            },
    {
        let (p, a) = self.pairs[i];
        assert(as_pairs(self.pairs@)[i as int].0 == p);
        assert(self.parts.deep_view()[p as int] =~= self.parts@[p as int]@);
        match a {
            None => (self.parts[p].as_slice(), None),
            Some(j) => {
                assert(self.arena.tuples()[j as int].1 == self.arena.data@[j as int]@);
                if self.arena_is_left {
                    (self.arena.data[j].as_slice(), Some(self.parts[p].as_slice()))
                } else {
                    (self.parts[p].as_slice(), Some(self.arena.data[j].as_slice()))
                }
            },
        }
    }
}

fn find_pairs(
    parts: &Vec<Vec<u8>>,
    info: &TableInfo,
    col: usize,
    arena: &ArenaTable,
    arena_info: &TableInfo,
    arena_col: usize,
    arena_key_info: Option<(usize, usize, bool)>,
    fast: bool,
    outer: bool,
) -> (r: Vec<(usize, Option<usize>)>)
    requires
        arena.wf(),
        col < info.schema.columns.len(),
        arena_col < arena_info.schema.columns.len(),
        match arena_key_info {
            Some(p) => key_offset(types_of(arena_info.schema), arena_col as int) == Some(
                p.1 as int,
            ) && p.2 == arena_info.schema.columns@[arena_col as int].data_type is Integer,
            None => key_offset(types_of(arena_info.schema), arena_col as int) is None,
        },
    ensures
        as_pairs(r@) == pairs_from(
            parts.deep_view(),
            0,
            types_of(info.schema),
            col as int,
            arena.tuples(),
            types_of(arena_info.schema),
            arena_col as int,
            fast,
            outer,
            Seq::empty(),
        ),
        forall|i: int|
            0 <= i < r.len() ==> (#[trigger] r@[i]).0 < parts.len() && (r@[i].1 matches Some(j)
                ==> j < arena.data@.len()) && (r@[i].1 is None ==> outer),
{
    let ghost pv = parts.deep_view();
    let ghost types = types_of(info.schema);
    let ghost av = arena.tuples();
    let ghost atypes = types_of(arena_info.schema);
    let ghost all = pairs_from(
        pv,
        0,
        types,
        col as int,
        av,
        atypes,
        arena_col as int,
        fast,
        outer,
        Seq::empty(),
    );
    let key_info = precompute_key_offset(&info.schema, col);
    let mut out: Vec<(usize, Option<usize>)> = Vec::new();
    assert(as_pairs(out@) =~= Seq::<(int, Option<int>)>::empty());
    let mut i: usize = 0;
    while i < parts.len()
        invariant
            0 <= i <= parts.len(),
            arena.wf(),
            pv == parts.deep_view(),
            types == types_of(info.schema),
            av == arena.tuples(),
            atypes == types_of(arena_info.schema),
            col < info.schema.columns.len(),
            arena_col < arena_info.schema.columns.len(),
            match key_info {
                Some(p) => key_offset(types, col as int) == Some(p.1 as int) && p.2
                    == info.schema.columns@[col as int].data_type is Integer,
                None => key_offset(types, col as int) is None,
            },
            match arena_key_info {
                Some(p) => key_offset(atypes, arena_col as int) == Some(p.1 as int) && p.2
                    == arena_info.schema.columns@[arena_col as int].data_type is Integer,
                None => key_offset(atypes, arena_col as int) is None,
            },
            all == pairs_from(
                pv,
                i as int,
                types,
                col as int,
                av,
                atypes,
                arena_col as int,
                fast,
                outer,
                as_pairs(out@),
            ),
            forall|k: int|
                0 <= k < out.len() ==> (#[trigger] out@[k]).0 < parts.len() && (
                out@[k].1 matches Some(j) ==> j < arena.data@.len()) && (out@[k].1 is None
                    ==> outer),
        decreases parts.len() - i,
    {
        assert(pv[i as int] =~= parts@[i as int]@);
        let found: Vec<usize> = match read_key(
            fast,
            parts[i].as_slice(),
            &info.schema,
            col,
            key_info,
        ) {
            Some(k) => arena.probe(k, fast, &arena_info.schema, arena_col, arena_key_info),
            None => Vec::new(),
        };
        let ghost fv = match key_by(fast, pv[i as int], types, col as int) {
            Some(k) => meeting(av, av.len() as int, k, fast, atypes, arena_col as int),
            None => Seq::empty(),
        };
        assert(as_places(found@) =~= fv);
        let ghost had = as_pairs(out@);
        if found.len() == 0 && outer {
            out.push((i, None));
            assert(as_pairs(out@) =~= had.push((i as int, None)));
        } else {
            let mut j: usize = 0;
            assert(had + paired(i as int, fv).take(0) =~= had);
            while j < found.len()
                invariant
                    0 <= j <= found.len(),
                    i < parts.len(),
                    as_places(found@) == fv,
                    forall|k: int| 0 <= k < found.len() ==> #[trigger] found@[k] < arena.data@.len(),
                    as_pairs(out@) == had + paired(i as int, fv).take(j as int),
                    forall|k: int|
                        0 <= k < out.len() ==> (#[trigger] out@[k]).0 < parts.len() && (
                        out@[k].1 matches Some(j) ==> j < arena.data@.len()) && (out@[k].1 is None
                            ==> outer),
                decreases found.len() - j,
            {
                let ghost mid = as_pairs(out@);
                assert(fv[j as int] == found@[j as int]);
                out.push((i, Some(found[j])));
                assert(as_pairs(out@) =~= mid.push((i as int, Some(fv[j as int]))));
                assert(paired(i as int, fv).take(j + 1) =~= paired(i as int, fv).take(
                    j as int,
                ).push((i as int, Some(fv[j as int]))));
                assert(as_pairs(out@) =~= had + paired(i as int, fv).take(j + 1));
                j += 1;
            }
            assert(paired(i as int, fv).take(fv.len() as int) =~= paired(i as int, fv));
        }
        i += 1;
    }
    out
}

fn find_matches(bpm: &BufferPool, t: &Tables, fast: bool, outer: bool) -> (r: Option<Matches>)
    requires
        t.lk < t.left.schema.columns.len(),
        t.rk < t.right.schema.columns.len(),
    ensures
        ({
            let s = Sides {
                left: *t.left,
                right: *t.right,
                lk: t.lk as int,
                rk: t.rk as int,
            };
            match r {
                Some(m) => m.wf() && matched(bpm@, s, fast, outer) == Some(m.met()),
                None => matched(bpm@, s, fast, outer) is None,
            }
        }),
{
    let lparts = match read_parts(bpm, t.left) {
        Some(p) => p,
        None => {
            return None;
        },
    };
    let rparts = match read_parts(bpm, t.right) {
        Some(p) => p,
        None => {
            return None;
        },
    };
    if outer || t.right.schema.columns.len() <= t.left.schema.columns.len() {
        let info = precompute_key_offset(&t.right.schema, t.rk);
        let arena = build_arena(rparts, t.right, t.rk, info);
        let pairs = find_pairs(
            &lparts,
            t.left,
            t.lk,
            &arena,
            t.right,
            t.rk,
            info,
            fast,
            outer,
        );
        Some(Matches { parts: lparts, arena, pairs, arena_is_left: false })
    } else {
        let info = precompute_key_offset(&t.left.schema, t.lk);
        let arena = build_arena(lparts, t.left, t.lk, info);
        let pairs = find_pairs(
            &rparts,
            t.right,
            t.rk,
            &arena,
            t.left,
            t.lk,
            info,
            fast,
            outer,
        );
        Some(Matches { parts: rparts, arena, pairs, arena_is_left: true })
    }
}

// ---------------------------------------------------------------------------
// Rows
// ---------------------------------------------------------------------------

/// The rows of two rows that meet, from `i` on, behind `acc`; none, where one cannot be read.
pub open spec fn met_values(
    met: Seq<Met>,
    i: int,
    ltypes: Seq<DataType>,
    rtypes: Seq<DataType>,
    acc: Seq<Seq<ValueView>>,
) -> Option<Seq<Seq<ValueView>>>
    decreases met.len() - i,
{
    if i < 0 || i >= met.len() {
        Some(acc)
    } else {
        match tuple_read(met[i].0, ltypes) {
            Err(_) => None,
            Ok(l) => match met[i].1 {
                None => met_values(
                    met,
                    i + 1,
                    ltypes,
                    rtypes,
                    acc.push(l + nulls(rtypes.len())),
                ),
                Some(d) => match tuple_read(d, rtypes) {
                    Err(_) => None,
                    Ok(r) => met_values(met, i + 1, ltypes, rtypes, acc.push(l + r)),
                },
            },
        }
    }
}

fn append_values(row: &mut Vec<Value>, more: Vec<Value>)
    ensures
        final(row).deep_view() == old(row).deep_view() + more.deep_view(),
{
    let ghost start = row.deep_view();
    let ghost mv = more.deep_view();
    let mut more = more;
    row.append(&mut more);
    assert(row.deep_view() =~= start + mv);
}

fn append_nulls(row: &mut Vec<Value>, n: usize)
    ensures
        final(row).deep_view() == old(row).deep_view() + nulls(n as nat),
{
    let ghost start = row.deep_view();
    let mut i: usize = 0;
    assert(start + nulls(0) =~= start);
    while i < n
        invariant
            0 <= i <= n,
            row.deep_view() == start + nulls(i as nat),
        decreases n - i,
    {
        let ghost had = row.deep_view();
        row.push(Value::Null);
        assert(row.deep_view() =~= had.push(ValueView::Null));
        assert(row.deep_view() =~= start + nulls((i + 1) as nat));
        i += 1;
    }
}

fn read_matches(m: &Matches, t: &Tables) -> (r: Option<Vec<Vec<Value>>>)
    requires
        m.wf(),
    ensures
        r.deep_view() == met_values(
            m.met(),
            0,
            types_of(t.left.schema),
            types_of(t.right.schema),
            Seq::empty(),
        ),
{
    let ghost met = m.met();
    let ghost ltypes = types_of(t.left.schema);
    let ghost rtypes = types_of(t.right.schema);
    let mut rows: Vec<Vec<Value>> = Vec::new();
    assert(rows.deep_view() =~= Seq::<Seq<ValueView>>::empty());
    let mut i: usize = 0;
    while i < m.pairs.len()
        invariant
            0 <= i <= m.pairs.len(),
            m.wf(),
            met == m.met(),
            met.len() == m.pairs.len(),
            ltypes == types_of(t.left.schema),
            rtypes == types_of(t.right.schema),
            met_values(met, 0, ltypes, rtypes, Seq::empty()) == met_values(
                met,
                i as int,
                ltypes,
                rtypes,
                rows.deep_view(),
            ),
        decreases m.pairs.len() - i,
    {
        let (l, r) = m.row(i);
        let mut row = match deserialize(l, &t.left.schema) {
            Ok(v) => v,
            Err(_) => {
                return None;
            },
        };
        match r {
            None => append_nulls(&mut row, t.right.schema.columns.len()),
            Some(d) => match deserialize(d, &t.right.schema) {
                Ok(v) => append_values(&mut row, v),
                Err(_) => {
                    return None;
                },
            },
        }
        let ghost had = rows.deep_view();
        let ghost rv = row.deep_view();
        rows.push(row);
        assert(rows.deep_view() =~= had.push(rv));
        i += 1;
    }
    Some(rows)
}

/// The columns and rows of a join by integer columns; none, where it is not one or a row
/// cannot be read.
pub open spec fn arena_answer(
    c: Catalog,
    pages: Seq<PageView>,
    lt: Seq<char>,
    rt: Seq<char>,
    on: Expr,
    outer: bool,
) -> Option<ResultView> {
    match sides(c, lt, rt, on) {
        None => None,
        Some(s) => match matched(pages, s, false, outer) {
            None => None,
            Some(met) => match met_values(
                met,
                0,
                types_of(s.left.schema),
                types_of(s.right.schema),
                Seq::empty(),
            ) {
                None => None,
                Some(rows) => Some(answer(s.left.schema.names() + s.right.schema.names(), rows)),
            },
        },
    }
}

fn both_names(t: &Tables) -> (r: Vec<String>)
    ensures
        r.deep_view() == t.left.schema.names() + t.right.schema.names(),
{
    let ghost all = t.left.schema.names() + t.right.schema.names();
    let n = t.left.schema.columns.len();
    let mut out: Vec<String> = Vec::new();
    let mut i: usize = 0;
    while i < n
        invariant
            0 <= i <= n,
            n == t.left.schema.columns.len(),
            out.len() == i,
            all == t.left.schema.names() + t.right.schema.names(),
            forall|k: int| 0 <= k < out.len() ==> (#[trigger] out@[k])@ == all[k],
        decreases n - i,
    {
        out.push(t.left.schema.columns[i].name.clone());
        i += 1;
    }
    let mut j: usize = 0;
    while j < t.right.schema.columns.len()
        invariant
            0 <= j <= t.right.schema.columns.len(),
            n == t.left.schema.columns.len(),
            out.len() == n + j,
            all == t.left.schema.names() + t.right.schema.names(),
            forall|k: int| 0 <= k < out.len() ==> (#[trigger] out@[k])@ == all[k],
        decreases t.right.schema.columns.len() - j,
    {
        out.push(t.right.schema.columns[j].name.clone());
        j += 1;
    }
    assert(out.deep_view() =~= all);
    out
}

fn arena_result(
    left_table: &str,
    right_table: &str,
    on_expr: &Expr,
    catalog: &Catalog,
    cbpm: &BufferPool,
    outer: bool,
) -> (r: Option<ExecuteResult>)
    ensures
        r.deep_view() == arena_answer(
            *catalog,
            cbpm@,
            left_table@,
            right_table@,
            *on_expr,
            outer,
        ),
{
    let t = match find_sides(catalog, left_table, right_table, on_expr) {
        Some(t) => t,
        None => {
            return None;
        },
    };
    let m = match find_matches(cbpm, &t, false, outer) {
        Some(m) => m,
        None => {
            return None;
        },
    };
    match read_matches(&m, &t) {
        None => None,
        Some(rows) => Some(ExecuteResult::answer(both_names(&t), rows)),
    }
}

/// An inner join of two tables by integer columns; none, where it is not one.
pub fn try_arena_join_result(
    left_table: &str,
    _left_alias: Option<&str>,
    right_table: &str,
    _right_alias: Option<&str>,
    on_expr: &Expr,
    catalog: &Catalog,
    cbpm: &BufferPool,
) -> (r: Option<ExecuteResult>)
    ensures
        r.deep_view() == arena_answer(
            *catalog,
            cbpm@,
            left_table@,
            right_table@,
            *on_expr,
            false,
        ),
{
    arena_result(left_table, right_table, on_expr, catalog, cbpm, false)
}

/// LEFT JOIN of two tables by integer columns: every left row comes out, with NULLs for the
/// right columns where it meets none.
pub fn try_arena_left_join_result(
    left_table: &str,
    _left_alias: Option<&str>,
    right_table: &str,
    _right_alias: Option<&str>,
    on_expr: &Expr,
    catalog: &Catalog,
    cbpm: &BufferPool,
) -> (r: Option<ExecuteResult>)
    ensures
        r.deep_view() == arena_answer(
            *catalog,
            cbpm@,
            left_table@,
            right_table@,
            *on_expr,
            true,
        ),
{
    arena_result(left_table, right_table, on_expr, catalog, cbpm, true)
}

// ---------------------------------------------------------------------------
// Columns as messages
// ---------------------------------------------------------------------------

/// Column info pre-computed once per schema for fast raw byte access.
#[derive(Debug)]
pub struct ColInfo {
    pub byte_offset: usize,
    pub dt: DataType,
    pub is_fixed: bool,
    pub fixed_size: usize,
}

/// Whether values of a type are taken over as they are stored.
pub open spec fn fixed_type(t: DataType) -> bool {
    fixed_size(t) is Some && !(t is Decimal)
}

/// The size of a type's values, zero where it depends on the value.
pub open spec fn plain_size(t: DataType) -> int {
    match fixed_size(t) {
        Some(n) => n,
        None => 0,
    }
}

/// The size of the values that are taken over as they are stored, in the first `i` columns.
pub open spec fn fixed_before(types: Seq<DataType>, i: int) -> int
    decreases i,
{
    if i <= 0 {
        0
    } else {
        fixed_before(types, i - 1) + if fixed_type(types[i - 1]) {
            plain_size(types[i - 1])
        } else {
            0
        }
    }
}

/// A number, or the greatest that a `usize` holds.
pub open spec fn capped(n: int) -> int {
    if n <= usize::MAX {
        n
    } else {
        usize::MAX as int
    }
}

/// Describes the columns of a schema.
pub fn compute_column_info(schema: &Schema) -> (r: Vec<ColInfo>)
    ensures
        r.len() == schema.columns.len(),
        forall|i: int|
            0 <= i < r.len() ==> {
                let t = schema.columns@[i].data_type;
                &&& (#[trigger] r@[i]).dt == t
                &&& r@[i].is_fixed == fixed_type(t)
                &&& r@[i].fixed_size == plain_size(t)
                &&& r@[i].byte_offset == capped(fixed_before(types_of(*schema), i))
            },
{
    let ghost types = types_of(*schema);
    let mut infos: Vec<ColInfo> = Vec::new();
    let mut offset: usize = 0;
    let mut i: usize = 0;
    while i < schema.columns.len()
        invariant
            0 <= i <= schema.columns.len(),
            infos.len() == i,
            types == types_of(*schema),
            offset == capped(fixed_before(types, i as int)),
            forall|k: int|
                0 <= k < i ==> {
                    let t = schema.columns@[k].data_type;
                    &&& (#[trigger] infos@[k]).dt == t
                    &&& infos@[k].is_fixed == fixed_type(t)
                    &&& infos@[k].fixed_size == plain_size(t)
                    &&& infos@[k].byte_offset == capped(fixed_before(types, k))
                },
        decreases schema.columns.len() - i,
    {
        let dt = schema.columns[i].data_type;
        let size: usize = match size_of_type(&dt) {
            Some(n) => n,
            None => 0,
        };
        let is_fixed = size > 0 && match dt {
            DataType::Decimal(_, _) => false,
            _ => true,
        };
        infos.push(ColInfo { byte_offset: offset, dt, is_fixed, fixed_size: size });
        if is_fixed {
            offset = offset.saturating_add(size);
        }
        i += 1;
    }
    infos
}

/// A column of a tuple as a value of a message; NULL, where it cannot be read.
pub open spec fn wire_column(data: Seq<u8>, types: Seq<DataType>, col: int) -> Seq<u8> {
    match single_column(data, types, col) {
        Ok(v) => wire_value(v),
        Err(_) => seq![0u8],
    }
}

/// Encode a single column from raw tuple bytes to ForgeWire format.
pub fn encode_single_column_raw(
    out: &mut Vec<u8>,
    tuple_data: &[u8],
    schema: &Schema,
    _col_info: &[ColInfo],
    ci: usize,
)
    ensures
        final(out)@ == old(out)@ + wire_column(tuple_data@, types_of(*schema), ci as int),
{
    let ghost start = out@;
    match deserialize_single_column(tuple_data, schema, ci) {
        Ok(v) => put_wire(out, &v),
        Err(_) => {
            out.push(0);
            assert(out@ =~= start + seq![0u8]);
        },
    }
}

/// The first `n` columns of a tuple as values of a message.
pub open spec fn wire_columns(data: Seq<u8>, types: Seq<DataType>, n: int) -> Seq<u8>
    decreases n,
{
    if n <= 0 {
        Seq::empty()
    } else {
        wire_columns(data, types, n - 1) + wire_column(data, types, n - 1)
    }
}

/// Encode all columns of a tuple directly from raw bytes to ForgeWire format.
pub fn encode_tuple_columns_raw(
    out: &mut Vec<u8>,
    tuple_data: &[u8],
    schema: &Schema,
    col_info: &[ColInfo],
)
    ensures
        final(out)@ == old(out)@ + wire_columns(
            tuple_data@,
            types_of(*schema),
            col_info@.len() as int,
        ),
{
    let ghost start = out@;
    let ghost types = types_of(*schema);
    let mut i: usize = 0;
    assert(start + wire_columns(tuple_data@, types, 0) =~= start);
    while i < col_info.len()
        invariant
            0 <= i <= col_info.len(),
            types == types_of(*schema),
            out@ == start + wire_columns(tuple_data@, types, i as int),
        decreases col_info.len() - i,
    {
        encode_single_column_raw(out, tuple_data, schema, col_info, i);
        assert(out@ =~= start + wire_columns(tuple_data@, types, i + 1));
        i += 1;
    }
}

/// Pre-computed encoder for a single output column — O(1) per row.
/// Stores the absolute byte offset assuming no nulls before it.
#[derive(Debug)]
pub struct FastColEncoder {
    pub col_idx: usize,
    pub abs_offset: usize,
    pub wire_tag: u8,
    pub size: usize,
}

/// A column of a tuple at a known place, as a value of a message; NULL, where it is NULL or
/// the tuple ends before.
pub open spec fn fast_wire(data: Seq<u8>, col: int, offset: int, tag: u8, size: int) -> Seq<u8> {
    if marked_null(data, col) || offset + size > data.len() {
        seq![0u8]
    } else {
        seq![tag] + data.subrange(offset, offset + size)
    }
}

impl FastColEncoder {
    /// Encode this column from raw tuple data — O(1), no iteration.
    pub fn encode(&self, out: &mut Vec<u8>, tuple_data: &[u8])
        requires
            self.col_idx / 8 < tuple_data@.len(),
        ensures
            final(out)@ == old(out)@ + fast_wire(
                tuple_data@,
                self.col_idx as int,
                self.abs_offset as int,
                self.wire_tag,
                self.size as int,
            ),
    {
        let ghost start = out@;
        let pos = self.abs_offset;
        if is_marked_null(tuple_data, self.col_idx) || pos > tuple_data.len() || tuple_data.len()
            - pos < self.size {
            out.push(0);
            assert(out@ =~= start + seq![0u8]);
        } else {
            out.push(self.wire_tag);
            put_bytes(out, vstd::slice::slice_subrange(tuple_data, pos, pos + self.size));
            assert(out@ =~= start + (seq![self.wire_tag] + tuple_data@.subrange(
                pos as int,
                pos + self.size,
            )));
        }
    }
}

/// Whether a column can be encoded at a known place: it and all before it have a fixed size,
/// and it is no decimal.
pub open spec fn fast_column(types: Seq<DataType>, col: int) -> bool {
    fixed_type(types[col]) && offset_from(types, 0, bitmap_len(types.len() as int), col) is Some
}

/// Whether all of some columns can be encoded at known places. Where there are none, the
/// first column must have a fixed size.
pub open spec fn fast_columns(types: Seq<DataType>, cols: Seq<usize>) -> bool {
    &&& fixed_size(types[0]) is Some
    &&& forall|i: int| 0 <= i < cols.len() ==> fast_column(types, #[trigger] cols[i] as int)
}

/// Whether an encoder is the one for a column.
pub open spec fn encodes(e: FastColEncoder, types: Seq<DataType>, col: int) -> bool {
    &&& e.col_idx == col
    &&& Some(e.abs_offset as int) == offset_from(types, 0, bitmap_len(types.len() as int), col)
    &&& e.wire_tag == wire_tag(types[col])
    &&& e.size == plain_size(types[col])
}

/// Build FastColEncoders for a set of column indices.
/// Only works when ALL columns before each target are fixed-size and non-null.
/// Returns None if any column can't be fast-encoded. The first column is looked at in any case,
/// so there must be one.
pub fn build_fast_encoders(schema: &Schema, col_indices: &[usize]) -> (r: Option<
    Vec<FastColEncoder>,
>)
    requires
        schema.columns.len() > 0,
        forall|i: int| 0 <= i < col_indices@.len() ==> #[trigger] col_indices@[i]
            < schema.columns.len(),
    ensures
        r is Some == fast_columns(types_of(*schema), col_indices@),
        r matches Some(v) ==> v.len() == col_indices@.len() && forall|i: int|
            0 <= i < v.len() ==> encodes(
                #[trigger] v@[i],
                types_of(*schema),
                col_indices@[i] as int,
            ),
{
    let ghost types = types_of(*schema);
    if size_of_type(&schema.columns[0].data_type).is_none() {
        return None;
    }
    let mut out: Vec<FastColEncoder> = Vec::new();
    let mut i: usize = 0;
    while i < col_indices.len()
        invariant
            0 <= i <= col_indices.len(),
            types == types_of(*schema),
            fixed_size(types[0]) is Some,
            out.len() == i,
            forall|k: int| 0 <= k < col_indices@.len() ==> #[trigger] col_indices@[k]
                < schema.columns.len(),
            forall|k: int| 0 <= k < i ==> fast_column(types, #[trigger] col_indices@[k] as int),
            forall|k: int|
                0 <= k < i ==> encodes(#[trigger] out@[k], types, col_indices@[k] as int),
        decreases col_indices.len() - i,
    {
        let ci: usize = col_indices[i];
        let dt = schema.columns[ci].data_type;
        assert(types[ci as int] == dt);
        let size: usize = match size_of_type(&dt) {
            Some(n) => n,
            None => {
                assert(!fast_column(types, col_indices@[i as int] as int));
                return None;
            },
        };
        if let DataType::Decimal(_, _) = dt {
            assert(!fast_column(types, col_indices@[i as int] as int));
            return None;
        }
        let abs_offset: usize = match find_offset(schema, ci) {
            Some(p) => p,
            None => {
                assert(!fast_column(types, col_indices@[i as int] as int));
                return None;
            },
        };
        out.push(
            FastColEncoder {
                col_idx: ci,
                abs_offset,
                wire_tag: datatype_to_wire_tag(&dt),
                size,
            },
        );
        i += 1;
    }
    Some(out)
}

/// A column encoded at its known place is encoded as the value that it holds, if no column
/// before it is NULL and the tuple holds it in full. A truth value is taken over as the byte
/// that stands for it.
pub proof fn law_fast_encoding_agrees(data: Seq<u8>, types: Seq<DataType>, col: int, off: int)
    requires
        0 <= col < types.len(),
        data.len() >= bitmap_len(types.len() as int),
        fixed_type(types[col]),
        offset_from(types, 0, bitmap_len(types.len() as int), col) == Some(off),
        off + plain_size(types[col]) <= data.len(),
        types[col] is Boolean ==> data[off] == 0 || data[off] == 1,
        forall|j: int| 0 <= j < col ==> !#[trigger] marked_null(data, j),
    ensures
        fast_wire(data, col, off, wire_tag(types[col]), plain_size(types[col])) == wire_column(
            data,
            types,
            col,
        ),
{
    lemma_column_walk(data, types, 0, bitmap_len(types.len() as int), col, off);
    let n = plain_size(types[col]);
    let b = data.subrange(off, off + n);
    lemma_pow256();
    lemma_le_value_bound(b);
    lemma_le_of_value(b);
    if types[col] is Boolean {
        assert(b =~= seq![data[off]]);
        assert(seq![4u8] + b =~= seq![4u8, data[off]]);
    } else if !(types[col] is Float) {
        lemma_complement_of_signed(le_value(b), n as nat);
    }
}

proof fn lemma_column_walk(
    data: Seq<u8>,
    types: Seq<DataType>,
    i: int,
    pos: int,
    col: int,
    off: int,
)
    requires
        0 <= i <= col < types.len(),
        0 <= pos,
        offset_from(types, i, pos, col) == Some(off),
        off + plain_size(types[col]) <= data.len(),
        fixed_type(types[col]),
        forall|j: int| 0 <= j < col ==> !#[trigger] marked_null(data, j),
    ensures
        pos <= off,
        column_read_from(data, types, i, pos, col) == if marked_null(data, col) {
            Ok::<ValueView, ErrorView>(ValueView::Null)
        } else {
            Ok::<ValueView, ErrorView>(
                fixed_value(types[col], data.subrange(off, off + plain_size(types[col]))),
            )
        },
    decreases col - i,
{
    if i < col {
        assert(!marked_null(data, i));
        let n = fixed_size(types[i])->0;
        lemma_column_walk(data, types, i + 1, pos + n, col, off);
    }
}

proof fn lemma_le_of_value(b: Seq<u8>)
    ensures
        le(le_value(b), b.len()) == b,
    decreases b.len(),
{
    if b.len() > 0 {
        lemma_le_of_value(b.skip(1));
        lemma_le_value_bound(b.skip(1));
        let n = le_value(b);
        assert(n % 256 == b[0]);
        assert(n / 256 == le_value(b.skip(1)));
        assert(le(n, b.len()) =~= b);
    } else {
        assert(le(le_value(b), 0) =~= b);
    }
}

proof fn lemma_complement_of_signed(n: int, k: nat)
    requires
        0 <= n < pow256(k),
    ensures
        complement(signed(n, k), k) == n,
{
}

/// In an arena of rows with their keys, the rows that meet a key are those that have it.
pub proof fn law_arena_meets_equal_keys(
    parts: Seq<Seq<u8>>,
    types: Seq<DataType>,
    col: int,
    k: i64,
    j: int,
)
    requires
        ({
            let arena = arena_from(parts, 0, types, col, Seq::empty());
            0 <= j < arena.len()
        }),
    ensures
        ({
            let arena = arena_from(parts, 0, types, col, Seq::empty());
            meeting(arena, arena.len() as int, k, true, types, col).contains(j) <==> arena_key(
                arena[j].1,
                types,
                col,
            ) == Some(k)
        }),
{
    lemma_arena_hashes(parts, 0, types, col, Seq::empty());
    let arena = arena_from(parts, 0, types, col, Seq::empty());
    lemma_meeting_contains(arena, arena.len() as int, k, true, types, col, j);
}

proof fn lemma_arena_hashes(
    parts: Seq<Seq<u8>>,
    i: int,
    types: Seq<DataType>,
    col: int,
    acc: Seq<ArenaTuple>,
)
    requires
        0 <= i,
        forall|t: int|
            0 <= t < acc.len() ==> arena_key((#[trigger] acc[t]).1, types, col) is Some
                && acc[t].0 == key_hash(arena_key(acc[t].1, types, col)->0),
    ensures
        ({
            let arena = arena_from(parts, i, types, col, acc);
            forall|t: int|
                0 <= t < arena.len() ==> arena_key((#[trigger] arena[t]).1, types, col) is Some
                    && arena[t].0 == key_hash(arena_key(arena[t].1, types, col)->0)
        }),
    decreases parts.len() - i,
{
    if i < parts.len() {
        lemma_arena_hashes(
            parts,
            i + 1,
            types,
            col,
            match arena_key(parts[i], types, col) {
                Some(k) => acc.push((key_hash(k), parts[i])),
                None => acc,
            },
        );
    }
}

proof fn lemma_meeting_contains(
    arena: Seq<ArenaTuple>,
    n: int,
    k: i64,
    fast: bool,
    types: Seq<DataType>,
    col: int,
    j: int,
)
    requires
        0 <= n <= arena.len(),
    ensures
        meeting(arena, n, k, fast, types, col).contains(j) <==> 0 <= j < n && arena[j].0
            == key_hash(k) && key_by(fast, arena[j].1, types, col) == Some(k),
    decreases n,
{
    if n > 0 {
        lemma_meeting_contains(arena, n - 1, k, fast, types, col, j);
        let rest = meeting(arena, n - 1, k, fast, types, col);
        if arena[n - 1].0 == key_hash(k) && key_by(fast, arena[n - 1].1, types, col) == Some(k) {
            let all = seq![n - 1] + rest;
            if all.contains(j) {
                let p = choose|p: int| 0 <= p < all.len() && all[p] == j;
                if p > 0 {
                    assert(rest[p - 1] == j);
                }
            }
            if j == n - 1 {
                assert(all[0] == j);
            } else if rest.contains(j) {
                let p = choose|p: int| 0 <= p < rest.len() && rest[p] == j;
                assert(all[p + 1] == j);
            }
        }
    }
}

// ---------------------------------------------------------------------------
// Joins as messages
// ---------------------------------------------------------------------------

/// An output column: of which side, and which.
pub type OutColumn = (bool, usize);

/// The columns of both sides, those of the left one first.
pub open spec fn all_columns(l: nat, r: nat) -> Seq<OutColumn> {
    Seq::new(
        l + r,
        |i: int|
            if i < l {
                (true, i as usize)
            } else {
                (false, (i - l) as usize)
            },
    )
}

/// The name of an output column.
pub open spec fn out_name(s: Sides, c: OutColumn) -> Seq<char> {
    if c.0 {
        s.left.schema.names()[c.1 as int]
    } else {
        s.right.schema.names()[c.1 as int]
    }
}

/// The type of an output column.
pub open spec fn out_type(s: Sides, c: OutColumn) -> DataType {
    if c.0 {
        types_of(s.left.schema)[c.1 as int]
    } else {
        types_of(s.right.schema)[c.1 as int]
    }
}

/// The columns asked for from `i` on, behind `acc`; a name that no column has is passed over.
pub open spec fn asked_from(
    s: Sides,
    asked: Seq<Seq<char>>,
    i: int,
    acc: Seq<OutColumn>,
) -> Seq<OutColumn>
    decreases asked.len() - i,
{
    if i < 0 || i >= asked.len() {
        acc
    } else {
        let l = s.left.schema.names();
        let r = s.right.schema.names();
        asked_from(
            s,
            asked,
            i + 1,
            match name_from(l, asked[i], 0) {
                Some(k) => acc.push((true, k as usize)),
                None => match name_from(r, asked[i], 0) {
                    Some(k) => acc.push((false, k as usize)),
                    None => acc,
                },
            },
        )
    }
}

/// The output columns of a join: those asked for, or all.
pub open spec fn out_columns(s: Sides, asked: Option<Seq<Seq<char>>>) -> Seq<OutColumn> {
    match asked {
        None => all_columns(s.left.schema.names().len(), s.right.schema.names().len()),
        Some(names) => asked_from(s, names, 0, Seq::empty()),
    }
}

fn choose_columns(t: &Tables, asked: Option<&Vec<String>>) -> (r: Vec<OutColumn>)
    ensures
        r@ == out_columns(
            Sides { left: *t.left, right: *t.right, lk: t.lk as int, rk: t.rk as int },
            asked.deep_view(),
        ),
        forall|i: int| 0 <= i < r.len() ==> column_of(*t.left, *t.right, #[trigger] r@[i]),
{
    let ghost s = Sides { left: *t.left, right: *t.right, lk: t.lk as int, rk: t.rk as int };
    let mut out: Vec<OutColumn> = Vec::new();
    match asked {
        None => {
            let n = t.left.schema.columns.len();
            let r = t.right.schema.columns.len();
            let ghost all = all_columns(n as nat, r as nat);
            let mut i: usize = 0;
            while i < n
                invariant
                    0 <= i <= n,
                    n == t.left.schema.columns.len(),
                    all == all_columns(n as nat, r as nat),
                    out@ == all.take(i as int),
                    forall|k: int|
                        0 <= k < out.len() ==> column_of(*t.left, *t.right, #[trigger] out@[k]),
                decreases n - i,
            {
                let ghost had = out@;
                out.push((true, i));
                assert(out@ =~= had.push(all[i as int]));
                assert(all.take(i + 1) =~= had.push(all[i as int]));
                i += 1;
            }
            let mut j: usize = 0;
            while j < r
                invariant
                    0 <= j <= r,
                    n == t.left.schema.columns.len(),
                    r == t.right.schema.columns.len(),
                    all == all_columns(n as nat, r as nat),
                    out@ == all.take(n + j),
                    forall|k: int|
                        0 <= k < out.len() ==> column_of(*t.left, *t.right, #[trigger] out@[k]),
                decreases r - j,
            {
                let ghost had = out@;
                out.push((false, j));
                assert(out@ =~= had.push(all[n + j]));
                assert(all.take(n + j + 1) =~= had.push(all[n + j]));
                j += 1;
            }
            assert(all.take(all.len() as int) =~= all);
        },
        Some(names) => {
            let ghost nv = names.deep_view();
            let mut i: usize = 0;
            assert(out@ =~= Seq::<OutColumn>::empty());
            while i < names.len()
                invariant
                    0 <= i <= names.len(),
                    nv == names.deep_view(),
                    s.left == *t.left,
                    s.right == *t.right,
                    asked_from(s, nv, 0, Seq::empty()) == asked_from(s, nv, i as int, out@),
                    forall|k: int|
                        0 <= k < out.len() ==> column_of(*t.left, *t.right, #[trigger] out@[k]),
                decreases names.len() - i,
            {
                assert(nv[i as int] == names@[i as int]@);
                match t.left.schema.get_column(names[i].as_str()) {
                    Some(k) => out.push((true, k)),
                    None => {
                        if let Some(k) = t.right.schema.get_column(names[i].as_str()) {
                            out.push((false, k));
                        }
                    },
                }
                i += 1;
            }
        },
    }
    out
}

/// Whether there is such a column.
pub open spec fn column_of(left: TableInfo, right: TableInfo, c: OutColumn) -> bool {
    c.1 < if c.0 {
        left.schema.columns@.len()
    } else {
        right.schema.columns@.len()
    }
}

/// The columns of one side among output columns, from `i` on, behind `acc`.
pub open spec fn side_columns(cols: Seq<OutColumn>, left: bool, i: int, acc: Seq<usize>) -> Seq<
    usize,
>
    decreases cols.len() - i,
{
    if i < 0 || i >= cols.len() {
        acc
    } else {
        side_columns(
            cols,
            left,
            i + 1,
            if cols[i].0 == left {
                acc.push(cols[i].1)
            } else {
                acc
            },
        )
    }
}

proof fn lemma_side_columns(cols: Seq<OutColumn>, left: bool, i: int, acc: Seq<usize>, k: int)
    requires
        0 <= i <= k < cols.len(),
        cols[k].0 == left,
    ensures
        side_columns(cols, left, i, acc).contains(cols[k].1),
    decreases cols.len() - i,
{
    let next = if cols[i].0 == left {
        acc.push(cols[i].1)
    } else {
        acc
    };
    if i == k {
        assert(next[acc.len() as int] == cols[k].1);
        lemma_side_keeps(cols, left, i + 1, next, acc.len() as int);
    } else {
        lemma_side_columns(cols, left, i + 1, next, k);
    }
}

proof fn lemma_side_keeps(cols: Seq<OutColumn>, left: bool, i: int, acc: Seq<usize>, p: int)
    requires
        0 <= i,
        0 <= p < acc.len(),
    ensures
        side_columns(cols, left, i, acc).len() > p,
        side_columns(cols, left, i, acc)[p] == acc[p],
    decreases cols.len() - i,
{
    if i < cols.len() {
        let next = if cols[i].0 == left {
            acc.push(cols[i].1)
        } else {
            acc
        };
        lemma_side_keeps(cols, left, i + 1, next, p);
    }
}

fn columns_of_side(cols: &Vec<OutColumn>, left: bool, n: usize) -> (r: Vec<usize>)
    requires
        forall|i: int|
            0 <= i < cols.len() && (#[trigger] cols@[i]).0 == left ==> cols@[i].1 < n,
    ensures
        r@ == side_columns(cols@, left, 0, Seq::empty()),
        forall|i: int| 0 <= i < r.len() ==> #[trigger] r@[i] < n,
{
    let mut out: Vec<usize> = Vec::new();
    assert(out@ =~= Seq::<usize>::empty());
    let mut i: usize = 0;
    while i < cols.len()
        invariant
            0 <= i <= cols.len(),
            forall|k: int|
                0 <= k < cols.len() && (#[trigger] cols@[k]).0 == left ==> cols@[k].1 < n,
            side_columns(cols@, left, 0, Seq::empty()) == side_columns(
                cols@,
                left,
                i as int,
                out@,
            ),
            forall|k: int| 0 <= k < out.len() ==> #[trigger] out@[k] < n,
        decreases cols.len() - i,
    {
        let (side, c) = cols[i];
        if side == left {
            out.push(c);
        }
        i += 1;
    }
    out
}

/// Whether all output columns can be encoded at known places.
pub open spec fn all_fast(s: Sides, cols: Seq<OutColumn>) -> bool {
    fast_columns(types_of(s.left.schema), side_columns(cols, true, 0, Seq::empty()))
        && fast_columns(types_of(s.right.schema), side_columns(cols, false, 0, Seq::empty()))
}

/// An output column of two rows that meet, as a value of a message.
pub open spec fn wire_met(s: Sides, m: Met, c: OutColumn, fast: bool) -> Seq<u8> {
    let types = if c.0 {
        types_of(s.left.schema)
    } else {
        types_of(s.right.schema)
    };
    let data = if c.0 {
        Some(m.0)
    } else {
        m.1
    };
    match data {
        None => seq![0u8],
        Some(d) => if fast {
            fast_wire(
                d,
                c.1 as int,
                offset_from(types, 0, bitmap_len(types.len() as int), c.1 as int)->0,
                wire_tag(types[c.1 as int]),
                plain_size(types[c.1 as int]),
            )
        } else {
            wire_column(d, types, c.1 as int)
        },
    }
}

/// The first `n` output columns of two rows that meet.
pub open spec fn wire_row(s: Sides, m: Met, cols: Seq<OutColumn>, n: int, fast: bool) -> Seq<u8>
    decreases n,
{
    if n <= 0 {
        Seq::empty()
    } else {
        wire_row(s, m, cols, n - 1, fast) + wire_met(s, m, cols[n - 1], fast)
    }
}

/// The messages of the first `n` pairs of rows that meet.
pub open spec fn wire_rows(s: Sides, met: Seq<Met>, n: int, cols: Seq<OutColumn>) -> Seq<u8>
    decreases n,
{
    if n <= 0 {
        Seq::empty()
    } else {
        wire_rows(s, met, n - 1, cols) + message(
            MSG_ROW,
            wire_row(s, met[n - 1], cols, cols.len() as int, all_fast(s, cols)),
        )
    }
}

/// Whether the rows that meet are long enough to say which of their columns are NULL.
pub open spec fn long_enough(s: Sides, m: Met) -> bool {
    &&& m.0.len() >= bitmap_len(s.left.schema.columns@.len() as int)
    &&& m.1 matches Some(d) ==> d.len() >= bitmap_len(s.right.schema.columns@.len() as int)
}

/// The names of output columns.
pub open spec fn out_names(s: Sides, cols: Seq<OutColumn>) -> Seq<Seq<char>> {
    Seq::new(cols.len(), |i: int| out_name(s, cols[i]))
}

/// The tags of output columns.
pub open spec fn out_tags(s: Sides, cols: Seq<OutColumn>) -> Seq<u8> {
    Seq::new(cols.len(), |i: int| wire_tag(out_type(s, cols[i])))
}

/// A join by integer columns as messages; none, where it is not one or a row cannot be read.
pub open spec fn arena_messages(
    c: Catalog,
    pages: Seq<PageView>,
    lt: Seq<char>,
    rt: Seq<char>,
    on: Expr,
    asked: Option<Seq<Seq<char>>>,
    outer: bool,
) -> Option<Seq<u8>> {
    match sides(c, lt, rt, on) {
        None => None,
        Some(s) => match matched(pages, s, true, outer) {
            None => None,
            Some(met) => {
                let cols = out_columns(s, asked);
                if forall|i: int| 0 <= i < met.len() ==> long_enough(s, #[trigger] met[i]) {
                    Some(
                        header_message(out_names(s, cols), out_tags(s, cols)) + wire_rows(
                            s,
                            met,
                            met.len() as int,
                            cols,
                        ) + done_message(met.len() as int),
                    )
                } else {
                    None
                }
            },
        },
    }
}

struct Encoders {
    left: Vec<FastColEncoder>,
    right: Vec<FastColEncoder>,
}

/// Whether the encoders are those of the output columns of each side; there are none where a
/// column cannot be encoded at a known place.
spec fn fit_encoders(encoders: Option<Encoders>, s: Sides, cols: Seq<OutColumn>) -> bool {
    let a = side_columns(cols, true, 0, Seq::empty());
    let b = side_columns(cols, false, 0, Seq::empty());
    &&& encoders is Some == all_fast(s, cols)
    &&& encoders matches Some(e) ==> {
        &&& e.left@.len() == a.len()
        &&& e.right@.len() == b.len()
        &&& forall|i: int|
            0 <= i < a.len() ==> encodes(
                #[trigger] e.left@[i],
                types_of(s.left.schema),
                a[i] as int,
            )
        &&& forall|i: int|
            0 <= i < b.len() ==> encodes(
                #[trigger] e.right@[i],
                types_of(s.right.schema),
                b[i] as int,
            )
    }
}

fn make_encoders(t: &Tables, cols: &Vec<OutColumn>) -> (r: Option<Encoders>)
    requires
        t.left.schema.columns.len() > 0,
        t.right.schema.columns.len() > 0,
        forall|i: int| 0 <= i < cols.len() ==> column_of(*t.left, *t.right, #[trigger] cols@[i]),
    ensures
        fit_encoders(r, t.sides(), cols@),
{
    let n = t.left.schema.columns.len();
    let k = t.right.schema.columns.len();
    assert forall|i: int| 0 <= i < cols.len() && (#[trigger] cols@[i]).0 implies cols@[i].1 < n by {
        assert(column_of(*t.left, *t.right, cols@[i]));
    }
    assert forall|i: int| 0 <= i < cols.len() && !(#[trigger] cols@[i]).0 implies cols@[i].1
        < k by {
        assert(column_of(*t.left, *t.right, cols@[i]));
    }
    let l = columns_of_side(cols, true, n);
    let q = columns_of_side(cols, false, k);
    match (
        build_fast_encoders(&t.left.schema, l.as_slice()),
        build_fast_encoders(&t.right.schema, q.as_slice()),
    ) {
        (Some(left), Some(right)) => Some(Encoders { left, right }),
        _ => None,
    }
}

fn encode_row(
    t: &Tables,
    cols: &Vec<OutColumn>,
    encoders: &Option<Encoders>,
    linfo: &Vec<ColInfo>,
    rinfo: &Vec<ColInfo>,
    l: &[u8],
    r: Option<&[u8]>,
) -> (p: Vec<u8>)
    requires
        forall|i: int| 0 <= i < cols.len() ==> column_of(*t.left, *t.right, #[trigger] cols@[i]),
        l@.len() >= bitmap_len(t.left.schema.columns.len() as int),
        r matches Some(d) ==> d@.len() >= bitmap_len(t.right.schema.columns.len() as int),
        fit_encoders(*encoders, t.sides(), cols@),
    ensures
        ({
            let s = Sides { left: *t.left, right: *t.right, lk: t.lk as int, rk: t.rk as int };
            let m = (
                l@,
                match r {
                    Some(d) => Some(d@),
                    None => None,
                },
            );
            p@ == wire_row(s, m, cols@, cols@.len() as int, all_fast(s, cols@))
        }),
{
    let ghost s = Sides { left: *t.left, right: *t.right, lk: t.lk as int, rk: t.rk as int };
    let ghost m = (
        l@,
        match r {
            Some(d) => Some(d@),
            None => None,
        },
    );
    let ghost fast = all_fast(s, cols@);
    let ghost a = side_columns(cols@, true, 0, Seq::empty());
    let ghost b = side_columns(cols@, false, 0, Seq::empty());
    let mut out: Vec<u8> = Vec::new();
    let mut i: usize = 0;
    let mut li: usize = 0;
    let mut ri: usize = 0;
    assert(out@ =~= wire_row(s, m, cols@, 0, fast));
    assert(a.take(0) =~= Seq::<usize>::empty());
    assert(b.take(0) =~= Seq::<usize>::empty());
    while i < cols.len()
        invariant
            0 <= i <= cols.len(),
            s == (Sides { left: *t.left, right: *t.right, lk: t.lk as int, rk: t.rk as int }),
            m.0 == l@,
            match r {
                Some(d) => m.1 == Some(d@),
                None => m.1 is None,
            },
            forall|k: int| 0 <= k < cols.len() ==> column_of(*t.left, *t.right, #[trigger] cols@[k]),
            l@.len() >= bitmap_len(t.left.schema.columns.len() as int),
            r matches Some(d) ==> d@.len() >= bitmap_len(t.right.schema.columns.len() as int),
            fast == all_fast(s, cols@),
            a == side_columns(cols@, true, 0, Seq::empty()),
            b == side_columns(cols@, false, 0, Seq::empty()),
            encoders is Some == fast,
            encoders matches Some(e) ==> e.left@.len() == a.len() && e.right@.len() == b.len(),
            encoders matches Some(e) ==> forall|k: int|
                0 <= k < a.len() ==> encodes(
                    #[trigger] e.left@[k],
                    types_of(t.left.schema),
                    a[k] as int,
                ),
            encoders matches Some(e) ==> forall|k: int|
                0 <= k < b.len() ==> encodes(
                    #[trigger] e.right@[k],
                    types_of(t.right.schema),
                    b[k] as int,
                ),
            0 <= li <= a.len(),
            0 <= ri <= b.len(),
            li <= i,
            ri <= i,
            a == side_columns(cols@, true, i as int, a.take(li as int)),
            b == side_columns(cols@, false, i as int, b.take(ri as int)),
            out@ == wire_row(s, m, cols@, i as int, fast),
        decreases cols.len() - i,
    {
        let (left, c) = cols[i];
        assert(column_of(*t.left, *t.right, cols@[i as int]));
        let ghost had = out@;
        if left {
            proof {
                lemma_side_keeps(cols@, true, i + 1, a.take(li as int).push(c), li as int);
                assert(a[li as int] == c);
                assert(a.take(li + 1) =~= a.take(li as int).push(c));
            }
            match encoders {
                Some(e) => {
                    assert(encodes(e.left@[li as int], types_of(t.left.schema), a[li as int] as int));
                    e.left[li].encode(&mut out, l);
                },
                None => encode_single_column_raw(
                    &mut out,
                    l,
                    &t.left.schema,
                    linfo.as_slice(),
                    c,
                ),
            }
            li += 1;
        } else {
            proof {
                lemma_side_keeps(cols@, false, i + 1, b.take(ri as int).push(c), ri as int);
                assert(b[ri as int] == c);
                assert(b.take(ri + 1) =~= b.take(ri as int).push(c));
            }
            match r {
                None => {
                    out.push(0);
                    assert(out@ =~= had + seq![0u8]);
                },
                Some(d) => match encoders {
                    Some(e) => {
                        assert(encodes(
                            e.right@[ri as int],
                            types_of(t.right.schema),
                            b[ri as int] as int,
                        ));
                        e.right[ri].encode(&mut out, d);
                    },
                    None => encode_single_column_raw(
                        &mut out,
                        d,
                        &t.right.schema,
                        rinfo.as_slice(),
                        c,
                    ),
                },
            }
            ri += 1;
        }
        assert(out@ =~= had + wire_met(s, m, cols@[i as int], fast));
        i += 1;
    }
    out
}

fn put_rows(
    out: &mut Vec<u8>,
    m: &Matches,
    t: &Tables,
    cols: &Vec<OutColumn>,
    encoders: &Option<Encoders>,
) -> (r: bool)
    requires
        m.wf(),
        forall|k: int| 0 <= k < cols.len() ==> column_of(*t.left, *t.right, #[trigger] cols@[k]),
        fit_encoders(*encoders, t.sides(), cols@),
    ensures
        r == (forall|i: int|
            0 <= i < m.met().len() ==> long_enough(t.sides(), #[trigger] m.met()[i])),
        r ==> final(out)@ == old(out)@ + wire_rows(
            t.sides(),
            m.met(),
            m.met().len() as int,
            cols@,
        ),
{
    let ghost s = t.sides();
    let ghost met = m.met();
    let ghost start = out@;
    let linfo = compute_column_info(&t.left.schema);
    let rinfo = compute_column_info(&t.right.schema);
    let lmin: usize = bitmap_bytes(t.left.schema.columns.len());
    let rmin: usize = bitmap_bytes(t.right.schema.columns.len());
    assert(start + wire_rows(s, met, 0, cols@) =~= start);
    let mut i: usize = 0;
    while i < m.pairs.len()
        invariant
            0 <= i <= m.pairs.len(),
            m.wf(),
            met == m.met(),
            met.len() == m.pairs.len(),
            s == t.sides(),
            lmin == bitmap_len(t.left.schema.columns.len() as int),
            rmin == bitmap_len(t.right.schema.columns.len() as int),
            forall|k: int| 0 <= k < cols.len() ==> column_of(*t.left, *t.right, #[trigger] cols@[k]),
            fit_encoders(*encoders, s, cols@),
            forall|k: int| 0 <= k < i ==> long_enough(s, #[trigger] met[k]),
            out@ == start + wire_rows(s, met, i as int, cols@),
        decreases m.pairs.len() - i,
    {
        let (l, r) = m.row(i);
        let short = l.len() < lmin || match r {
            Some(d) => d.len() < rmin,
            None => false,
        };
        if short {
            assert(!long_enough(s, met[i as int]));
            return false;
        }
        let p = encode_row(t, cols, encoders, &linfo, &rinfo, l, r);
        append_msg(out, MSG_ROW, &p);
        assert(out@ =~= start + wire_rows(s, met, i + 1, cols@));
        i += 1;
    }
    true
}

fn arena_wire(
    left_table: &str,
    right_table: &str,
    on_expr: &Expr,
    catalog: &Catalog,
    cbpm: &BufferPool,
    projection: Option<&Vec<String>>,
    outer: bool,
) -> (r: Option<Vec<u8>>)
    ensures
        r.deep_view() == arena_messages(
            *catalog,
            cbpm@,
            left_table@,
            right_table@,
            *on_expr,
            projection.deep_view(),
            outer,
        ),
{
    let t = match find_sides(catalog, left_table, right_table, on_expr) {
        Some(t) => t,
        None => {
            return None;
        },
    };
    let m = match find_matches(cbpm, &t, true, outer) {
        Some(m) => m,
        None => {
            return None;
        },
    };
    let cols = choose_columns(&t, projection);
    let (names, tags) = describe_columns(&t, &cols);
    let encoders = make_encoders(&t, &cols);
    let mut out: Vec<u8> = Vec::new();
    put_header(&mut out, &names, &tags);
    if !put_rows(&mut out, &m, &t, &cols, &encoders) {
        return None;
    }
    assert(m.met().len() == m.pairs.len());
    put_done(&mut out, m.pairs.len());
    proof {
        let s = t.sides();
        let h = header_message(out_names(s, cols@), out_tags(s, cols@));
        let w = wire_rows(s, m.met(), m.met().len() as int, cols@);
        let d = done_message(m.met().len() as int);
        assert(out@ =~= h + w + d);
        assert(out.deep_view() =~= out@);
    }
    Some(out)
}

fn describe_columns(t: &Tables, cols: &Vec<OutColumn>) -> (r: (Vec<String>, Vec<u8>))
    requires
        forall|i: int| 0 <= i < cols.len() ==> column_of(*t.left, *t.right, #[trigger] cols@[i]),
    ensures
        ({
            let s = Sides { left: *t.left, right: *t.right, lk: t.lk as int, rk: t.rk as int };
            r.0.deep_view() == out_names(s, cols@) && r.1@ == out_tags(s, cols@)
        }),
{
    let ghost s = Sides { left: *t.left, right: *t.right, lk: t.lk as int, rk: t.rk as int };
    let mut names: Vec<String> = Vec::new();
    let mut tags: Vec<u8> = Vec::new();
    let mut i: usize = 0;
    while i < cols.len()
        invariant
            0 <= i <= cols.len(),
            s == (Sides { left: *t.left, right: *t.right, lk: t.lk as int, rk: t.rk as int }),
            names.len() == i,
            tags.len() == i,
            forall|k: int| 0 <= k < cols.len() ==> column_of(*t.left, *t.right, #[trigger] cols@[k]),
            forall|k: int| 0 <= k < i ==> (#[trigger] names@[k])@ == out_name(s, cols@[k]),
            forall|k: int|
                0 <= k < i ==> #[trigger] tags@[k] == wire_tag(out_type(s, cols@[k])),
        decreases cols.len() - i,
    {
        let (left, c) = cols[i];
        assert(column_of(*t.left, *t.right, cols@[i as int]));
        let col = if left {
            &t.left.schema.columns[c]
        } else {
            &t.right.schema.columns[c]
        };
        names.push(col.name.clone());
        tags.push(datatype_to_wire_tag(&col.data_type));
        i += 1;
    }
    assert(names.deep_view() =~= out_names(s, cols@));
    assert(tags@ =~= out_tags(s, cols@));
    (names, tags)
}

/// Try an arena-based hash join with optional column projection.
/// Returns ForgeWire-ready binary bytes on success.
pub fn try_arena_join_projected(
    left_table: &str,
    _left_alias: Option<&str>,
    right_table: &str,
    _right_alias: Option<&str>,
    on_expr: &Expr,
    catalog: &Catalog,
    cbpm: &BufferPool,
    projection: Option<&Vec<String>>,
) -> (r: Option<Vec<u8>>)
    ensures
        r.deep_view() == arena_messages(
            *catalog,
            cbpm@,
            left_table@,
            right_table@,
            *on_expr,
            projection.deep_view(),
            false,
        ),
{
    arena_wire(left_table, right_table, on_expr, catalog, cbpm, projection, false)
}

/// Try an arena-based hash join. Returns ForgeWire-ready binary bytes on success.
/// All columns encoded (no projection).
pub fn try_arena_join(
    left_table: &str,
    left_alias: Option<&str>,
    right_table: &str,
    right_alias: Option<&str>,
    on_expr: &Expr,
    catalog: &Catalog,
    cbpm: &BufferPool,
) -> (r: Option<Vec<u8>>)
    ensures
        r.deep_view() == arena_messages(
            *catalog,
            cbpm@,
            left_table@,
            right_table@,
            *on_expr,
            None,
            false,
        ),
{
    try_arena_join_projected(
        left_table,
        left_alias,
        right_table,
        right_alias,
        on_expr,
        catalog,
        cbpm,
        None,
    )
}

/// LEFT JOIN via ForgeWire — unmatched left rows get NULLs for right columns.
pub fn try_arena_left_join_projected(
    left_table: &str,
    _left_alias: Option<&str>,
    right_table: &str,
    _right_alias: Option<&str>,
    on_expr: &Expr,
    catalog: &Catalog,
    cbpm: &BufferPool,
    projection: Option<&Vec<String>>,
) -> (r: Option<Vec<u8>>)
    ensures
        r.deep_view() == arena_messages(
            *catalog,
            cbpm@,
            left_table@,
            right_table@,
            *on_expr,
            projection.deep_view(),
            true,
        ),
{
    arena_wire(left_table, right_table, on_expr, catalog, cbpm, projection, true)
}

} // verus!
