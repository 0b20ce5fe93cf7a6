//! Indexes: from a key to the place of a row, and rows read in the order of a key.
use crate::bytes::{lemma_bytes_deep, same_bytes};
use crate::common::{TableId, RID};
use crate::composite::{first_part, make_first_part};
use crate::order::Order;
use crate::schema::Schema;
use crate::storage::RawView;
use crate::tuple::{deserialize, tuple_read, types_of};
use crate::types::{DataType, Value, ValueView};
use crate::values::sort_key;
use vstd::prelude::*;

verus! {

// ---------------------------------------------------------------------------
// Secondary indexes
// ---------------------------------------------------------------------------

/// An index on one or more columns of a table.
#[derive(Debug)]
pub struct BTreeIndex {
    pub key_type: DataType,
    pub table_id: TableId,
    /// The first indexed column.
    pub column_index: usize,
    /// The indexed columns, if there are several.
    pub columns: Vec<String>,
    /// Keys as bytes, with the places of their rows.
    pub entries: Vec<(Vec<u8>, RID)>,
}

/// [`BTreeIndex`] as mathematical values.
pub struct IndexView {
    pub key_type: DataType,
    pub table_id: TableId,
    pub column_index: usize,
    pub columns: Seq<Seq<char>>,
    pub entries: Seq<(Seq<u8>, RID)>,
}

impl DeepView for BTreeIndex {
    type V = IndexView;

    open spec fn deep_view(&self) -> IndexView {
        IndexView {
            key_type: self.key_type,
            table_id: self.table_id,
            column_index: self.column_index,
            columns: self.columns.deep_view(),
            entries: self.entries.deep_view(),
        }
    }
}

/// The first entry with a key, from `i` on.
pub open spec fn key_place(entries: Seq<(Seq<u8>, RID)>, key: Seq<u8>, i: int) -> Option<int>
    decreases entries.len() - i,
{
    if i < 0 || i >= entries.len() {
        None
    } else if entries[i].0 == key {
        Some(i)
    } else {
        key_place(entries, key, i + 1)
    }
}

pub proof fn lemma_key_place(entries: Seq<(Seq<u8>, RID)>, key: Seq<u8>, i: int)
    requires
        0 <= i,
    ensures
        key_place(entries, key, i) matches Some(k) ==> i <= k < entries.len() && entries[k].0
            == key,
    decreases entries.len() - i,
{
    if i < entries.len() && entries[i].0 != key {
        lemma_key_place(entries, key, i + 1);
    }
}

/// The first place from `i` on of the entry of a row under a key.
pub open spec fn entry_place(entries: Seq<(Seq<u8>, RID)>, key: Seq<u8>, rid: RID, i: int) -> Option<
    int,
>
    decreases entries.len() - i,
{
    if i < 0 || i >= entries.len() {
        None
    } else if entries[i] == (key, rid) {
        Some(i)
    } else {
        entry_place(entries, key, rid, i + 1)
    }
}

/// Where an entry is found, it stands; where it is not, it stands nowhere.
pub proof fn lemma_entry_place(entries: Seq<(Seq<u8>, RID)>, key: Seq<u8>, rid: RID, i: int)
    requires
        0 <= i,
    ensures
        match entry_place(entries, key, rid, i) {
            Some(k) => i <= k < entries.len() && entries[k] == (key, rid),
            None => forall|k: int|
                i <= k < entries.len() ==> #[trigger] entries[k] != (key, rid),
        },
    decreases entries.len() - i,
{
    if i < entries.len() && entries[i] != (key, rid) {
        lemma_entry_place(entries, key, rid, i + 1);
    }
}

/// Whether the key of an entry is the one wanted or, in an index on several columns, begins with
/// it.
pub open spec fn key_meets(entry: Seq<u8>, key: Seq<u8>, several: bool) -> bool {
    if several {
        key.len() <= entry.len() && entry.take(key.len() as int) == key
    } else {
        entry == key
    }
}

fn does_key_meet(entry: &Vec<u8>, key: &Vec<u8>, several: bool) -> (r: bool)
    ensures
        r == key_meets(entry@, key@, several),
{
    if !several {
        return same_bytes(entry, key);
    }
    if key.len() > entry.len() {
        return false;
    }
    let mut i: usize = 0;
    while i < key.len()
        invariant
            0 <= i <= key.len() <= entry.len(),
            forall|j: int| 0 <= j < i ==> entry@[j] == key@[j],
        decreases key.len() - i,
    {
        if entry[i] != key[i] {
            assert(entry@.take(key.len() as int)[i as int] != key@[i as int]);
            return false;
        }
        i += 1;
    }
    assert(entry@.take(key.len() as int) =~= key@);
    true
}

/// The places of the rows whose keys meet a key, from entry `i` on, behind `acc`.
pub open spec fn rids_from(
    entries: Seq<(Seq<u8>, RID)>,
    key: Seq<u8>,
    several: bool,
    i: int,
    acc: Seq<RID>,
) -> Seq<RID>
    decreases entries.len() - i,
{
    if i < 0 || i >= entries.len() {
        acc
    } else {
        rids_from(
            entries,
            key,
            several,
            i + 1,
            if key_meets(entries[i].0, key, several) {
                acc.push(entries[i].1)
            } else {
                acc
            },
        )
    }
}

impl IndexView {
    /// Whether the index is on several columns.
    pub open spec fn several(self) -> bool {
        self.columns.len() > 1
    }

    /// The key under which the rows with a value in the first column stand, or begin to.
    pub open spec fn wanted(self, v: ValueView) -> Seq<u8> {
        if self.several() {
            sort_key(first_part(v))
        } else {
            sort_key(v)
        }
    }

    /// Where the rows with a value in the first column are.
    pub open spec fn all_found(self, v: ValueView) -> Seq<RID> {
        rids_from(self.entries, self.wanted(v), self.several(), 0, Seq::empty())
    }

    /// Where the row with a key is.
    pub open spec fn found(self, v: ValueView) -> Option<RID> {
        match key_place(self.entries, sort_key(v), 0) {
            Some(k) => Some(self.entries[k].1),
            None => None,
        }
    }

    /// The index with an entry more.
    pub open spec fn with(self, v: ValueView, rid: RID) -> IndexView {
        IndexView { entries: self.entries.push((sort_key(v), rid)), ..self }
    }

    /// The index without the entry of a row under a key.
    pub open spec fn without(self, v: ValueView, rid: RID) -> IndexView {
        match entry_place(self.entries, sort_key(v), rid, 0) {
            Some(k) => IndexView { entries: self.entries.remove(k), ..self },
            None => self,
        }
    }
}

impl BTreeIndex {
    /// An index without entries.
    pub fn create_composite(
        key_type: DataType,
        table_id: TableId,
        column_index: usize,
        columns: Vec<String>,
    ) -> (r: BTreeIndex)
        ensures
            r.deep_view() == (IndexView {
                key_type,
                table_id,
                column_index,
                columns: columns.deep_view(),
                entries: Seq::empty(),
            }),
    {
        let r = BTreeIndex { key_type, table_id, column_index, columns, entries: Vec::new() };
        assert(r.entries.deep_view() =~= Seq::<(Seq<u8>, RID)>::empty());
        r
    }

    fn place(&self, key: &Vec<u8>) -> (r: Option<usize>)
        ensures
            match r {
                Some(k) => k < self.entries.len() && key_place(
                    self.deep_view().entries,
                    key@,
                    0,
                ) == Some(k as int),
                None => key_place(self.deep_view().entries, key@, 0) is None,
            },
    {
        let ghost ev = self.deep_view().entries;
        let mut i: usize = 0;
        while i < self.entries.len()
            invariant
                0 <= i <= self.entries.len(),
                ev == self.deep_view().entries,
                key_place(ev, key@, 0) == key_place(ev, key@, i as int),
            decreases self.entries.len() - i,
        {
            assert(ev[i as int].0 == self.entries@[i as int].0.deep_view());
            proof {
                lemma_bytes_deep(self.entries@[i as int].0);
            }
            if same_bytes(&self.entries[i].0, key) {
                return Some(i);
            }
            i += 1;
        }
        None
    }

    /// Where the row with a key is.
    pub fn search(&self, key: &Value) -> (r: Option<RID>)
        ensures
            r == self.deep_view().found(key@),
    {
        let k = key.to_sort_key_bytes();
        match self.place(&k) {
            Some(i) => {
                assert(self.deep_view().entries[i as int].1 == self.entries@[i as int].1);
                Some(self.entries[i].1)
            },
            None => None,
        }
    }

    /// Adds an entry.
    pub fn insert(&mut self, key: &Value, rid: RID)
        ensures
            final(self).deep_view() == old(self).deep_view().with(key@, rid),
    {
        let ghost before = self.deep_view();
        let k = key.to_sort_key_bytes();
        proof {
            lemma_bytes_deep(k);
        }
        self.entries.push((k, rid));
        assert(self.entries.deep_view() =~= before.entries.push((sort_key(key@), rid)));
    }

    /// Where the rows with a value in the first column are.
    pub fn search_all(&self, key: &Value) -> (r: Vec<RID>)
        ensures
            r@ == self.deep_view().all_found(key@),
    {
        let several = self.columns.len() > 1;
        let k = if several {
            make_first_part(key).to_sort_key_bytes()
        } else {
            key.to_sort_key_bytes()
        };
        let ghost ev = self.deep_view().entries;
        let mut out: Vec<RID> = Vec::new();
        let mut i: usize = 0;
        while i < self.entries.len()
            invariant
                0 <= i <= self.entries.len(),
                ev == self.deep_view().entries,
                k@ == self.deep_view().wanted(key@),
                several == self.deep_view().several(),
                rids_from(ev, k@, several, 0, Seq::empty()) == rids_from(
                    ev,
                    k@,
                    several,
                    i as int,
                    out@,
                ),
            decreases self.entries.len() - i,
        {
            assert(ev[i as int].0 == self.entries@[i as int].0.deep_view());
            assert(ev[i as int].1 == self.entries@[i as int].1);
            proof {
                lemma_bytes_deep(self.entries@[i as int].0);
            }
            if does_key_meet(&self.entries[i].0, &k, several) {
                out.push(self.entries[i].1);
            }
            i += 1;
        }
        out
    }

    fn own_place(&self, key: &Vec<u8>, rid: RID) -> (r: Option<usize>)
        ensures
            match r {
                Some(k) => k < self.entries.len() && entry_place(
                    self.deep_view().entries,
                    key@,
                    rid,
                    0,
                ) == Some(k as int),
                None => entry_place(self.deep_view().entries, key@, rid, 0) is None,
            },
    {
        let ghost ev = self.deep_view().entries;
        let mut i: usize = 0;
        while i < self.entries.len()
            invariant
                0 <= i <= self.entries.len(),
                ev == self.deep_view().entries,
                entry_place(ev, key@, rid, 0) == entry_place(ev, key@, rid, i as int),
            decreases self.entries.len() - i,
        {
            assert(ev[i as int].0 == self.entries@[i as int].0.deep_view());
            assert(ev[i as int].1 == self.entries@[i as int].1);
            proof {
                lemma_bytes_deep(self.entries@[i as int].0);
            }
            if same_bytes(&self.entries[i].0, key) && self.entries[i].1 == rid {
                return Some(i);
            }
            i += 1;
        }
        None
    }

    /// Removes the entry of a row under a key.
    pub fn delete(&mut self, key: &Value, rid: RID)
        ensures
            final(self).deep_view() == old(self).deep_view().without(key@, rid),
    {
        let ghost before = self.deep_view();
        let k = key.to_sort_key_bytes();
        if let Some(i) = self.own_place(&k, rid) {
            let _ = self.entries.remove(i);
            assert(self.entries.deep_view() =~= before.entries.remove(i as int));
        }
    }
}

/// A row whose key was not in an index is found once it is entered.
pub proof fn law_entered_row_is_found(index: IndexView, v: ValueView, rid: RID)
    requires
        index.found(v) is None,
    ensures
        index.with(v, rid).found(v) == Some(rid),
{
    lemma_place_in_longer(index.entries, sort_key(v), rid, 0);
}

proof fn lemma_place_in_longer(entries: Seq<(Seq<u8>, RID)>, key: Seq<u8>, rid: RID, i: int)
    requires
        0 <= i <= entries.len(),
        key_place(entries, key, i) is None,
    ensures
        key_place(entries.push((key, rid)), key, i) == Some(entries.len() as int),
    decreases entries.len() - i,
{
    if i < entries.len() {
        lemma_place_in_longer(entries, key, rid, i + 1);
    }
}

// ---------------------------------------------------------------------------
// Clustered indexes
// ---------------------------------------------------------------------------

/// The column in whose order the rows of a table are read.
#[derive(Debug)]
pub struct ClusteredIndex {
    pub key_column_index: usize,
}

/// [`ClusteredIndex`] as mathematical values.
pub struct ClusteredView {
    pub key_column_index: usize,
}

impl DeepView for ClusteredIndex {
    type V = ClusteredView;

    open spec fn deep_view(&self) -> ClusteredView {
        ClusteredView { key_column_index: self.key_column_index }
    }
}

/// The key of a stored row; none, if it cannot be read.
pub open spec fn part_key(part: Seq<u8>, types: Seq<DataType>, key: int) -> Option<ValueView> {
    match tuple_read(part, types) {
        Err(_) => None,
        Ok(row) => if key < row.len() {
            Some(row[key])
        } else {
            None
        },
    }
}

/// The first of the keys that is greater than `v`, from `i` on; the end, if there is none.
pub open spec fn greater_place(keys: Seq<Option<ValueView>>, v: ValueView, i: int) -> int
    decreases keys.len() - i,
{
    if i < 0 || i >= keys.len() {
        keys.len() as int
    } else if keys[i] is Some && v.compare(keys[i]->0) == Some(Order::Less) {
        i
    } else {
        greater_place(keys, v, i + 1)
    }
}

/// The stored rows `acc`, whose keys are `keys`, with those from `i` on put in, each before
/// the first one with a greater key.
pub open spec fn in_key_order(
    parts: Seq<RawView>,
    i: int,
    types: Seq<DataType>,
    key: int,
    keys: Seq<Option<ValueView>>,
    acc: Seq<RawView>,
) -> Seq<RawView>
    decreases parts.len() - i,
{
    if i < 0 || i >= parts.len() {
        acc
    } else {
        match part_key(parts[i].1, types, key) {
            None => in_key_order(
                parts,
                i + 1,
                types,
                key,
                keys.push(None),
                acc.push(parts[i]),
            ),
            Some(v) => {
                let k = greater_place(keys, v, 0);
                in_key_order(
                    parts,
                    i + 1,
                    types,
                    key,
                    keys.insert(k, Some(v)),
                    acc.insert(k, parts[i]),
                )
            },
        }
    }
}

fn find_greater(keys: &Vec<Option<Value>>, v: &Value) -> (r: usize)
    ensures
        r == greater_place(keys.deep_view(), v@, 0),
        r <= keys.len(),
{
    let ghost kv = keys.deep_view();
    let mut i: usize = 0;
    while i < keys.len()
        invariant
            0 <= i <= keys.len(),
            kv == keys.deep_view(),
            greater_place(kv, v@, 0) == greater_place(kv, v@, i as int),
        decreases keys.len() - i,
    {
        assert(kv[i as int] == keys@[i as int].deep_view());
        if let Some(k) = &keys[i] {
            if let Some(Order::Less) = v.compare(k) {
                return i;
            }
        }
        i += 1;
    }
    i
}

fn read_key(part: &[u8], schema: &Schema, key: usize) -> (r: Option<Value>)
    ensures
        r.deep_view() == part_key(part@, types_of(*schema), key as int),
{
    match deserialize(part, schema) {
        Err(_) => None,
        Ok(row) => {
            assert(row.deep_view().len() == row.len());
            if key < row.len() {
                assert(row.deep_view()[key as int] == row@[key as int]@);
                Some(row[key].clone())
            } else {
                None
            }
        },
    }
}

impl ClusteredIndex {
    /// An index by a column.
    pub fn create(key_column_index: usize) -> (r: ClusteredIndex)
        ensures
            r.deep_view() == (ClusteredView { key_column_index }),
    {
        ClusteredIndex { key_column_index }
    }

    /// The given rows of a table in the order of their keys.
    pub fn order(&self, parts: Vec<(RID, Vec<u8>)>, schema: &Schema) -> (r: Vec<(RID, Vec<u8>)>)
        ensures
            r.deep_view() == in_key_order(
                parts.deep_view(),
                0,
                types_of(*schema),
                self.key_column_index as int,
                Seq::empty(),
                Seq::empty(),
            ),
    {
        let mut parts = parts;
        let ghost pv = parts.deep_view();
        let ghost types = types_of(*schema);
        let key: usize = self.key_column_index;
        let ghost all = in_key_order(pv, 0, types, key as int, Seq::empty(), Seq::empty());
        let mut keys: Vec<Option<Value>> = Vec::new();
        let mut out: Vec<(RID, Vec<u8>)> = Vec::new();
        assert(keys.deep_view() =~= Seq::<Option<ValueView>>::empty());
        assert(out.deep_view() =~= Seq::<RawView>::empty());
        let mut i: usize = 0;
        while i < parts.len()
            invariant
                0 <= i <= parts.len(),
                parts.len() == pv.len(),
                keys.len() == out.len(),
                types == types_of(*schema),
                forall|j: int| i <= j < parts.len() ==> (#[trigger] parts@[j]).deep_view() == pv[j],
                all == in_key_order(
                    pv,
                    i as int,
                    types,
                    key as int,
                    keys.deep_view(),
                    out.deep_view(),
                ),
            decreases parts.len() - i,
        {
            let ghost had_keys = keys.deep_view();
            let ghost had = out.deep_view();
            assert(parts@[i as int].deep_view() == pv[i as int]);
            proof {
                lemma_bytes_deep(parts@[i as int].1);
            }
            let mut part: Vec<u8> = Vec::new();
            core::mem::swap(&mut part, &mut parts[i].1);
            let rid: RID = parts[i].0;
            let k = read_key(part.as_slice(), schema, key);
            let ghost kv = k.deep_view();
            let place: usize = match &k {
                Some(v) => find_greater(&keys, v),
                None => keys.len(),
            };
            proof {
                lemma_bytes_deep(part);
            }
            keys.insert(place, k);
            out.insert(place, (rid, part));
            assert(keys.deep_view() =~= had_keys.insert(place as int, kv));
            assert(out.deep_view() =~= had.insert(place as int, pv[i as int]));
            assert(had_keys.insert(had_keys.len() as int, kv) =~= had_keys.push(kv));
            assert(had.insert(had.len() as int, pv[i as int]) =~= had.push(pv[i as int]));
            i += 1;
        }
        out
    }
}

proof fn lemma_greater_place(keys: Seq<Option<ValueView>>, v: ValueView, i: int)
    requires
        0 <= i <= keys.len(),
    ensures
        i <= greater_place(keys, v, i) <= keys.len(),
    decreases keys.len() - i,
{
    if i < keys.len() {
        lemma_greater_place(keys, v, i + 1);
    }
}

/// Reading rows in the order of their keys gives each of them, as often as it is there.
pub proof fn law_key_order_rearranges(parts: Seq<RawView>, types: Seq<DataType>, key: int)
    ensures
        in_key_order(parts, 0, types, key, Seq::empty(), Seq::empty()).to_multiset()
            == parts.to_multiset(),
{
    assert(parts.take(0) =~= Seq::empty());
    lemma_key_order(parts, 0, types, key, Seq::empty(), Seq::empty());
    assert(parts.take(parts.len() as int) =~= parts);
}

proof fn lemma_key_order(
    parts: Seq<RawView>,
    i: int,
    types: Seq<DataType>,
    key: int,
    keys: Seq<Option<ValueView>>,
    acc: Seq<RawView>,
)
    requires
        0 <= i <= parts.len(),
        keys.len() == acc.len(),
        acc.to_multiset() == parts.take(i).to_multiset(),
    ensures
        in_key_order(parts, i, types, key, keys, acc).to_multiset() == parts.take(
            parts.len() as int,
        ).to_multiset(),
    decreases parts.len() - i,
{
    if i < parts.len() {
        broadcast use vstd::seq_lib::group_to_multiset_ensures;

        assert(parts.take(i + 1) =~= parts.take(i).push(parts[i]));
        match part_key(parts[i].1, types, key) {
            None => {
                lemma_key_order(
                    parts,
                    i + 1,
                    types,
                    key,
                    keys.push(None),
                    acc.push(parts[i]),
                );
            },
            Some(v) => {
                let k = greater_place(keys, v, 0);
                lemma_greater_place(keys, v, 0);
                lemma_key_order(
                    parts,
                    i + 1,
                    types,
                    key,
                    keys.insert(k, Some(v)),
                    acc.insert(k, parts[i]),
                );
            },
        }
    }
}

} // verus!
