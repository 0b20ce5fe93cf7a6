//! Indexes rebuilt from what the tables hold.
use crate::catalog::{Catalog, TableInfo};
use crate::common::RID;
use crate::composite::{belongs_to, find_key_in, is_on, key_in};
use crate::index::{BTreeIndex, IndexView};
use crate::insert::{bare, bare_part};
use crate::storage::{table_tuples, BufferPool, PageView, RawView};
use crate::text::copy_texts;
use crate::tuple::{deserialize, tuple_read, types_of};
use crate::types::{DataType, ValueView};
use crate::values::sort_key;
use vstd::prelude::*;

verus! {

/// The first table from `i` on whose columns an index of this name is on.
pub open spec fn owner_from(
    tables: Seq<(String, TableInfo)>,
    i: int,
    key: Seq<char>,
    columns: Seq<Seq<char>>,
) -> Option<int>
    decreases tables.len() - i,
{
    if i < 0 || i >= tables.len() {
        None
    } else if is_on(key, columns, tables[i].1.name@, tables[i].1.schema.names()) {
        Some(i)
    } else {
        owner_from(tables, i + 1, key, columns)
    }
}

/// An index on columns of a table: its name and columns, and the names of the table and of all
/// of its columns.
pub struct Place {
    pub name: Seq<char>,
    pub columns: Seq<Seq<char>>,
    pub table: Seq<char>,
    pub names: Seq<Seq<char>>,
}

/// Where an index stands to a table.
pub open spec fn place_on(name: Seq<char>, columns: Seq<Seq<char>>, info: TableInfo) -> Place {
    Place { name, columns, table: info.name@, names: info.schema.names() }
}

/// The index with the rows of the tuples from `i` on entered; those that cannot be read are
/// passed over.
pub open spec fn refilled_from(
    raws: Seq<RawView>,
    i: int,
    mvcc: bool,
    types: Seq<DataType>,
    at: Place,
    index: IndexView,
) -> IndexView
    decreases raws.len() - i,
{
    if i < 0 || i >= raws.len() {
        index
    } else {
        refilled_from(
            raws,
            i + 1,
            mvcc,
            types,
            at,
            match entry_of(raws[i], mvcc, types, at) {
                Some(v) => index.with(v, raws[i].0),
                None => index,
            },
        )
    }
}

/// An index with an entry for each row of its table; as it is, if its table is not there or
/// cannot be read.
pub open spec fn rebuilt(c: Catalog, pages: Seq<PageView>, index: (Seq<char>, IndexView)) -> (
    Seq<char>,
    IndexView,
) {
    match owner_from(c.tables@, 0, index.0, index.1.columns) {
        None => index,
        Some(k) => {
            let info = c.tables@[k].1;
            match table_tuples(pages, info.first_page_id.0) {
                Err(_) => index,
                Ok(raws) => (
                    index.0,
                    refilled_from(
                        raws,
                        0,
                        info.mvcc_enabled,
                        types_of(info.schema),
                        place_on(index.0, index.1.columns, info),
                        IndexView { entries: Seq::empty(), ..index.1 },
                    ),
                ),
            }
        },
    }
}

/// The indexes, each with an entry for each row of its table.
pub open spec fn reindexed(
    c: Catalog,
    pages: Seq<PageView>,
    indexes: Seq<(Seq<char>, IndexView)>,
) -> Seq<(Seq<char>, IndexView)> {
    Seq::new(indexes.len(), |i: int| rebuilt(c, pages, indexes[i]))
}

fn refill(
    raws: &Vec<(RID, Vec<u8>)>,
    info: &TableInfo,
    name: &str,
    index: &BTreeIndex,
) -> (r: BTreeIndex)
    ensures
        r.deep_view() == refilled_from(
            raws.deep_view(),
            0,
            info.mvcc_enabled,
            types_of(info.schema),
            place_on(name@, index.deep_view().columns, *info),
            IndexView { entries: Seq::empty(), ..index.deep_view() },
        ),
{
    let ghost rv = raws.deep_view();
    let ghost types = types_of(info.schema);
    let ghost at = place_on(name@, index.deep_view().columns, *info);
    let mvcc = info.mvcc_enabled;
    let mut out = BTreeIndex::create_composite(
        index.key_type,
        index.table_id,
        index.column_index,
        copy_texts(&index.columns),
    );
    let ghost all = refilled_from(rv, 0, mvcc, types, at, out.deep_view());
    let mut i: usize = 0;
    while i < raws.len()
        invariant
            0 <= i <= raws.len(),
            rv == raws.deep_view(),
            types == types_of(info.schema),
            mvcc == info.mvcc_enabled,
            at == place_on(name@, index.deep_view().columns, *info),
            all == refilled_from(rv, i as int, mvcc, types, at, out.deep_view()),
        decreases raws.len() - i,
    {
        assert(rv[i as int].0 == raws@[i as int].0);
        assert(rv[i as int].1 =~= raws@[i as int].1@);
        if let Ok(row) = deserialize(bare_part(raws[i].1.as_slice(), mvcc), &info.schema) {
            let key = find_key_in(name, &index.columns, info.name.as_str(), &info.schema, &row);
            if let Some(v) = key {
                out.insert(&v, raws[i].0);
            }
        }
        i += 1;
    }
    out
}

fn find_owner(catalog: &Catalog, key: &str, columns: &Vec<String>) -> (r: Option<usize>)
    ensures
        match r {
            Some(k) => k < catalog.tables.len() && owner_from(
                catalog.tables@,
                0,
                key@,
                columns.deep_view(),
            ) == Some(k as int),
            None => owner_from(catalog.tables@, 0, key@, columns.deep_view()) is None,
        },
{
    let ghost cv = columns.deep_view();
    let mut i: usize = 0;
    while i < catalog.tables.len()
        invariant
            0 <= i <= catalog.tables.len(),
            cv == columns.deep_view(),
            owner_from(catalog.tables@, 0, key@, cv) == owner_from(
                catalog.tables@,
                i as int,
                key@,
                cv,
            ),
        decreases catalog.tables.len() - i,
    {
        let info = &catalog.tables[i].1;
        if belongs_to(key, columns, info.name.as_str(), &info.schema) {
            return Some(i);
        }
        i += 1;
    }
    None
}

/// Enters the rows of all tables into their indexes anew.
pub fn reindex(catalog: &Catalog, bpm: &BufferPool, indexes: &mut Vec<(String, BTreeIndex)>)
    ensures
        final(indexes).deep_view() == reindexed(*catalog, bpm@, old(indexes).deep_view()),
{
    let ghost start = indexes.deep_view();
    let ghost all = reindexed(*catalog, bpm@, start);
    let mut i: usize = 0;
    while i < indexes.len()
        invariant
            0 <= i <= indexes.len(),
            indexes.len() == start.len(),
            all == reindexed(*catalog, bpm@, start),
            forall|k: int| 0 <= k < i ==> (#[trigger] indexes@[k]).deep_view() == all[k],
            forall|k: int| i <= k < start.len() ==> (#[trigger] indexes@[k]).deep_view()
                == start[k],
        decreases indexes.len() - i,
    {
        assert(start[i as int] == indexes@[i as int].deep_view());
        if let Some(k) = find_owner(catalog, indexes[i].0.as_str(), &indexes[i].1.columns) {
            let info = &catalog.tables[k].1;
            if let Ok(raws) = bpm.table_iterator(info.first_page_id) {
                indexes[i].1 = refill(&raws, info, indexes[i].0.as_str(), &indexes[i].1);
            }
        }
        i += 1;
    }
    assert(indexes.deep_view() =~= all);
}

/// The key under which an index enters a stored row; none, if the row cannot be read.
pub open spec fn entry_of(raw: RawView, mvcc: bool, types: Seq<DataType>, at: Place) -> Option<
    ValueView,
> {
    match tuple_read(bare(raw.1, mvcc), types) {
        Err(_) => None,
        Ok(row) => key_in(at.name, at.columns, at.table, at.names, row),
    }
}

/// An index that is rebuilt has an entry for each row of its table that can be read and has a key
/// in it, and for nothing else.
pub proof fn law_rebuilt_index_enters_every_row(
    raws: Seq<RawView>,
    mvcc: bool,
    types: Seq<DataType>,
    at: Place,
    index: IndexView,
    key: Seq<u8>,
    rid: RID,
)
    ensures
        refilled_from(
            raws,
            0,
            mvcc,
            types,
            at,
            IndexView { entries: Seq::empty(), ..index },
        ).entries.contains((key, rid)) <==> exists|k: int|
            0 <= k < raws.len() && #[trigger] entered_as(raws[k], mvcc, types, at, (key, rid)),
{
    lemma_refilled(
        raws,
        0,
        mvcc,
        types,
        at,
        IndexView { entries: Seq::empty(), ..index },
        (key, rid),
    );
}

/// Whether an index has an entry for a stored row.
pub open spec fn entered_as(
    raw: RawView,
    mvcc: bool,
    types: Seq<DataType>,
    at: Place,
    e: (Seq<u8>, RID),
) -> bool {
    match entry_of(raw, mvcc, types, at) {
        Some(v) => e == (sort_key(v), raw.0),
        None => false,
    }
}

proof fn lemma_refilled(
    raws: Seq<RawView>,
    i: int,
    mvcc: bool,
    types: Seq<DataType>,
    at: Place,
    index: IndexView,
    e: (Seq<u8>, RID),
)
    requires
        0 <= i <= raws.len(),
    ensures
        refilled_from(raws, i, mvcc, types, at, index).entries.contains(e) <==> (
        index.entries.contains(e) || exists|k: int|
            i <= k < raws.len() && #[trigger] entered_as(raws[k], mvcc, types, at, e)),
    decreases raws.len() - i,
{
    if i < raws.len() {
        let own = entry_of(raws[i], mvcc, types, at);
        let next = match own {
            Some(v) => index.with(v, raws[i].0),
            None => index,
        };
        lemma_refilled(raws, i + 1, mvcc, types, at, next, e);
        assert(entered_as(raws[i], mvcc, types, at, e) ==> own is Some);
        if let Some(v) = own {
            let x = (sort_key(v), raws[i].0);
            assert(next.entries == index.entries.push(x));
            assert(next.entries[index.entries.len() as int] == x);
            assert(next.entries.contains(e) ==> index.entries.contains(e) || e == x) by {
                if next.entries.contains(e) {
                    let j = choose|j: int| 0 <= j < next.entries.len() && next.entries[j] == e;
                    if j < index.entries.len() {
                        assert(index.entries[j] == e);
                    }
                }
            }
            assert(index.entries.contains(e) ==> next.entries.contains(e)) by {
                if index.entries.contains(e) {
                    let j = choose|j: int| 0 <= j < index.entries.len() && index.entries[j] == e;
                    assert(next.entries[j] == e);
                }
            }
            if e == x {
                assert(entered_as(raws[i], mvcc, types, at, e));
            }
        }
    }
}

} // verus!
