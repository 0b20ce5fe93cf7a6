//! The catalog of tables.
use crate::common::{PageId, TableId};
use crate::error::{ErrorView, ForgeError, Result};
use crate::schema::Schema;
use crate::text::{lower_text, same_text};
use crate::types::Value;
use vstd::prelude::*;

verus! {

/// What ANALYZE has found out about a table.
#[derive(Debug)]
pub struct TableStatistics {
    pub row_count: u64,
    pub page_count: u64,
}

/// What ANALYZE has found out about a column.
#[derive(Debug)]
pub struct ColumnStatistics {
    pub distinct_count: u64,
    pub null_count: u64,
    pub min_value: Option<Value>,
    pub max_value: Option<Value>,
}

/// Metadata about a single table stored in the catalog.
#[derive(Debug)]
pub struct TableInfo {
    pub table_id: TableId,
    pub name: String,
    pub schema: Schema,
    pub first_page_id: PageId,
    /// Whether the tuples carry version headers.
    pub mvcc_enabled: bool,
    pub stats: Option<TableStatistics>,
    /// Statistics by lowercase column name.
    pub column_stats: Vec<(String, ColumnStatistics)>,
}

/// A stored query.
#[derive(Debug)]
pub struct ViewInfo {
    pub name: String,
    pub sql: String,
    pub column_aliases: Vec<String>,
}

/// In-memory catalog that tracks all tables in the database.
///
/// The catalog can be written to and read from a binary file so that table definitions
/// survive across restarts.
#[derive(Debug)]
pub struct Catalog {
    /// Tables with their lowercase names.
    pub tables: Vec<(String, TableInfo)>,
    pub next_table_id: u32,
    pub path: String,
    /// Views with their lowercase names.
    pub views: Vec<(String, ViewInfo)>,
}

/// The place of a key among keyed entries, from `i` on.
pub open spec fn entry_from<T>(entries: Seq<(String, T)>, key: Seq<char>, i: int) -> Option<int>
    decreases entries.len() - i,
{
    if i < 0 || i >= entries.len() {
        None
    } else if entries[i].0@ == key {
        Some(i)
    } else {
        entry_from(entries, key, i + 1)
    }
}

/// The place of a key among keyed entries.
pub open spec fn entry<T>(entries: Seq<(String, T)>, key: Seq<char>) -> Option<int> {
    entry_from(entries, key, 0)
}

/// Whether no two entries have the same key.
pub open spec fn keys_differ<T>(entries: Seq<(String, T)>) -> bool {
    forall|i: int, j: int|
        0 <= i < j < entries.len() ==> (#[trigger] entries[i]).0@ != (#[trigger] entries[j]).0@
}

pub proof fn lemma_entry_from<T>(entries: Seq<(String, T)>, key: Seq<char>, i: int)
    requires
        0 <= i,
    ensures
        entry_from(entries, key, i) matches Some(k) ==> i <= k < entries.len() && entries[k].0@
            == key,
        entry_from(entries, key, i) is None ==> forall|k: int|
            i <= k < entries.len() ==> (#[trigger] entries[k]).0@ != key,
        forall|k: int|
            i <= k < entries.len() && (#[trigger] entries[k]).0@ == key ==> entry_from(
                entries,
                key,
                i,
            ) is Some,
    decreases entries.len() - i,
{
    if i < entries.len() && entries[i].0@ != key {
        lemma_entry_from(entries, key, i + 1);
    }
}

/// The place of a key among keyed entries.
pub fn find_entry<T>(entries: &Vec<(String, T)>, key: &str) -> (r: Option<usize>)
    ensures
        match r {
            Some(i) => i < entries.len() && entry(entries@, key@) == Some(i as int)
                && entries@[i as int].0@ == key@,
            None => entry(entries@, key@) is None,
        },
{
    let mut i: usize = 0;
    while i < entries.len()
        invariant
            0 <= i <= entries.len(),
            entry(entries@, key@) == entry_from(entries@, key@, i as int),
        decreases entries.len() - i,
    {
        if same_text(entries[i].0.as_str(), key) {
            return Some(i);
        }
        i += 1;
    }
    None
}

impl TableInfo {
    /// Whether this is a newly made table.
    pub open spec fn fresh(
        self,
        id: u32,
        name: Seq<char>,
        schema: Schema,
        first_page_id: PageId,
    ) -> bool {
        &&& self.table_id == TableId(id)
        &&& self.name@ == name
        &&& self.schema == schema
        &&& self.first_page_id == first_page_id
        &&& self.mvcc_enabled
        &&& self.stats is None
        &&& self.column_stats@.len() == 0
    }
}

impl Catalog {
    /// Every table stands under its lowercase name, and no two stand under the same.
    pub open spec fn wf(self) -> bool {
        &&& keys_differ(self.tables@)
        &&& forall|i: int|
            0 <= i < self.tables@.len() ==> (#[trigger] self.tables@[i]).0@ == lower_text(
                self.tables@[i].1.name@,
            )
        &&& keys_differ(self.views@)
    }

    /// The place of a table.
    pub open spec fn place(self, name: Seq<char>) -> Option<int> {
        entry(self.tables@, lower_text(name))
    }

    /// Create a new, empty catalog that will persist to the given file path.
    pub fn new(path: &str) -> (c: Catalog)
        ensures
            c.wf(),
            c.tables@.len() == 0,
            c.views@.len() == 0,
            c.next_table_id == 0,
            c.path@ == path@,
    {
        Catalog { tables: Vec::new(), next_table_id: 0, path: path.to_owned(), views: Vec::new() }
    }

    /// Register a new table. Returns the assigned [`TableId`].
    ///
    /// Returns an error if a table with the same name (case-insensitive)
    /// already exists, or if every identifier has been assigned.
    pub fn create_table(&mut self, name: &str, schema: Schema, first_page_id: PageId) -> (r: Result<
        TableId,
    >)
        requires
            old(self).wf(),
        ensures
            final(self).wf(),
            final(self).views == old(self).views,
            final(self).path == old(self).path,
            match r {
                Ok(id) => {
                    &&& old(self).place(name@) is None
                    &&& id == TableId(old(self).next_table_id)
                    &&& final(self).next_table_id == old(self).next_table_id + 1
                    &&& final(self).tables@.len() == old(self).tables@.len() + 1
                    &&& final(self).tables@.drop_last() == old(self).tables@
                    &&& final(self).tables@.last().0@ == lower_text(name@)
                    &&& final(self).tables@.last().1.fresh(
                        old(self).next_table_id,
                        name@,
                        schema,
                        first_page_id,
                    )
                },
                Err(e) => {
                    &&& *final(self) == *old(self)
                    &&& if old(self).place(name@) is Some {
                        e@ == ErrorView::Catalog("table '"@ + name@ + "' already exists"@)
                    } else {
                        old(self).next_table_id == u32::MAX && e@ == ErrorView::Catalog(
                            "no table identifier is left"@,
                        )
                    }
                },
            },
    {
        let key = name.to_lowercase();
        if let Some(_) = find_entry(&self.tables, key.as_str()) {
            let mut s = "table '".to_owned();
            s.append(name);
            s.append("' already exists");
            return Err(ForgeError::Catalog(s));
        }
        if self.next_table_id == u32::MAX {
            return Err(ForgeError::Catalog("no table identifier is left".to_owned()));
        }
        let table_id = TableId(self.next_table_id);
        self.next_table_id = self.next_table_id + 1;
        let info = TableInfo {
            table_id,
            name: name.to_owned(),
            schema,
            first_page_id,
            mvcc_enabled: true,
            stats: None,
            column_stats: Vec::new(),
        };
        proof {
            lemma_entry_from(self.tables@, key@, 0);
        }
        let ghost before = self.tables@;
        self.tables.push((key, info));
        assert(self.tables@.drop_last() =~= before);
        Ok(table_id)
    }

    /// Remove a table from the catalog. Returns the [`TableInfo`] that was
    /// removed.
    ///
    /// Returns an error if no table with the given name exists.
    pub fn drop_table(&mut self, name: &str) -> (r: std::result::Result<TableInfo, ForgeError>)
        requires
            old(self).wf(),
        ensures
            final(self).wf(),
            final(self).views == old(self).views,
            final(self).path == old(self).path,
            final(self).next_table_id == old(self).next_table_id,
            match r {
                Ok(t) => old(self).place(name@) matches Some(i) && t == old(self).tables@[i].1
                    && final(self).tables@ == old(self).tables@.remove(i),
                Err(e) => old(self).place(name@) is None && *final(self) == *old(self) && e@
                    == ErrorView::Catalog("table '"@ + name@ + "' not found"@),
            },
    {
        let key = name.to_lowercase();
        match find_entry(&self.tables, key.as_str()) {
            Some(i) => {
                let ghost before = self.tables@;
                let e = self.tables.remove(i);
                proof {
                    let after = self.tables@;
                    assert forall|a: int, b: int| 0 <= a < b < after.len() implies (
                    #[trigger] after[a]).0@ != (#[trigger] after[b]).0@ by {
                        let x = if a < i {
                            a
                        } else {
                            a + 1
                        };
                        let y = if b < i {
                            b
                        } else {
                            b + 1
                        };
                        assert(after[a] == before[x]);
                        assert(after[b] == before[y]);
                    }
                    assert forall|a: int| 0 <= a < after.len() implies (#[trigger] after[a]).0@
                        == lower_text(after[a].1.name@) by {
                        let x = if a < i {
                            a
                        } else {
                            a + 1
                        };
                        assert(after[a] == before[x]);
                    }
                }
                Ok(e.1)
            },
            None => {
                let mut s = "table '".to_owned();
                s.append(name);
                s.append("' not found");
                Err(ForgeError::Catalog(s))
            },
        }
    }

    /// Look up a table by name (case-insensitive).
    pub fn get_table(&self, name: &str) -> (r: Option<&TableInfo>)
        ensures
            match r {
                Some(t) => self.place(name@) matches Some(i) && 0 <= i < self.tables@.len() && *t
                    == self.tables@[i].1,
                None => self.place(name@) is None,
            },
    {
        let key = name.to_lowercase();
        match find_entry(&self.tables, key.as_str()) {
            Some(i) => Some(&self.tables[i].1),
            None => None,
        }
    }

    /// Look up a table by its [`TableId`] (linear scan).
    pub fn get_table_by_id(&self, table_id: TableId) -> (r: Option<&TableInfo>)
        ensures
            match r {
                Some(t) => t.table_id == table_id && exists|i: int|
                    0 <= i < self.tables@.len() && *t == (#[trigger] self.tables@[i]).1
                        && forall|j: int|
                        0 <= j < i ==> (#[trigger] self.tables@[j]).1.table_id != table_id,
                None => forall|i: int|
                    0 <= i < self.tables@.len() ==> (#[trigger] self.tables@[i]).1.table_id
                        != table_id,
            },
    {
        let mut i: usize = 0;
        while i < self.tables.len()
            invariant
                0 <= i <= self.tables.len(),
                forall|k: int|
                    0 <= k < i ==> (#[trigger] self.tables@[k]).1.table_id != table_id,
            decreases self.tables.len() - i,
        {
            if self.tables[i].1.table_id == table_id {
                assert(self.tables@[i as int].1.table_id == table_id);
                return Some(&self.tables[i].1);
            }
            i += 1;
        }
        None
    }

    /// Return references to all tables in the catalog.
    pub fn list_tables(&self) -> (r: Vec<&TableInfo>)
        ensures
            r@.len() == self.tables@.len(),
            forall|i: int| 0 <= i < r@.len() ==> *(#[trigger] r@[i]) == self.tables@[i].1,
    {
        let mut out: Vec<&TableInfo> = Vec::new();
        let mut i: usize = 0;
        while i < self.tables.len()
            invariant
                0 <= i <= self.tables.len(),
                out@.len() == i,
                forall|k: int| 0 <= k < i ==> *(#[trigger] out@[k]) == self.tables@[k].1,
            decreases self.tables.len() - i,
        {
            out.push(&self.tables[i].1);
            i += 1;
        }
        out
    }
}

// ---------------------------------------------------------------------------
// Laws of the catalog
// ---------------------------------------------------------------------------

/// A table that has been made is found under every spelling of its name that has the same
/// lowercase form, and every other name finds what it found before.
pub proof fn law_created_table_is_found(
    before: Seq<(String, TableInfo)>,
    after: Seq<(String, TableInfo)>,
    name: Seq<char>,
    asked: Seq<char>,
)
    requires
        after.len() == before.len() + 1,
        after.drop_last() == before,
        after.last().0@ == lower_text(name),
        entry(before, lower_text(name)) is None,
    ensures
        lower_text(asked) == lower_text(name) ==> entry(after, lower_text(asked)) == Some(
            before.len() as int,
        ),
        lower_text(asked) != lower_text(name) ==> entry(after, lower_text(asked)) == entry(
            before,
            lower_text(asked),
        ),
{
    lemma_entry_push(before, after, lower_text(asked), 0);
}

proof fn lemma_entry_push(
    before: Seq<(String, TableInfo)>,
    after: Seq<(String, TableInfo)>,
    key: Seq<char>,
    i: int,
)
    requires
        after.len() == before.len() + 1,
        after.drop_last() == before,
        0 <= i <= before.len(),
    ensures
        entry_from(before, key, i) is Some ==> entry_from(after, key, i) == entry_from(
            before,
            key,
            i,
        ),
        entry_from(before, key, i) is None ==> entry_from(after, key, i) == if after.last().0@
            == key {
            Some(before.len() as int)
        } else {
            None
        },
    decreases before.len() - i,
{
    if i < before.len() {
        assert(after[i] == before[i]);
        lemma_entry_push(before, after, key, i + 1);
    } else {
        assert(after[i] == after.last());
        assert(entry_from(after, key, i + 1) is None);
    }
}

/// A table that has been dropped is not found any more.
pub proof fn law_dropped_table_is_gone(tables: Seq<(String, TableInfo)>, name: Seq<char>, i: int)
    requires
        keys_differ(tables),
        entry(tables, lower_text(name)) == Some(i),
    ensures
        entry(tables.remove(i), lower_text(name)) is None,
{
    let key = lower_text(name);
    lemma_entry_from(tables, key, 0);
    let after = tables.remove(i);
    lemma_entry_from(after, key, 0);
    assert forall|k: int| 0 <= k < after.len() implies (#[trigger] after[k]).0@ != key by {
        if k < i {
            assert(after[k] == tables[k]);
            assert(tables[k].0@ != tables[i].0@);
        } else {
            assert(after[k] == tables[k + 1]);
            assert(tables[i].0@ != tables[k + 1].0@);
        }
    }
}

} // verus!
