//! Views, changes of schemas, and statistics.
use crate::ast::{AlterTableOp, ColumnDef};
use crate::catalog::{
    entry, find_entry, lemma_entry_from, Catalog, ColumnStatistics, TableInfo, TableStatistics,
    ViewInfo,
};
use crate::error::{ErrorView, ForgeError, Result};
use crate::schema::{Column, Schema};
use crate::text::{eq_ignore_ascii_case, lower_text, same_name};
use crate::bytes::{find_key, lemma_bytes_deep};
use crate::order::Order;
use crate::types::{Value, ValueView};
use crate::values::{row_key, serialize_row_key};
use vstd::prelude::*;

verus! {

// ---------------------------------------------------------------------------
// Views
// ---------------------------------------------------------------------------

fn catalog_error(before: &str, name: &str, after: &str) -> (e: ForgeError)
    ensures
        e@ == ErrorView::Catalog(before@ + name@ + after@),
{
    let mut s = before.to_owned();
    s.append(name);
    s.append(after);
    ForgeError::Catalog(s)
}

impl Catalog {
    /// Stores a query under a name. Returns an error if a view has the name already.
    pub fn create_view(&mut self, name: &str, sql: &str, column_aliases: Vec<String>) -> (r: std::result::Result<
        (),
        ForgeError,
    >)
        requires
            old(self).wf(),
        ensures
            final(self).wf(),
            final(self).tables == old(self).tables,
            final(self).next_table_id == old(self).next_table_id,
            final(self).path == old(self).path,
            match r {
                Ok(_) => {
                    &&& entry(old(self).views@, lower_text(name@)) is None
                    &&& final(self).views@.len() == old(self).views@.len() + 1
                    &&& final(self).views@.drop_last() == old(self).views@
                    &&& final(self).views@.last().0@ == lower_text(name@)
                    &&& final(self).views@.last().1.name@ == name@
                    &&& final(self).views@.last().1.sql@ == sql@
                    &&& final(self).views@.last().1.column_aliases == column_aliases
                },
                Err(e) => {
                    &&& entry(old(self).views@, lower_text(name@)) is Some
                    &&& *final(self) == *old(self)
                    &&& e@ == ErrorView::Catalog("view '"@ + name@ + "' already exists"@)
                },
            },
    {
        let key = name.to_lowercase();
        if let Some(_) = find_entry(&self.views, key.as_str()) {
            return Err(catalog_error("view '", name, "' already exists"));
        }
        proof {
            lemma_entry_from(self.views@, key@, 0);
        }
        let ghost before = self.views@;
        self.views.push(
            (key, ViewInfo { name: name.to_owned(), sql: sql.to_owned(), column_aliases }),
        );
        assert(self.views@.drop_last() =~= before);
        Ok(())
    }

    /// Removes a view. Returns an error if there is none with the name.
    pub fn drop_view(&mut self, name: &str) -> (r: std::result::Result<(), ForgeError>)
        requires
            old(self).wf(),
        ensures
            final(self).wf(),
            final(self).tables == old(self).tables,
            final(self).next_table_id == old(self).next_table_id,
            final(self).path == old(self).path,
            match r {
                Ok(_) => entry(old(self).views@, lower_text(name@)) matches Some(i)
                    && final(self).views@ == old(self).views@.remove(i),
                Err(e) => {
                    &&& entry(old(self).views@, lower_text(name@)) is None
                    &&& *final(self) == *old(self)
                    &&& e@ == ErrorView::Catalog("view '"@ + name@ + "' not found"@)
                },
            },
    {
        let key = name.to_lowercase();
        match find_entry(&self.views, key.as_str()) {
            None => Err(catalog_error("view '", name, "' not found")),
            Some(i) => {
                let ghost before = self.views@;
                let _ = self.views.remove(i);
                proof {
                    let after = self.views@;
                    assert forall|a: int, b: int| 0 <= a < b < after.len() implies (
                    #[trigger] after[a]).0@ != (#[trigger] after[b]).0@ by {
                        let x = if a < i {
                            a
                        } else {
                            a + 1
                        };
                        let y = if b < i {
                            b
                        } else {
                            b + 1
                        };
                        assert(after[a] == before[x]);
                        assert(after[b] == before[y]);
                    }
                }
                Ok(())
            },
        }
    }

    /// Whether there is a view with a name.
    pub fn has_view(&self, name: &str) -> (r: bool)
        ensures
            r == entry(self.views@, lower_text(name@)) is Some,
    {
        find_entry(&self.views, name.to_lowercase().as_str()).is_some()
    }
}

// ---------------------------------------------------------------------------
// ALTER TABLE
// ---------------------------------------------------------------------------

/// The columns from `i` on that do not have a name, behind `acc`.
pub open spec fn columns_without(cols: Seq<Column>, name: Seq<char>, i: int, acc: Seq<Column>) -> Seq<
    Column,
>
    decreases cols.len() - i,
{
    if i < 0 || i >= cols.len() {
        acc
    } else {
        columns_without(
            cols,
            name,
            i + 1,
            if same_name(cols[i].name@, name) {
                acc
            } else {
                acc.push(cols[i])
            },
        )
    }
}

/// The first column with a name, from `i` on.
pub open spec fn column_named(cols: Seq<Column>, name: Seq<char>, i: int) -> Option<int>
    decreases cols.len() - i,
{
    if i < 0 || i >= cols.len() {
        None
    } else if same_name(cols[i].name@, name) {
        Some(i)
    } else {
        column_named(cols, name, i + 1)
    }
}

/// The columns of a table after a change.
pub open spec fn altered(cols: Seq<Column>, op: AlterTableOp) -> Seq<Column> {
    match op {
        AlterTableOp::AddColumn(def) => cols.push(
            Column {
                name: def.name,
                data_type: def.data_type,
                nullable: def.nullable,
                column_id: cols.len() as u16,
                auto_increment: def.auto_increment,
                default_value: None,
                is_primary_key: def.is_primary_key,
                is_unique: false,
                check_expr: None,
                fk_ref: None,
            },
        ),
        AlterTableOp::DropColumn(name) => columns_without(cols, name@, 0, Seq::empty()),
        AlterTableOp::ModifyColumn(def) => match column_named(cols, def.name@, 0) {
            Some(i) => cols.update(
                i,
                Column { data_type: def.data_type, nullable: def.nullable, ..cols[i] },
            ),
            None => cols,
        },
        AlterTableOp::RenameColumn { old_name, new_name } => match column_named(
            cols,
            old_name@,
            0,
        ) {
            Some(i) => cols.update(i, Column { name: new_name, ..cols[i] }),
            None => cols,
        },
        AlterTableOp::AddIndex { name, columns } => cols,
    }
}

/// The columns of a table after the changes from `i` on.
pub open spec fn altered_from(cols: Seq<Column>, ops: Seq<AlterTableOp>, i: int) -> Seq<Column>
    decreases ops.len() - i,
{
    if i < 0 || i >= ops.len() {
        cols
    } else {
        altered_from(altered(cols, ops[i]), ops, i + 1)
    }
}

fn find_column_named(columns: &Vec<Column>, name: &str) -> (r: Option<usize>)
    ensures
        match r {
            Some(k) => k < columns.len() && column_named(columns@, name@, 0) == Some(k as int),
            None => column_named(columns@, name@, 0) is None,
        },
{
    let mut i: usize = 0;
    while i < columns.len()
        invariant
            0 <= i <= columns.len(),
            column_named(columns@, name@, 0) == column_named(columns@, name@, i as int),
        decreases columns.len() - i,
    {
        if eq_ignore_ascii_case(columns[i].name.as_str(), name) {
            return Some(i);
        }
        i += 1;
    }
    None
}

fn drop_column(columns: Vec<Column>, name: &str) -> (r: Vec<Column>)
    ensures
        r@ == columns_without(columns@, name@, 0, Seq::empty()),
{
    let ghost all = columns@;
    let mut left = columns;
    let mut back: Vec<Column> = Vec::new();
    let ghost n = all.len();
    while left.len() > 0
        invariant
            left.len() + back.len() == n,
            n == all.len(),
            forall|k: int| 0 <= k < left.len() ==> #[trigger] left@[k] == all[k],
            forall|k: int| 0 <= k < back.len() ==> #[trigger] back@[k] == all[n - 1 - k],
        decreases left.len(),
    {
        let c = left.pop().unwrap();
        back.push(c);
    }
    let mut out: Vec<Column> = Vec::new();
    assert(out@ =~= Seq::<Column>::empty());
    let ghost mut i: int = 0;
    while back.len() > 0
        invariant
            0 <= i <= n,
            back.len() == n - i,
            n == all.len(),
            forall|k: int| 0 <= k < back.len() ==> #[trigger] back@[k] == all[n - 1 - k],
            columns_without(all, name@, 0, Seq::empty()) == columns_without(
                all,
                name@,
                i,
                out@,
            ),
        decreases back.len(),
    {
        let c = back.pop().unwrap();
        assert(c == all[i]);
        if !eq_ignore_ascii_case(c.name.as_str(), name) {
            out.push(c);
        }
        proof {
            i = i + 1;
        }
    }
    out
}

fn new_column(def: &ColumnDef, id: u16) -> (r: Column)
    ensures
        r == (Column {
            name: def.name,
            data_type: def.data_type,
            nullable: def.nullable,
            column_id: id,
            auto_increment: def.auto_increment,
            default_value: None,
            is_primary_key: def.is_primary_key,
            is_unique: false,
            check_expr: None,
            fk_ref: None,
        }),
{
    Column {
        name: def.name.clone(),
        data_type: def.data_type,
        nullable: def.nullable,
        column_id: id,
        auto_increment: def.auto_increment,
        default_value: None,
        is_primary_key: def.is_primary_key,
        is_unique: false,
        check_expr: None,
        fk_ref: None,
    }
}

fn alter_columns(columns: &mut Vec<Column>, op: &AlterTableOp)
    ensures
        final(columns)@ == altered(old(columns)@, *op),
{
    match op {
        AlterTableOp::AddColumn(def) => {
            let id: u16 = columns.len() as u16;
            columns.push(new_column(def, id));
        },
        AlterTableOp::DropColumn(name) => {
            let mut taken: Vec<Column> = Vec::new();
            core::mem::swap(&mut taken, columns);
            let mut kept = drop_column(taken, name.as_str());
            core::mem::swap(&mut kept, columns);
        },
        AlterTableOp::ModifyColumn(def) => {
            if let Some(i) = find_column_named(columns, def.name.as_str()) {
                let ghost before = columns@;
                columns[i].data_type = def.data_type;
                columns[i].nullable = def.nullable;
                assert(columns@ =~= altered(before, *op));
            }
        },
        AlterTableOp::RenameColumn { old_name, new_name } => {
            if let Some(i) = find_column_named(columns, old_name.as_str()) {
                let ghost before = columns@;
                columns[i].name = new_name.clone();
                assert(columns@ =~= altered(before, *op));
            }
        },
        AlterTableOp::AddIndex { name: _, columns: _ } => {},
    }
}

/// Whether one of the changes from `i` on is one of columns.
pub open spec fn changes_columns(ops: Seq<AlterTableOp>, i: int) -> bool
    decreases ops.len() - i,
{
    0 <= i < ops.len() && (!(ops[i] is AddIndex) || changes_columns(ops, i + 1))
}

/// Whether a catalog is another one in which the columns of the table at a place are others.
pub open spec fn with_columns_at(before: Catalog, after: Catalog, i: int, cols: Seq<Column>) -> bool {
    &&& after.views == before.views
    &&& after.path == before.path
    &&& after.next_table_id == before.next_table_id
    &&& after.tables@.len() == before.tables@.len()
    &&& forall|k: int|
        0 <= k < before.tables@.len() && k != i ==> #[trigger] after.tables@[k]
            == before.tables@[k]
    &&& after.tables@[i].0 == before.tables@[i].0
    &&& after.tables@[i].1 == (TableInfo {
        schema: after.tables@[i].1.schema,
        ..before.tables@[i].1
    })
    &&& after.tables@[i].1.schema.columns@ == cols
}

impl Catalog {
    /// Changes the schema of a table. Returns an error if there is no such table, unless no
    /// column is changed.
    pub fn alter_table(&mut self, name: &str, ops: &Vec<AlterTableOp>) -> (r: std::result::Result<
        (),
        ForgeError,
    >)
        requires
            old(self).wf(),
        ensures
            final(self).wf(),
            match old(self).place(name@) {
                Some(i) => r is Ok && with_columns_at(
                    *old(self),
                    *final(self),
                    i,
                    altered_from(old(self).tables@[i].1.schema.columns@, ops@, 0),
                ),
                None => {
                    &&& *final(self) == *old(self)
                    &&& r is Ok == !changes_columns(ops@, 0)
                    &&& r matches Err(e) ==> e@ == ErrorView::Catalog(
                        "table '"@ + name@ + "' not found"@,
                    )
                },
            },
    {
        match find_entry(&self.tables, name.to_lowercase().as_str()) {
            None => {
                let mut i: usize = 0;
                while i < ops.len()
                    invariant
                        0 <= i <= ops.len(),
                        *self == *old(self),
                        old(self).wf(),
                        changes_columns(ops@, 0) == changes_columns(ops@, i as int),
                        old(self).place(name@) is None,
                    decreases ops.len() - i,
                {
                    match &ops[i] {
                        AlterTableOp::AddIndex { name: _, columns: _ } => {},
                        _ => {
                            return Err(catalog_error("table '", name, "' not found"));
                        },
                    }
                    i += 1;
                }
                Ok(())
            },
            Some(k) => {
                let ghost before = *self;
                let ghost start = self.tables@[k as int].1.schema.columns@;
                let ghost all = altered_from(start, ops@, 0);
                let mut i: usize = 0;
                while i < ops.len()
                    invariant
                        0 <= i <= ops.len(),
                        before == *old(self),
                        old(self).place(name@) == Some(k as int),
                        0 <= k < self.tables@.len(),
                        before.wf(),
                        all == altered_from(start, ops@, 0),
                        start == before.tables@[k as int].1.schema.columns@,
                        all == altered_from(
                            self.tables@[k as int].1.schema.columns@,
                            ops@,
                            i as int,
                        ),
                        with_columns_at(
                            before,
                            *self,
                            k as int,
                            self.tables@[k as int].1.schema.columns@,
                        ),
                    decreases ops.len() - i,
                {
                    alter_columns(&mut self.tables[k].1.schema.columns, &ops[i]);
                    i += 1;
                }
                assert(self.wf()) by {
                    assert forall|a: int| 0 <= a < self.tables@.len() implies (
                    #[trigger] self.tables@[a]).0@ == lower_text(self.tables@[a].1.name@) by {
                        assert(before.tables@[a].0@ == lower_text(before.tables@[a].1.name@));
                    }
                    assert forall|a: int, b: int| 0 <= a < b < self.tables@.len() implies (
                    #[trigger] self.tables@[a]).0@ != (#[trigger] self.tables@[b]).0@ by {
                        assert(before.tables@[a].0@ != before.tables@[b].0@);
                    }
                }
                Ok(())
            },
        }
    }
}

// ---------------------------------------------------------------------------
// Statistics
// ---------------------------------------------------------------------------

/// What is known of a column's values, as mathematical values.
pub struct StatView {
    pub distinct: nat,
    pub nulls: nat,
    pub min: Option<ValueView>,
    pub max: Option<ValueView>,
}

impl DeepView for ColumnStatistics {
    type V = StatView;

    open spec fn deep_view(&self) -> StatView {
        StatView {
            distinct: self.distinct_count as nat,
            nulls: self.null_count as nat,
            min: self.min_value.deep_view(),
            max: self.max_value.deep_view(),
        }
    }
}

/// What is known of a column after some of the rows, and the keys of its values.
pub struct Tally {
    pub seen: Seq<Seq<u8>>,
    pub nulls: nat,
    pub min: Option<ValueView>,
    pub max: Option<ValueView>,
}

/// What is known of a column after one more value.
pub open spec fn tallied(t: Tally, v: ValueView) -> Tally {
    if v.is_null() {
        Tally { nulls: t.nulls + 1, ..t }
    } else {
        Tally {
            seen: if t.seen.contains(row_key(seq![v])) {
                t.seen
            } else {
                t.seen.push(row_key(seq![v]))
            },
            nulls: t.nulls,
            min: match t.min {
                None => Some(v),
                Some(m) => if v.compare(m) == Some(Order::Less) {
                    Some(v)
                } else {
                    t.min
                },
            },
            max: match t.max {
                None => Some(v),
                Some(m) => if v.compare(m) == Some(Order::Greater) {
                    Some(v)
                } else {
                    t.max
                },
            },
        }
    }
}

/// What is known of a column after the rows from `i` on.
pub open spec fn tally_from(rows: Seq<Seq<ValueView>>, c: int, i: int, t: Tally) -> Tally
    decreases rows.len() - i,
{
    if i < 0 || i >= rows.len() {
        t
    } else {
        tally_from(
            rows,
            c,
            i + 1,
            if c < rows[i].len() {
                tallied(t, rows[i][c])
            } else {
                t
            },
        )
    }
}

/// The statistics of a column of rows.
pub open spec fn column_stat(rows: Seq<Seq<ValueView>>, c: int) -> StatView {
    let t = tally_from(
        rows,
        c,
        0,
        Tally { seen: Seq::empty(), nulls: 0, min: None, max: None },
    );
    StatView { distinct: t.seen.len(), nulls: t.nulls, min: t.min, max: t.max }
}

fn tally_column(rows: &Vec<Vec<Value>>, c: usize) -> (r: ColumnStatistics)
    ensures
        r.deep_view() == column_stat(rows.deep_view(), c as int),
{
    let ghost rv = rows.deep_view();
    let ghost start = Tally { seen: Seq::empty(), nulls: 0, min: None, max: None };
    let mut seen: Vec<Vec<u8>> = Vec::new();
    let mut nulls: u64 = 0;
    let mut min: Option<Value> = None;
    let mut max: Option<Value> = None;
    assert(seen.deep_view() =~= Seq::<Seq<u8>>::empty());
    let mut i: usize = 0;
    while i < rows.len()
        invariant
            0 <= i <= rows.len(),
            rv == rows.deep_view(),
            nulls <= i,
            seen.len() <= i,
            tally_from(rv, c as int, 0, start) == tally_from(
                rv,
                c as int,
                i as int,
                Tally {
                    seen: seen.deep_view(),
                    nulls: nulls as nat,
                    min: min.deep_view(),
                    max: max.deep_view(),
                },
            ),
        decreases rows.len() - i,
    {
        let row = &rows[i];
        assert(rv[i as int] == row.deep_view());
        if c < row.len() {
            assert(rv[i as int][c as int] == row@[c as int]@);
            let v = &row[c];
            if v.is_null() {
                nulls += 1;
            } else {
                let mut one: Vec<Value> = Vec::new();
                one.push(v.clone());
                assert(one.deep_view() =~= seq![v@]);
                let key = serialize_row_key(one.as_slice());
                if find_key(&seen, &key).is_none() {
                    let ghost had = seen.deep_view();
                    let ghost kv = key@;
                    proof {
                        lemma_bytes_deep(key);
                    }
                    seen.push(key);
                    assert(seen.deep_view() =~= had.push(kv));
                }
                let less = match &min {
                    None => true,
                    Some(m) => match v.compare(m) {
                        Some(Order::Less) => true,
                        _ => false,
                    },
                };
                if less {
                    min = Some(v.clone());
                }
                let greater = match &max {
                    None => true,
                    Some(m) => match v.compare(m) {
                        Some(Order::Greater) => true,
                        _ => false,
                    },
                };
                if greater {
                    max = Some(v.clone());
                }
            }
        }
        i += 1;
    }
    assert(seen.deep_view().len() == seen.len());
    ColumnStatistics {
        distinct_count: seen.len() as u64,
        null_count: nulls,
        min_value: min,
        max_value: max,
    }
}

/// The statistics of all columns of rows, by their names in lowercase.
pub open spec fn column_stats(rows: Seq<Seq<ValueView>>, names: Seq<Seq<char>>) -> Seq<
    (Seq<char>, StatView),
> {
    Seq::new(names.len(), |c: int| (lower_text(names[c]), column_stat(rows, c)))
}

/// The statistics of all columns of rows.
pub fn gather_statistics(rows: &Vec<Vec<Value>>, schema: &Schema) -> (r: Vec<
    (String, ColumnStatistics),
>)
    ensures
        r.deep_view() == column_stats(rows.deep_view(), schema.names()),
{
    let ghost all = column_stats(rows.deep_view(), schema.names());
    let mut out: Vec<(String, ColumnStatistics)> = Vec::new();
    let mut c: usize = 0;
    while c < schema.columns.len()
        invariant
            0 <= c <= schema.columns.len(),
            out.len() == c,
            all == column_stats(rows.deep_view(), schema.names()),
            forall|k: int| 0 <= k < c ==> (#[trigger] out@[k]).deep_view() == all[k],
        decreases schema.columns.len() - c,
    {
        let name = schema.columns[c].name.as_str().to_lowercase();
        out.push((name, tally_column(rows, c)));
        c += 1;
    }
    assert(out.deep_view() =~= all);
    out
}

/// Whether a catalog is another one with the statistics of the table at a place set: how many
/// rows it has, how many pages these take at about a hundred each, and what its columns hold.
pub open spec fn with_statistics(
    before: Catalog,
    after: Catalog,
    i: int,
    rows: Seq<Seq<ValueView>>,
) -> bool {
    &&& after.views == before.views
    &&& after.path == before.path
    &&& after.next_table_id == before.next_table_id
    &&& after.tables@.len() == before.tables@.len()
    &&& forall|k: int|
        0 <= k < before.tables@.len() && k != i ==> #[trigger] after.tables@[k]
            == before.tables@[k]
    &&& after.tables@[i].0 == before.tables@[i].0
    &&& after.tables@[i].1 == (TableInfo {
        stats: after.tables@[i].1.stats,
        column_stats: after.tables@[i].1.column_stats,
        ..before.tables@[i].1
    })
    &&& after.tables@[i].1.stats == Some(
        TableStatistics {
            row_count: rows.len() as u64,
            page_count: if rows.len() < 200 {
                1
            } else {
                (rows.len() / 100) as u64
            },
        },
    )
    &&& after.tables@[i].1.column_stats.deep_view() == column_stats(
        rows,
        before.tables@[i].1.schema.names(),
    )
}

impl Catalog {
    /// Sets the statistics of a table, whose rows are given. Tells whether there is one.
    pub fn set_statistics(&mut self, name: &str, rows: &Vec<Vec<Value>>) -> (r: bool)
        requires
            old(self).wf(),
        ensures
            final(self).wf(),
            match old(self).place(name@) {
                Some(i) => r && with_statistics(*old(self), *final(self), i, rows.deep_view()),
                None => !r && *final(self) == *old(self),
            },
    {
        match find_entry(&self.tables, name.to_lowercase().as_str()) {
            None => false,
            Some(k) => {
                let ghost before = *self;
                let stats = gather_statistics(rows, &self.tables[k].1.schema);
                let n: u64 = rows.len() as u64;
                let pages: u64 = if n < 200 {
                    1
                } else {
                    n / 100
                };
                assert(rows.deep_view().len() == rows.len());
                self.tables[k].1.stats = Some(
                    TableStatistics { row_count: n, page_count: pages },
                );
                self.tables[k].1.column_stats = stats;
                assert(self.wf()) by {
                    assert forall|a: int| 0 <= a < self.tables@.len() implies (
                    #[trigger] self.tables@[a]).0@ == lower_text(self.tables@[a].1.name@) by {
                        assert(before.tables@[a].0@ == lower_text(before.tables@[a].1.name@));
                    }
                    assert forall|a: int, b: int| 0 <= a < b < self.tables@.len() implies (
                    #[trigger] self.tables@[a]).0@ != (#[trigger] self.tables@[b]).0@ by {
                        assert(before.tables@[a].0@ != before.tables@[b].0@);
                    }
                }
                true
            },
        }
    }
}

} // verus!
