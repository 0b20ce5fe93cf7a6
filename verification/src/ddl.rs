//! CREATE TABLE, DROP TABLE and CREATE INDEX.
use crate::ast::{ColumnDef, Expr, FkAction};
use crate::catalog::Catalog;
use crate::common::{PageId, RID, INVALID_PAGE_ID};
use crate::composite::{as_ints, build_composite_key, composite_key};
use crate::error::{execution, outcome, ErrorView, ForgeError, Result};
use crate::eval::{eval, evaluate};
use crate::host::{Host, HostView};
use crate::index::{BTreeIndex, IndexView};
use crate::insert::{bare, bare_part, find_index, index_named};
use crate::scan::{find_table, no_table, table_of};
use crate::schema::{name_from, Column, Schema};
use crate::state::{report, ExecuteResult, ResultView};
use crate::storage::{table_tuples, BufferPool, PageView, RawView};
use crate::text::{
    all_lower, begins, copy_texts, join_texts, list_text, lower_text, lower_texts, nat_text,
    show_u64, starts_with,
};
use crate::tuple::{deserialize, tuple_read, types_of};
use crate::types::{DataType, Value, ValueView};
use vstd::prelude::*;

verus! {

// ---------------------------------------------------------------------------
// CREATE TABLE
// ---------------------------------------------------------------------------

/// The value of a DEFAULT; one that cannot be evaluated is dropped.
pub open spec fn default_of_def(d: Option<Expr>, h: HostView) -> Option<ValueView> {
    match d {
        None => None,
        Some(e) => match eval(e, Seq::empty(), Seq::empty(), h) {
            Ok(v) => Some(v),
            Err(_) => None,
        },
    }
}

/// The request for a floating-point result that a DEFAULT makes.
pub open spec fn default_asks(d: Option<Expr>, h: HostView) -> Option<ErrorView> {
    match d {
        None => None,
        Some(e) => match eval(e, Seq::empty(), Seq::empty(), h) {
            Err(ErrorView::NeedsFloat(f)) => Some(ErrorView::NeedsFloat(f)),
            _ => None,
        },
    }
}

/// The code of what becomes of referring rows.
pub open spec fn action_code(a: FkAction) -> u8 {
    match a {
        FkAction::Restrict => 0,
        FkAction::Cascade => 1,
        FkAction::SetNull => 2,
    }
}

/// Whether a column is made as its definition says.
pub open spec fn made_from(col: Column, def: ColumnDef, i: int, h: HostView) -> bool {
    &&& col.name@ == def.name@
    &&& col.data_type == def.data_type
    &&& col.nullable == def.nullable
    &&& col.column_id == i as u16
    &&& col.auto_increment == def.auto_increment
    &&& col.default_value.deep_view() == default_of_def(def.default_value, h)
    &&& col.is_primary_key == def.is_primary_key
    &&& col.is_unique == def.is_unique
    &&& col.check_expr == def.check_expr
    &&& col.fk_ref.deep_view() == match def.references {
        None => None,
        Some(r) => Some((r.table@, r.column@, action_code(r.on_delete))),
    }
}

/// Whether a schema is made as the definitions say.
pub open spec fn schema_made(s: Schema, defs: Seq<ColumnDef>, h: HostView) -> bool {
    &&& s.columns@.len() == defs.len()
    &&& forall|i: int| 0 <= i < defs.len() ==> #[trigger] made_from(s.columns@[i], defs[i], i, h)
}

/// The first request for a floating-point result that a DEFAULT from `i` on makes.
pub open spec fn defaults_ask(defs: Seq<ColumnDef>, i: int, h: HostView) -> Option<ErrorView>
    decreases defs.len() - i,
{
    if i < 0 || i >= defs.len() {
        None
    } else {
        match default_asks(defs[i].default_value, h) {
            Some(e) => Some(e),
            None => defaults_ask(defs, i + 1, h),
        }
    }
}

fn evaluate_default(d: &Option<Expr>, host: &Host) -> (r: Result<Option<Value>>)
    ensures
        match r {
            Ok(v) => default_asks(*d, host@) is None && v.deep_view() == default_of_def(*d, host@),
            Err(e) => default_asks(*d, host@) == Some(e@),
        },
{
    match d {
        None => Ok(None),
        Some(e) => {
            let none: Vec<Value> = Vec::new();
            let empty = Schema::new(Vec::new());
            assert(none.deep_view() =~= Seq::<ValueView>::empty());
            assert(empty.names() =~= Seq::<Seq<char>>::empty());
            match evaluate(e, none.as_slice(), &empty, host) {
                Ok(v) => Ok(Some(v)),
                Err(ForgeError::NeedsFloat(f)) => Err(ForgeError::NeedsFloat(f)),
                Err(_) => Ok(None),
            }
        },
    }
}

fn make_column(def: ColumnDef, i: usize, host: &Host) -> (r: std::result::Result<
    Column,
    ForgeError,
>)
    ensures
        match r {
            Ok(c) => default_asks(def.default_value, host@) is None && made_from(
                c,
                def,
                i as int,
                host@,
            ),
            Err(e) => default_asks(def.default_value, host@) == Some(e@),
        },
{
    let default_value = evaluate_default(&def.default_value, host)?;
    let fk_ref: Option<(String, String, u8)> = match def.references {
        None => None,
        Some(r) => {
            let code: u8 = match r.on_delete {
                FkAction::Restrict => 0,
                FkAction::Cascade => 1,
                FkAction::SetNull => 2,
            };
            Some((r.table, r.column, code))
        },
    };
    Ok(
        Column {
            name: def.name,
            data_type: def.data_type,
            nullable: def.nullable,
            column_id: i as u16,
            auto_increment: def.auto_increment,
            default_value,
            is_primary_key: def.is_primary_key,
            is_unique: def.is_unique,
            check_expr: def.check_expr,
            fk_ref,
        },
    )
}

fn blank_def() -> ColumnDef {
    ColumnDef {
        name: String::new(),
        data_type: DataType::Integer,
        nullable: true,
        auto_increment: false,
        default_value: None,
        is_primary_key: false,
        is_unique: false,
        check_expr: None,
        references: None,
    }
}

fn make_schema(defs: Vec<ColumnDef>, host: &Host) -> (r: std::result::Result<Schema, ForgeError>)
    ensures
        match r {
            Ok(s) => defaults_ask(defs@, 0, host@) is None && schema_made(s, defs@, host@),
            Err(e) => defaults_ask(defs@, 0, host@) == Some(e@),
        },
{
    let ghost dv = defs@;
    let mut rest = defs;
    let mut columns: Vec<Column> = Vec::new();
    let mut i: usize = 0;
    while i < rest.len()
        invariant
            0 <= i <= rest.len(),
            dv == defs@,
            rest.len() == dv.len(),
            columns.len() == i,
            forall|k: int| i <= k < dv.len() ==> #[trigger] rest@[k] == dv[k],
            forall|k: int| 0 <= k < i ==> #[trigger] made_from(columns@[k], dv[k], k, host@),
            defaults_ask(dv, 0, host@) == defaults_ask(dv, i as int, host@),
        decreases rest.len() - i,
    {
        let mut def = blank_def();
        core::mem::swap(&mut def, &mut rest[i]);
        let ghost d = def;
        let c = make_column(def, i, host)?;
        let ghost before = columns@;
        columns.push(c);
        assert forall|k: int| 0 <= k < i + 1 implies #[trigger] made_from(
            columns@[k],
            dv[k],
            k,
            host@,
        ) by {
            if k < i {
                assert(columns@[k] == before[k]);
                assert(made_from(before[k], dv[k], k, host@));
            }
        }
        i += 1;
    }
    Ok(Schema::new(columns))
}

/// Why a table cannot be made; none, if it can.
pub open spec fn create_error(
    c: Catalog,
    next_page: u32,
    name: Seq<char>,
    defs: Seq<ColumnDef>,
    h: HostView,
) -> Option<ErrorView> {
    if defaults_ask(defs, 0, h) is Some {
        defaults_ask(defs, 0, h)
    } else if next_page == INVALID_PAGE_ID {
        Some(ErrorView::Page("no page is left"@))
    } else if c.place(name) is Some {
        Some(ErrorView::Catalog("table '"@ + name + "' already exists"@))
    } else if c.next_table_id == u32::MAX {
        Some(ErrorView::Catalog("no table identifier is left"@))
    } else {
        None
    }
}

/// Whether a first page is set aside for a table.
pub open spec fn page_set_aside(next_page: u32, defs: Seq<ColumnDef>, h: HostView) -> bool {
    defaults_ask(defs, 0, h) is None && next_page != INVALID_PAGE_ID
}

/// The pages with an empty one more.
pub open spec fn with_page(pages: Seq<PageView>, next_page: u32) -> Seq<PageView> {
    pages.push(
        PageView {
            page_id: PageId(next_page),
            slots: Seq::empty(),
            next_page: INVALID_PAGE_ID,
        },
    )
}

/// Whether a catalog is another one with a table added.
pub open spec fn table_added(
    before: Catalog,
    after: Catalog,
    name: Seq<char>,
    defs: Seq<ColumnDef>,
    page: u32,
    h: HostView,
) -> bool {
    &&& after.views == before.views
    &&& after.path == before.path
    &&& after.next_table_id == before.next_table_id + 1
    &&& after.tables@.len() == before.tables@.len() + 1
    &&& after.tables@.drop_last() == before.tables@
    &&& after.tables@.last().0@ == lower_text(name)
    &&& after.tables@.last().1.fresh(
        before.next_table_id,
        name,
        after.tables@.last().1.schema,
        PageId(page),
    )
    &&& schema_made(after.tables@.last().1.schema, defs, h)
}

/// Execute CREATE TABLE statement. The first page is set aside before the name is looked at.
pub fn execute_create_table(
    table_name: &str,
    column_defs: Vec<ColumnDef>,
    bpm: &mut BufferPool,
    catalog: &mut Catalog,
    host: &Host,
) -> (r: Result<ExecuteResult>)
    requires
        old(catalog).wf(),
    ensures
        final(catalog).wf(),
        outcome(r) == match create_error(
            *old(catalog),
            old(bpm).next_page_id,
            table_name@,
            column_defs@,
            host@,
        ) {
            Some(e) => Err::<ResultView, ErrorView>(e),
            None => Ok::<ResultView, ErrorView>(
                report("Table '"@ + table_name@ + "' created."@, 0, 0),
            ),
        },
        if page_set_aside(old(bpm).next_page_id, column_defs@, host@) {
            final(bpm)@ == with_page(old(bpm)@, old(bpm).next_page_id)
                && final(bpm).next_page_id == old(bpm).next_page_id + 1
        } else {
            *final(bpm) == *old(bpm)
        },
        r is Ok ==> table_added(
            *old(catalog),
            *final(catalog),
            table_name@,
            column_defs@,
            old(bpm).next_page_id,
            host@,
        ),
        r is Err ==> *final(catalog) == *old(catalog),
{
    let schema = make_schema(column_defs, host)?;
    let page_id = bpm.new_page()?;
    let _ = catalog.create_table(table_name, schema, page_id)?;
    let mut s = "Table '".to_owned();
    s.append(table_name);
    s.append("' created.");
    Ok(ExecuteResult::report(s, 0, 0))
}

// ---------------------------------------------------------------------------
// DROP TABLE
// ---------------------------------------------------------------------------

/// The indexes from `i` on that are not named after a table, behind `acc`.
pub open spec fn other_indexes(
    indexes: Seq<(Seq<char>, IndexView)>,
    i: int,
    table: Seq<char>,
    acc: Seq<(Seq<char>, IndexView)>,
) -> Seq<(Seq<char>, IndexView)>
    decreases indexes.len() - i,
{
    if i < 0 || i >= indexes.len() {
        acc
    } else {
        other_indexes(
            indexes,
            i + 1,
            table,
            if begins(lower_text(indexes[i].0), lower_text(table) + "."@) {
                acc
            } else {
                acc.push(indexes[i])
            },
        )
    }
}

fn drop_indexes(indexes: &mut Vec<(String, BTreeIndex)>, table: &str)
    ensures
        final(indexes).deep_view() == other_indexes(
            old(indexes).deep_view(),
            0,
            table@,
            Seq::empty(),
        ),
{
    let ghost start = indexes.deep_view();
    let mut prefix = table.to_lowercase();
    prefix.append(".");
    let mut all: Vec<(String, BTreeIndex)> = Vec::new();
    core::mem::swap(&mut all, indexes);
    let mut kept: Vec<(String, BTreeIndex)> = Vec::new();
    assert(kept.deep_view() =~= Seq::<(Seq<char>, IndexView)>::empty());
    let mut rest: Vec<(String, BTreeIndex)> = Vec::new();
    let ghost total = all.len();
    while all.len() > 0
        invariant
            all.len() + rest.len() == total,
            total == start.len(),
            forall|k: int| 0 <= k < all.len() ==> (#[trigger] all@[k]).deep_view() == start[k],
            forall|k: int|
                0 <= k < rest.len() ==> (#[trigger] rest@[k]).deep_view() == start[total - 1 - k],
        decreases all.len(),
    {
        let ghost n = all.len();
        let e = all.pop().unwrap();
        assert(e.deep_view() == start[n - 1]);
        rest.push(e);
    }
    let ghost mut i: int = 0;
    while rest.len() > 0
        invariant
            0 <= i <= total,
            rest.len() == total - i,
            total == start.len(),
            prefix@ == lower_text(table@) + "."@,
            forall|k: int|
                0 <= k < rest.len() ==> (#[trigger] rest@[k]).deep_view() == start[total - 1 - k],
            other_indexes(start, 0, table@, Seq::empty()) == other_indexes(
                start,
                i,
                table@,
                kept.deep_view(),
            ),
        decreases rest.len(),
    {
        let ghost n = rest.len();
        let e = rest.pop().unwrap();
        assert(e.deep_view() == start[i]);
        let ghost ev = e.deep_view();
        assert(ev.0 == e.0@);
        if !starts_with(e.0.as_str().to_lowercase().as_str(), prefix.as_str()) {
            let ghost before = kept.deep_view();
            kept.push(e);
            assert(kept.deep_view() =~= before.push(ev));
        }
        proof {
            i = i + 1;
        }
    }
    core::mem::swap(&mut kept, indexes);
}

/// Execute DROP TABLE statement.
pub fn execute_drop_table(
    table_name: &str,
    catalog: &mut Catalog,
    indexes: &mut Vec<(String, BTreeIndex)>,
) -> (r: Result<ExecuteResult>)
    requires
        old(catalog).wf(),
    ensures
        final(catalog).wf(),
        final(catalog).views == old(catalog).views,
        final(catalog).path == old(catalog).path,
        final(catalog).next_table_id == old(catalog).next_table_id,
        match old(catalog).place(table_name@) {
            Some(i) => {
                &&& outcome(r) == Ok::<ResultView, ErrorView>(
                    report("Table '"@ + table_name@ + "' dropped."@, 0, 0),
                )
                &&& final(catalog).tables@ == old(catalog).tables@.remove(i)
                &&& final(indexes).deep_view() == other_indexes(
                    old(indexes).deep_view(),
                    0,
                    table_name@,
                    Seq::empty(),
                )
            },
            None => {
                &&& outcome(r) == Err::<ResultView, ErrorView>(
                    ErrorView::Catalog("table '"@ + table_name@ + "' not found"@),
                )
                &&& *final(catalog) == *old(catalog)
                &&& *final(indexes) == *old(indexes)
            },
        },
{
    let _ = catalog.drop_table(table_name)?;
    drop_indexes(indexes, table_name);
    let mut s = "Table '".to_owned();
    s.append(table_name);
    s.append("' dropped.");
    Ok(ExecuteResult::report(s, 0, 0))
}

// ---------------------------------------------------------------------------
// CREATE INDEX
// ---------------------------------------------------------------------------

/// The places of the columns named from `i` on, behind `acc`.
pub open spec fn columns_from(
    cols: Seq<Seq<char>>,
    i: int,
    table: Seq<char>,
    names: Seq<Seq<char>>,
    acc: Seq<int>,
) -> std::result::Result<Seq<int>, ErrorView>
    decreases cols.len() - i,
{
    if i < 0 || i >= cols.len() {
        Ok(acc)
    } else {
        match name_from(names, cols[i], 0) {
            None => Err(
                ErrorView::Execution(
                    "column '"@ + cols[i] + "' not found in table '"@ + table + "'"@,
                ),
            ),
            Some(k) => columns_from(cols, i + 1, table, names, acc.push(k)),
        }
    }
}

fn find_columns(columns: &Vec<String>, table: &str, schema: &Schema) -> (r: std::result::Result<
    Vec<usize>,
    ForgeError,
>)
    ensures
        match r {
            Ok(v) => columns_from(
                columns.deep_view(),
                0,
                table@,
                schema.names(),
                Seq::empty(),
            ) == Ok::<Seq<int>, ErrorView>(as_ints(v@)) && v.len() == columns.len() && forall|
                k: int,
            |
                0 <= k < v.len() ==> #[trigger] v@[k] < schema.columns.len(),
            Err(e) => columns_from(
                columns.deep_view(),
                0,
                table@,
                schema.names(),
                Seq::empty(),
            ) == Err::<Seq<int>, ErrorView>(e@),
        },
{
    let ghost cv = columns.deep_view();
    let ghost names = schema.names();
    let mut out: Vec<usize> = Vec::new();
    assert(as_ints(out@) =~= Seq::<int>::empty());
    let mut i: usize = 0;
    while i < columns.len()
        invariant
            0 <= i <= columns.len(),
            cv == columns.deep_view(),
            names == schema.names(),
            out.len() == i,
            forall|k: int| 0 <= k < out.len() ==> #[trigger] out@[k] < schema.columns.len(),
            columns_from(cv, 0, table@, names, Seq::empty()) == columns_from(
                cv,
                i as int,
                table@,
                names,
                as_ints(out@),
            ),
        decreases columns.len() - i,
    {
        assert(cv[i as int] == columns@[i as int]@);
        match schema.get_column(columns[i].as_str()) {
            None => {
                let mut s = "column '".to_owned();
                s.append(columns[i].as_str());
                s.append("' not found in table '");
                s.append(table);
                s.append("'");
                return Err(ForgeError::Execution(s));
            },
            Some(k) => {
                let ghost before = as_ints(out@);
                out.push(k);
                assert(as_ints(out@) =~= before.push(k as int));
            },
        }
        i += 1;
    }
    Ok(out)
}

/// The key under which an index enters a row: the value of its column, or one made of the
/// values of its columns; none, where one is NULL.
pub open spec fn entry_key(row: Seq<ValueView>, cols: Seq<int>) -> Option<ValueView> {
    if cols.len() == 1 {
        if cols[0] < row.len() && !row[cols[0]].is_null() {
            Some(row[cols[0]])
        } else {
            None
        }
    } else {
        composite_key(row, cols)
    }
}

/// The index with the rows of the tuples from `i` on entered.
pub open spec fn filled_from(
    raws: Seq<RawView>,
    i: int,
    mvcc: bool,
    types: Seq<DataType>,
    cols: Seq<int>,
    index: IndexView,
) -> std::result::Result<IndexView, ErrorView>
    decreases raws.len() - i,
{
    if i < 0 || i >= raws.len() {
        Ok(index)
    } else {
        match tuple_read(bare(raws[i].1, mvcc), types) {
            Err(e) => Err(e),
            Ok(row) => filled_from(
                raws,
                i + 1,
                mvcc,
                types,
                cols,
                match entry_key(row, cols) {
                    Some(v) => index.with(v, raws[i].0),
                    None => index,
                },
            ),
        }
    }
}

fn fill_index(
    raws: &Vec<(RID, Vec<u8>)>,
    mvcc: bool,
    schema: &Schema,
    cols: &Vec<usize>,
    index: BTreeIndex,
) -> (r: Result<BTreeIndex>)
    requires
        cols.len() > 0,
    ensures
        outcome(r) == filled_from(
            raws.deep_view(),
            0,
            mvcc,
            types_of(*schema),
            as_ints(cols@),
            index.deep_view(),
        ),
{
    let ghost rv = raws.deep_view();
    let ghost types = types_of(*schema);
    let ghost cv = as_ints(cols@);
    let ghost all = filled_from(rv, 0, mvcc, types, cv, index.deep_view());
    let mut out = index;
    let mut i: usize = 0;
    while i < raws.len()
        invariant
            0 <= i <= raws.len(),
            cols.len() > 0,
            rv == raws.deep_view(),
            types == types_of(*schema),
            cv == as_ints(cols@),
            all == filled_from(rv, 0, mvcc, types, cv, index.deep_view()),
            all == filled_from(rv, i as int, mvcc, types, cv, out.deep_view()),
        decreases raws.len() - i,
    {
        assert(rv[i as int].0 == raws@[i as int].0);
        assert(rv[i as int].1 =~= raws@[i as int].1@);
        let row = deserialize(bare_part(raws[i].1.as_slice(), mvcc), schema)?;
        let ghost row_view = row.deep_view();
        if cols.len() == 1 {
            let c: usize = cols[0];
            assert(cv[0] == c);
            if c < row.len() {
                assert(row_view[c as int] == row@[c as int]@);
                if !row[c].is_null() {
                    out.insert(&row[c], raws[i].0);
                }
            }
        } else if let Some(key) = build_composite_key(&row, cols) {
            out.insert(&key, raws[i].0);
        }
        i += 1;
    }
    Ok(out)
}

/// The name of an index: its table and columns in lowercase.
pub open spec fn index_key(table: Seq<char>, cols: Seq<Seq<char>>) -> Seq<char> {
    lower_text(table) + "."@ + list_text(all_lower(cols), "."@)
}

/// Indexes, and what the statement that led to them gave back.
pub struct Indexed {
    pub indexes: Seq<(Seq<char>, IndexView)>,
    pub result: std::result::Result<ResultView, ErrorView>,
}

/// What a CREATE INDEX does to the indexes, and what it gives back.
pub open spec fn index_created(
    c: Catalog,
    pages: Seq<PageView>,
    indexes: Seq<(Seq<char>, IndexView)>,
    name: Seq<char>,
    table: Seq<char>,
    cols: Seq<Seq<char>>,
) -> Indexed {
    if cols.len() == 0 {
        Indexed {
            indexes,
            result: Err(ErrorView::Execution("CREATE INDEX requires at least one column"@)),
        }
    } else {
        match table_of(c, table) {
            None => Indexed { indexes, result: Err(no_table(table)) },
            Some(info) => match columns_from(cols, 0, table, info.schema.names(), Seq::empty()) {
                Err(e) => Indexed { indexes, result: Err(e) },
                Ok(places) => if index_named(indexes, index_key(table, cols), 0) is Some {
                    Indexed {
                        indexes,
                        result: Ok(
                            report("Index already exists: "@ + index_key(table, cols), 0, 0),
                        ),
                    }
                } else {
                    match table_tuples(pages, info.first_page_id.0) {
                        Err(e) => Indexed { indexes, result: Err(e) },
                        Ok(raws) => match filled_from(
                            raws,
                            0,
                            info.mvcc_enabled,
                            types_of(info.schema),
                            places,
                            IndexView {
                                key_type: info.schema.columns@[places[0]].data_type,
                                table_id: info.table_id,
                                column_index: places[0] as usize,
                                columns: if cols.len() == 1 {
                                    Seq::empty()
                                } else {
                                    cols
                                },
                                entries: Seq::empty(),
                            },
                        ) {
                            Err(e) => Indexed { indexes, result: Err(e) },
                            Ok(index) => Indexed {
                                indexes: indexes.push((index_key(table, cols), index)),
                                result: Ok(
                                    report(
                                        "Index '"@ + name + "' created on "@ + table + "("@
                                            + list_text(cols, ", "@) + ") ("@ + nat_text(
                                            index.entries.len(),
                                        ) + " entries)"@,
                                        index.entries.len() as int,
                                        0,
                                    ),
                                ),
                            },
                        },
                    }
                },
            },
        }
    }
}

/// Execute CREATE INDEX: build an index on existing table column(s).
///
/// Supports:
/// - Single-column indexes: `CREATE INDEX idx ON table(col)`
/// - Composite indexes: `CREATE INDEX idx ON table(col1, col2)`
///   Composite keys are created by concatenating the sort-key bytes of all columns.
pub fn execute_create_index(
    index_name: &str,
    table_name: &str,
    columns: &Vec<String>,
    _unique: bool,
    bpm: &BufferPool,
    catalog: &Catalog,
    indexes: &mut Vec<(String, BTreeIndex)>,
) -> (r: Result<ExecuteResult>)
    ensures
        index_created(
            *catalog,
            bpm@,
            old(indexes).deep_view(),
            index_name@,
            table_name@,
            columns.deep_view(),
        ) == (Indexed { indexes: final(indexes).deep_view(), result: outcome(r) }),
{
    let ghost cv = columns.deep_view();
    if columns.len() == 0 {
        return execution("CREATE INDEX requires at least one column");
    }
    let info = find_table(catalog, table_name)?;
    let places = find_columns(columns, table_name, &info.schema)?;
    let mut key = table_name.to_lowercase();
    key.append(".");
    key.append(join_texts(&lower_texts(columns), ".").as_str());
    assert(key@ == index_key(table_name@, cv));
    if let Some(_) = find_index(indexes, key.as_str()) {
        let mut s = "Index already exists: ".to_owned();
        s.append(key.as_str());
        return Ok(ExecuteResult::report(s, 0, 0));
    }
    let key_type = info.schema.columns[places[0]].data_type;
    let several: Vec<String> = if columns.len() == 1 {
        Vec::new()
    } else {
        copy_texts(columns)
    };
    if columns.len() == 1 {
        assert(several.deep_view() =~= Seq::<Seq<char>>::empty());
    }
    let empty = BTreeIndex::create_composite(key_type, info.table_id, places[0], several);
    let raws = bpm.table_iterator(info.first_page_id)?;
    let index = fill_index(&raws, info.mvcc_enabled, &info.schema, &places, empty)?;
    let count: usize = index.entries.len();
    assert(index.deep_view().entries.len() == count);
    let mut s = "Index '".to_owned();
    s.append(index_name);
    s.append("' created on ");
    s.append(table_name);
    s.append("(");
    s.append(join_texts(columns, ", ").as_str());
    s.append(") (");
    s.append(show_u64(count as u64).as_str());
    s.append(" entries)");
    let ghost before = indexes.deep_view();
    let ghost ev = (key@, index.deep_view());
    indexes.push((key, index));
    assert(indexes.deep_view() =~= before.push(ev));
    Ok(ExecuteResult::report(s, count, 0))
}

} // verus!
