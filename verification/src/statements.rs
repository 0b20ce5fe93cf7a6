//! Answers to statements about the schema, and what results are made of.
use crate::ast::{ColumnDef, Expr, LiteralValue};
use crate::catalog::{Catalog, TableInfo};
use crate::error::{outcome, ErrorView, ForgeError, Result};
use crate::eval::literal;
use crate::executor::{distinct_from, keep_distinct, Answer};
use crate::host::{Host, HostView};
use crate::order::Order;
use crate::plan::PlanNode;
use crate::scan::{find_table, no_table, table_of};
use crate::schema::Column;
use crate::state::{answer, report, ExecuteResult, ResultView};
use crate::text::{joined, nat_text, order_text, show_u64, text_order};
use crate::types::{DataType, Value, ValueView};
use crate::values::{decimal_float, float_of_decimal};
use vstd::prelude::*;

verus! {

/// The result of a statement that has nothing to report.
pub open spec fn ok() -> ResultView {
    report("OK"@, 0, 0)
}

/// The result of a statement that has nothing to report.
pub fn ok_result() -> (r: ExecuteResult)
    ensures
        r.deep_view() == ok(),
{
    ExecuteResult::report("OK".to_owned(), 0, 0)
}

// ---------------------------------------------------------------------------
// SHOW TABLES
// ---------------------------------------------------------------------------

/// Where a name is put into names in order: behind all that do not come after it.
pub open spec fn name_slot(names: Seq<Seq<char>>, name: Seq<char>, i: int) -> int
    decreases i,
{
    if i <= 0 {
        0
    } else if text_order(name, names[i - 1]) == Order::Less {
        name_slot(names, name, i - 1)
    } else {
        i
    }
}

/// The first `n` names in order.
pub open spec fn names_sorted(names: Seq<Seq<char>>, n: int) -> Seq<Seq<char>>
    decreases n,
{
    if n <= 0 {
        Seq::empty()
    } else {
        let s = names_sorted(names, n - 1);
        s.insert(name_slot(s, names[n - 1], s.len() as int), names[n - 1])
    }
}

/// The names of all tables.
pub open spec fn table_names(c: Catalog) -> Seq<Seq<char>> {
    Seq::new(c.tables@.len(), |i: int| c.tables@[i].1.name@)
}

/// Rows of one text each.
pub open spec fn text_rows(names: Seq<Seq<char>>) -> Seq<Seq<ValueView>> {
    Seq::new(names.len(), |i: int| seq![ValueView::Varchar(names[i])])
}

/// The answer to SHOW TABLES.
pub open spec fn tables_answer(c: Catalog) -> ResultView {
    answer(
        seq!["Tables_in_forgedb"@],
        text_rows(names_sorted(table_names(c), c.tables@.len() as int)),
    )
}

proof fn lemma_name_slot(names: Seq<Seq<char>>, name: Seq<char>, i: int)
    requires
        0 <= i <= names.len(),
    ensures
        0 <= name_slot(names, name, i) <= i,
    decreases i,
{
    if i > 0 {
        lemma_name_slot(names, name, i - 1);
    }
}

fn sort_table_names(catalog: &Catalog) -> (r: Vec<String>)
    ensures
        r.deep_view() == names_sorted(table_names(*catalog), catalog.tables@.len() as int),
{
    let ghost names = table_names(*catalog);
    let mut out: Vec<String> = Vec::new();
    assert(out.deep_view() =~= Seq::<Seq<char>>::empty());
    let mut i: usize = 0;
    while i < catalog.tables.len()
        invariant
            0 <= i <= catalog.tables.len(),
            names == table_names(*catalog),
            out.deep_view() == names_sorted(names, i as int),
        decreases catalog.tables.len() - i,
    {
        let name = catalog.tables[i].1.name.clone();
        let ghost nv = name@;
        let ghost had = out.deep_view();
        let mut k: usize = out.len();
        assert(had.len() == out.len());
        while k > 0 && matches!(order_text(name.as_str(), out[k - 1].as_str()), Order::Less)
            invariant
                k <= out.len(),
                nv == name@,
                had == out.deep_view(),
                name_slot(had, nv, had.len() as int) == name_slot(had, nv, k as int),
            decreases k,
        {
            assert(had[k - 1] == out@[k - 1]@);
            k -= 1;
        }
        proof {
            if k > 0 {
                assert(had[k - 1] == out@[k - 1]@);
            }
            lemma_name_slot(had, nv, had.len() as int);
        }
        out.insert(k, name);
        assert(out.deep_view() =~= had.insert(k as int, nv));
        i += 1;
    }
    out
}

fn one_column(name: &str) -> (r: Vec<String>)
    ensures
        r.deep_view() == seq![name@],
{
    let mut out: Vec<String> = Vec::new();
    out.push(name.to_owned());
    assert(out.deep_view() =~= seq![name@]);
    out
}

/// Rows of one text each.
pub fn make_text_rows(names: Vec<String>) -> (r: Vec<Vec<Value>>)
    ensures
        r.deep_view() == text_rows(names.deep_view()),
{
    let ghost all = text_rows(names.deep_view());
    let mut out: Vec<Vec<Value>> = Vec::new();
    let mut i: usize = 0;
    while i < names.len()
        invariant
            0 <= i <= names.len(),
            all == text_rows(names.deep_view()),
            out.len() == i,
            forall|k: int| 0 <= k < i ==> (#[trigger] out@[k]).deep_view() == all[k],
        decreases names.len() - i,
    {
        let mut row: Vec<Value> = Vec::new();
        row.push(Value::Varchar(names[i].clone()));
        assert(row.deep_view() =~= all[i as int]);
        out.push(row);
        i += 1;
    }
    assert(out.deep_view() =~= all);
    out
}

/// Answers SHOW TABLES.
pub fn show_tables(catalog: &Catalog) -> (r: ExecuteResult)
    ensures
        r.deep_view() == tables_answer(*catalog),
{
    let names = sort_table_names(catalog);
    ExecuteResult::answer(one_column("Tables_in_forgedb"), make_text_rows(names))
}

// ---------------------------------------------------------------------------
// SHOW COLUMNS, SHOW CREATE TABLE
// ---------------------------------------------------------------------------

/// The name of a type.
pub open spec fn type_text(t: DataType) -> Seq<char> {
    match t {
        DataType::Integer => "Integer"@,
        DataType::Float => "Float"@,
        DataType::Varchar(n) => "Varchar("@ + nat_text(n as nat) + ")"@,
        DataType::Boolean => "Boolean"@,
        DataType::BigInt => "BigInt"@,
        DataType::DateTime => "DateTime"@,
        DataType::Decimal(p, s) => "Decimal("@ + nat_text(p as nat) + ", "@ + nat_text(s as nat)
            + ")"@,
        DataType::Date => "Date"@,
        DataType::Time => "Time"@,
        DataType::VarBinary(n) => "VarBinary("@ + nat_text(n as nat) + ")"@,
        DataType::Json => "Json"@,
        DataType::Uuid => "Uuid"@,
    }
}

fn show_type(t: &DataType) -> (r: String)
    ensures
        r@ == type_text(*t),
{
    match t {
        DataType::Integer => "Integer".to_owned(),
        DataType::Float => "Float".to_owned(),
        DataType::Varchar(n) => {
            let mut s = "Varchar(".to_owned();
            s.append(show_u64(*n as u64).as_str());
            s.append(")");
            s
        },
        DataType::Boolean => "Boolean".to_owned(),
        DataType::BigInt => "BigInt".to_owned(),
        DataType::DateTime => "DateTime".to_owned(),
        DataType::Decimal(p, n) => {
            let mut s = "Decimal(".to_owned();
            s.append(show_u64(*p as u64).as_str());
            s.append(", ");
            s.append(show_u64(*n as u64).as_str());
            s.append(")");
            s
        },
        DataType::Date => "Date".to_owned(),
        DataType::Time => "Time".to_owned(),
        DataType::VarBinary(n) => {
            let mut s = "VarBinary(".to_owned();
            s.append(show_u64(*n as u64).as_str());
            s.append(")");
            s
        },
        DataType::Json => "Json".to_owned(),
        DataType::Uuid => "Uuid".to_owned(),
    }
}

/// The row that describes a column.
pub open spec fn column_row(c: Column) -> Seq<ValueView> {
    seq![
        ValueView::Varchar(c.name@),
        ValueView::Varchar(type_text(c.data_type)),
        ValueView::Varchar(
            if c.nullable {
                "YES"@
            } else {
                "NO"@
            },
        ),
        ValueView::Varchar(
            if c.is_primary_key {
                "PRI"@
            } else {
                ""@
            },
        ),
        ValueView::Null,
        ValueView::Varchar(
            if c.auto_increment {
                "auto_increment"@
            } else {
                ""@
            },
        ),
    ]
}

/// The answer to SHOW COLUMNS and DESCRIBE.
pub open spec fn columns_answer(c: Catalog, table: Seq<char>) -> Answer {
    match table_of(c, table) {
        None => Err(no_table(table)),
        Some(info) => Ok(
            answer(
                seq!["Field"@, "Type"@, "Null"@, "Key"@, "Default"@, "Extra"@],
                Seq::new(
                    info.schema.columns@.len(),
                    |i: int| column_row(info.schema.columns@[i]),
                ),
            ),
        ),
    }
}

fn text_value(s: &str) -> (v: Value)
    ensures
        v@ == ValueView::Varchar(s@),
{
    Value::Varchar(s.to_owned())
}

fn describe_column(c: &Column) -> (r: Vec<Value>)
    ensures
        r.deep_view() == column_row(*c),
{
    let mut row: Vec<Value> = Vec::new();
    row.push(Value::Varchar(c.name.clone()));
    row.push(Value::Varchar(show_type(&c.data_type)));
    row.push(
        if c.nullable {
            text_value("YES")
        } else {
            text_value("NO")
        },
    );
    row.push(
        if c.is_primary_key {
            text_value("PRI")
        } else {
            text_value("")
        },
    );
    row.push(Value::Null);
    row.push(
        if c.auto_increment {
            text_value("auto_increment")
        } else {
            text_value("")
        },
    );
    assert(row.deep_view() =~= column_row(*c));
    row
}

/// Answers SHOW COLUMNS and DESCRIBE.
pub fn show_columns(catalog: &Catalog, table: &str) -> (r: Result<ExecuteResult>)
    ensures
        outcome(r) == columns_answer(*catalog, table@),
{
    let info = find_table(catalog, table)?;
    let ghost all = Seq::new(
        info.schema.columns@.len(),
        |i: int| column_row(info.schema.columns@[i]),
    );
    let mut rows: Vec<Vec<Value>> = Vec::new();
    let mut i: usize = 0;
    while i < info.schema.columns.len()
        invariant
            0 <= i <= info.schema.columns.len(),
            rows.len() == i,
            forall|k: int|
                0 <= k < i ==> (#[trigger] rows@[k]).deep_view() == column_row(
                    info.schema.columns@[k],
                ),
        decreases info.schema.columns.len() - i,
    {
        rows.push(describe_column(&info.schema.columns[i]));
        i += 1;
    }
    assert(rows.deep_view() =~= all);
    let mut names: Vec<String> = Vec::new();
    names.push("Field".to_owned());
    names.push("Type".to_owned());
    names.push("Null".to_owned());
    names.push("Key".to_owned());
    names.push("Default".to_owned());
    names.push("Extra".to_owned());
    assert(names.deep_view() =~= seq![
        "Field"@,
        "Type"@,
        "Null"@,
        "Key"@,
        "Default"@,
        "Extra"@,
    ]);
    Ok(ExecuteResult::answer(names, rows))
}

/// The definition of a column.
pub open spec fn column_text(c: Column) -> Seq<char> {
    "  `"@ + c.name@ + "` "@ + type_text(c.data_type) + (if c.nullable {
        " NULL"@
    } else {
        " NOT NULL"@
    }) + (if c.auto_increment {
        " AUTO_INCREMENT"@
    } else {
        ""@
    })
}

/// The definitions of the first `n` columns.
pub open spec fn columns_text(cols: Seq<Column>, n: int) -> Seq<char>
    decreases n,
{
    if n <= 0 {
        Seq::empty()
    } else if n == 1 {
        column_text(cols[0])
    } else {
        columns_text(cols, n - 1) + ",\n"@ + column_text(cols[n - 1])
    }
}

/// The definition of a table.
pub open spec fn table_text(info: TableInfo) -> Seq<char> {
    "CREATE TABLE `"@ + info.name@ + "` (\n"@ + columns_text(
        info.schema.columns@,
        info.schema.columns@.len() as int,
    ) + "\n)"@
}

/// The answer to SHOW CREATE TABLE.
pub open spec fn create_table_answer(c: Catalog, table: Seq<char>) -> Answer {
    match table_of(c, table) {
        None => Err(no_table(table)),
        Some(info) => Ok(
            answer(
                seq!["Table"@, "Create Table"@],
                seq![
                    seq![ValueView::Varchar(info.name@), ValueView::Varchar(table_text(info))],
                ],
            ),
        ),
    }
}

fn show_column_text(c: &Column) -> (r: String)
    ensures
        r@ == column_text(*c),
{
    let mut s = "  `".to_owned();
    s.append(c.name.as_str());
    s.append("` ");
    s.append(show_type(&c.data_type).as_str());
    s.append(
        if c.nullable {
            " NULL"
        } else {
            " NOT NULL"
        },
    );
    s.append(
        if c.auto_increment {
            " AUTO_INCREMENT"
        } else {
            ""
        },
    );
    s
}

/// Answers SHOW CREATE TABLE.
pub fn show_create_table(catalog: &Catalog, table: &str) -> (r: Result<ExecuteResult>)
    ensures
        outcome(r) == create_table_answer(*catalog, table@),
{
    let info = find_table(catalog, table)?;
    let ghost cols = info.schema.columns@;
    let mut body = String::new();
    assert(body@ =~= columns_text(cols, 0));
    let mut i: usize = 0;
    while i < info.schema.columns.len()
        invariant
            0 <= i <= info.schema.columns.len(),
            cols == info.schema.columns@,
            body@ == columns_text(cols, i as int),
        decreases info.schema.columns.len() - i,
    {
        let ghost had = body@;
        if i > 0 {
            body.append(",\n");
        }
        body.append(show_column_text(&info.schema.columns[i]).as_str());
        if i == 0 {
            assert(had =~= Seq::<char>::empty());
            assert(body@ =~= column_text(cols[0]));
        }
        i += 1;
    }
    let mut ddl = "CREATE TABLE `".to_owned();
    ddl.append(info.name.as_str());
    ddl.append("` (\n");
    ddl.append(body.as_str());
    ddl.append("\n)");
    let mut row: Vec<Value> = Vec::new();
    row.push(Value::Varchar(info.name.clone()));
    row.push(Value::Varchar(ddl));
    let ghost rv = row.deep_view();
    assert(rv =~= seq![ValueView::Varchar(info.name@), ValueView::Varchar(table_text(*info))]);
    let mut rows: Vec<Vec<Value>> = Vec::new();
    rows.push(row);
    assert(rows.deep_view() =~= seq![rv]);
    let mut names: Vec<String> = Vec::new();
    names.push("Table".to_owned());
    names.push("Create Table".to_owned());
    assert(names.deep_view() =~= seq!["Table"@, "Create Table"@]);
    Ok(ExecuteResult::answer(names, rows))
}

// ---------------------------------------------------------------------------
// UNION
// ---------------------------------------------------------------------------

/// The rows of two answers together: all, or each once. The columns are those of the first,
/// unless it has none.
pub open spec fn union_answer(left: ResultView, right: ResultView, all: bool) -> ResultView {
    let rows = left.rows + right.rows;
    answer(
        if left.columns.len() > 0 {
            left.columns
        } else {
            right.columns
        },
        if all {
            rows
        } else {
            distinct_from(rows, 0, Seq::empty(), Seq::empty())
        },
    )
}

/// The rows of two answers together.
pub fn unite(left: ExecuteResult, right: ExecuteResult, all: bool) -> (r: ExecuteResult)
    ensures
        r.deep_view() == union_answer(left.deep_view(), right.deep_view(), all),
{
    let ghost lv = left.deep_view();
    let ghost rv = right.deep_view();
    let mut left = left;
    let mut right = right;
    assert(left.columns.deep_view().len() == left.columns.len());
    let columns: Vec<String> = if left.columns.len() > 0 {
        left.columns
    } else {
        right.columns
    };
    let mut rows = left.rows;
    rows.append(&mut right.rows);
    assert(rows.deep_view() =~= lv.rows + rv.rows);
    let both = ExecuteResult::answer(columns, rows);
    if all {
        both
    } else {
        keep_distinct(both)
    }
}

// ---------------------------------------------------------------------------
// EXPLAIN
// ---------------------------------------------------------------------------

/// The name of a plan's topmost step.
pub open spec fn step_text(plan: PlanNode) -> Seq<char> {
    match plan {
        PlanNode::CreateTable { table_name, columns } => "CreateTable "@ + table_name@,
        PlanNode::DropTable { table_name } => "DropTable "@ + table_name@,
        PlanNode::CreateIndex { index_name, table_name, columns, unique, include_columns } =>
            "CreateIndex "@ + index_name@,
        PlanNode::Insert { table_name, columns, values, on_conflict } => "Insert "@ + table_name@,
        PlanNode::Update { table_name, assignments, child } => "Update "@ + table_name@,
        PlanNode::Delete { table_name, child } => "Delete "@ + table_name@,
        PlanNode::SeqScan { table_name, alias } => "SeqScan "@ + table_name@,
        PlanNode::IndexScan { table_name, index_column, lookup_value, index_only } =>
            "IndexScan "@ + table_name@,
        PlanNode::Filter { predicate, child } => "Filter"@,
        PlanNode::NestedLoopJoin { left, right, join_type, on } => "NestedLoopJoin"@,
        PlanNode::HashJoin { left, right, join_type, on } => "HashJoin"@,
        PlanNode::Projection { columns, child } => "Projection"@,
        PlanNode::GroupBy { group_exprs, having, select_columns, child } => "GroupBy"@,
        PlanNode::Distinct { child } => "Distinct"@,
        PlanNode::Sort { order_by, child } => "Sort"@,
        PlanNode::Limit { count, offset, child } => "Limit"@,
    }
}

/// The steps of a plan, one to a line; what a step works on stands below it, further in.
pub open spec fn plan_lines(plan: PlanNode, indent: Seq<char>) -> Seq<Seq<char>>
    decreases plan,
{
    let head = seq![indent + step_text(plan)];
    let inner = indent + "  "@;
    match plan {
        PlanNode::Update { table_name, assignments, child } => head + plan_lines(*child, inner),
        PlanNode::Delete { table_name, child } => head + plan_lines(*child, inner),
        PlanNode::Filter { predicate, child } => head + plan_lines(*child, inner),
        PlanNode::NestedLoopJoin { left, right, join_type, on } => head + plan_lines(*left, inner)
            + plan_lines(*right, inner),
        PlanNode::HashJoin { left, right, join_type, on } => head + plan_lines(*left, inner)
            + plan_lines(*right, inner),
        PlanNode::Projection { columns, child } => head + plan_lines(*child, inner),
        PlanNode::GroupBy { group_exprs, having, select_columns, child } => head + plan_lines(
            *child,
            inner,
        ),
        PlanNode::Distinct { child } => head + plan_lines(*child, inner),
        PlanNode::Sort { order_by, child } => head + plan_lines(*child, inner),
        PlanNode::Limit { count, offset, child } => head + plan_lines(*child, inner),
        _ => head,
    }
}

fn show_step(plan: &PlanNode) -> (r: String)
    ensures
        r@ == step_text(*plan),
{
    match plan {
        PlanNode::CreateTable { table_name, columns: _ } => joined(
            "CreateTable ",
            table_name.as_str(),
        ),
        PlanNode::DropTable { table_name } => joined("DropTable ", table_name.as_str()),
        PlanNode::CreateIndex {
            index_name,
            table_name: _,
            columns: _,
            unique: _,
            include_columns: _,
        } => joined("CreateIndex ", index_name.as_str()),
        PlanNode::Insert { table_name, columns: _, values: _, on_conflict: _ } => joined(
            "Insert ",
            table_name.as_str(),
        ),
        PlanNode::Update { table_name, assignments: _, child: _ } => joined(
            "Update ",
            table_name.as_str(),
        ),
        PlanNode::Delete { table_name, child: _ } => joined("Delete ", table_name.as_str()),
        PlanNode::SeqScan { table_name, alias: _ } => joined("SeqScan ", table_name.as_str()),
        PlanNode::IndexScan { table_name, index_column: _, lookup_value: _, index_only: _ } => {
            joined("IndexScan ", table_name.as_str())
        },
        PlanNode::Filter { predicate: _, child: _ } => "Filter".to_owned(),
        PlanNode::NestedLoopJoin { left: _, right: _, join_type: _, on: _ } => {
            "NestedLoopJoin".to_owned()
        },
        PlanNode::HashJoin { left: _, right: _, join_type: _, on: _ } => "HashJoin".to_owned(),
        PlanNode::Projection { columns: _, child: _ } => "Projection".to_owned(),
        PlanNode::GroupBy { group_exprs: _, having: _, select_columns: _, child: _ } => {
            "GroupBy".to_owned()
        },
        PlanNode::Distinct { child: _ } => "Distinct".to_owned(),
        PlanNode::Sort { order_by: _, child: _ } => "Sort".to_owned(),
        PlanNode::Limit { count: _, offset: _, child: _ } => "Limit".to_owned(),
    }
}

fn add_lines(out: &mut Vec<String>, plan: &PlanNode, indent: &str)
    ensures
        final(out).deep_view() == old(out).deep_view() + plan_lines(*plan, indent@),
    decreases *plan,
{
    let ghost start = out.deep_view();
    let line = joined(indent, show_step(plan).as_str());
    let ghost lv = line@;
    out.push(line);
    assert(out.deep_view() =~= start + seq![lv]);
    let inner = joined(indent, "  ");
    match plan {
        PlanNode::Update { table_name: _, assignments: _, child } => add_lines(
            out,
            child,
            inner.as_str(),
        ),
        PlanNode::Delete { table_name: _, child } => add_lines(out, child, inner.as_str()),
        PlanNode::Filter { predicate: _, child } => add_lines(out, child, inner.as_str()),
        PlanNode::NestedLoopJoin { left, right, join_type: _, on: _ } => {
            add_lines(out, left, inner.as_str());
            add_lines(out, right, inner.as_str());
        },
        PlanNode::HashJoin { left, right, join_type: _, on: _ } => {
            add_lines(out, left, inner.as_str());
            add_lines(out, right, inner.as_str());
        },
        PlanNode::Projection { columns: _, child } => add_lines(out, child, inner.as_str()),
        PlanNode::GroupBy { group_exprs: _, having: _, select_columns: _, child } => add_lines(
            out,
            child,
            inner.as_str(),
        ),
        PlanNode::Distinct { child } => add_lines(out, child, inner.as_str()),
        PlanNode::Sort { order_by: _, child } => add_lines(out, child, inner.as_str()),
        PlanNode::Limit { count: _, offset: _, child } => add_lines(out, child, inner.as_str()),
        _ => {},
    }
    assert(out.deep_view() =~= start + plan_lines(*plan, indent@));
}

/// The answer to EXPLAIN.
pub open spec fn explain_answer(plan: PlanNode) -> ResultView {
    answer(seq!["Query Plan"@], text_rows(plan_lines(plan, ""@)))
}

/// Answers EXPLAIN.
pub fn explain(plan: &PlanNode) -> (r: ExecuteResult)
    ensures
        r.deep_view() == explain_answer(*plan),
{
    let mut lines: Vec<String> = Vec::new();
    assert(lines.deep_view() =~= Seq::<Seq<char>>::empty());
    add_lines(&mut lines, plan, "");
    assert(lines.deep_view() =~= plan_lines(*plan, ""@));
    ExecuteResult::answer(one_column("Query Plan"), make_text_rows(lines))
}

// ---------------------------------------------------------------------------
// Results as literals
// ---------------------------------------------------------------------------

/// The value that stands for an integer in a statement.
pub open spec fn literal_int(n: int) -> ValueView {
    if i32::MIN <= n <= i32::MAX {
        ValueView::Integer(n as i32)
    } else {
        ValueView::BigInt(n as i64)
    }
}

/// The value of the literal that stands for a value in a statement: dates and times are
/// integers there, decimals are doubles, and bytes are NULL.
pub open spec fn as_literal(v: ValueView, h: HostView) -> std::result::Result<
    ValueView,
    ErrorView,
> {
    match v {
        ValueView::Integer(n) => Ok(v),
        ValueView::BigInt(n) => Ok(literal_int(n as int)),
        ValueView::Float(f) => Ok(v),
        ValueView::Varchar(s) => Ok(v),
        ValueView::Boolean(b) => Ok(v),
        ValueView::DateTime(e) => Ok(literal_int(e as int)),
        ValueView::Decimal(n, s) => match decimal_float(n, s, h) {
            Ok(f) => Ok(ValueView::Float(f)),
            Err(e) => Err(e),
        },
        ValueView::Date(d) => Ok(ValueView::Integer(d)),
        ValueView::Time(t) => Ok(ValueView::Integer(t)),
        ValueView::Binary(_) => Ok(ValueView::Null),
        ValueView::Json(s) => Ok(ValueView::Varchar(s)),
        ValueView::Uuid(s) => Ok(ValueView::Varchar(s)),
        ValueView::Null => Ok(v),
    }
}

/// Whether an expression is the literal for a value.
pub open spec fn stands_for(e: Expr, v: ValueView, h: HostView) -> bool {
    match e {
        Expr::Literal(l) => as_literal(v, h) == Ok::<ValueView, ErrorView>(literal(l)),
        _ => false,
    }
}

/// Convert a runtime Value to a literal Expr for inlining subquery results.
pub fn value_to_literal_expr(val: &Value, host: &Host) -> (r: std::result::Result<
    Expr,
    ForgeError,
>)
    ensures
        match r {
            Ok(e) => stands_for(e, val@, host@),
            Err(e) => as_literal(val@, host@) == Err::<ValueView, ErrorView>(e@),
        },
{
    let lit = match val {
        Value::Integer(n) => LiteralValue::Integer(*n as i64),
        Value::BigInt(n) => LiteralValue::Integer(*n),
        Value::Float(f) => LiteralValue::Float(*f),
        Value::Varchar(s) => LiteralValue::String(s.clone()),
        Value::Boolean(b) => LiteralValue::Boolean(*b),
        Value::DateTime(e) => LiteralValue::Integer(*e),
        Value::Decimal(n, s) => LiteralValue::Float(float_of_decimal(*n, *s, host)?),
        Value::Date(d) => LiteralValue::Integer(*d as i64),
        Value::Time(t) => LiteralValue::Integer(*t as i64),
        Value::Binary(_) => LiteralValue::Null,
        Value::Json(s) => LiteralValue::String(s.clone()),
        Value::Uuid(s) => LiteralValue::String(s.clone()),
        Value::Null => LiteralValue::Null,
    };
    Ok(Expr::Literal(lit))
}

/// Whether expressions are the literals for the values of a row.
pub open spec fn row_stands_for(exprs: Vec<Expr>, row: Seq<ValueView>, h: HostView) -> bool {
    &&& exprs@.len() == row.len()
    &&& forall|j: int| 0 <= j < row.len() ==> stands_for(#[trigger] exprs@[j], row[j], h)
}

/// Whether expressions are the literals for the values of rows.
pub open spec fn rows_stand_for(
    exprs: Seq<Vec<Expr>>,
    rows: Seq<Seq<ValueView>>,
    h: HostView,
) -> bool {
    &&& exprs.len() == rows.len()
    &&& forall|i: int| 0 <= i < rows.len() ==> row_stands_for(#[trigger] exprs[i], rows[i], h)
}

/// The first error that keeps the values of a row from `j` on from being literals.
pub open spec fn row_literal_error(row: Seq<ValueView>, j: int, h: HostView) -> Option<ErrorView>
    decreases row.len() - j,
{
    if j < 0 || j >= row.len() {
        None
    } else {
        match as_literal(row[j], h) {
            Err(e) => Some(e),
            Ok(_) => row_literal_error(row, j + 1, h),
        }
    }
}

/// The first error that keeps the values of rows from `i` on from being literals.
pub open spec fn literal_error(rows: Seq<Seq<ValueView>>, i: int, h: HostView) -> Option<ErrorView>
    decreases rows.len() - i,
{
    if i < 0 || i >= rows.len() {
        None
    } else {
        match row_literal_error(rows[i], 0, h) {
            Some(e) => Some(e),
            None => literal_error(rows, i + 1, h),
        }
    }
}

fn row_to_literals(row: &Vec<Value>, host: &Host) -> (r: std::result::Result<Vec<Expr>, ForgeError>)
    ensures
        match r {
            Ok(v) => row_literal_error(row.deep_view(), 0, host@) is None && row_stands_for(
                v,
                row.deep_view(),
                host@,
            ),
            Err(e) => row_literal_error(row.deep_view(), 0, host@) == Some(e@),
        },
{
    let ghost rv = row.deep_view();
    let mut out: Vec<Expr> = Vec::new();
    let mut j: usize = 0;
    while j < row.len()
        invariant
            0 <= j <= row.len(),
            rv == row.deep_view(),
            out.len() == j,
            row_literal_error(rv, 0, host@) == row_literal_error(rv, j as int, host@),
            forall|k: int| 0 <= k < j ==> stands_for(#[trigger] out@[k], rv[k], host@),
        decreases row.len() - j,
    {
        assert(rv[j as int] == row@[j as int]@);
        out.push(value_to_literal_expr(&row[j], host)?);
        j += 1;
    }
    Ok(out)
}

/// The values of rows as literals.
pub fn rows_to_literals(rows: &Vec<Vec<Value>>, host: &Host) -> (r: std::result::Result<
    Vec<Vec<Expr>>,
    ForgeError,
>)
    ensures
        match r {
            Ok(v) => literal_error(rows.deep_view(), 0, host@) is None && rows_stand_for(
                v@,
                rows.deep_view(),
                host@,
            ),
            Err(e) => literal_error(rows.deep_view(), 0, host@) == Some(e@),
        },
{
    let ghost rv = rows.deep_view();
    let mut out: Vec<Vec<Expr>> = Vec::new();
    let mut i: usize = 0;
    while i < rows.len()
        invariant
            0 <= i <= rows.len(),
            rv == rows.deep_view(),
            out.len() == i,
            literal_error(rv, 0, host@) == literal_error(rv, i as int, host@),
            forall|k: int| 0 <= k < i ==> row_stands_for(#[trigger] out@[k], rv[k], host@),
        decreases rows.len() - i,
    {
        assert(rv[i as int] == rows@[i as int].deep_view());
        out.push(row_to_literals(&rows[i], host)?);
        i += 1;
    }
    Ok(out)
}

// ---------------------------------------------------------------------------
// Results as tables
// ---------------------------------------------------------------------------

/// The type of the column that holds a value; text for NULL.
pub open spec fn value_type(v: ValueView) -> DataType {
    match v {
        ValueView::Integer(_) => DataType::Integer,
        ValueView::BigInt(_) => DataType::BigInt,
        ValueView::Float(_) => DataType::Float,
        ValueView::Boolean(_) => DataType::Boolean,
        ValueView::DateTime(_) => DataType::DateTime,
        ValueView::Decimal(_, s) => DataType::Decimal(18, s),
        ValueView::Date(_) => DataType::Date,
        ValueView::Time(_) => DataType::Time,
        ValueView::Binary(_) => DataType::VarBinary(255),
        ValueView::Json(_) => DataType::Json,
        ValueView::Uuid(_) => DataType::Uuid,
        ValueView::Varchar(_) => DataType::Varchar(255),
        ValueView::Null => DataType::Varchar(255),
    }
}

fn type_for(v: &Value) -> (r: DataType)
    ensures
        r == value_type(v@),
{
    match v {
        Value::Integer(_) => DataType::Integer,
        Value::BigInt(_) => DataType::BigInt,
        Value::Float(_) => DataType::Float,
        Value::Boolean(_) => DataType::Boolean,
        Value::DateTime(_) => DataType::DateTime,
        Value::Decimal(_, s) => DataType::Decimal(18, *s),
        Value::Date(_) => DataType::Date,
        Value::Time(_) => DataType::Time,
        Value::Binary(_) => DataType::VarBinary(255),
        Value::Json(_) => DataType::Json,
        Value::Uuid(_) => DataType::Uuid,
        Value::Varchar(_) => DataType::Varchar(255),
        Value::Null => DataType::Varchar(255),
    }
}

/// The type of a column of a result, going by its first row.
pub open spec fn result_type(rows: Seq<Seq<ValueView>>, c: int) -> DataType {
    if rows.len() > 0 && c < rows[0].len() {
        value_type(rows[0][c])
    } else {
        DataType::Varchar(255)
    }
}

/// Whether definitions are those of the columns of a result.
pub open spec fn result_columns(
    defs: Seq<ColumnDef>,
    names: Seq<Seq<char>>,
    rows: Seq<Seq<ValueView>>,
) -> bool {
    &&& defs.len() == names.len()
    &&& forall|c: int|
        0 <= c < names.len() ==> result_column(#[trigger] defs[c], names[c], result_type(rows, c))
}

/// Whether a definition is that of a plain column.
pub open spec fn result_column(def: ColumnDef, name: Seq<char>, t: DataType) -> bool {
    &&& def.name@ == name
    &&& def.data_type == t
    &&& def.nullable
    &&& !def.auto_increment
    &&& def.default_value is None
    &&& !def.is_primary_key
    &&& !def.is_unique
    &&& def.check_expr is None
    &&& def.references is None
}

/// The definitions of the columns of a result.
pub fn define_columns(names: &Vec<String>, rows: &Vec<Vec<Value>>) -> (r: Vec<ColumnDef>)
    ensures
        result_columns(r@, names.deep_view(), rows.deep_view()),
{
    let ghost nv = names.deep_view();
    let ghost rv = rows.deep_view();
    let mut out: Vec<ColumnDef> = Vec::new();
    let mut c: usize = 0;
    while c < names.len()
        invariant
            0 <= c <= names.len(),
            nv == names.deep_view(),
            rv == rows.deep_view(),
            out.len() == c,
            forall|k: int|
                0 <= k < c ==> result_column(#[trigger] out@[k], nv[k], result_type(rv, k)),
        decreases names.len() - c,
    {
        assert(nv[c as int] == names@[c as int]@);
        let data_type = if rows.len() > 0 {
            assert(rv[0] == rows@[0].deep_view());
            if c < rows[0].len() {
                assert(rv[0][c as int] == rows@[0]@[c as int]@);
                type_for(&rows[0][c])
            } else {
                DataType::Varchar(255)
            }
        } else {
            DataType::Varchar(255)
        };
        out.push(
            ColumnDef {
                name: names[c].clone(),
                data_type,
                nullable: true,
                auto_increment: false,
                default_value: None,
                is_primary_key: false,
                is_unique: false,
                check_expr: None,
                references: None,
            },
        );
        c += 1;
    }
    out
}

} // verus!
