use forgedb::arena_join::{
    try_arena_join, try_arena_left_join_projected, try_arena_left_join_result,
};
use forgedb::ast::{
    AlterTableOp, BinaryOperator, ColumnDef, Cte, Expr, FkAction, FkReference, FromClause,
    JoinType, LiteralValue, OnConflict, OnConflictAction, OrderByItem, SelectColumn, Statement,
};
use forgedb::columnar_join::{
    columnar_to_execute_result, columnar_to_forgewire, try_columnar_inner_join,
};
use forgedb::common::TxnId;
use forgedb::database::Database;
use forgedb::error::{ForgeError, Result};
use forgedb::host::{FloatCall, FloatOp, Host};
use forgedb::index_scan::{execute_index_only_scan, execute_index_scan};
use forgedb::parallel::{merge_scans, split_pages};
use forgedb::scan::{execute_seq_scan, execute_seq_scan_limit};
use forgedb::session::Action;
use forgedb::state::ExecuteResult;
use forgedb::storage::Snapshot;
use forgedb::txn::TxnContext;
use forgedb::types::{DataType, Value};

fn supply(host: &mut Host, call: FloatCall) {
    match call {
        FloatCall::Numeric(op, x, y) => {
            let a = f64::from_bits(x);
            let b = f64::from_bits(y);
            let r = match op {
                FloatOp::Add => a + b,
                FloatOp::Sub => a - b,
                FloatOp::Mul => a * b,
                FloatOp::Div => a / b,
                FloatOp::Rem => a % b,
                FloatOp::Pow => a.powf(b),
                FloatOp::Sqrt => a.sqrt(),
                FloatOp::Round => a.round(),
                FloatOp::Ceil => a.ceil(),
                FloatOp::Floor => a.floor(),
                FloatOp::PowTen => 10f64.powi(x as i32),
            };
            host.numeric.push((op, x, y, r.to_bits()));
        }
        FloatCall::Parse(s) => {
            let r = s.parse::<f64>().ok().map(|f| f.to_bits());
            host.parsed.push((s, r));
        }
        FloatCall::Show(x) => host.shown.push((x, f64::from_bits(x).to_string())),
        FloatCall::Debug(x) => host.debugged.push((x, format!("{:?}", f64::from_bits(x)))),
    }
}

/// Executes a statement in a session; the statement is made anew each time the host is asked.
fn run_in(
    db: &mut Database,
    session: &mut Option<TxnId>,
    sql: &str,
    make: &dyn Fn() -> Statement,
) -> Result<(ExecuteResult, Vec<String>)> {
    let mut host = Host::new(0, 0);
    loop {
        match db.execute_parsed_session(make(), session, sql, &host) {
            Err(ForgeError::NeedsFloat(call)) => supply(&mut host, call),
            other => return other,
        }
    }
}

fn run(db: &mut Database, make: &dyn Fn() -> Statement) -> Result<ExecuteResult> {
    run_in(db, &mut None, "", make).map(|r| r.0)
}

fn num(n: i64) -> Expr {
    Expr::Literal(LiteralValue::Integer(n))
}

fn text(s: &str) -> Expr {
    Expr::Literal(LiteralValue::String(s.into()))
}

fn null() -> Expr {
    Expr::Literal(LiteralValue::Null)
}

fn col(name: &str) -> Expr {
    Expr::ColumnRef { table: None, column: name.into() }
}

fn bin(left: Expr, op: BinaryOperator, right: Expr) -> Expr {
    Expr::BinaryOp { left: Box::new(left), op, right: Box::new(right) }
}

fn def(name: &str, data_type: DataType) -> ColumnDef {
    ColumnDef {
        name: name.into(),
        data_type,
        nullable: true,
        auto_increment: false,
        default_value: None,
        is_primary_key: false,
        is_unique: false,
        check_expr: None,
        references: None,
    }
}

fn create(table: &str, columns: Vec<ColumnDef>) -> Statement {
    Statement::CreateTable { table_name: table.into(), columns, if_not_exists: false }
}

fn insert(table: &str, rows: Vec<Vec<Expr>>) -> Statement {
    Statement::Insert {
        table_name: table.into(),
        columns: None,
        values: rows,
        on_conflict: None,
    }
}

fn from(table: &str) -> FromClause {
    FromClause::Table { name: table.into(), alias: None }
}

fn select_from(
    columns: Vec<SelectColumn>,
    from: FromClause,
    where_clause: Option<Expr>,
    ctes: Vec<Cte>,
) -> Statement {
    Statement::Select {
        distinct: false,
        columns,
        from,
        where_clause,
        group_by: vec![],
        having: None,
        order_by: vec![],
        limit: None,
        offset: None,
        ctes,
    }
}

fn star() -> Vec<SelectColumn> {
    vec![SelectColumn::AllColumns(None)]
}

fn out(expr: Expr) -> SelectColumn {
    SelectColumn::Expr { expr, alias: None }
}

fn all(table: &str) -> Statement {
    select_from(star(), from(table), None, vec![])
}

fn number(n: i32) -> Vec<Value> {
    vec![Value::Integer(n)]
}

/// A database with a table `t` of one integer column `a` that holds the numbers.
fn with_numbers(numbers: &[i64]) -> Database {
    let mut db = Database::new("data");
    run(&mut db, &|| create("t", vec![def("a", DataType::Integer)])).unwrap();
    if !numbers.is_empty() {
        run(&mut db, &|| insert("t", numbers.iter().map(|n| vec![num(*n)]).collect())).unwrap();
    }
    db
}

fn numbers(db: &mut Database, session: &mut Option<TxnId>) -> Vec<Vec<Value>> {
    run_in(db, session, "", &|| all("t")).unwrap().0.rows
}

#[test]
fn what_is_inserted_is_read() {
    let mut db = Database::new("data");
    run(&mut db, &|| {
        create("users", vec![def("id", DataType::Integer), def("name", DataType::Varchar(20))])
    })
    .unwrap();
    let done = run(&mut db, &|| {
        insert("users", vec![vec![num(1), text("ann")], vec![num(2), null()]])
    })
    .unwrap();
    assert_eq!(done.rows_affected, 2);
    assert_eq!(done.message, "(2 row(s) affected)");
    let found = run(&mut db, &|| all("users")).unwrap();
    assert_eq!(found.columns, vec!["id", "name"]);
    assert_eq!(
        found.rows,
        vec![
            vec![Value::Integer(1), Value::Varchar("ann".into())],
            vec![Value::Integer(2), Value::Null],
        ]
    );
}

#[test]
fn update_and_delete_change_what_is_read() {
    let mut db = with_numbers(&[1, 2, 3]);
    let done = run(&mut db, &|| Statement::Update {
        table_name: "t".into(),
        assignments: vec![("a".into(), bin(col("a"), BinaryOperator::Add, num(10)))],
        where_clause: Some(bin(col("a"), BinaryOperator::GtEq, num(2))),
    })
    .unwrap();
    assert_eq!(done.rows_affected, 2);
    assert_eq!(numbers(&mut db, &mut None), vec![number(1), number(12), number(13)]);
    let done = run(&mut db, &|| Statement::Delete {
        table_name: "t".into(),
        where_clause: Some(bin(col("a"), BinaryOperator::Eq, num(12))),
    })
    .unwrap();
    assert_eq!(done.rows_affected, 1);
    assert_eq!(numbers(&mut db, &mut None), vec![number(1), number(13)]);
}

#[test]
fn rollback_undoes_a_transaction() {
    let mut db = with_numbers(&[1, 2]);
    let mut s = None;
    run_in(&mut db, &mut s, "BEGIN", &|| Statement::StartTransaction).unwrap();
    assert!(s.is_some());
    run_in(&mut db, &mut s, "", &|| insert("t", vec![vec![num(3)]])).unwrap();
    run_in(&mut db, &mut s, "", &|| Statement::Delete {
        table_name: "t".into(),
        where_clause: Some(bin(col("a"), BinaryOperator::Eq, num(1))),
    })
    .unwrap();
    run_in(&mut db, &mut s, "", &|| Statement::Update {
        table_name: "t".into(),
        assignments: vec![("a".into(), num(7))],
        where_clause: Some(bin(col("a"), BinaryOperator::Eq, num(2))),
    })
    .unwrap();
    assert_eq!(numbers(&mut db, &mut s), vec![number(7), number(3)]);
    run_in(&mut db, &mut s, "ROLLBACK", &|| Statement::Rollback).unwrap();
    assert!(s.is_none());
    assert_eq!(numbers(&mut db, &mut None), vec![number(1), number(2)]);
}

#[test]
fn commit_keeps_a_transaction() {
    let mut db = with_numbers(&[1]);
    let mut s = None;
    run_in(&mut db, &mut s, "BEGIN", &|| Statement::StartTransaction).unwrap();
    run_in(&mut db, &mut s, "", &|| insert("t", vec![vec![num(2)]])).unwrap();
    run_in(&mut db, &mut s, "COMMIT", &|| Statement::Commit).unwrap();
    assert!(s.is_none());
    assert_eq!(numbers(&mut db, &mut None), vec![number(1), number(2)]);
}

#[test]
fn begin_commits_the_transaction_before_it() {
    let mut db = with_numbers(&[]);
    let mut s = None;
    run_in(&mut db, &mut s, "BEGIN", &|| Statement::StartTransaction).unwrap();
    let first = s;
    run_in(&mut db, &mut s, "", &|| insert("t", vec![vec![num(1)]])).unwrap();
    run_in(&mut db, &mut s, "BEGIN", &|| Statement::StartTransaction).unwrap();
    assert!(s.is_some() && s != first);
    run_in(&mut db, &mut s, "ROLLBACK", &|| Statement::Rollback).unwrap();
    assert_eq!(numbers(&mut db, &mut None), vec![number(1)]);
}

#[test]
fn commit_and_rollback_outside_a_transaction_do_nothing() {
    let mut db = with_numbers(&[1]);
    let mut s = None;
    assert_eq!(
        run_in(&mut db, &mut s, "COMMIT", &|| Statement::Commit).unwrap().0.message,
        "OK"
    );
    assert_eq!(
        run_in(&mut db, &mut s, "ROLLBACK", &|| Statement::Rollback).unwrap().0.message,
        "OK"
    );
    assert_eq!(numbers(&mut db, &mut None), vec![number(1)]);
}

#[test]
fn a_transaction_does_not_see_the_rows_of_another() {
    let mut db = with_numbers(&[1]);
    let (mut a, mut b) = (None, None);
    run_in(&mut db, &mut a, "BEGIN", &|| Statement::StartTransaction).unwrap();
    run_in(&mut db, &mut b, "BEGIN", &|| Statement::StartTransaction).unwrap();
    run_in(&mut db, &mut a, "", &|| insert("t", vec![vec![num(2)]])).unwrap();
    assert_eq!(numbers(&mut db, &mut a), vec![number(1), number(2)]);
    assert_eq!(numbers(&mut db, &mut b), vec![number(1)]);
    run_in(&mut db, &mut a, "COMMIT", &|| Statement::Commit).unwrap();
    assert_eq!(numbers(&mut db, &mut b), vec![number(1), number(2)]);
}

#[test]
fn rollback_to_a_savepoint_undoes_what_came_after() {
    let mut db = with_numbers(&[]);
    let mut s = None;
    run_in(&mut db, &mut s, "BEGIN", &|| Statement::StartTransaction).unwrap();
    run_in(&mut db, &mut s, "", &|| insert("t", vec![vec![num(1)]])).unwrap();
    run_in(&mut db, &mut s, "", &|| Statement::Savepoint { name: "p".into() }).unwrap();
    run_in(&mut db, &mut s, "", &|| insert("t", vec![vec![num(2)]])).unwrap();
    run_in(&mut db, &mut s, "", &|| Statement::RollbackTo { name: "p".into() }).unwrap();
    assert_eq!(numbers(&mut db, &mut s), vec![number(1)]);
    run_in(&mut db, &mut s, "", &|| insert("t", vec![vec![num(3)]])).unwrap();
    run_in(&mut db, &mut s, "", &|| Statement::RollbackTo { name: "p".into() }).unwrap();
    assert_eq!(numbers(&mut db, &mut s), vec![number(1)]);
    run_in(&mut db, &mut s, "", &|| Statement::ReleaseSavepoint { name: "p".into() }).unwrap();
    run_in(&mut db, &mut s, "", &|| insert("t", vec![vec![num(4)]])).unwrap();
    run_in(&mut db, &mut s, "", &|| Statement::RollbackTo { name: "p".into() }).unwrap();
    assert_eq!(numbers(&mut db, &mut s), vec![number(1), number(4)]);
    run_in(&mut db, &mut s, "COMMIT", &|| Statement::Commit).unwrap();
    assert_eq!(db.resource_counts().0, 0);
}

#[test]
fn abort_transaction_undoes_it() {
    let mut db = with_numbers(&[1]);
    let mut s = None;
    run_in(&mut db, &mut s, "BEGIN", &|| Statement::StartTransaction).unwrap();
    run_in(&mut db, &mut s, "", &|| insert("t", vec![vec![num(2)]])).unwrap();
    db.abort_transaction(s.unwrap());
    assert_eq!(numbers(&mut db, &mut None), vec![number(1)]);
}

#[test]
fn a_failed_insert_leaves_the_table_as_it_was() {
    let mut db = Database::new("data");
    run(&mut db, &|| {
        let mut a = def("a", DataType::Integer);
        a.check_expr = Some(bin(col("a"), BinaryOperator::Gt, num(0)));
        create("t", vec![a])
    })
    .unwrap();
    run(&mut db, &|| insert("t", vec![vec![num(1)]])).unwrap();
    assert!(run(&mut db, &|| insert("t", vec![vec![num(2)], vec![num(-2)]])).is_err());
    assert_eq!(numbers(&mut db, &mut None), vec![number(1)]);
}

#[test]
fn null_in_a_column_that_is_not_nullable_is_the_default_of_its_type() {
    let mut db = Database::new("data");
    run(&mut db, &|| {
        let mut a = def("a", DataType::Integer);
        a.nullable = false;
        create("t", vec![a])
    })
    .unwrap();
    run(&mut db, &|| insert("t", vec![vec![null()]])).unwrap();
    assert_eq!(numbers(&mut db, &mut None), vec![number(0)]);
}

#[test]
fn an_error_in_a_transaction_undoes_and_ends_it() {
    let mut db = with_numbers(&[1]);
    let mut s = None;
    run_in(&mut db, &mut s, "BEGIN", &|| Statement::StartTransaction).unwrap();
    run_in(&mut db, &mut s, "", &|| insert("t", vec![vec![num(2)]])).unwrap();
    assert!(run_in(&mut db, &mut s, "", &|| insert("nope", vec![vec![num(1)]])).is_err());
    assert!(s.is_none());
    assert_eq!(numbers(&mut db, &mut None), vec![number(1)]);
}

#[test]
fn no_transaction_begins_without_a_number() {
    let mut db = with_numbers(&[]);
    db.engine.txns.next = u64::MAX;
    let mut s = None;
    assert_eq!(
        run_in(&mut db, &mut s, "BEGIN", &|| Statement::StartTransaction).unwrap_err(),
        ForgeError::Transaction("no transaction number is left".into())
    );
    assert_eq!(
        run(&mut db, &|| insert("t", vec![vec![num(1)]])).unwrap_err(),
        ForgeError::Transaction("no transaction number is left".into())
    );
}

#[test]
fn sequences_start_and_step() {
    let mut db = Database::new("data");
    run(&mut db, &|| Statement::CreateSequence { name: "Seq".into(), start: 100, increment: 5 })
        .unwrap();
    assert_eq!(db.nextval("SEQ").unwrap(), 100);
    assert_eq!(db.nextval("seq").unwrap(), 105);
    assert_eq!(
        db.nextval("other").unwrap_err(),
        ForgeError::Execution("sequence 'other' not found".into())
    );
    db.execute_sql_session("DROP SEQUENCE Seq;").unwrap();
    assert!(db.nextval("seq").is_err());
    run(&mut db, &|| Statement::CreateSequence {
        name: "top".into(),
        start: i64::MAX,
        increment: 1,
    })
    .unwrap();
    assert_eq!(db.nextval("top").unwrap(), i64::MAX);
    assert_eq!(
        db.nextval("top").unwrap_err(),
        ForgeError::Execution("sequence out of range".into())
    );
}

#[test]
fn nextval_is_taken_in_a_query() {
    let mut db = with_numbers(&[0]);
    run(&mut db, &|| Statement::CreateSequence { name: "s".into(), start: 7, increment: 1 })
        .unwrap();
    let ask = || {
        select_from(
            vec![out(Expr::Function {
                name: "nextval".into(),
                args: vec![text("s")],
                distinct: false,
            })],
            from("t"),
            None,
            vec![],
        )
    };
    assert_eq!(run(&mut db, &ask).unwrap().rows, vec![number(7)]);
    assert_eq!(run(&mut db, &ask).unwrap().rows, vec![number(8)]);
}

#[test]
fn queries_inside_conditions_are_resolved() {
    let mut db = with_numbers(&[1, 2, 3]);
    run(&mut db, &|| create("u", vec![def("b", DataType::Integer)])).unwrap();
    run(&mut db, &|| insert("u", vec![vec![num(2)], vec![num(3)], vec![num(9)]])).unwrap();
    let members = |negated: bool| {
        select_from(
            star(),
            from("t"),
            Some(Expr::InSubquery {
                expr: Box::new(col("a")),
                subquery: Box::new(all("u")),
                negated,
            }),
            vec![],
        )
    };
    assert_eq!(run(&mut db, &|| members(false)).unwrap().rows, vec![number(2), number(3)]);
    assert_eq!(run(&mut db, &|| members(true)).unwrap().rows, vec![number(1)]);
    let exists = |negated: bool| {
        select_from(
            star(),
            from("t"),
            Some(Expr::Exists {
                subquery: Box::new(select_from(
                    star(),
                    from("u"),
                    Some(bin(col("b"), BinaryOperator::Gt, num(100))),
                    vec![],
                )),
                negated,
            }),
            vec![],
        )
    };
    assert_eq!(run(&mut db, &|| exists(false)).unwrap().rows.len(), 0);
    assert_eq!(run(&mut db, &|| exists(true)).unwrap().rows.len(), 3);
    let scalar = || {
        select_from(
            star(),
            from("t"),
            Some(bin(col("a"), BinaryOperator::Eq, Expr::Subquery(Box::new(all("u"))))),
            vec![],
        )
    };
    assert_eq!(run(&mut db, &scalar).unwrap().rows, vec![number(2)]);
}

#[test]
fn a_failing_query_in_an_output_column_is_null() {
    let mut db = with_numbers(&[1]);
    let ask = || {
        select_from(
            vec![out(Expr::Subquery(Box::new(all("nope"))))],
            from("t"),
            None,
            vec![],
        )
    };
    assert_eq!(run(&mut db, &ask).unwrap().rows, vec![vec![Value::Null]]);
}

#[test]
fn queries_in_from_and_with_are_tables() {
    let mut db = with_numbers(&[1, 2, 3]);
    let big = || {
        select_from(star(), from("t"), Some(bin(col("a"), BinaryOperator::Gt, num(1))), vec![])
    };
    let derived = || {
        select_from(
            star(),
            FromClause::Subquery { query: Box::new(big()), alias: "d".into() },
            None,
            vec![],
        )
    };
    assert_eq!(run(&mut db, &derived).unwrap().rows, vec![number(2), number(3)]);
    let with = || {
        select_from(
            star(),
            from("Big"),
            Some(bin(col("a"), BinaryOperator::Lt, num(3))),
            vec![Cte { name: "big".into(), query: Box::new(big()), recursive: false }],
        )
    };
    assert_eq!(run(&mut db, &with).unwrap().rows, vec![number(2)]);
}

#[test]
fn a_recursive_expression_runs_until_nothing_is_new() {
    let mut db = with_numbers(&[1]);
    let count = || {
        let next = select_from(
            vec![SelectColumn::Expr {
                expr: bin(col("a"), BinaryOperator::Add, num(1)),
                alias: Some("a".into()),
            }],
            from("n"),
            Some(bin(col("a"), BinaryOperator::Lt, num(5))),
            vec![],
        );
        select_from(
            star(),
            from("n"),
            None,
            vec![Cte {
                name: "n".into(),
                query: Box::new(Statement::Union {
                    left: Box::new(all("t")),
                    right: Box::new(next),
                    all: true,
                }),
                recursive: true,
            }],
        )
    };
    assert_eq!(
        run(&mut db, &count).unwrap().rows,
        vec![number(1), number(2), number(3), number(4), number(5)]
    );
}

#[test]
fn unions_keep_all_rows_or_each_once() {
    let mut db = with_numbers(&[1, 2, 2]);
    let union = |all_rows: bool| Statement::Union {
        left: Box::new(all("t")),
        right: Box::new(all("t")),
        all: all_rows,
    };
    assert_eq!(run(&mut db, &|| union(true)).unwrap().rows.len(), 6);
    assert_eq!(run(&mut db, &|| union(false)).unwrap().rows, vec![number(1), number(2)]);
}

#[test]
fn insert_select_copies_rows() {
    let mut db = with_numbers(&[1, 2]);
    run(&mut db, &|| create("u", vec![def("a", DataType::Integer)])).unwrap();
    let copy = || Statement::InsertSelect {
        table_name: "u".into(),
        columns: None,
        query: Box::new(all("t")),
    };
    assert_eq!(run(&mut db, &copy).unwrap().rows_affected, 2);
    assert_eq!(run(&mut db, &|| all("u")).unwrap().rows, vec![number(1), number(2)]);
    run(&mut db, &|| Statement::TruncateTable { table_name: "t".into() }).unwrap();
    let done = run(&mut db, &copy).unwrap();
    assert_eq!((done.rows_affected, done.message.as_str()), (0, "OK"));
}

#[test]
fn truncation_starts_numbering_anew() {
    let mut db = Database::new("data");
    run(&mut db, &|| {
        let mut id = def("id", DataType::Integer);
        id.auto_increment = true;
        create("t", vec![id, def("v", DataType::Integer)])
    })
    .unwrap();
    let add = || Statement::Insert {
        table_name: "t".into(),
        columns: Some(vec!["v".into()]),
        values: vec![vec![num(5)]],
        on_conflict: None,
    };
    assert_eq!(run(&mut db, &add).unwrap().last_insert_id, 1);
    assert_eq!(run(&mut db, &add).unwrap().last_insert_id, 2);
    let done = run(&mut db, &|| Statement::TruncateTable { table_name: "T".into() }).unwrap();
    assert_eq!((done.rows_affected, done.message.as_str()), (2, "OK"));
    assert_eq!(run(&mut db, &add).unwrap().last_insert_id, 1);
}

#[test]
fn show_and_describe() {
    let mut db = with_numbers(&[]);
    run(&mut db, &|| create("Accounts", vec![def("id", DataType::BigInt)])).unwrap();
    let tables = run(&mut db, &|| Statement::ShowTables).unwrap();
    assert_eq!(tables.columns, vec!["Tables_in_forgedb"]);
    assert_eq!(
        tables.rows,
        vec![vec![Value::Varchar("Accounts".into())], vec![Value::Varchar("t".into())]]
    );
    let shown = run(&mut db, &|| Statement::ShowColumns { table_name: "accounts".into() }).unwrap();
    let described =
        run(&mut db, &|| Statement::DescribeTable { table_name: "accounts".into() }).unwrap();
    assert_eq!(shown.rows, described.rows);
    assert_eq!(shown.columns, vec!["Field", "Type", "Null", "Key", "Default", "Extra"]);
    assert_eq!(
        shown.rows[0],
        vec![
            Value::Varchar("id".into()),
            Value::Varchar("BigInt".into()),
            Value::Varchar("YES".into()),
            Value::Varchar("".into()),
            Value::Null,
            Value::Varchar("".into()),
        ]
    );
    let made =
        run(&mut db, &|| Statement::ShowCreateTable { table_name: "accounts".into() }).unwrap();
    assert_eq!(
        made.rows[0][1],
        Value::Varchar("CREATE TABLE `Accounts` (\n  `id` BigInt NULL\n)".into())
    );
    assert_eq!(
        run(&mut db, &|| Statement::ShowColumns { table_name: "x".into() }).unwrap_err(),
        ForgeError::Execution("table 'x' not found".into())
    );
}

#[test]
fn explain_shows_the_steps() {
    let mut db = with_numbers(&[]);
    let shown = run(&mut db, &|| Statement::Explain { statement: Box::new(all("t")) }).unwrap();
    assert_eq!(shown.columns, vec!["Query Plan"]);
    assert_eq!(shown.rows.len(), 2);
    assert_eq!(
        run(&mut db, &|| Statement::Explain { statement: Box::new(Statement::Commit) })
            .unwrap_err(),
        ForgeError::Plan("statement has no plan".into())
    );
}

#[test]
fn analyze_counts_rows() {
    let mut db = with_numbers(&[4, 4, 9]);
    run(&mut db, &|| Statement::AnalyzeTable { table_name: "t".into() }).unwrap();
    let info = db.catalog_ref().get_table("t").unwrap();
    let stats = info.stats.as_ref().unwrap();
    assert_eq!((stats.row_count, stats.page_count), (3, 1));
    assert_eq!(info.column_stats[0].1.distinct_count, 2);
    assert_eq!(info.column_stats[0].1.min_value, Some(Value::Integer(4)));
    assert_eq!(info.column_stats[0].1.max_value, Some(Value::Integer(9)));
    assert!(run(&mut db, &|| Statement::AnalyzeTable { table_name: "x".into() }).is_err());
}

#[test]
fn alter_table_changes_columns() {
    let mut db = with_numbers(&[]);
    run(&mut db, &|| Statement::AlterTable {
        table_name: "t".into(),
        operations: vec![
            AlterTableOp::AddColumn(def("b", DataType::Integer)),
            AlterTableOp::RenameColumn { old_name: "A".into(), new_name: "z".into() },
        ],
    })
    .unwrap();
    let names: Vec<String> = db
        .catalog_ref()
        .get_table("t")
        .unwrap()
        .schema
        .columns
        .iter()
        .map(|c| c.name.clone())
        .collect();
    assert_eq!(names, vec!["z", "b"]);
    assert_eq!(
        run(&mut db, &|| Statement::AlterTable {
            table_name: "x".into(),
            operations: vec![AlterTableOp::DropColumn("a".into())],
        })
        .unwrap_err(),
        ForgeError::Catalog("table 'x' not found".into())
    );
}

#[test]
fn views_and_databases() {
    let mut db = with_numbers(&[]);
    let make = || Statement::CreateView {
        name: "v".into(),
        column_aliases: vec![],
        query: Box::new(all("t")),
    };
    run_in(&mut db, &mut None, "CREATE VIEW v AS SELECT * FROM t", &make).unwrap();
    assert!(db.catalog_ref().has_view("V"));
    assert_eq!(
        run(&mut db, &make).unwrap_err(),
        ForgeError::Catalog("view 'v' already exists".into())
    );
    let drop = |if_exists: bool| Statement::DropView { name: "v".into(), if_exists };
    run(&mut db, &|| drop(false)).unwrap();
    assert!(run(&mut db, &|| drop(false)).is_err());
    run(&mut db, &|| drop(true)).unwrap();
    run(&mut db, &|| Statement::CreateDatabase { name: "d".into() }).unwrap();
    run(&mut db, &|| Statement::UseDatabase { name: "d".into() }).unwrap();
    run(&mut db, &|| Statement::DropDatabase { name: "d".into() }).unwrap();
}

#[test]
fn constraints_are_kept() {
    let mut db = Database::new("data");
    run(&mut db, &|| {
        let mut id = def("id", DataType::Integer);
        id.is_primary_key = true;
        let mut v = def("v", DataType::Integer);
        v.check_expr = Some(bin(col("v"), BinaryOperator::Gt, num(0)));
        create("p", vec![id, v])
    })
    .unwrap();
    run(&mut db, &|| {
        let mut r = def("r", DataType::Integer);
        r.references = Some(FkReference {
            table: "p".into(),
            column: "id".into(),
            on_delete: FkAction::Restrict,
        });
        create("c", vec![r])
    })
    .unwrap();
    run(&mut db, &|| insert("p", vec![vec![num(1), num(5)]])).unwrap();
    assert!(run(&mut db, &|| insert("p", vec![vec![num(1), num(6)]])).is_err());
    assert!(run(&mut db, &|| insert("p", vec![vec![num(2), num(-6)]])).is_err());
    assert!(run(&mut db, &|| Statement::Update {
        table_name: "p".into(),
        assignments: vec![("v".into(), num(-1))],
        where_clause: None,
    })
    .is_err());
    run(&mut db, &|| insert("c", vec![vec![num(1)]])).unwrap();
    assert!(run(&mut db, &|| insert("c", vec![vec![num(8)]])).is_err());
    let refer = |to: i64| Statement::Update {
        table_name: "c".into(),
        assignments: vec![("r".into(), num(to))],
        where_clause: None,
    };
    assert_eq!(
        run(&mut db, &|| refer(8)).unwrap_err(),
        ForgeError::Execution(
            "foreign key constraint violated: value '8' not found in p.id".into()
        )
    );
    run(&mut db, &|| refer(1)).unwrap();
    assert!(run(&mut db, &|| Statement::Delete { table_name: "p".into(), where_clause: None })
        .is_err());
    assert_eq!(run(&mut db, &|| all("p")).unwrap().rows.len(), 1);
}

#[test]
fn on_conflict_skips_the_row() {
    let mut db = Database::new("data");
    run(&mut db, &|| {
        let mut id = def("id", DataType::Integer);
        id.is_primary_key = true;
        create("p", vec![id])
    })
    .unwrap();
    run(&mut db, &|| insert("p", vec![vec![num(1)]])).unwrap();
    let done = run(&mut db, &|| Statement::Insert {
        table_name: "p".into(),
        columns: None,
        values: vec![vec![num(1)], vec![num(2)]],
        on_conflict: Some(OnConflict { action: OnConflictAction::DoNothing }),
    })
    .unwrap();
    assert_eq!(done.rows_affected, 1);
    assert_eq!(run(&mut db, &|| all("p")).unwrap().rows.len(), 2);
}

#[test]
fn queries_group_sort_and_limit() {
    let mut db = with_numbers(&[3, 1, 2, 3]);
    let ask = || Statement::Select {
        distinct: true,
        columns: star(),
        from: from("t"),
        where_clause: None,
        group_by: vec![],
        having: None,
        order_by: vec![OrderByItem { expr: col("a"), ascending: false }],
        limit: Some(2),
        offset: Some(1),
        ctes: vec![],
    };
    assert_eq!(run(&mut db, &ask).unwrap().rows, vec![number(2), number(1)]);
    let count = || {
        let call = Expr::Function { name: "COUNT".into(), args: vec![col("a")], distinct: false };
        Statement::Select {
            distinct: false,
            columns: vec![out(col("a")), out(call)],
            from: from("t"),
            where_clause: None,
            group_by: vec![col("a")],
            having: None,
            order_by: vec![],
            limit: None,
            offset: None,
            ctes: vec![],
        }
    };
    assert_eq!(
        run(&mut db, &count).unwrap().rows,
        vec![
            vec![Value::Integer(3), Value::BigInt(2)],
            vec![Value::Integer(1), Value::BigInt(1)],
            vec![Value::Integer(2), Value::BigInt(1)],
        ]
    );
}

#[test]
fn tables_join() {
    let mut db = with_numbers(&[1, 2, 3]);
    run(&mut db, &|| {
        create("u", vec![def("k", DataType::Integer), def("w", DataType::Varchar(9))])
    })
    .unwrap();
    run(&mut db, &|| insert("u", vec![vec![num(2), text("two")], vec![num(4), text("four")]]))
        .unwrap();
    let join = |join_type: JoinType| {
        select_from(
            star(),
            FromClause::Join {
                left: Box::new(from("t")),
                right: Box::new(from("u")),
                join_type,
                on: Some(bin(col("a"), BinaryOperator::Eq, col("k"))),
            },
            None,
            vec![],
        )
    };
    let inner = run(&mut db, &|| join(JoinType::Inner)).unwrap().rows;
    assert_eq!(
        inner,
        vec![vec![Value::Integer(2), Value::Integer(2), Value::Varchar("two".into())]]
    );
    assert_eq!(run(&mut db, &|| join(JoinType::Left)).unwrap().rows.len(), 3);
    assert_eq!(run(&mut db, &|| join(JoinType::Right)).unwrap().rows.len(), 2);
    assert_eq!(run(&mut db, &|| join(JoinType::Full)).unwrap().rows.len(), 4);
}

#[test]
fn averages_ask_the_host() {
    let mut db = with_numbers(&[1, 2]);
    let ask = || {
        select_from(
            vec![out(Expr::Function {
                name: "AVG".into(),
                args: vec![col("a")],
                distinct: false,
            })],
            from("t"),
            None,
            vec![],
        )
    };
    assert_eq!(run(&mut db, &ask).unwrap().rows, vec![vec![Value::Float(1.5f64.to_bits())]]);
}

#[test]
fn plans_are_remembered_until_the_schema_changes() {
    let mut db = with_numbers(&[1]);
    run_in(&mut db, &mut None, " SELECT * FROM t ", &|| all("t")).unwrap();
    run_in(&mut db, &mut None, "SELECT * FROM t", &|| all("t")).unwrap();
    assert_eq!(db.resource_counts().2, 1);
    run(&mut db, &|| create("u", vec![def("b", DataType::Integer)])).unwrap();
    assert_eq!(db.resource_counts().2, 0);
}

#[test]
fn plans_are_forgotten_when_a_table_is_altered() {
    let mut db = with_numbers(&[1]);
    run_in(&mut db, &mut None, "SELECT * FROM t", &|| all("t")).unwrap();
    assert_eq!(db.resource_counts().2, 1);
    run(&mut db, &|| Statement::AlterTable {
        table_name: "t".into(),
        operations: vec![AlterTableOp::AddColumn(def("b", DataType::Integer))],
    })
    .unwrap();
    assert_eq!(db.resource_counts().2, 0);
}

#[test]
fn a_limit_of_zero_reads_nothing() {
    let mut db = with_numbers(&[1, 2, 3]);
    {
        let pool = db.cbpm_ref();
        let cat = db.catalog_ref();
        assert!(execute_seq_scan_limit("t", pool, cat, Some(0)).unwrap().1.is_empty());
        assert_eq!(execute_seq_scan_limit("t", pool, cat, Some(2)).unwrap().1.len(), 2);
    }
    let limited = |n: usize| {
        move || Statement::Select {
            distinct: false,
            columns: star(),
            from: from("t"),
            where_clause: Some(bin(col("a"), BinaryOperator::Gt, num(1))),
            group_by: vec![],
            having: None,
            order_by: vec![],
            limit: Some(n),
            offset: None,
            ctes: vec![],
        }
    };
    assert!(run(&mut db, &limited(0)).unwrap().rows.is_empty());
    assert_eq!(run(&mut db, &limited(1)).unwrap().rows, vec![number(2)]);
    assert_eq!(run(&mut db, &limited(9)).unwrap().rows, vec![number(2), number(3)]);
}

#[test]
fn an_index_scan_finds_every_row_with_the_value() {
    let mut db = with_numbers(&[5, 6, 5]);
    run(&mut db, &|| Statement::CreateIndex {
        index_name: "i".into(),
        table_name: "t".into(),
        columns: vec!["a".into()],
        unique: false,
    })
    .unwrap();
    let fives = || {
        select_from(
            star(),
            from("t"),
            Some(bin(col("a"), BinaryOperator::Eq, num(5))),
            vec![],
        )
    };
    assert_eq!(run(&mut db, &fives).unwrap().rows, vec![number(5), number(5)]);
    let host = Host::new(0, 0);
    let found = execute_index_scan(
        "t",
        "a",
        &num(5),
        db.cbpm_ref(),
        db.catalog_ref(),
        db.indexes_ref(),
        None,
        &host,
    )
    .unwrap()
    .1;
    assert_eq!(found.len(), 2);
    let only = execute_index_only_scan(
        "t",
        "a",
        &num(5),
        db.cbpm_ref(),
        db.catalog_ref(),
        db.indexes_ref(),
        None,
        &host,
    )
    .unwrap()
    .1;
    assert_eq!(only.len(), 2);
}

fn done(action: Action) -> ExecuteResult {
    match action {
        Action::Done(r) => r,
        other => panic!("{:?}", other),
    }
}

#[test]
fn procedures_run_their_statements() {
    let mut db = Database::new("data");
    done(
        db.execute_sql_session(
            "CREATE PROCEDURE Fill AS BEGIN INSERT INTO t VALUES (1); SELECT * FROM t END",
        )
        .unwrap(),
    );
    match db.execute_sql_session("EXEC fill;").unwrap() {
        Action::Run(list) => {
            assert_eq!(list, vec!["INSERT INTO t VALUES (1)", "SELECT * FROM t"])
        }
        other => panic!("{:?}", other),
    }
    db.execute_sql_session("DROP PROCEDURE Fill").unwrap();
    assert_eq!(
        db.execute_sql_session("EXEC Fill").unwrap_err(),
        ForgeError::Execution("procedure 'fill' not found".into())
    );
    assert_eq!(
        db.execute_sql_session("CREATE PROCEDURE p SELECT 1").unwrap_err(),
        ForgeError::Parse("CREATE PROCEDURE: missing AS or BEGIN".into())
    );
}

#[test]
fn prepared_statements_run() {
    let mut db = Database::new("data");
    db.execute_sql_session("PREPARE q AS SELECT 1").unwrap();
    match db.execute_sql_session("EXECUTE Q").unwrap() {
        Action::Run(list) => assert_eq!(list, vec!["SELECT 1"]),
        other => panic!("{:?}", other),
    }
    assert_eq!(
        db.execute_sql_session("PREPARE q").unwrap_err(),
        ForgeError::Parse("PREPARE: missing AS or FROM".into())
    );
}

#[test]
fn triggers_fire_after_their_event() {
    let mut db = with_numbers(&[1]);
    db.execute_sql_session(
        "CREATE TRIGGER tr ON T AFTER INSERT AS BEGIN INSERT INTO log VALUES (1) END",
    )
    .unwrap();
    let (_, after) = run_in(&mut db, &mut None, "insert into t values (2)", &|| {
        insert("t", vec![vec![num(2)]])
    })
    .unwrap();
    assert_eq!(after, vec!["INSERT INTO log VALUES (1)"]);
    let (_, after) = run_in(&mut db, &mut None, "DELETE FROM t", &|| Statement::Delete {
        table_name: "t".into(),
        where_clause: None,
    })
    .unwrap();
    assert!(after.is_empty());
    db.execute_sql_session("DROP TRIGGER TR").unwrap();
    assert!(db.fire_triggers_if_needed("INSERT INTO t VALUES (2)").is_empty());
    assert_eq!(
        db.execute_sql_session("CREATE TRIGGER x AFTER INSERT").unwrap_err(),
        ForgeError::Parse("CREATE TRIGGER: missing ON clause".into())
    );
}

#[test]
fn privileges_are_granted_and_revoked() {
    let mut db = Database::new("data");
    db.execute_sql_session("CREATE USER Ann WITH PASSWORD 'SECRET-REDACTED'").unwrap();
    assert!(!db.check_privilege("ann", "SELECT", Some("T")));
    db.execute_sql_session("GRANT select ON t TO ann").unwrap();
    assert!(db.check_privilege("ANN", "select", Some("T")));
    assert!(!db.check_privilege("ann", "INSERT", Some("T")));
    db.execute_sql_session("REVOKE select ON t FROM ann").unwrap();
    assert!(!db.check_privilege("ann", "SELECT", Some("T")));
    db.execute_sql_session("GRANT ALL ON * TO bob").unwrap();
    assert!(db.check_privilege("bob", "DELETE", None));
    assert!(db.check_privilege("bob", "DELETE", Some("anything")));
    db.execute_sql_session("DROP USER bob").unwrap();
    assert!(!db.check_privilege("bob", "DELETE", None));
    assert_eq!(
        db.execute_sql_session("GRANT select ON t").unwrap_err(),
        ForgeError::Parse("GRANT: missing TO clause".into())
    );
    assert_eq!(
        db.execute_sql_session("REVOKE select ON t").unwrap_err(),
        ForgeError::Parse("REVOKE: missing FROM clause".into())
    );
}

#[test]
fn cursors_walk_over_rows() {
    let mut db = with_numbers(&[1, 2]);
    db.execute_sql_session("DECLARE c CURSOR FOR SELECT * FROM t").unwrap();
    let (name, sql) = match db.execute_sql_session("OPEN c;").unwrap() {
        Action::Open { name, sql } => (name, sql),
        other => panic!("{:?}", other),
    };
    assert_eq!(sql, "SELECT * FROM t");
    let found = run(&mut db, &|| all("t")).unwrap();
    db.open_cursor(&name, found);
    let fetch = |db: &mut Database| done(db.execute_sql_session("FETCH NEXT FROM C").unwrap());
    let first = fetch(&mut db);
    assert_eq!((first.rows, first.columns), (vec![number(1)], vec!["a".to_string()]));
    assert_eq!(fetch(&mut db).rows, vec![number(2)]);
    let last = fetch(&mut db);
    assert_eq!((last.rows.len(), last.message.as_str()), (0, "DONE"));
    db.execute_sql_session("CLOSE c").unwrap();
    db.execute_sql_session("DEALLOCATE c").unwrap();
    assert_eq!(
        db.execute_sql_session("FETCH NEXT FROM c").unwrap_err(),
        ForgeError::Execution("cursor 'c' not found".into())
    );
    assert_eq!(
        db.execute_sql_session("OPEN c").unwrap_err(),
        ForgeError::Execution("cursor 'c' not found or not declared".into())
    );
}

#[test]
fn settings_are_kept() {
    let mut db = Database::new("data");
    assert_eq!(db.lock_timeout, 30_000);
    db.execute_sql_session("SET LOCK_TIMEOUT 250;").unwrap();
    assert_eq!(db.lock_timeout, 250);
    db.set_lock_timeout(10);
    assert_eq!(db.lock_timeout, 10);
    assert_eq!(db.get_max_memory_per_query(), 0);
    db.execute_sql("SET MAX_MEMORY 4096").unwrap();
    assert_eq!(db.get_max_memory_per_query(), 4096);
    db.execute_sql_session("SET TRANSACTION ISOLATION LEVEL SERIALIZABLE").unwrap();
}

#[test]
fn backups_name_their_path() {
    let mut db = Database::new("data");
    match db.execute_sql_session("BACKUP DATABASE TO DISK = '/tmp/b'").unwrap() {
        Action::Backup(p) => assert_eq!(p, "/tmp/b"),
        other => panic!("{:?}", other),
    }
    match db.execute_sql_session("RESTORE DATABASE FROM '/tmp/b'").unwrap() {
        Action::Restore(p) => assert_eq!(p, "/tmp/b"),
        other => panic!("{:?}", other),
    }
    assert_eq!(
        db.execute_sql_session("BACKUP DATABASE").unwrap_err(),
        ForgeError::Parse("BACKUP: missing TO clause".into())
    );
}

#[test]
fn partitions_take_the_place_of_their_table() {
    let mut db = Database::new("data");
    let action = db
        .execute_sql_session(
            "CREATE TABLE Sales (id INT, v INT) PARTITION BY RANGE (id) \
             (PARTITION p0 VALUES LESS THAN (100), PARTITION p1 VALUES LESS THAN (MAXVALUE))",
        )
        .unwrap();
    match action {
        Action::Partition { table, meta, statements } => {
            assert_eq!(table, "sales");
            assert_eq!(
                statements,
                vec![
                    "CREATE TABLE IF NOT EXISTS sales__p_p0 (id INT, v INT)",
                    "CREATE TABLE IF NOT EXISTS sales__p_p1 (id INT, v INT)",
                ]
            );
            db.add_partitions(table, meta);
        }
        other => panic!("{:?}", other),
    }
    for table in ["sales__p_p0", "sales__p_p1"] {
        run(&mut db, &|| {
            create(table, vec![def("id", DataType::Integer), def("v", DataType::Integer)])
        })
        .unwrap();
    }
    match db.execute_sql_session("INSERT INTO sales (id, v) VALUES (250, 1)").unwrap() {
        Action::Parse(sql) => assert_eq!(sql, "INSERT INTO sales__p_p1 (id, v) VALUES (250, 1)"),
        other => panic!("{:?}", other),
    }
    match db.execute_sql_session("SELECT * FROM sales WHERE id = 1").unwrap() {
        Action::Parse(sql) => assert_eq!(
            sql,
            "SELECT * FROM (SELECT * FROM sales__p_p0 UNION ALL SELECT * FROM sales__p_p1) \
             AS sales WHERE id = 1"
        ),
        other => panic!("{:?}", other),
    }
    assert_eq!(
        db.execute_sql_session("CREATE TABLE x (id INT) PARTITION BY RANGE (id) ()").unwrap_err(),
        ForgeError::Parse("no partitions defined".into())
    );
}

#[test]
fn temporary_tables_belong_to_a_connection() {
    assert_eq!(Database::resolve_temp_table_name("#x", 5), "#tmp_5_x");
    assert_eq!(Database::resolve_temp_table_name("##x", 5), "##x");
    assert_eq!(Database::resolve_temp_table_name("x", 5), "x");
    let mut db = with_numbers(&[]);
    for conn in [5, 55] {
        let name = Database::resolve_temp_table_name("#x", conn);
        run(&mut db, &|| create(&name, vec![def("a", DataType::Integer)])).unwrap();
    }
    db.cleanup_temp_tables(5, &Host::new(0, 0));
    assert!(db.catalog_ref().get_table("#tmp_5_x").is_none());
    assert!(db.catalog_ref().get_table("#tmp_55_x").is_some());
    assert!(db.catalog_ref().get_table("t").is_some());
}

#[test]
fn a_broken_page_chain_is_an_error() {
    let mut db = with_numbers(&[1]);
    db.engine.ctx.dml.bpm.pages[0].next_page = 77;
    assert!(matches!(run(&mut db, &|| all("t")), Err(ForgeError::Page(_))));
}

#[test]
fn a_statement_that_needs_resolving_has_no_plan_alone() {
    let mut db = with_numbers(&[1]);
    let ask = || Statement::Explain {
        statement: Box::new(select_from(
            star(),
            FromClause::Subquery { query: Box::new(all("t")), alias: "d".into() },
            None,
            vec![],
        )),
    };
    assert_eq!(
        run(&mut db, &ask).unwrap_err(),
        ForgeError::Plan("query in a FROM clause is not resolved".into())
    );
}

/// A table `k` with a primary key `id` and a number `v`, with the given rows.
fn keyed(rows: &[(i64, i64)]) -> Database {
    let mut db = Database::new("data");
    run(&mut db, &|| {
        let mut id = def("id", DataType::Integer);
        id.is_primary_key = true;
        create("k", vec![id, def("v", DataType::Integer)])
    })
    .unwrap();
    for (id, v) in rows {
        run(&mut db, &|| insert("k", vec![vec![num(*id), num(*v)]])).unwrap();
    }
    db
}

fn pairs(db: &mut Database, session: &mut Option<TxnId>) -> Vec<(i32, i32)> {
    run_in(db, session, "", &|| all("k"))
        .unwrap()
        .0
        .rows
        .iter()
        .map(|r| match (&r[0], &r[1]) {
            (Value::Integer(a), Value::Integer(b)) => (*a, *b),
            _ => panic!("not a pair of numbers"),
        })
        .collect()
}

fn set_value(id: i64, column: &str, v: i64) -> Statement {
    Statement::Update {
        table_name: "k".into(),
        assignments: vec![(column.into(), num(v))],
        where_clause: Some(bin(col("id"), BinaryOperator::Eq, num(id))),
    }
}

fn remove(table: &str, id: i64) -> Statement {
    Statement::Delete {
        table_name: table.into(),
        where_clause: Some(bin(col("id"), BinaryOperator::Eq, num(id))),
    }
}

#[test]
fn rows_with_a_primary_key_are_read_in_its_order() {
    let mut db = keyed(&[(3, 30), (1, 10), (2, 20)]);
    assert_eq!(pairs(&mut db, &mut None), vec![(1, 10), (2, 20), (3, 30)]);
    run(&mut db, &|| set_value(2, "v", 25)).unwrap();
    run(&mut db, &|| set_value(1, "id", 7)).unwrap();
    assert_eq!(pairs(&mut db, &mut None), vec![(2, 25), (3, 30), (7, 10)]);
    assert_eq!(run(&mut db, &|| remove("k", 3)).unwrap().rows_affected, 1);
    assert_eq!(pairs(&mut db, &mut None), vec![(2, 25), (7, 10)]);
    let first = run(&mut db, &|| Statement::Select {
        distinct: false,
        columns: star(),
        from: from("k"),
        where_clause: Some(bin(col("v"), BinaryOperator::Gt, num(5))),
        group_by: vec![],
        having: None,
        order_by: vec![],
        limit: Some(1),
        offset: None,
        ctes: vec![],
    })
    .unwrap();
    assert_eq!(first.rows, vec![vec![Value::Integer(2), Value::Integer(25)]]);
}

#[test]
fn rollback_restores_rows_and_keys() {
    let mut db = keyed(&[(1, 10), (2, 20)]);
    let mut s = None;
    run_in(&mut db, &mut s, "BEGIN", &|| Statement::StartTransaction).unwrap();
    run_in(&mut db, &mut s, "", &|| insert("k", vec![vec![num(3), num(30)]])).unwrap();
    run_in(&mut db, &mut s, "", &|| set_value(1, "id", 5)).unwrap();
    run_in(&mut db, &mut s, "", &|| remove("k", 2)).unwrap();
    assert_eq!(pairs(&mut db, &mut s), vec![(3, 30), (5, 10)]);
    run_in(&mut db, &mut s, "ROLLBACK", &|| Statement::Rollback).unwrap();
    assert_eq!(pairs(&mut db, &mut None), vec![(1, 10), (2, 20)]);
    for id in [1, 2] {
        assert!(run(&mut db, &|| insert("k", vec![vec![num(id), num(0)]])).is_err());
    }
    for id in [3, 5] {
        run(&mut db, &|| insert("k", vec![vec![num(id), num(0)]])).unwrap();
    }
    assert_eq!(pairs(&mut db, &mut None), vec![(1, 10), (2, 20), (3, 0), (5, 0)]);
}

#[test]
fn a_failed_change_leaves_keys_as_they_were() {
    let mut db = keyed(&[(1, 10), (2, 20)]);
    assert!(run(&mut db, &|| {
        insert("k", vec![vec![num(3), num(0)], vec![num(1), num(0)]])
    })
    .is_err());
    run(&mut db, &|| insert("k", vec![vec![num(3), num(30)]])).unwrap();
    assert_eq!(pairs(&mut db, &mut None), vec![(1, 10), (2, 20), (3, 30)]);
}

#[test]
fn an_update_keeps_keys_unique() {
    let mut db = keyed(&[(1, 10), (2, 20)]);
    let e = run(&mut db, &|| set_value(1, "id", 2)).unwrap_err();
    assert_eq!(e.message(), "Execution error: duplicate entry '2' for key 'id'");
    run(&mut db, &|| set_value(1, "id", 1)).unwrap();
    assert_eq!(pairs(&mut db, &mut None), vec![(1, 10), (2, 20)]);
}

#[test]
fn rows_with_a_key_are_seen_once_they_are_committed() {
    let mut db = keyed(&[(1, 10)]);
    let (mut a, mut b) = (None, None);
    run_in(&mut db, &mut a, "BEGIN", &|| Statement::StartTransaction).unwrap();
    run_in(&mut db, &mut b, "BEGIN", &|| Statement::StartTransaction).unwrap();
    run_in(&mut db, &mut a, "", &|| insert("k", vec![vec![num(0), num(5)]])).unwrap();
    assert_eq!(pairs(&mut db, &mut b), vec![(1, 10)]);
    run_in(&mut db, &mut a, "COMMIT", &|| Statement::Commit).unwrap();
    assert_eq!(pairs(&mut db, &mut b), vec![(0, 5), (1, 10)]);
}

/// Two tables `p` and `c`, where `c.r` refers to `p.id`.
fn referring(on_delete: fn() -> FkAction) -> Database {
    let mut db = Database::new("data");
    run(&mut db, &|| {
        let mut id = def("id", DataType::Integer);
        id.is_primary_key = true;
        create("p", vec![id])
    })
    .unwrap();
    run(&mut db, &|| {
        let mut id = def("id", DataType::Integer);
        id.is_primary_key = true;
        let mut r = def("r", DataType::Integer);
        r.references = Some(FkReference {
            table: "p".into(),
            column: "id".into(),
            on_delete: on_delete(),
        });
        create("c", vec![id, r])
    })
    .unwrap();
    run(&mut db, &|| insert("p", vec![vec![num(1)], vec![num(2)]])).unwrap();
    run(&mut db, &|| {
        insert("c", vec![vec![num(10), num(1)], vec![num(11), num(2)], vec![num(12), num(1)]])
    })
    .unwrap();
    db
}

#[test]
fn a_deletion_takes_the_referring_rows_along() {
    let mut db = referring(|| FkAction::Cascade);
    let mut s = None;
    run_in(&mut db, &mut s, "BEGIN", &|| Statement::StartTransaction).unwrap();
    run_in(&mut db, &mut s, "", &|| remove("p", 1)).unwrap();
    let one = vec![vec![Value::Integer(11), Value::Integer(2)]];
    assert_eq!(run_in(&mut db, &mut s, "", &|| all("c")).unwrap().0.rows, one);
    run_in(&mut db, &mut s, "ROLLBACK", &|| Statement::Rollback).unwrap();
    assert_eq!(run(&mut db, &|| all("c")).unwrap().rows.len(), 3);
    run(&mut db, &|| remove("p", 1)).unwrap();
    assert_eq!(run(&mut db, &|| all("c")).unwrap().rows, one);
    run(&mut db, &|| insert("c", vec![vec![num(10), num(2)]])).unwrap();
    assert_eq!(run(&mut db, &|| all("c")).unwrap().rows.len(), 2);
}

/// A table with a key `id` and a column `r` that refers to the key of a table.
fn refer_to(db: &mut Database, name: &str, to: &str, on_delete: fn() -> FkAction) {
    run(db, &|| {
        let mut id = def("id", DataType::Integer);
        id.is_primary_key = true;
        let mut r = def("r", DataType::Integer);
        r.references =
            Some(FkReference { table: to.into(), column: "id".into(), on_delete: on_delete() });
        create(name, vec![id, r])
    })
    .unwrap();
}

#[test]
fn a_deletion_follows_references_to_any_depth() {
    let mut db = referring(|| FkAction::Cascade);
    refer_to(&mut db, "g", "c", || FkAction::Cascade);
    refer_to(&mut db, "h", "g", || FkAction::Cascade);
    run(&mut db, &|| insert("g", vec![vec![num(20), num(10)], vec![num(21), num(11)]])).unwrap();
    run(&mut db, &|| insert("h", vec![vec![num(30), num(20)], vec![num(31), num(21)]])).unwrap();
    run(&mut db, &|| remove("p", 1)).unwrap();
    let pair = |a: i32, b: i32| vec![vec![Value::Integer(a), Value::Integer(b)]];
    assert_eq!(run(&mut db, &|| all("c")).unwrap().rows, pair(11, 2));
    assert_eq!(run(&mut db, &|| all("g")).unwrap().rows, pair(21, 11));
    assert_eq!(run(&mut db, &|| all("h")).unwrap().rows, pair(31, 21));
}

#[test]
fn a_deletion_is_refused_further_down() {
    let mut db = referring(|| FkAction::Cascade);
    refer_to(&mut db, "g", "c", || FkAction::Restrict);
    run(&mut db, &|| insert("g", vec![vec![num(20), num(10)]])).unwrap();
    assert_eq!(
        run(&mut db, &|| remove("p", 1)).unwrap_err(),
        ForgeError::Execution(
            "foreign key constraint violated: cannot delete row, referenced by g.r".into()
        )
    );
    assert_eq!(run(&mut db, &|| all("p")).unwrap().rows.len(), 2);
    assert_eq!(run(&mut db, &|| all("c")).unwrap().rows.len(), 3);
}

#[test]
fn rows_that_refer_in_a_circle_are_deleted() {
    let mut db = Database::new("data");
    refer_to(&mut db, "t", "t", || FkAction::Cascade);
    let link = |id: i64, to: i64| Statement::Update {
        table_name: "t".into(),
        assignments: vec![("r".into(), num(to))],
        where_clause: Some(bin(col("id"), BinaryOperator::Eq, num(id))),
    };
    let null = || Expr::Literal(LiteralValue::Null);
    run(&mut db, &|| {
        insert("t", vec![vec![num(1), null()], vec![num(2), null()], vec![num(3), null()]])
    })
    .unwrap();
    run(&mut db, &|| link(1, 2)).unwrap();
    run(&mut db, &|| link(2, 1)).unwrap();
    run(&mut db, &|| link(3, 3)).unwrap();
    run(&mut db, &|| remove("t", 1)).unwrap();
    assert_eq!(run(&mut db, &|| all("t")).unwrap().rows.len(), 1);
    run(&mut db, &|| remove("t", 3)).unwrap();
    assert_eq!(run(&mut db, &|| all("t")).unwrap().rows.len(), 0);
}

#[test]
fn a_deletion_puts_null_in_the_referring_rows() {
    let mut db = referring(|| FkAction::SetNull);
    let mut s = None;
    run_in(&mut db, &mut s, "BEGIN", &|| Statement::StartTransaction).unwrap();
    run_in(&mut db, &mut s, "", &|| remove("p", 1)).unwrap();
    assert_eq!(
        run_in(&mut db, &mut s, "", &|| all("c")).unwrap().0.rows,
        vec![
            vec![Value::Integer(10), Value::Null],
            vec![Value::Integer(11), Value::Integer(2)],
            vec![Value::Integer(12), Value::Null],
        ]
    );
    run_in(&mut db, &mut s, "ROLLBACK", &|| Statement::Rollback).unwrap();
    assert_eq!(run(&mut db, &|| all("c")).unwrap().rows[0][1], Value::Integer(1));
}

#[test]
fn an_index_on_a_table_with_rows_finds_them() {
    let mut db = with_numbers(&[5, 6, 7]);
    let made = run(&mut db, &|| Statement::CreateIndex {
        index_name: "i".into(),
        table_name: "t".into(),
        columns: vec!["a".into()],
        unique: false,
    })
    .unwrap();
    assert_eq!(made.message, "Index 'i' created on t(a) (3 entries)");
    assert_eq!(made.rows_affected, 3);
    let found = run(&mut db, &|| {
        select_from(
            star(),
            from("t"),
            Some(bin(col("a"), BinaryOperator::Eq, num(6))),
            vec![],
        )
    })
    .unwrap();
    assert_eq!(found.rows, vec![number(6)]);
    let host = Host::new(0, 0);
    let look = |n: i64| {
        execute_index_scan(
            "t",
            "a",
            &num(n),
            db.cbpm_ref(),
            db.catalog_ref(),
            db.indexes_ref(),
            None,
            &host,
        )
        .unwrap()
        .1
        .into_iter()
        .map(|r| r.1)
        .collect::<Vec<_>>()
    };
    assert_eq!(look(7), vec![number(7)]);
    assert!(look(8).is_empty());
    let only = execute_index_only_scan(
        "t",
        "a",
        &num(5),
        db.cbpm_ref(),
        db.catalog_ref(),
        db.indexes_ref(),
        None,
        &host,
    )
    .unwrap();
    assert_eq!(only.1[0].1, number(5));
}

#[test]
fn joins_in_a_transaction_do_not_see_the_rows_of_another() {
    let mut db = to_join();
    let (mut a, mut b) = (None, None);
    run_in(&mut db, &mut a, "BEGIN", &|| Statement::StartTransaction).unwrap();
    run_in(&mut db, &mut b, "BEGIN", &|| Statement::StartTransaction).unwrap();
    run_in(&mut db, &mut a, "", &|| insert("r", vec![vec![num(2), text("y")]])).unwrap();
    let joined = || {
        select_from(
            star(),
            FromClause::Join {
                left: Box::new(from("l")),
                right: Box::new(from("r")),
                join_type: JoinType::Inner,
                on: Some(by_a()),
            },
            None,
            vec![],
        )
    };
    assert_eq!(run_in(&mut db, &mut a, "", &joined).unwrap().0.rows.len(), 2);
    assert_eq!(run_in(&mut db, &mut b, "", &joined).unwrap().0.rows.len(), 1);
}

#[test]
fn upper_and_lower_know_more_than_ascii() {
    let mut db = Database::new("data");
    let call = |name: &str, s: &str| {
        out(Expr::Function { name: name.into(), args: vec![text(s)], distinct: false })
    };
    let found = run(&mut db, &|| {
        select_from(
            vec![call("UPPER", "straße"), call("LOWER", "ÄRGER")],
            from("__dual__"),
            None,
            vec![],
        )
    })
    .unwrap();
    assert_eq!(
        found.rows,
        vec![vec![Value::Varchar("STRASSE".into()), Value::Varchar("ärger".into())]]
    );
}

#[test]
fn errors_have_messages() {
    assert_eq!(ForgeError::Execution("x".into()).message(), "Execution error: x");
    assert_eq!(ForgeError::Parse("x".into()).message(), "Parse error: x");
    assert_eq!(ForgeError::Transaction("x".into()).message(), "Transaction error: x");
}

#[test]
fn an_aggregate_without_a_name_spells_its_column_out() {
    let mut db = with_numbers(&[1, 2]);
    let sum = || Expr::Function { name: "SUM".into(), args: vec![col("a")], distinct: false };
    let found =
        run(&mut db, &|| select_from(vec![out(sum())], from("t"), None, vec![])).unwrap();
    assert_eq!(found.columns, vec!["SUM(ColumnRef { table: None, column: \"a\" })"]);
    assert_eq!(found.rows, vec![number(3)]);
}

/// Tables `l(a, b)` and `r(a, c)` to be joined by `a`.
fn to_join() -> Database {
    let mut db = Database::new("data");
    run(&mut db, &|| {
        create("l", vec![def("a", DataType::Integer), def("b", DataType::Integer)])
    })
    .unwrap();
    run(&mut db, &|| {
        create("r", vec![def("a", DataType::Integer), def("c", DataType::Varchar(5))])
    })
    .unwrap();
    run(&mut db, &|| insert("l", vec![vec![num(1), num(7)], vec![num(2), num(8)]])).unwrap();
    run(&mut db, &|| insert("r", vec![vec![num(1), text("x")]])).unwrap();
    db
}

fn by_a() -> Expr {
    let of = |t: &str| Expr::ColumnRef { table: Some(t.into()), column: "a".into() };
    bin(of("l"), BinaryOperator::Eq, of("r"))
}

/// A message: its kind, the length of what it holds, and what it holds.
fn message(kind: u8, payload: &[u8]) -> Vec<u8> {
    let mut m = vec![kind];
    m.extend((payload.len() as u32).to_le_bytes());
    m.extend(payload);
    m
}

#[test]
fn joined_rows_are_sent_as_messages() {
    let db = to_join();
    let on = by_a();
    let sent = try_arena_join("l", None, "r", None, &on, db.catalog_ref(), db.cbpm_ref()).unwrap();
    let mut want = message(
        0x10,
        &[4, 0, 1, 0, b'a', 1, 1, 0, b'b', 1, 1, 0, b'a', 1, 1, 0, b'c', 5],
    );
    let row = [1, 1, 0, 0, 0, 1, 7, 0, 0, 0, 1, 1, 0, 0, 0, 5, 1, 0, 0, 0, b'x'];
    want.extend(message(0x11, &row));
    want.extend(message(0x12, &1u64.to_le_bytes()));
    assert_eq!(sent, want);
    let columns = try_columnar_inner_join(
        "l",
        None,
        "r",
        None,
        &on,
        db.catalog_ref(),
        db.cbpm_ref(),
        None,
    )
    .unwrap();
    assert_eq!(columnar_to_forgewire(&columns), want);
    let answer = columnar_to_execute_result(columns);
    assert_eq!(
        answer.rows,
        vec![vec![
            Value::Integer(1),
            Value::Integer(7),
            Value::Integer(1),
            Value::Varchar("x".into()),
        ]]
    );
}

#[test]
fn a_left_join_sends_rows_without_a_match_too() {
    let db = to_join();
    let on = by_a();
    let wanted = vec!["b".to_string(), "c".to_string()];
    let sent = try_arena_left_join_projected(
        "l",
        None,
        "r",
        None,
        &on,
        db.catalog_ref(),
        db.cbpm_ref(),
        Some(&wanted),
    )
    .unwrap();
    let mut want = message(0x10, &[2, 0, 1, 0, b'b', 1, 1, 0, b'c', 5]);
    want.extend(message(0x11, &[1, 7, 0, 0, 0, 5, 1, 0, 0, 0, b'x']));
    want.extend(message(0x11, &[1, 8, 0, 0, 0, 0]));
    want.extend(message(0x12, &2u64.to_le_bytes()));
    assert_eq!(sent, want);
    let answer =
        try_arena_left_join_result("l", None, "r", None, &on, db.catalog_ref(), db.cbpm_ref())
            .unwrap();
    assert_eq!(
        answer.rows[1],
        vec![Value::Integer(2), Value::Integer(8), Value::Null, Value::Null]
    );
}

#[test]
fn a_split_scan_reads_the_same_rows() {
    let mut db = with_numbers(&[]);
    for n in 0..40 {
        run(&mut db, &|| insert("t", (0..25).map(|i| vec![num(n * 25 + i)]).collect())).unwrap();
    }
    let info = db.catalog_ref().get_table("t").unwrap();
    let pool = db.cbpm_ref();
    let places = pool.page_chain(info.first_page_id).unwrap();
    assert!(places.len() > 3);
    let shares = split_pages(&places, 3);
    assert_eq!(shares.len(), 3);
    assert_eq!(shares.concat(), places);
    let parts = shares.iter().map(|s| pool.scan_pages(s)).collect();
    let rows = merge_scans(parts, info, None, None).unwrap();
    let whole = execute_seq_scan("t", pool, db.catalog_ref()).unwrap().1;
    assert_eq!(rows.len(), 1000);
    assert_eq!(rows, whole);
    let few = execute_seq_scan_limit("t", pool, db.catalog_ref(), Some(3)).unwrap().1;
    assert_eq!(few[..], whole[..3]);
}

#[test]
fn on_conflict_updates_the_row() {
    let mut db = keyed(&[(1, 10), (2, 20)]);
    let done = run(&mut db, &|| Statement::Insert {
        table_name: "k".into(),
        columns: None,
        values: vec![vec![num(2), num(0)], vec![num(3), num(30)]],
        on_conflict: Some(OnConflict {
            action: OnConflictAction::DoUpdate(vec![(
                "v".into(),
                bin(col("v"), BinaryOperator::Add, num(5)),
            )]),
        }),
    })
    .unwrap();
    assert_eq!(done.rows_affected, 2);
    assert_eq!(pairs(&mut db, &mut None), vec![(1, 10), (2, 25), (3, 30)]);
}

#[test]
fn unique_columns_hold_no_value_twice() {
    let mut db = Database::new("data");
    run(&mut db, &|| {
        let mut a = def("a", DataType::Integer);
        a.is_unique = true;
        create("t", vec![a])
    })
    .unwrap();
    run(&mut db, &|| insert("t", vec![vec![num(1)], vec![null()], vec![null()]])).unwrap();
    let e = run(&mut db, &|| insert("t", vec![vec![num(1)]])).unwrap_err();
    assert_eq!(e.message(), "Execution error: duplicate entry '1' for key 'a'");
    assert_eq!(numbers(&mut db, &mut None).len(), 3);
}

#[test]
fn a_primary_key_of_two_columns_is_unique_as_a_whole() {
    let mut db = Database::new("data");
    run(&mut db, &|| {
        let mut id = def("id", DataType::Integer);
        id.is_primary_key = true;
        let mut v = def("v", DataType::Integer);
        v.is_primary_key = true;
        create("k", vec![id, v])
    })
    .unwrap();
    run(&mut db, &|| insert("k", vec![vec![num(1), num(1)], vec![num(1), num(2)]])).unwrap();
    assert!(run(&mut db, &|| insert("k", vec![vec![num(1), num(2)]])).is_err());
    run(&mut db, &|| insert("k", vec![vec![num(2), num(2)]])).unwrap();
    assert!(run(&mut db, &|| set_value(2, "id", 1)).is_err());
    run(&mut db, &|| set_value(2, "v", 3)).unwrap();
    assert_eq!(pairs(&mut db, &mut None), vec![(1, 1), (1, 2), (2, 3)]);
}

#[test]
fn a_cursor_whose_name_begins_with_the_word_is_deallocated() {
    let mut db = with_numbers(&[1]);
    for (sql, name) in [("DEALLOCATE cursor_a", "cursor_a"), ("DEALLOCATE CURSOR c", "c")] {
        let declared = format!("DECLARE {} CURSOR FOR SELECT * FROM t", name);
        db.execute_sql_session(&declared).unwrap();
        db.execute_sql_session(sql).unwrap();
        assert_eq!(
            db.execute_sql_session(&format!("OPEN {}", name)).unwrap_err(),
            ForgeError::Execution(format!("cursor '{}' not found or not declared", name))
        );
    }
}

#[test]
fn a_partitioned_table_may_stand_in_quotation_marks() {
    let mut db = Database::new("data");
    let action = db
        .execute_sql_session(
            "CREATE TABLE s (id INT) PARTITION BY RANGE (id) \
             (PARTITION p0 VALUES LESS THAN (MAXVALUE))",
        )
        .unwrap();
    match action {
        Action::Partition { table, meta, statements: _ } => {
            db.add_partitions(table, meta);
        }
        other => panic!("{:?}", other),
    }
    match db.execute_sql_session("SELECT * FROM \"s\" WHERE id = 1").unwrap() {
        Action::Parse(sql) => {
            assert_eq!(sql, "SELECT * FROM (SELECT * FROM s__p_p0) AS s WHERE id = 1")
        }
        other => panic!("{:?}", other),
    }
}

#[test]
fn a_keyword_may_hold_a_letter_whose_upper_case_is_ascii() {
    let mut db = Database::new("data");
    db.execute_sql_session("\u{17f}et lock_timeout 250").unwrap();
    assert_eq!(db.lock_timeout, 250);
}

/// What a lookup by `a` in the table `t` finds.
fn looked_up(db: &Database, n: i64, txn: Option<&TxnContext>) -> Vec<Vec<Value>> {
    let host = Host::new(0, 0);
    execute_index_scan(
        "t",
        "a",
        &num(n),
        db.cbpm_ref(),
        db.catalog_ref(),
        db.indexes_ref(),
        txn,
        &host,
    )
    .unwrap()
    .1
    .into_iter()
    .map(|r| r.1)
    .collect()
}

#[test]
fn an_index_on_two_columns_is_searched_by_the_first() {
    let mut db = Database::new("data");
    let pair = |a: i64, b: &str| vec![num(a), text(b)];
    let row = |a: i32, b: &str| vec![Value::Integer(a), Value::Varchar(b.into())];
    run(&mut db, &|| {
        create("t", vec![def("a", DataType::Integer), def("b", DataType::Varchar(10))])
    })
    .unwrap();
    run(&mut db, &|| insert("t", vec![pair(1, "x"), pair(2, "x"), pair(1, "y")])).unwrap();
    run(&mut db, &|| Statement::CreateIndex {
        index_name: "i".into(),
        table_name: "t".into(),
        columns: vec!["a".into(), "b".into()],
        unique: false,
    })
    .unwrap();
    assert_eq!(looked_up(&db, 1, None), vec![row(1, "x"), row(1, "y")]);
    assert_eq!(looked_up(&db, 2, None), vec![row(2, "x")]);
    assert!(looked_up(&db, 3, None).is_empty());
    run(&mut db, &|| insert("t", vec![pair(3, "z")])).unwrap();
    assert_eq!(looked_up(&db, 3, None), vec![row(3, "z")]);
    run(&mut db, &|| Statement::Update {
        table_name: "t".into(),
        assignments: vec![("a".into(), num(4))],
        where_clause: Some(bin(col("a"), BinaryOperator::Eq, num(3))),
    })
    .unwrap();
    assert!(looked_up(&db, 3, None).is_empty());
    assert_eq!(looked_up(&db, 4, None), vec![row(4, "z")]);
    run(&mut db, &|| Statement::Delete {
        table_name: "t".into(),
        where_clause: Some(bin(col("b"), BinaryOperator::Eq, text("x"))),
    })
    .unwrap();
    assert_eq!(looked_up(&db, 1, None), vec![row(1, "y")]);
    assert!(looked_up(&db, 2, None).is_empty());
}

#[test]
fn an_index_scan_in_a_transaction_does_not_see_the_rows_of_another() {
    let mut db = with_numbers(&[5]);
    run(&mut db, &|| Statement::CreateIndex {
        index_name: "i".into(),
        table_name: "t".into(),
        columns: vec!["a".into()],
        unique: false,
    })
    .unwrap();
    let mut a = None;
    run_in(&mut db, &mut a, "BEGIN", &|| Statement::StartTransaction).unwrap();
    run_in(&mut db, &mut a, "", &|| insert("t", vec![vec![num(5)]])).unwrap();
    let writer = a.unwrap().0;
    let looking = |id: u64| TxnContext {
        txn_id: TxnId(id),
        snapshot: Snapshot { txn_id: id, next_txn: writer + 1, active: vec![writer] },
        undo_log: vec![],
    };
    let other = looking(writer + 1);
    let own = looking(writer);
    assert_eq!(looked_up(&db, 5, Some(&other)).len(), 1);
    assert_eq!(looked_up(&db, 5, Some(&own)).len(), 2);
    assert_eq!(looked_up(&db, 5, None).len(), 2);
    let host = Host::new(0, 0);
    let only = execute_index_only_scan(
        "t",
        "a",
        &num(5),
        db.cbpm_ref(),
        db.catalog_ref(),
        db.indexes_ref(),
        Some(&other),
        &host,
    )
    .unwrap()
    .1;
    assert_eq!(only.len(), 1);
}

#[test]
fn a_limit_over_a_count_gives_the_count() {
    for (table, mut db) in [("t", with_numbers(&[1, 2])), ("k", keyed(&[(1, 1), (2, 2)]))] {
        let ask = |limit: Option<usize>| Statement::Select {
            distinct: false,
            columns: vec![out(Expr::Function {
                name: "COUNT".into(),
                args: vec![],
                distinct: false,
            })],
            from: from(table),
            where_clause: None,
            group_by: vec![],
            having: None,
            order_by: vec![],
            limit,
            offset: None,
            ctes: vec![],
        };
        let two = vec![vec![Value::BigInt(2)]];
        assert_eq!(run(&mut db, &|| ask(None)).unwrap().rows, two);
        assert_eq!(run(&mut db, &|| ask(Some(1))).unwrap().rows, two);
        assert!(run(&mut db, &|| ask(Some(0))).unwrap().rows.is_empty());
    }
}

#[test]
fn a_limit_over_aggregates_gives_the_aggregates() {
    let mut db = with_numbers(&[4, 1, 3]);
    let ask = |limit: Option<usize>| Statement::Select {
        distinct: false,
        columns: ["MIN", "MAX", "SUM"]
            .iter()
            .map(|name| SelectColumn::Expr {
                expr: Expr::Function {
                    name: name.to_string(),
                    args: vec![col("a")],
                    distinct: false,
                },
                alias: Some(name.to_lowercase()),
            })
            .collect(),
        from: from("t"),
        where_clause: None,
        group_by: vec![],
        having: None,
        order_by: vec![],
        limit,
        offset: None,
        ctes: vec![],
    };
    let found = run(&mut db, &|| ask(None)).unwrap();
    assert_eq!(
        found.rows,
        vec![vec![Value::Integer(1), Value::Integer(4), Value::Integer(8)]]
    );
    let limited = run(&mut db, &|| ask(Some(1))).unwrap();
    assert_eq!((limited.columns, limited.rows), (found.columns, found.rows));
}
