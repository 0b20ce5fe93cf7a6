use forgedb::aggregate::{execute_aggregate, execute_group_by, has_aggregates};
use forgedb::ast::{
    BinaryOperator, Expr, JoinType, LiteralValue, SelectColumn, UnaryOperator,
};
use forgedb::catalog::Catalog;
use forgedb::common::{PageId, RID};
use forgedb::compare::coerce_for_comparison;
use forgedb::database::Database;
use forgedb::dates::epoch_to_ymd;
use forgedb::error::{ForgeError, Result};
use forgedb::executor::execute;
use forgedb::grace_join::grace_hash_join;
use forgedb::host::{FloatCall, FloatOp, Host};
use forgedb::join::{execute_hash_join, execute_nested_loop_join};
use forgedb::plan::PlanNode;
use forgedb::projection::execute_projection;
use forgedb::schema::{Column, Schema};
use forgedb::state::{DmlContext, ExecutorContext};
use forgedb::storage::BufferPool;
use forgedb::streaming::execute_streaming_group_by;
use forgedb::types::{DataType, Value};
use forgedb::values::serialize_row_key;

fn column(name: &str, data_type: DataType) -> Column {
    Column {
        name: name.into(),
        data_type,
        nullable: true,
        column_id: 0,
        auto_increment: false,
        default_value: None,
        is_primary_key: false,
        is_unique: false,
        check_expr: None,
        fk_ref: None,
    }
}

fn integers(names: &[&str]) -> Schema {
    Schema::new(names.iter().map(|n| column(n, DataType::Integer)).collect())
}

fn placed(rows: Vec<Vec<Value>>) -> Vec<(RID, Vec<Value>)> {
    rows.into_iter().map(|r| (RID { page_id: PageId(0), slot_id: 0 }, r)).collect()
}

fn whole(n: i32) -> Value {
    Value::Integer(n)
}

fn col(name: &str) -> Expr {
    Expr::ColumnRef { table: None, column: name.into() }
}

fn call(name: &str, args: Vec<Expr>) -> Expr {
    Expr::Function { name: name.into(), args, distinct: false }
}

fn out(expr: Expr) -> SelectColumn {
    SelectColumn::Expr { expr, alias: None }
}

fn eq(a: &str, b: &str) -> Expr {
    Expr::BinaryOp { left: Box::new(col(a)), op: BinaryOperator::Eq, right: Box::new(col(b)) }
}

/// Repeats a computation until no floating-point result is missing.
fn settled<T>(work: &dyn Fn(&Host) -> Result<T>) -> Result<T> {
    let mut host = Host::new(0, 0);
    loop {
        match work(&host) {
            Err(ForgeError::NeedsFloat(FloatCall::Numeric(op, x, y))) => {
                let (a, b) = (f64::from_bits(x), f64::from_bits(y));
                let r = match op {
                    FloatOp::Add => a + b,
                    FloatOp::Sub => a - b,
                    FloatOp::Mul => a * b,
                    FloatOp::Div => a / b,
                    FloatOp::Round => a.round(),
                    FloatOp::PowTen => 10f64.powi(x as i32),
                    _ => unreachable!(),
                };
                host.numeric.push((op, x, y, r.to_bits()));
            }
            other => return other,
        }
    }
}

fn values(rows: Vec<(RID, Vec<Value>)>) -> Vec<Vec<Value>> {
    rows.into_iter().map(|r| r.1).collect()
}

#[test]
fn days_before_1970_are_whole_days() {
    assert_eq!(epoch_to_ymd(0), (1970, 1, 1));
    assert_eq!(epoch_to_ymd(-1), (1969, 12, 31));
    assert_eq!(epoch_to_ymd(-86_400), (1969, 12, 31));
    assert_eq!(epoch_to_ymd(-86_401), (1969, 12, 30));
}

#[test]
fn a_catalog_keeps_every_field_of_a_column() {
    let mut id = column("id", DataType::Integer);
    id.nullable = false;
    id.auto_increment = true;
    id.is_primary_key = true;
    let mut name = column("name", DataType::Varchar(20));
    name.column_id = 1;
    name.is_unique = true;
    name.default_value = Some(Value::Varchar("none".into()));
    let mut price = column("price", DataType::Decimal(10, 2));
    price.column_id = 2;
    price.default_value = Some(Value::Decimal(-150, 2));
    let mut owner = column("owner", DataType::Integer);
    owner.column_id = 3;
    owner.default_value = Some(Value::Null);
    owner.fk_ref = Some(("users".into(), "id".into(), 1));
    let mut cat = Catalog::new("c");
    cat.create_table("Items", Schema::new(vec![id, name, price, owner]), PageId(7)).unwrap();
    let read = Catalog::load("c", Some(&cat.persist())).unwrap();
    let cols = &read.get_table("items").unwrap().schema.columns;
    assert_eq!(cols.len(), 4);
    assert!(cols[0].auto_increment && cols[0].is_primary_key && !cols[0].nullable);
    assert!(cols[0].default_value.is_none() && !cols[0].is_unique);
    assert!(cols[1].is_unique && !cols[1].is_primary_key && cols[1].column_id == 1);
    assert_eq!(cols[1].default_value, Some(Value::Varchar("none".into())));
    assert_eq!(cols[2].default_value, Some(Value::Decimal(-150, 2)));
    assert_eq!(cols[2].data_type, DataType::Decimal(10, 2));
    assert_eq!(cols[3].default_value, Some(Value::Null));
    assert_eq!(cols[3].fk_ref, Some(("users".into(), "id".into(), 1)));
}

#[test]
fn a_check_condition_is_there_after_a_restart() {
    let name = |c: &str| Expr::ColumnRef { table: None, column: c.into() };
    let of = |t: &str, c: &str| Expr::ColumnRef { table: Some(t.into()), column: c.into() };
    let lit = |v: LiteralValue| Expr::Literal(v);
    let both = |l: Expr, op: BinaryOperator, r: Expr| Expr::BinaryOp {
        left: Box::new(l),
        op,
        right: Box::new(r),
    };
    let conditions = vec![
        both(name("v"), BinaryOperator::Gt, lit(LiteralValue::Integer(-3))),
        both(of("t", "v"), BinaryOperator::Modulo, lit(LiteralValue::Float(1.5f64.to_bits()))),
        Expr::UnaryOp { op: UnaryOperator::Not, expr: Box::new(lit(LiteralValue::Boolean(true))) },
        Expr::UnaryOp { op: UnaryOperator::Neg, expr: Box::new(lit(LiteralValue::Null)) },
        Expr::IsNull(Box::new(name("a"))),
        Expr::IsNotNull(Box::new(name("a"))),
        Expr::Function { name: "LENGTH".into(), args: vec![name("a")], distinct: false },
        Expr::Function { name: "COUNT".into(), args: vec![], distinct: true },
        Expr::Like {
            expr: Box::new(name("a")),
            pattern: Box::new(lit(LiteralValue::String("x%".into()))),
        },
        Expr::NotLike { expr: Box::new(name("a")), pattern: Box::new(name("b")) },
        Expr::In { expr: Box::new(name("a")), list: vec![name("b"), name("c")] },
        Expr::NotIn { expr: Box::new(name("a")), list: vec![] },
        Expr::Between {
            expr: Box::new(name("a")),
            low: Box::new(name("b")),
            high: Box::new(name("c")),
        },
        Expr::Case {
            operand: Some(Box::new(name("a"))),
            when_clauses: vec![(name("b"), name("c")), (name("d"), name("e"))],
            else_result: Some(Box::new(name("f"))),
        },
        Expr::Case {
            operand: None,
            when_clauses: vec![(name("b"), name("c"))],
            else_result: Some(Box::new(name("f"))),
        },
        Expr::Case {
            operand: Some(Box::new(name("a"))),
            when_clauses: vec![],
            else_result: None,
        },
        Expr::Case { operand: None, when_clauses: vec![], else_result: None },
        Expr::Cast { expr: Box::new(name("a")), data_type: DataType::Decimal(10, 2) },
        Expr::Cast { expr: Box::new(name("a")), data_type: DataType::Varchar(65535) },
        Expr::Cast { expr: Box::new(name("a")), data_type: DataType::Uuid },
        Expr::Concat { left: Box::new(name("a")), right: Box::new(name("b")) },
    ];
    for condition in conditions {
        let shown = format!("{:?}", condition);
        let mut v = column("v", DataType::Integer);
        v.check_expr = Some(condition);
        let mut cat = Catalog::new("c");
        cat.create_table("t", Schema::new(vec![v]), PageId(7)).unwrap();
        let kept = cat.persist();
        let read = Catalog::load("c", Some(&kept)).unwrap();
        let col = &read.get_table("t").unwrap().schema.columns[0];
        assert_eq!(format!("{:?}", col.check_expr.as_ref().unwrap()), shown);
        assert!(Catalog::load("c", Some(&kept[..kept.len() - 1])).is_err());
    }
}

#[test]
fn a_grace_join_keeps_unmatched_rows_of_either_side() {
    let l = integers(&["a"]);
    let r = integers(&["b"]);
    let one = placed(vec![vec![whole(1)]]);
    let none = placed(vec![]);
    let right = grace_hash_join(&none, &one, &JoinType::Right, 0, 0, &l, &r).unwrap().1;
    assert_eq!(values(right), vec![vec![Value::Null, whole(1)]]);
    let two = placed(vec![vec![whole(2)]]);
    let full = grace_hash_join(&two, &one, &JoinType::Full, 0, 0, &l, &r).unwrap().1;
    let mut full = values(full);
    full.sort_by_key(|row| row[0] == Value::Null);
    assert_eq!(full, vec![vec![whole(2), Value::Null], vec![Value::Null, whole(1)]]);
    let met = grace_hash_join(&one, &one, &JoinType::Right, 0, 0, &l, &r).unwrap().1;
    assert_eq!(values(met), vec![vec![whole(1), whole(1)]]);
}

#[test]
fn a_granted_privilege_is_allowed() {
    let mut db = Database::new("d");
    db.execute_sql_session("GRANT SELECT ON users TO bob").unwrap();
    assert!(db.check_privilege("bob", "SELECT", Some("users")));
    assert!(db.check_privilege("Bob", "select", Some("USERS")));
    assert!(!db.check_privilege("bob", "DELETE", Some("users")));
    assert!(!db.check_privilege("bob", "SELECT", Some("orders")));
    assert!(!db.check_privilege("eve", "SELECT", Some("users")));
    db.execute_sql_session("grant all on *.* to 'ann'").unwrap();
    assert!(db.check_privilege("ann", "DELETE", Some("users")));
    db.execute_sql_session("REVOKE SELECT ON Users FROM bob").unwrap();
    assert!(!db.check_privilege("bob", "SELECT", Some("users")));
}

#[test]
fn aggregates_inside_other_expressions_are_computed() {
    let rounded = vec![out(call("ROUND", vec![call("AVG", vec![col("v")])]))];
    assert!(has_aggregates(&rounded));
    let schema = integers(&["v"]);
    let rows = placed(vec![vec![whole(1)], vec![whole(2)], vec![whole(2)]]);
    let found = settled(&|h| execute_aggregate(&rounded, &rows, &schema, h)).unwrap().1;
    assert_eq!(found, vec![vec![whole(2)]]);
    let cast = vec![
        out(Expr::Cast { expr: Box::new(call("COUNT", vec![])), data_type: DataType::Integer }),
        out(Expr::IsNull(Box::new(call("MAX", vec![col("v")])))),
        out(Expr::Between {
            expr: Box::new(call("MIN", vec![col("v")])),
            low: Box::new(Expr::Literal(LiteralValue::Integer(0))),
            high: Box::new(Expr::Literal(LiteralValue::Integer(1))),
        }),
        out(call("COALESCE", vec![col("absent"), call("MAX", vec![col("v")])])),
    ];
    let first = settled(&|h| execute_aggregate(&cast[..3], &rows, &schema, h)).unwrap().1;
    assert_eq!(first, vec![vec![whole(3), Value::Boolean(false), Value::Boolean(true)]]);
    assert!(settled(&|h| execute_aggregate(&cast, &rows, &schema, h)).is_err());
}

#[test]
fn a_star_of_one_table_takes_its_columns() {
    let schema = integers(&["a.x", "b.y"]);
    let rows = placed(vec![vec![whole(1), whole(2)]]);
    let host = Host::new(0, 0);
    let b = [SelectColumn::AllColumns(Some("b".into()))];
    assert_eq!(
        execute_projection(&b, &rows, &schema, &host).unwrap(),
        (vec!["y".to_string()], vec![vec![whole(2)]])
    );
    let both = [
        SelectColumn::AllColumns(Some("b".into())),
        SelectColumn::AllColumns(None),
    ];
    assert_eq!(
        execute_projection(&both, &rows, &schema, &host).unwrap().1,
        vec![vec![whole(2), whole(1), whole(2)]]
    );
}

#[test]
fn group_counts_add_up_however_they_are_computed() {
    let schema = integers(&["k", "v"]);
    let rows = placed(
        [(1, 5), (2, 1), (1, 7), (3, 0), (2, 4)]
            .iter()
            .map(|(k, v)| vec![whole(*k), whole(*v)])
            .collect(),
    );
    let cols = vec![
        out(col("k")),
        out(call("COUNT", vec![])),
        out(call("SUM", vec![col("v")])),
        out(call("AVG", vec![col("v")])),
        out(call("MIN", vec![col("v")])),
        out(call("MAX", vec![col("v")])),
    ];
    let by = [col("k")];
    let grouped = settled(&|h| execute_group_by(&by, &None, &cols, &rows, &schema, h)).unwrap();
    let streamed =
        settled(&|h| execute_streaming_group_by(&by, &None, &cols, &rows, &schema, h)).unwrap();
    assert_eq!(grouped, streamed);
    let keys: Vec<Value> = grouped.1.iter().map(|r| r[0].clone()).collect();
    assert_eq!(keys, vec![whole(1), whole(2), whole(3)]);
    let total: i64 = grouped
        .1
        .iter()
        .map(|r| match &r[1] {
            Value::BigInt(n) => *n,
            _ => panic!("a count"),
        })
        .sum();
    assert_eq!(total, 5);
    assert_eq!(grouped.1[0][3], Value::Float(6f64.to_bits()));
    let none = placed(vec![]);
    let host = Host::new(0, 0);
    assert!(execute_group_by(&by, &None, &cols, &none, &schema, &host).unwrap().1.is_empty());
}

#[test]
fn rows_have_equal_keys_exactly_if_they_are_equal() {
    let uuid = |s: &str| Value::Uuid(s.into());
    let text = |s: &str| Value::Varchar(s.into());
    assert_ne!(
        serialize_row_key(&[uuid("a"), Value::Null]),
        serialize_row_key(&[uuid("a\0")])
    );
    assert_eq!(serialize_row_key(&[text("Ann")]), serialize_row_key(&[text("ann")]));
    assert_ne!(serialize_row_key(&[whole(1)]), serialize_row_key(&[Value::BigInt(1)]));
    let mut both = serialize_row_key(&[whole(1), text("x")]);
    both.extend(serialize_row_key(&[Value::Null]));
    assert_eq!(both, serialize_row_key(&[whole(1), text("x"), Value::Null]));
}

#[test]
fn a_hash_join_gives_what_the_nested_loop_gives() {
    let l = integers(&["a", "x"]);
    let r = integers(&["b"]);
    let left = placed(vec![
        vec![whole(1), whole(10)],
        vec![whole(2), whole(20)],
        vec![Value::Null, whole(30)],
        vec![whole(1), whole(40)],
    ]);
    let right = placed(vec![
        vec![Value::BigInt(1)],
        vec![Value::Null],
        vec![whole(3)],
        vec![whole(1)],
        vec![whole(4)],
    ]);
    let host = Host::new(0, 0);
    for t in [JoinType::Inner, JoinType::Left, JoinType::Right] {
        for on in [eq("a", "b"), eq("b", "a")] {
            let h = execute_hash_join(&left, &right, &t, &on, &l, &r, &host).unwrap().1;
            let n = execute_nested_loop_join(&left, &right, &t, &on, &l, &r, &host).unwrap().1;
            let sorted = |rows: Vec<(RID, Vec<Value>)>| {
                let mut keys: Vec<Vec<u8>> =
                    rows.iter().map(|row| serialize_row_key(&row.1)).collect();
                keys.sort();
                keys
            };
            let expected = match t {
                JoinType::Inner => 4,
                JoinType::Left => 6,
                _ => 7,
            };
            assert_eq!(n.len(), expected);
            assert_eq!(sorted(h), sorted(n));
        }
    }
}

#[test]
fn a_hash_join_matches_equal_numbers_of_any_type() {
    let l = integers(&["a"]);
    let r = integers(&["b"]);
    let host = Host::new(0, 0);
    let count = |a: Value, b: Value| {
        let left = placed(vec![vec![a]]);
        let right = placed(vec![vec![b]]);
        execute_hash_join(&left, &right, &JoinType::Inner, &eq("a", "b"), &l, &r, &host)
            .unwrap()
            .1
            .len()
    };
    let float = |f: f64| Value::Float(f.to_bits());
    assert_eq!(count(float(1.5), float(1.25)), 0);
    assert_eq!(count(float(1.5), float(1.5)), 1);
    assert_eq!(count(float(2.0), whole(2)), 1);
    assert_eq!(count(float(-0.0), float(0.0)), 1);
    assert_eq!(count(float(f64::NAN), float(f64::NAN)), 0);
    assert_eq!(count(Value::Decimal(150, 2), Value::Decimal(15, 1)), 1);
    assert_eq!(count(Value::Decimal(150, 2), Value::Decimal(150, 1)), 0);
    assert_eq!(count(Value::Decimal(-300, 2), whole(-3)), 1);
    assert_eq!(count(Value::Null, Value::Null), 0);
}

#[test]
fn a_decimal_beside_a_double_is_left_as_it_is() {
    let host = Host::new(0, 0);
    let d = Value::Decimal(150, 2);
    let f = Value::Float(1.5f64.to_bits());
    assert_eq!(
        coerce_for_comparison(&d, &f, &host).unwrap(),
        (Value::Decimal(150, 2), Value::Float(1.5f64.to_bits()))
    );
}

#[test]
fn a_table_is_made_below_a_limit() {
    let mut ctx = ExecutorContext {
        catalog: Catalog::new("c"),
        dml: DmlContext {
            bpm: BufferPool { pages: vec![], next_page_id: 0 },
            indexes: vec![],
            clustered_indexes: vec![],
            auto_increment_counters: vec![],
            txn_ctx: None,
        },
    };
    let host = Host::new(0, 0);
    let make = PlanNode::CreateTable { table_name: "t".into(), columns: vec![] };
    let plan = PlanNode::Limit {
        count: 1,
        offset: 0,
        child: Box::new(PlanNode::Distinct { child: Box::new(make) }),
    };
    execute(plan, &mut ctx, &host).unwrap();
    assert!(ctx.catalog.get_table("t").is_some());
}

#[test]
fn group_by_keeps_the_groups_that_pass_in_order() {
    let schema = integers(&["k", "v"]);
    let rows = placed(
        [(3, 5), (2, 1), (3, 7), (1, 0), (2, 4), (3, 9)]
            .iter()
            .map(|(k, v)| vec![whole(*k), whole(*v)])
            .collect(),
    );
    let cols = vec![out(col("k")), out(call("COUNT", vec![]))];
    let by = [col("k")];
    let host = Host::new(0, 0);
    let shown = |k: i32, n: i64| vec![whole(k), Value::BigInt(n)];
    assert_eq!(
        execute_group_by(&by, &None, &cols, &rows, &schema, &host).unwrap().1,
        vec![shown(3, 3), shown(2, 2), shown(1, 1)]
    );
    let more_than_one = Some(Expr::BinaryOp {
        left: Box::new(call("COUNT", vec![])),
        op: BinaryOperator::Gt,
        right: Box::new(Expr::Literal(LiteralValue::Integer(1))),
    });
    assert_eq!(
        execute_group_by(&by, &more_than_one, &cols, &rows, &schema, &host).unwrap().1,
        vec![shown(3, 3), shown(2, 2)]
    );
    let least = Some(call("MIN", vec![col("v")]));
    assert_eq!(
        execute_group_by(&by, &least, &cols, &rows, &schema, &host).unwrap().1,
        vec![shown(3, 3), shown(2, 2)]
    );
}

#[test]
fn keys_that_differ_in_case_show_the_first_row() {
    let schema = Schema::new(vec![column("s", DataType::Varchar(10))]);
    let word = |s: &str| Value::Varchar(s.into());
    let rows = placed(vec![vec![word("Ab")], vec![word("x")], vec![word("aB")]]);
    let cols = vec![out(col("s")), out(call("COUNT", vec![]))];
    let host = Host::new(0, 0);
    assert_eq!(
        execute_group_by(&[col("s")], &None, &cols, &rows, &schema, &host).unwrap().1,
        vec![vec![word("Ab"), Value::BigInt(2)], vec![word("x"), Value::BigInt(1)]]
    );
}
