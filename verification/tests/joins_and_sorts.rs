use forgedb::ast::{Expr, JoinType, OrderByItem};
use forgedb::common::{PageId, RID};
use forgedb::external_sort::external_sort;
use forgedb::grace_join::grace_hash_join;
use forgedb::host::Host;
use forgedb::schema::{Column, Schema};
use forgedb::types::{DataType, Value};

fn make_schema(cols: &[(&str, DataType)]) -> Schema {
    Schema::new(
        cols.iter()
            .enumerate()
            .map(|(i, (name, dt))| Column {
                name: name.to_string(),
                data_type: *dt,
                nullable: true,
                column_id: i as u16,
                auto_increment: false,
                default_value: None,
                is_primary_key: false,
                is_unique: false,
                check_expr: None,
                fk_ref: None,
            })
            .collect(),
    )
}

fn by_id(ascending: bool) -> Vec<OrderByItem> {
    vec![OrderByItem {
        expr: Expr::ColumnRef { table: None, column: "id".into() },
        ascending,
    }]
}

#[test]
fn test_external_sort_small() {
    let schema = make_schema(&[("id", DataType::Integer), ("name", DataType::Varchar(100))]);
    let order_by = by_id(true);
    let host = Host::new(0, 0);

    let mut rows: Vec<Vec<Value>> = (0..100)
        .rev()
        .map(|i| vec![Value::Integer(i), Value::Varchar(format!("row_{}", i))])
        .collect();

    external_sort(&order_by, &mut rows, &schema, &host).unwrap();
    for (i, row) in rows.iter().enumerate() {
        assert_eq!(row[0], Value::Integer(i as i32));
    }
}

#[test]
fn external_sort_descends() {
    let schema = make_schema(&[("id", DataType::Integer)]);
    let host = Host::new(0, 0);
    let mut rows: Vec<Vec<Value>> =
        [3, 1, 2].iter().map(|i| vec![Value::Integer(*i)]).collect();
    external_sort(&by_id(false), &mut rows, &schema, &host).unwrap();
    assert_eq!(
        rows,
        vec![vec![Value::Integer(3)], vec![Value::Integer(2)], vec![Value::Integer(1)]]
    );
}

#[test]
fn external_sort_merges_runs() {
    let schema = make_schema(&[("id", DataType::Integer)]);
    let host = Host::new(0, 0);
    let n = 12_000;
    let mut rows: Vec<Vec<Value>> =
        (0..n).map(|i| vec![Value::Integer((i * 7919) % n)]).collect();
    external_sort(&by_id(true), &mut rows, &schema, &host).unwrap();
    for (i, row) in rows.iter().enumerate() {
        assert_eq!(row[0], Value::Integer(i as i32));
    }
}

#[test]
fn test_grace_hash_join_inner() {
    let left_schema = make_schema(&[("id", DataType::Integer), ("name", DataType::Varchar(100))]);
    let right_schema = make_schema(&[("user_id", DataType::Integer), ("total", DataType::Float)]);

    let dummy_rid = RID { page_id: PageId(0), slot_id: 0 };
    let left_rows: Vec<(RID, Vec<Value>)> = (0..100)
        .map(|i| (dummy_rid, vec![Value::Integer(i), Value::Varchar(format!("user_{}", i))]))
        .collect();
    let right_rows: Vec<(RID, Vec<Value>)> = (50..150)
        .map(|i| (dummy_rid, vec![Value::Integer(i), Value::Float((i as f64 * 1.5).to_bits())]))
        .collect();

    let (schema, result) = grace_hash_join(
        &left_rows,
        &right_rows,
        &JoinType::Inner,
        0,
        0,
        &left_schema,
        &right_schema,
    )
    .unwrap();

    // Overlap is 50..100 = 50 rows
    assert_eq!(result.len(), 50);
    assert_eq!(schema.columns.len(), 4);
}

#[test]
fn grace_hash_join_left_keeps_every_left_row() {
    let left_schema = make_schema(&[("id", DataType::Integer)]);
    let right_schema = make_schema(&[("id", DataType::Integer), ("v", DataType::Integer)]);
    let rid = RID { page_id: PageId(0), slot_id: 0 };
    let left: Vec<(RID, Vec<Value>)> =
        (0..4).map(|i| (rid, vec![Value::Integer(i)])).collect();
    let right: Vec<(RID, Vec<Value>)> =
        (2..6).map(|i| (rid, vec![Value::Integer(i), Value::Integer(i * 10)])).collect();
    let (_, rows) =
        grace_hash_join(&left, &right, &JoinType::Left, 0, 0, &left_schema, &right_schema)
            .unwrap();
    assert_eq!(rows.len(), 4);
    let mut met = 0;
    for (_, row) in rows {
        match &row[0] {
            Value::Integer(i) if *i >= 2 => {
                assert_eq!(row[2], Value::Integer(*i * 10));
                met += 1;
            }
            _ => assert_eq!(row[2], Value::Null),
        }
    }
    assert_eq!(met, 2);
}
