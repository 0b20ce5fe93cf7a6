use forgedb::ast::{BinaryOperator, Expr, FromClause, LiteralValue, SelectColumn, Statement};
use forgedb::error::{ForgeError, Result};
use forgedb::eval::{eval_to_bool, evaluate};
use forgedb::host::{FloatCall, FloatOp, Host};
use forgedb::like::like_match;
use forgedb::schema::{Column, Schema};
use forgedb::types::{DataType, Value};

/// Does the floating-point work that an evaluation asks for and records it.
fn supply(host: &mut Host, call: FloatCall) {
    match call {
        FloatCall::Numeric(op, x, y) => {
            let a = f64::from_bits(x);
            let b = f64::from_bits(y);
            let r = match op {
                FloatOp::Add => a + b,
                FloatOp::Sub => a - b,
                FloatOp::Mul => a * b,
                FloatOp::Div => a / b,
                FloatOp::Rem => a % b,
                FloatOp::Pow => a.powf(b),
                FloatOp::Sqrt => a.sqrt(),
                FloatOp::Round => a.round(),
                FloatOp::Ceil => a.ceil(),
                FloatOp::Floor => a.floor(),
                FloatOp::PowTen => 10f64.powi(x as i32),
            };
            host.numeric.push((op, x, y, r.to_bits()));
        }
        FloatCall::Parse(s) => {
            let r = s.parse::<f64>().ok().map(|f| f.to_bits());
            host.parsed.push((s, r));
        }
        FloatCall::Show(x) => host.shown.push((x, f64::from_bits(x).to_string())),
        FloatCall::Debug(x) => host.debugged.push((x, format!("{:?}", f64::from_bits(x)))),
    }
}

/// Evaluates with a host that supplies every floating-point result.
fn run(expr: &Expr, tuple: &[Value], schema: &Schema) -> Result<Value> {
    let mut host = Host::new(86_400 * 365 + 5, 1234);
    loop {
        match evaluate(expr, tuple, schema, &host) {
            Err(ForgeError::NeedsFloat(call)) => supply(&mut host, call),
            other => return other,
        }
    }
}

fn test_schema() -> Schema {
    Schema::new(vec![
        Column {
            name: "id".into(),
            data_type: DataType::Integer,
            nullable: false,
            column_id: 0,
            auto_increment: false,
            default_value: None,
            is_primary_key: false,
                is_unique: false,
                check_expr: None, fk_ref: None,
        },
        Column {
            name: "name".into(),
            data_type: DataType::Varchar(100),
            nullable: true,
            column_id: 1,
            auto_increment: false,
            default_value: None,
            is_primary_key: false,
                is_unique: false,
                check_expr: None, fk_ref: None,
        },
    ])
}

#[test]
fn test_literal() {
    let schema = test_schema();
    let tuple = vec![Value::Integer(1), Value::Varchar("Alice".into())];
    let expr = Expr::Literal(LiteralValue::Integer(42));
    assert_eq!(run(&expr, &tuple, &schema).unwrap(), Value::Integer(42));
}

#[test]
fn test_column_ref() {
    let schema = test_schema();
    let tuple = vec![Value::Integer(1), Value::Varchar("Alice".into())];
    let expr = Expr::ColumnRef {
        table: None,
        column: "name".into(),
    };
    assert_eq!(
        run(&expr, &tuple, &schema).unwrap(),
        Value::Varchar("Alice".into())
    );
}

#[test]
fn test_comparison() {
    let schema = test_schema();
    let tuple = vec![Value::Integer(5), Value::Varchar("Alice".into())];
    let expr = Expr::BinaryOp {
        left: Box::new(Expr::ColumnRef {
            table: None,
            column: "id".into(),
        }),
        op: BinaryOperator::Gt,
        right: Box::new(Expr::Literal(LiteralValue::Integer(3))),
    };
    assert_eq!(
        run(&expr, &tuple, &schema).unwrap(),
        Value::Boolean(true)
    );
}

#[test]
fn test_null_comparison_returns_null() {
    let schema = test_schema();
    let tuple = vec![Value::Integer(1), Value::Null];
    let expr = Expr::BinaryOp {
        left: Box::new(Expr::ColumnRef {
            table: None,
            column: "name".into(),
        }),
        op: BinaryOperator::Eq,
        right: Box::new(Expr::Literal(LiteralValue::String("x".into()))),
    };
    assert_eq!(run(&expr, &tuple, &schema).unwrap(), Value::Null);
}

#[test]
fn test_is_null() {
    let schema = test_schema();
    let tuple = vec![Value::Integer(1), Value::Null];
    let expr = Expr::IsNull(Box::new(Expr::ColumnRef {
        table: None,
        column: "name".into(),
    }));
    assert_eq!(
        run(&expr, &tuple, &schema).unwrap(),
        Value::Boolean(true)
    );
}

// ---- LIKE tests ----

#[test]
fn test_like_percent_suffix() {
    let schema = test_schema();
    let tuple = vec![Value::Integer(1), Value::Varchar("hello".into())];
    let expr = Expr::Like {
        expr: Box::new(Expr::ColumnRef {
            table: None,
            column: "name".into(),
        }),
        pattern: Box::new(Expr::Literal(LiteralValue::String("hel%".into()))),
    };
    assert_eq!(
        run(&expr, &tuple, &schema).unwrap(),
        Value::Boolean(true)
    );
}

#[test]
fn test_like_underscore() {
    let schema = test_schema();
    let tuple = vec![Value::Integer(1), Value::Varchar("hello".into())];
    let expr = Expr::Like {
        expr: Box::new(Expr::ColumnRef {
            table: None,
            column: "name".into(),
        }),
        pattern: Box::new(Expr::Literal(LiteralValue::String("h_llo".into()))),
    };
    assert_eq!(
        run(&expr, &tuple, &schema).unwrap(),
        Value::Boolean(true)
    );
}

#[test]
fn test_like_case_insensitive() {
    let schema = test_schema();
    let tuple = vec![Value::Integer(1), Value::Varchar("Hello".into())];
    let expr = Expr::Like {
        expr: Box::new(Expr::ColumnRef {
            table: None,
            column: "name".into(),
        }),
        pattern: Box::new(Expr::Literal(LiteralValue::String("hello".into()))),
    };
    assert_eq!(
        run(&expr, &tuple, &schema).unwrap(),
        Value::Boolean(true)
    );
}

#[test]
fn test_like_no_match() {
    let schema = test_schema();
    let tuple = vec![Value::Integer(1), Value::Varchar("hello".into())];
    let expr = Expr::Like {
        expr: Box::new(Expr::ColumnRef {
            table: None,
            column: "name".into(),
        }),
        pattern: Box::new(Expr::Literal(LiteralValue::String("world%".into()))),
    };
    assert_eq!(
        run(&expr, &tuple, &schema).unwrap(),
        Value::Boolean(false)
    );
}

#[test]
fn test_like_null_returns_null() {
    let schema = test_schema();
    let tuple = vec![Value::Integer(1), Value::Null];
    let expr = Expr::Like {
        expr: Box::new(Expr::ColumnRef {
            table: None,
            column: "name".into(),
        }),
        pattern: Box::new(Expr::Literal(LiteralValue::String("%".into()))),
    };
    assert_eq!(run(&expr, &tuple, &schema).unwrap(), Value::Null);
}

#[test]
fn test_not_like() {
    let schema = test_schema();
    let tuple = vec![Value::Integer(1), Value::Varchar("hello".into())];
    let expr = Expr::NotLike {
        expr: Box::new(Expr::ColumnRef {
            table: None,
            column: "name".into(),
        }),
        pattern: Box::new(Expr::Literal(LiteralValue::String("world%".into()))),
    };
    assert_eq!(
        run(&expr, &tuple, &schema).unwrap(),
        Value::Boolean(true)
    );
}

#[test]
fn test_like_percent_both_sides() {
    let schema = test_schema();
    let tuple = vec![Value::Integer(1), Value::Varchar("hello world".into())];
    let expr = Expr::Like {
        expr: Box::new(Expr::ColumnRef {
            table: None,
            column: "name".into(),
        }),
        pattern: Box::new(Expr::Literal(LiteralValue::String("%lo wo%".into()))),
    };
    assert_eq!(
        run(&expr, &tuple, &schema).unwrap(),
        Value::Boolean(true)
    );
}

// ---- IN tests ----

#[test]
fn test_in_found() {
    let schema = test_schema();
    let tuple = vec![Value::Integer(2), Value::Varchar("Alice".into())];
    let expr = Expr::In {
        expr: Box::new(Expr::ColumnRef {
            table: None,
            column: "id".into(),
        }),
        list: vec![
            Expr::Literal(LiteralValue::Integer(1)),
            Expr::Literal(LiteralValue::Integer(2)),
            Expr::Literal(LiteralValue::Integer(3)),
        ],
    };
    assert_eq!(
        run(&expr, &tuple, &schema).unwrap(),
        Value::Boolean(true)
    );
}

#[test]
fn test_in_not_found() {
    let schema = test_schema();
    let tuple = vec![Value::Integer(5), Value::Varchar("Alice".into())];
    let expr = Expr::In {
        expr: Box::new(Expr::ColumnRef {
            table: None,
            column: "id".into(),
        }),
        list: vec![
            Expr::Literal(LiteralValue::Integer(1)),
            Expr::Literal(LiteralValue::Integer(2)),
            Expr::Literal(LiteralValue::Integer(3)),
        ],
    };
    assert_eq!(
        run(&expr, &tuple, &schema).unwrap(),
        Value::Boolean(false)
    );
}

#[test]
fn test_in_null_expr_returns_null() {
    let schema = test_schema();
    let tuple = vec![Value::Null, Value::Varchar("Alice".into())];
    let expr = Expr::In {
        expr: Box::new(Expr::ColumnRef {
            table: None,
            column: "id".into(),
        }),
        list: vec![
            Expr::Literal(LiteralValue::Integer(1)),
        ],
    };
    assert_eq!(run(&expr, &tuple, &schema).unwrap(), Value::Null);
}

#[test]
fn test_not_in() {
    let schema = test_schema();
    let tuple = vec![Value::Integer(5), Value::Varchar("Alice".into())];
    let expr = Expr::NotIn {
        expr: Box::new(Expr::ColumnRef {
            table: None,
            column: "id".into(),
        }),
        list: vec![
            Expr::Literal(LiteralValue::Integer(1)),
            Expr::Literal(LiteralValue::Integer(2)),
            Expr::Literal(LiteralValue::Integer(3)),
        ],
    };
    assert_eq!(
        run(&expr, &tuple, &schema).unwrap(),
        Value::Boolean(true)
    );
}

// ---- BETWEEN tests ----

#[test]
fn test_between_in_range() {
    let schema = test_schema();
    let tuple = vec![Value::Integer(5), Value::Varchar("Alice".into())];
    let expr = Expr::Between {
        expr: Box::new(Expr::ColumnRef {
            table: None,
            column: "id".into(),
        }),
        low: Box::new(Expr::Literal(LiteralValue::Integer(1))),
        high: Box::new(Expr::Literal(LiteralValue::Integer(10))),
    };
    assert_eq!(
        run(&expr, &tuple, &schema).unwrap(),
        Value::Boolean(true)
    );
}

#[test]
fn test_between_at_boundary() {
    let schema = test_schema();
    // Test lower boundary
    let tuple = vec![Value::Integer(1), Value::Varchar("Alice".into())];
    let expr = Expr::Between {
        expr: Box::new(Expr::ColumnRef {
            table: None,
            column: "id".into(),
        }),
        low: Box::new(Expr::Literal(LiteralValue::Integer(1))),
        high: Box::new(Expr::Literal(LiteralValue::Integer(10))),
    };
    assert_eq!(
        run(&expr, &tuple, &schema).unwrap(),
        Value::Boolean(true)
    );

    // Test upper boundary
    let tuple2 = vec![Value::Integer(10), Value::Varchar("Alice".into())];
    assert_eq!(
        run(&expr, &tuple2, &schema).unwrap(),
        Value::Boolean(true)
    );
}

#[test]
fn test_between_out_of_range() {
    let schema = test_schema();
    let tuple = vec![Value::Integer(15), Value::Varchar("Alice".into())];
    let expr = Expr::Between {
        expr: Box::new(Expr::ColumnRef {
            table: None,
            column: "id".into(),
        }),
        low: Box::new(Expr::Literal(LiteralValue::Integer(1))),
        high: Box::new(Expr::Literal(LiteralValue::Integer(10))),
    };
    assert_eq!(
        run(&expr, &tuple, &schema).unwrap(),
        Value::Boolean(false)
    );
}

#[test]
fn test_between_null_returns_null() {
    let schema = test_schema();
    let tuple = vec![Value::Null, Value::Varchar("Alice".into())];
    let expr = Expr::Between {
        expr: Box::new(Expr::ColumnRef {
            table: None,
            column: "id".into(),
        }),
        low: Box::new(Expr::Literal(LiteralValue::Integer(1))),
        high: Box::new(Expr::Literal(LiteralValue::Integer(10))),
    };
    assert_eq!(run(&expr, &tuple, &schema).unwrap(), Value::Null);
}

// ---- like_match unit tests ----

#[test]
fn test_like_match_exact() {
    assert!(like_match("hello", "hello"));
    assert!(!like_match("hello", "world"));
}

#[test]
fn test_like_match_percent() {
    assert!(like_match("hello", "%"));
    assert!(like_match("hello", "h%"));
    assert!(like_match("hello", "%o"));
    assert!(like_match("hello", "%ell%"));
    assert!(!like_match("hello", "x%"));
}

#[test]
fn test_like_match_underscore() {
    assert!(like_match("hello", "_ello"));
    assert!(like_match("hello", "hell_"));
    assert!(like_match("hello", "h_ll_"));
    assert!(!like_match("hello", "_"));
    assert!(!like_match("hello", "______"));
}

#[test]
fn test_like_match_empty() {
    assert!(like_match("", ""));
    assert!(like_match("", "%"));
    assert!(!like_match("", "_"));
    assert!(!like_match("hello", ""));
}

// ---- New expression tests ----

#[test]
fn test_case_searched() {
    let schema = test_schema();
    let tuple = vec![Value::Integer(5), Value::Varchar("Alice".into())];
    // CASE WHEN id > 3 THEN 'big' ELSE 'small' END
    let expr = Expr::Case {
        operand: None,
        when_clauses: vec![(
            Expr::BinaryOp {
                left: Box::new(Expr::ColumnRef { table: None, column: "id".into() }),
                op: BinaryOperator::Gt,
                right: Box::new(Expr::Literal(LiteralValue::Integer(3))),
            },
            Expr::Literal(LiteralValue::String("big".into())),
        )],
        else_result: Some(Box::new(Expr::Literal(LiteralValue::String("small".into())))),
    };
    assert_eq!(
        run(&expr, &tuple, &schema).unwrap(),
        Value::Varchar("big".into())
    );
}

#[test]
fn test_case_simple() {
    let schema = test_schema();
    let tuple = vec![Value::Integer(2), Value::Varchar("Alice".into())];
    // CASE id WHEN 1 THEN 'one' WHEN 2 THEN 'two' ELSE 'other' END
    let expr = Expr::Case {
        operand: Some(Box::new(Expr::ColumnRef { table: None, column: "id".into() })),
        when_clauses: vec![
            (
                Expr::Literal(LiteralValue::Integer(1)),
                Expr::Literal(LiteralValue::String("one".into())),
            ),
            (
                Expr::Literal(LiteralValue::Integer(2)),
                Expr::Literal(LiteralValue::String("two".into())),
            ),
        ],
        else_result: Some(Box::new(Expr::Literal(LiteralValue::String("other".into())))),
    };
    assert_eq!(
        run(&expr, &tuple, &schema).unwrap(),
        Value::Varchar("two".into())
    );
}

#[test]
fn test_case_no_match_no_else() {
    let schema = test_schema();
    let tuple = vec![Value::Integer(99), Value::Varchar("Alice".into())];
    let expr = Expr::Case {
        operand: Some(Box::new(Expr::ColumnRef { table: None, column: "id".into() })),
        when_clauses: vec![(
            Expr::Literal(LiteralValue::Integer(1)),
            Expr::Literal(LiteralValue::String("one".into())),
        )],
        else_result: None,
    };
    assert_eq!(run(&expr, &tuple, &schema).unwrap(), Value::Null);
}

#[test]
fn test_cast_int_to_varchar() {
    let schema = test_schema();
    let tuple = vec![Value::Integer(42), Value::Varchar("Alice".into())];
    let expr = Expr::Cast {
        expr: Box::new(Expr::ColumnRef { table: None, column: "id".into() }),
        data_type: DataType::Varchar(50),
    };
    assert_eq!(
        run(&expr, &tuple, &schema).unwrap(),
        Value::Varchar("42".into())
    );
}

#[test]
fn test_cast_varchar_to_int() {
    let schema = test_schema();
    let tuple = vec![Value::Integer(1), Value::Varchar("123".into())];
    let expr = Expr::Cast {
        expr: Box::new(Expr::ColumnRef { table: None, column: "name".into() }),
        data_type: DataType::Integer,
    };
    assert_eq!(
        run(&expr, &tuple, &schema).unwrap(),
        Value::Integer(123)
    );
}

#[test]
fn test_cast_null() {
    let schema = test_schema();
    let tuple = vec![Value::Integer(1), Value::Null];
    let expr = Expr::Cast {
        expr: Box::new(Expr::ColumnRef { table: None, column: "name".into() }),
        data_type: DataType::Integer,
    };
    assert_eq!(run(&expr, &tuple, &schema).unwrap(), Value::Null);
}

#[test]
fn test_concat_operator() {
    let schema = test_schema();
    let tuple = vec![Value::Integer(1), Value::Varchar("Alice".into())];
    let expr = Expr::Concat {
        left: Box::new(Expr::Literal(LiteralValue::String("Hello ".into()))),
        right: Box::new(Expr::ColumnRef { table: None, column: "name".into() }),
    };
    assert_eq!(
        run(&expr, &tuple, &schema).unwrap(),
        Value::Varchar("Hello Alice".into())
    );
}

#[test]
fn test_concat_null() {
    let schema = test_schema();
    let tuple = vec![Value::Integer(1), Value::Null];
    let expr = Expr::Concat {
        left: Box::new(Expr::Literal(LiteralValue::String("Hello ".into()))),
        right: Box::new(Expr::ColumnRef { table: None, column: "name".into() }),
    };
    assert_eq!(run(&expr, &tuple, &schema).unwrap(), Value::Null);
}

#[test]
fn test_modulo() {
    let schema = test_schema();
    let tuple = vec![Value::Integer(10), Value::Varchar("x".into())];
    let expr = Expr::BinaryOp {
        left: Box::new(Expr::ColumnRef { table: None, column: "id".into() }),
        op: BinaryOperator::Modulo,
        right: Box::new(Expr::Literal(LiteralValue::Integer(3))),
    };
    assert_eq!(
        run(&expr, &tuple, &schema).unwrap(),
        Value::Integer(1)
    );
}

#[test]
fn test_modulo_by_zero() {
    let schema = test_schema();
    let tuple = vec![Value::Integer(10), Value::Varchar("x".into())];
    let expr = Expr::BinaryOp {
        left: Box::new(Expr::ColumnRef { table: None, column: "id".into() }),
        op: BinaryOperator::Modulo,
        right: Box::new(Expr::Literal(LiteralValue::Integer(0))),
    };
    assert!(run(&expr, &tuple, &schema).is_err());
}

#[test]
fn test_upper_lower() {
    let schema = test_schema();
    let tuple = vec![Value::Integer(1), Value::Varchar("Hello".into())];
    let upper_expr = Expr::Function {
        name: "UPPER".into(),
        args: vec![Expr::ColumnRef { table: None, column: "name".into() }],
        distinct: false,
    };
    assert_eq!(
        run(&upper_expr, &tuple, &schema).unwrap(),
        Value::Varchar("HELLO".into())
    );
    let lower_expr = Expr::Function {
        name: "LOWER".into(),
        args: vec![Expr::ColumnRef { table: None, column: "name".into() }],
        distinct: false,
    };
    assert_eq!(
        run(&lower_expr, &tuple, &schema).unwrap(),
        Value::Varchar("hello".into())
    );
}

#[test]
fn test_trim_functions() {
    let schema = test_schema();
    let tuple = vec![Value::Integer(1), Value::Varchar("  hi  ".into())];
    let trim = Expr::Function {
        name: "TRIM".into(),
        args: vec![Expr::ColumnRef { table: None, column: "name".into() }],
        distinct: false,
    };
    assert_eq!(
        run(&trim, &tuple, &schema).unwrap(),
        Value::Varchar("hi".into())
    );
    let ltrim = Expr::Function {
        name: "LTRIM".into(),
        args: vec![Expr::ColumnRef { table: None, column: "name".into() }],
        distinct: false,
    };
    assert_eq!(
        run(&ltrim, &tuple, &schema).unwrap(),
        Value::Varchar("hi  ".into())
    );
    let rtrim = Expr::Function {
        name: "RTRIM".into(),
        args: vec![Expr::ColumnRef { table: None, column: "name".into() }],
        distinct: false,
    };
    assert_eq!(
        run(&rtrim, &tuple, &schema).unwrap(),
        Value::Varchar("  hi".into())
    );
}

#[test]
fn test_length() {
    let schema = test_schema();
    let tuple = vec![Value::Integer(1), Value::Varchar("hello".into())];
    let expr = Expr::Function {
        name: "LENGTH".into(),
        args: vec![Expr::ColumnRef { table: None, column: "name".into() }],
        distinct: false,
    };
    assert_eq!(
        run(&expr, &tuple, &schema).unwrap(),
        Value::Integer(5)
    );
}

#[test]
fn test_substring() {
    let schema = test_schema();
    let tuple = vec![Value::Integer(1), Value::Varchar("hello world".into())];
    // SUBSTRING('hello world', 7, 5) -> 'world'
    let expr = Expr::Function {
        name: "SUBSTRING".into(),
        args: vec![
            Expr::ColumnRef { table: None, column: "name".into() },
            Expr::Literal(LiteralValue::Integer(7)),
            Expr::Literal(LiteralValue::Integer(5)),
        ],
        distinct: false,
    };
    assert_eq!(
        run(&expr, &tuple, &schema).unwrap(),
        Value::Varchar("world".into())
    );
}

#[test]
fn test_left_right() {
    let schema = test_schema();
    let tuple = vec![Value::Integer(1), Value::Varchar("hello".into())];
    let left_expr = Expr::Function {
        name: "LEFT".into(),
        args: vec![
            Expr::ColumnRef { table: None, column: "name".into() },
            Expr::Literal(LiteralValue::Integer(3)),
        ],
        distinct: false,
    };
    assert_eq!(
        run(&left_expr, &tuple, &schema).unwrap(),
        Value::Varchar("hel".into())
    );
    let right_expr = Expr::Function {
        name: "RIGHT".into(),
        args: vec![
            Expr::ColumnRef { table: None, column: "name".into() },
            Expr::Literal(LiteralValue::Integer(3)),
        ],
        distinct: false,
    };
    assert_eq!(
        run(&right_expr, &tuple, &schema).unwrap(),
        Value::Varchar("llo".into())
    );
}

#[test]
fn test_replace() {
    let schema = test_schema();
    let tuple = vec![Value::Integer(1), Value::Varchar("hello world".into())];
    let expr = Expr::Function {
        name: "REPLACE".into(),
        args: vec![
            Expr::ColumnRef { table: None, column: "name".into() },
            Expr::Literal(LiteralValue::String("world".into())),
            Expr::Literal(LiteralValue::String("rust".into())),
        ],
        distinct: false,
    };
    assert_eq!(
        run(&expr, &tuple, &schema).unwrap(),
        Value::Varchar("hello rust".into())
    );
}

#[test]
fn test_reverse() {
    let schema = test_schema();
    let tuple = vec![Value::Integer(1), Value::Varchar("hello".into())];
    let expr = Expr::Function {
        name: "REVERSE".into(),
        args: vec![Expr::ColumnRef { table: None, column: "name".into() }],
        distinct: false,
    };
    assert_eq!(
        run(&expr, &tuple, &schema).unwrap(),
        Value::Varchar("olleh".into())
    );
}

#[test]
fn test_lpad_rpad() {
    let schema = test_schema();
    let tuple = vec![Value::Integer(1), Value::Varchar("hi".into())];
    let lpad = Expr::Function {
        name: "LPAD".into(),
        args: vec![
            Expr::ColumnRef { table: None, column: "name".into() },
            Expr::Literal(LiteralValue::Integer(5)),
            Expr::Literal(LiteralValue::String("*".into())),
        ],
        distinct: false,
    };
    assert_eq!(
        run(&lpad, &tuple, &schema).unwrap(),
        Value::Varchar("***hi".into())
    );
    let rpad = Expr::Function {
        name: "RPAD".into(),
        args: vec![
            Expr::ColumnRef { table: None, column: "name".into() },
            Expr::Literal(LiteralValue::Integer(5)),
            Expr::Literal(LiteralValue::String("*".into())),
        ],
        distinct: false,
    };
    assert_eq!(
        run(&rpad, &tuple, &schema).unwrap(),
        Value::Varchar("hi***".into())
    );
}

#[test]
fn test_abs() {
    let schema = test_schema();
    let tuple = vec![Value::Integer(-5), Value::Varchar("x".into())];
    let expr = Expr::Function {
        name: "ABS".into(),
        args: vec![Expr::ColumnRef { table: None, column: "id".into() }],
        distinct: false,
    };
    assert_eq!(
        run(&expr, &tuple, &schema).unwrap(),
        Value::Integer(5)
    );
}

#[test]
fn test_round() {
    let schema = test_schema();
    let tuple = vec![Value::Integer(1), Value::Varchar("x".into())];
    let expr = Expr::Function {
        name: "ROUND".into(),
        args: vec![
            Expr::Literal(LiteralValue::Float(3.456f64.to_bits())),
            Expr::Literal(LiteralValue::Integer(2)),
        ],
        distinct: false,
    };
    if let Value::Float(bits) = run(&expr, &tuple, &schema).unwrap() {
        let f = f64::from_bits(bits);
        assert!((f - 3.46).abs() < 1e-10);
    } else {
        panic!("expected Float");
    }
}

#[test]
fn test_ceil_floor() {
    let schema = test_schema();
    let tuple = vec![Value::Integer(1), Value::Varchar("x".into())];
    let ceil = Expr::Function {
        name: "CEIL".into(),
        args: vec![Expr::Literal(LiteralValue::Float(3.2f64.to_bits()))],
        distinct: false,
    };
    assert_eq!(
        run(&ceil, &tuple, &schema).unwrap(),
        Value::Integer(4)
    );
    let floor = Expr::Function {
        name: "FLOOR".into(),
        args: vec![Expr::Literal(LiteralValue::Float(3.8f64.to_bits()))],
        distinct: false,
    };
    assert_eq!(
        run(&floor, &tuple, &schema).unwrap(),
        Value::Integer(3)
    );
}

#[test]
fn test_power_sqrt() {
    let schema = test_schema();
    let tuple = vec![Value::Integer(1), Value::Varchar("x".into())];
    let power = Expr::Function {
        name: "POWER".into(),
        args: vec![
            Expr::Literal(LiteralValue::Integer(2)),
            Expr::Literal(LiteralValue::Integer(3)),
        ],
        distinct: false,
    };
    assert_eq!(
        run(&power, &tuple, &schema).unwrap(),
        Value::Float(8.0f64.to_bits())
    );
    let sqrt = Expr::Function {
        name: "SQRT".into(),
        args: vec![Expr::Literal(LiteralValue::Integer(16))],
        distinct: false,
    };
    assert_eq!(
        run(&sqrt, &tuple, &schema).unwrap(),
        Value::Float(4.0f64.to_bits())
    );
}

#[test]
fn test_sign() {
    let schema = test_schema();
    let tuple = vec![Value::Integer(1), Value::Varchar("x".into())];
    let pos = Expr::Function {
        name: "SIGN".into(),
        args: vec![Expr::Literal(LiteralValue::Integer(42))],
        distinct: false,
    };
    assert_eq!(run(&pos, &tuple, &schema).unwrap(), Value::Integer(1));
    let neg = Expr::Function {
        name: "SIGN".into(),
        args: vec![Expr::Literal(LiteralValue::Integer(-7))],
        distinct: false,
    };
    assert_eq!(run(&neg, &tuple, &schema).unwrap(), Value::Integer(-1));
    let zero = Expr::Function {
        name: "SIGN".into(),
        args: vec![Expr::Literal(LiteralValue::Integer(0))],
        distinct: false,
    };
    assert_eq!(run(&zero, &tuple, &schema).unwrap(), Value::Integer(0));
}

#[test]
fn test_mod_function() {
    let schema = test_schema();
    let tuple = vec![Value::Integer(1), Value::Varchar("x".into())];
    let expr = Expr::Function {
        name: "MOD".into(),
        args: vec![
            Expr::Literal(LiteralValue::Integer(10)),
            Expr::Literal(LiteralValue::Integer(3)),
        ],
        distinct: false,
    };
    assert_eq!(
        run(&expr, &tuple, &schema).unwrap(),
        Value::Integer(1)
    );
}

#[test]
fn test_nullif() {
    let schema = test_schema();
    let tuple = vec![Value::Integer(1), Value::Varchar("x".into())];
    // NULLIF(1, 1) -> NULL
    let expr = Expr::Function {
        name: "NULLIF".into(),
        args: vec![
            Expr::Literal(LiteralValue::Integer(1)),
            Expr::Literal(LiteralValue::Integer(1)),
        ],
        distinct: false,
    };
    assert_eq!(run(&expr, &tuple, &schema).unwrap(), Value::Null);
    // NULLIF(1, 2) -> 1
    let expr2 = Expr::Function {
        name: "NULLIF".into(),
        args: vec![
            Expr::Literal(LiteralValue::Integer(1)),
            Expr::Literal(LiteralValue::Integer(2)),
        ],
        distinct: false,
    };
    assert_eq!(run(&expr2, &tuple, &schema).unwrap(), Value::Integer(1));
}

#[test]
fn test_greatest_least() {
    let schema = test_schema();
    let tuple = vec![Value::Integer(1), Value::Varchar("x".into())];
    let greatest = Expr::Function {
        name: "GREATEST".into(),
        args: vec![
            Expr::Literal(LiteralValue::Integer(3)),
            Expr::Literal(LiteralValue::Integer(1)),
            Expr::Literal(LiteralValue::Integer(7)),
            Expr::Literal(LiteralValue::Integer(2)),
        ],
        distinct: false,
    };
    assert_eq!(
        run(&greatest, &tuple, &schema).unwrap(),
        Value::Integer(7)
    );
    let least = Expr::Function {
        name: "LEAST".into(),
        args: vec![
            Expr::Literal(LiteralValue::Integer(3)),
            Expr::Literal(LiteralValue::Integer(1)),
            Expr::Literal(LiteralValue::Integer(7)),
            Expr::Literal(LiteralValue::Integer(2)),
        ],
        distinct: false,
    };
    assert_eq!(
        run(&least, &tuple, &schema).unwrap(),
        Value::Integer(1)
    );
}

#[test]
fn test_subquery_returns_error() {
    let schema = test_schema();
    let tuple = vec![Value::Integer(1), Value::Varchar("x".into())];
    
    let subq = Expr::Subquery(Box::new(Statement::Select {
        distinct: false,
        columns: vec![SelectColumn::Expr {
            expr: Expr::Literal(LiteralValue::Integer(1)),
            alias: None,
        }],
        from: FromClause::Table { name: "t".into(), alias: None },
        where_clause: None,
        group_by: vec![],
        having: None,
        order_by: vec![],
        limit: None,
        offset: None,
        ctes: vec![],
    }));
    let result = run(&subq, &tuple, &schema);
    assert!(result.is_err());
}

#[test]
fn test_cast_float_to_int() {
    let schema = test_schema();
    let tuple = vec![Value::Integer(1), Value::Varchar("x".into())];
    let expr = Expr::Cast {
        expr: Box::new(Expr::Literal(LiteralValue::Float(3.7f64.to_bits()))),
        data_type: DataType::Integer,
    };
    assert_eq!(
        run(&expr, &tuple, &schema).unwrap(),
        Value::Integer(3)
    );
}

#[test]
fn test_cast_int_to_float() {
    let schema = test_schema();
    let tuple = vec![Value::Integer(1), Value::Varchar("x".into())];
    let expr = Expr::Cast {
        expr: Box::new(Expr::Literal(LiteralValue::Integer(42))),
        data_type: DataType::Float,
    };
    assert_eq!(
        run(&expr, &tuple, &schema).unwrap(),
        Value::Float(42.0f64.to_bits())
    );
}

#[test]
fn test_cast_to_boolean() {
    let schema = test_schema();
    let tuple = vec![Value::Integer(1), Value::Varchar("x".into())];
    let expr = Expr::Cast {
        expr: Box::new(Expr::Literal(LiteralValue::Integer(0))),
        data_type: DataType::Boolean,
    };
    assert_eq!(
        run(&expr, &tuple, &schema).unwrap(),
        Value::Boolean(false)
    );
    let expr2 = Expr::Cast {
        expr: Box::new(Expr::Literal(LiteralValue::Integer(1))),
        data_type: DataType::Boolean,
    };
    assert_eq!(
        run(&expr2, &tuple, &schema).unwrap(),
        Value::Boolean(true)
    );
}

#[test]
fn errors_show_the_values() {
    let schema = test_schema();
    let row = [Value::Integer(1), Value::Varchar("a\"b".into())];
    let column = |name: &str| Expr::ColumnRef { table: None, column: name.into() };
    let one = || Expr::Literal(LiteralValue::Float(1f64.to_bits()));
    let pair = |left: Expr, op: BinaryOperator, right: Expr| Expr::BinaryOp {
        left: Box::new(left),
        op,
        right: Box::new(right),
    };
    let said = |e: &Expr| run(e, &row, &schema).unwrap_err();
    let execution = |s: &str| ForgeError::Execution(s.into());
    let host = Host::new(0, 0);
    assert_eq!(
        eval_to_bool(&column("name"), &row, &schema, &host).unwrap_err(),
        execution("expected boolean, got Varchar(\"a\\\"b\")")
    );
    assert_eq!(
        said(&pair(column("name"), BinaryOperator::Lt, one())),
        execution("cannot compare Varchar(\"a\\\"b\") with Float(1.0)")
    );
    assert_eq!(
        said(&pair(column("name"), BinaryOperator::Modulo, one())),
        execution("cannot compute modulo of Varchar(\"a\\\"b\") and Float(1.0)")
    );
}
