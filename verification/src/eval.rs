//! Evaluation of expressions.
use crate::ast::{BinaryOperator, Expr, LiteralValue, UnaryOperator};
use crate::builtins::{
    apply_binary, apply_round, apply_ternary, apply_unary, binary, builtin, builtin_of, cut,
    first_index, make_uuid, midnight, moment, moment_value, round_to, substring, ternary, unary,
    uuid_text, wrap32, wrap_i32, BinaryFn, Builtin,
};
use crate::bytes::find_key;
use crate::cast::{cast, eval_cast};
use crate::compare::{
    coerced_equal, coerced_order, equal_coerced, eval_modulo, modulo, order_coerced,
};
use crate::dates::div_floor;
use crate::debug_text::{complain_of_pair, complain_of_value, pair_complaint, value_complaint};
use crate::error::{execution, execution_on, outcome, ErrorView, ForgeError, Result};
use crate::float;
use crate::float::float_neg;
use crate::host::{Host, HostView};
use crate::like::{like, like_match};
use crate::order::Order;
use crate::schema::{name_from, Schema};
use crate::text::{
    chars_of, eq_ignore_ascii_case, int_text, rfind, rfind_from, same_name, show_u64, string_of,
    upper_text,
};
use crate::types::{Value, ValueView};
use crate::values::{
    apply_arith, arith, show, sort_key, to_tribool, tribool, value_int, value_text, value_to_i64,
    Arith,
};
use vstd::prelude::*;

verus! {

// ---------------------------------------------------------------------------
// Columns and literals
// ---------------------------------------------------------------------------

/// What follows the last point of a column name, if there is a point.
pub open spec fn after_point(name: Seq<char>) -> Option<Seq<char>> {
    match rfind_from(name, seq!['.'], name.len() as int) {
        Some(k) => Some(name.skip(k + 1)),
        None => None,
    }
}

/// The first column, from `i` on, whose name is `column` behind its last point.
pub open spec fn suffix_from(names: Seq<Seq<char>>, column: Seq<char>, i: int) -> Option<int>
    decreases names.len() - i,
{
    if i < 0 || i >= names.len() {
        None
    } else {
        match after_point(names[i]) {
            Some(s) => if same_name(s, column) {
                Some(i)
            } else {
                suffix_from(names, column, i + 1)
            },
            None => suffix_from(names, column, i + 1),
        }
    }
}

/// The column that a reference means: the one with that name, else the one with the name
/// qualified by the table, else the first with that name behind its last point.
pub open spec fn resolve(
    names: Seq<Seq<char>>,
    table: Option<Seq<char>>,
    column: Seq<char>,
) -> Option<int> {
    match name_from(names, column, 0) {
        Some(i) => Some(i),
        None => match table {
            Some(t) => match name_from(names, t + seq!['.'] + column, 0) {
                Some(i) => Some(i),
                None => suffix_from(names, column, 0),
            },
            None => suffix_from(names, column, 0),
        },
    }
}

fn after_last_point(name: &str) -> (r: Option<String>)
    ensures
        r.deep_view() == after_point(name@),
{
    let c = chars_of(name);
    let mut dot: Vec<char> = Vec::new();
    dot.push('.');
    assert(dot@ == seq!['.']);
    match rfind(&c, &dot) {
        Some(k) => {
            assert(c@.subrange(k + 1, c.len() as int) == name@.skip(k + 1));
            Some(string_of(&c, k + 1, c.len()))
        },
        None => None,
    }
}

/// The column that a reference means.
pub fn resolve_column(schema: &Schema, table: &Option<String>, column: &str) -> (r: Option<usize>)
    ensures
        r is Some == resolve(schema.names(), table.deep_view(), column@) is Some,
        r is Some ==> resolve(schema.names(), table.deep_view(), column@) == Some(r->0 as int)
            && r->0 < schema.columns.len(),
{
    if let Some(i) = schema.get_column(column) {
        return Some(i);
    }
    if let Some(t) = table {
        let mut qualified = t.clone();
        qualified.push('.');
        qualified.append(column);
        assert(qualified@ == t@ + seq!['.'] + column@);
        if let Some(i) = schema.get_column(qualified.as_str()) {
            return Some(i);
        }
    }
    let ghost names = schema.names();
    let mut i: usize = 0;
    while i < schema.columns.len()
        invariant
            0 <= i <= schema.columns.len(),
            names == schema.names(),
            suffix_from(names, column@, 0) == suffix_from(names, column@, i as int),
            resolve(names, table.deep_view(), column@) == suffix_from(names, column@, 0),
        decreases schema.columns.len() - i,
    {
        if let Some(s) = after_last_point(schema.columns[i].name.as_str()) {
            if eq_ignore_ascii_case(s.as_str(), column) {
                return Some(i);
            }
        }
        i += 1;
    }
    None
}

/// The value of a literal: an integer is narrow where it fits.
pub open spec fn literal(l: LiteralValue) -> ValueView {
    match l {
        LiteralValue::Integer(n) => if i32::MIN <= n <= i32::MAX {
            ValueView::Integer(n as i32)
        } else {
            ValueView::BigInt(n)
        },
        LiteralValue::Float(f) => ValueView::Float(f),
        LiteralValue::String(s) => ValueView::Varchar(s@),
        LiteralValue::Boolean(b) => ValueView::Boolean(b),
        LiteralValue::Null => ValueView::Null,
    }
}

/// The value of a literal.
pub fn literal_to_value(lit: &LiteralValue) -> (r: Value)
    ensures
        r@ == literal(*lit),
{
    match lit {
        LiteralValue::Integer(n) => if -0x8000_0000 <= *n && *n <= 0x7fff_ffff {
            Value::Integer(*n as i32)
        } else {
            Value::BigInt(*n)
        },
        LiteralValue::Float(f) => Value::Float(*f),
        LiteralValue::String(s) => Value::Varchar(s.clone()),
        LiteralValue::Boolean(b) => Value::Boolean(*b),
        LiteralValue::Null => Value::Null,
    }
}

/// The value that a row holds in a column.
pub open spec fn cell(row: Seq<ValueView>, idx: Option<int>, column: Seq<char>) -> std::result::Result<
    ValueView,
    ErrorView,
> {
    match idx {
        None => Err(ErrorView::Execution("column '"@ + column + "' not found in schema"@)),
        Some(i) => if i < row.len() {
            Ok(row[i])
        } else {
            Err(
                ErrorView::Execution(
                    "column index "@ + int_text(i) + " out of bounds (tuple has "@ + int_text(
                        row.len() as int,
                    ) + " values)"@,
                ),
            )
        },
    }
}

fn read_cell(tuple: &[Value], idx: Option<usize>, column: &str) -> (r: Result<Value>)
    ensures
        outcome(r) == cell(
            tuple.deep_view(),
            match idx {
                Some(i) => Some(i as int),
                None => None,
            },
            column@,
        ),
{
    match idx {
        None => execution_on("column '", column, "' not found in schema"),
        Some(i) => if i < tuple.len() {
            Ok(tuple[i].clone())
        } else {
            let mut s = "column index ".to_owned();
            s.append(show_u64(i as u64).as_str());
            s.append(" out of bounds (tuple has ");
            s.append(show_u64(tuple.len() as u64).as_str());
            s.append(" values)");
            Err(ForgeError::Execution(s))
        },
    }
}

// ---------------------------------------------------------------------------
// Operators
// ---------------------------------------------------------------------------

/// Whether a comparison operator holds for an order.
pub open spec fn holds(op: BinaryOperator, o: Order) -> bool {
    match op {
        BinaryOperator::Eq => o == Order::Equal,
        BinaryOperator::NotEq => o != Order::Equal,
        BinaryOperator::Lt => o == Order::Less,
        BinaryOperator::LtEq => o != Order::Greater,
        BinaryOperator::Gt => o == Order::Greater,
        _ => o != Order::Less,
    }
}

/// The order of two values, as they stand or else once they are coerced.
pub open spec fn any_order(l: ValueView, r: ValueView, h: HostView) -> std::result::Result<
    Order,
    ErrorView,
> {
    match l.compare(r) {
        Some(o) => Ok(o),
        None => match coerced_order(l, r, h) {
            Err(e) => Err(e),
            Ok(Some(o)) => Ok(o),
            Ok(None) => Err(pair_complaint("cannot compare "@, l, " with "@, r, h)),
        },
    }
}

fn order_any(l: &Value, r: &Value, host: &Host) -> (o: Result<Order>)
    ensures
        outcome(o) == any_order(l@, r@, host@),
{
    match l.compare(r) {
        Some(o) => Ok(o),
        None => match order_coerced(l, r, host)? {
            Some(o) => Ok(o),
            None => complain_of_pair("cannot compare ", l, " with ", r, host),
        },
    }
}

/// AND in three-valued logic: false decides, else NULL does.
pub open spec fn and3(l: Option<bool>, r: Option<bool>) -> ValueView {
    if l == Some(false) || r == Some(false) {
        ValueView::Boolean(false)
    } else if l == Some(true) && r == Some(true) {
        ValueView::Boolean(true)
    } else {
        ValueView::Null
    }
}

/// OR in three-valued logic: true decides, else NULL does.
pub open spec fn or3(l: Option<bool>, r: Option<bool>) -> ValueView {
    if l == Some(true) || r == Some(true) {
        ValueView::Boolean(true)
    } else if l == Some(false) && r == Some(false) {
        ValueView::Boolean(false)
    } else {
        ValueView::Null
    }
}

/// A binary operator on two values.
pub open spec fn binary_op(
    l: ValueView,
    op: BinaryOperator,
    r: ValueView,
    h: HostView,
) -> std::result::Result<ValueView, ErrorView> {
    match op {
        BinaryOperator::Eq
        | BinaryOperator::NotEq
        | BinaryOperator::Lt
        | BinaryOperator::LtEq
        | BinaryOperator::Gt
        | BinaryOperator::GtEq => if l.is_null() || r.is_null() {
            Ok(ValueView::Null)
        } else {
            match any_order(l, r, h) {
                Err(e) => Err(e),
                Ok(o) => Ok(ValueView::Boolean(holds(op, o))),
            }
        },
        BinaryOperator::And => Ok(and3(tribool(l), tribool(r))),
        BinaryOperator::Or => Ok(or3(tribool(l), tribool(r))),
        BinaryOperator::Add => arith(Arith::Plus, l, r, h),
        BinaryOperator::Sub => arith(Arith::Minus, l, r, h),
        BinaryOperator::Mul => arith(Arith::Times, l, r, h),
        BinaryOperator::Div => arith(Arith::Over, l, r, h),
        BinaryOperator::Modulo => if l.is_null() || r.is_null() {
            Ok(ValueView::Null)
        } else {
            modulo(l, r, h)
        },
    }
}

/// Evaluate a binary operation on two already-computed values.
pub fn eval_binary_op_values(left: &Value, op: &BinaryOperator, right: &Value, host: &Host) -> (r:
    Result<Value>)
    ensures
        outcome(r) == binary_op(left@, *op, right@, host@),
{
    match op {
        BinaryOperator::Eq
        | BinaryOperator::NotEq
        | BinaryOperator::Lt
        | BinaryOperator::LtEq
        | BinaryOperator::Gt
        | BinaryOperator::GtEq => {
            if left.is_null() || right.is_null() {
                return Ok(Value::Null);
            }
            let o = order_any(left, right, host)?;
            let result: bool = match op {
                BinaryOperator::Eq => o == Order::Equal,
                BinaryOperator::NotEq => o != Order::Equal,
                BinaryOperator::Lt => o == Order::Less,
                BinaryOperator::LtEq => o != Order::Greater,
                BinaryOperator::Gt => o == Order::Greater,
                _ => o != Order::Less,
            };
            Ok(Value::Boolean(result))
        },
        BinaryOperator::And => Ok(
            match (to_tribool(left), to_tribool(right)) {
                (Some(false), _) => Value::Boolean(false),
                (_, Some(false)) => Value::Boolean(false),
                (Some(true), Some(true)) => Value::Boolean(true),
                _ => Value::Null,
            },
        ),
        BinaryOperator::Or => Ok(
            match (to_tribool(left), to_tribool(right)) {
                (Some(true), _) => Value::Boolean(true),
                (_, Some(true)) => Value::Boolean(true),
                (Some(false), Some(false)) => Value::Boolean(false),
                _ => Value::Null,
            },
        ),
        BinaryOperator::Add => apply_arith(Arith::Plus, left, right, host),
        BinaryOperator::Sub => apply_arith(Arith::Minus, left, right, host),
        BinaryOperator::Mul => apply_arith(Arith::Times, left, right, host),
        BinaryOperator::Div => apply_arith(Arith::Over, left, right, host),
        BinaryOperator::Modulo => {
            if left.is_null() || right.is_null() {
                return Ok(Value::Null);
            }
            eval_modulo(left, right, host)
        },
    }
}

/// A unary operator on a value. The negative of an integer must be within its range.
pub open spec fn unary_op(op: UnaryOperator, v: ValueView) -> std::result::Result<
    ValueView,
    ErrorView,
> {
    match op {
        UnaryOperator::Not => match v {
            ValueView::Boolean(b) => Ok(ValueView::Boolean(!b)),
            ValueView::Null => Ok(ValueView::Null),
            _ => Err(ErrorView::Execution("NOT requires boolean"@)),
        },
        UnaryOperator::Neg => match v {
            ValueView::Integer(n) => if n == i32::MIN {
                Err(ErrorView::Execution("integer out of range"@))
            } else {
                Ok(ValueView::Integer((-n) as i32))
            },
            ValueView::BigInt(n) => if n == i64::MIN {
                Err(ErrorView::Execution("integer out of range"@))
            } else {
                Ok(ValueView::BigInt((-n) as i64))
            },
            ValueView::Float(f) => Ok(ValueView::Float(float_neg(f))),
            ValueView::Null => Ok(ValueView::Null),
            _ => Err(ErrorView::Execution("negation requires number"@)),
        },
    }
}

/// A unary operator on a value.
pub fn apply_unary_op(op: &UnaryOperator, v: &Value) -> (r: Result<Value>)
    ensures
        outcome(r) == unary_op(*op, v@),
{
    match op {
        UnaryOperator::Not => match v {
            Value::Boolean(b) => Ok(Value::Boolean(!*b)),
            Value::Null => Ok(Value::Null),
            _ => execution("NOT requires boolean"),
        },
        UnaryOperator::Neg => match v {
            Value::Integer(n) => if *n == i32::MIN {
                execution("integer out of range")
            } else {
                Ok(Value::Integer(-*n))
            },
            Value::BigInt(n) => if *n == i64::MIN {
                execution("integer out of range")
            } else {
                Ok(Value::BigInt(-*n))
            },
            Value::Float(f) => Ok(Value::Float(float::neg(*f))),
            Value::Null => Ok(Value::Null),
            _ => execution("negation requires number"),
        },
    }
}

/// LIKE on two values, or its opposite.
pub open spec fn like_op(v: ValueView, p: ValueView, negated: bool) -> std::result::Result<
    ValueView,
    ErrorView,
> {
    if v.is_null() || p.is_null() {
        Ok(ValueView::Null)
    } else {
        match (v, p) {
            (ValueView::Varchar(s), ValueView::Varchar(t)) => Ok(
                ValueView::Boolean(like(s, t) != negated),
            ),
            _ => if negated {
                Err(ErrorView::Execution("NOT LIKE requires string operands"@))
            } else {
                Err(ErrorView::Execution("LIKE requires string operands"@))
            },
        }
    }
}

/// LIKE on two values, or its opposite.
pub fn apply_like(v: &Value, p: &Value, negated: bool) -> (r: Result<Value>)
    ensures
        outcome(r) == like_op(v@, p@, negated),
{
    if v.is_null() || p.is_null() {
        return Ok(Value::Null);
    }
    match (v, p) {
        (Value::Varchar(s), Value::Varchar(t)) => Ok(
            Value::Boolean(like_match(s.as_str(), t.as_str()) != negated),
        ),
        _ => if negated {
            execution("NOT LIKE requires string operands")
        } else {
            execution("LIKE requires string operands")
        },
    }
}

/// Whether a value lies between two others, bounds included.
pub open spec fn between(v: ValueView, lo: ValueView, hi: ValueView, h: HostView) -> std::result::Result<
    ValueView,
    ErrorView,
> {
    if v.is_null() || lo.is_null() || hi.is_null() {
        Ok(ValueView::Null)
    } else {
        match coerced_order(v, lo, h) {
            Err(e) => Err(e),
            Ok(a) => match coerced_order(v, hi, h) {
                Err(e) => Err(e),
                Ok(b) => Ok(
                    ValueView::Boolean(
                        (a == Some(Order::Greater) || a == Some(Order::Equal)) && (b == Some(
                            Order::Less,
                        ) || b == Some(Order::Equal)),
                    ),
                ),
            },
        }
    }
}

/// Whether a value lies between two others, bounds included.
pub fn apply_between(v: &Value, lo: &Value, hi: &Value, host: &Host) -> (r: Result<Value>)
    ensures
        outcome(r) == between(v@, lo@, hi@, host@),
{
    if v.is_null() || lo.is_null() || hi.is_null() {
        return Ok(Value::Null);
    }
    let a = order_coerced(v, lo, host)?;
    let b = order_coerced(v, hi, host)?;
    let above: bool = match a {
        Some(Order::Greater) => true,
        Some(Order::Equal) => true,
        _ => false,
    };
    let below: bool = match b {
        Some(Order::Less) => true,
        Some(Order::Equal) => true,
        _ => false,
    };
    Ok(Value::Boolean(above && below))
}

/// Whether a value counts as true in a condition: NULL does not.
pub open spec fn truth(v: ValueView, h: HostView) -> std::result::Result<bool, ErrorView> {
    match v {
        ValueView::Boolean(b) => Ok(b),
        ValueView::Null => Ok(false),
        ValueView::Integer(n) => Ok(n != 0),
        ValueView::BigInt(n) => Ok(n != 0),
        _ => Err(value_complaint("expected boolean, got "@, v, h)),
    }
}

/// Whether a value counts as true in a condition.
pub fn value_truth(v: &Value, host: &Host) -> (r: Result<bool>)
    ensures
        outcome(r) == truth(v@, host@),
{
    match v {
        Value::Boolean(b) => Ok(*b),
        Value::Null => Ok(false),
        Value::Integer(n) => Ok(*n != 0),
        Value::BigInt(n) => Ok(*n != 0),
        _ => complain_of_value("expected boolean, got ", v, host),
    }
}

// ---------------------------------------------------------------------------
// Expressions
// ---------------------------------------------------------------------------

/// The value of an expression on a row whose columns have the given names.
pub open spec fn eval(e: Expr, row: Seq<ValueView>, names: Seq<Seq<char>>, h: HostView) -> std::result::Result<
    ValueView,
    ErrorView,
>
    decreases e, 0int,
{
    match e {
        Expr::Literal(l) => Ok(literal(l)),
        Expr::ColumnRef { table, column } => cell(
            row,
            resolve(names, table.deep_view(), column@),
            column@,
        ),
        Expr::BinaryOp { left, op, right } => match eval(*left, row, names, h) {
            Err(x) => Err(x),
            Ok(l) => match eval(*right, row, names, h) {
                Err(x) => Err(x),
                Ok(r) => binary_op(l, op, r, h),
            },
        },
        Expr::UnaryOp { op, expr } => match eval(*expr, row, names, h) {
            Err(x) => Err(x),
            Ok(v) => unary_op(op, v),
        },
        Expr::IsNull(inner) => match eval(*inner, row, names, h) {
            Err(x) => Err(x),
            Ok(v) => Ok(ValueView::Boolean(v.is_null())),
        },
        Expr::IsNotNull(inner) => match eval(*inner, row, names, h) {
            Err(x) => Err(x),
            Ok(v) => Ok(ValueView::Boolean(!v.is_null())),
        },
        Expr::Function { name, args, distinct } => eval_call(name@, args, row, names, h),
        Expr::Like { expr, pattern } => match eval(*expr, row, names, h) {
            Err(x) => Err(x),
            Ok(v) => match eval(*pattern, row, names, h) {
                Err(x) => Err(x),
                Ok(p) => like_op(v, p, false),
            },
        },
        Expr::NotLike { expr, pattern } => match eval(*expr, row, names, h) {
            Err(x) => Err(x),
            Ok(v) => match eval(*pattern, row, names, h) {
                Err(x) => Err(x),
                Ok(p) => like_op(v, p, true),
            },
        },
        Expr::InValues { expr, values, keys, negated } => match eval(*expr, row, names, h) {
            Err(x) => Err(x),
            Ok(v) => if v.is_null() {
                Ok(ValueView::Null)
            } else {
                Ok(ValueView::Boolean(keys.deep_view().contains(sort_key(v)) != negated))
            },
        },
        Expr::In { expr, list } => match eval(*expr, row, names, h) {
            Err(x) => Err(x),
            Ok(v) => if v.is_null() {
                Ok(ValueView::Null)
            } else {
                match listed(v, list, 0, row, names, h) {
                    Err(x) => Err(x),
                    Ok(found) => Ok(ValueView::Boolean(found)),
                }
            },
        },
        Expr::NotIn { expr, list } => match eval(*expr, row, names, h) {
            Err(x) => Err(x),
            Ok(v) => if v.is_null() {
                Ok(ValueView::Null)
            } else {
                match listed(v, list, 0, row, names, h) {
                    Err(x) => Err(x),
                    Ok(found) => Ok(ValueView::Boolean(!found)),
                }
            },
        },
        Expr::Between { expr, low, high } => match eval(*expr, row, names, h) {
            Err(x) => Err(x),
            Ok(v) => match eval(*low, row, names, h) {
                Err(x) => Err(x),
                Ok(lo) => match eval(*high, row, names, h) {
                    Err(x) => Err(x),
                    Ok(hi) => between(v, lo, hi, h),
                },
            },
        },
        Expr::Case { operand, when_clauses, else_result } => {
            let chosen = match operand {
                Some(op) => match eval(*op, row, names, h) {
                    Err(x) => Err(x),
                    Ok(v) => chosen_branch(Some(v), when_clauses, 0, row, names, h),
                },
                None => chosen_branch(None, when_clauses, 0, row, names, h),
            };
            match chosen {
                Err(x) => Err(x),
                Ok(Some(v)) => Ok(v),
                Ok(None) => match else_result {
                    Some(els) => eval(*els, row, names, h),
                    None => Ok(ValueView::Null),
                },
            }
        },
        Expr::Subquery(_) => Err(ErrorView::Execution("subqueries evaluated at executor level"@)),
        Expr::InSubquery { expr, subquery, negated } => Err(
            ErrorView::Execution("subqueries evaluated at executor level"@),
        ),
        Expr::Exists { subquery, negated } => Err(
            ErrorView::Execution("subqueries evaluated at executor level"@),
        ),
        Expr::Cast { expr, data_type } => match eval(*expr, row, names, h) {
            Err(x) => Err(x),
            Ok(v) => if v.is_null() {
                Ok(ValueView::Null)
            } else {
                cast(v, data_type, h)
            },
        },
        Expr::WindowFunction { name, args, partition_by, order_by } => Ok(ValueView::Null),
        Expr::Concat { left, right } => match eval(*left, row, names, h) {
            Err(x) => Err(x),
            Ok(l) => match eval(*right, row, names, h) {
                Err(x) => Err(x),
                Ok(r) => if l.is_null() || r.is_null() {
                    Ok(ValueView::Null)
                } else {
                    match value_text(l, h) {
                        Err(x) => Err(x),
                        Ok(s) => match value_text(r, h) {
                            Err(x) => Err(x),
                            Ok(t) => Ok(ValueView::Varchar(s + t)),
                        },
                    }
                },
            },
        },
    }
}

/// The value of a function call.
pub open spec fn eval_call(
    name: Seq<char>,
    args: Vec<Expr>,
    row: Seq<ValueView>,
    names: Seq<Seq<char>>,
    h: HostView,
) -> std::result::Result<ValueView, ErrorView>
    decreases args, args.len() + 2,
{
    match builtin(upper_text(name)) {
        Builtin::Unary(f) => if args.len() == 0 {
            Ok(ValueView::Null)
        } else {
            match eval(args[0], row, names, h) {
                Err(x) => Err(x),
                Ok(v) => unary(f, v, h),
            }
        },
        Builtin::Binary(f) => if args.len() < 2 {
            if f == BinaryFn::Contains || f == BinaryFn::FreeText {
                Ok(ValueView::Boolean(false))
            } else {
                Ok(ValueView::Null)
            }
        } else {
            match eval(args[0], row, names, h) {
                Err(x) => Err(x),
                Ok(a) => match eval(args[1], row, names, h) {
                    Err(x) => Err(x),
                    Ok(b) => binary(f, a, b, h),
                },
            }
        },
        Builtin::Ternary(f) => if args.len() < 3 {
            Ok(ValueView::Null)
        } else {
            match eval(args[0], row, names, h) {
                Err(x) => Err(x),
                Ok(a) => match eval(args[1], row, names, h) {
                    Err(x) => Err(x),
                    Ok(b) => match eval(args[2], row, names, h) {
                        Err(x) => Err(x),
                        Ok(c) => ternary(f, a, b, c, h),
                    },
                },
            }
        },
        Builtin::Substring => eval_substring(args, row, names, h),
        Builtin::Round => eval_round(args, row, names, h),
        Builtin::If => if args.len() < 3 {
            Ok(ValueView::Null)
        } else {
            match eval(args[0], row, names, h) {
                Err(x) => Err(x),
                Ok(c) => match truth(c, h) {
                    Err(x) => Err(x),
                    Ok(b) => if b {
                        eval(args[1], row, names, h)
                    } else {
                        eval(args[2], row, names, h)
                    },
                },
            }
        },
        Builtin::Coalesce => first_known(args, 0, row, names, h),
        Builtin::Concat => concat_from(args, 0, Seq::empty(), row, names, h),
        Builtin::Greatest => extreme(args, Order::Less, row, names, h),
        Builtin::Least => extreme(args, Order::Greater, row, names, h),
        Builtin::Now => Ok(ValueView::DateTime(h.now)),
        Builtin::CurrentDate => moment(midnight(h.now as int)),
        Builtin::NewId => Ok(ValueView::Uuid(uuid_text(h.nanos as int))),
        Builtin::Aggregate => Err(
            ErrorView::Execution(
                "aggregate function '"@ + name + "' used outside aggregate context"@,
            ),
        ),
        Builtin::Unknown => Ok(ValueView::Null),
    }
}

/// SUBSTRING(text, start[, length]). The length is looked at only where there is text left.
pub open spec fn eval_substring(
    args: Vec<Expr>,
    row: Seq<ValueView>,
    names: Seq<Seq<char>>,
    h: HostView,
) -> std::result::Result<ValueView, ErrorView>
    decreases args, args.len() + 1,
{
    if args.len() < 2 {
        Ok(ValueView::Null)
    } else {
        match eval(args[0], row, names, h) {
            Err(x) => Err(x),
            Ok(v) => match eval(args[1], row, names, h) {
                Err(x) => Err(x),
                Ok(start) => if v.is_null() || start.is_null() {
                    Ok(ValueView::Null)
                } else {
                    match value_text(v, h) {
                        Err(x) => Err(x),
                        Ok(s) => {
                            let from = first_index(value_int(start));
                            if from >= s.len() {
                                Ok(ValueView::Varchar(Seq::empty()))
                            } else if args.len() < 3 {
                                Ok(ValueView::Varchar(cut(s, from, None)))
                            } else {
                                match eval(args[2], row, names, h) {
                                    Err(x) => Err(x),
                                    Ok(n) => if n.is_null() {
                                        Ok(ValueView::Null)
                                    } else {
                                        Ok(ValueView::Varchar(cut(s, from, Some(value_int(n)))))
                                    },
                                }
                            }
                        },
                    }
                },
            },
        }
    }
}

/// ROUND(number[, digits]).
pub open spec fn eval_round(
    args: Vec<Expr>,
    row: Seq<ValueView>,
    names: Seq<Seq<char>>,
    h: HostView,
) -> std::result::Result<ValueView, ErrorView>
    decreases args, args.len() + 1,
{
    if args.len() == 0 {
        Ok(ValueView::Null)
    } else {
        match eval(args[0], row, names, h) {
            Err(x) => Err(x),
            Ok(v) => if v.is_null() {
                Ok(ValueView::Null)
            } else if args.len() < 2 {
                round_to(v, 0, h)
            } else {
                match eval(args[1], row, names, h) {
                    Err(x) => Err(x),
                    Ok(d) => if d.is_null() {
                        Ok(ValueView::Null)
                    } else {
                        round_to(v, wrap32(value_int(d)), h)
                    },
                }
            },
        }
    }
}

/// Whether a value equals one of the listed expressions, from `i` on. The first one that is
/// equal ends the search.
pub open spec fn listed(
    v: ValueView,
    list: Vec<Expr>,
    i: int,
    row: Seq<ValueView>,
    names: Seq<Seq<char>>,
    h: HostView,
) -> std::result::Result<bool, ErrorView>
    decreases list, list.len() - i,
{
    if i < 0 || i >= list.len() {
        Ok(false)
    } else {
        match eval(list[i], row, names, h) {
            Err(x) => Err(x),
            Ok(w) => match coerced_equal(v, w, h) {
                Err(x) => Err(x),
                Ok(same) => if same {
                    Ok(true)
                } else {
                    listed(v, list, i + 1, row, names, h)
                },
            },
        }
    }
}

/// The first value that is not NULL, from `i` on.
pub open spec fn first_known(
    args: Vec<Expr>,
    i: int,
    row: Seq<ValueView>,
    names: Seq<Seq<char>>,
    h: HostView,
) -> std::result::Result<ValueView, ErrorView>
    decreases args, args.len() - i,
{
    if i < 0 || i >= args.len() {
        Ok(ValueView::Null)
    } else {
        match eval(args[i], row, names, h) {
            Err(x) => Err(x),
            Ok(v) => if v.is_null() {
                first_known(args, i + 1, row, names, h)
            } else {
                Ok(v)
            },
        }
    }
}

/// The texts of the arguments from `i` on behind `acc`; NULL, if one of them is.
pub open spec fn concat_from(
    args: Vec<Expr>,
    i: int,
    acc: Seq<char>,
    row: Seq<ValueView>,
    names: Seq<Seq<char>>,
    h: HostView,
) -> std::result::Result<ValueView, ErrorView>
    decreases args, args.len() - i,
{
    if i < 0 || i >= args.len() {
        Ok(ValueView::Varchar(acc))
    } else {
        match eval(args[i], row, names, h) {
            Err(x) => Err(x),
            Ok(v) => if v.is_null() {
                Ok(ValueView::Null)
            } else {
                match value_text(v, h) {
                    Err(x) => Err(x),
                    Ok(s) => concat_from(args, i + 1, acc + s, row, names, h),
                }
            },
        }
    }
}

/// The extreme of the arguments: a later value takes over where the best so far stands to it
/// in the order `over`. NULL among them makes it NULL, and so does a value that does not
/// compare with the best so far.
pub open spec fn extreme(
    args: Vec<Expr>,
    over: Order,
    row: Seq<ValueView>,
    names: Seq<Seq<char>>,
    h: HostView,
) -> std::result::Result<ValueView, ErrorView>
    decreases args, args.len() + 1,
{
    if args.len() == 0 {
        Ok(ValueView::Null)
    } else {
        match eval(args[0], row, names, h) {
            Err(x) => Err(x),
            Ok(v) => if v.is_null() {
                Ok(ValueView::Null)
            } else {
                extreme_from(args, 1, v, over, row, names, h)
            },
        }
    }
}

/// The extreme of `best` and the arguments from `i` on.
pub open spec fn extreme_from(
    args: Vec<Expr>,
    i: int,
    best: ValueView,
    over: Order,
    row: Seq<ValueView>,
    names: Seq<Seq<char>>,
    h: HostView,
) -> std::result::Result<ValueView, ErrorView>
    decreases args, args.len() - i,
{
    if i < 0 || i >= args.len() {
        Ok(best)
    } else {
        match eval(args[i], row, names, h) {
            Err(x) => Err(x),
            Ok(v) => if v.is_null() {
                Ok(ValueView::Null)
            } else {
                match coerced_order(best, v, h) {
                    Err(x) => Err(x),
                    Ok(None) => Ok(ValueView::Null),
                    Ok(Some(o)) => if o == over {
                        extreme_from(args, i + 1, v, over, row, names, h)
                    } else {
                        extreme_from(args, i + 1, best, over, row, names, h)
                    },
                }
            },
        }
    }
}

/// The value of the first branch, from `i` on, that a CASE takes: the one whose condition
/// equals the operand, or, without an operand, counts as true. None, if no branch is taken.
pub open spec fn chosen_branch(
    operand: Option<ValueView>,
    whens: Vec<(Expr, Expr)>,
    i: int,
    row: Seq<ValueView>,
    names: Seq<Seq<char>>,
    h: HostView,
) -> std::result::Result<Option<ValueView>, ErrorView>
    decreases whens, whens.len() - i,
{
    if i < 0 || i >= whens.len() {
        Ok(None)
    } else {
        match eval(whens[i].0, row, names, h) {
            Err(x) => Err(x),
            Ok(c) => {
                let taken = match operand {
                    Some(v) => coerced_equal(v, c, h),
                    None => truth(c, h),
                };
                match taken {
                    Err(x) => Err(x),
                    Ok(b) => if b {
                        match eval(whens[i].1, row, names, h) {
                            Err(x) => Err(x),
                            Ok(v) => Ok(Some(v)),
                        }
                    } else {
                        chosen_branch(operand, whens, i + 1, row, names, h)
                    },
                }
            },
        }
    }
}

/// Whether an expression holds on a row, as a condition.
pub open spec fn eval_bool(e: Expr, row: Seq<ValueView>, names: Seq<Seq<char>>, h: HostView) -> std::result::Result<
    bool,
    ErrorView,
> {
    match eval(e, row, names, h) {
        Err(x) => Err(x),
        Ok(v) => truth(v, h),
    }
}

/// Evaluate an expression against a tuple with the given schema.
pub fn evaluate(expr: &Expr, tuple: &[Value], schema: &Schema, host: &Host) -> (r: Result<Value>)
    ensures
        outcome(r) == eval(*expr, tuple.deep_view(), schema.names(), host@),
    decreases *expr, 0int,
{
    match expr {
        Expr::Literal(lit) => Ok(literal_to_value(lit)),
        Expr::ColumnRef { table, column } => {
            let idx = resolve_column(schema, table, column.as_str());
            read_cell(tuple, idx, column.as_str())
        },
        Expr::BinaryOp { left, op, right } => {
            let l = evaluate(left, tuple, schema, host)?;
            let r = evaluate(right, tuple, schema, host)?;
            eval_binary_op_values(&l, op, &r, host)
        },
        Expr::UnaryOp { op, expr: inner } => {
            let v = evaluate(inner, tuple, schema, host)?;
            apply_unary_op(op, &v)
        },
        Expr::IsNull(inner) => {
            let v = evaluate(inner, tuple, schema, host)?;
            Ok(Value::Boolean(v.is_null()))
        },
        Expr::IsNotNull(inner) => {
            let v = evaluate(inner, tuple, schema, host)?;
            Ok(Value::Boolean(!v.is_null()))
        },
        Expr::Function { name, args, distinct } => call(name.as_str(), args, tuple, schema, host),
        Expr::Like { expr: inner, pattern } => {
            let v = evaluate(inner, tuple, schema, host)?;
            let p = evaluate(pattern, tuple, schema, host)?;
            apply_like(&v, &p, false)
        },
        Expr::NotLike { expr: inner, pattern } => {
            let v = evaluate(inner, tuple, schema, host)?;
            let p = evaluate(pattern, tuple, schema, host)?;
            apply_like(&v, &p, true)
        },
        Expr::InValues { expr: inner, values, keys, negated } => {
            let v = evaluate(inner, tuple, schema, host)?;
            if v.is_null() {
                return Ok(Value::Null);
            }
            let key = v.to_sort_key_bytes();
            let found: bool = match find_key(keys, &key) {
                Some(_) => true,
                None => false,
            };
            Ok(Value::Boolean(found != *negated))
        },
        Expr::In { expr: inner, list } => {
            let v = evaluate(inner, tuple, schema, host)?;
            if v.is_null() {
                return Ok(Value::Null);
            }
            let found: bool = find_listed(&v, list, tuple, schema, host)?;
            Ok(Value::Boolean(found))
        },
        Expr::NotIn { expr: inner, list } => {
            let v = evaluate(inner, tuple, schema, host)?;
            if v.is_null() {
                return Ok(Value::Null);
            }
            let found: bool = find_listed(&v, list, tuple, schema, host)?;
            Ok(Value::Boolean(!found))
        },
        Expr::Between { expr: inner, low, high } => {
            let v = evaluate(inner, tuple, schema, host)?;
            let lo = evaluate(low, tuple, schema, host)?;
            let hi = evaluate(high, tuple, schema, host)?;
            apply_between(&v, &lo, &hi, host)
        },
        Expr::Case { operand, when_clauses, else_result } => {
            let chosen = match operand {
                Some(op) => {
                    let v = evaluate(op, tuple, schema, host)?;
                    choose_branch(Some(v), when_clauses, tuple, schema, host)?
                },
                None => choose_branch(None, when_clauses, tuple, schema, host)?,
            };
            match chosen {
                Some(v) => Ok(v),
                None => match else_result {
                    Some(els) => evaluate(els, tuple, schema, host),
                    None => Ok(Value::Null),
                },
            }
        },
        Expr::Subquery(_) => execution("subqueries evaluated at executor level"),
        Expr::InSubquery { expr: _, subquery: _, negated: _ } => execution(
            "subqueries evaluated at executor level",
        ),
        Expr::Exists { subquery: _, negated: _ } => execution(
            "subqueries evaluated at executor level",
        ),
        Expr::Cast { expr: inner, data_type } => {
            let v = evaluate(inner, tuple, schema, host)?;
            if v.is_null() {
                return Ok(Value::Null);
            }
            eval_cast(&v, data_type, host)
        },
        Expr::WindowFunction { name: _, args: _, partition_by: _, order_by: _ } => Ok(Value::Null),
        Expr::Concat { left, right } => {
            let l = evaluate(left, tuple, schema, host)?;
            let r = evaluate(right, tuple, schema, host)?;
            if l.is_null() || r.is_null() {
                return Ok(Value::Null);
            }
            let mut s = show(&l, host)?;
            let t = show(&r, host)?;
            s.append(t.as_str());
            Ok(Value::Varchar(s))
        },
    }
}

/// The value of a function call.
fn call(name: &str, args: &Vec<Expr>, tuple: &[Value], schema: &Schema, host: &Host) -> (r: Result<
    Value,
>)
    ensures
        outcome(r) == eval_call(name@, *args, tuple.deep_view(), schema.names(), host@),
    decreases *args, args.len() + 2,
{
    match builtin_of(name.to_uppercase().as_str()) {
        Builtin::Unary(f) => {
            if args.len() == 0 {
                return Ok(Value::Null);
            }
            let v = evaluate(&args[0], tuple, schema, host)?;
            apply_unary(f, v, host)
        },
        Builtin::Binary(f) => {
            if args.len() < 2 {
                return if f == BinaryFn::Contains || f == BinaryFn::FreeText {
                    Ok(Value::Boolean(false))
                } else {
                    Ok(Value::Null)
                };
            }
            let a = evaluate(&args[0], tuple, schema, host)?;
            let b = evaluate(&args[1], tuple, schema, host)?;
            apply_binary(f, a, b, host)
        },
        Builtin::Ternary(f) => {
            if args.len() < 3 {
                return Ok(Value::Null);
            }
            let a = evaluate(&args[0], tuple, schema, host)?;
            let b = evaluate(&args[1], tuple, schema, host)?;
            let c = evaluate(&args[2], tuple, schema, host)?;
            apply_ternary(f, a, b, c, host)
        },
        Builtin::Substring => call_substring(args, tuple, schema, host),
        Builtin::Round => call_round(args, tuple, schema, host),
        Builtin::If => {
            if args.len() < 3 {
                return Ok(Value::Null);
            }
            let c = evaluate(&args[0], tuple, schema, host)?;
            if value_truth(&c, host)? {
                evaluate(&args[1], tuple, schema, host)
            } else {
                evaluate(&args[2], tuple, schema, host)
            }
        },
        Builtin::Coalesce => call_coalesce(args, tuple, schema, host),
        Builtin::Concat => call_concat(args, tuple, schema, host),
        Builtin::Greatest => call_extreme(args, Order::Less, tuple, schema, host),
        Builtin::Least => call_extreme(args, Order::Greater, tuple, schema, host),
        Builtin::Now => Ok(Value::DateTime(host.now)),
        Builtin::CurrentDate => moment_value(div_floor(host.now, 86400) as i128 * 86400),
        Builtin::NewId => Ok(Value::Uuid(make_uuid(host.nanos))),
        Builtin::Aggregate => execution_on(
            "aggregate function '",
            name,
            "' used outside aggregate context",
        ),
        Builtin::Unknown => Ok(Value::Null),
    }
}

fn call_substring(args: &Vec<Expr>, tuple: &[Value], schema: &Schema, host: &Host) -> (r: Result<
    Value,
>)
    ensures
        outcome(r) == eval_substring(*args, tuple.deep_view(), schema.names(), host@),
    decreases *args, args.len() + 1,
{
    if args.len() < 2 {
        return Ok(Value::Null);
    }
    let v = evaluate(&args[0], tuple, schema, host)?;
    let start = evaluate(&args[1], tuple, schema, host)?;
    if v.is_null() || start.is_null() {
        return Ok(Value::Null);
    }
    let s = show(&v, host)?;
    let n: i64 = value_to_i64(&start);
    let from: u64 = if n < 1 {
        0
    } else {
        (n - 1) as u64
    };
    let c = chars_of(s.as_str());
    if from >= c.len() as u64 {
        return Ok(Value::Varchar(String::new()));
    }
    if args.len() < 3 {
        return Ok(Value::Varchar(substring(&c, from as usize, None)));
    }
    let len = evaluate(&args[2], tuple, schema, host)?;
    if len.is_null() {
        return Ok(Value::Null);
    }
    Ok(Value::Varchar(substring(&c, from as usize, Some(value_to_i64(&len)))))
}

fn call_round(args: &Vec<Expr>, tuple: &[Value], schema: &Schema, host: &Host) -> (r: Result<Value>)
    ensures
        outcome(r) == eval_round(*args, tuple.deep_view(), schema.names(), host@),
    decreases *args, args.len() + 1,
{
    if args.len() == 0 {
        return Ok(Value::Null);
    }
    let v = evaluate(&args[0], tuple, schema, host)?;
    if v.is_null() {
        return Ok(Value::Null);
    }
    if args.len() < 2 {
        return apply_round(&v, 0, host);
    }
    let d = evaluate(&args[1], tuple, schema, host)?;
    if d.is_null() {
        return Ok(Value::Null);
    }
    apply_round(&v, wrap_i32(value_to_i64(&d) as i128), host)
}

fn find_listed(v: &Value, list: &Vec<Expr>, tuple: &[Value], schema: &Schema, host: &Host) -> (r:
    Result<bool>)
    ensures
        outcome(r) == listed(v@, *list, 0, tuple.deep_view(), schema.names(), host@),
    decreases *list, list.len(),
{
    let mut i: usize = 0;
    while i < list.len()
        invariant
            0 <= i <= list.len(),
            listed(v@, *list, 0, tuple.deep_view(), schema.names(), host@) == listed(
                v@,
                *list,
                i as int,
                tuple.deep_view(),
                schema.names(),
                host@,
            ),
        decreases list.len() - i,
    {
        let w = evaluate(&list[i], tuple, schema, host)?;
        if equal_coerced(v, &w, host)? {
            return Ok(true);
        }
        i += 1;
    }
    Ok(false)
}

fn call_coalesce(args: &Vec<Expr>, tuple: &[Value], schema: &Schema, host: &Host) -> (r: Result<
    Value,
>)
    ensures
        outcome(r) == first_known(*args, 0, tuple.deep_view(), schema.names(), host@),
    decreases *args, args.len(),
{
    let mut i: usize = 0;
    while i < args.len()
        invariant
            0 <= i <= args.len(),
            first_known(*args, 0, tuple.deep_view(), schema.names(), host@) == first_known(
                *args,
                i as int,
                tuple.deep_view(),
                schema.names(),
                host@,
            ),
        decreases args.len() - i,
    {
        let v = evaluate(&args[i], tuple, schema, host)?;
        if !v.is_null() {
            return Ok(v);
        }
        i += 1;
    }
    Ok(Value::Null)
}

fn call_concat(args: &Vec<Expr>, tuple: &[Value], schema: &Schema, host: &Host) -> (r: Result<
    Value,
>)
    ensures
        outcome(r) == concat_from(
            *args,
            0,
            Seq::empty(),
            tuple.deep_view(),
            schema.names(),
            host@,
        ),
    decreases *args, args.len(),
{
    let mut acc = String::new();
    let mut i: usize = 0;
    while i < args.len()
        invariant
            0 <= i <= args.len(),
            concat_from(*args, 0, Seq::empty(), tuple.deep_view(), schema.names(), host@)
                == concat_from(
                *args,
                i as int,
                acc@,
                tuple.deep_view(),
                schema.names(),
                host@,
            ),
        decreases args.len() - i,
    {
        let v = evaluate(&args[i], tuple, schema, host)?;
        if v.is_null() {
            return Ok(Value::Null);
        }
        let s = show(&v, host)?;
        acc.append(s.as_str());
        i += 1;
    }
    Ok(Value::Varchar(acc))
}

fn call_extreme(args: &Vec<Expr>, over: Order, tuple: &[Value], schema: &Schema, host: &Host) -> (r:
    Result<Value>)
    ensures
        outcome(r) == extreme(*args, over, tuple.deep_view(), schema.names(), host@),
    decreases *args, args.len() + 1,
{
    if args.len() == 0 {
        return Ok(Value::Null);
    }
    let mut best = evaluate(&args[0], tuple, schema, host)?;
    if best.is_null() {
        return Ok(Value::Null);
    }
    let mut i: usize = 1;
    while i < args.len()
        invariant
            1 <= i <= args.len(),
            extreme(*args, over, tuple.deep_view(), schema.names(), host@) == extreme_from(
                *args,
                i as int,
                best@,
                over,
                tuple.deep_view(),
                schema.names(),
                host@,
            ),
        decreases args.len() - i,
    {
        let v = evaluate(&args[i], tuple, schema, host)?;
        if v.is_null() {
            return Ok(Value::Null);
        }
        match order_coerced(&best, &v, host)? {
            None => {
                return Ok(Value::Null);
            },
            Some(o) => if o == over {
                best = v;
            },
        }
        i += 1;
    }
    Ok(best)
}

fn choose_branch(
    operand: Option<Value>,
    whens: &Vec<(Expr, Expr)>,
    tuple: &[Value],
    schema: &Schema,
    host: &Host,
) -> (r: Result<Option<Value>>)
    ensures
        outcome(r) == chosen_branch(
            operand.deep_view(),
            *whens,
            0,
            tuple.deep_view(),
            schema.names(),
            host@,
        ),
    decreases *whens, whens.len(),
{
    let ghost op = operand.deep_view();
    let mut i: usize = 0;
    while i < whens.len()
        invariant
            0 <= i <= whens.len(),
            op == operand.deep_view(),
            chosen_branch(op, *whens, 0, tuple.deep_view(), schema.names(), host@)
                == chosen_branch(
                op,
                *whens,
                i as int,
                tuple.deep_view(),
                schema.names(),
                host@,
            ),
        decreases whens.len() - i,
    {
        let c = evaluate(&whens[i].0, tuple, schema, host)?;
        let taken: bool = match &operand {
            Some(v) => equal_coerced(v, &c, host)?,
            None => value_truth(&c, host)?,
        };
        if taken {
            let v = evaluate(&whens[i].1, tuple, schema, host)?;
            return Ok(Some(v));
        }
        i += 1;
    }
    Ok(None)
}

/// Evaluate an expression and coerce to bool (NULL -> false for WHERE clauses).
pub fn eval_to_bool(expr: &Expr, tuple: &[Value], schema: &Schema, host: &Host) -> (r: Result<bool>)
    ensures
        outcome(r) == eval_bool(*expr, tuple.deep_view(), schema.names(), host@),
{
    let v = evaluate(expr, tuple, schema, host)?;
    value_truth(&v, host)
}

/// A comparison with NULL is neither true nor false, and so is arithmetic with it.
pub proof fn law_null_spreads(l: ValueView, op: BinaryOperator, r: ValueView, h: HostView)
    requires
        l.is_null() || r.is_null(),
        op != BinaryOperator::And,
        op != BinaryOperator::Or,
    ensures
        binary_op(l, op, r, h) == Ok::<ValueView, ErrorView>(ValueView::Null),
{
}

/// AND and OR do not depend on the order of their operands; FALSE decides an AND, and TRUE an
/// OR, whatever the other operand is.
pub proof fn law_and_or(l: ValueView, r: ValueView, h: HostView)
    ensures
        binary_op(l, BinaryOperator::And, r, h) == binary_op(r, BinaryOperator::And, l, h),
        binary_op(l, BinaryOperator::Or, r, h) == binary_op(r, BinaryOperator::Or, l, h),
        binary_op(ValueView::Boolean(false), BinaryOperator::And, r, h) == Ok::<
            ValueView,
            ErrorView,
        >(ValueView::Boolean(false)),
        binary_op(ValueView::Boolean(true), BinaryOperator::Or, r, h) == Ok::<
            ValueView,
            ErrorView,
        >(ValueView::Boolean(true)),
{
}

/// The negation of an AND is the OR of the negations.
pub proof fn law_negated_and(l: Option<bool>, r: Option<bool>)
    ensures
        unary_op(UnaryOperator::Not, and3(l, r)) == Ok::<ValueView, ErrorView>(
            or3(
                match l {
                    Some(b) => Some(!b),
                    None => None,
                },
                match r {
                    Some(b) => Some(!b),
                    None => None,
                },
            ),
        ),
{
}

} // verus!
