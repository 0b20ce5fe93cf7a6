//! The binary format of a CHECK condition.
//!
//! A condition is kept as a tree. A node is a byte that tells its kind, a value and a second
//! value, each written as a default value of a column is, and its parts, each behind a byte that
//! is one; a byte that is zero ends them. What a condition cannot be tested with, such as a
//! query inside it, is kept only as being there.
use crate::ast::{BinaryOperator, Expr, LiteralValue, Statement, UnaryOperator};
use crate::bytes::lemma_pow256;
use crate::catalog_format::{
    default_bytes, default_read, end_error, end_of_data, lemma_byte, lemma_default,
    lemma_stands_split, number_read, put_default, read_default, read_number,
};
use crate::error::{ErrorView, ForgeError};
use crate::tuple::{stands, value_fits};
use crate::types::{DataType, Value, ValueView};
use vstd::prelude::*;

verus! {

/// A condition as it is kept.
pub struct Tree {
    pub kind: u8,
    pub value: Option<ValueView>,
    pub second: Option<ValueView>,
    pub parts: Seq<Tree>,
}

/// A node with one value and no parts.
pub open spec fn leaf(kind: u8, value: ValueView) -> Tree {
    Tree { kind, value: Some(value), second: None, parts: Seq::empty() }
}

/// A node with parts and no value.
pub open spec fn branch(kind: u8, parts: Seq<Tree>) -> Tree {
    Tree { kind, value: None, second: None, parts }
}

/// The value under which a literal is kept.
pub open spec fn literal_kept(l: LiteralValue) -> ValueView {
    match l {
        LiteralValue::Integer(n) => ValueView::BigInt(n),
        LiteralValue::Float(f) => ValueView::Float(f),
        LiteralValue::String(s) => ValueView::Varchar(s@),
        LiteralValue::Boolean(b) => ValueView::Boolean(b),
        LiteralValue::Null => ValueView::Null,
    }
}

/// The number under which an operator is kept.
pub open spec fn operator_code(op: BinaryOperator) -> i32 {
    match op {
        BinaryOperator::Eq => 0,
        BinaryOperator::NotEq => 1,
        BinaryOperator::Lt => 2,
        BinaryOperator::LtEq => 3,
        BinaryOperator::Gt => 4,
        BinaryOperator::GtEq => 5,
        BinaryOperator::And => 6,
        BinaryOperator::Or => 7,
        BinaryOperator::Add => 8,
        BinaryOperator::Sub => 9,
        BinaryOperator::Mul => 10,
        BinaryOperator::Div => 11,
        BinaryOperator::Modulo => 12,
    }
}

/// The number under which a type is kept.
pub open spec fn type_code(t: DataType) -> i32 {
    match t {
        DataType::Integer => 0,
        DataType::Float => 1,
        DataType::Varchar(n) => (2 + 16 * n) as i32,
        DataType::Boolean => 3,
        DataType::BigInt => 4,
        DataType::DateTime => 5,
        DataType::Decimal(p, s) => (6 + 16 * p + 4096 * s) as i32,
        DataType::Date => 7,
        DataType::Time => 8,
        DataType::VarBinary(n) => (9 + 16 * n) as i32,
        DataType::Json => 10,
        DataType::Uuid => 11,
    }
}

/// The tree of an expression.
pub open spec fn tree_of(e: Expr) -> Tree
    decreases e, 0int,
{
    match e {
        Expr::Literal(l) => leaf(0, literal_kept(l)),
        Expr::ColumnRef { table, column } => Tree {
            second: match table {
                Some(t) => Some(ValueView::Varchar(t@)),
                None => None,
            },
            ..leaf(1, ValueView::Varchar(column@))
        },
        Expr::BinaryOp { left, op, right } => Tree {
            parts: seq![tree_of(*left), tree_of(*right)],
            ..leaf(2, ValueView::Integer(operator_code(op)))
        },
        Expr::UnaryOp { op: UnaryOperator::Not, expr } => branch(3, seq![tree_of(*expr)]),
        Expr::UnaryOp { op: UnaryOperator::Neg, expr } => branch(4, seq![tree_of(*expr)]),
        Expr::IsNull(expr) => branch(5, seq![tree_of(*expr)]),
        Expr::IsNotNull(expr) => branch(6, seq![tree_of(*expr)]),
        Expr::Function { name, args, distinct } => Tree {
            parts: trees_from(args, 0, Seq::empty()),
            ..leaf(
                if distinct {
                    8
                } else {
                    7
                },
                ValueView::Varchar(name@),
            )
        },
        Expr::Like { expr, pattern } => branch(9, seq![tree_of(*expr), tree_of(*pattern)]),
        Expr::NotLike { expr, pattern } => branch(10, seq![tree_of(*expr), tree_of(*pattern)]),
        Expr::In { expr, list } => branch(11, trees_from(list, 0, seq![tree_of(*expr)])),
        Expr::NotIn { expr, list } => branch(12, trees_from(list, 0, seq![tree_of(*expr)])),
        Expr::Between { expr, low, high } => branch(
            13,
            seq![tree_of(*expr), tree_of(*low), tree_of(*high)],
        ),
        Expr::Case { operand, when_clauses, else_result } => {
            let first = match operand {
                Some(x) => seq![tree_of(*x)],
                None => Seq::empty(),
            };
            let last = match else_result {
                Some(x) => seq![tree_of(*x)],
                None => Seq::empty(),
            };
            branch(
                if operand is Some {
                    if else_result is Some {
                        17
                    } else {
                        16
                    }
                } else if else_result is Some {
                    15
                } else {
                    14
                },
                whens_from(when_clauses, 0, first) + last,
            )
        },
        Expr::Cast { expr, data_type } => Tree {
            parts: seq![tree_of(*expr)],
            ..leaf(18, ValueView::Integer(type_code(data_type)))
        },
        Expr::Concat { left, right } => branch(19, seq![tree_of(*left), tree_of(*right)]),
        Expr::WindowFunction { .. } => branch(20, Seq::empty()),
        _ => branch(21, Seq::empty()),
    }
}

/// The trees of the expressions from `i` on, behind `acc`.
pub open spec fn trees_from(list: Vec<Expr>, i: int, acc: Seq<Tree>) -> Seq<Tree>
    decreases list, list.len() - i,
{
    if 0 <= i < list.len() {
        trees_from(list, i + 1, acc.push(tree_of(list[i])))
    } else {
        acc
    }
}

/// The trees of the branches from `i` on, each a condition and a result, behind `acc`.
pub open spec fn whens_from(whens: Vec<(Expr, Expr)>, i: int, acc: Seq<Tree>) -> Seq<Tree>
    decreases whens, whens.len() - i,
{
    if 0 <= i < whens.len() {
        whens_from(whens, i + 1, acc.push(tree_of(whens[i].0)).push(tree_of(whens[i].1)))
    } else {
        acc
    }
}

// ---------------------------------------------------------------------------
// Writing
// ---------------------------------------------------------------------------

/// The bytes of a tree.
pub open spec fn tree_bytes(t: Tree) -> Seq<u8>
    decreases t, 0int,
{
    seq![t.kind] + default_bytes(t.value) + default_bytes(t.second) + parts_bytes(t.parts)
        + seq![0u8]
}

/// The bytes of parts.
pub open spec fn parts_bytes(parts: Seq<Tree>) -> Seq<u8>
    decreases parts, parts.len(),
{
    if parts.len() == 0 {
        Seq::empty()
    } else {
        parts_bytes(parts.drop_last()) + seq![1u8] + tree_bytes(parts.last())
    }
}

/// The bytes of a CHECK condition: a byte that tells whether there is one, and its tree.
#[verifier::opaque]
pub open spec fn check_bytes(c: Option<Tree>) -> Seq<u8> {
    match c {
        None => seq![0u8],
        Some(t) => seq![1u8] + tree_bytes(t),
    }
}

fn code_of(op: BinaryOperator) -> (r: i32)
    ensures
        r == operator_code(op),
{
    match op {
        BinaryOperator::Eq => 0,
        BinaryOperator::NotEq => 1,
        BinaryOperator::Lt => 2,
        BinaryOperator::LtEq => 3,
        BinaryOperator::Gt => 4,
        BinaryOperator::GtEq => 5,
        BinaryOperator::And => 6,
        BinaryOperator::Or => 7,
        BinaryOperator::Add => 8,
        BinaryOperator::Sub => 9,
        BinaryOperator::Mul => 10,
        BinaryOperator::Div => 11,
        BinaryOperator::Modulo => 12,
    }
}

fn code_of_type(t: DataType) -> (r: i32)
    ensures
        r == type_code(t),
{
    match t {
        DataType::Integer => 0,
        DataType::Float => 1,
        DataType::Varchar(n) => 2 + 16 * n as i32,
        DataType::Boolean => 3,
        DataType::BigInt => 4,
        DataType::DateTime => 5,
        DataType::Decimal(p, s) => 6 + 16 * p as i32 + 4096 * s as i32,
        DataType::Date => 7,
        DataType::Time => 8,
        DataType::VarBinary(n) => 9 + 16 * n as i32,
        DataType::Json => 10,
        DataType::Uuid => 11,
    }
}

fn text_value(s: &String) -> (r: Option<Value>)
    ensures
        r.deep_view() == Some(ValueView::Varchar(s@)),
{
    Some(Value::Varchar(s.clone()))
}

/// Begins a node: its kind and its values.
fn put_node(buf: &mut Vec<u8>, kind: u8, value: &Option<Value>, second: &Option<Value>)
    ensures
        final(buf)@ == old(buf)@ + seq![kind] + default_bytes(value.deep_view()) + default_bytes(
            second.deep_view(),
        ),
{
    let ghost start = buf@;
    buf.push(kind);
    assert(buf@ =~= start + seq![kind]);
    put_default(buf, value);
    put_default(buf, second);
}

/// A part, behind the parts that stand there.
fn put_part(
    buf: &mut Vec<u8>,
    e: &Expr,
    Ghost(head): Ghost<Seq<u8>>,
    Ghost(done): Ghost<Seq<Tree>>,
)
    requires
        old(buf)@ == head + parts_bytes(done),
    ensures
        final(buf)@ == head + parts_bytes(done.push(tree_of(*e))),
    decreases *e, 1int,
{
    let ghost start = buf@;
    buf.push(1);
    assert(buf@ =~= start + seq![1u8]);
    put_expr(buf, e);
    assert(done.push(tree_of(*e)).drop_last() =~= done);
    assert(buf@ =~= head + (parts_bytes(done) + seq![1u8] + tree_bytes(tree_of(*e))));
}

fn put_parts(
    buf: &mut Vec<u8>,
    list: &Vec<Expr>,
    Ghost(head): Ghost<Seq<u8>>,
    Ghost(first): Ghost<Seq<Tree>>,
)
    requires
        old(buf)@ == head + parts_bytes(first),
    ensures
        final(buf)@ == head + parts_bytes(trees_from(*list, 0, first)),
    decreases *list, 0int,
{
    let ghost mut done = first;
    let mut i: usize = 0;
    while i < list.len()
        invariant
            0 <= i <= list.len(),
            buf@ == head + parts_bytes(done),
            trees_from(*list, 0, first) == trees_from(*list, i as int, done),
        decreases list.len() - i,
    {
        put_part(buf, &list[i], Ghost(head), Ghost(done));
        proof {
            done = done.push(tree_of(list[i as int]));
        }
        i += 1;
    }
}

fn put_whens(
    buf: &mut Vec<u8>,
    whens: &Vec<(Expr, Expr)>,
    Ghost(head): Ghost<Seq<u8>>,
    Ghost(first): Ghost<Seq<Tree>>,
)
    requires
        old(buf)@ == head + parts_bytes(first),
    ensures
        final(buf)@ == head + parts_bytes(whens_from(*whens, 0, first)),
    decreases *whens, 0int,
{
    let ghost mut done = first;
    let mut i: usize = 0;
    while i < whens.len()
        invariant
            0 <= i <= whens.len(),
            buf@ == head + parts_bytes(done),
            whens_from(*whens, 0, first) == whens_from(*whens, i as int, done),
        decreases whens.len() - i,
    {
        put_part(buf, &whens[i].0, Ghost(head), Ghost(done));
        proof {
            done = done.push(tree_of(whens[i as int].0));
        }
        put_part(buf, &whens[i].1, Ghost(head), Ghost(done));
        proof {
            done = done.push(tree_of(whens[i as int].1));
        }
        i += 1;
    }
}

/// The kind of an expression's node, and its values.
fn node_of(e: &Expr) -> (r: (u8, Option<Value>, Option<Value>))
    ensures
        r.0 == tree_of(*e).kind,
        r.1.deep_view() == tree_of(*e).value,
        r.2.deep_view() == tree_of(*e).second,
{
    match e {
        Expr::Literal(LiteralValue::Integer(n)) => (0, Some(Value::BigInt(*n)), None),
        Expr::Literal(LiteralValue::Float(f)) => (0, Some(Value::Float(*f)), None),
        Expr::Literal(LiteralValue::String(s)) => (0, text_value(s), None),
        Expr::Literal(LiteralValue::Boolean(b)) => (0, Some(Value::Boolean(*b)), None),
        Expr::Literal(LiteralValue::Null) => (0, Some(Value::Null), None),
        Expr::ColumnRef { table: Some(t), column } => (1, text_value(column), text_value(t)),
        Expr::ColumnRef { table: None, column } => (1, text_value(column), None),
        Expr::BinaryOp { left: _, op, right: _ } => (2, Some(Value::Integer(code_of(*op))), None),
        Expr::UnaryOp { op: UnaryOperator::Not, expr: _ } => (3, None, None),
        Expr::UnaryOp { op: UnaryOperator::Neg, expr: _ } => (4, None, None),
        Expr::IsNull(_) => (5, None, None),
        Expr::IsNotNull(_) => (6, None, None),
        Expr::Function { name, args: _, distinct } => (
            if *distinct {
                8
            } else {
                7
            },
            text_value(name),
            None,
        ),
        Expr::Like { expr: _, pattern: _ } => (9, None, None),
        Expr::NotLike { expr: _, pattern: _ } => (10, None, None),
        Expr::In { expr: _, list: _ } => (11, None, None),
        Expr::NotIn { expr: _, list: _ } => (12, None, None),
        Expr::Between { expr: _, low: _, high: _ } => (13, None, None),
        Expr::Case { operand: None, when_clauses: _, else_result: None } => (14, None, None),
        Expr::Case { operand: None, when_clauses: _, else_result: Some(_) } => (15, None, None),
        Expr::Case { operand: Some(_), when_clauses: _, else_result: None } => (16, None, None),
        Expr::Case { operand: Some(_), when_clauses: _, else_result: Some(_) } => (17, None, None),
        Expr::Cast { expr: _, data_type } => (
            18,
            Some(Value::Integer(code_of_type(*data_type))),
            None,
        ),
        Expr::Concat { left: _, right: _ } => (19, None, None),
        Expr::WindowFunction { name: _, args: _, partition_by: _, order_by: _ } => (20, None, None),
        _ => (21, None, None),
    }
}

/// Appends an expression.
pub fn put_expr(buf: &mut Vec<u8>, e: &Expr)
    ensures
        final(buf)@ == old(buf)@ + tree_bytes(tree_of(*e)),
    decreases *e, 0int,
{
    let ghost start = buf@;
    let (kind, value, second) = node_of(e);
    put_node(buf, kind, &value, &second);
    let ghost head = buf@;
    let ghost none = Seq::<Tree>::empty();
    assert(head + parts_bytes(none) =~= head);
    let ghost t = tree_of(*e);
    match e {
        Expr::BinaryOp { left, op: _, right } => {
            put_part(buf, left, Ghost(head), Ghost(none));
            put_part(buf, right, Ghost(head), Ghost(none.push(tree_of(**left))));
            assert(none.push(tree_of(**left)).push(tree_of(**right)) =~= t.parts);
        },
        Expr::UnaryOp { op: _, expr } => {
            put_part(buf, expr, Ghost(head), Ghost(none));
            assert(none.push(tree_of(**expr)) =~= t.parts);
        },
        Expr::IsNull(expr) => {
            put_part(buf, expr, Ghost(head), Ghost(none));
            assert(none.push(tree_of(**expr)) =~= t.parts);
        },
        Expr::IsNotNull(expr) => {
            put_part(buf, expr, Ghost(head), Ghost(none));
            assert(none.push(tree_of(**expr)) =~= t.parts);
        },
        Expr::Function { name: _, args, distinct: _ } => {
            put_parts(buf, args, Ghost(head), Ghost(none));
        },
        Expr::Like { expr, pattern } => {
            put_part(buf, expr, Ghost(head), Ghost(none));
            put_part(buf, pattern, Ghost(head), Ghost(none.push(tree_of(**expr))));
            assert(none.push(tree_of(**expr)).push(tree_of(**pattern)) =~= t.parts);
        },
        Expr::NotLike { expr, pattern } => {
            put_part(buf, expr, Ghost(head), Ghost(none));
            put_part(buf, pattern, Ghost(head), Ghost(none.push(tree_of(**expr))));
            assert(none.push(tree_of(**expr)).push(tree_of(**pattern)) =~= t.parts);
        },
        Expr::In { expr, list } => {
            put_part(buf, expr, Ghost(head), Ghost(none));
            let ghost one = seq![tree_of(**expr)];
            assert(none.push(tree_of(**expr)) =~= one);
            put_parts(buf, list, Ghost(head), Ghost(one));
        },
        Expr::NotIn { expr, list } => {
            put_part(buf, expr, Ghost(head), Ghost(none));
            let ghost one = seq![tree_of(**expr)];
            assert(none.push(tree_of(**expr)) =~= one);
            put_parts(buf, list, Ghost(head), Ghost(one));
        },
        Expr::Between { expr, low, high } => {
            put_part(buf, expr, Ghost(head), Ghost(none));
            let ghost one = none.push(tree_of(**expr));
            put_part(buf, low, Ghost(head), Ghost(one));
            put_part(buf, high, Ghost(head), Ghost(one.push(tree_of(**low))));
            assert(one.push(tree_of(**low)).push(tree_of(**high)) =~= t.parts);
        },
        Expr::Case { operand, when_clauses, else_result } => {
            let ghost mut first = none;
            if let Some(x) = operand {
                put_part(buf, x, Ghost(head), Ghost(none));
                assert(none.push(tree_of(**x)) =~= seq![tree_of(**x)]);
                proof {
                    first = seq![tree_of(**x)];
                }
            }
            put_whens(buf, when_clauses, Ghost(head), Ghost(first));
            let ghost mid = whens_from(*when_clauses, 0, first);
            match else_result {
                Some(x) => {
                    put_part(buf, x, Ghost(head), Ghost(mid));
                    assert(mid.push(tree_of(**x)) =~= t.parts);
                },
                None => {
                    assert(mid =~= t.parts);
                },
            }
        },
        Expr::Cast { expr, data_type: _ } => {
            put_part(buf, expr, Ghost(head), Ghost(none));
            assert(none.push(tree_of(**expr)) =~= t.parts);
        },
        Expr::Concat { left, right } => {
            put_part(buf, left, Ghost(head), Ghost(none));
            put_part(buf, right, Ghost(head), Ghost(none.push(tree_of(**left))));
            assert(none.push(tree_of(**left)).push(tree_of(**right)) =~= t.parts);
        },
        _ => {
            assert(t.parts =~= none);
        },
    }
    assert(buf@ == head + parts_bytes(t.parts));
    buf.push(0);
    assert(buf@ =~= start + tree_bytes(t));
}

/// Appends a CHECK condition.
pub fn put_check(buf: &mut Vec<u8>, c: &Option<Expr>)
    ensures
        final(buf)@ == old(buf)@ + check_bytes(check_tree(*c)),
{
    reveal(check_bytes);
    let ghost start = buf@;
    match c {
        None => buf.push(0),
        Some(e) => {
            buf.push(1);
            put_expr(buf, e);
        },
    }
    assert(buf@ =~= start + check_bytes(check_tree(*c)));
}

/// The tree of a CHECK condition.
pub open spec fn check_tree(c: Option<Expr>) -> Option<Tree> {
    match c {
        Some(e) => Some(tree_of(e)),
        None => None,
    }
}

// ---------------------------------------------------------------------------
// Reading
// ---------------------------------------------------------------------------

/// The type that is kept under a number.
pub open spec fn type_coded(c: i32) -> Option<DataType> {
    let kind = c % 16;
    let n = c / 16;
    if c < 0 || n > 0xffff {
        None
    } else if kind == 0 {
        Some(DataType::Integer)
    } else if kind == 1 {
        Some(DataType::Float)
    } else if kind == 2 {
        Some(DataType::Varchar(n as u16))
    } else if kind == 3 {
        Some(DataType::Boolean)
    } else if kind == 4 {
        Some(DataType::BigInt)
    } else if kind == 5 {
        Some(DataType::DateTime)
    } else if kind == 6 {
        Some(DataType::Decimal((n % 256) as u8, (n / 256) as u8))
    } else if kind == 7 {
        Some(DataType::Date)
    } else if kind == 8 {
        Some(DataType::Time)
    } else if kind == 9 {
        Some(DataType::VarBinary(n as u16))
    } else if kind == 10 {
        Some(DataType::Json)
    } else if kind == 11 {
        Some(DataType::Uuid)
    } else {
        None
    }
}

fn decode_type(c: i32) -> (r: Option<DataType>)
    ensures
        r == type_coded(c),
{
    if c < 0 {
        return None;
    }
    let kind: i32 = c % 16;
    let n: i32 = c / 16;
    if n > 0xffff {
        None
    } else if kind == 0 {
        Some(DataType::Integer)
    } else if kind == 1 {
        Some(DataType::Float)
    } else if kind == 2 {
        Some(DataType::Varchar(n as u16))
    } else if kind == 3 {
        Some(DataType::Boolean)
    } else if kind == 4 {
        Some(DataType::BigInt)
    } else if kind == 5 {
        Some(DataType::DateTime)
    } else if kind == 6 {
        Some(DataType::Decimal((n % 256) as u8, (n / 256) as u8))
    } else if kind == 7 {
        Some(DataType::Date)
    } else if kind == 8 {
        Some(DataType::Time)
    } else if kind == 9 {
        Some(DataType::VarBinary(n as u16))
    } else if kind == 10 {
        Some(DataType::Json)
    } else if kind == 11 {
        Some(DataType::Uuid)
    } else {
        None
    }
}

fn decode_operator(c: i32) -> (r: Option<BinaryOperator>)
    ensures
        r is Some == (0 <= c <= 12),
        r matches Some(op) ==> operator_code(op) == c,
{
    match c {
        0 => Some(BinaryOperator::Eq),
        1 => Some(BinaryOperator::NotEq),
        2 => Some(BinaryOperator::Lt),
        3 => Some(BinaryOperator::LtEq),
        4 => Some(BinaryOperator::Gt),
        5 => Some(BinaryOperator::GtEq),
        6 => Some(BinaryOperator::And),
        7 => Some(BinaryOperator::Or),
        8 => Some(BinaryOperator::Add),
        9 => Some(BinaryOperator::Sub),
        10 => Some(BinaryOperator::Mul),
        11 => Some(BinaryOperator::Div),
        12 => Some(BinaryOperator::Modulo),
        _ => None,
    }
}

/// The parts that a node of a kind without values has.
pub open spec fn bare_shape(kind: u8, parts: int) -> bool {
    if 3 <= kind <= 6 {
        parts == 1
    } else if kind == 9 || kind == 10 || kind == 19 {
        parts == 2
    } else if kind == 11 || kind == 12 {
        parts >= 1
    } else if kind == 13 {
        parts == 3
    } else if kind == 14 {
        parts % 2 == 0
    } else if kind == 15 || kind == 16 {
        parts % 2 == 1
    } else if kind == 17 {
        parts >= 2 && parts % 2 == 0
    } else {
        (kind == 20 || kind == 21) && parts == 0
    }
}

/// Whether a node can stand for an expression, as far as its kind, its values and the number of
/// its parts go.
#[verifier::opaque]
pub open spec fn shape(t: Tree) -> bool {
    match t.value {
        None => t.second is None && bare_shape(t.kind, t.parts.len() as int),
        Some(ValueView::Varchar(_)) => {
            ||| t.kind == 0 && t.second is None && t.parts.len() == 0
            ||| t.kind == 1 && t.parts.len() == 0 && (t.second is None || t.second->0 is Varchar)
            ||| (t.kind == 7 || t.kind == 8) && t.second is None
        },
        Some(ValueView::Integer(c)) => t.second is None && if t.kind == 2 {
            t.parts.len() == 2 && 0 <= c <= 12
        } else {
            t.kind == 18 && t.parts.len() == 1 && type_coded(c) is Some && type_code(
                type_coded(c)->0,
            ) == c
        },
        Some(v) => t.kind == 0 && t.second is None && t.parts.len() == 0 && (v is BigInt
            || v is Float || v is Boolean || v is Null),
    }
}

/// The trees of expressions.
pub open spec fn trees(list: Seq<Expr>) -> Seq<Tree> {
    Seq::new(list.len(), |k: int| tree_of(list[k]))
}

/// The trees of branches: of each its condition and its result.
pub open spec fn when_trees(whens: Seq<(Expr, Expr)>) -> Seq<Tree> {
    Seq::new(
        2 * whens.len(),
        |k: int|
            if k % 2 == 0 {
                tree_of(whens[k / 2].0)
            } else {
                tree_of(whens[k / 2].1)
            },
    )
}

proof fn lemma_trees_from(list: Vec<Expr>, i: int, acc: Seq<Tree>)
    requires
        0 <= i <= list.len(),
    ensures
        trees_from(list, i, acc) == acc + trees(list@).skip(i),
    decreases list.len() - i,
{
    if i < list.len() {
        lemma_trees_from(list, i + 1, acc.push(tree_of(list[i])));
    }
    assert(trees_from(list, i, acc) =~= acc + trees(list@).skip(i));
}

proof fn lemma_whens_from(whens: Vec<(Expr, Expr)>, i: int, acc: Seq<Tree>)
    requires
        0 <= i <= whens.len(),
    ensures
        whens_from(whens, i, acc) == acc + when_trees(whens@).skip(2 * i),
    decreases whens.len() - i,
{
    if i < whens.len() {
        lemma_whens_from(
            whens,
            i + 1,
            acc.push(tree_of(whens[i].0)).push(tree_of(whens[i].1)),
        );
        assert(when_trees(whens@)[2 * i] == tree_of(whens[i].0));
        assert(when_trees(whens@)[2 * i + 1] == tree_of(whens[i].1));
    }
    assert(whens_from(whens, i, acc) =~= acc + when_trees(whens@).skip(2 * i));
}

/// The expression that a node without values stands for.
fn assemble_bare(kind: u8, parts: Vec<Expr>) -> (r: Option<Expr>)
    ensures
        match r {
            Some(e) => bare_shape(kind, parts@.len() as int) && tree_of(e) == branch(
                kind,
                trees(parts@),
            ),
            None => !bare_shape(kind, parts@.len() as int),
        },
{
    let ghost all = trees(parts@);
    let n: usize = parts.len();
    let mut parts = parts;
    if 3 <= kind && kind <= 6 {
        if n != 1 {
            return None;
        }
        let expr = Box::new(parts.remove(0));
        assert(seq![tree_of(*expr)] =~= all);
        return Some(
            if kind == 3 {
                Expr::UnaryOp { op: UnaryOperator::Not, expr }
            } else if kind == 4 {
                Expr::UnaryOp { op: UnaryOperator::Neg, expr }
            } else if kind == 5 {
                Expr::IsNull(expr)
            } else {
                Expr::IsNotNull(expr)
            },
        );
    }
    if kind == 9 || kind == 10 || kind == 19 {
        if n != 2 {
            return None;
        }
        let a = Box::new(parts.remove(0));
        let b = Box::new(parts.remove(0));
        assert(seq![tree_of(*a), tree_of(*b)] =~= all);
        return Some(
            if kind == 9 {
                Expr::Like { expr: a, pattern: b }
            } else if kind == 10 {
                Expr::NotLike { expr: a, pattern: b }
            } else {
                Expr::Concat { left: a, right: b }
            },
        );
    }
    if kind == 11 || kind == 12 {
        if n == 0 {
            return None;
        }
        let expr = Box::new(parts.remove(0));
        proof {
            lemma_trees_from(parts, 0, seq![tree_of(*expr)]);
            assert(seq![tree_of(*expr)] + trees(parts@).skip(0) =~= all);
        }
        return Some(
            if kind == 11 {
                Expr::In { expr, list: parts }
            } else {
                Expr::NotIn { expr, list: parts }
            },
        );
    }
    if kind == 13 {
        if n != 3 {
            return None;
        }
        let expr = Box::new(parts.remove(0));
        let low = Box::new(parts.remove(0));
        let high = Box::new(parts.remove(0));
        assert(seq![tree_of(*expr), tree_of(*low), tree_of(*high)] =~= all);
        return Some(Expr::Between { expr, low, high });
    }
    if 14 <= kind && kind <= 17 {
        return assemble_case(kind, parts);
    }
    if n != 0 {
        return None;
    }
    assert(all =~= Seq::<Tree>::empty());
    if kind == 20 {
        Some(
            Expr::WindowFunction {
                name: String::new(),
                args: Vec::new(),
                partition_by: Vec::new(),
                order_by: Vec::new(),
            },
        )
    } else if kind == 21 {
        Some(Expr::Subquery(Box::new(Statement::Commit)))
    } else {
        None
    }
}

/// The CASE expression that a node stands for.
fn assemble_case(kind: u8, parts: Vec<Expr>) -> (r: Option<Expr>)
    requires
        14 <= kind <= 17,
    ensures
        match r {
            Some(e) => bare_shape(kind, parts@.len() as int) && tree_of(e) == branch(
                kind,
                trees(parts@),
            ),
            None => !bare_shape(kind, parts@.len() as int),
        },
{
    let ghost all = trees(parts@);
    let n: usize = parts.len();
    let odd = kind == 15 || kind == 16;
    if (n % 2 == 1) != odd || (kind == 17 && n < 2) {
        return None;
    }
    let mut parts = parts;
    let ghost mut first = Seq::<Tree>::empty();
    let ghost mut last = Seq::<Tree>::empty();
    let mut operand: Option<Box<Expr>> = None;
    let mut else_result: Option<Box<Expr>> = None;
    if kind >= 16 {
        let x = parts.remove(0);
        proof {
            first = seq![tree_of(x)];
        }
        operand = Some(Box::new(x));
    }
    assert(first + trees(parts@) =~= all);
    if kind == 15 || kind == 17 {
        let ghost before = parts@;
        let x = parts.pop();
        assert(before.last() == x->0 && parts@ =~= before.drop_last());
        if let Some(x) = x {
            proof {
                last = seq![tree_of(x)];
            }
            else_result = Some(Box::new(x));
        }
        assert(trees(parts@) + last =~= trees(before));
    }
    assert(first + trees(parts@) + last =~= all);
    assert(parts@.len() % 2 == 0);
    let ghost mid = trees(parts@);
    let mut whens: Vec<(Expr, Expr)> = Vec::new();
    assert(when_trees(whens@) + trees(parts@) =~= mid);
    while parts.len() > 0
        invariant
            parts@.len() % 2 == 0,
            when_trees(whens@) + trees(parts@) == mid,
        decreases parts.len(),
    {
        let ghost before = trees(parts@);
        let ghost done = when_trees(whens@);
        let condition = parts.remove(0);
        let result = parts.remove(0);
        let ghost two = seq![tree_of(condition), tree_of(result)];
        assert(two + trees(parts@) =~= before);
        let ghost old_whens = whens@;
        whens.push((condition, result));
        assert(when_trees(whens@) =~= done + two) by {
            assert forall|k: int| 0 <= k < 2 * whens@.len() implies when_trees(whens@)[k] == (done
                + two)[k] by {
                if k < 2 * old_whens.len() {
                    assert(whens@[k / 2] == old_whens[k / 2]);
                } else {
                    assert(k / 2 == old_whens.len());
                }
            }
        }
        assert(done + two + trees(parts@) =~= done + before);
    }
    proof {
        lemma_whens_from(whens, 0, first);
        assert(trees(parts@) =~= Seq::<Tree>::empty());
        assert(first + when_trees(whens@).skip(0) + last =~= all);
    }
    Some(Expr::Case { operand, when_clauses: whens, else_result })
}

/// The expression that a node stands for.
fn assemble(kind: u8, value: Option<Value>, second: Option<Value>, parts: Vec<Expr>) -> (r: Option<
    Expr,
>)
    ensures
        ({
            let t = Tree {
                kind,
                value: value.deep_view(),
                second: second.deep_view(),
                parts: trees(parts@),
            };
            match r {
                Some(e) => shape(t) && tree_of(e) == t,
                None => !shape(t),
            }
        }),
{
    reveal(shape);
    let ghost all = trees(parts@);
    let n: usize = parts.len();
    assert(n == 0 ==> all =~= Seq::<Tree>::empty());
    let mut parts = parts;
    match value {
        None => match second {
            None => assemble_bare(kind, parts),
            Some(_) => None,
        },
        Some(Value::Varchar(s)) => if kind == 7 || kind == 8 {
            if second.is_some() {
                return None;
            }
            proof {
                lemma_trees_from(parts, 0, Seq::empty());
                assert(Seq::<Tree>::empty() + all.skip(0) =~= all);
            }
            Some(Expr::Function { name: s, args: parts, distinct: kind == 8 })
        } else if n != 0 {
            None
        } else if kind == 0 {
            if second.is_some() {
                None
            } else {
                Some(Expr::Literal(LiteralValue::String(s)))
            }
        } else if kind == 1 {
            match second {
                None => Some(Expr::ColumnRef { table: None, column: s }),
                Some(Value::Varchar(t)) => Some(Expr::ColumnRef { table: Some(t), column: s }),
                Some(_) => None,
            }
        } else {
            None
        },
        Some(Value::Integer(c)) => {
            if second.is_some() {
                return None;
            }
            if kind == 2 {
                if n != 2 {
                    return None;
                }
                let op = match decode_operator(c) {
                    Some(op) => op,
                    None => {
                        return None;
                    },
                };
                let left = Box::new(parts.remove(0));
                let right = Box::new(parts.remove(0));
                assert(seq![tree_of(*left), tree_of(*right)] =~= all);
                Some(Expr::BinaryOp { left, op, right })
            } else if kind == 18 {
                if n != 1 {
                    return None;
                }
                match decode_type(c) {
                    Some(data_type) => if code_of_type(data_type) == c {
                        let expr = Box::new(parts.remove(0));
                        assert(seq![tree_of(*expr)] =~= all);
                        Some(Expr::Cast { expr, data_type })
                    } else {
                        None
                    },
                    None => None,
                }
            } else {
                None
            }
        },
        Some(v) => {
            if kind != 0 || second.is_some() || n != 0 {
                return None;
            }
            match v {
                Value::BigInt(i) => Some(Expr::Literal(LiteralValue::Integer(i))),
                Value::Float(f) => Some(Expr::Literal(LiteralValue::Float(f))),
                Value::Boolean(b) => Some(Expr::Literal(LiteralValue::Boolean(b))),
                Value::Null => Some(Expr::Literal(LiteralValue::Null)),
                _ => None,
            }
        },
    }
}

/// The error for a node that stands for no expression.
pub open spec fn shape_error() -> ErrorView {
    ErrorView::Catalog("invalid expression"@)
}

/// The tree at a position, and the position behind it. No more than `d` bytes belong to it.
pub open spec fn tree_read(data: Seq<u8>, pos: int, d: nat) -> std::result::Result<
    (Tree, int),
    ErrorView,
>
    decreases d,
{
    if d == 0 {
        Err(end_error())
    } else {
        match number_read(data, pos, 1) {
            Err(e) => Err(e),
            Ok(k) => match default_read(data, k.1) {
                Err(e) => Err(e),
                Ok(v) => match default_read(data, v.1) {
                    Err(e) => Err(e),
                    Ok(s) => match parts_read(data, s.1, Seq::empty(), (d - 1) as nat) {
                        Err(e) => Err(e),
                        Ok(p) => {
                            let t = Tree {
                                kind: k.0 as u8,
                                value: v.0,
                                second: s.0,
                                parts: p.0,
                            };
                            if shape(t) {
                                Ok((t, p.1))
                            } else {
                                Err(shape_error())
                            }
                        },
                    },
                },
            },
        }
    }
}

/// The parts from a position on, behind `acc`, and the position behind their end.
pub open spec fn parts_read(data: Seq<u8>, pos: int, acc: Seq<Tree>, d: nat) -> std::result::Result<
    (Seq<Tree>, int),
    ErrorView,
>
    decreases d,
{
    if d == 0 {
        Err(end_error())
    } else {
        match number_read(data, pos, 1) {
            Err(e) => Err(e),
            Ok(k) => if k.0 == 0 {
                Ok((acc, k.1))
            } else {
                match tree_read(data, k.1, (d - 1) as nat) {
                    Err(e) => Err(e),
                    Ok(t) => parts_read(data, t.1, acc.push(t.0), (d - 1) as nat),
                }
            },
        }
    }
}

/// The CHECK condition at a position, and the position behind it.
#[verifier::opaque]
pub open spec fn check_read(data: Seq<u8>, pos: int) -> std::result::Result<
    (Option<Tree>, int),
    ErrorView,
> {
    match number_read(data, pos, 1) {
        Err(e) => Err(e),
        Ok(k) => if k.0 == 0 {
            Ok((None, k.1))
        } else {
            match tree_read(data, k.1, data.len()) {
                Err(e) => Err(e),
                Ok(t) => Ok((Some(t.0), t.1)),
            }
        },
    }
}

fn read_expr(data: &[u8], pos: usize, d: usize) -> (r: std::result::Result<
    (Expr, usize),
    ForgeError,
>)
    requires
        pos <= data.len(),
    ensures
        match r {
            Ok(p) => tree_read(data@, pos as int, d as nat) == Ok::<(Tree, int), ErrorView>(
                (tree_of(p.0), p.1 as int),
            ) && p.1 <= data.len(),
            Err(e) => tree_read(data@, pos as int, d as nat) == Err::<(Tree, int), ErrorView>(e@),
        },
    decreases d,
{
    if d == 0 {
        return end_of_data();
    }
    proof {
        lemma_pow256();
    }
    let (kind, at) = read_number(data, pos, 1)?;
    let (value, at) = read_default(data, at)?;
    let (second, at) = read_default(data, at)?;
    let (parts, at) = read_parts(data, at, d - 1)?;
    match assemble(kind as u8, value, second, parts) {
        Some(e) => Ok((e, at)),
        None => Err(ForgeError::Catalog("invalid expression".to_owned())),
    }
}

fn read_parts(data: &[u8], pos: usize, d: usize) -> (r: std::result::Result<
    (Vec<Expr>, usize),
    ForgeError,
>)
    requires
        pos <= data.len(),
    ensures
        match r {
            Ok(p) => parts_read(data@, pos as int, Seq::empty(), d as nat) == Ok::<
                (Seq<Tree>, int),
                ErrorView,
            >((trees(p.0@), p.1 as int)) && p.1 <= data.len(),
            Err(e) => parts_read(data@, pos as int, Seq::empty(), d as nat) == Err::<
                (Seq<Tree>, int),
                ErrorView,
            >(e@),
        },
    decreases d,
{
    let mut out: Vec<Expr> = Vec::new();
    let mut at: usize = pos;
    let mut left: usize = d;
    assert(trees(out@) =~= Seq::<Tree>::empty());
    while left > 0
        invariant
            at <= data.len(),
            left <= d,
            parts_read(data@, pos as int, Seq::empty(), d as nat) == parts_read(
                data@,
                at as int,
                trees(out@),
                left as nat,
            ),
        decreases left,
    {
        let (k, next) = read_number(data, at, 1)?;
        if k == 0 {
            return Ok((out, next));
        }
        let (e, next) = read_expr(data, next, left - 1)?;
        let ghost before = trees(out@);
        let ghost t = tree_of(e);
        out.push(e);
        assert(trees(out@) =~= before.push(t));
        at = next;
        left = left - 1;
    }
    end_of_data()
}

/// Reads a CHECK condition.
pub fn read_check(data: &[u8], pos: usize) -> (r: std::result::Result<
    (Option<Expr>, usize),
    ForgeError,
>)
    requires
        pos <= data.len(),
    ensures
        match r {
            Ok(p) => check_read(data@, pos as int) == Ok::<(Option<Tree>, int), ErrorView>(
                (check_tree(p.0), p.1 as int),
            ) && p.1 <= data.len(),
            Err(e) => check_read(data@, pos as int) == Err::<(Option<Tree>, int), ErrorView>(e@),
        },
{
    reveal(check_read);
    let (k, at) = read_number(data, pos, 1)?;
    if k == 0 {
        return Ok((None, at));
    }
    let (e, at) = read_expr(data, at, data.len())?;
    Ok((Some(e), at))
}

// ---------------------------------------------------------------------------
// What is written can be read
// ---------------------------------------------------------------------------

/// Whether a value is short enough to be written.
pub open spec fn short(v: Option<ValueView>) -> bool {
    v matches Some(x) ==> value_fits(x)
}

/// Whether the texts in a tree are short enough to be written, and each of its nodes stands for
/// an expression.
pub open spec fn tree_fits(t: Tree) -> bool
    decreases t, 0int,
{
    shape(t) && short(t.value) && short(t.second) && parts_fit(t.parts, 0)
}

/// [`tree_fits`], of the parts from `i` on.
pub open spec fn parts_fit(parts: Seq<Tree>, i: int) -> bool
    decreases parts, parts.len() - i,
{
    0 <= i < parts.len() ==> tree_fits(parts[i]) && parts_fit(parts, i + 1)
}

/// The bytes of the parts from `i` on, and of their end.
spec fn rest_bytes(parts: Seq<Tree>, i: int) -> Seq<u8>
    decreases parts.len() - i,
{
    if 0 <= i < parts.len() {
        seq![1u8] + (tree_bytes(parts[i]) + rest_bytes(parts, i + 1))
    } else {
        seq![0u8]
    }
}

proof fn lemma_rest(parts: Seq<Tree>, i: int)
    requires
        0 <= i <= parts.len(),
    ensures
        parts_bytes(parts.take(i)) + rest_bytes(parts, i) == parts_bytes(parts) + seq![0u8],
    decreases parts.len() - i,
{
    if i < parts.len() {
        lemma_rest(parts, i + 1);
        assert(parts.take(i + 1).drop_last() =~= parts.take(i));
        assert(parts.take(i + 1).last() == parts[i]);
        let a = parts_bytes(parts.take(i));
        let b = tree_bytes(parts[i]);
        let c = rest_bytes(parts, i + 1);
        assert(a + seq![1u8] + b + c =~= a + (seq![1u8] + (b + c)));
    } else {
        assert(parts.take(i) =~= parts);
    }
}

#[verifier::spinoff_prover]
#[verifier::rlimit(50)]
proof fn lemma_tree(data: Seq<u8>, pos: int, t: Tree, d: nat)
    requires
        stands(data, pos, tree_bytes(t)),
        tree_fits(t),
        tree_bytes(t).len() <= d,
    ensures
        tree_read(data, pos, d) == Ok::<(Tree, int), ErrorView>((t, pos + tree_bytes(t).len())),
    decreases t, 0int,
{
    let k = seq![t.kind];
    let v = default_bytes(t.value);
    let s = default_bytes(t.second);
    let r = rest_bytes(t.parts, 0);
    lemma_rest(t.parts, 0);
    assert(t.parts.take(0) =~= Seq::<Tree>::empty());
    assert(parts_bytes(t.parts.take(0)) + r =~= r);
    assert(tree_bytes(t) =~= k + (v + (s + r)));
    lemma_stands_split(data, pos, k, v + (s + r));
    lemma_stands_split(data, pos + 1, v, s + r);
    lemma_stands_split(data, pos + 1 + v.len(), s, r);
    lemma_byte(data, pos, t.kind);
    lemma_default(data, pos + 1, t.value);
    lemma_default(data, pos + 1 + v.len(), t.second);
    lemma_parts(data, pos + 1 + v.len() + s.len(), t.parts, 0, (d - 1) as nat);
}

proof fn lemma_parts(data: Seq<u8>, pos: int, parts: Seq<Tree>, i: int, d: nat)
    requires
        0 <= i <= parts.len(),
        stands(data, pos, rest_bytes(parts, i)),
        parts_fit(parts, i),
        rest_bytes(parts, i).len() <= d,
    ensures
        parts_read(data, pos, parts.take(i), d) == Ok::<(Seq<Tree>, int), ErrorView>(
            (parts, pos + rest_bytes(parts, i).len()),
        ),
    decreases parts, parts.len() - i,
{
    if i < parts.len() {
        let b = tree_bytes(parts[i]);
        let c = rest_bytes(parts, i + 1);
        lemma_stands_split(data, pos, seq![1u8], b + c);
        lemma_stands_split(data, pos + 1, b, c);
        lemma_byte(data, pos, 1);
        lemma_tree(data, pos + 1, parts[i], (d - 1) as nat);
        lemma_parts(data, pos + 1 + b.len(), parts, i + 1, (d - 1) as nat);
        assert(parts.take(i).push(parts[i]) =~= parts.take(i + 1));
    } else {
        lemma_byte(data, pos, 0);
        assert(parts.take(i) =~= parts);
    }
}

/// A CHECK condition that stands in a file is read from there.
pub proof fn lemma_check(data: Seq<u8>, pos: int, c: Option<Tree>)
    requires
        stands(data, pos, check_bytes(c)),
        c matches Some(t) ==> tree_fits(t),
    ensures
        check_read(data, pos) == Ok::<(Option<Tree>, int), ErrorView>(
            (c, pos + check_bytes(c).len()),
        ),
{
    reveal(check_bytes);
    reveal(check_read);
    match c {
        None => lemma_byte(data, pos, 0),
        Some(t) => {
            lemma_stands_split(data, pos, seq![1u8], tree_bytes(t));
            lemma_byte(data, pos, 1);
            lemma_tree(data, pos + 1, t, data.len());
        },
    }
}

/// Whether the texts in a tree are short enough to be written.
pub open spec fn tree_short(t: Tree) -> bool
    decreases t, 0int,
{
    short(t.value) && short(t.second) && parts_short(t.parts, 0)
}

/// [`tree_short`], of the parts from `i` on.
pub open spec fn parts_short(parts: Seq<Tree>, i: int) -> bool
    decreases parts, parts.len() - i,
{
    0 <= i < parts.len() ==> tree_short(parts[i]) && parts_short(parts, i + 1)
}

proof fn lemma_part_short(parts: Seq<Tree>, i: int, k: int)
    requires
        0 <= i <= k < parts.len(),
        parts_short(parts, i),
    ensures
        tree_short(parts[k]),
    decreases k - i,
{
    if i < k {
        lemma_part_short(parts, i + 1, k);
    }
}

proof fn lemma_parts_fit(parts: Seq<Tree>, i: int)
    requires
        0 <= i,
        forall|k: int| 0 <= k < parts.len() ==> tree_fits(#[trigger] parts[k]),
    ensures
        parts_fit(parts, i),
    decreases parts.len() - i,
{
    if i < parts.len() {
        lemma_parts_fit(parts, i + 1);
    }
}

/// Every condition whose texts are short enough can be written and read.
#[verifier::rlimit(60)]
pub proof fn lemma_short_fits(e: Expr)
    requires
        tree_short(tree_of(e)),
    ensures
        tree_fits(tree_of(e)),
    decreases e, 0int,
{
    let t = tree_of(e);
    assert forall|k: int| 0 <= k < t.parts.len() implies tree_short(#[trigger] t.parts[k]) by {
        lemma_part_short(t.parts, 0, k);
    }
    match e {
        Expr::BinaryOp { left, op, right } => {
            assert(t.parts[0] == tree_of(*left) && t.parts[1] == tree_of(*right));
            lemma_short_fits(*left);
            lemma_short_fits(*right);
        },
        Expr::UnaryOp { op, expr } => {
            assert(t.parts[0] == tree_of(*expr));
            lemma_short_fits(*expr);
        },
        Expr::IsNull(expr) => {
            assert(t.parts[0] == tree_of(*expr));
            lemma_short_fits(*expr);
        },
        Expr::IsNotNull(expr) => {
            assert(t.parts[0] == tree_of(*expr));
            lemma_short_fits(*expr);
        },
        Expr::Function { name, args, distinct } => {
            lemma_trees_from(args, 0, Seq::empty());
            lemma_list_fits(args, t.parts, 0);
        },
        Expr::Like { expr, pattern } => {
            assert(t.parts[0] == tree_of(*expr) && t.parts[1] == tree_of(*pattern));
            lemma_short_fits(*expr);
            lemma_short_fits(*pattern);
        },
        Expr::NotLike { expr, pattern } => {
            assert(t.parts[0] == tree_of(*expr) && t.parts[1] == tree_of(*pattern));
            lemma_short_fits(*expr);
            lemma_short_fits(*pattern);
        },
        Expr::In { expr, list } => {
            lemma_trees_from(list, 0, seq![tree_of(*expr)]);
            assert(t.parts[0] == tree_of(*expr));
            lemma_short_fits(*expr);
            lemma_list_fits(list, t.parts, 1);
        },
        Expr::NotIn { expr, list } => {
            lemma_trees_from(list, 0, seq![tree_of(*expr)]);
            assert(t.parts[0] == tree_of(*expr));
            lemma_short_fits(*expr);
            lemma_list_fits(list, t.parts, 1);
        },
        Expr::Between { expr, low, high } => {
            assert(t.parts[0] == tree_of(*expr) && t.parts[1] == tree_of(*low) && t.parts[2]
                == tree_of(*high));
            lemma_short_fits(*expr);
            lemma_short_fits(*low);
            lemma_short_fits(*high);
        },
        Expr::Case { operand, when_clauses, else_result } => {
            let first = match operand {
                Some(x) => seq![tree_of(*x)],
                None => Seq::empty(),
            };
            lemma_whens_from(when_clauses, 0, first);
            if let Some(x) = operand {
                assert(t.parts[0] == tree_of(*x));
                lemma_short_fits(*x);
            }
            if let Some(x) = else_result {
                assert(t.parts.last() == tree_of(*x));
                lemma_short_fits(*x);
            }
            lemma_whens_fit(when_clauses, t.parts, first.len() as int);
        },
        Expr::Cast { expr, data_type } => {
            assert(t.parts[0] == tree_of(*expr));
            lemma_short_fits(*expr);
        },
        Expr::Concat { left, right } => {
            assert(t.parts[0] == tree_of(*left) && t.parts[1] == tree_of(*right));
            lemma_short_fits(*left);
            lemma_short_fits(*right);
        },
        _ => {},
    }
    lemma_parts_fit(t.parts, 0);
    lemma_shape(e);
}

/// The node of every expression stands for one.
proof fn lemma_shape(e: Expr)
    ensures
        shape(tree_of(e)),
{
    reveal(shape);
    let t = tree_of(e);
    match e {
        Expr::In { expr, list } => lemma_trees_from(list, 0, seq![tree_of(*expr)]),
        Expr::NotIn { expr, list } => lemma_trees_from(list, 0, seq![tree_of(*expr)]),
        Expr::Case { operand, when_clauses, else_result } => {
            let first = match operand {
                Some(x) => seq![tree_of(*x)],
                None => Seq::empty(),
            };
            lemma_whens_from(when_clauses, 0, first);
        },
        Expr::Cast { expr, data_type } => {
            assert(type_coded(type_code(data_type)) == Some(data_type));
        },
        _ => {},
    }
}

proof fn lemma_list_fits(list: Vec<Expr>, parts: Seq<Tree>, at: int)
    requires
        0 <= at,
        parts.len() == at + list.len(),
        forall|k: int| 0 <= k < parts.len() ==> tree_short(#[trigger] parts[k]),
        forall|k: int| at <= k < parts.len() ==> #[trigger] parts[k] == tree_of(list[k - at]),
    ensures
        forall|k: int| at <= k < parts.len() ==> tree_fits(#[trigger] parts[k]),
    decreases list, 0int,
{
    assert forall|k: int| at <= k < parts.len() implies tree_fits(#[trigger] parts[k]) by {
        assert(parts[k] == tree_of(list[k - at]));
        lemma_short_fits(list[k - at]);
    }
}

proof fn lemma_whens_fit(whens: Vec<(Expr, Expr)>, parts: Seq<Tree>, at: int)
    requires
        0 <= at,
        at + 2 * whens.len() <= parts.len(),
        forall|k: int| 0 <= k < parts.len() ==> tree_short(#[trigger] parts[k]),
        forall|k: int|
            at <= k < at + 2 * whens.len() ==> #[trigger] parts[k] == when_trees(whens@)[k - at],
    ensures
        forall|k: int| at <= k < at + 2 * whens.len() ==> tree_fits(#[trigger] parts[k]),
    decreases whens, 0int,
{
    assert forall|k: int| at <= k < at + 2 * whens.len() implies tree_fits(
        #[trigger] parts[k],
    ) by {
        assert(parts[k] == when_trees(whens@)[k - at]);
        if (k - at) % 2 == 0 {
            lemma_short_fits(whens[(k - at) / 2].0);
        } else {
            lemma_short_fits(whens[(k - at) / 2].1);
        }
    }
}

} // verus!
