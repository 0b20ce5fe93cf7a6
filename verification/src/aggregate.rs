//! Aggregate functions and GROUP BY.
use crate::float;
use crate::ast::{Expr, LiteralValue, SelectColumn};
use crate::builtins::{aggregate_name, is_aggregate_name};
use crate::bytes::{find_key, lemma_bytes_deep};
use crate::calls::{apply_call, call_on, join_texts, joined_text};
use crate::cast::{cast, eval_cast};
use crate::common::RID;
use crate::compare::{coerced_equal, equal_coerced};
use crate::error::{execution, outcome, ErrorView, ForgeError, Result};
use crate::eval::{
    apply_between, apply_like, apply_unary_op, between, binary_op, eval, eval_binary_op_values,
    evaluate, like_op, unary_op,
};
use crate::float::float_of_int;
use crate::grouping::{every_place, groups, within, Grouping};
use crate::host::{FloatOp, Host, HostView};
use crate::order::Order;
use crate::schema::Schema;
use crate::text::{same_text, upper_text};
use crate::types::{Value, ValueView};
use crate::values::{apply_arith, arith, put_key, serialize_value_key, value_key, Arith};
use vstd::prelude::*;

verus! {

/// A row with its place, as values.
pub type RowView = (RID, Seq<ValueView>);

// ---------------------------------------------------------------------------
// Where aggregates occur
// ---------------------------------------------------------------------------

/// Whether an expression contains an aggregate function, itself or in an argument of another
/// function.
pub open spec fn has_aggregate(e: Expr) -> bool
    decreases e, 0int,
{
    match e {
        Expr::Function { name, args, distinct } => aggregate_name(upper_text(name@))
            || list_has_aggregate(args, 0),
        Expr::BinaryOp { left, op, right } => has_aggregate(*left) || has_aggregate(*right),
        Expr::UnaryOp { op, expr } => has_aggregate(*expr),
        Expr::Case { operand, when_clauses, else_result } => {
            ||| match operand {
                Some(op) => has_aggregate(*op),
                None => false,
            }
            ||| branch_has_aggregate(when_clauses, 0)
            ||| match else_result {
                Some(els) => has_aggregate(*els),
                None => false,
            }
        },
        Expr::IsNull(inner) => has_aggregate(*inner),
        Expr::IsNotNull(inner) => has_aggregate(*inner),
        Expr::Like { expr, pattern } => has_aggregate(*expr) || has_aggregate(*pattern),
        Expr::NotLike { expr, pattern } => has_aggregate(*expr) || has_aggregate(*pattern),
        Expr::In { expr, list } => has_aggregate(*expr) || list_has_aggregate(list, 0),
        Expr::NotIn { expr, list } => has_aggregate(*expr) || list_has_aggregate(list, 0),
        Expr::Between { expr, low, high } => has_aggregate(*expr) || has_aggregate(*low)
            || has_aggregate(*high),
        Expr::Cast { expr, data_type } => has_aggregate(*expr),
        Expr::Concat { left, right } => has_aggregate(*left) || has_aggregate(*right),
        _ => false,
    }
}

/// Whether one of the expressions from `i` on contains an aggregate function.
pub open spec fn list_has_aggregate(list: Vec<Expr>, i: int) -> bool
    decreases list, list.len() - i,
{
    0 <= i < list.len() && (has_aggregate(list[i]) || list_has_aggregate(list, i + 1))
}

/// Whether one of the branches from `i` on contains an aggregate function.
pub open spec fn branch_has_aggregate(whens: Vec<(Expr, Expr)>, i: int) -> bool
    decreases whens, whens.len() - i,
{
    0 <= i < whens.len() && (has_aggregate(whens[i].0) || has_aggregate(whens[i].1)
        || branch_has_aggregate(whens, i + 1))
}

/// Whether an expression contains an aggregate function.
pub fn expr_has_aggregate(expr: &Expr) -> (r: bool)
    ensures
        r == has_aggregate(*expr),
    decreases *expr, 0int,
{
    match expr {
        Expr::Function { name, args, distinct: _ } => is_aggregate_name(
            name.as_str().to_uppercase().as_str(),
        ) || exprs_have_aggregate(args),
        Expr::BinaryOp { left, op: _, right } => expr_has_aggregate(left) || expr_has_aggregate(
            right,
        ),
        Expr::UnaryOp { op: _, expr: inner } => expr_has_aggregate(inner),
        Expr::Case { operand, when_clauses, else_result } => {
            let first: bool = match operand {
                Some(op) => expr_has_aggregate(op),
                None => false,
            };
            if first || branches_have_aggregate(when_clauses) {
                return true;
            }
            match else_result {
                Some(els) => expr_has_aggregate(els),
                None => false,
            }
        },
        Expr::IsNull(inner) => expr_has_aggregate(inner),
        Expr::IsNotNull(inner) => expr_has_aggregate(inner),
        Expr::Like { expr: inner, pattern } => expr_has_aggregate(inner) || expr_has_aggregate(
            pattern,
        ),
        Expr::NotLike { expr: inner, pattern } => expr_has_aggregate(inner) || expr_has_aggregate(
            pattern,
        ),
        Expr::In { expr: inner, list } => expr_has_aggregate(inner) || exprs_have_aggregate(list),
        Expr::NotIn { expr: inner, list } => expr_has_aggregate(inner) || exprs_have_aggregate(
            list,
        ),
        Expr::Between { expr: inner, low, high } => expr_has_aggregate(inner) || expr_has_aggregate(
            low,
        ) || expr_has_aggregate(high),
        Expr::Cast { expr: inner, data_type: _ } => expr_has_aggregate(inner),
        Expr::Concat { left, right } => expr_has_aggregate(left) || expr_has_aggregate(right),
        _ => false,
    }
}

fn exprs_have_aggregate(list: &Vec<Expr>) -> (r: bool)
    ensures
        r == list_has_aggregate(*list, 0),
    decreases *list, list.len(),
{
    let mut i: usize = 0;
    while i < list.len()
        invariant
            0 <= i <= list.len(),
            list_has_aggregate(*list, 0) == list_has_aggregate(*list, i as int),
        decreases list.len() - i,
    {
        if expr_has_aggregate(&list[i]) {
            return true;
        }
        i += 1;
    }
    false
}

fn branches_have_aggregate(whens: &Vec<(Expr, Expr)>) -> (r: bool)
    ensures
        r == branch_has_aggregate(*whens, 0),
    decreases *whens, whens.len(),
{
    let mut i: usize = 0;
    while i < whens.len()
        invariant
            0 <= i <= whens.len(),
            branch_has_aggregate(*whens, 0) == branch_has_aggregate(*whens, i as int),
        decreases whens.len() - i,
    {
        if expr_has_aggregate(&whens[i].0) || expr_has_aggregate(&whens[i].1) {
            return true;
        }
        i += 1;
    }
    false
}

/// Whether a SELECT column contains an aggregate function.
pub open spec fn column_has_aggregate(c: SelectColumn) -> bool {
    match c {
        SelectColumn::Expr { expr, alias } => has_aggregate(expr),
        SelectColumn::AllColumns(_) => false,
    }
}

/// Check if any select columns contain aggregate functions.
pub fn has_aggregates(columns: &[SelectColumn]) -> (r: bool)
    ensures
        r == exists|i: int| 0 <= i < columns@.len() && column_has_aggregate(#[trigger] columns@[i]),
{
    let mut i: usize = 0;
    while i < columns.len()
        invariant
            0 <= i <= columns.len(),
            forall|k: int| 0 <= k < i ==> !column_has_aggregate(#[trigger] columns@[k]),
        decreases columns.len() - i,
    {
        let found: bool = match &columns[i] {
            SelectColumn::Expr { expr, alias: _ } => expr_has_aggregate(expr),
            SelectColumn::AllColumns(_) => false,
        };
        if found {
            assert(column_has_aggregate(columns@[i as int]));
            return true;
        }
        i += 1;
    }
    false
}

// ---------------------------------------------------------------------------
// One aggregate function
// ---------------------------------------------------------------------------

/// The aggregate functions.
#[derive(Debug, Clone, Copy, PartialEq, Eq, Structural)]
pub enum Aggregate {
    Count,
    Sum,
    Avg,
    Min,
    Max,
}

/// The aggregate function that an uppercase name stands for.
pub open spec fn aggregate_of(s: Seq<char>) -> Aggregate {
    if s == "COUNT"@ {
        Aggregate::Count
    } else if s == "SUM"@ {
        Aggregate::Sum
    } else if s == "AVG"@ {
        Aggregate::Avg
    } else if s == "MIN"@ {
        Aggregate::Min
    } else {
        Aggregate::Max
    }
}

/// The aggregate function that an uppercase name stands for.
pub fn which_aggregate(s: &str) -> (r: Aggregate)
    ensures
        r == aggregate_of(s@),
{
    if same_text(s, "COUNT") {
        Aggregate::Count
    } else if same_text(s, "SUM") {
        Aggregate::Sum
    } else if same_text(s, "AVG") {
        Aggregate::Avg
    } else if same_text(s, "MIN") {
        Aggregate::Min
    } else {
        Aggregate::Max
    }
}

/// What has been gathered from the rows so far: how many values counted, their sum or
/// extreme, their sum as a double, and the keys of the values seen.
pub struct Gathered {
    pub count: nat,
    pub acc: ValueView,
    pub fsum: u64,
    pub seen: Seq<Seq<u8>>,
}

/// Nothing gathered.
pub open spec fn nothing() -> Gathered {
    Gathered { count: 0, acc: ValueView::Null, fsum: 0, seen: Seq::empty() }
}

/// The double by which a value enters an average.
pub open spec fn avg_term(v: ValueView) -> Option<u64> {
    match v {
        ValueView::Integer(n) => Some(float_of_int(n as int) as u64),
        ValueView::BigInt(n) => Some(float_of_int(n as int) as u64),
        ValueView::Float(f) => Some(f),
        _ => None,
    }
}

/// One value that is not NULL and counts, added to what has been gathered.
pub open spec fn gather_value(f: Aggregate, st: Gathered, v: ValueView, h: HostView) -> std::result::Result<
    Gathered,
    ErrorView,
> {
    match f {
        Aggregate::Count => Ok(Gathered { count: st.count + 1, ..st }),
        Aggregate::Sum => if st.acc.is_null() {
            Ok(Gathered { acc: v, ..st })
        } else {
            match arith(Arith::Plus, st.acc, v, h) {
                Err(e) => Err(e),
                Ok(s) => Ok(Gathered { acc: s, ..st }),
            }
        },
        Aggregate::Avg => match avg_term(v) {
            None => Err(ErrorView::Execution("AVG requires numeric values"@)),
            Some(x) => match h.numeric(FloatOp::Add, st.fsum, x) {
                Err(e) => Err(e),
                Ok(s) => Ok(Gathered { count: st.count + 1, fsum: s, ..st }),
            },
        },
        Aggregate::Min => if st.acc.is_null() || v.compare(st.acc) == Some(Order::Less) {
            Ok(Gathered { acc: v, ..st })
        } else {
            Ok(st)
        },
        Aggregate::Max => if st.acc.is_null() || v.compare(st.acc) == Some(Order::Greater) {
            Ok(Gathered { acc: v, ..st })
        } else {
            Ok(st)
        },
    }
}

/// One value added to what has been gathered. NULL does not count; with DISTINCT, nor does a
/// value that was seen before, except to MIN and MAX, for which it makes no difference.
pub open spec fn gather(f: Aggregate, distinct: bool, st: Gathered, v: ValueView, h: HostView) -> std::result::Result<
    Gathered,
    ErrorView,
> {
    if v.is_null() {
        Ok(st)
    } else if distinct && f != Aggregate::Min && f != Aggregate::Max {
        if st.seen.contains(value_key(v)) {
            Ok(st)
        } else {
            gather_value(f, Gathered { seen: st.seen.push(value_key(v)), ..st }, v, h)
        }
    } else {
        gather_value(f, st, v, h)
    }
}

/// What is gathered from the rows from `i` on.
pub open spec fn gather_from(
    f: Aggregate,
    distinct: bool,
    arg: Expr,
    rows: Seq<RowView>,
    i: int,
    st: Gathered,
    names: Seq<Seq<char>>,
    h: HostView,
) -> std::result::Result<Gathered, ErrorView>
    decreases rows.len() - i,
{
    if i < 0 || i >= rows.len() {
        Ok(st)
    } else {
        match eval(arg, rows[i].1, names, h) {
            Err(e) => Err(e),
            Ok(v) => match gather(f, distinct, st, v, h) {
                Err(e) => Err(e),
                Ok(next) => gather_from(f, distinct, arg, rows, i + 1, next, names, h),
            },
        }
    }
}

/// The result of an aggregate function on what has been gathered.
pub open spec fn gathered_value(f: Aggregate, st: Gathered, h: HostView) -> std::result::Result<
    ValueView,
    ErrorView,
> {
    match f {
        Aggregate::Count => Ok(ValueView::BigInt(st.count as i64)),
        Aggregate::Avg => if st.count == 0 {
            Ok(ValueView::Null)
        } else {
            match h.numeric(
                FloatOp::Div,
                st.fsum,
                float_of_int((st.count as i64) as int) as u64,
            ) {
                Ok(q) => Ok(ValueView::Float(q)),
                Err(e) => Err(e),
            }
        },
        _ => Ok(st.acc),
    }
}

/// Whether the argument list is that of COUNT(*).
pub open spec fn starred(args: Vec<Expr>) -> bool {
    args.len() == 0 || match args[0] {
        Expr::Literal(LiteralValue::String(s)) => s@ == "*"@,
        _ => false,
    }
}

/// Whether the argument list is that of COUNT(*).
pub fn is_starred(args: &Vec<Expr>) -> (r: bool)
    ensures
        r == starred(*args),
{
    if args.len() == 0 {
        return true;
    }
    match &args[0] {
        Expr::Literal(LiteralValue::String(s)) => same_text(s.as_str(), "*"),
        _ => false,
    }
}

/// The error for a missing argument.
pub open spec fn missing_argument(f: Aggregate) -> ErrorView {
    ErrorView::Execution(
        match f {
            Aggregate::Sum => "SUM requires argument"@,
            Aggregate::Avg => "AVG requires argument"@,
            Aggregate::Min => "MIN requires argument"@,
            _ => "MAX requires argument"@,
        },
    )
}

/// The value of an aggregate function over rows.
pub open spec fn aggregate(
    f: Aggregate,
    args: Vec<Expr>,
    distinct: bool,
    rows: Seq<RowView>,
    names: Seq<Seq<char>>,
    h: HostView,
) -> std::result::Result<ValueView, ErrorView> {
    if f == Aggregate::Count && starred(args) {
        Ok(ValueView::BigInt(rows.len() as i64))
    } else if args.len() == 0 {
        Err(missing_argument(f))
    } else {
        match gather_from(f, distinct, args[0], rows, 0, nothing(), names, h) {
            Err(e) => Err(e),
            Ok(st) => gathered_value(f, st, h),
        }
    }
}

/// The rows that stand at the given places.
pub open spec fn picked(rows: Seq<RowView>, idx: Seq<usize>) -> Seq<RowView> {
    Seq::new(idx.len(), |k: int| rows[idx[k] as int])
}

/// What an aggregation has gathered from the rows so far.
pub struct Gatherer {
    count: usize,
    acc: Value,
    fsum: u64,
    seen: Vec<Vec<u8>>,
}

impl Gatherer {
    pub closed spec fn state(self) -> Gathered {
        Gathered {
            count: self.count as nat,
            acc: self.acc@,
            fsum: self.fsum,
            seen: self.seen.deep_view(),
        }
    }

    /// Nothing gathered yet.
    pub fn new() -> (g: Gatherer)
        ensures
            g.state() == nothing(),
    {
        let g = Gatherer { count: 0, acc: Value::Null, fsum: 0, seen: Vec::new() };
        assert(g.state().seen =~= nothing().seen);
        g
    }

    /// Counts a row.
    pub fn count_one(self) -> (g: Gatherer)
        requires
            self.state().count < usize::MAX,
        ensures
            g.state() == (Gathered { count: self.state().count + 1, ..self.state() }),
    {
        let mut g = self;
        g.count = g.count + 1;
        g
    }

    /// Takes a value over.
    pub fn hold(self, v: Value) -> (g: Gatherer)
        ensures
            g.state() == (Gathered { acc: v@, ..self.state() }),
    {
        let mut g = self;
        g.acc = v;
        g
    }

    /// The value taken over.
    pub fn held(self) -> (v: Value)
        ensures
            v@ == self.state().acc,
    {
        self.acc
    }

    fn add_value(self, f: Aggregate, v: Value, host: &Host) -> (r: std::result::Result<
        Gatherer,
        ForgeError,
    >)
        requires
            self.state().count < usize::MAX,
        ensures
            match r {
                Ok(g) => gather_value(f, self.state(), v@, host@) == Ok::<Gathered, ErrorView>(
                    g.state(),
                ) && g.state().count <= self.state().count + 1,
                Err(e) => gather_value(f, self.state(), v@, host@) == Err::<Gathered, ErrorView>(
                    e@,
                ),
            },
    {
        match f {
            Aggregate::Count => {
                let mut g = self;
                g.count = g.count + 1;
                Ok(g)
            },
            Aggregate::Sum => {
                let mut g = self;
                if g.acc.is_null() {
                    g.acc = v;
                } else {
                    let s = apply_arith(Arith::Plus, &g.acc, &v, host)?;
                    g.acc = s;
                }
                Ok(g)
            },
            Aggregate::Avg => {
                let x: u64 = match &v {
                    Value::Integer(n) => float::of_i64(*n as i64),
                    Value::BigInt(n) => float::of_i64(*n),
                    Value::Float(x) => *x,
                    _ => {
                        return Err(
                            ForgeError::Execution("AVG requires numeric values".to_owned()),
                        );
                    },
                };
                let mut g = self;
                let s: u64 = host.numeric(FloatOp::Add, g.fsum, x)?;
                g.fsum = s;
                g.count = g.count + 1;
                Ok(g)
            },
            Aggregate::Min => {
                let mut g = self;
                let less: bool = match v.compare(&g.acc) {
                    Some(Order::Less) => true,
                    _ => false,
                };
                if g.acc.is_null() || less {
                    g.acc = v;
                }
                Ok(g)
            },
            Aggregate::Max => {
                let mut g = self;
                let more: bool = match v.compare(&g.acc) {
                    Some(Order::Greater) => true,
                    _ => false,
                };
                if g.acc.is_null() || more {
                    g.acc = v;
                }
                Ok(g)
            },
        }
    }

    /// Adds a value.
    pub fn add(self, f: Aggregate, distinct: bool, v: Value, host: &Host) -> (r: std::result::Result<
        Gatherer,
        ForgeError,
    >)
        requires
            self.state().count < usize::MAX,
        ensures
            match r {
                Ok(g) => gather(f, distinct, self.state(), v@, host@) == Ok::<Gathered, ErrorView>(
                    g.state(),
                ) && g.state().count <= self.state().count + 1,
                Err(e) => gather(f, distinct, self.state(), v@, host@) == Err::<
                    Gathered,
                    ErrorView,
                >(e@),
            },
    {
        if v.is_null() {
            return Ok(self);
        }
        if distinct && f != Aggregate::Min && f != Aggregate::Max {
            let key = serialize_value_key(&v);
            match find_key(&self.seen, &key) {
                Some(_) => Ok(self),
                None => {
                    let mut g = self;
                    let ghost before = g.seen.deep_view();
                    proof {
                        lemma_bytes_deep(key);
                    }
                    g.seen.push(key);
                    assert(g.seen.deep_view() =~= before.push(value_key(v@)));
                    g.add_value(f, v, host)
                },
            }
        } else {
            self.add_value(f, v, host)
        }
    }

    /// The result.
    pub fn finish(self, f: Aggregate, host: &Host) -> (r: Result<Value>)
        ensures
            outcome(r) == gathered_value(f, self.state(), host@),
    {
        match f {
            Aggregate::Count => Ok(Value::BigInt(self.count as i64)),
            Aggregate::Avg => {
                if self.count == 0 {
                    return Ok(Value::Null);
                }
                let q: u64 = host.numeric(
                    FloatOp::Div,
                    self.fsum,
                    float::of_i64(self.count as i64),
                )?;
                Ok(Value::Float(q))
            },
            _ => Ok(self.acc),
        }
    }
}

/// The value of an aggregate function over the rows at the given places.
pub fn compute_aggregate(
    f: Aggregate,
    args: &Vec<Expr>,
    distinct: bool,
    rows: &[(RID, Vec<Value>)],
    idx: &Vec<usize>,
    schema: &Schema,
    host: &Host,
) -> (r: Result<Value>)
    requires
        within(idx@, rows@.len() as int),
    ensures
        outcome(r) == aggregate(
            f,
            *args,
            distinct,
            picked(rows.deep_view(), idx@),
            schema.names(),
            host@,
        ),
{
    if f == Aggregate::Count && is_starred(args) {
        return Ok(Value::BigInt(idx.len() as i64));
    }
    if args.len() == 0 {
        return match f {
            Aggregate::Sum => execution("SUM requires argument"),
            Aggregate::Avg => execution("AVG requires argument"),
            Aggregate::Min => execution("MIN requires argument"),
            _ => execution("MAX requires argument"),
        };
    }
    let ghost all = picked(rows.deep_view(), idx@);
    let mut g = Gatherer::new();
    let mut i: usize = 0;
    while i < idx.len()
        invariant
            0 <= i <= idx.len(),
            g.count <= i,
            args.len() > 0,
            within(idx@, rows@.len() as int),
            all == picked(rows.deep_view(), idx@),
            gather_from(f, distinct, args@[0], all, 0, nothing(), schema.names(), host@)
                == gather_from(
                f,
                distinct,
                args@[0],
                all,
                i as int,
                g.state(),
                schema.names(),
                host@,
            ),
        decreases idx.len() - i,
    {
        let k: usize = idx[i];
        assert(all[i as int].1 == rows@[k as int].1.deep_view());
        let v = evaluate(&args[0], rows[k].1.as_slice(), schema, host)?;
        g = g.add(f, distinct, v, host)?;
        i += 1;
    }
    g.finish(f, host)
}

// ---------------------------------------------------------------------------
// Expressions with aggregates
// ---------------------------------------------------------------------------

/// The value of an expression on the first of the rows; NULL, where there is none.
pub open spec fn on_first(e: Expr, rows: Seq<RowView>, names: Seq<Seq<char>>, h: HostView) -> std::result::Result<
    ValueView,
    ErrorView,
> {
    if rows.len() == 0 {
        Ok(ValueView::Null)
    } else {
        eval(e, rows[0].1, names, h)
    }
}

fn evaluate_first(
    expr: &Expr,
    rows: &[(RID, Vec<Value>)],
    idx: &Vec<usize>,
    schema: &Schema,
    host: &Host,
) -> (r: Result<Value>)
    requires
        within(idx@, rows@.len() as int),
    ensures
        outcome(r) == on_first(*expr, picked(rows.deep_view(), idx@), schema.names(), host@),
{
    if idx.len() == 0 {
        return Ok(Value::Null);
    }
    let k: usize = idx[0];
    assert(picked(rows.deep_view(), idx@)[0].1 == rows@[k as int].1.deep_view());
    evaluate(expr, rows[k].1.as_slice(), schema, host)
}

/// The value of an expression over a group of rows: aggregate functions are computed over
/// the group; operators, CASE, and functions around an aggregate function are applied to the
/// values of their parts; and whatever else is evaluated on the first row.
pub open spec fn agg_eval(e: Expr, rows: Seq<RowView>, names: Seq<Seq<char>>, h: HostView) -> std::result::Result<
    ValueView,
    ErrorView,
>
    decreases e, 0int,
{
    match e {
        Expr::Function { name, args, distinct } => if aggregate_name(upper_text(name@)) {
            aggregate(aggregate_of(upper_text(name@)), args, distinct, rows, names, h)
        } else if list_has_aggregate(args, 0) {
            match agg_values(args, 0, Seq::empty(), rows, names, h) {
                Err(x) => Err(x),
                Ok(vals) => call_on(name@, vals, h),
            }
        } else {
            on_first(e, rows, names, h)
        },
        Expr::BinaryOp { left, op, right } => match agg_eval(*left, rows, names, h) {
            Err(x) => Err(x),
            Ok(l) => match agg_eval(*right, rows, names, h) {
                Err(x) => Err(x),
                Ok(r) => binary_op(l, op, r, h),
            },
        },
        Expr::UnaryOp { op, expr } => match agg_eval(*expr, rows, names, h) {
            Err(x) => Err(x),
            Ok(v) => unary_op(op, v),
        },
        Expr::IsNull(inner) => match agg_eval(*inner, rows, names, h) {
            Err(x) => Err(x),
            Ok(v) => Ok(ValueView::Boolean(v.is_null())),
        },
        Expr::IsNotNull(inner) => match agg_eval(*inner, rows, names, h) {
            Err(x) => Err(x),
            Ok(v) => Ok(ValueView::Boolean(!v.is_null())),
        },
        Expr::Like { expr, pattern } => match agg_eval(*expr, rows, names, h) {
            Err(x) => Err(x),
            Ok(v) => match agg_eval(*pattern, rows, names, h) {
                Err(x) => Err(x),
                Ok(p) => like_op(v, p, false),
            },
        },
        Expr::NotLike { expr, pattern } => match agg_eval(*expr, rows, names, h) {
            Err(x) => Err(x),
            Ok(v) => match agg_eval(*pattern, rows, names, h) {
                Err(x) => Err(x),
                Ok(p) => like_op(v, p, true),
            },
        },
        Expr::In { expr, list } => match agg_eval(*expr, rows, names, h) {
            Err(x) => Err(x),
            Ok(v) => if v.is_null() {
                Ok(ValueView::Null)
            } else {
                match agg_listed(v, list, 0, rows, names, h) {
                    Err(x) => Err(x),
                    Ok(found) => Ok(ValueView::Boolean(found)),
                }
            },
        },
        Expr::NotIn { expr, list } => match agg_eval(*expr, rows, names, h) {
            Err(x) => Err(x),
            Ok(v) => if v.is_null() {
                Ok(ValueView::Null)
            } else {
                match agg_listed(v, list, 0, rows, names, h) {
                    Err(x) => Err(x),
                    Ok(found) => Ok(ValueView::Boolean(!found)),
                }
            },
        },
        Expr::Between { expr, low, high } => match agg_eval(*expr, rows, names, h) {
            Err(x) => Err(x),
            Ok(v) => match agg_eval(*low, rows, names, h) {
                Err(x) => Err(x),
                Ok(lo) => match agg_eval(*high, rows, names, h) {
                    Err(x) => Err(x),
                    Ok(hi) => between(v, lo, hi, h),
                },
            },
        },
        Expr::Cast { expr, data_type } => match agg_eval(*expr, rows, names, h) {
            Err(x) => Err(x),
            Ok(v) => if v.is_null() {
                Ok(ValueView::Null)
            } else {
                cast(v, data_type, h)
            },
        },
        Expr::Concat { left, right } => match agg_eval(*left, rows, names, h) {
            Err(x) => Err(x),
            Ok(l) => match agg_eval(*right, rows, names, h) {
                Err(x) => Err(x),
                Ok(r) => joined_text(l, r, h),
            },
        },
        Expr::Case { operand, when_clauses, else_result } => {
            let chosen = match operand {
                Some(op) => match agg_eval(*op, rows, names, h) {
                    Err(x) => Err(x),
                    Ok(v) => agg_branch(Some(v), when_clauses, 0, rows, names, h),
                },
                None => agg_branch(None, when_clauses, 0, rows, names, h),
            };
            match chosen {
                Err(x) => Err(x),
                Ok(Some(v)) => Ok(v),
                Ok(None) => match else_result {
                    Some(els) => agg_eval(*els, rows, names, h),
                    None => Ok(ValueView::Null),
                },
            }
        },
        _ => on_first(e, rows, names, h),
    }
}

/// The values of the expressions from `i` on over a group of rows, behind `acc`.
pub open spec fn agg_values(
    list: Vec<Expr>,
    i: int,
    acc: Seq<ValueView>,
    rows: Seq<RowView>,
    names: Seq<Seq<char>>,
    h: HostView,
) -> std::result::Result<Seq<ValueView>, ErrorView>
    decreases list, list.len() - i,
{
    if i < 0 || i >= list.len() {
        Ok(acc)
    } else {
        match agg_eval(list[i], rows, names, h) {
            Err(x) => Err(x),
            Ok(v) => agg_values(list, i + 1, acc.push(v), rows, names, h),
        }
    }
}

/// Whether a value equals one of the expressions from `i` on over a group of rows. The first
/// one that is equal ends the search.
pub open spec fn agg_listed(
    v: ValueView,
    list: Vec<Expr>,
    i: int,
    rows: Seq<RowView>,
    names: Seq<Seq<char>>,
    h: HostView,
) -> std::result::Result<bool, ErrorView>
    decreases list, list.len() - i,
{
    if i < 0 || i >= list.len() {
        Ok(false)
    } else {
        match agg_eval(list[i], rows, names, h) {
            Err(x) => Err(x),
            Ok(w) => match coerced_equal(v, w, h) {
                Err(x) => Err(x),
                Ok(same) => if same {
                    Ok(true)
                } else {
                    agg_listed(v, list, i + 1, rows, names, h)
                },
            },
        }
    }
}

/// Whether a branch of a CASE over a group is taken: its condition equals the operand, or,
/// without an operand, is true.
pub open spec fn branch_taken(operand: Option<ValueView>, c: ValueView) -> bool {
    match operand {
        Some(v) => !v.is_null() && !c.is_null() && v.compare(c) == Some(Order::Equal),
        None => c == ValueView::Boolean(true),
    }
}

/// The value of the first branch, from `i` on, that a CASE over a group takes.
pub open spec fn agg_branch(
    operand: Option<ValueView>,
    whens: Vec<(Expr, Expr)>,
    i: int,
    rows: Seq<RowView>,
    names: Seq<Seq<char>>,
    h: HostView,
) -> std::result::Result<Option<ValueView>, ErrorView>
    decreases whens, whens.len() - i,
{
    if i < 0 || i >= whens.len() {
        Ok(None)
    } else {
        match agg_eval(whens[i].0, rows, names, h) {
            Err(x) => Err(x),
            Ok(c) => if branch_taken(operand, c) {
                match agg_eval(whens[i].1, rows, names, h) {
                    Err(x) => Err(x),
                    Ok(v) => Ok(Some(v)),
                }
            } else {
                agg_branch(operand, whens, i + 1, rows, names, h)
            },
        }
    }
}

/// The value of an expression over the rows at the given places.
pub fn evaluate_aggregate_expr(
    expr: &Expr,
    rows: &[(RID, Vec<Value>)],
    idx: &Vec<usize>,
    schema: &Schema,
    host: &Host,
) -> (r: Result<Value>)
    requires
        within(idx@, rows@.len() as int),
    ensures
        outcome(r) == agg_eval(*expr, picked(rows.deep_view(), idx@), schema.names(), host@),
    decreases *expr, 0int,
{
    match expr {
        Expr::Function { name, args, distinct } => {
            let upper = name.as_str().to_uppercase();
            if is_aggregate_name(upper.as_str()) {
                compute_aggregate(
                    which_aggregate(upper.as_str()),
                    args,
                    *distinct,
                    rows,
                    idx,
                    schema,
                    host,
                )
            } else if exprs_have_aggregate(args) {
                let vals = evaluate_aggregate_exprs(args, rows, idx, schema, host)?;
                apply_call(name.as_str(), &vals, host)
            } else {
                evaluate_first(expr, rows, idx, schema, host)
            }
        },
        Expr::BinaryOp { left, op, right } => {
            let l = evaluate_aggregate_expr(left, rows, idx, schema, host)?;
            let r = evaluate_aggregate_expr(right, rows, idx, schema, host)?;
            eval_binary_op_values(&l, op, &r, host)
        },
        Expr::UnaryOp { op, expr: inner } => {
            let v = evaluate_aggregate_expr(inner, rows, idx, schema, host)?;
            apply_unary_op(op, &v)
        },
        Expr::IsNull(inner) => {
            let v = evaluate_aggregate_expr(inner, rows, idx, schema, host)?;
            Ok(Value::Boolean(v.is_null()))
        },
        Expr::IsNotNull(inner) => {
            let v = evaluate_aggregate_expr(inner, rows, idx, schema, host)?;
            Ok(Value::Boolean(!v.is_null()))
        },
        Expr::Like { expr: inner, pattern } => {
            let v = evaluate_aggregate_expr(inner, rows, idx, schema, host)?;
            let p = evaluate_aggregate_expr(pattern, rows, idx, schema, host)?;
            apply_like(&v, &p, false)
        },
        Expr::NotLike { expr: inner, pattern } => {
            let v = evaluate_aggregate_expr(inner, rows, idx, schema, host)?;
            let p = evaluate_aggregate_expr(pattern, rows, idx, schema, host)?;
            apply_like(&v, &p, true)
        },
        Expr::In { expr: inner, list } => {
            let v = evaluate_aggregate_expr(inner, rows, idx, schema, host)?;
            if v.is_null() {
                return Ok(Value::Null);
            }
            let found: bool = find_agg_listed(&v, list, rows, idx, schema, host)?;
            Ok(Value::Boolean(found))
        },
        Expr::NotIn { expr: inner, list } => {
            let v = evaluate_aggregate_expr(inner, rows, idx, schema, host)?;
            if v.is_null() {
                return Ok(Value::Null);
            }
            let found: bool = find_agg_listed(&v, list, rows, idx, schema, host)?;
            Ok(Value::Boolean(!found))
        },
        Expr::Between { expr: inner, low, high } => {
            let v = evaluate_aggregate_expr(inner, rows, idx, schema, host)?;
            let lo = evaluate_aggregate_expr(low, rows, idx, schema, host)?;
            let hi = evaluate_aggregate_expr(high, rows, idx, schema, host)?;
            apply_between(&v, &lo, &hi, host)
        },
        Expr::Cast { expr: inner, data_type } => {
            let v = evaluate_aggregate_expr(inner, rows, idx, schema, host)?;
            if v.is_null() {
                return Ok(Value::Null);
            }
            eval_cast(&v, data_type, host)
        },
        Expr::Concat { left, right } => {
            let l = evaluate_aggregate_expr(left, rows, idx, schema, host)?;
            let r = evaluate_aggregate_expr(right, rows, idx, schema, host)?;
            join_texts(&l, &r, host)
        },
        Expr::Case { operand, when_clauses, else_result } => {
            let chosen = match operand {
                Some(op) => {
                    let v = evaluate_aggregate_expr(op, rows, idx, schema, host)?;
                    choose_agg_branch(Some(v), when_clauses, rows, idx, schema, host)?
                },
                None => choose_agg_branch(None, when_clauses, rows, idx, schema, host)?,
            };
            match chosen {
                Some(v) => Ok(v),
                None => match else_result {
                    Some(els) => evaluate_aggregate_expr(els, rows, idx, schema, host),
                    None => Ok(Value::Null),
                },
            }
        },
        _ => evaluate_first(expr, rows, idx, schema, host),
    }
}

fn evaluate_aggregate_exprs(
    list: &Vec<Expr>,
    rows: &[(RID, Vec<Value>)],
    idx: &Vec<usize>,
    schema: &Schema,
    host: &Host,
) -> (r: Result<Vec<Value>>)
    requires
        within(idx@, rows@.len() as int),
    ensures
        outcome(r) == agg_values(
            *list,
            0,
            Seq::empty(),
            picked(rows.deep_view(), idx@),
            schema.names(),
            host@,
        ),
    decreases *list, list.len(),
{
    let ghost all = picked(rows.deep_view(), idx@);
    let mut out: Vec<Value> = Vec::new();
    assert(out.deep_view() =~= Seq::<ValueView>::empty());
    let mut i: usize = 0;
    while i < list.len()
        invariant
            0 <= i <= list.len(),
            within(idx@, rows@.len() as int),
            all == picked(rows.deep_view(), idx@),
            agg_values(*list, 0, Seq::empty(), all, schema.names(), host@) == agg_values(
                *list,
                i as int,
                out.deep_view(),
                all,
                schema.names(),
                host@,
            ),
        decreases list.len() - i,
    {
        let ghost before = out.deep_view();
        let v = evaluate_aggregate_expr(&list[i], rows, idx, schema, host)?;
        out.push(v);
        assert(out.deep_view() =~= before.push(v@));
        i += 1;
    }
    Ok(out)
}

fn find_agg_listed(
    v: &Value,
    list: &Vec<Expr>,
    rows: &[(RID, Vec<Value>)],
    idx: &Vec<usize>,
    schema: &Schema,
    host: &Host,
) -> (r: Result<bool>)
    requires
        within(idx@, rows@.len() as int),
    ensures
        outcome(r) == agg_listed(
            v@,
            *list,
            0,
            picked(rows.deep_view(), idx@),
            schema.names(),
            host@,
        ),
    decreases *list, list.len(),
{
    let ghost all = picked(rows.deep_view(), idx@);
    let mut i: usize = 0;
    while i < list.len()
        invariant
            0 <= i <= list.len(),
            within(idx@, rows@.len() as int),
            all == picked(rows.deep_view(), idx@),
            agg_listed(v@, *list, 0, all, schema.names(), host@) == agg_listed(
                v@,
                *list,
                i as int,
                all,
                schema.names(),
                host@,
            ),
        decreases list.len() - i,
    {
        let w = evaluate_aggregate_expr(&list[i], rows, idx, schema, host)?;
        if equal_coerced(v, &w, host)? {
            return Ok(true);
        }
        i += 1;
    }
    Ok(false)
}

fn is_branch_taken(operand: &Option<Value>, c: &Value) -> (r: bool)
    ensures
        r == branch_taken(operand.deep_view(), c@),
{
    match operand {
        Some(v) => match v.compare(c) {
            Some(Order::Equal) => !v.is_null() && !c.is_null(),
            _ => false,
        },
        None => match c {
            Value::Boolean(b) => *b,
            _ => false,
        },
    }
}

fn choose_agg_branch(
    operand: Option<Value>,
    whens: &Vec<(Expr, Expr)>,
    rows: &[(RID, Vec<Value>)],
    idx: &Vec<usize>,
    schema: &Schema,
    host: &Host,
) -> (r: Result<Option<Value>>)
    requires
        within(idx@, rows@.len() as int),
    ensures
        outcome(r) == agg_branch(
            operand.deep_view(),
            *whens,
            0,
            picked(rows.deep_view(), idx@),
            schema.names(),
            host@,
        ),
    decreases *whens, whens.len(),
{
    let ghost op = operand.deep_view();
    let ghost all = picked(rows.deep_view(), idx@);
    let mut i: usize = 0;
    while i < whens.len()
        invariant
            0 <= i <= whens.len(),
            within(idx@, rows@.len() as int),
            op == operand.deep_view(),
            all == picked(rows.deep_view(), idx@),
            agg_branch(op, *whens, 0, all, schema.names(), host@) == agg_branch(
                op,
                *whens,
                i as int,
                all,
                schema.names(),
                host@,
            ),
        decreases whens.len() - i,
    {
        let c = evaluate_aggregate_expr(&whens[i].0, rows, idx, schema, host)?;
        if is_branch_taken(&operand, &c) {
            let v = evaluate_aggregate_expr(&whens[i].1, rows, idx, schema, host)?;
            return Ok(Some(v));
        }
        i += 1;
    }
    Ok(None)
}

/// The value of a SELECT expression over a group of rows: where it contains an aggregate
/// function, as [`agg_eval`] has it; whatever else on the first row.
pub open spec fn agg_value(e: Expr, rows: Seq<RowView>, names: Seq<Seq<char>>, h: HostView) -> std::result::Result<
    ValueView,
    ErrorView,
> {
    if has_aggregate(e) {
        agg_eval(e, rows, names, h)
    } else {
        on_first(e, rows, names, h)
    }
}

/// The value of a SELECT expression over the rows at the given places.
pub fn evaluate_aggregate(
    expr: &Expr,
    rows: &[(RID, Vec<Value>)],
    idx: &Vec<usize>,
    schema: &Schema,
    host: &Host,
) -> (r: Result<Value>)
    requires
        within(idx@, rows@.len() as int),
    ensures
        outcome(r) == agg_value(*expr, picked(rows.deep_view(), idx@), schema.names(), host@),
{
    if expr_has_aggregate(expr) {
        evaluate_aggregate_expr(expr, rows, idx, schema, host)
    } else {
        evaluate_first(expr, rows, idx, schema, host)
    }
}

// ---------------------------------------------------------------------------
// Column names
// ---------------------------------------------------------------------------

/// The name under which an expression without an alias appears.
pub open spec fn display_name(e: Expr) -> Seq<char> {
    match e {
        Expr::Function { name, args, distinct } => if args.len() == 0 {
            name@ + "(*)"@
        } else if distinct {
            name@ + "(DISTINCT ?)"@
        } else {
            name@ + "(?)"@
        },
        Expr::ColumnRef { table, column } => column@,
        _ => "?"@,
    }
}

/// The name of a SELECT column.
pub open spec fn column_name(c: SelectColumn) -> Seq<char> {
    match c {
        SelectColumn::Expr { expr, alias } => match alias {
            Some(a) => a@,
            None => display_name(expr),
        },
        SelectColumn::AllColumns(_) => "*"@,
    }
}

/// The name under which an expression without an alias appears.
pub fn expr_display_name(expr: &Expr) -> (r: String)
    ensures
        r@ == display_name(*expr),
{
    match expr {
        Expr::Function { name, args, distinct } => {
            let mut s = name.clone();
            if args.len() == 0 {
                s.append("(*)");
            } else if *distinct {
                s.append("(DISTINCT ?)");
            } else {
                s.append("(?)");
            }
            s
        },
        Expr::ColumnRef { table: _, column } => column.clone(),
        _ => "?".to_owned(),
    }
}

/// The name of a SELECT column.
pub fn select_column_name(c: &SelectColumn) -> (r: String)
    ensures
        r@ == column_name(*c),
{
    match c {
        SelectColumn::Expr { expr, alias } => match alias {
            Some(a) => a.clone(),
            None => expr_display_name(expr),
        },
        SelectColumn::AllColumns(_) => "*".to_owned(),
    }
}

/// The names of SELECT columns.
pub open spec fn column_names(cols: Seq<SelectColumn>) -> Seq<Seq<char>> {
    Seq::new(cols.len(), |i: int| column_name(cols[i]))
}

/// The names of SELECT columns.
pub fn build_column_names(columns: &[SelectColumn]) -> (r: Vec<String>)
    ensures
        r.deep_view() == column_names(columns@),
{
    let mut out: Vec<String> = Vec::new();
    let mut i: usize = 0;
    while i < columns.len()
        invariant
            0 <= i <= columns.len(),
            out.deep_view() == column_names(columns@).take(i as int),
        decreases columns.len() - i,
    {
        let ghost before = out.deep_view();
        let s = select_column_name(&columns[i]);
        out.push(s);
        assert(out.deep_view() == before.push(s@));
        assert(column_names(columns@).take(i + 1) == before.push(s@));
        i += 1;
    }
    assert(column_names(columns@).take(columns.len() as int) == column_names(columns@));
    out
}

// ---------------------------------------------------------------------------
// Without GROUP BY
// ---------------------------------------------------------------------------

/// The values of the SELECT columns from `i` on over a group of rows, behind `acc`.
pub open spec fn agg_row(
    cols: Seq<SelectColumn>,
    i: int,
    acc: Seq<ValueView>,
    star_error: Seq<char>,
    rows: Seq<RowView>,
    names: Seq<Seq<char>>,
    h: HostView,
) -> std::result::Result<Seq<ValueView>, ErrorView>
    decreases cols.len() - i,
{
    if i < 0 || i >= cols.len() {
        Ok(acc)
    } else {
        match cols[i] {
            SelectColumn::AllColumns(_) => Err(ErrorView::Execution(star_error)),
            SelectColumn::Expr { expr, alias } => match agg_value(expr, rows, names, h) {
                Err(e) => Err(e),
                Ok(v) => agg_row(cols, i + 1, acc.push(v), star_error, rows, names, h),
            },
        }
    }
}

fn aggregate_row(
    columns: &[SelectColumn],
    star_error: &str,
    rows: &[(RID, Vec<Value>)],
    idx: &Vec<usize>,
    schema: &Schema,
    host: &Host,
) -> (r: Result<Vec<Value>>)
    requires
        within(idx@, rows@.len() as int),
    ensures
        outcome(r) == agg_row(
            columns@,
            0,
            Seq::empty(),
            star_error@,
            picked(rows.deep_view(), idx@),
            schema.names(),
            host@,
        ),
{
    let ghost all = picked(rows.deep_view(), idx@);
    let mut out: Vec<Value> = Vec::new();
    let mut i: usize = 0;
    assert(out.deep_view() =~= Seq::<ValueView>::empty());
    while i < columns.len()
        invariant
            0 <= i <= columns.len(),
            within(idx@, rows@.len() as int),
            all == picked(rows.deep_view(), idx@),
            agg_row(columns@, 0, Seq::empty(), star_error@, all, schema.names(), host@) == agg_row(
                columns@,
                i as int,
                out.deep_view(),
                star_error@,
                all,
                schema.names(),
                host@,
            ),
        decreases columns.len() - i,
    {
        match &columns[i] {
            SelectColumn::AllColumns(_) => {
                return execution(star_error);
            },
            SelectColumn::Expr { expr, alias: _ } => {
                let v = evaluate_aggregate(expr, rows, idx, schema, host)?;
                let ghost before = out.deep_view();
                out.push(v);
                assert(out.deep_view() =~= before.push(v@));
            },
        }
        i += 1;
    }
    Ok(out)
}

/// The column names and the single row of an aggregation over all rows.
pub open spec fn aggregate_result(
    cols: Seq<SelectColumn>,
    rows: Seq<RowView>,
    names: Seq<Seq<char>>,
    h: HostView,
) -> std::result::Result<(Seq<Seq<char>>, Seq<Seq<ValueView>>), ErrorView> {
    match agg_row(
        cols,
        0,
        Seq::empty(),
        "cannot use * with aggregate functions"@,
        rows,
        names,
        h,
    ) {
        Err(e) => Err(e),
        Ok(row) => Ok((column_names(cols), seq![row])),
    }
}

/// Execute aggregate projection over rows.
/// Returns (column_names, result_rows) - one row for no GROUP BY.
pub fn execute_aggregate(
    columns: &[SelectColumn],
    rows: &[(RID, Vec<Value>)],
    schema: &Schema,
    host: &Host,
) -> (r: Result<(Vec<String>, Vec<Vec<Value>>)>)
    ensures
        outcome(r) == aggregate_result(columns@, rows.deep_view(), schema.names(), host@),
{
    let idx = every_place(rows.len());
    proof {
        assert(picked(rows.deep_view(), idx@) =~= rows.deep_view());
    }
    let row = aggregate_row(
        columns,
        "cannot use * with aggregate functions",
        rows,
        &idx,
        schema,
        host,
    )?;
    let names = build_column_names(columns);
    let ghost view = row.deep_view();
    let mut out: Vec<Vec<Value>> = Vec::new();
    out.push(row);
    assert(out.deep_view() =~= seq![view]);
    Ok((names, out))
}

// ---------------------------------------------------------------------------
// GROUP BY
// ---------------------------------------------------------------------------

/// The key of a row under grouping expressions from `i` on, behind `acc`.
pub open spec fn group_key(
    exprs: Seq<Expr>,
    i: int,
    acc: Seq<u8>,
    row: Seq<ValueView>,
    names: Seq<Seq<char>>,
    h: HostView,
) -> std::result::Result<Seq<u8>, ErrorView>
    decreases exprs.len() - i,
{
    if i < 0 || i >= exprs.len() {
        Ok(acc)
    } else {
        match eval(exprs[i], row, names, h) {
            Err(e) => Err(e),
            Ok(v) => group_key(exprs, i + 1, acc + value_key(v), row, names, h),
        }
    }
}

/// The key of a row under grouping expressions.
pub fn compute_group_key(exprs: &[Expr], row: &[Value], schema: &Schema, host: &Host) -> (r: Result<
    Vec<u8>,
>)
    ensures
        outcome(r) == group_key(
            exprs@,
            0,
            Seq::empty(),
            row.deep_view(),
            schema.names(),
            host@,
        ),
{
    let mut key: Vec<u8> = Vec::new();
    let mut i: usize = 0;
    while i < exprs.len()
        invariant
            0 <= i <= exprs.len(),
            group_key(exprs@, 0, Seq::empty(), row.deep_view(), schema.names(), host@)
                == group_key(
                exprs@,
                i as int,
                key@,
                row.deep_view(),
                schema.names(),
                host@,
            ),
        decreases exprs.len() - i,
    {
        let v = evaluate(&exprs[i], row, schema, host)?;
        put_key(&mut key, &v);
        i += 1;
    }
    proof {
        lemma_bytes_deep(key);
    }
    Ok(key)
}

/// The keys of the rows from `i` on, behind `acc`.
pub open spec fn group_keys(
    exprs: Seq<Expr>,
    rows: Seq<RowView>,
    i: int,
    acc: Seq<Seq<u8>>,
    names: Seq<Seq<char>>,
    h: HostView,
) -> std::result::Result<Seq<Seq<u8>>, ErrorView>
    decreases rows.len() - i,
{
    if i < 0 || i >= rows.len() {
        Ok(acc)
    } else {
        match group_key(exprs, 0, Seq::empty(), rows[i].1, names, h) {
            Err(e) => Err(e),
            Ok(k) => group_keys(exprs, rows, i + 1, acc.push(k), names, h),
        }
    }
}

/// Groups rows by grouping expressions.
fn group_rows(exprs: &[Expr], rows: &[(RID, Vec<Value>)], schema: &Schema, host: &Host) -> (r:
    Result<Vec<Vec<usize>>>)
    ensures
        outcome(r) == match group_keys(
            exprs@,
            rows.deep_view(),
            0,
            Seq::empty(),
            schema.names(),
            host@,
        ) {
            Err(e) => Err(e),
            Ok(keys) => Ok(groups(keys)),
        },
        r matches Ok(g) ==> forall|k: int|
            0 <= k < g@.len() ==> within((#[trigger] g@[k])@, rows@.len() as int),
{
    let ghost view = rows.deep_view();
    let ghost mut keys: Seq<Seq<u8>> = Seq::empty();
    let mut g = Grouping::new();
    let mut i: usize = 0;
    while i < rows.len()
        invariant
            0 <= i <= rows.len(),
            view == rows.deep_view(),
            keys.len() == i,
            group_keys(exprs@, view, 0, Seq::empty(), schema.names(), host@) == group_keys(
                exprs@,
                view,
                i as int,
                keys,
                schema.names(),
                host@,
            ),
            g.of(keys),
        decreases rows.len() - i,
    {
        assert(view[i as int].1 == rows@[i as int].1.deep_view());
        let key = compute_group_key(exprs, rows[i].1.as_slice(), schema, host)?;
        proof {
            lemma_bytes_deep(key);
        }
        g.add(key, i, Ghost(keys));
        proof {
            keys = keys.push(key@);
        }
        i += 1;
    }
    Ok(g.into_groups(Ghost(keys)))
}

/// Whether a group passes a HAVING condition with the given value.
pub open spec fn passes(v: ValueView) -> bool {
    match v {
        ValueView::Boolean(b) => b,
        ValueView::Integer(n) => n != 0,
        ValueView::BigInt(n) => n != 0,
        _ => false,
    }
}

fn value_passes(v: &Value) -> (r: bool)
    ensures
        r == passes(v@),
{
    match v {
        Value::Boolean(b) => *b,
        Value::Integer(n) => *n != 0,
        Value::BigInt(n) => *n != 0,
        _ => false,
    }
}

/// Whether a group passes a HAVING clause.
pub open spec fn group_passes(
    having: Option<Expr>,
    rows: Seq<RowView>,
    names: Seq<Seq<char>>,
    h: HostView,
) -> std::result::Result<bool, ErrorView> {
    match having {
        None => Ok(true),
        Some(e) => match agg_eval(e, rows, names, h) {
            Err(x) => Err(x),
            Ok(v) => Ok(passes(v)),
        },
    }
}

/// The result row of a group; none, if the group does not pass HAVING.
pub open spec fn group_row(
    having: Option<Expr>,
    cols: Seq<SelectColumn>,
    part: Seq<RowView>,
    names: Seq<Seq<char>>,
    h: HostView,
) -> std::result::Result<Option<Seq<ValueView>>, ErrorView> {
    match group_passes(having, part, names, h) {
        Err(e) => Err(e),
        Ok(b) => if !b {
            Ok(None)
        } else {
            match agg_row(cols, 0, Seq::empty(), "cannot use * with GROUP BY"@, part, names, h) {
                Err(e) => Err(e),
                Ok(row) => Ok(Some(row)),
            }
        },
    }
}

fn result_row(
    having: &Option<Expr>,
    columns: &[SelectColumn],
    rows: &[(RID, Vec<Value>)],
    idx: &Vec<usize>,
    schema: &Schema,
    host: &Host,
) -> (r: Result<Option<Vec<Value>>>)
    requires
        within(idx@, rows@.len() as int),
    ensures
        outcome(r) == group_row(
            *having,
            columns@,
            picked(rows.deep_view(), idx@),
            schema.names(),
            host@,
        ),
{
    let keep: bool = match having {
        None => true,
        Some(e) => {
            let v = evaluate_aggregate_expr(e, rows, idx, schema, host)?;
            value_passes(&v)
        },
    };
    if !keep {
        return Ok(None);
    }
    let row = aggregate_row(columns, "cannot use * with GROUP BY", rows, idx, schema, host)?;
    Ok(Some(row))
}

/// The result rows of the groups from `g` on, behind `acc`.
pub open spec fn group_rows_from(
    having: Option<Expr>,
    cols: Seq<SelectColumn>,
    groups: Seq<Seq<usize>>,
    g: int,
    acc: Seq<Seq<ValueView>>,
    rows: Seq<RowView>,
    names: Seq<Seq<char>>,
    h: HostView,
) -> std::result::Result<Seq<Seq<ValueView>>, ErrorView>
    decreases groups.len() - g,
{
    if g < 0 || g >= groups.len() {
        Ok(acc)
    } else {
        match group_row(having, cols, picked(rows, groups[g]), names, h) {
            Err(e) => Err(e),
            Ok(None) => group_rows_from(having, cols, groups, g + 1, acc, rows, names, h),
            Ok(Some(row)) => group_rows_from(
                having,
                cols,
                groups,
                g + 1,
                acc.push(row),
                rows,
                names,
                h,
            ),
        }
    }
}

/// The column names and rows of a GROUP BY: one row for each group that passes HAVING, in
/// the order in which the groups first occur.
pub open spec fn group_by_result(
    exprs: Seq<Expr>,
    having: Option<Expr>,
    cols: Seq<SelectColumn>,
    rows: Seq<RowView>,
    names: Seq<Seq<char>>,
    h: HostView,
) -> std::result::Result<(Seq<Seq<char>>, Seq<Seq<ValueView>>), ErrorView> {
    match group_keys(exprs, rows, 0, Seq::empty(), names, h) {
        Err(e) => Err(e),
        Ok(keys) => match group_rows_from(
            having,
            cols,
            groups(keys),
            0,
            Seq::empty(),
            rows,
            names,
            h,
        ) {
            Err(e) => Err(e),
            Ok(out) => Ok((column_names(cols), out)),
        },
    }
}

/// Execute aggregate projection with GROUP BY.
///
/// Groups rows by evaluating `group_exprs`, computes aggregates per group,
/// and optionally filters groups with `having`.
///
/// Returns (column_names, result_rows).
pub fn execute_group_by(
    group_exprs: &[Expr],
    having: &Option<Expr>,
    select_columns: &[SelectColumn],
    rows: &[(RID, Vec<Value>)],
    schema: &Schema,
    host: &Host,
) -> (r: Result<(Vec<String>, Vec<Vec<Value>>)>)
    ensures
        outcome(r) == group_by_result(
            group_exprs@,
            *having,
            select_columns@,
            rows.deep_view(),
            schema.names(),
            host@,
        ),
{
    let list = group_rows(group_exprs, rows, schema, host)?;
    let ghost all = list.deep_view();
    let ghost view = rows.deep_view();
    let ghost found = group_keys(group_exprs@, view, 0, Seq::empty(), schema.names(), host@);
    let mut out: Vec<Vec<Value>> = Vec::new();
    let mut g: usize = 0;
    assert(out.deep_view() =~= Seq::<Seq<ValueView>>::empty());
    while g < list.len()
        invariant
            0 <= g <= list.len(),
            all == list.deep_view(),
            view == rows.deep_view(),
            found == group_keys(group_exprs@, view, 0, Seq::empty(), schema.names(), host@),
            found is Ok,
            all == groups(found->Ok_0),
            forall|k: int|
                0 <= k < list@.len() ==> within((#[trigger] list@[k])@, rows@.len() as int),
            group_rows_from(
                *having,
                select_columns@,
                all,
                0,
                Seq::empty(),
                view,
                schema.names(),
                host@,
            ) == group_rows_from(
                *having,
                select_columns@,
                all,
                g as int,
                out.deep_view(),
                view,
                schema.names(),
                host@,
            ),
        decreases list.len() - g,
    {
        let idx = &list[g];
        assert(all[g as int] =~= idx@);
        let row = result_row(having, select_columns, rows, idx, schema, host)?;
        if let Some(row) = row {
            let ghost before = out.deep_view();
            let ghost rv = row.deep_view();
            out.push(row);
            assert(out.deep_view() =~= before.push(rv));
        }
        g += 1;
    }
    Ok((build_column_names(select_columns), out))
}

} // verus!
