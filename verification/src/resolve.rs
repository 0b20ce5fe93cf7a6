//! Queries inside a statement: they run before it, and their results take their places.
use crate::ast::{Expr, FromClause, LiteralValue, SelectColumn, Statement};
use crate::common::TxnId;
use crate::engine::{next_number, Engine, EngineView};
use crate::error::{error_of, outcome, viewed, ErrorView, ForgeError, Result};
use crate::executor::Answer;
use crate::host::{Host, HostView};
use crate::plan::PlanNode;
use crate::run::{inserted_as, midway, planned_ran, stmt_ran};
use crate::state::ExecuteResult;
use crate::statements::{
    as_literal, define_columns, literal_error, result_columns, rows_to_literals, stands_for,
    value_to_literal_expr,
};
use crate::text::{same_text, upper_text};
use crate::types::{Value, ValueView};
use crate::values::sort_key;
use vstd::prelude::*;

verus! {

// ---------------------------------------------------------------------------
// Tables of results
// ---------------------------------------------------------------------------

/// The steps of writing a result into a table.
pub struct Storing {
    pub drop: Statement,
    pub dropped: EngineView,
    pub dropping: Answer,
    pub make: Statement,
    pub empty: EngineView,
    pub making: Answer,
    pub table: String,
    pub values: Vec<Vec<Expr>>,
    pub inserting: Answer,
}

/// Whether a statement makes a table with the columns of a result, if it is not there.
pub open spec fn makes(
    stmt: Statement,
    name: Seq<char>,
    columns: Seq<Seq<char>>,
    rows: Seq<Seq<ValueView>>,
) -> bool {
    match stmt {
        Statement::CreateTable { table_name, columns: defs, if_not_exists } => {
            &&& table_name@ == name
            &&& if_not_exists
            &&& result_columns(defs@, columns, rows)
        },
        _ => false,
    }
}

/// Whether a statement drops a table, if it is there.
pub open spec fn drops(stmt: Statement, name: Seq<char>) -> bool {
    stmt matches Statement::DropTable { table_name, if_exists } && table_name@ == name && if_exists
}

/// Whether writing a result into a table takes these steps: drop the one of an earlier result;
/// make it with the columns of this one; insert the rows.
pub open spec fn stored_by(
    s: Storing,
    name: Seq<char>,
    columns: Seq<Seq<char>>,
    rows: Seq<Seq<ValueView>>,
    e0: EngineView,
    e1: EngineView,
    r: Option<ErrorView>,
    h: HostView,
) -> bool {
    &&& drops(s.drop, name)
    &&& planned_ran(s.drop, e0, None, s.dropped, None, s.dropping, h)
    &&& match s.dropping {
        Err(x) => e1 == s.dropped && r == Some(x),
        Ok(_) => {
            &&& makes(s.make, name, columns, rows)
            &&& planned_ran(s.make, s.dropped, None, s.empty, None, s.making, h)
            &&& match s.making {
                Err(x) => e1 == s.empty && r == Some(x),
                Ok(_) => if rows.len() == 0 {
                    e1 == s.empty && r is None
                } else {
                    match literal_error(rows, 0, h) {
                        Some(x) => e1 == s.empty && r == Some(x),
                        None => {
                            &&& s.table@ == name
                            &&& inserted_as(
                                s.values,
                                s.table,
                                None,
                                rows,
                                s.empty,
                                e1,
                                s.inserting,
                                h,
                            )
                            &&& r == match s.inserting {
                                Err(x) => Some(x),
                                Ok(_) => None,
                            }
                        },
                    }
                },
            }
        },
    }
}

/// What writing a result into a table leaves behind, and the error that it ends with, if any.
#[verifier::opaque]
pub open spec fn stored_as(
    name: Seq<char>,
    columns: Seq<Seq<char>>,
    rows: Seq<Seq<ValueView>>,
    e0: EngineView,
    e1: EngineView,
    r: Option<ErrorView>,
    h: HostView,
) -> bool {
    exists|s: Storing| #[trigger] stored_by(s, name, columns, rows, e0, e1, r, h)
}

impl Engine {
    /// Writes a result into a table.
    pub fn store_result(
        &mut self,
        name: &str,
        columns: &Vec<String>,
        rows: &Vec<Vec<Value>>,
        host: &Host,
    ) -> (r: std::result::Result<(), ForgeError>)
        requires
            old(self)@.wf(),
        ensures
            final(self)@.wf(),
            stored_as(
                name@,
                columns.deep_view(),
                rows.deep_view(),
                old(self)@,
                final(self)@,
                error_of(r),
                host@,
            ),
    {
        reveal(stored_as);
        let ghost e0 = self@;
        let ghost cv = columns.deep_view();
        let ghost rv = rows.deep_view();
        let ghost mut s: Storing = arbitrary();
        let mut session: Option<TxnId> = None;
        let drop_old = Statement::DropTable { table_name: name.to_owned(), if_exists: true };
        proof {
            s.drop = drop_old;
        }
        let dropping = self.execute_planned(drop_old, &mut session, host);
        assert(session is None);
        proof {
            s.dropped = self@;
            s.dropping = outcome(dropping);
        }
        match dropping {
            Err(e) => {
                let r: std::result::Result<(), ForgeError> = Err(e);
                assert(stored_by(s, name@, cv, rv, e0, self@, error_of(r), host@));
                return r;
            },
            Ok(_) => {},
        }
        let defs = define_columns(columns, rows);
        let make = Statement::CreateTable {
            table_name: name.to_owned(),
            columns: defs,
            if_not_exists: true,
        };
        proof {
            s.make = make;
        }
        let making = self.execute_planned(make, &mut session, host);
        assert(session is None);
        proof {
            s.empty = self@;
            s.making = outcome(making);
        }
        match making {
            Err(e) => {
                let r: std::result::Result<(), ForgeError> = Err(e);
                assert(stored_by(s, name@, cv, rv, e0, self@, error_of(r), host@));
                return r;
            },
            Ok(_) => {},
        }
        if rows.len() == 0 {
            let r: std::result::Result<(), ForgeError> = Ok(());
            assert(stored_by(s, name@, cv, rv, e0, self@, error_of(r), host@));
            return r;
        }
        let values = match rows_to_literals(rows, host) {
            Ok(v) => v,
            Err(e) => {
                let r: std::result::Result<(), ForgeError> = Err(e);
                assert(stored_by(s, name@, cv, rv, e0, self@, error_of(r), host@));
                return r;
            },
        };
        let table_name = name.to_owned();
        let none: Option<Vec<String>> = None;
        proof {
            s.table = table_name;
            s.values = values;
        }
        let node = PlanNode::Insert { table_name, columns: none, values, on_conflict: None };
        let inserting = self.execute_plan_session(node, &mut session, host);
        assert(session is None);
        proof {
            s.inserting = outcome(inserting);
        }
        assert(inserted_as(s.values, s.table, None, rv, s.empty, self@, s.inserting, host@));
        let r: std::result::Result<(), ForgeError> = match inserting {
            Ok(_) => Ok(()),
            Err(e) => Err(e),
        };
        assert(stored_by(s, name@, cv, rv, e0, self@, error_of(r), host@));
        r
    }
}

// ---------------------------------------------------------------------------
// Where queries stand
// ---------------------------------------------------------------------------

/// The sequence whose next number a call asks for.
pub open spec fn wanted_sequence(name: Seq<char>, args: Seq<Expr>) -> Option<Seq<char>> {
    if upper_text(name) == "NEXTVAL"@ && args.len() == 1 {
        match args[0] {
            Expr::Literal(LiteralValue::String(s)) => Some(s@),
            _ => None,
        }
    } else {
        None
    }
}

/// Whether any expression from `i` on holds a query or asks for the next number of a sequence.
pub open spec fn any_query(list: Seq<Expr>, i: int) -> bool
    decreases list, list.len() - i,
{
    if i < 0 || i >= list.len() {
        false
    } else {
        holds_query(list[i]) || any_query(list, i + 1)
    }
}

/// Whether a query stands in any branch of a CASE from `i` on.
pub open spec fn any_branch_query(list: Seq<(Expr, Expr)>, i: int) -> bool
    decreases list, list.len() - i,
{
    if i < 0 || i >= list.len() {
        false
    } else {
        holds_query(list[i].0) || holds_query(list[i].1) || any_branch_query(list, i + 1)
    }
}

/// Whether an expression holds a query, or asks for the next number of a sequence.
pub open spec fn holds_query(e: Expr) -> bool
    decreases e, 0int,
{
    match e {
        Expr::Subquery(_) => true,
        Expr::InSubquery { .. } => true,
        Expr::Exists { .. } => true,
        Expr::BinaryOp { left, op, right } => holds_query(*left) || holds_query(*right),
        Expr::UnaryOp { op, expr } => holds_query(*expr),
        Expr::IsNull(x) => holds_query(*x),
        Expr::IsNotNull(x) => holds_query(*x),
        Expr::Between { expr, low, high } => holds_query(*expr) || holds_query(*low)
            || holds_query(*high),
        Expr::Case { operand, when_clauses, else_result } => {
            ||| match operand {
                Some(x) => holds_query(*x),
                None => false,
            }
            ||| any_branch_query(when_clauses@, 0)
            ||| match else_result {
                Some(x) => holds_query(*x),
                None => false,
            }
        },
        Expr::In { expr, list } => holds_query(*expr) || any_query(list@, 0),
        Expr::NotIn { expr, list } => holds_query(*expr) || any_query(list@, 0),
        Expr::Function { name, args, distinct } => wanted_sequence(name@, args@) is Some,
        _ => false,
    }
}

/// Whether a condition holds a query.
pub open spec fn condition_holds_query(e: Option<Expr>) -> bool {
    match e {
        None => false,
        Some(x) => holds_query(x),
    }
}

/// Whether a query stands in a FROM clause.
pub open spec fn derives(f: FromClause) -> bool
    decreases f,
{
    match f {
        FromClause::Subquery { .. } => true,
        FromClause::Join { left, right, join_type, on } => derives(*left) || derives(*right),
        FromClause::Table { .. } => false,
    }
}

/// Whether a query stands in any output column from `i` on.
pub open spec fn columns_hold_query(cols: Seq<SelectColumn>, i: int) -> bool
    decreases cols.len() - i,
{
    if i < 0 || i >= cols.len() {
        false
    } else {
        (match cols[i] {
            SelectColumn::Expr { expr, alias } => holds_query(expr),
            _ => false,
        }) || columns_hold_query(cols, i + 1)
    }
}

fn asks_for_number(name: &str, args: &Vec<Expr>) -> (r: bool)
    ensures
        r == (wanted_sequence(name@, args@) is Some),
{
    if same_text(name.to_uppercase().as_str(), "NEXTVAL") && args.len() == 1 {
        match &args[0] {
            Expr::Literal(LiteralValue::String(_)) => true,
            _ => false,
        }
    } else {
        false
    }
}

fn list_has_subquery(list: &Vec<Expr>) -> (r: bool)
    ensures
        r == any_query(list@, 0),
    decreases *list, 1int,
{
    let mut i: usize = 0;
    while i < list.len()
        invariant
            0 <= i <= list.len(),
            any_query(list@, 0) == any_query(list@, i as int),
        decreases list.len() - i,
    {
        proof {
            assert(decreases_to!(list@ => list@[i as int]));
        }
        if expr_has_subquery(&list[i]) {
            return true;
        }
        i += 1;
    }
    false
}

fn branches_have_subquery(list: &Vec<(Expr, Expr)>) -> (r: bool)
    ensures
        r == any_branch_query(list@, 0),
    decreases *list, 1int,
{
    let mut i: usize = 0;
    while i < list.len()
        invariant
            0 <= i <= list.len(),
            any_branch_query(list@, 0) == any_branch_query(list@, i as int),
        decreases list.len() - i,
    {
        proof {
            assert(decreases_to!(list@ => list@[i as int]));
            assert(decreases_to!(list@[i as int] => list@[i as int].0));
            assert(decreases_to!(list@[i as int] => list@[i as int].1));
        }
        if expr_has_subquery(&list[i].0) || expr_has_subquery(&list[i].1) {
            return true;
        }
        i += 1;
    }
    false
}

/// Whether an expression holds a query, or asks for the next number of a sequence.
pub fn expr_has_subquery(expr: &Expr) -> (r: bool)
    ensures
        r == holds_query(*expr),
    decreases *expr, 0int,
{
    match expr {
        Expr::Subquery(_) | Expr::InSubquery { .. } | Expr::Exists { .. } => true,
        Expr::BinaryOp { left, op: _, right } => expr_has_subquery(left) || expr_has_subquery(
            right,
        ),
        Expr::UnaryOp { op: _, expr } => expr_has_subquery(expr),
        Expr::IsNull(e) => expr_has_subquery(e),
        Expr::IsNotNull(e) => expr_has_subquery(e),
        Expr::Between { expr, low, high } => expr_has_subquery(expr) || expr_has_subquery(low)
            || expr_has_subquery(high),
        Expr::Case { operand, when_clauses, else_result } => {
            let in_operand = match operand {
                Some(e) => expr_has_subquery(e),
                None => false,
            };
            if in_operand || branches_have_subquery(when_clauses) {
                return true;
            }
            match else_result {
                Some(e) => expr_has_subquery(e),
                None => false,
            }
        },
        Expr::In { expr, list } => expr_has_subquery(expr) || list_has_subquery(list),
        Expr::NotIn { expr, list } => expr_has_subquery(expr) || list_has_subquery(list),
        Expr::Function { name, args, distinct: _ } => asks_for_number(name.as_str(), args),
        _ => false,
    }
}

/// Whether a condition holds a query.
pub fn has_subqueries_in_expr(expr: &Option<Expr>) -> (r: bool)
    ensures
        r == condition_holds_query(*expr),
{
    match expr {
        None => false,
        Some(e) => expr_has_subquery(e),
    }
}

/// Whether a query stands in a FROM clause.
pub fn has_derived_table(from: &FromClause) -> (r: bool)
    ensures
        r == derives(*from),
    decreases *from,
{
    match from {
        FromClause::Subquery { .. } => true,
        FromClause::Join { left, right, join_type: _, on: _ } => has_derived_table(left)
            || has_derived_table(right),
        FromClause::Table { .. } => false,
    }
}

/// Whether a query stands in any output column.
pub fn has_subqueries_in_columns(cols: &Vec<SelectColumn>) -> (r: bool)
    ensures
        r == columns_hold_query(cols@, 0),
{
    let mut i: usize = 0;
    while i < cols.len()
        invariant
            0 <= i <= cols.len(),
            columns_hold_query(cols@, 0) == columns_hold_query(cols@, i as int),
        decreases cols.len() - i,
    {
        match &cols[i] {
            SelectColumn::Expr { expr, alias: _ } => {
                if expr_has_subquery(expr) {
                    return true;
                }
            },
            _ => {},
        }
        i += 1;
    }
    false
}

// ---------------------------------------------------------------------------
// Expressions
// ---------------------------------------------------------------------------

/// The first values of the rows from `i` on, behind `acc`; rows without values have none.
pub open spec fn first_values(
    rows: Seq<Seq<ValueView>>,
    i: int,
    acc: Seq<ValueView>,
) -> Seq<ValueView>
    decreases rows.len() - i,
{
    if i < 0 || i >= rows.len() {
        acc
    } else {
        first_values(
            rows,
            i + 1,
            if rows[i].len() == 0 {
                acc
            } else {
                acc.push(rows[i][0])
            },
        )
    }
}

/// The keys of the values from `i` on that are not NULL, behind `acc`.
pub open spec fn value_keys(values: Seq<ValueView>, i: int, acc: Seq<Seq<u8>>) -> Seq<Seq<u8>>
    decreases values.len() - i,
{
    if i < 0 || i >= values.len() {
        acc
    } else {
        value_keys(
            values,
            i + 1,
            if values[i].is_null() {
                acc
            } else {
                acc.push(sort_key(values[i]))
            },
        )
    }
}

/// Holds of every state and expression: it claims nothing, and only names what a part of an
/// expression left behind and what took its place, so that a witness for it can be found.
pub open spec fn in_part(e: EngineView, r: std::result::Result<Expr, ErrorView>) -> bool {
    true
}

/// Whether an expression is the membership test in a query's result.
pub open spec fn tests_membership(
    out: Expr,
    inner: Expr,
    rows: Seq<Seq<ValueView>>,
    negated: bool,
) -> bool {
    match out {
        Expr::InValues { expr, values, keys, negated: n } => {
            &&& *expr == inner
            &&& n == negated
            &&& values.deep_view() == first_values(rows, 0, Seq::empty())
            &&& keys.deep_view() == value_keys(
                first_values(rows, 0, Seq::empty()),
                0,
                Seq::empty(),
            )
        },
        _ => false,
    }
}

/// Whether an expression is the literal for a query's first value; NULL if it has none.
pub open spec fn is_scalar(
    out: std::result::Result<Expr, ErrorView>,
    rows: Seq<Seq<ValueView>>,
    h: HostView,
) -> bool {
    if rows.len() == 0 || rows[0].len() == 0 {
        out == Ok::<Expr, ErrorView>(Expr::Literal(LiteralValue::Null))
    } else {
        match out {
            Ok(e) => stands_for(e, rows[0][0], h),
            Err(x) => as_literal(rows[0][0], h) == Err::<ValueView, ErrorView>(x),
        }
    }
}

/// What resolving the queries in an expression leaves behind, and the expression that takes
/// its place.
pub open spec fn expr_resolved(
    e: Expr,
    e0: EngineView,
    e1: EngineView,
    out: std::result::Result<Expr, ErrorView>,
    h: HostView,
) -> bool
    decreases e,
{
    match e {
        Expr::InSubquery { expr, subquery, negated } => exists|em: EngineView, a: Answer| #[trigger]
            midway(em, a) && stmt_ran(*subquery, ""@, e0, em, a, h) && match a {
                Err(x) => e1 == em && out == Err::<Expr, ErrorView>(x),
                Ok(x) => exists|i: std::result::Result<Expr, ErrorView>| #[trigger]
                    in_part(e1, i) && expr_resolved(*expr, em, e1, i, h) && match i {
                        Err(y) => out == Err::<Expr, ErrorView>(y),
                        Ok(inner) => out is Ok && tests_membership(
                            out->Ok_0,
                            inner,
                            x.rows,
                            negated,
                        ),
                    },
            },
        Expr::Exists { subquery, negated } => exists|a: Answer| #[trigger]
            midway(e1, a) && stmt_ran(*subquery, ""@, e0, e1, a, h) && out == match a {
                Err(x) => Err::<Expr, ErrorView>(x),
                Ok(x) => Ok::<Expr, ErrorView>(
                    Expr::Literal(LiteralValue::Boolean((x.rows.len() > 0) != negated)),
                ),
            },
        Expr::Subquery(subquery) => exists|a: Answer| #[trigger]
            midway(e1, a) && stmt_ran(*subquery, ""@, e0, e1, a, h) && match a {
                Err(x) => out == Err::<Expr, ErrorView>(x),
                Ok(x) => is_scalar(out, x.rows, h),
            },
        Expr::BinaryOp { left, op, right } => exists|
            em: EngineView,
            l: std::result::Result<Expr, ErrorView>,
        | #[trigger]
            in_part(em, l) && expr_resolved(*left, e0, em, l, h) && match l {
                Err(x) => e1 == em && out == Err::<Expr, ErrorView>(x),
                Ok(le) => exists|r: std::result::Result<Expr, ErrorView>| #[trigger]
                    in_part(e1, r) && expr_resolved(*right, em, e1, r, h) && out == match r {
                        Err(x) => Err::<Expr, ErrorView>(x),
                        Ok(re) => Ok::<Expr, ErrorView>(
                            Expr::BinaryOp { left: Box::new(le), op, right: Box::new(re) },
                        ),
                    },
            },
        Expr::UnaryOp { op, expr } => exists|i: std::result::Result<Expr, ErrorView>| #[trigger]
            in_part(e1, i) && expr_resolved(*expr, e0, e1, i, h) && out == match i {
                Err(x) => Err::<Expr, ErrorView>(x),
                Ok(ie) => Ok::<Expr, ErrorView>(Expr::UnaryOp { op, expr: Box::new(ie) }),
            },
        Expr::IsNull(expr) => exists|i: std::result::Result<Expr, ErrorView>| #[trigger]
            in_part(e1, i) && expr_resolved(*expr, e0, e1, i, h) && out == match i {
                Err(x) => Err::<Expr, ErrorView>(x),
                Ok(ie) => Ok::<Expr, ErrorView>(Expr::IsNull(Box::new(ie))),
            },
        Expr::IsNotNull(expr) => exists|i: std::result::Result<Expr, ErrorView>| #[trigger]
            in_part(e1, i) && expr_resolved(*expr, e0, e1, i, h) && out == match i {
                Err(x) => Err::<Expr, ErrorView>(x),
                Ok(ie) => Ok::<Expr, ErrorView>(Expr::IsNotNull(Box::new(ie))),
            },
        Expr::Function { name, args, distinct } => match wanted_sequence(name@, args@) {
            Some(s) => {
                let t = next_number(e0.sequences, s);
                &&& e1 == (EngineView { sequences: t.sequences, ..e0 })
                &&& out == match t.result {
                    Err(x) => Err::<Expr, ErrorView>(x),
                    Ok(n) => Ok::<Expr, ErrorView>(Expr::Literal(LiteralValue::Integer(n))),
                }
            },
            None => e1 == e0 && out == Ok::<Expr, ErrorView>(e),
        },
        _ => e1 == e0 && out == Ok::<Expr, ErrorView>(e),
    }
}

fn collect_values(rows: &Vec<Vec<Value>>) -> (r: Vec<Value>)
    ensures
        r.deep_view() == first_values(rows.deep_view(), 0, Seq::empty()),
{
    let ghost rv = rows.deep_view();
    let mut out: Vec<Value> = Vec::new();
    assert(out.deep_view() =~= Seq::<ValueView>::empty());
    let mut i: usize = 0;
    while i < rows.len()
        invariant
            0 <= i <= rows.len(),
            rv == rows.deep_view(),
            first_values(rv, 0, Seq::empty()) == first_values(rv, i as int, out.deep_view()),
        decreases rows.len() - i,
    {
        assert(rv[i as int] == rows@[i as int].deep_view());
        assert(rv[i as int].len() == rows@[i as int].len());
        if rows[i].len() > 0 {
            let ghost had = out.deep_view();
            out.push(rows[i][0].clone());
            assert(rv[i as int][0] == rows@[i as int]@[0]@);
            assert(out.deep_view() =~= had.push(rv[i as int][0]));
        }
        i += 1;
    }
    out
}

fn collect_keys(values: &Vec<Value>) -> (r: Vec<Vec<u8>>)
    ensures
        r.deep_view() == value_keys(values.deep_view(), 0, Seq::empty()),
{
    let ghost vv = values.deep_view();
    let mut out: Vec<Vec<u8>> = Vec::new();
    assert(out.deep_view() =~= Seq::<Seq<u8>>::empty());
    let mut i: usize = 0;
    while i < values.len()
        invariant
            0 <= i <= values.len(),
            vv == values.deep_view(),
            value_keys(vv, 0, Seq::empty()) == value_keys(vv, i as int, out.deep_view()),
        decreases values.len() - i,
    {
        assert(vv[i as int] == values@[i as int]@);
        if !values[i].is_null() {
            let ghost had = out.deep_view();
            let key = values[i].to_sort_key_bytes();
            assert(key.deep_view() =~= key@);
            out.push(key);
            assert(out.deep_view() =~= had.push(sort_key(vv[i as int])));
        }
        i += 1;
    }
    out
}

fn scalar_of(found: &ExecuteResult, host: &Host) -> (r: std::result::Result<Expr, ForgeError>)
    ensures
        is_scalar(viewed(r), found.deep_view().rows, host@),
{
    let ghost rv = found.rows.deep_view();
    if found.rows.len() == 0 {
        return Ok(Expr::Literal(LiteralValue::Null));
    }
    assert(rv[0] == found.rows@[0].deep_view());
    assert(rv[0].len() == found.rows@[0].len());
    if found.rows[0].len() == 0 {
        return Ok(Expr::Literal(LiteralValue::Null));
    }
    assert(rv[0][0] == found.rows@[0]@[0]@);
    value_to_literal_expr(&found.rows[0][0], host)
}

impl Engine {
    fn resolve_call(&mut self, name: String, args: Vec<Expr>, distinct: bool) -> (r:
        std::result::Result<Expr, ForgeError>)
        ensures
            match wanted_sequence(name@, args@) {
                Some(s) => {
                    let t = next_number(old(self)@.sequences, s);
                    &&& final(self)@ == (EngineView { sequences: t.sequences, ..old(self)@ })
                    &&& viewed(r) == match t.result {
                        Err(x) => Err::<Expr, ErrorView>(x),
                        Ok(n) => Ok::<Expr, ErrorView>(Expr::Literal(LiteralValue::Integer(n))),
                    }
                },
                None => final(self)@ == old(self)@ && viewed(r) == Ok::<Expr, ErrorView>(
                    Expr::Function { name, args, distinct },
                ),
            },
    {
        if asks_for_number(name.as_str(), &args) {
            match &args[0] {
                Expr::Literal(LiteralValue::String(s)) => {
                    match self.nextval(s.as_str()) {
                        Ok(n) => {
                            return Ok(Expr::Literal(LiteralValue::Integer(n)));
                        },
                        Err(e) => {
                            return Err(e);
                        },
                    }
                },
                _ => {},
            }
        }
        Ok(Expr::Function { name, args, distinct })
    }

    /// Resolve subquery expressions by executing them and inlining results.
    pub fn resolve_expr_subqueries(&mut self, expr: Expr, host: &Host) -> (r: std::result::Result<
        Expr,
        ForgeError,
    >)
        requires
            old(self)@.wf(),
        ensures
            final(self)@.wf(),
            expr_resolved(expr, old(self)@, final(self)@, viewed(r), host@),
        decreases expr,
    {
        match expr {
            Expr::InSubquery { expr: inner, subquery, negated } => {
                let a = self.execute_stmt_internal(*subquery, "", host);
                assert(midway(self@, outcome(a)));
                let found = a?;
                let values = collect_values(&found.rows);
                let keys = collect_keys(&values);
                let i = self.resolve_expr_subqueries(*inner, host);
                assert(in_part(self@, viewed(i)));
                let resolved = i?;
                Ok(Expr::InValues { expr: Box::new(resolved), values, keys, negated })
            },
            Expr::Exists { subquery, negated } => {
                let a = self.execute_stmt_internal(*subquery, "", host);
                assert(midway(self@, outcome(a)));
                let found = a?;
                assert(found.rows.deep_view().len() == found.rows.len());
                let exists_row = found.rows.len() > 0;
                Ok(Expr::Literal(LiteralValue::Boolean(exists_row != negated)))
            },
            Expr::Subquery(subquery) => {
                let a = self.execute_stmt_internal(*subquery, "", host);
                assert(midway(self@, outcome(a)));
                let found = a?;
                scalar_of(&found, host)
            },
            Expr::BinaryOp { left, op, right } => {
                let l = self.resolve_expr_subqueries(*left, host);
                assert(in_part(self@, viewed(l)));
                let le = l?;
                let r = self.resolve_expr_subqueries(*right, host);
                assert(in_part(self@, viewed(r)));
                let re = r?;
                Ok(Expr::BinaryOp { left: Box::new(le), op, right: Box::new(re) })
            },
            Expr::UnaryOp { op, expr: inner } => {
                let i = self.resolve_expr_subqueries(*inner, host);
                assert(in_part(self@, viewed(i)));
                let ie = i?;
                Ok(Expr::UnaryOp { op, expr: Box::new(ie) })
            },
            Expr::IsNull(inner) => {
                let i = self.resolve_expr_subqueries(*inner, host);
                assert(in_part(self@, viewed(i)));
                let ie = i?;
                Ok(Expr::IsNull(Box::new(ie)))
            },
            Expr::IsNotNull(inner) => {
                let i = self.resolve_expr_subqueries(*inner, host);
                assert(in_part(self@, viewed(i)));
                let ie = i?;
                Ok(Expr::IsNotNull(Box::new(ie)))
            },
            Expr::Function { name, args, distinct } => self.resolve_call(name, args, distinct),
            other => Ok(other),
        }
    }
}

} // verus!
