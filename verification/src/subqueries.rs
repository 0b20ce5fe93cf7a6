//! Statements whose queries are resolved before they are planned.
use crate::ast::{Cte, Expr, FromClause, LiteralValue, SelectColumn, Statement};
use crate::engine::{Engine, EngineView};
use crate::error::{copy_error, error_of, outcome, viewed, ErrorView, ForgeError, Result};
use crate::executor::Answer;
use crate::host::{Host, HostView};
use crate::recursion::cte_ran;
use crate::resolve::{
    columns_hold_query, condition_holds_query, derives, expr_resolved, has_derived_table,
    has_subqueries_in_columns, has_subqueries_in_expr, in_part, stored_as,
};
use crate::run::{midway, stmt_ran};
use crate::state::{ExecuteResult, ResultView};
use crate::text::{joined, lower_text, same_text};
use vstd::prelude::*;

verus! {

// ---------------------------------------------------------------------------
// WITH
// ---------------------------------------------------------------------------

/// The expressions of a WITH clause by name, with what each of them gave.
pub open spec fn cte_answers(list: Seq<(String, Result<ExecuteResult>)>) -> Seq<
    (Seq<char>, Answer),
> {
    list.map_values(|p: (String, Result<ExecuteResult>)| (p.0@, outcome(p.1)))
}

/// Whether the expressions of a WITH clause, one after the other, leave these states behind and
/// give these answers. A recursive one that fails ends the work.
pub open spec fn ctes_ran(
    ctes: Seq<Cte>,
    states: Seq<EngineView>,
    answers: Seq<(Seq<char>, Answer)>,
    failed: Option<ErrorView>,
    h: HostView,
) -> bool {
    &&& answers.len() <= ctes.len()
    &&& states.len() == answers.len() + 1
    &&& forall|i: int|
        0 <= i < answers.len() ==> answers[i].0 == lower_text(ctes[i].name@) && cte_ran(
            ctes[i],
            states[i],
            states[i + 1],
            (#[trigger] answers[i]).1,
            h,
        )
    &&& match failed {
        None => answers.len() == ctes.len() && forall|i: int|
            0 <= i < answers.len() && (#[trigger] answers[i]).1 is Err ==> !ctes[i].recursive,
        Some(x) => {
            let n = answers.len() - 1;
            &&& n >= 0
            &&& ctes[n].recursive
            &&& answers[n].1 == Err::<ResultView, ErrorView>(x)
            &&& forall|i: int|
                0 <= i < n && (#[trigger] answers[i]).1 is Err ==> !ctes[i].recursive
        },
    }
}

/// The last of the first `n` expressions with a name.
pub open spec fn cte_named(ctes: Seq<(Seq<char>, Answer)>, name: Seq<char>, n: int) -> Option<int>
    decreases n,
{
    if n <= 0 || n > ctes.len() {
        None
    } else if ctes[n - 1].0 == name {
        Some(n - 1)
    } else {
        cte_named(ctes, name, n - 1)
    }
}

fn find_cte(ctes: &Vec<(String, Result<ExecuteResult>)>, name: &str) -> (r: Option<usize>)
    ensures
        match r {
            Some(k) => k < ctes.len() && cte_named(
                cte_answers(ctes@),
                lower_text(name@),
                ctes.len() as int,
            ) == Some(k as int),
            None => cte_named(cte_answers(ctes@), lower_text(name@), ctes.len() as int) is None,
        },
{
    let key = name.to_lowercase();
    let mut n: usize = ctes.len();
    while n > 0
        invariant
            0 <= n <= ctes.len(),
            key@ == lower_text(name@),
            cte_named(cte_answers(ctes@), lower_text(name@), ctes.len() as int) == cte_named(
                cte_answers(ctes@),
                lower_text(name@),
                n as int,
            ),
        decreases n,
    {
        assert(cte_answers(ctes@)[n - 1].0 == ctes@[n - 1].0@);
        if same_text(ctes[n - 1].0.as_str(), key.as_str()) {
            return Some(n - 1);
        }
        n -= 1;
    }
    None
}

impl Engine {
    fn run_ctes(&mut self, ctes: Vec<Cte>, host: &Host) -> (r: std::result::Result<
        Vec<(String, Result<ExecuteResult>)>,
        ForgeError,
    >)
        requires
            old(self)@.wf(),
        ensures
            final(self)@.wf(),
            exists|states: Seq<EngineView>, answers: Seq<(Seq<char>, Answer)>| #[trigger]
                ctes_ran(
                    ctes@,
                    states,
                    answers,
                    error_of(r),
                    host@,
                ) && states[0] == old(self)@ && states.last() == final(self)@ && (r is Ok
                    ==> answers == cte_answers((r->Ok_0)@)),
    {
        let ghost all = ctes@;
        let mut rest = ctes;
        let mut done: Vec<(String, Result<ExecuteResult>)> = Vec::new();
        let ghost mut states: Seq<EngineView> = seq![self@];
        let ghost mut answers: Seq<(Seq<char>, Answer)> = Seq::empty();
        assert(rest@ =~= all.skip(0));
        assert(cte_answers(done@) =~= answers);
        while rest.len() > 0
            invariant
                self@.wf(),
                all == ctes@,
                answers.len() <= all.len(),
                rest@ == all.skip(answers.len() as int),
                states.len() == answers.len() + 1,
                states[0] == old(self)@,
                states.last() == self@,
                answers == cte_answers(done@),
                forall|i: int|
                    0 <= i < answers.len() ==> answers[i].0 == lower_text(all[i].name@) && cte_ran(
                        all[i],
                        states[i],
                        states[i + 1],
                        (#[trigger] answers[i]).1,
                        host@,
                    ),
                forall|i: int|
                    0 <= i < answers.len() && (#[trigger] answers[i]).1 is Err ==> !all[i].recursive,
            decreases rest.len(),
        {
            let ghost k = answers.len() as int;
            let cte = rest.remove(0);
            assert(cte == all[k]);
            assert(rest@ =~= all.skip(k + 1));
            let recursive = cte.recursive;
            let key = cte.name.to_lowercase();
            let a = self.execute_cte(cte, host);
            let ghost kv = key@;
            let ghost av = outcome(a);
            proof {
                states = states.push(self@);
                answers = answers.push((kv, av));
            }
            match a {
                Err(e) => {
                    if recursive {
                        assert(ctes_ran(all, states, answers, Some(e@), host@));
                        return Err(e);
                    }
                    done.push((key, Err(e)));
                },
                Ok(x) => {
                    done.push((key, Ok(x)));
                },
            }
            assert(cte_answers(done@) =~= answers);
        }
        assert(ctes_ran(all, states, answers, None, host@));
        Ok(done)
    }
}

// ---------------------------------------------------------------------------
// FROM
// ---------------------------------------------------------------------------

/// What writing the rows of a query into the table for its alias leaves behind, and the FROM
/// clause that reads the table.
pub open spec fn derived(
    alias: Seq<char>,
    a: Answer,
    e0: EngineView,
    e1: EngineView,
    out: std::result::Result<FromClause, ErrorView>,
    h: HostView,
) -> bool {
    match a {
        Err(x) => e1 == e0 && out == Err::<FromClause, ErrorView>(x),
        Ok(x) => {
            let table = "__derived_"@ + alias + "__"@;
            exists|m: Option<ErrorView>| #[trigger]
                stored_as(table, x.columns, x.rows, e0, e1, m, h) && match m {
                    Some(y) => out == Err::<FromClause, ErrorView>(y),
                    None => match out {
                        Ok(FromClause::Table { name, alias: Some(al) }) => name@ == table && al@
                            == alias,
                        _ => false,
                    },
                }
        },
    }
}

/// Holds of every state and clause: it claims nothing, and only names what a part of a FROM
/// clause left behind and what took its place, so that a witness for it can be found.
pub open spec fn in_from(e: EngineView, r: std::result::Result<FromClause, ErrorView>) -> bool {
    true
}

/// What resolving the queries in a FROM clause leaves behind, and the clause that takes its
/// place.
pub open spec fn from_resolved(
    f: FromClause,
    ctes: Seq<(Seq<char>, Answer)>,
    e0: EngineView,
    e1: EngineView,
    out: std::result::Result<FromClause, ErrorView>,
    h: HostView,
) -> bool
    decreases f,
{
    match f {
        FromClause::Table { name, alias } => match cte_named(
            ctes,
            lower_text(name@),
            ctes.len() as int,
        ) {
            None => e1 == e0 && out == Ok::<FromClause, ErrorView>(f),
            Some(k) => derived(
                match alias {
                    Some(a) => a@,
                    None => name@,
                },
                ctes[k].1,
                e0,
                e1,
                out,
                h,
            ),
        },
        FromClause::Subquery { query, alias } => exists|em: EngineView, a: Answer| #[trigger]
            midway(em, a) && stmt_ran(*query, ""@, e0, em, a, h) && derived(
                alias@,
                a,
                em,
                e1,
                out,
                h,
            ),
        FromClause::Join { left, right, join_type, on } => exists|
            em: EngineView,
            l: std::result::Result<FromClause, ErrorView>,
        | #[trigger]
            in_from(em, l) && from_resolved(*left, ctes, e0, em, l, h) && match l {
                Err(x) => e1 == em && out == Err::<FromClause, ErrorView>(x),
                Ok(lf) => exists|r: std::result::Result<FromClause, ErrorView>| #[trigger]
                    in_from(e1, r) && from_resolved(*right, ctes, em, e1, r, h) && out == match r {
                        Err(x) => Err::<FromClause, ErrorView>(x),
                        Ok(rf) => Ok::<FromClause, ErrorView>(
                            FromClause::Join {
                                left: Box::new(lf),
                                right: Box::new(rf),
                                join_type,
                                on,
                            },
                        ),
                    },
            },
    }
}

impl Engine {
    fn derive_table(&mut self, alias: &str, a: &Result<ExecuteResult>, host: &Host) -> (r:
        std::result::Result<FromClause, ForgeError>)
        requires
            old(self)@.wf(),
        ensures
            final(self)@.wf(),
            derived(alias@, outcome(*a), old(self)@, final(self)@, viewed(r), host@),
    {
        let ghost e0 = self@;
        match a {
            Err(e) => Err(copy_error(e)),
            Ok(x) => {
                let table = joined(joined("__derived_", alias).as_str(), "__");
                let m = self.store_result(table.as_str(), &x.columns, &x.rows, host);
                let ghost t = "__derived_"@ + alias@ + "__"@;
                let ghost xv = outcome(*a)->Ok_0;
                let ghost mv = error_of(m);
                assert(stored_as(t, xv.columns, xv.rows, e0, self@, mv, host@));
                match m {
                    Err(e) => Err(e),
                    Ok(_) => {
                        let called = alias.to_owned();
                        Ok(FromClause::Table { name: table, alias: Some(called) })
                    },
                }
            },
        }
    }

    /// Resolve CTE references in FROM clause, and materialize derived tables (FROM subqueries)
    /// into temp tables.
    pub fn resolve_from(
        &mut self,
        from: FromClause,
        ctes: &Vec<(String, Result<ExecuteResult>)>,
        host: &Host,
    ) -> (r: std::result::Result<FromClause, ForgeError>)
        requires
            old(self)@.wf(),
        ensures
            final(self)@.wf(),
            from_resolved(
                from,
                cte_answers(ctes@),
                old(self)@,
                final(self)@,
                viewed(r),
                host@,
            ),
        decreases from,
    {
        match from {
            FromClause::Table { name, alias } => match find_cte(ctes, name.as_str()) {
                None => Ok(FromClause::Table { name, alias }),
                Some(k) => {
                    assert(cte_answers(ctes@)[k as int].1 == outcome(ctes@[k as int].1));
                    let called = match &alias {
                        Some(a) => a.clone(),
                        None => name.clone(),
                    };
                    self.derive_table(called.as_str(), &ctes[k].1, host)
                },
            },
            FromClause::Subquery { query, alias } => {
                let a = self.execute_stmt_internal(*query, "", host);
                assert(midway(self@, outcome(a)));
                self.derive_table(alias.as_str(), &a, host)
            },
            FromClause::Join { left, right, join_type, on } => {
                let l = self.resolve_from(*left, ctes, host);
                assert(in_from(self@, viewed(l)));
                let lf = l?;
                let r = self.resolve_from(*right, ctes, host);
                assert(in_from(self@, viewed(r)));
                let rf = r?;
                Ok(FromClause::Join { left: Box::new(lf), right: Box::new(rf), join_type, on })
            },
        }
    }
}

// ---------------------------------------------------------------------------
// Conditions and output columns
// ---------------------------------------------------------------------------

/// What resolving the queries in a condition leaves behind, and the condition that takes its
/// place.
pub open spec fn condition_resolved(
    c: Option<Expr>,
    e0: EngineView,
    e1: EngineView,
    out: std::result::Result<Option<Expr>, ErrorView>,
    h: HostView,
) -> bool {
    match c {
        None => e1 == e0 && out == Ok::<Option<Expr>, ErrorView>(None),
        Some(e) => exists|i: std::result::Result<Expr, ErrorView>| #[trigger]
            in_part(e1, i) && expr_resolved(e, e0, e1, i, h) && out == match i {
                Err(x) => Err::<Option<Expr>, ErrorView>(x),
                Ok(ie) => Ok::<Option<Expr>, ErrorView>(Some(ie)),
            },
    }
}

/// What resolving the queries in an output column leaves behind, and the column that takes its
/// place. A column whose query fails is NULL.
pub open spec fn column_resolved(
    c: SelectColumn,
    e0: EngineView,
    e1: EngineView,
    out: std::result::Result<SelectColumn, ErrorView>,
    h: HostView,
) -> bool {
    match c {
        SelectColumn::AllColumns(_) => e1 == e0 && out == Ok::<SelectColumn, ErrorView>(c),
        SelectColumn::Expr { expr, alias } => exists|i: std::result::Result<Expr, ErrorView>|
         #[trigger]
            in_part(e1, i) && expr_resolved(expr, e0, e1, i, h) && out == match i {
                Err(ErrorView::NeedsFloat(f)) => Err::<SelectColumn, ErrorView>(
                    ErrorView::NeedsFloat(f),
                ),
                Err(_) => Ok::<SelectColumn, ErrorView>(
                    SelectColumn::Expr { expr: Expr::Literal(LiteralValue::Null), alias },
                ),
                Ok(ie) => Ok::<SelectColumn, ErrorView>(SelectColumn::Expr { expr: ie, alias }),
            },
    }
}

/// Whether resolving the queries in output columns, one after the other, leaves these states
/// behind, and these columns take their places. An error ends the work.
pub open spec fn columns_resolved(
    cols: Seq<SelectColumn>,
    states: Seq<EngineView>,
    outs: Seq<SelectColumn>,
    failed: Option<ErrorView>,
    h: HostView,
) -> bool {
    &&& outs.len() <= cols.len()
    &&& forall|i: int|
        0 <= i < outs.len() ==> column_resolved(
            cols[i],
            states[i],
            states[i + 1],
            Ok(#[trigger] outs[i]),
            h,
        )
    &&& match failed {
        None => outs.len() == cols.len() && states.len() == outs.len() + 1,
        Some(x) => {
            &&& outs.len() < cols.len()
            &&& states.len() == outs.len() + 2
            &&& column_resolved(
                cols[outs.len() as int],
                states[outs.len() as int],
                states[outs.len() as int + 1],
                Err(x),
                h,
            )
        },
    }
}

impl Engine {
    fn resolve_condition(&mut self, c: Option<Expr>, host: &Host) -> (r: std::result::Result<
        Option<Expr>,
        ForgeError,
    >)
        requires
            old(self)@.wf(),
        ensures
            final(self)@.wf(),
            condition_resolved(c, old(self)@, final(self)@, viewed(r), host@),
    {
        match c {
            None => Ok(None),
            Some(e) => {
                let i = self.resolve_expr_subqueries(e, host);
                assert(in_part(self@, viewed(i)));
                match i {
                    Ok(ie) => Ok(Some(ie)),
                    Err(x) => Err(x),
                }
            },
        }
    }

    fn resolve_column(&mut self, c: SelectColumn, host: &Host) -> (r: std::result::Result<
        SelectColumn,
        ForgeError,
    >)
        requires
            old(self)@.wf(),
        ensures
            final(self)@.wf(),
            column_resolved(c, old(self)@, final(self)@, viewed(r), host@),
    {
        match c {
            SelectColumn::AllColumns(t) => Ok(SelectColumn::AllColumns(t)),
            SelectColumn::Expr { expr, alias } => {
                let i = self.resolve_expr_subqueries(expr, host);
                assert(in_part(self@, viewed(i)));
                match i {
                    Ok(ie) => Ok(SelectColumn::Expr { expr: ie, alias }),
                    Err(ForgeError::NeedsFloat(f)) => Err(ForgeError::NeedsFloat(f)),
                    Err(_) => Ok(
                        SelectColumn::Expr { expr: Expr::Literal(LiteralValue::Null), alias },
                    ),
                }
            },
        }
    }

    fn resolve_columns(&mut self, cols: Vec<SelectColumn>, host: &Host) -> (r: std::result::Result<
        Vec<SelectColumn>,
        ForgeError,
    >)
        requires
            old(self)@.wf(),
        ensures
            final(self)@.wf(),
            exists|states: Seq<EngineView>, outs: Seq<SelectColumn>| #[trigger]
                columns_resolved(
                    cols@,
                    states,
                    outs,
                    error_of(r),
                    host@,
                ) && states[0] == old(self)@ && states.last() == final(self)@ && (r is Ok
                    ==> outs == (r->Ok_0)@),
    {
        let ghost all = cols@;
        let mut rest = cols;
        let mut done: Vec<SelectColumn> = Vec::new();
        let ghost mut states: Seq<EngineView> = seq![self@];
        assert(rest@ =~= all.skip(0));
        while rest.len() > 0
            invariant
                self@.wf(),
                all == cols@,
                done.len() <= all.len(),
                rest@ == all.skip(done.len() as int),
                states.len() == done.len() + 1,
                states[0] == old(self)@,
                states.last() == self@,
                forall|i: int|
                    0 <= i < done.len() ==> column_resolved(
                        all[i],
                        states[i],
                        states[i + 1],
                        Ok(#[trigger] done@[i]),
                        host@,
                    ),
            decreases rest.len(),
        {
            let ghost k = done.len() as int;
            let c = rest.remove(0);
            assert(c == all[k]);
            assert(rest@ =~= all.skip(k + 1));
            let out = self.resolve_column(c, host);
            proof {
                states = states.push(self@);
            }
            match out {
                Err(e) => {
                    assert(columns_resolved(all, states, done@, Some(e@), host@));
                    return Err(e);
                },
                Ok(x) => {
                    done.push(x);
                },
            }
        }
        assert(columns_resolved(all, states, done@, None, host@));
        Ok(done)
    }
}

// ---------------------------------------------------------------------------
// Statements
// ---------------------------------------------------------------------------

/// The steps of resolving the queries in a SELECT.
pub struct Resolving {
    pub cte_states: Seq<EngineView>,
    pub answers: Seq<(Seq<char>, Answer)>,
    pub cte_failed: Option<ErrorView>,
    pub derived: EngineView,
    pub from: std::result::Result<FromClause, ErrorView>,
    pub filtered: EngineView,
    pub condition: std::result::Result<Option<Expr>, ErrorView>,
    pub grouped: EngineView,
    pub having: std::result::Result<Option<Expr>, ErrorView>,
    pub column_states: Seq<EngineView>,
    pub columns: Seq<SelectColumn>,
    pub columns_failed: Option<ErrorView>,
}

/// Whether nothing in a SELECT has to be resolved.
pub open spec fn is_plain(stmt: Statement) -> bool {
    match stmt {
        Statement::Select {
            distinct,
            columns,
            from,
            where_clause,
            group_by,
            having,
            order_by,
            limit,
            offset,
            ctes,
        } => {
            &&& ctes@.len() == 0
            &&& !condition_holds_query(where_clause)
            &&& !condition_holds_query(having)
            &&& !derives(from)
            &&& !columns_hold_query(columns@, 0)
        },
        _ => false,
    }
}

/// Whether resolving the queries in a SELECT takes these steps: those of its WITH clause, of
/// its FROM clause, of its two conditions and of its columns.
pub open spec fn select_resolved_by(
    s: Resolving,
    stmt: Statement,
    e0: EngineView,
    e1: EngineView,
    out: std::result::Result<Statement, ErrorView>,
    h: HostView,
) -> bool {
    match stmt {
        Statement::Select {
            distinct,
            columns,
            from,
            where_clause,
            group_by,
            having,
            order_by,
            limit,
            offset,
            ctes,
        } => {
            &&& ctes_ran(ctes@, s.cte_states, s.answers, s.cte_failed, h)
            &&& s.cte_states[0] == e0
            &&& match s.cte_failed {
                Some(x) => e1 == s.cte_states.last() && out == Err::<Statement, ErrorView>(x),
                None => {
                    &&& from_resolved(from, s.answers, s.cte_states.last(), s.derived, s.from, h)
                    &&& match s.from {
                        Err(x) => e1 == s.derived && out == Err::<Statement, ErrorView>(x),
                        Ok(f) => {
                            &&& condition_resolved(
                                where_clause,
                                s.derived,
                                s.filtered,
                                s.condition,
                                h,
                            )
                            &&& match s.condition {
                                Err(x) => e1 == s.filtered && out == Err::<Statement, ErrorView>(x),
                                Ok(w) => {
                                    &&& condition_resolved(
                                        having,
                                        s.filtered,
                                        s.grouped,
                                        s.having,
                                        h,
                                    )
                                    &&& match s.having {
                                        Err(x) => e1 == s.grouped && out == Err::<
                                            Statement,
                                            ErrorView,
                                        >(x),
                                        Ok(hv) => {
                                            &&& columns_resolved(
                                                columns@,
                                                s.column_states,
                                                s.columns,
                                                s.columns_failed,
                                                h,
                                            )
                                            &&& s.column_states[0] == s.grouped
                                            &&& e1 == s.column_states.last()
                                            &&& match s.columns_failed {
                                                Some(x) => out == Err::<Statement, ErrorView>(x),
                                                None => match out {
                                                    Ok(
                                                        Statement::Select {
                                                            distinct: d,
                                                            columns: cs,
                                                            from: of,
                                                            where_clause: ow,
                                                            group_by: g,
                                                            having: oh,
                                                            order_by: o,
                                                            limit: li,
                                                            offset: off,
                                                            ctes: oc,
                                                        },
                                                    ) => {
                                                        &&& d == distinct
                                                        &&& cs@ == s.columns
                                                        &&& of == f
                                                        &&& ow == w
                                                        &&& g == group_by
                                                        &&& oh == hv
                                                        &&& o == order_by
                                                        &&& li == limit
                                                        &&& off == offset
                                                        &&& oc@.len() == 0
                                                    },
                                                    _ => false,
                                                },
                                            }
                                        },
                                    }
                                },
                            }
                        },
                    }
                },
            }
        },
        _ => false,
    }
}

/// Holds of every state and condition: it claims nothing, and only names what a part of a
/// statement left behind and the condition that took its place, so that a witness for it can be
/// found.
pub open spec fn in_condition(
    e: EngineView,
    r: std::result::Result<Option<Expr>, ErrorView>,
) -> bool {
    true
}

/// What resolving the queries in a statement leaves behind, and the statement that takes its
/// place.
pub open spec fn stmt_resolved(
    stmt: Statement,
    e0: EngineView,
    e1: EngineView,
    out: std::result::Result<Statement, ErrorView>,
    h: HostView,
) -> bool {
    match stmt {
        Statement::Select { .. } => if is_plain(stmt) {
            e1 == e0 && out == Ok::<Statement, ErrorView>(stmt)
        } else {
            exists|s: Resolving| #[trigger] select_resolved_by(s, stmt, e0, e1, out, h)
        },
        Statement::Update { table_name, assignments, where_clause } => exists|
            c: std::result::Result<Option<Expr>, ErrorView>,
        | #[trigger]
            in_condition(e1, c) && condition_resolved(where_clause, e0, e1, c, h) && out
                == match c {
                Err(x) => Err::<Statement, ErrorView>(x),
                Ok(w) => Ok::<Statement, ErrorView>(
                    Statement::Update { table_name, assignments, where_clause: w },
                ),
            },
        Statement::Delete { table_name, where_clause } => exists|
            c: std::result::Result<Option<Expr>, ErrorView>,
        | #[trigger]
            in_condition(e1, c) && condition_resolved(where_clause, e0, e1, c, h) && out
                == match c {
                Err(x) => Err::<Statement, ErrorView>(x),
                Ok(w) => Ok::<Statement, ErrorView>(
                    Statement::Delete { table_name, where_clause: w },
                ),
            },
        _ => e1 == e0 && out == Ok::<Statement, ErrorView>(stmt),
    }
}

fn needs_nothing(stmt: &Statement) -> (r: bool)
    ensures
        r == is_plain(*stmt),
{
    match stmt {
        Statement::Select { columns, from, where_clause, having, ctes, .. } => ctes.len() == 0
            && !has_subqueries_in_expr(where_clause) && !has_subqueries_in_expr(having)
            && !has_derived_table(from) && !has_subqueries_in_columns(columns),
        _ => false,
    }
}

impl Engine {
    fn resolve_select(&mut self, stmt: Statement, host: &Host) -> (r: std::result::Result<
        Statement,
        ForgeError,
    >)
        requires
            old(self)@.wf(),
            stmt is Select,
        ensures
            final(self)@.wf(),
            exists|s: Resolving| #[trigger]
                select_resolved_by(s, stmt, old(self)@, final(self)@, viewed(r), host@),
    {
        let ghost e0 = self@;
        let ghost mut s: Resolving = arbitrary();
        match stmt {
            Statement::Select {
                distinct,
                columns,
                from,
                where_clause,
                group_by,
                having,
                order_by,
                limit,
                offset,
                ctes,
            } => {
                let ran = self.run_ctes(ctes, host);
                proof {
                    s.cte_failed = error_of(ran);
                    let (states, answers) = choose|
                        states: Seq<EngineView>,
                        answers: Seq<(Seq<char>, Answer)>,
                    | #[trigger]
                        ctes_ran(ctes@, states, answers, s.cte_failed, host@) && states[0] == e0
                            && states.last() == self@ && (ran is Ok ==> answers == cte_answers(
                            (ran->Ok_0)@,
                        ));
                    s.cte_states = states;
                    s.answers = answers;
                }
                let answers = match ran {
                    Err(e) => {
                        let r: std::result::Result<Statement, ForgeError> = Err(e);
                        assert(select_resolved_by(s, stmt, e0, self@, viewed(r), host@));
                        return r;
                    },
                    Ok(x) => x,
                };
                let from_out = self.resolve_from(from, &answers, host);
                proof {
                    s.derived = self@;
                    s.from = viewed(from_out);
                }
                let from = match from_out {
                    Err(e) => {
                        let r: std::result::Result<Statement, ForgeError> = Err(e);
                        assert(select_resolved_by(s, stmt, e0, self@, viewed(r), host@));
                        return r;
                    },
                    Ok(x) => x,
                };
                let condition = self.resolve_condition(where_clause, host);
                proof {
                    s.filtered = self@;
                    s.condition = viewed(condition);
                }
                let where_clause = match condition {
                    Err(e) => {
                        let r: std::result::Result<Statement, ForgeError> = Err(e);
                        assert(select_resolved_by(s, stmt, e0, self@, viewed(r), host@));
                        return r;
                    },
                    Ok(x) => x,
                };
                let group_condition = self.resolve_condition(having, host);
                proof {
                    s.grouped = self@;
                    s.having = viewed(group_condition);
                }
                let having = match group_condition {
                    Err(e) => {
                        let r: std::result::Result<Statement, ForgeError> = Err(e);
                        assert(select_resolved_by(s, stmt, e0, self@, viewed(r), host@));
                        return r;
                    },
                    Ok(x) => x,
                };
                let ghost ev = self@;
                let columns_out = self.resolve_columns(columns, host);
                proof {
                    s.columns_failed = error_of(columns_out);
                    let (states, outs) = choose|
                        states: Seq<EngineView>,
                        outs: Seq<SelectColumn>,
                    | #[trigger]
                        columns_resolved(columns@, states, outs, s.columns_failed, host@)
                            && states[0] == ev && states.last() == self@ && (columns_out is Ok
                            ==> outs == (columns_out->Ok_0)@);
                    s.column_states = states;
                    s.columns = outs;
                }
                let columns = match columns_out {
                    Err(e) => {
                        let r: std::result::Result<Statement, ForgeError> = Err(e);
                        assert(select_resolved_by(s, stmt, e0, self@, viewed(r), host@));
                        return r;
                    },
                    Ok(x) => x,
                };
                let r: std::result::Result<Statement, ForgeError> = Ok(
                    Statement::Select {
                        distinct,
                        columns,
                        from,
                        where_clause,
                        group_by,
                        having,
                        order_by,
                        limit,
                        offset,
                        ctes: Vec::new(),
                    },
                );
                assert(select_resolved_by(s, stmt, e0, self@, viewed(r), host@));
                r
            },
            other => Ok(other),
        }
    }

    /// Resolve subqueries in a statement by executing them and inlining results.
    /// Also resolves CTEs by converting them into derived tables.
    pub fn resolve_subqueries(&mut self, stmt: Statement, host: &Host) -> (r: std::result::Result<
        Statement,
        ForgeError,
    >)
        requires
            old(self)@.wf(),
        ensures
            final(self)@.wf(),
            stmt_resolved(stmt, old(self)@, final(self)@, viewed(r), host@),
    {
        if needs_nothing(&stmt) {
            return Ok(stmt);
        }
        match stmt {
            Statement::Select { .. } => self.resolve_select(stmt, host),
            Statement::Update { table_name, assignments, where_clause } => {
                let c = self.resolve_condition(where_clause, host);
                assert(in_condition(self@, viewed(c)));
                match c {
                    Ok(w) => Ok(Statement::Update { table_name, assignments, where_clause: w }),
                    Err(e) => Err(e),
                }
            },
            Statement::Delete { table_name, where_clause } => {
                let c = self.resolve_condition(where_clause, host);
                assert(in_condition(self@, viewed(c)));
                match c {
                    Ok(w) => Ok(Statement::Delete { table_name, where_clause: w }),
                    Err(e) => Err(e),
                }
            },
            other => Ok(other),
        }
    }
}

} // verus!
