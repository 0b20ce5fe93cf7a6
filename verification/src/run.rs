//! Statements that are parsed, one by one.
use crate::ast::{Expr, Statement};
use crate::common::TxnId;
use crate::engine::{
    analyzed, counters_without, drop_counters, plan_ran, sequence_made, table_altered, view_dropped,
    view_made, Engine, EngineView,
};
use crate::error::{outcome, ErrorView, Result};
use crate::executor::Answer;
use crate::host::{Host, HostView};
use crate::plan::PlanNode;
use crate::planner::{plan, planned};
use crate::state::{report, ExecuteResult, ResultView, StateView};
use crate::statements::{
    columns_answer, create_table_answer, explain, explain_answer, literal_error, ok, ok_result,
    rows_stand_for, rows_to_literals, show_columns, show_create_table, show_tables, tables_answer,
    union_answer, unite,
};
use crate::text::{joined, lower_text};
use crate::types::ValueView;
use vstd::prelude::*;

verus! {

/// Whether a plan is the one for a statement, and this is what it leaves behind and gives back
/// in a session.
pub open spec fn ran_as(
    p: std::result::Result<PlanNode, ErrorView>,
    stmt: Statement,
    e0: EngineView,
    s0: Option<TxnId>,
    e1: EngineView,
    s1: Option<TxnId>,
    r: Answer,
    h: HostView,
) -> bool {
    &&& planned(stmt, e0.catalog, p)
    &&& match p {
        Err(x) => e1 == e0 && s1 == s0 && r == Err::<ResultView, ErrorView>(x),
        Ok(plan) => plan_ran(plan, e0, s0, e1, s1, r, h),
    }
}

/// What a statement that is planned leaves behind in a session, and what it gives back.
pub open spec fn planned_ran(
    stmt: Statement,
    e0: EngineView,
    s0: Option<TxnId>,
    e1: EngineView,
    s1: Option<TxnId>,
    r: Answer,
    h: HostView,
) -> bool {
    exists|p: std::result::Result<PlanNode, ErrorView>| #[trigger]
        ran_as(p, stmt, e0, s0, e1, s1, r, h)
}

/// What EXPLAIN gives back.
pub open spec fn explained(
    p: std::result::Result<PlanNode, ErrorView>,
    stmt: Statement,
    e: EngineView,
    r: Answer,
) -> bool {
    &&& planned(stmt, e.catalog, p)
    &&& r == match p {
        Err(x) => Err::<ResultView, ErrorView>(x),
        Ok(plan) => Ok::<ResultView, ErrorView>(explain_answer(plan)),
    }
}

/// Whether a plan removes all rows of a table.
pub open spec fn clears(p: PlanNode, table: Seq<char>) -> bool {
    match p {
        PlanNode::Delete { table_name, child } => table_name@ == table && match *child {
            PlanNode::SeqScan { table_name: t, alias } => t == table_name && alias is None,
            _ => false,
        },
        _ => false,
    }
}

/// Whether removing all rows of a table leaves this behind and gives this back.
pub open spec fn cleared(
    p: PlanNode,
    table: Seq<char>,
    e0: EngineView,
    e1: EngineView,
    r: Answer,
    h: HostView,
) -> bool {
    clears(p, table) && plan_ran(p, e0, None, e1, None, r, h)
}

/// The engine without the counters of a table.
pub open spec fn without_counters(e: EngineView, table: Seq<char>) -> EngineView {
    EngineView {
        st: StateView {
            counters: counters_without(
                e.st.counters,
                lower_text(table) + "."@,
                0,
                Seq::empty(),
            ),
            ..e.st
        },
        ..e
    }
}

/// What TRUNCATE leaves behind and gives back, given what removing the rows did.
pub open spec fn truncated(table: Seq<char>, em: EngineView, d: Answer, e1: EngineView, r: Answer) -> bool {
    match d {
        Err(x) => e1 == em && r == Err::<ResultView, ErrorView>(x),
        Ok(a) => e1 == without_counters(em, table) && r == Ok::<ResultView, ErrorView>(
            report("OK"@, a.rows_affected, 0),
        ),
    }
}

/// Whether values are the literals for rows, and inserting them leaves this behind.
pub open spec fn inserted_as(
    values: Vec<Vec<Expr>>,
    table_name: String,
    columns: Option<Vec<String>>,
    rows: Seq<Seq<ValueView>>,
    em: EngineView,
    e1: EngineView,
    r: Answer,
    h: HostView,
) -> bool {
    &&& rows_stand_for(values@, rows, h)
    &&& plan_ran(
        PlanNode::Insert { table_name, columns, values, on_conflict: None },
        em,
        None,
        e1,
        None,
        r,
        h,
    )
}

/// What inserting the rows of an answer leaves behind and gives back.
pub open spec fn answer_inserted(
    table_name: String,
    columns: Option<Vec<String>>,
    a: Answer,
    em: EngineView,
    e1: EngineView,
    r: Answer,
    h: HostView,
) -> bool {
    match a {
        Err(x) => e1 == em && r == Err::<ResultView, ErrorView>(x),
        Ok(x) => match literal_error(x.rows, 0, h) {
            Some(y) => e1 == em && r == Err::<ResultView, ErrorView>(y),
            None => if x.rows.len() == 0 {
                e1 == em && r == Ok::<ResultView, ErrorView>(ok())
            } else {
                exists|values: Vec<Vec<Expr>>| #[trigger]
                    inserted_as(values, table_name, columns, x.rows, em, e1, r, h)
            },
        },
    }
}

/// Holds of every state and answer: it claims nothing, and only names the pair that a part of a
/// statement left behind and gave back, so that a witness for it can be found.
pub open spec fn midway(e: EngineView, a: Answer) -> bool {
    true
}

/// What a statement leaves behind outside any session, and what it gives back. `sql` is its
/// text.
pub open spec fn stmt_ran(
    stmt: Statement,
    sql: Seq<char>,
    e0: EngineView,
    e1: EngineView,
    r: Answer,
    h: HostView,
) -> bool
    decreases stmt,
{
    match stmt {
        Statement::ShowTables => e1 == e0 && r == Ok::<ResultView, ErrorView>(
            tables_answer(e0.catalog),
        ),
        Statement::ShowColumns { table_name } => e1 == e0 && r == columns_answer(
            e0.catalog,
            table_name@,
        ),
        Statement::DescribeTable { table_name } => e1 == e0 && r == columns_answer(
            e0.catalog,
            table_name@,
        ),
        Statement::ShowCreateTable { table_name } => e1 == e0 && r == create_table_answer(
            e0.catalog,
            table_name@,
        ),
        Statement::SetVariable { name, value } => e1 == e0 && r == Ok::<ResultView, ErrorView>(ok()),
        Statement::UseDatabase { name } => e1 == e0 && r == Ok::<ResultView, ErrorView>(ok()),
        Statement::StartTransaction => e1 == e0 && r == Ok::<ResultView, ErrorView>(ok()),
        Statement::Commit => e1 == e0 && r == Ok::<ResultView, ErrorView>(ok()),
        Statement::Rollback => e1 == e0 && r == Ok::<ResultView, ErrorView>(ok()),
        Statement::Savepoint { name } => e1 == e0 && r == Ok::<ResultView, ErrorView>(ok()),
        Statement::RollbackTo { name } => e1 == e0 && r == Ok::<ResultView, ErrorView>(ok()),
        Statement::ReleaseSavepoint { name } => e1 == e0 && r == Ok::<ResultView, ErrorView>(ok()),
        Statement::CreateDatabase { name } => e1 == e0 && r == Ok::<ResultView, ErrorView>(ok()),
        Statement::DropDatabase { name } => e1 == e0 && r == Ok::<ResultView, ErrorView>(ok()),
        Statement::Preparsed => e1 == e0 && r == Ok::<ResultView, ErrorView>(ok()),
        Statement::AnalyzeTable { table_name } => analyzed(table_name@, e0, e1, r),
        Statement::Explain { statement } => e1 == e0 && exists|
            p: std::result::Result<PlanNode, ErrorView>,
        | #[trigger]
            explained(p, *statement, e0, r),
        Statement::Union { left, right, all } => exists|em: EngineView, l: Answer| #[trigger]
            midway(em, l) && stmt_ran(*left, sql, e0, em, l, h) && match l {
                Err(x) => e1 == em && r == Err::<ResultView, ErrorView>(x),
                Ok(la) => exists|rr: Answer| #[trigger]
                    midway(e1, rr) && stmt_ran(*right, sql, em, e1, rr, h) && r == match rr {
                        Err(x) => Err::<ResultView, ErrorView>(x),
                        Ok(ra) => Ok::<ResultView, ErrorView>(union_answer(la, ra, all)),
                    },
            },
        Statement::CreateView { name, column_aliases, query } => view_made(
            name@,
            sql,
            column_aliases,
            e0,
            e1,
            r,
        ),
        Statement::DropView { name, if_exists } => view_dropped(name@, if_exists, e0, e1, r),
        Statement::TruncateTable { table_name } => exists|
            p: PlanNode,
            em: EngineView,
            d: Answer,
        | #[trigger]
            cleared(p, table_name@, e0, em, d, h) && truncated(table_name@, em, d, e1, r),
        Statement::InsertSelect { table_name, columns, query } => exists|em: EngineView, a: Answer|
         #[trigger]
            midway(em, a) && stmt_ran(*query, sql, e0, em, a, h) && answer_inserted(
                table_name,
                columns,
                a,
                em,
                e1,
                r,
                h,
            ),
        Statement::CreateSequence { name, start, increment } => sequence_made(
            name@,
            start,
            increment,
            e0,
            e1,
            r,
        ),
        Statement::AlterTable { table_name, operations } => table_altered(
            table_name@,
            operations@,
            e0,
            e1,
            r,
        ),
        _ => planned_ran(stmt, e0, None, e1, None, r, h),
    }
}

impl Engine {
    /// Plans a statement and executes the plan in a session.
    pub fn execute_planned(
        &mut self,
        stmt: Statement,
        session: &mut Option<TxnId>,
        host: &Host,
    ) -> (r: Result<ExecuteResult>)
        requires
            old(self)@.wf(),
        ensures
            final(self)@.wf(),
            planned_ran(
                stmt,
                old(self)@,
                *old(session),
                final(self)@,
                *final(session),
                outcome(r),
                host@,
            ),
    {
        let ghost e0 = self@;
        let ghost s0 = *session;
        match plan(stmt, &self.ctx.catalog) {
            Err(e) => {
                let ghost p: std::result::Result<PlanNode, ErrorView> = Err(e@);
                let r: Result<ExecuteResult> = Err(e);
                assert(ran_as(p, stmt, e0, s0, self@, *session, outcome(r), host@));
                r
            },
            Ok(node) => {
                let ghost p: std::result::Result<PlanNode, ErrorView> = Ok(node);
                let r = self.execute_plan_session(node, session, host);
                assert(ran_as(p, stmt, e0, s0, self@, *session, outcome(r), host@));
                r
            },
        }
    }

    /// Removes all rows of a table.
    pub fn clear_table(&mut self, table: &str, host: &Host) -> (r: Result<ExecuteResult>)
        requires
            old(self)@.wf(),
        ensures
            final(self)@.wf(),
            exists|p: PlanNode| #[trigger]
                cleared(p, table@, old(self)@, final(self)@, outcome(r), host@),
    {
        let ghost e0 = self@;
        let table_name = table.to_owned();
        let scan = PlanNode::SeqScan { table_name: table_name.clone(), alias: None };
        let node = PlanNode::Delete { table_name, child: Box::new(scan) };
        let mut session: Option<TxnId> = None;
        assert(clears(node, table@));
        let ghost p = node;
        let r = self.execute_plan_session(node, &mut session, host);
        assert(session is None);
        assert(cleared(p, table@, e0, self@, outcome(r), host@));
        r
    }

    fn truncate_table(&mut self, table: &str, host: &Host) -> (r: Result<ExecuteResult>)
        requires
            old(self)@.wf(),
        ensures
            final(self)@.wf(),
            exists|p: PlanNode, em: EngineView, d: Answer| #[trigger]
                cleared(p, table@, old(self)@, em, d, host@) && truncated(
                    table@,
                    em,
                    d,
                    final(self)@,
                    outcome(r),
                ),
    {
        let ghost e0 = self@;
        let done = self.clear_table(table, host);
        let ghost em = self@;
        let ghost d = outcome(done);
        let ghost p = choose|p: PlanNode| #[trigger] cleared(p, table@, e0, em, d, host@);
        assert(cleared(p, table@, e0, em, d, host@));
        match done {
            Err(e) => {
                let r: Result<ExecuteResult> = Err(e);
                assert(truncated(table@, em, d, self@, outcome(r)));
                r
            },
            Ok(a) => {
                let prefix = joined(table.to_lowercase().as_str(), ".");
                let kept = drop_counters(&self.ctx.dml.auto_increment_counters, prefix.as_str());
                self.ctx.dml.auto_increment_counters = kept;
                let r: Result<ExecuteResult> = Ok(
                    ExecuteResult::report("OK".to_owned(), a.rows_affected, 0),
                );
                assert(truncated(table@, em, d, self@, outcome(r)));
                r
            },
        }
    }

    fn insert_answer(
        &mut self,
        table_name: String,
        columns: Option<Vec<String>>,
        a: Result<ExecuteResult>,
        host: &Host,
    ) -> (r: Result<ExecuteResult>)
        requires
            old(self)@.wf(),
        ensures
            final(self)@.wf(),
            answer_inserted(
                table_name,
                columns,
                outcome(a),
                old(self)@,
                final(self)@,
                outcome(r),
                host@,
            ),
    {
        let ghost em = self@;
        let found = a?;
        let ghost rv = found.rows.deep_view();
        let values = rows_to_literals(&found.rows, host)?;
        if values.len() == 0 {
            return Ok(ok_result());
        }
        let ghost vs = values;
        let mut session: Option<TxnId> = None;
        let node = PlanNode::Insert { table_name, columns, values, on_conflict: None };
        let r = self.execute_plan_session(node, &mut session, host);
        assert(session is None);
        assert(inserted_as(vs, table_name, columns, rv, em, self@, outcome(r), host@));
        r
    }

    /// Execute a statement that's already parsed (used for UNION sub-queries). `sql` is its
    /// text.
    pub fn execute_stmt_internal(&mut self, stmt: Statement, sql: &str, host: &Host) -> (r: Result<
        ExecuteResult,
    >)
        requires
            old(self)@.wf(),
        ensures
            final(self)@.wf(),
            stmt_ran(stmt, sql@, old(self)@, final(self)@, outcome(r), host@),
        decreases stmt,
    {
        let ghost e0 = self@;
        match stmt {
            Statement::ShowTables => Ok(show_tables(&self.ctx.catalog)),
            Statement::ShowColumns { table_name } => show_columns(
                &self.ctx.catalog,
                table_name.as_str(),
            ),
            Statement::DescribeTable { table_name } => show_columns(
                &self.ctx.catalog,
                table_name.as_str(),
            ),
            Statement::ShowCreateTable { table_name } => show_create_table(
                &self.ctx.catalog,
                table_name.as_str(),
            ),
            Statement::SetVariable { .. }
            | Statement::UseDatabase { .. }
            | Statement::StartTransaction
            | Statement::Commit
            | Statement::Rollback
            | Statement::Savepoint { .. }
            | Statement::RollbackTo { .. }
            | Statement::ReleaseSavepoint { .. }
            | Statement::CreateDatabase { .. }
            | Statement::DropDatabase { .. }
            | Statement::Preparsed => Ok(ok_result()),
            Statement::AnalyzeTable { table_name } => self.analyze_table(table_name.as_str()),
            Statement::Explain { statement } => match plan(*statement, &self.ctx.catalog) {
                Err(e) => {
                    let ghost p: std::result::Result<PlanNode, ErrorView> = Err(e@);
                    let r: Result<ExecuteResult> = Err(e);
                    assert(explained(p, *statement, e0, outcome(r)));
                    r
                },
                Ok(node) => {
                    let ghost p: std::result::Result<PlanNode, ErrorView> = Ok(node);
                    let r: Result<ExecuteResult> = Ok(explain(&node));
                    assert(explained(p, *statement, e0, outcome(r)));
                    r
                },
            },
            Statement::Union { left, right, all } => {
                let l = self.execute_stmt_internal(*left, sql, host);
                let ghost em = self@;
                let ghost lv = outcome(l);
                assert(midway(em, lv));
                let la = l?;
                let rr = self.execute_stmt_internal(*right, sql, host);
                assert(midway(self@, outcome(rr)));
                let ra = rr?;
                Ok(unite(la, ra, all))
            },
            Statement::CreateView { name, column_aliases, query: _ } => self.create_view(
                name.as_str(),
                sql,
                column_aliases,
            ),
            Statement::DropView { name, if_exists } => self.drop_view(name.as_str(), if_exists),
            Statement::TruncateTable { table_name } => self.truncate_table(
                table_name.as_str(),
                host,
            ),
            Statement::InsertSelect { table_name, columns, query } => {
                let a = self.execute_stmt_internal(*query, sql, host);
                assert(midway(self@, outcome(a)));
                self.insert_answer(table_name, columns, a, host)
            },
            Statement::CreateSequence { name, start, increment } => self.create_sequence(
                name.as_str(),
                start,
                increment,
            ),
            Statement::AlterTable { table_name, operations } => self.alter_table(
                table_name.as_str(),
                &operations,
            ),
            other => {
                let mut session: Option<TxnId> = None;
                let r = self.execute_planned(other, &mut session, host);
                assert(session is None);
                r
            },
        }
    }
}

} // verus!
