//! Parsed statements in a session: transactions, savepoints, queries and changes.
use crate::ast::Statement;
use crate::catalog::{Catalog, TableInfo};
use crate::commands::TriggerView;
use crate::common::TxnId;
use crate::database::{has_entry, Database, DatabaseView};
use crate::engine::{rolled_back, Engine, EngineView, PLAN_CACHE_LIMIT};
use crate::error::{outcome, viewed, ErrorView, ForgeError, Result};
use crate::executor::Answer;
use crate::host::{Host, HostView};
use crate::page_ids::lemma_undone_valid;
use crate::plan::PlanNode;
use crate::planner::plan;
use crate::recursion::removed_by;
use crate::run::{midway, ran_as, stmt_ran};
use crate::session::triggered;
use crate::state::{ExecuteResult, ResultView};
use crate::statements::{ok, ok_result};
use crate::subqueries::stmt_resolved;
use crate::text::{
    begins, joined, nat_text, same_text, show_u64, starts_with, tail_text, trim, trimmed,
};
use crate::transactions::{
    kept_log, law_begun_transaction_is_active, law_ended_transaction_is_not_active,
    lemma_with_log_wf, undone_log,
};
use vstd::prelude::*;

verus! {

// ---------------------------------------------------------------------------
// Savepoints
// ---------------------------------------------------------------------------

/// The place of a transaction's savepoints, from `i` on.
pub open spec fn points_from(
    list: Seq<(TxnId, Seq<(Seq<char>, usize)>)>,
    t: TxnId,
    i: int,
) -> Option<int>
    decreases list.len() - i,
{
    if i < 0 || i >= list.len() {
        None
    } else if list[i].0 == t {
        Some(i)
    } else {
        points_from(list, t, i + 1)
    }
}

/// Where savepoints of a transaction are found, they are there.
proof fn lemma_points_from(list: Seq<(TxnId, Seq<(Seq<char>, usize)>)>, t: TxnId, i: int)
    requires
        0 <= i,
    ensures
        points_from(list, t, i) matches Some(k) ==> i <= k < list.len() && list[k].0 == t,
    decreases list.len() - i,
{
    if i < list.len() && list[i].0 != t {
        lemma_points_from(list, t, i + 1);
    }
}

/// The savepoints with one more.
pub open spec fn point_added(
    list: Seq<(TxnId, Seq<(Seq<char>, usize)>)>,
    t: TxnId,
    name: Seq<char>,
    len: usize,
) -> Seq<(TxnId, Seq<(Seq<char>, usize)>)> {
    match points_from(list, t, 0) {
        Some(k) => list.update(k, (t, list[k].1.push((name, len)))),
        None => list.push((t, seq![(name, len)])),
    }
}

/// The savepoints without those of a transaction.
pub open spec fn points_dropped(
    list: Seq<(TxnId, Seq<(Seq<char>, usize)>)>,
    t: TxnId,
) -> Seq<(TxnId, Seq<(Seq<char>, usize)>)> {
    match points_from(list, t, 0) {
        Some(k) => list.remove(k),
        None => list,
    }
}

/// The last of the first `n` savepoints with a name.
pub open spec fn last_point(points: Seq<(Seq<char>, usize)>, name: Seq<char>, n: int) -> Option<int>
    decreases n,
{
    if n <= 0 || n > points.len() {
        None
    } else if points[n - 1].0 == name {
        Some(n - 1)
    } else {
        last_point(points, name, n - 1)
    }
}

/// The savepoints from `i` on that are not of a name, behind `acc`.
pub open spec fn points_without(
    points: Seq<(Seq<char>, usize)>,
    name: Seq<char>,
    i: int,
    acc: Seq<(Seq<char>, usize)>,
) -> Seq<(Seq<char>, usize)>
    decreases points.len() - i,
{
    if i < 0 || i >= points.len() {
        acc
    } else {
        points_without(
            points,
            name,
            i + 1,
            if points[i].0 == name {
                acc
            } else {
                acc.push(points[i])
            },
        )
    }
}

fn find_last_point(points: &Vec<(String, usize)>, name: &str) -> (r: Option<usize>)
    ensures
        match r {
            Some(k) => k < points.len() && last_point(
                points.deep_view(),
                name@,
                points.len() as int,
            ) == Some(k as int),
            None => last_point(points.deep_view(), name@, points.len() as int) is None,
        },
{
    let ghost pv = points.deep_view();
    let mut n: usize = points.len();
    while n > 0
        invariant
            0 <= n <= points.len(),
            pv == points.deep_view(),
            last_point(pv, name@, points.len() as int) == last_point(pv, name@, n as int),
        decreases n,
    {
        assert(pv[n - 1].0 == points@[n - 1].0@);
        if same_text(points[n - 1].0.as_str(), name) {
            return Some(n - 1);
        }
        n -= 1;
    }
    None
}

fn keep_points(points: &Vec<(String, usize)>, name: &str) -> (r: Vec<(String, usize)>)
    ensures
        r.deep_view() == points_without(points.deep_view(), name@, 0, Seq::empty()),
{
    let ghost pv = points.deep_view();
    let mut out: Vec<(String, usize)> = Vec::new();
    assert(out.deep_view() =~= Seq::<(Seq<char>, usize)>::empty());
    let mut i: usize = 0;
    while i < points.len()
        invariant
            0 <= i <= points.len(),
            pv == points.deep_view(),
            points_without(pv, name@, 0, Seq::empty()) == points_without(
                pv,
                name@,
                i as int,
                out.deep_view(),
            ),
        decreases points.len() - i,
    {
        assert(pv[i as int] == (points@[i as int].0@, points@[i as int].1));
        if !same_text(points[i].0.as_str(), name) {
            let ghost had = out.deep_view();
            out.push((points[i].0.clone(), points[i].1));
            assert(out.deep_view() =~= had.push(pv[i as int]));
        }
        i += 1;
    }
    out
}

// ---------------------------------------------------------------------------
// Transaction control
// ---------------------------------------------------------------------------

/// The database after a transaction ended with its changes kept.
pub open spec fn committed(d: DatabaseView, t: TxnId) -> DatabaseView {
    if d.engine.txns.is_active(t) {
        DatabaseView {
            engine: EngineView { txns: d.engine.txns.ended(t), ..d.engine },
            savepoints: points_dropped(d.savepoints, t),
            ..d
        }
    } else {
        d
    }
}

/// The database after a transaction ended with its changes undone.
pub open spec fn aborted(d: DatabaseView, t: TxnId) -> DatabaseView {
    if d.engine.txns.is_active(t) {
        let e = rolled_back(d.engine, t, 0);
        DatabaseView {
            engine: EngineView { txns: e.txns.ended(t), ..e },
            savepoints: points_dropped(d.savepoints, t),
            ..d
        }
    } else {
        d
    }
}

/// A database and a session, and what a statement that led to them gave back.
pub struct Controlled {
    pub db: DatabaseView,
    pub session: Option<TxnId>,
    pub result: Answer,
}

/// What BEGIN does. A transaction that is under way is committed.
pub open spec fn transaction_begun(d: DatabaseView, s: Option<TxnId>) -> Controlled {
    let e = match s {
        Some(t) => EngineView { txns: d.engine.txns.ended(t), ..d.engine },
        None => d.engine,
    };
    if e.txns.next == u64::MAX {
        Controlled {
            db: DatabaseView { engine: e, ..d },
            session: None,
            result: Err(ErrorView::Transaction("no transaction number is left"@)),
        }
    } else {
        Controlled {
            db: DatabaseView { engine: EngineView { txns: e.txns.begun(), ..e }, ..d },
            session: Some(TxnId(e.txns.next)),
            result: Ok(ok()),
        }
    }
}

/// The database after a savepoint was set in a transaction.
pub open spec fn point_set(d: DatabaseView, t: TxnId, name: Seq<char>) -> DatabaseView {
    if d.engine.txns.is_active(t) {
        DatabaseView {
            savepoints: point_added(
                d.savepoints,
                t,
                name,
                d.engine.txns.log(t).len() as usize,
            ),
            ..d
        }
    } else {
        d
    }
}

/// The database after a transaction went back to a savepoint. Later savepoints are gone.
pub open spec fn back_to_point(d: DatabaseView, t: TxnId, name: Seq<char>) -> DatabaseView {
    match points_from(d.savepoints, t, 0) {
        None => d,
        Some(k) => {
            let points = d.savepoints[k].1;
            match last_point(points, name, points.len() as int) {
                None => d,
                Some(p) => DatabaseView {
                    engine: rolled_back(d.engine, t, points[p].1 as int),
                    savepoints: d.savepoints.update(k, (t, points.take(p + 1))),
                    ..d
                },
            }
        },
    }
}

/// The database after a savepoint was given up.
pub open spec fn point_released(d: DatabaseView, t: TxnId, name: Seq<char>) -> DatabaseView {
    match points_from(d.savepoints, t, 0) {
        None => d,
        Some(k) => DatabaseView {
            savepoints: d.savepoints.update(
                k,
                (t, points_without(d.savepoints[k].1, name, 0, Seq::empty())),
            ),
            ..d
        },
    }
}

/// A session that goes on.
pub open spec fn going_on(db: DatabaseView, session: Option<TxnId>) -> Controlled {
    Controlled { db, session, result: Ok(ok()) }
}

/// What a statement that controls a transaction does; none, if it is another.
pub open spec fn controlled(d: DatabaseView, s: Option<TxnId>, stmt: Statement) -> Option<
    Controlled,
> {
    match stmt {
        Statement::StartTransaction => Some(transaction_begun(d, s)),
        Statement::Commit => Some(
            going_on(
                match s {
                    Some(t) => committed(d, t),
                    None => d,
                },
                None,
            ),
        ),
        Statement::Rollback => Some(
            going_on(
                match s {
                    Some(t) => aborted(d, t),
                    None => d,
                },
                None,
            ),
        ),
        Statement::Savepoint { name } => Some(
            going_on(
                match s {
                    Some(t) => point_set(d, t, name@),
                    None => d,
                },
                s,
            ),
        ),
        Statement::RollbackTo { name } => Some(
            going_on(
                match s {
                    Some(t) => back_to_point(d, t, name@),
                    None => d,
                },
                s,
            ),
        ),
        Statement::ReleaseSavepoint { name } => Some(
            going_on(
                match s {
                    Some(t) => point_released(d, t, name@),
                    None => d,
                },
                s,
            ),
        ),
        _ => None,
    }
}

impl Database {
    fn find_points(&self, t: TxnId) -> (r: Option<usize>)
        ensures
            match r {
                Some(k) => k < self.savepoints.len() && points_from(self@.savepoints, t, 0)
                    == Some(k as int),
                None => points_from(self@.savepoints, t, 0) is None,
            },
    {
        let ghost sv = self@.savepoints;
        let mut i: usize = 0;
        while i < self.savepoints.len()
            invariant
                0 <= i <= self.savepoints.len(),
                sv == self@.savepoints,
                points_from(sv, t, 0) == points_from(sv, t, i as int),
            decreases self.savepoints.len() - i,
        {
            assert(sv[i as int].0 == self.savepoints@[i as int].0);
            if self.savepoints[i].0 == t {
                return Some(i);
            }
            i += 1;
        }
        None
    }

    fn drop_points(&mut self, t: TxnId)
        ensures
            final(self)@ == (DatabaseView {
                savepoints: points_dropped(old(self)@.savepoints, t),
                ..old(self)@
            }),
    {
        let ghost before = self@.savepoints;
        if let Some(k) = self.find_points(t) {
            let _ = self.savepoints.remove(k);
            assert(self@.savepoints =~= before.remove(k as int));
        }
    }

    fn commit(&mut self, t: TxnId)
        requires
            old(self)@.wf(),
        ensures
            final(self)@.wf(),
            final(self)@ == committed(old(self)@, t),
    {
        if self.engine.txns.is_active(t) {
            proof {
                law_ended_transaction_is_not_active(self@.engine.txns, t, t);
            }
            self.engine.txns.end(t);
            self.drop_points(t);
        }
    }

    fn abort(&mut self, t: TxnId)
        requires
            old(self)@.wf(),
        ensures
            final(self)@.wf(),
            final(self)@ == aborted(old(self)@, t),
    {
        if self.engine.txns.is_active(t) {
            self.abort_transaction(t);
        }
    }

    /// Abort a transaction by ID. Used for connection cleanup.
    pub fn abort_transaction(&mut self, txn_id: TxnId)
        requires
            old(self)@.wf(),
        ensures
            final(self)@.wf(),
            final(self)@ == (DatabaseView {
                savepoints: points_dropped(old(self)@.savepoints, txn_id),
                ..aborted(old(self)@, txn_id)
            }),
    {
        if self.engine.txns.is_active(txn_id) {
            proof {
                lemma_undone_valid(
                    self@.engine.st.pages,
                    self@.engine.st.next_page,
                    undone_log(self@.engine.txns.log(txn_id), 0),
                );
                let txns = self@.engine.txns;
                let kept = kept_log(txns.log(txn_id), 0);
                lemma_with_log_wf(txns, txn_id, kept);
                law_ended_transaction_is_not_active(txns.with_log(txn_id, kept), txn_id, txn_id);
            }
            self.engine.roll_back(txn_id, 0);
            self.engine.txns.end(txn_id);
        }
        self.drop_points(txn_id);
    }

    fn set_point(&mut self, t: TxnId, name: String)
        requires
            old(self)@.wf(),
        ensures
            final(self)@.wf(),
            final(self)@ == point_set(old(self)@, t, name@),
    {
        if !self.engine.txns.is_active(t) {
            return;
        }
        let ghost before = self@.savepoints;
        let ghost nv = name@;
        let len: usize = self.engine.txns.log_len(t);
        match self.find_points(t) {
            Some(k) => {
                proof {
                    lemma_points_from(before, t, 0);
                }
                assert(before[k as int] == (
                    self.savepoints@[k as int].0,
                    self.savepoints@[k as int].1.deep_view(),
                ));
                let ghost was = before[k as int].1;
                self.savepoints[k].1.push((name, len));
                assert(self.savepoints@[k as int].1.deep_view() =~= was.push((nv, len)));
                assert(self@.savepoints =~= before.update(k as int, (t, was.push((nv, len)))));
            },
            None => {
                let mut points: Vec<(String, usize)> = Vec::new();
                points.push((name, len));
                assert(points.deep_view() =~= seq![(nv, len)]);
                self.savepoints.push((t, points));
                assert(self@.savepoints =~= before.push((t, seq![(nv, len)])));
            },
        }
    }

    fn go_back(&mut self, t: TxnId, name: &str)
        requires
            old(self)@.wf(),
        ensures
            final(self)@.wf(),
            final(self)@ == back_to_point(old(self)@, t, name@),
    {
        let ghost before = self@.savepoints;
        if let Some(k) = self.find_points(t) {
            proof {
                lemma_points_from(before, t, 0);
            }
            assert(before[k as int] == (
                self.savepoints@[k as int].0,
                self.savepoints@[k as int].1.deep_view(),
            ));
            let ghost points = before[k as int].1;
            assert(points.len() == self.savepoints@[k as int].1.len());
            if let Some(p) = find_last_point(&self.savepoints[k].1, name) {
                assert(points[p as int].1 == self.savepoints@[k as int].1@[p as int].1);
                let from: usize = self.savepoints[k].1[p].1;
                self.savepoints[k].1.truncate(p + 1);
                assert(self.savepoints@[k as int].1.deep_view() =~= points.take(p + 1));
                assert(self@.savepoints =~= before.update(k as int, (t, points.take(p + 1))));
                proof {
                    lemma_undone_valid(
                        self@.engine.st.pages,
                        self@.engine.st.next_page,
                        undone_log(self@.engine.txns.log(t), from as int),
                    );
                    let txns = self@.engine.txns;
                    lemma_with_log_wf(txns, t, kept_log(txns.log(t), from as int));
                }
                self.engine.roll_back(t, from);
            }
        }
    }

    fn release_point(&mut self, t: TxnId, name: &str)
        requires
            old(self)@.wf(),
        ensures
            final(self)@.wf(),
            final(self)@ == point_released(old(self)@, t, name@),
    {
        let ghost before = self@.savepoints;
        if let Some(k) = self.find_points(t) {
            proof {
                lemma_points_from(before, t, 0);
            }
            assert(before[k as int] == (
                self.savepoints@[k as int].0,
                self.savepoints@[k as int].1.deep_view(),
            ));
            let ghost kept = points_without(before[k as int].1, name@, 0, Seq::empty());
            let points = keep_points(&self.savepoints[k].1, name);
            self.savepoints.set(k, (t, points));
            assert(self@.savepoints =~= before.update(k as int, (t, kept)));
        }
    }

    fn begin_transaction(&mut self, session: &mut Option<TxnId>) -> (r: Result<ExecuteResult>)
        requires
            old(self)@.wf(),
        ensures
            final(self)@.wf(),
            ({
                let c = transaction_begun(old(self)@, *old(session));
                final(self)@ == c.db && *final(session) == c.session && outcome(r) == c.result
            }),
    {
        if let Some(t) = *session {
            proof {
                law_ended_transaction_is_not_active(self@.engine.txns, t, t);
            }
            self.engine.txns.end(t);
        }
        *session = None;
        proof {
            if self@.engine.txns.next < u64::MAX {
                law_begun_transaction_is_active(
                    self@.engine.txns,
                    TxnId(self@.engine.txns.next),
                );
            }
        }
        let id = self.engine.txns.begin()?;
        *session = Some(id);
        Ok(ok_result())
    }

    /// Carries out a statement that controls a transaction.
    pub fn control(&mut self, stmt: &Statement, session: &mut Option<TxnId>) -> (r: Option<
        Result<ExecuteResult>,
    >)
        requires
            old(self)@.wf(),
        ensures
            final(self)@.wf(),
            match controlled(old(self)@, *old(session), *stmt) {
                None => r is None && final(self)@ == old(self)@ && *final(session) == *old(
                    session,
                ),
                Some(c) => r is Some && outcome(r->0) == c.result && final(self)@ == c.db
                    && *final(session) == c.session,
            },
    {
        match stmt {
            Statement::StartTransaction => Some(self.begin_transaction(session)),
            Statement::Commit => {
                if let Some(t) = *session {
                    self.commit(t);
                }
                *session = None;
                Some(Ok(ok_result()))
            },
            Statement::Rollback => {
                if let Some(t) = *session {
                    self.abort(t);
                }
                *session = None;
                Some(Ok(ok_result()))
            },
            Statement::Savepoint { name } => {
                if let Some(t) = *session {
                    self.set_point(t, name.clone());
                }
                Some(Ok(ok_result()))
            },
            Statement::RollbackTo { name } => {
                if let Some(t) = *session {
                    self.go_back(t, name.as_str());
                }
                Some(Ok(ok_result()))
            },
            Statement::ReleaseSavepoint { name } => {
                if let Some(t) = *session {
                    self.release_point(t, name.as_str());
                }
                Some(Ok(ok_result()))
            },
            _ => None,
        }
    }
}

// ---------------------------------------------------------------------------
// All parsed statements
// ---------------------------------------------------------------------------

/// Whether a statement is carried out as it stands, without a plan in the session.
pub open spec fn is_direct(stmt: Statement) -> bool {
    !(stmt is Select || stmt is Insert || stmt is Update || stmt is Delete || stmt is CreateTable
        || stmt is DropTable || stmt is CreateIndex)
}

fn goes_directly(stmt: &Statement) -> (r: bool)
    ensures
        r == is_direct(*stmt),
{
    !matches!(
        stmt,
        Statement::Select { .. }
        | Statement::Insert { .. }
        | Statement::Update { .. }
        | Statement::Delete { .. }
        | Statement::CreateTable { .. }
        | Statement::DropTable { .. }
        | Statement::CreateIndex { .. }
    )
}

/// The texts of the queries that were planned, with one more. Where there would be too many, the
/// others are forgotten.
pub open spec fn remembered(cache: Seq<Seq<char>>, sql: Seq<char>) -> Seq<Seq<char>> {
    if cache.contains(sql) {
        cache
    } else if cache.len() >= PLAN_CACHE_LIMIT {
        seq![sql]
    } else {
        cache.push(sql)
    }
}

/// Never more than the greatest number of queries is noted.
pub proof fn law_plan_cache_is_bounded(cache: Seq<Seq<char>>, sql: Seq<char>)
    requires
        cache.len() <= PLAN_CACHE_LIMIT,
    ensures
        remembered(cache, sql).len() <= PLAN_CACHE_LIMIT,
        remembered(cache, sql).contains(sql),
{
    if !cache.contains(sql) {
        assert(remembered(cache, sql).last() == sql);
    }
}

/// The engine after a statement: numbers that were taken from sequences are given back, if the
/// host is asked.
pub open spec fn settled_engine(e0: EngineView, e: EngineView, r: Option<ErrorView>) -> EngineView {
    match r {
        Some(ErrorView::NeedsFloat(_)) => EngineView { sequences: e0.sequences, ..e },
        _ => e,
    }
}

/// The steps of a statement that is planned.
pub struct Parsing {
    pub resolved: EngineView,
    pub out: std::result::Result<Statement, ErrorView>,
    pub p: std::result::Result<PlanNode, ErrorView>,
    pub ran: EngineView,
    pub a: Answer,
}

/// The result of a statement, and the statements that are to run after it.
pub type ParsedAnswer = std::result::Result<(ResultView, Seq<Seq<char>>), ErrorView>;

/// Whether a statement takes these steps in a session: its queries are resolved, it is planned,
/// and the plan is executed. The text of a query that was planned is noted; after other
/// statements triggers fire.
pub open spec fn parsed_by(
    m: Parsing,
    stmt: Statement,
    sql: Seq<char>,
    d0: DatabaseView,
    s0: Option<TxnId>,
    d1: DatabaseView,
    s1: Option<TxnId>,
    r: ParsedAnswer,
    h: HostView,
) -> bool {
    &&& stmt_resolved(stmt, d0.engine, m.resolved, m.out, h)
    &&& match m.out {
        Err(x) => {
            &&& d1 == (DatabaseView {
                engine: settled_engine(d0.engine, m.resolved, Some(x)),
                ..d0
            })
            &&& s1 == s0
            &&& r == Err::<(ResultView, Seq<Seq<char>>), ErrorView>(x)
        },
        Ok(st) => {
            let noted = if st is Select && m.p is Ok {
                EngineView {
                    cache: remembered(m.resolved.cache, trimmed(sql)),
                    ..m.resolved
                }
            } else {
                m.resolved
            };
            &&& ran_as(m.p, st, noted, s0, m.ran, s1, m.a, h)
            &&& d1 == (DatabaseView {
                engine: settled_engine(
                    d0.engine,
                    m.ran,
                    match m.a {
                        Err(x) => Some(x),
                        Ok(_) => None,
                    },
                ),
                ..d0
            })
            &&& r == match m.a {
                Err(x) => Err::<(ResultView, Seq<Seq<char>>), ErrorView>(x),
                Ok(x) => Ok::<(ResultView, Seq<Seq<char>>), ErrorView>(
                    (
                        x,
                        if st is Select {
                            Seq::empty()
                        } else {
                            triggered(d0.triggers, sql)
                        },
                    ),
                ),
            }
        },
    }
}

/// An answer after which nothing is to run.
pub open spec fn alone(a: Answer) -> ParsedAnswer {
    match a {
        Err(x) => Err(x),
        Ok(x) => Ok((x, Seq::empty())),
    }
}

/// What a parsed statement does in a session, and what it gives back.
pub open spec fn parsed_ran(
    stmt: Statement,
    sql: Seq<char>,
    d0: DatabaseView,
    s0: Option<TxnId>,
    d1: DatabaseView,
    s1: Option<TxnId>,
    r: ParsedAnswer,
    h: HostView,
) -> bool {
    match controlled(d0, s0, stmt) {
        Some(c) => d1 == c.db && s1 == c.session && r == alone(c.result),
        None => if is_direct(stmt) {
            &&& s1 == s0
            &&& d1 == (DatabaseView { engine: d1.engine, ..d0 })
            &&& exists|a: Answer| #[trigger]
                midway(d1.engine, a) && stmt_ran(stmt, sql, d0.engine, d1.engine, a, h) && r
                    == alone(a)
        } else {
            exists|m: Parsing| #[trigger] parsed_by(m, stmt, sql, d0, s0, d1, s1, r, h)
        },
    }
}

fn finish(a: Result<ExecuteResult>) -> (r: Result<(ExecuteResult, Vec<String>)>)
    ensures
        outcome(r) == alone(outcome(a)),
{
    match a {
        Err(e) => Err(e),
        Ok(x) => {
            let none: Vec<String> = Vec::new();
            assert(none.deep_view() =~= Seq::<Seq<char>>::empty());
            Ok((x, none))
        },
    }
}

fn copy_sequences(list: &Vec<(String, (i64, i64))>) -> (r: Vec<(String, (i64, i64))>)
    ensures
        r.deep_view() == list.deep_view(),
{
    let ghost lv = list.deep_view();
    let mut out: Vec<(String, (i64, i64))> = Vec::new();
    let mut i: usize = 0;
    while i < list.len()
        invariant
            0 <= i <= list.len(),
            lv == list.deep_view(),
            out.deep_view() == lv.take(i as int),
        decreases list.len() - i,
    {
        let ghost had = out.deep_view();
        out.push((list[i].0.clone(), (list[i].1.0, list[i].1.1)));
        assert(out.deep_view() =~= had.push(lv[i as int]));
        assert(lv.take(i + 1) =~= lv.take(i as int).push(lv[i as int]));
        i += 1;
    }
    assert(lv.take(i as int) =~= lv);
    out
}

impl Engine {
    fn remember(&mut self, sql: String)
        requires
            old(self)@.wf(),
        ensures
            final(self)@.wf(),
            final(self)@ == (EngineView {
                cache: remembered(old(self)@.cache, sql@),
                ..old(self)@
            }),
    {
        let ghost before = self@.cache;
        let ghost sv = sql@;
        if has_entry(&self.plan_cache, sql.as_str()) {
            return;
        }
        assert(before.len() == self.plan_cache.len());
        if self.plan_cache.len() >= PLAN_CACHE_LIMIT {
            self.plan_cache = Vec::new();
            self.plan_cache.push(sql);
            assert(self@.cache =~= seq![sv]);
        } else {
            self.plan_cache.push(sql);
            assert(self@.cache =~= before.push(sv));
        }
    }
}

impl Database {
    fn execute_in_session(
        &mut self,
        stmt: Statement,
        session: &mut Option<TxnId>,
        sql_text: &str,
        host: &Host,
    ) -> (r: Result<(ExecuteResult, Vec<String>)>)
        requires
            old(self)@.wf(),
        ensures
            final(self)@.wf(),
            exists|m: Parsing| #[trigger]
                parsed_by(
                    m,
                    stmt,
                    sql_text@,
                    old(self)@,
                    *old(session),
                    final(self)@,
                    *final(session),
                    outcome(r),
                    host@,
                ),
    {
        let ghost d0 = self@;
        let ghost s0 = *session;
        let ghost mut m: Parsing = arbitrary();
        let sequences = copy_sequences(&self.engine.sequences);
        let out = self.engine.resolve_subqueries(stmt, host);
        proof {
            m.resolved = self.engine@;
            m.out = viewed(out);
        }
        let st = match out {
            Err(e) => {
                if let ForgeError::NeedsFloat(_) = &e {
                    self.engine.sequences = sequences;
                }
                let r: Result<(ExecuteResult, Vec<String>)> = Err(e);
                assert(parsed_by(m, stmt, sql_text@, d0, s0, self@, *session, outcome(r), host@));
                return r;
            },
            Ok(st) => st,
        };
        let is_select = matches!(st, Statement::Select { .. });
        let p = plan(st, &self.engine.ctx.catalog);
        proof {
            m.p = viewed(p);
        }
        let node = match p {
            Err(e) => {
                proof {
                    m.ran = self.engine@;
                    m.a = Err(e@);
                }
                if let ForgeError::NeedsFloat(_) = &e {
                    self.engine.sequences = sequences;
                }
                let r: Result<(ExecuteResult, Vec<String>)> = Err(e);
                assert(ran_as(m.p, st, m.resolved, s0, m.ran, *session, m.a, host@));
                assert(parsed_by(m, stmt, sql_text@, d0, s0, self@, *session, outcome(r), host@));
                return r;
            },
            Ok(node) => node,
        };
        if is_select {
            self.engine.remember(trim(sql_text));
        }
        let ghost noted = self.engine@;
        let a = self.engine.execute_plan_session(node, session, host);
        proof {
            m.ran = self.engine@;
            m.a = outcome(a);
        }
        assert(ran_as(m.p, st, noted, s0, m.ran, *session, m.a, host@));
        match a {
            Err(e) => {
                if let ForgeError::NeedsFloat(_) = &e {
                    self.engine.sequences = sequences;
                }
                let r: Result<(ExecuteResult, Vec<String>)> = Err(e);
                assert(parsed_by(m, stmt, sql_text@, d0, s0, self@, *session, outcome(r), host@));
                r
            },
            Ok(x) => {
                let after: Vec<String> = if is_select {
                    Vec::new()
                } else {
                    self.fire_triggers_if_needed(sql_text)
                };
                if is_select {
                    assert(after.deep_view() =~= Seq::<Seq<char>>::empty());
                }
                let r: Result<(ExecuteResult, Vec<String>)> = Ok((x, after));
                assert(parsed_by(m, stmt, sql_text@, d0, s0, self@, *session, outcome(r), host@));
                r
            },
        }
    }

    /// Execute a pre-parsed SQL statement with session transaction state. With the result come
    /// the statements that are to run after it.
    pub fn execute_parsed_session(
        &mut self,
        stmt: Statement,
        session_txn: &mut Option<TxnId>,
        sql_text: &str,
        host: &Host,
    ) -> (r: Result<(ExecuteResult, Vec<String>)>)
        requires
            old(self)@.wf(),
        ensures
            final(self)@.wf(),
            parsed_ran(
                stmt,
                sql_text@,
                old(self)@,
                *old(session_txn),
                final(self)@,
                *final(session_txn),
                outcome(r),
                host@,
            ),
    {
        if let Some(a) = self.control(&stmt, session_txn) {
            return finish(a);
        }
        if goes_directly(&stmt) {
            let a = self.engine.execute_stmt_internal(stmt, sql_text, host);
            assert(midway(self.engine@, outcome(a)));
            return finish(a);
        }
        self.execute_in_session(stmt, session_txn, sql_text, host)
    }
}

// ---------------------------------------------------------------------------
// Temporary tables
// ---------------------------------------------------------------------------

/// What the names of a connection's temporary tables begin with.
pub open spec fn temp_prefix(conn_id: u32) -> Seq<char> {
    "#tmp_"@ + nat_text(conn_id as nat) + "_"@
}

/// The name of a table as a connection sees it: temporary ones are its own.
pub open spec fn temp_name(table: Seq<char>, conn_id: u32) -> Seq<char> {
    if begins(table, "#"@) && !begins(table, "##"@) {
        temp_prefix(conn_id) + table.skip(1)
    } else {
        table
    }
}

/// A temporary table of a connection is among those that are cleaned up after it.
pub proof fn law_temp_table_is_cleaned_up(table: Seq<char>, conn_id: u32)
    requires
        begins(table, "#"@),
        !begins(table, "##"@),
    ensures
        begins(temp_name(table, conn_id), temp_prefix(conn_id)),
{
    let p = temp_prefix(conn_id);
    assert((p + table.skip(1)).subrange(0, p.len() as int) =~= p);
}

/// The names of the tables from `i` on that begin with a prefix, behind `acc`.
pub open spec fn tables_with_prefix(
    tables: Seq<(String, TableInfo)>,
    prefix: Seq<char>,
    i: int,
    acc: Seq<Seq<char>>,
) -> Seq<Seq<char>>
    decreases tables.len() - i,
{
    if i < 0 || i >= tables.len() {
        acc
    } else {
        tables_with_prefix(
            tables,
            prefix,
            i + 1,
            if begins(tables[i].1.name@, prefix) {
                acc.push(tables[i].1.name@)
            } else {
                acc
            },
        )
    }
}

/// Whether a table is removed, if it is there, and this is left behind.
pub open spec fn table_removed(name: Seq<char>, e0: EngineView, e1: EngineView, h: HostView) -> bool {
    exists|stmt: Statement, r: Answer| #[trigger] removed_by(stmt, name, e0, e1, r, h)
}

/// Whether the tables are removed one after the other, and leave these states behind.
pub open spec fn all_removed(
    names: Seq<Seq<char>>,
    states: Seq<EngineView>,
    h: HostView,
) -> bool {
    &&& states.len() == names.len() + 1
    &&& forall|i: int|
        0 <= i < names.len() ==> table_removed(#[trigger] names[i], states[i], states[i + 1], h)
}

fn make_temp_prefix(conn_id: u32) -> (r: String)
    ensures
        r@ == temp_prefix(conn_id),
{
    joined(joined("#tmp_", show_u64(conn_id as u64).as_str()).as_str(), "_")
}

fn list_temp_tables(catalog: &Catalog, prefix: &str) -> (r: Vec<String>)
    ensures
        r.deep_view() == tables_with_prefix(catalog.tables@, prefix@, 0, Seq::empty()),
{
    let ghost tv = catalog.tables@;
    let mut out: Vec<String> = Vec::new();
    assert(out.deep_view() =~= Seq::<Seq<char>>::empty());
    let mut i: usize = 0;
    while i < catalog.tables.len()
        invariant
            0 <= i <= catalog.tables.len(),
            tv == catalog.tables@,
            tables_with_prefix(tv, prefix@, 0, Seq::empty()) == tables_with_prefix(
                tv,
                prefix@,
                i as int,
                out.deep_view(),
            ),
        decreases catalog.tables.len() - i,
    {
        if starts_with(catalog.tables[i].1.name.as_str(), prefix) {
            let ghost had = out.deep_view();
            out.push(catalog.tables[i].1.name.clone());
            assert(out.deep_view() =~= had.push(tv[i as int].1.name@));
        }
        i += 1;
    }
    out
}

impl Database {
    /// Resolve a temp table name with connection prefix
    pub fn resolve_temp_table_name(table_name: &str, conn_id: u32) -> (r: String)
        ensures
            r@ == temp_name(table_name@, conn_id),
    {
        proof {
            reveal_strlit("#");
        }
        if starts_with(table_name, "#") && !starts_with(table_name, "##") {
            let prefix = make_temp_prefix(conn_id);
            assert(table_name@.len() >= 1);
            joined(prefix.as_str(), tail_text(table_name, 1).as_str())
        } else {
            table_name.to_owned()
        }
    }

    /// Clean up temp tables created by a connection (# prefix)
    pub fn cleanup_temp_tables(&mut self, conn_id: u32, host: &Host)
        requires
            old(self)@.wf(),
        ensures
            final(self)@.wf(),
            exists|states: Seq<EngineView>| #[trigger]
                all_removed(
                    tables_with_prefix(
                        old(self)@.engine.catalog.tables@,
                        temp_prefix(conn_id),
                        0,
                        Seq::empty(),
                    ),
                    states,
                    host@,
                ) && states[0] == old(self)@.engine && final(self)@ == (DatabaseView {
                    engine: states.last(),
                    ..old(self)@
                }),
    {
        let ghost d0 = self@;
        let prefix = make_temp_prefix(conn_id);
        let names = list_temp_tables(&self.engine.ctx.catalog, prefix.as_str());
        let ghost nv = names.deep_view();
        let ghost mut states: Seq<EngineView> = seq![self.engine@];
        let mut i: usize = 0;
        while i < names.len()
            invariant
                0 <= i <= names.len(),
                nv == names.deep_view(),
                self@.wf(),
                d0.wf(),
                self@ == (DatabaseView { engine: states.last(), ..d0 }),
                states.len() == i + 1,
                states[0] == d0.engine,
                forall|k: int|
                    0 <= k < i ==> table_removed(
                        #[trigger] nv[k],
                        states[k],
                        states[k + 1],
                        host@,
                    ),
            decreases names.len() - i,
        {
            let ghost before = self.engine@;
            let ghost had = states;
            let mut session: Option<TxnId> = None;
            let stmt = Statement::DropTable { table_name: names[i].clone(), if_exists: true };
            let ghost gs = stmt;
            let r = self.engine.execute_planned(stmt, &mut session, host);
            assert(session is None);
            assert(nv[i as int] == names@[i as int]@);
            assert(removed_by(gs, nv[i as int], before, self.engine@, outcome(r), host@));
            proof {
                states = states.push(self.engine@);
            }
            assert forall|k: int| 0 <= k < i + 1 implies table_removed(
                #[trigger] nv[k],
                states[k],
                states[k + 1],
                host@,
            ) by {
                if k < i {
                    assert(states[k] == had[k] && states[k + 1] == had[k + 1]);
                }
            }
            i += 1;
        }
        assert(nv.len() == names.len());
        assert(all_removed(nv, states, host@));
    }

    /// Get resource counts for leak detection. Returns (savepoints, sequences,
    /// plan_cache, cursors, procedures, triggers_total, users, prepared_stmts, partitions).
    pub fn resource_counts(&self) -> (r: (
        usize,
        usize,
        usize,
        usize,
        usize,
        usize,
        usize,
        usize,
        usize,
    ))
        ensures
            r.0 == self@.savepoints.len(),
            r.1 == self@.engine.sequences.len(),
            r.2 == self@.engine.cache.len(),
            r.3 == self@.cursors.len(),
            r.4 == self@.procedures.len(),
            r.5 == if trigger_total(self@.triggers, 0) <= usize::MAX {
                trigger_total(self@.triggers, 0)
            } else {
                usize::MAX as int
            },
            r.6 == self@.users.len(),
            r.7 == self@.prepared.len(),
            r.8 == self@.partitions.len(),
    {
        let ghost tv = self@.triggers;
        let mut total: usize = 0;
        let ghost mut counted: int = 0;
        let mut i: usize = 0;
        while i < self.triggers.len()
            invariant
                0 <= i <= self.triggers.len(),
                tv == self@.triggers,
                counted >= 0,
                total == if counted <= usize::MAX {
                    counted
                } else {
                    usize::MAX as int
                },
                trigger_total(tv, 0) == counted + trigger_total(tv, i as int),
            decreases self.triggers.len() - i,
        {
            assert(tv[i as int].1 == self.triggers@[i as int].1.deep_view());
            let n: usize = self.triggers[i].1.len();
            assert(tv[i as int].1.len() == n);
            total = match total.checked_add(n) {
                Some(t) => t,
                None => usize::MAX,
            };
            proof {
                counted = counted + n;
            }
            i += 1;
        }
        (
            self.savepoints.len(),
            self.engine.sequences.len(),
            self.engine.plan_cache.len(),
            self.cursors.len(),
            self.procedures.len(),
            total,
            self.users.len(),
            self.prepared_stmts.len(),
            self.partitions.len(),
        )
    }
}

/// How many triggers the tables from `i` on have.
pub open spec fn trigger_total(
    triggers: Seq<(Seq<char>, Seq<TriggerView>)>,
    i: int,
) -> int
    decreases triggers.len() - i,
{
    if i < 0 || i >= triggers.len() {
        0
    } else {
        triggers[i].1.len() + trigger_total(triggers, i + 1)
    }
}

} // verus!
