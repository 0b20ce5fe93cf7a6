//! Execution of parsed statements.
use crate::ast::AlterTableOp;
use crate::catalog::{entry, Catalog};
use crate::catalog_changes::{
    altered_from, changes_columns, with_columns_at, with_statistics,
};
use crate::common::TxnId;
use crate::error::{execution, execution_on, outcome, ErrorView, ForgeError, Result};
use crate::executor::{
    changed, execute, execute_dml, execute_read, plan_executed, read_result, scan_table,
    table_scan, Answer,
};
use crate::host::{Host, HostView};
use crate::iterator::{take_values, values_of};
use crate::page_ids::{
    law_change_keeps_pages_valid, law_schema_change_keeps_pages_valid, lemma_undone_valid,
    pages_valid,
};
use crate::plan::PlanNode;
use crate::registry::lemma_none_before;
use crate::reindex::{reindex, reindexed};
use crate::statements::{ok, ok_result};
use crate::state::{
    find_named, lemma_named_from, named_from, readable, DmlContext, ExecuteResult, ExecutorContext,
    ReadContext, ResultView, StateView, Step,
};
use crate::text::{begins, lower_text, starts_with};
use crate::transactions::{
    kept_log, law_begun_transaction_is_active, law_ended_transaction_is_not_active,
    lemma_with_log_wf, snapshot_of, undone_log, Transactions, TxnsView,
};
use crate::txn::{undone, TxnContext, TxnView, UndoEntry, UndoView};
use vstd::prelude::*;

verus! {

/// Most queries that are noted as planned.
pub const PLAN_CACHE_LIMIT: usize = 10000;

/// Tables, rows, transactions and sequences.
#[derive(Debug)]
pub struct Engine {
    pub ctx: ExecutorContext,
    pub txns: Transactions,
    /// The last number and the step of each sequence, by its name in lowercase.
    pub sequences: Vec<(String, (i64, i64))>,
    /// The texts of the queries that were planned since the schema last changed. They are noted
    /// and counted; a query is planned anew each time it runs.
    pub plan_cache: Vec<String>,
}

/// [`Engine`] as mathematical values.
pub struct EngineView {
    pub catalog: Catalog,
    pub st: StateView,
    pub txns: TxnsView,
    pub sequences: Seq<(Seq<char>, (i64, i64))>,
    pub cache: Seq<Seq<char>>,
}

impl View for Engine {
    type V = EngineView;

    open spec fn view(&self) -> EngineView {
        EngineView {
            catalog: self.ctx.catalog,
            st: self.ctx.dml@,
            txns: self.txns@,
            sequences: self.sequences.deep_view(),
            cache: self.plan_cache.deep_view(),
        }
    }
}

impl EngineView {
    /// The catalog is well-formed, pages, slots and transactions can be told apart, no more
    /// queries are noted than there may be, and no statement is under way.
    pub open spec fn wf(self) -> bool {
        &&& self.catalog.wf()
        &&& self.txns.wf()
        &&& pages_valid(self.st.pages, self.st.next_page)
        &&& self.cache.len() <= PLAN_CACHE_LIMIT
        &&& self.st.txn is None
    }
}

// ---------------------------------------------------------------------------
// Plans
// ---------------------------------------------------------------------------

/// Whether a plan only reads.
pub open spec fn only_reads(plan: PlanNode) -> bool {
    plan is SeqScan || plan is IndexScan || plan is Filter || plan is Projection
        || plan is NestedLoopJoin || plan is HashJoin || plan is Sort || plan is Limit
        || plan is GroupBy || plan is Distinct
}

/// Whether a plan only reads.
pub fn is_read_only(plan: &PlanNode) -> (r: bool)
    ensures
        r == only_reads(*plan),
{
    matches!(
        plan,
        PlanNode::SeqScan { .. }
        | PlanNode::IndexScan { .. }
        | PlanNode::Filter { .. }
        | PlanNode::Projection { .. }
        | PlanNode::NestedLoopJoin { .. }
        | PlanNode::HashJoin { .. }
        | PlanNode::Sort { .. }
        | PlanNode::Limit { .. }
        | PlanNode::GroupBy { .. }
        | PlanNode::Distinct { .. }
    )
}

/// Whether a plan changes the schema.
pub open spec fn changes_schema(plan: PlanNode) -> bool {
    plan is CreateTable || plan is DropTable || plan is CreateIndex
}

fn is_ddl(plan: &PlanNode) -> (r: bool)
    ensures
        r == changes_schema(*plan),
{
    matches!(
        plan,
        PlanNode::CreateTable { .. }
        | PlanNode::DropTable { .. }
        | PlanNode::CreateIndex { .. }
    )
}

/// Whether this is what a query in a session sees: the snapshot of the session's transaction,
/// if that is active.
pub open spec fn seen_by(t: Option<TxnView>, txns: TxnsView, session: Option<TxnId>) -> bool {
    match session {
        Some(id) => if txns.is_active(id) {
            &&& t is Some
            &&& t->0.txn_id == id
            &&& snapshot_of(t->0.snapshot, txns, id)
            &&& t->0.undo_log == Seq::<UndoView>::empty()
        } else {
            t is None
        },
        None => t is None,
    }
}

/// Whether this is the transaction in which a change of rows is made.
pub open spec fn made_in(t: TxnView, txns: TxnsView, id: TxnId) -> bool {
    &&& t.txn_id == id
    &&& snapshot_of(t.snapshot, txns, id)
    &&& t.undo_log == Seq::<UndoView>::empty()
}

/// What a transaction in the course of a statement has changed.
pub open spec fn log_of(t: Option<TxnView>) -> Seq<UndoView> {
    match t {
        Some(t) => t.undo_log,
        None => Seq::empty(),
    }
}

/// The engine with all but the first changes of a transaction undone, and the indexes as the
/// tables then are.
pub open spec fn rolled_back(e: EngineView, t: TxnId, from: int) -> EngineView {
    let pages = undone(e.st.pages, undone_log(e.txns.log(t), from));
    EngineView {
        st: StateView { pages, indexes: reindexed(e.catalog, pages, e.st.indexes), ..e.st },
        txns: e.txns.with_log(t, kept_log(e.txns.log(t), from)),
        ..e
    }
}

/// What a change of rows leaves behind, given what was done to a copy of the state: nothing,
/// if the host is asked; what was done, if it succeeded; else only the numbers that were given
/// out, and the session's transaction is rolled back and has ended.
pub open spec fn change_kept(
    e0: EngineView,
    s0: Option<TxnId>,
    step: Step<ResultView>,
    e1: EngineView,
    s1: Option<TxnId>,
    r: Answer,
) -> bool {
    let auto = s0 is None;
    let during = if auto {
        e0.txns.begun()
    } else {
        e0.txns
    };
    let id = match s0 {
        Some(id) => id,
        None => TxnId(e0.txns.next),
    };
    &&& r == step.result
    &&& match step.result {
        Err(ErrorView::NeedsFloat(_)) => e1 == e0 && s1 == s0,
        Ok(_) => {
            &&& s1 == s0
            &&& e1 == (EngineView {
                st: StateView { txn: None, ..step.state },
                txns: {
                    let logged = during.with_log(
                        id,
                        during.log(id) + log_of(step.state.txn),
                    );
                    if auto {
                        logged.ended(id)
                    } else {
                        logged
                    }
                },
                ..e0
            })
        },
        Err(_) => {
            let back = if auto {
                EngineView { txns: during, ..e0 }
            } else {
                rolled_back(e0, id, 0)
            };
            &&& s1 is None
            &&& e1 == (EngineView {
                st: StateView { counters: step.state.counters, ..back.st },
                txns: back.txns.ended(id),
                ..back
            })
        },
    }
}

/// Whether a change of rows that is made in a transaction leaves this behind.
pub open spec fn changed_in(
    t: TxnView,
    plan: PlanNode,
    e0: EngineView,
    s0: Option<TxnId>,
    e1: EngineView,
    s1: Option<TxnId>,
    r: Answer,
    h: HostView,
) -> bool {
    let during = if s0 is None {
        e0.txns.begun()
    } else {
        e0.txns
    };
    let id = match s0 {
        Some(id) => id,
        None => TxnId(e0.txns.next),
    };
    &&& made_in(t, during, id)
    &&& change_kept(
        e0,
        s0,
        changed(plan, e0.catalog, StateView { txn: Some(t), ..e0.st }, h),
        e1,
        s1,
        r,
    )
}

/// What a change of rows leaves behind in a session, and what it gives back.
pub open spec fn rows_changed(
    plan: PlanNode,
    e0: EngineView,
    s0: Option<TxnId>,
    e1: EngineView,
    s1: Option<TxnId>,
    r: Answer,
    h: HostView,
) -> bool {
    if s0 is None && e0.txns.next == u64::MAX {
        &&& e1 == e0
        &&& s1 == s0
        &&& r == Err::<ResultView, ErrorView>(
            ErrorView::Transaction("no transaction number is left"@),
        )
    } else {
        exists|t: TxnView| #[trigger] changed_in(t, plan, e0, s0, e1, s1, r, h)
    }
}

/// What a plan leaves behind in a session, and what it gives back.
pub open spec fn plan_ran(
    plan: PlanNode,
    e0: EngineView,
    s0: Option<TxnId>,
    e1: EngineView,
    s1: Option<TxnId>,
    r: Answer,
    h: HostView,
) -> bool {
    if only_reads(plan) {
        &&& e1 == e0
        &&& s1 == s0
        &&& exists|t: Option<TxnView>| #[trigger]
            seen_by(t, e0.txns, s0) && r == read_result(
                plan,
                readable(e0.catalog, StateView { txn: t, ..e0.st }),
                h,
            )
    } else if changes_schema(plan) {
        &&& s1 == s0
        &&& e1.txns == e0.txns
        &&& e1.sequences == e0.sequences
        &&& e1.cache == if r is Ok {
            Seq::empty()
        } else {
            e0.cache
        }
        &&& plan_executed(plan, e0.catalog, e0.st, e1.catalog, e1.st, r, h)
    } else {
        rows_changed(plan, e0, s0, e1, s1, r, h)
    }
}

impl Engine {
    /// Executes a plan that only reads, in a session.
    pub fn read_plan(&self, plan: &PlanNode, session: Option<TxnId>, host: &Host) -> (r: Result<
        ExecuteResult,
    >)
        requires
            only_reads(*plan),
            self@.wf(),
        ensures
            plan_ran(*plan, self@, session, self@, session, outcome(r), host@),
    {
        let txn: Option<TxnContext> = match session {
            Some(id) => if self.txns.is_active(id) {
                let snapshot = self.txns.take_snapshot(id);
                let undo_log: Vec<UndoEntry> = Vec::new();
                assert(undo_log.deep_view() =~= Seq::<UndoView>::empty());
                Some(TxnContext { txn_id: id, snapshot, undo_log })
            } else {
                None
            },
            None => None,
        };
        let ghost t = txn.deep_view();
        assert(seen_by(t, self@.txns, session));
        let txn_ctx: Option<&TxnContext> = match &txn {
            Some(t) => Some(t),
            None => None,
        };
        let ctx = ReadContext {
            bpm: &self.ctx.dml.bpm,
            catalog: &self.ctx.catalog,
            indexes: &self.ctx.dml.indexes,
            clustered_indexes: &self.ctx.dml.clustered_indexes,
            txn_ctx,
        };
        assert(ctx@ == readable(self@.catalog, StateView { txn: t, ..self@.st }));
        execute_read(plan, &ctx, host)
    }

    /// Undoes what a transaction has changed since its first `from` changes.
    pub fn roll_back(&mut self, t: TxnId, from: usize)
        ensures
            final(self)@ == rolled_back(old(self)@, t, from as int),
    {
        self.txns.roll_back(t, from, &mut self.ctx.dml.bpm);
        reindex(&self.ctx.catalog, &self.ctx.dml.bpm, &mut self.ctx.dml.indexes);
    }

    fn conclude(
        &mut self,
        session: &mut Option<TxnId>,
        id: TxnId,
        r: Result<ExecuteResult>,
        trial: DmlContext,
        Ghost(e0): Ghost<EngineView>,
        Ghost(step): Ghost<Step<ResultView>>,
    ) -> (res: Result<ExecuteResult>)
        requires
            e0.wf(),
            id == match *old(session) {
                Some(id) => id,
                None => TxnId(e0.txns.next),
            },
            *old(session) is None ==> e0.txns.next < u64::MAX,
            old(self)@ == (EngineView {
                txns: if *old(session) is None {
                    e0.txns.begun()
                } else {
                    e0.txns
                },
                ..e0
            }),
            step == (Step { state: trial@, result: outcome(r) }),
            pages_valid(trial@.pages, trial@.next_page),
        ensures
            final(self)@.wf(),
            change_kept(e0, *old(session), step, final(self)@, *final(session), outcome(res)),
    {
        let auto = session.is_none();
        let mut trial = trial;
        proof {
            if auto {
                law_begun_transaction_is_active(e0.txns, id);
            }
            let during = self@.txns;
            let logged = during.with_log(id, during.log(id) + log_of(step.state.txn));
            lemma_with_log_wf(during, id, during.log(id) + log_of(step.state.txn));
            law_ended_transaction_is_not_active(logged, id, id);
            law_ended_transaction_is_not_active(during, id, id);
        }
        let mut done: Option<TxnContext> = None;
        core::mem::swap(&mut done, &mut trial.txn_ctx);
        let log: Vec<UndoEntry> = match done {
            Some(t) => t.undo_log,
            None => Vec::new(),
        };
        assert(log.deep_view() =~= log_of(step.state.txn));
        assert(trial@ == StateView { txn: None, ..step.state });
        match r {
            Err(ForgeError::NeedsFloat(f)) => {
                if auto {
                    assert(self@.txns.active.len() == self.txns.active.len());
                    self.txns.unbegin();
                    assert(self@.txns.active =~= e0.txns.active);
                }
                assert(self@ == e0);
                Err(ForgeError::NeedsFloat(f))
            },
            Ok(a) => {
                core::mem::swap(&mut self.ctx.dml, &mut trial);
                self.txns.add_log(id, log);
                if auto {
                    self.txns.end(id);
                }
                Ok(a)
            },
            Err(e) => {
                core::mem::swap(
                    &mut self.ctx.dml.auto_increment_counters,
                    &mut trial.auto_increment_counters,
                );
                if !auto {
                    proof {
                        let txns = e0.txns;
                        let kept = kept_log(txns.log(id), 0);
                        lemma_undone_valid(
                            e0.st.pages,
                            e0.st.next_page,
                            undone_log(txns.log(id), 0),
                        );
                        lemma_with_log_wf(txns, id, kept);
                        law_ended_transaction_is_not_active(txns.with_log(id, kept), id, id);
                    }
                    self.roll_back(id, 0);
                }
                self.txns.end(id);
                *session = None;
                Err(e)
            },
        }
    }

    fn change_rows(&mut self, plan: &PlanNode, session: &mut Option<TxnId>, host: &Host) -> (r: Result<
        ExecuteResult,
    >)
        requires
            old(self)@.wf(),
        ensures
            final(self)@.wf(),
            rows_changed(
                *plan,
                old(self)@,
                *old(session),
                final(self)@,
                *final(session),
                outcome(r),
                host@,
            ),
    {
        let ghost e0 = self@;
        let ghost s0 = *session;
        let id = match *session {
            Some(id) => id,
            None => self.txns.begin()?,
        };
        let ghost during = if s0 is None {
            e0.txns.begun()
        } else {
            e0.txns
        };
        assert(self@ == EngineView { txns: during, ..e0 });
        let snapshot = self.txns.take_snapshot(id);
        let undo_log: Vec<UndoEntry> = Vec::new();
        assert(undo_log.deep_view() =~= Seq::<UndoView>::empty());
        let txn = TxnContext { txn_id: id, snapshot, undo_log };
        let ghost t = txn.deep_view();
        assert(made_in(t, during, id));
        let mut trial = self.ctx.dml.copy_for(Some(txn));
        let ghost start = StateView { txn: Some(t), ..e0.st };
        assert(trial@ == start);
        let r = execute_dml(plan, &self.ctx.catalog, &mut trial, host);
        let ghost step = changed(*plan, e0.catalog, start, host@);
        proof {
            law_change_keeps_pages_valid(*plan, e0.catalog, start, host@);
        }
        let res = self.conclude(session, id, r, trial, Ghost(e0), Ghost(step));
        assert(changed_in(t, *plan, e0, s0, self@, *session, outcome(res), host@));
        res
    }

    /// Executes a plan in a session.
    pub fn execute_plan_session(
        &mut self,
        plan: PlanNode,
        session: &mut Option<TxnId>,
        host: &Host,
    ) -> (r: Result<ExecuteResult>)
        requires
            old(self)@.wf(),
        ensures
            final(self)@.wf(),
            plan_ran(
                plan,
                old(self)@,
                *old(session),
                final(self)@,
                *final(session),
                outcome(r),
                host@,
            ),
    {
        if is_read_only(&plan) {
            return self.read_plan(&plan, *session, host);
        }
        if is_ddl(&plan) {
            let ghost e0 = self@;
            let r = execute(plan, &mut self.ctx, host);
            proof {
                law_schema_change_keeps_pages_valid(
                    plan,
                    e0.catalog,
                    e0.st,
                    self.ctx.catalog,
                    self.ctx.dml@,
                    outcome(r),
                    host@,
                );
            }
            if r.is_ok() {
                self.plan_cache = Vec::new();
                assert(self.plan_cache.deep_view() =~= Seq::<Seq<char>>::empty());
            }
            return r;
        }
        self.change_rows(&plan, session, host)
    }
}

// ---------------------------------------------------------------------------
// Sequences
// ---------------------------------------------------------------------------

/// The sequences after a number was taken from one of them, and the number.
pub struct Taken {
    pub sequences: Seq<(Seq<char>, (i64, i64))>,
    pub result: std::result::Result<i64, ErrorView>,
}

/// What taking the next number of a sequence gives.
pub open spec fn next_number(sequences: Seq<(Seq<char>, (i64, i64))>, name: Seq<char>) -> Taken {
    match named_from(sequences, lower_text(name), 0) {
        None => Taken {
            sequences,
            result: Err(ErrorView::Execution("sequence '"@ + name + "' not found"@)),
        },
        Some(k) => {
            let n = (sequences[k].1).0 + (sequences[k].1).1;
            if i64::MIN <= n <= i64::MAX {
                Taken {
                    sequences: sequences.update(
                        k,
                        (sequences[k].0, (n as i64, (sequences[k].1).1)),
                    ),
                    result: Ok(n as i64),
                }
            } else {
                Taken {
                    sequences,
                    result: Err(ErrorView::Execution("sequence out of range"@)),
                }
            }
        },
    }
}

/// The sequences with one of them set so that its next number is `start`.
pub open spec fn sequence_set(
    sequences: Seq<(Seq<char>, (i64, i64))>,
    name: Seq<char>,
    start: i64,
    increment: i64,
) -> Seq<(Seq<char>, (i64, i64))> {
    let fresh = (lower_text(name), ((start - increment) as i64, increment));
    match named_from(sequences, lower_text(name), 0) {
        Some(k) => sequences.update(k, fresh),
        None => sequences.push(fresh),
    }
}

/// The first number of a new sequence is the one it starts with.
pub proof fn law_sequence_starts_with(
    sequences: Seq<(Seq<char>, (i64, i64))>,
    name: Seq<char>,
    start: i64,
    increment: i64,
)
    requires
        i64::MIN <= start - increment <= i64::MAX,
    ensures
        next_number(sequence_set(sequences, name, start, increment), name).result == Ok::<
            i64,
            ErrorView,
        >(start),
{
    let after = sequence_set(sequences, name, start, increment);
    lemma_named_from(sequences, lower_text(name), 0);
    lemma_named_from(after, lower_text(name), 0);
    let k = match named_from(sequences, lower_text(name), 0) {
        Some(k) => k,
        None => sequences.len() as int,
    };
    assert(after[k].0 == lower_text(name));
    let p = named_from(after, lower_text(name), 0)->0;
    if p != k {
        assert(p < k || p > k);
        if p < k {
            assert(after[p] == sequences[p]);
            lemma_none_before(sequences, lower_text(name), 0, p);
        } else {
            lemma_none_before(after, lower_text(name), 0, k);
        }
    }
}

/// Each number of a sequence is the one before plus the step.
pub proof fn law_sequence_steps(sequences: Seq<(Seq<char>, (i64, i64))>, name: Seq<char>, n: i64)
    requires
        next_number(sequences, name).result == Ok::<i64, ErrorView>(n),
    ensures
        ({
            let k = named_from(sequences, lower_text(name), 0)->0;
            let step = (sequences[k].1).1;
            let after = next_number(sequences, name).sequences;
            i64::MIN <= n + step <= i64::MAX ==> next_number(after, name).result == Ok::<
                i64,
                ErrorView,
            >((n + step) as i64)
        }),
{
    lemma_named_from(sequences, lower_text(name), 0);
    let k = named_from(sequences, lower_text(name), 0)->0;
    let after = next_number(sequences, name).sequences;
    lemma_named_from(after, lower_text(name), 0);
    assert(after[k].0 == lower_text(name));
    let p = named_from(after, lower_text(name), 0)->0;
    lemma_none_before(after, lower_text(name), 0, k);
    if p < k {
        assert(after[p] == sequences[p]);
        lemma_none_before(sequences, lower_text(name), 0, p);
    }
}

impl Engine {
    /// Get next value from a sequence.
    pub fn nextval(&mut self, seq_name: &str) -> (r: Result<i64>)
        ensures
            ({
                let t = next_number(old(self)@.sequences, seq_name@);
                &&& outcome(r) == t.result
                &&& final(self)@ == (EngineView { sequences: t.sequences, ..old(self)@ })
            }),
    {
        let ghost before = self@;
        match find_named(&self.sequences, seq_name.to_lowercase().as_str()) {
            None => execution_on("sequence '", seq_name, "' not found"),
            Some(k) => {
                assert(before.sequences[k as int] == self.sequences@[k as int].deep_view());
                let (current, increment) = self.sequences[k].1;
                match current.checked_add(increment) {
                    None => execution("sequence out of range"),
                    Some(n) => {
                        self.sequences[k].1 = (n, increment);
                        assert(self.sequences.deep_view() =~= before.sequences.update(
                            k as int,
                            (before.sequences[k as int].0, (n, increment)),
                        ));
                        Ok(n)
                    },
                }
            },
        }
    }

    /// Makes a sequence, or sets it anew.
    pub fn create_sequence(&mut self, name: &str, start: i64, increment: i64) -> (r: Result<
        ExecuteResult,
    >)
        ensures
            sequence_made(name@, start, increment, old(self)@, final(self)@, outcome(r)),
    {
        let ghost before = self@;
        let current: i64 = match start.checked_sub(increment) {
            Some(n) => n,
            None => {
                return execution("sequence out of range");
            },
        };
        let key = name.to_lowercase();
        let ghost kv = key@;
        match find_named(&self.sequences, key.as_str()) {
            Some(k) => {
                self.sequences.set(k, (key, (current, increment)));
                assert(self.sequences.deep_view() =~= before.sequences.update(
                    k as int,
                    (kv, (current, increment)),
                ));
            },
            None => {
                self.sequences.push((key, (current, increment)));
                assert(self.sequences.deep_view() =~= before.sequences.push(
                    (kv, (current, increment)),
                ));
            },
        }
        Ok(ok_result())
    }
}

/// What CREATE SEQUENCE leaves behind, and what it gives back.
pub open spec fn sequence_made(
    name: Seq<char>,
    start: i64,
    increment: i64,
    e0: EngineView,
    e1: EngineView,
    r: Answer,
) -> bool {
    if i64::MIN <= start - increment <= i64::MAX {
        &&& r == Ok::<ResultView, ErrorView>(ok())
        &&& e1 == (EngineView {
            sequences: sequence_set(e0.sequences, name, start, increment),
            ..e0
        })
    } else {
        &&& r == Err::<ResultView, ErrorView>(ErrorView::Execution("sequence out of range"@))
        &&& e1 == e0
    }
}

// ---------------------------------------------------------------------------
// Statements about tables
// ---------------------------------------------------------------------------

/// What ANALYZE TABLE leaves behind, and what it gives back.
pub open spec fn analyzed(table: Seq<char>, e0: EngineView, e1: EngineView, r: Answer) -> bool {
    match table_scan(readable(e0.catalog, e0.st), table, None, None) {
        Err(x) => r == Err::<ResultView, ErrorView>(x) && e1 == e0,
        Ok(x) => {
            &&& r == Ok::<ResultView, ErrorView>(ok())
            &&& e1 == (EngineView { catalog: e1.catalog, ..e0 })
            &&& with_statistics(
                e0.catalog,
                e1.catalog,
                e0.catalog.place(table)->0,
                values_of(x.1),
            )
        },
    }
}

/// What CREATE VIEW leaves behind, and what it gives back.
pub open spec fn view_made(
    name: Seq<char>,
    sql: Seq<char>,
    aliases: Vec<String>,
    e0: EngineView,
    e1: EngineView,
    r: Answer,
) -> bool {
    &&& e1 == (EngineView { catalog: e1.catalog, ..e0 })
    &&& e1.catalog.tables == e0.catalog.tables
    &&& e1.catalog.next_table_id == e0.catalog.next_table_id
    &&& e1.catalog.path == e0.catalog.path
    &&& if entry(e0.catalog.views@, lower_text(name)) is Some {
        &&& e1.catalog == e0.catalog
        &&& r == Err::<ResultView, ErrorView>(
            ErrorView::Catalog("view '"@ + name + "' already exists"@),
        )
    } else {
        let views = e1.catalog.views@;
        &&& r == Ok::<ResultView, ErrorView>(ok())
        &&& views.len() == e0.catalog.views@.len() + 1
        &&& views.drop_last() == e0.catalog.views@
        &&& views.last().0@ == lower_text(name)
        &&& views.last().1.name@ == name
        &&& views.last().1.sql@ == sql
        &&& views.last().1.column_aliases == aliases
    }
}

/// What DROP VIEW leaves behind, and what it gives back.
pub open spec fn view_dropped(
    name: Seq<char>,
    if_exists: bool,
    e0: EngineView,
    e1: EngineView,
    r: Answer,
) -> bool {
    &&& e1 == (EngineView { catalog: e1.catalog, ..e0 })
    &&& e1.catalog.tables == e0.catalog.tables
    &&& e1.catalog.next_table_id == e0.catalog.next_table_id
    &&& e1.catalog.path == e0.catalog.path
    &&& match entry(e0.catalog.views@, lower_text(name)) {
        Some(i) => r == Ok::<ResultView, ErrorView>(ok()) && e1.catalog.views@
            == e0.catalog.views@.remove(i),
        None => e1.catalog == e0.catalog && r == if if_exists {
            Ok::<ResultView, ErrorView>(ok())
        } else {
            Err::<ResultView, ErrorView>(
                ErrorView::Catalog("view '"@ + name + "' not found"@),
            )
        },
    }
}

/// What ALTER TABLE leaves behind, and what it gives back. Plans made before it are forgotten.
pub open spec fn table_altered(
    name: Seq<char>,
    ops: Seq<AlterTableOp>,
    e0: EngineView,
    e1: EngineView,
    r: Answer,
) -> bool {
    &&& e1 == (EngineView {
        catalog: e1.catalog,
        cache: if r is Ok {
            Seq::empty()
        } else {
            e0.cache
        },
        ..e0
    })
    &&& match e0.catalog.place(name) {
        Some(i) => {
            &&& r == Ok::<ResultView, ErrorView>(ok())
            &&& with_columns_at(
                e0.catalog,
                e1.catalog,
                i,
                altered_from(e0.catalog.tables@[i].1.schema.columns@, ops, 0),
            )
        },
        None => {
            &&& e1.catalog == e0.catalog
            &&& r == if changes_columns(ops, 0) {
                Err::<ResultView, ErrorView>(
                    ErrorView::Catalog("table '"@ + name + "' not found"@),
                )
            } else {
                Ok::<ResultView, ErrorView>(ok())
            }
        },
    }
}

/// The counters from `i` on that are not of a table, behind `acc`.
pub open spec fn counters_without(
    counters: Seq<(Seq<char>, i64)>,
    prefix: Seq<char>,
    i: int,
    acc: Seq<(Seq<char>, i64)>,
) -> Seq<(Seq<char>, i64)>
    decreases counters.len() - i,
{
    if i < 0 || i >= counters.len() {
        acc
    } else {
        counters_without(
            counters,
            prefix,
            i + 1,
            if begins(counters[i].0, prefix) {
                acc
            } else {
                acc.push(counters[i])
            },
        )
    }
}

/// The counters that are not of a table.
pub fn drop_counters(counters: &Vec<(String, i64)>, prefix: &str) -> (r: Vec<(String, i64)>)
    ensures
        r.deep_view() == counters_without(counters.deep_view(), prefix@, 0, Seq::empty()),
{
    let ghost cv = counters.deep_view();
    let mut out: Vec<(String, i64)> = Vec::new();
    assert(out.deep_view() =~= Seq::<(Seq<char>, i64)>::empty());
    let mut i: usize = 0;
    while i < counters.len()
        invariant
            0 <= i <= counters.len(),
            cv == counters.deep_view(),
            counters_without(cv, prefix@, 0, Seq::empty()) == counters_without(
                cv,
                prefix@,
                i as int,
                out.deep_view(),
            ),
        decreases counters.len() - i,
    {
        assert(cv[i as int] == counters@[i as int].deep_view());
        if !starts_with(counters[i].0.as_str(), prefix) {
            let ghost had = out.deep_view();
            out.push((counters[i].0.clone(), counters[i].1));
            assert(out.deep_view() =~= had.push(cv[i as int]));
        }
        i += 1;
    }
    out
}

impl Engine {
    /// Gathers the statistics of a table.
    pub fn analyze_table(&mut self, table: &str) -> (r: Result<ExecuteResult>)
        requires
            old(self)@.wf(),
        ensures
            final(self)@.wf(),
            analyzed(table@, old(self)@, final(self)@, outcome(r)),
    {
        let rows = {
            let ctx = self.ctx.dml.readable(&self.ctx.catalog);
            let none: Option<String> = None;
            let (_, rows) = scan_table(&ctx, table, &none, None)?;
            rows
        };
        let values = take_values(rows);
        let _ = self.ctx.catalog.set_statistics(table, &values);
        Ok(ok_result())
    }

    /// Enters a view.
    pub fn create_view(&mut self, name: &str, sql: &str, aliases: Vec<String>) -> (r: Result<
        ExecuteResult,
    >)
        requires
            old(self)@.wf(),
        ensures
            final(self)@.wf(),
            view_made(name@, sql@, aliases, old(self)@, final(self)@, outcome(r)),
    {
        self.ctx.catalog.create_view(name, sql, aliases)?;
        Ok(ok_result())
    }

    /// Removes a view.
    pub fn drop_view(&mut self, name: &str, if_exists: bool) -> (r: Result<ExecuteResult>)
        requires
            old(self)@.wf(),
        ensures
            final(self)@.wf(),
            view_dropped(name@, if_exists, old(self)@, final(self)@, outcome(r)),
    {
        if if_exists && !self.ctx.catalog.has_view(name) {
            return Ok(ok_result());
        }
        self.ctx.catalog.drop_view(name)?;
        Ok(ok_result())
    }

    /// Changes the columns of a table.
    pub fn alter_table(&mut self, name: &str, ops: &Vec<AlterTableOp>) -> (r: Result<ExecuteResult>)
        requires
            old(self)@.wf(),
        ensures
            final(self)@.wf(),
            table_altered(name@, ops@, old(self)@, final(self)@, outcome(r)),
    {
        self.ctx.catalog.alter_table(name, ops)?;
        self.plan_cache = Vec::new();
        assert(self.plan_cache.deep_view() =~= Seq::<Seq<char>>::empty());
        Ok(ok_result())
    }
}

/// A change of rows for which the host is asked leaves everything as it was.
pub proof fn law_asking_changes_nothing(
    plan: PlanNode,
    e0: EngineView,
    s0: Option<TxnId>,
    e1: EngineView,
    s1: Option<TxnId>,
    r: Answer,
    h: HostView,
)
    requires
        rows_changed(plan, e0, s0, e1, s1, r, h),
        r matches Err(ErrorView::NeedsFloat(_)),
    ensures
        e1 == e0,
        s1 == s0,
{
}

/// A query leaves everything as it was.
pub proof fn law_query_changes_nothing(
    plan: PlanNode,
    e0: EngineView,
    s0: Option<TxnId>,
    e1: EngineView,
    s1: Option<TxnId>,
    r: Answer,
    h: HostView,
)
    requires
        only_reads(plan),
        plan_ran(plan, e0, s0, e1, s1, r, h),
    ensures
        e1 == e0,
        s1 == s0,
{
}

} // verus!
