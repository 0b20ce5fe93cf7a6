//! What a session asks for, statement by statement.
use crate::ast::{TriggerDef, TriggerEvent};
use crate::commands::{command_reading, read_command, Command, CommandView, TriggerView};
use crate::database::{granted, revoked, Cursor, CursorView, Database, DatabaseView};
use crate::engine::EngineView;
use crate::error::{execution_on, outcome, ErrorView, Result};
use crate::executor::Answer;
use crate::keywords::{begins_with_word, head, head_text, nth_word, opens_with, word};
use crate::partitions::{
    make_part_statements, part_statements, partition_reading, partitions_resolved,
    read_partitioned_table, resolve_partitioned_sql, MetaView, PartitionMeta,
};
use crate::registry::{
    drop_entry, entry_of, law_drop_entry, law_set_entry, put_entry, remove_entry, set_entry,
};
use crate::state::{answer, find_named, lemma_named_from, report, ExecuteResult, ResultView};
use crate::statements::{ok, ok_result};
use crate::text::{
    copy_texts, eq_ignore_ascii_case, joined, lower_text, same_name, tail, tail_text, trim, trimmed,
};
use crate::types::{clone_row, Value, ValueView};
use vstd::prelude::*;

verus! {

// ---------------------------------------------------------------------------
// Triggers
// ---------------------------------------------------------------------------

/// The triggers with one more.
pub open spec fn trigger_added(
    triggers: Seq<(Seq<char>, Seq<TriggerView>)>,
    def: TriggerView,
) -> Seq<(Seq<char>, Seq<TriggerView>)> {
    let key = lower_text(def.table);
    match entry_of(triggers, key) {
        Some(list) => set_entry(triggers, key, list.push(def)),
        None => set_entry(triggers, key, seq![def]),
    }
}

/// The triggers of a table from `i` on that are not of a name, behind `acc`.
pub open spec fn list_without(
    list: Seq<TriggerView>,
    name: Seq<char>,
    i: int,
    acc: Seq<TriggerView>,
) -> Seq<TriggerView>
    decreases list.len() - i,
{
    if i < 0 || i >= list.len() {
        acc
    } else {
        list_without(
            list,
            name,
            i + 1,
            if same_name(list[i].name, name) {
                acc
            } else {
                acc.push(list[i])
            },
        )
    }
}

/// The triggers without those of a name.
pub open spec fn triggers_without(
    triggers: Seq<(Seq<char>, Seq<TriggerView>)>,
    name: Seq<char>,
) -> Seq<(Seq<char>, Seq<TriggerView>)> {
    Seq::new(
        triggers.len(),
        |i: int| (triggers[i].0, list_without(triggers[i].1, name, 0, Seq::empty())),
    )
}

fn copy_trigger(t: &TriggerDef) -> (r: TriggerDef)
    ensures
        r.deep_view() == t.deep_view(),
{
    TriggerDef {
        name: t.name.clone(),
        table: t.table.clone(),
        event: t.event,
        body: copy_texts(&t.body),
    }
}

fn keep_triggers(list: &Vec<TriggerDef>, name: &str) -> (r: Vec<TriggerDef>)
    ensures
        r.deep_view() == list_without(list.deep_view(), name@, 0, Seq::empty()),
{
    let ghost lv = list.deep_view();
    let mut out: Vec<TriggerDef> = Vec::new();
    assert(out.deep_view() =~= Seq::<TriggerView>::empty());
    let mut i: usize = 0;
    while i < list.len()
        invariant
            0 <= i <= list.len(),
            lv == list.deep_view(),
            list_without(lv, name@, 0, Seq::empty()) == list_without(
                lv,
                name@,
                i as int,
                out.deep_view(),
            ),
        decreases list.len() - i,
    {
        assert(lv[i as int] == list@[i as int].deep_view());
        if !eq_ignore_ascii_case(list[i].name.as_str(), name) {
            let ghost had = out.deep_view();
            out.push(copy_trigger(&list[i]));
            assert(out.deep_view() =~= had.push(lv[i as int]));
        }
        i += 1;
    }
    out
}

/// What a statement makes triggers of a table wait for: the event and the table.
pub open spec fn fired(sql: Seq<char>) -> Option<(TriggerEvent, Seq<char>)> {
    let text = trimmed(sql);
    if opens_with(text, "INSERT INTO "@) {
        Some((TriggerEvent::AfterInsert, word(tail(text, 12), 0)))
    } else if opens_with(text, "INSERT "@) {
        Some((TriggerEvent::AfterInsert, word(tail(text, 7), 0)))
    } else if opens_with(text, "UPDATE "@) {
        Some((TriggerEvent::AfterUpdate, word(tail(text, 7), 0)))
    } else if opens_with(text, "DELETE FROM "@) {
        Some((TriggerEvent::AfterDelete, word(tail(text, 12), 0)))
    } else if opens_with(text, "DELETE "@) {
        Some((TriggerEvent::AfterDelete, word(tail(text, 7), 0)))
    } else {
        None
    }
}

/// The statements of the triggers from `i` on that wait for an event, behind `acc`.
pub open spec fn bodies_from(
    list: Seq<TriggerView>,
    event: TriggerEvent,
    i: int,
    acc: Seq<Seq<char>>,
) -> Seq<Seq<char>>
    decreases list.len() - i,
{
    if i < 0 || i >= list.len() {
        acc
    } else {
        bodies_from(
            list,
            event,
            i + 1,
            if list[i].event == event {
                acc + list[i].body
            } else {
                acc
            },
        )
    }
}

/// The statements that are to run after a statement.
pub open spec fn triggered(triggers: Seq<(Seq<char>, Seq<TriggerView>)>, sql: Seq<char>) -> Seq<
    Seq<char>,
> {
    match fired(sql) {
        None => Seq::empty(),
        Some(f) => match entry_of(triggers, lower_text(f.1)) {
            None => Seq::empty(),
            Some(list) => bodies_from(list, f.0, 0, Seq::empty()),
        },
    }
}

fn find_fired(sql: &str) -> (r: Option<(TriggerEvent, String)>)
    ensures
        match r {
            Some(f) => fired(sql@) == Some((f.0, f.1@)),
            None => fired(sql@) is None,
        },
{
    let text = trim(sql);
    let (event, from): (TriggerEvent, usize) = if begins_with_word(text.as_str(), "INSERT INTO ") {
        (TriggerEvent::AfterInsert, 12)
    } else if begins_with_word(text.as_str(), "INSERT ") {
        (TriggerEvent::AfterInsert, 7)
    } else if begins_with_word(text.as_str(), "UPDATE ") {
        (TriggerEvent::AfterUpdate, 7)
    } else if begins_with_word(text.as_str(), "DELETE FROM ") {
        (TriggerEvent::AfterDelete, 12)
    } else if begins_with_word(text.as_str(), "DELETE ") {
        (TriggerEvent::AfterDelete, 7)
    } else {
        return None;
    };
    Some((event, nth_word(tail_text(text.as_str(), from).as_str(), 0)))
}

impl Database {
    /// The statements of the triggers that fire after a statement.
    pub fn fire_triggers_if_needed(&self, sql_text: &str) -> (r: Vec<String>)
        ensures
            r.deep_view() == triggered(self@.triggers, sql_text@),
    {
        let mut out: Vec<String> = Vec::new();
        assert(out.deep_view() =~= Seq::<Seq<char>>::empty());
        let (event, table) = match find_fired(sql_text) {
            None => {
                return out;
            },
            Some(f) => f,
        };
        if let Some(k) = find_named(&self.triggers, table.to_lowercase().as_str()) {
            let ghost lv = self@.triggers[k as int].1;
            assert(lv == self.triggers@[k as int].1.deep_view());
            let list = &self.triggers[k].1;
            let mut i: usize = 0;
            while i < list.len()
                invariant
                    0 <= i <= list.len(),
                    lv == list.deep_view(),
                    bodies_from(lv, event, 0, Seq::empty()) == bodies_from(
                        lv,
                        event,
                        i as int,
                        out.deep_view(),
                    ),
                decreases list.len() - i,
            {
                assert(lv[i as int] == list@[i as int].deep_view());
                if list[i].event == event {
                    let ghost had = out.deep_view();
                    let mut body = copy_texts(&list[i].body);
                    out.append(&mut body);
                    assert(out.deep_view() =~= had + lv[i as int].body);
                }
                i += 1;
            }
        }
        out
    }

    fn add_trigger(&mut self, def: TriggerDef)
        requires
            old(self)@.wf(),
        ensures
            final(self)@.wf(),
            final(self)@ == (DatabaseView {
                triggers: trigger_added(old(self)@.triggers, def.deep_view()),
                ..old(self)@
            }),
    {
        let ghost d0 = self@;
        let key = def.table.to_lowercase();
        let ghost dv = def.deep_view();
        let mut list: Vec<TriggerDef> = Vec::new();
        if let Some(k) = find_named(&self.triggers, key.as_str()) {
            assert(d0.triggers[k as int].1 == self.triggers@[k as int].1.deep_view());
            proof {
                lemma_named_from(d0.triggers, key@, 0);
            }
            core::mem::swap(&mut list, &mut self.triggers[k].1);
            let ghost had = list.deep_view();
            assert(had == d0.triggers[k as int].1);
            list.push(def);
            assert(list.deep_view() =~= had.push(dv));
            core::mem::swap(&mut list, &mut self.triggers[k].1);
            assert(self@.triggers =~= d0.triggers.update(k as int, (key@, had.push(dv))));
            proof {
                law_set_entry(d0.triggers, key@, had.push(dv), key@);
            }
        } else {
            list.push(def);
            assert(list.deep_view() =~= seq![dv]);
            proof {
                law_set_entry(d0.triggers, key@, seq![dv], key@);
            }
            put_entry(&mut self.triggers, key, list);
        }
    }

    fn drop_triggers(&mut self, name: &str)
        requires
            old(self)@.wf(),
        ensures
            final(self)@.wf(),
            final(self)@ == (DatabaseView {
                triggers: triggers_without(old(self)@.triggers, name@),
                ..old(self)@
            }),
    {
        let ghost d0 = self@;
        let mut kept: Vec<(String, Vec<TriggerDef>)> = Vec::new();
        let mut i: usize = 0;
        while i < self.triggers.len()
            invariant
                0 <= i <= self.triggers.len(),
                self@ == d0,
                kept.deep_view() == triggers_without(d0.triggers, name@).take(i as int),
            decreases self.triggers.len() - i,
        {
            let ghost all = triggers_without(d0.triggers, name@);
            assert(d0.triggers[i as int] == (
                self.triggers@[i as int].0@,
                self.triggers@[i as int].1.deep_view(),
            ));
            let ghost had = kept.deep_view();
            let list = keep_triggers(&self.triggers[i].1, name);
            kept.push((self.triggers[i].0.clone(), list));
            assert(kept.deep_view() =~= had.push(all[i as int]));
            assert(all.take(i + 1) =~= all.take(i as int).push(all[i as int]));
            i += 1;
        }
        assert(kept.deep_view() =~= triggers_without(d0.triggers, name@));
        self.triggers = kept;
        assert forall|i: int, j: int| 0 <= i < j < self@.triggers.len() implies (
        #[trigger] self@.triggers[i]).0 != (#[trigger] self@.triggers[j]).0 by {
            assert(d0.triggers[i].0 != d0.triggers[j].0);
        }
    }
}

// ---------------------------------------------------------------------------
// Cursors
// ---------------------------------------------------------------------------

/// The cursors after one of them gave a row, and what it gave.
pub open spec fn row_fetched(cursors: Seq<(Seq<char>, CursorView)>, name: Seq<char>) -> (
    Seq<(Seq<char>, CursorView)>,
    Answer,
) {
    match entry_of(cursors, lower_text(name)) {
        None => (
            cursors,
            Err(ErrorView::Execution("cursor '"@ + name + "' not found"@)),
        ),
        Some(c) => if c.pos < c.rows.len() {
            (
                set_entry(cursors, lower_text(name), CursorView { pos: c.pos + 1, ..c }),
                Ok(answer(c.columns, seq![c.rows[c.pos]])),
            )
        } else {
            (
                cursors,
                Ok(ResultView { message: "DONE"@, ..answer(c.columns, Seq::empty()) }),
            )
        },
    }
}

/// The query of a cursor that is to be opened.
pub open spec fn cursor_query(cursors: Seq<(Seq<char>, CursorView)>, name: Seq<char>) -> Option<
    Seq<char>,
> {
    match entry_of(cursors, lower_text(name)) {
        Some(c) => if c.columns.len() > 0 {
            Some(c.columns[0])
        } else {
            None
        },
        None => None,
    }
}

/// A cursor that is opened gives the rows of its query one after the other, then none.
pub proof fn law_cursor_gives_all_rows(
    cursors: Seq<(Seq<char>, CursorView)>,
    name: Seq<char>,
    n: int,
)
    requires
        entry_of(cursors, lower_text(name)) is Some,
        0 <= n,
        (entry_of(cursors, lower_text(name))->0).pos == n,
    ensures
        ({
            let c = entry_of(cursors, lower_text(name))->0;
            let (after, given) = row_fetched(cursors, name);
            if n < c.rows.len() {
                &&& given == Ok::<ResultView, ErrorView>(answer(c.columns, seq![c.rows[n]]))
                &&& entry_of(after, lower_text(name)) == Some(CursorView { pos: n + 1, ..c })
            } else {
                &&& after == cursors
                &&& given is Ok
                &&& (given->Ok_0).rows.len() == 0
                &&& (given->Ok_0).message == "DONE"@
            }
        }),
{
    let c = entry_of(cursors, lower_text(name))->0;
    law_set_entry(cursors, lower_text(name), CursorView { pos: n + 1, ..c }, lower_text(name));
}

impl Database {
    fn fetch_row(&mut self, name: &str) -> (r: Result<ExecuteResult>)
        requires
            old(self)@.wf(),
        ensures
            final(self)@.wf(),
            outcome(r) == row_fetched(old(self)@.cursors, name@).1,
            final(self)@ == (DatabaseView {
                cursors: row_fetched(old(self)@.cursors, name@).0,
                ..old(self)@
            }),
    {
        let ghost d0 = self@;
        let key = name.to_lowercase();
        match find_named(&self.cursors, key.as_str()) {
            None => execution_on("cursor '", name, "' not found"),
            Some(k) => {
                let ghost cv = d0.cursors[k as int].1;
                assert(cv == self.cursors@[k as int].1.deep_view());
                proof {
                    lemma_named_from(d0.cursors, key@, 0);
                }
                let columns = copy_texts(&self.cursors[k].1.columns);
                let pos = self.cursors[k].1.pos;
                let mut rows: Vec<Vec<Value>> = Vec::new();
                assert(cv.rows.len() == self.cursors@[k as int].1.rows.len());
                if pos < self.cursors[k].1.rows.len() {
                    assert(cv.rows[pos as int] == self.cursors@[k as int].1.rows@[pos as int].deep_view());
                    rows.push(clone_row(self.cursors[k].1.rows[pos].as_slice()));
                    assert(rows.deep_view() =~= seq![cv.rows[pos as int]]);
                    self.cursors[k].1.pos = pos + 1;
                    let ghost now = CursorView { pos: pos + 1, ..cv };
                    assert(self@.cursors =~= d0.cursors.update(k as int, (key@, now)));
                    proof {
                        law_set_entry(d0.cursors, key@, now, key@);
                    }
                    Ok(ExecuteResult::answer(columns, rows))
                } else {
                    assert(rows.deep_view() =~= Seq::<Seq<ValueView>>::empty());
                    Ok(
                        ExecuteResult {
                            rows,
                            columns,
                            rows_affected: 0,
                            last_insert_id: 0,
                            message: "DONE".to_owned(),
                        },
                    )
                }
            },
        }
    }

    /// Takes the rows of the query of a cursor that is opened.
    pub fn open_cursor(&mut self, name: &str, found: ExecuteResult) -> (r: ExecuteResult)
        requires
            old(self)@.wf(),
        ensures
            final(self)@.wf(),
            r.deep_view() == ok(),
            final(self)@ == (DatabaseView {
                cursors: set_entry(
                    old(self)@.cursors,
                    lower_text(name@),
                    CursorView {
                        rows: found.deep_view().rows,
                        columns: found.deep_view().columns,
                        pos: 0,
                    },
                ),
                ..old(self)@
            }),
    {
        let ghost d0 = self@;
        let cursor = Cursor { rows: found.rows, columns: found.columns, pos: 0 };
        let ghost cv = cursor.deep_view();
        proof {
            law_set_entry(d0.cursors, lower_text(name@), cv, name@);
        }
        put_entry(&mut self.cursors, name.to_lowercase(), cursor);
        ok_result()
    }
}

// ---------------------------------------------------------------------------
// Commands
// ---------------------------------------------------------------------------

/// What is to be done for a statement.
#[derive(Debug)]
pub enum Action {
    /// Nothing: this is the result.
    Done(ExecuteResult),
    /// Parse the statement and execute it.
    Parse(String),
    /// Execute statements one after the other; the result is that of the last.
    Run(Vec<String>),
    /// Execute a query and hand its rows to a cursor.
    Open { name: String, sql: String },
    /// Execute the statements, each on its own, and enter the partitions of a table.
    Partition { table: String, meta: PartitionMeta, statements: Vec<String> },
    /// Copy the database to a directory.
    Backup(String),
    /// Copy a directory to the database.
    Restore(String),
}

/// [`Action`] as mathematical values.
pub enum ActionView {
    Done(ResultView),
    Parse(Seq<char>),
    Run(Seq<Seq<char>>),
    Open { name: Seq<char>, sql: Seq<char> },
    Partition { table: Seq<char>, meta: MetaView, statements: Seq<Seq<char>> },
    Backup(Seq<char>),
    Restore(Seq<char>),
}

impl DeepView for Action {
    type V = ActionView;

    open spec fn deep_view(&self) -> ActionView {
        match *self {
            Action::Done(r) => ActionView::Done(r.deep_view()),
            Action::Parse(s) => ActionView::Parse(s@),
            Action::Run(v) => ActionView::Run(v.deep_view()),
            Action::Open { name, sql } => ActionView::Open { name: name@, sql: sql@ },
            Action::Partition { table, meta, statements } => ActionView::Partition {
                table: table@,
                meta: meta.deep_view(),
                statements: statements.deep_view(),
            },
            Action::Backup(p) => ActionView::Backup(p@),
            Action::Restore(p) => ActionView::Restore(p@),
        }
    }
}

/// A database, and what is to be done for the statement that led to it.
pub struct Commanded {
    pub db: DatabaseView,
    pub result: std::result::Result<ActionView, ErrorView>,
}

/// What EXEC runs: a prepared statement, else a procedure.
pub open spec fn executed_by(d: DatabaseView, rest: Seq<char>) -> std::result::Result<
    ActionView,
    ErrorView,
> {
    match entry_of(d.prepared, lower_text(word(rest, 0))) {
        Some(sql) => Ok(ActionView::Run(seq![sql])),
        None => match entry_of(d.procedures, lower_text(head(rest))) {
            Some(body) => Ok(ActionView::Run(body)),
            None => Err(
                ErrorView::Execution("procedure '"@ + lower_text(head(rest)) + "' not found"@),
            ),
        },
    }
}

/// A change of the database that needs nothing else to be done.
pub open spec fn settled(db: DatabaseView) -> Commanded {
    Commanded { db, result: Ok(ActionView::Done(ok())) }
}

/// What a command does to a database, and what is to be done for it.
pub open spec fn commanded(d: DatabaseView, c: CommandView, sql: Seq<char>) -> Commanded {
    match c {
        CommandView::SetLockTimeout(n) => settled(
            match n {
                Some(ms) => DatabaseView { lock_timeout: ms, ..d },
                None => d,
            },
        ),
        CommandView::SetMaxMemory(n) => settled(
            match n {
                Some(b) => if b <= usize::MAX {
                    DatabaseView { max_memory: b as usize, ..d }
                } else {
                    d
                },
                None => d,
            },
        ),
        CommandView::Accept => settled(d),
        CommandView::CreateProcedure { name, body } => settled(
            DatabaseView { procedures: set_entry(d.procedures, lower_text(name), body), ..d },
        ),
        CommandView::Exec(rest) => Commanded { db: d, result: executed_by(d, rest) },
        CommandView::CreateTrigger(def) => settled(
            DatabaseView { triggers: trigger_added(d.triggers, def), ..d },
        ),
        CommandView::DropTrigger(name) => settled(
            DatabaseView { triggers: triggers_without(d.triggers, name), ..d },
        ),
        CommandView::CreateUser { name, password } => settled(
            DatabaseView {
                users: set_entry(d.users, lower_text(name), (password, Seq::empty())),
                ..d
            },
        ),
        CommandView::DropUser(name) => settled(
            DatabaseView { users: drop_entry(d.users, lower_text(name)), ..d },
        ),
        CommandView::DropProcedure(name) => settled(
            DatabaseView { procedures: drop_entry(d.procedures, lower_text(name)), ..d },
        ),
        CommandView::DropSequence(name) => settled(
            DatabaseView {
                engine: EngineView {
                    sequences: drop_entry(d.engine.sequences, lower_text(name)),
                    ..d.engine
                },
                ..d
            },
        ),
        CommandView::Grant { key, user } => settled(
            DatabaseView { users: granted(d.users, key, user), ..d },
        ),
        CommandView::Revoke { key, user } => settled(
            DatabaseView { users: revoked(d.users, key, user), ..d },
        ),
        CommandView::Prepare { name, sql: text } => settled(
            DatabaseView { prepared: set_entry(d.prepared, lower_text(name), text), ..d },
        ),
        CommandView::Backup(path) => Commanded { db: d, result: Ok(ActionView::Backup(path)) },
        CommandView::Restore(path) => Commanded { db: d, result: Ok(ActionView::Restore(path)) },
        CommandView::DeclareCursor { name, query } => settled(
            DatabaseView {
                cursors: set_entry(
                    d.cursors,
                    lower_text(name),
                    CursorView { rows: Seq::empty(), columns: seq![query], pos: 0 },
                ),
                ..d
            },
        ),
        CommandView::OpenCursor(name) => Commanded {
            db: d,
            result: match cursor_query(d.cursors, name) {
                Some(query) => Ok(ActionView::Open { name, sql: query }),
                None => Err(
                    ErrorView::Execution("cursor '"@ + name + "' not found or not declared"@),
                ),
            },
        },
        CommandView::FetchCursor(name) => {
            let (cursors, given) = row_fetched(d.cursors, name);
            Commanded {
                db: DatabaseView { cursors, ..d },
                result: match given {
                    Ok(r) => Ok(ActionView::Done(r)),
                    Err(e) => Err(e),
                },
            }
        },
        CommandView::DeallocateCursor(name) => settled(
            DatabaseView { cursors: drop_entry(d.cursors, lower_text(name)), ..d },
        ),
        CommandView::CreatePartitioned => Commanded {
            db: d,
            result: match partition_reading(sql) {
                Err(e) => Err(e),
                Ok((table, meta)) => Ok(
                    ActionView::Partition {
                        table,
                        meta,
                        statements: part_statements(table, meta),
                    },
                ),
            },
        },
        CommandView::Statement => Commanded {
            db: d,
            result: Ok(
                ActionView::Parse(partitions_resolved(trimmed(sql), d.partitions, d.engine.catalog)),
            ),
        },
    }
}

/// What a statement does to a database before it is parsed, and what is to be done for it.
pub open spec fn begun(d: DatabaseView, sql: Seq<char>) -> Commanded {
    match command_reading(sql) {
        Err(e) => Commanded { db: d, result: Err(e) },
        Ok(c) => commanded(d, c, sql),
    }
}

impl Database {
    fn find_executed(&self, rest: &str) -> (r: Result<Action>)
        ensures
            outcome(r) == executed_by(self@, rest@),
    {
        let name = nth_word(rest, 0);
        if let Some(k) = find_named(&self.prepared_stmts, name.to_lowercase().as_str()) {
            assert(self@.prepared[k as int].1 == self.prepared_stmts@[k as int].1@);
            let mut list: Vec<String> = Vec::new();
            list.push(self.prepared_stmts[k].1.clone());
            assert(list.deep_view() =~= seq![self@.prepared[k as int].1]);
            return Ok(Action::Run(list));
        }
        let proc_name = head_text(rest).to_lowercase();
        match find_named(&self.procedures, proc_name.as_str()) {
            Some(k) => {
                assert(self@.procedures[k as int].1 == self.procedures@[k as int].1.deep_view());
                Ok(Action::Run(copy_texts(&self.procedures[k].1)))
            },
            None => execution_on("procedure '", proc_name.as_str(), "' not found"),
        }
    }

    fn find_cursor_query(&self, name: String) -> (r: Result<Action>)
        ensures
            outcome(r) == match cursor_query(self@.cursors, name@) {
                Some(query) => Ok::<ActionView, ErrorView>(
                    ActionView::Open { name: name@, sql: query },
                ),
                None => Err::<ActionView, ErrorView>(
                    ErrorView::Execution("cursor '"@ + name@ + "' not found or not declared"@),
                ),
            },
    {
        if let Some(k) = find_named(&self.cursors, name.to_lowercase().as_str()) {
            let ghost cv = self@.cursors[k as int].1;
            assert(cv == self.cursors@[k as int].1.deep_view());
            assert(cv.columns.len() == self.cursors@[k as int].1.columns.len());
            if self.cursors[k].1.columns.len() > 0 {
                assert(cv.columns[0] == self.cursors@[k as int].1.columns@[0]@);
                let sql = self.cursors[k].1.columns[0].clone();
                return Ok(Action::Open { name, sql });
            }
        }
        execution_on("cursor '", name.as_str(), "' not found or not declared")
    }

    fn declare_cursor(&mut self, name: &str, query: String)
        requires
            old(self)@.wf(),
        ensures
            final(self)@.wf(),
            final(self)@ == (DatabaseView {
                cursors: set_entry(
                    old(self)@.cursors,
                    lower_text(name@),
                    CursorView { rows: Seq::empty(), columns: seq![query@], pos: 0 },
                ),
                ..old(self)@
            }),
    {
        let ghost d0 = self@;
        let ghost qv = query@;
        let mut columns: Vec<String> = Vec::new();
        columns.push(query);
        let cursor = Cursor { rows: Vec::new(), columns, pos: 0 };
        assert(cursor.rows.deep_view() =~= Seq::<Seq<ValueView>>::empty());
        assert(cursor.columns.deep_view() =~= seq![qv]);
        let ghost cv = cursor.deep_view();
        proof {
            law_set_entry(d0.cursors, lower_text(name@), cv, name@);
        }
        put_entry(&mut self.cursors, name.to_lowercase(), cursor);
    }

    fn obey(&mut self, c: Command, sql_text: &str) -> (r: Result<Action>)
        requires
            old(self)@.wf(),
        ensures
            final(self)@.wf(),
            ({
                let s = commanded(old(self)@, c.deep_view(), sql_text@);
                final(self)@ == s.db && outcome(r) == s.result
            }),
    {
        let ghost d0 = self@;
        match c {
            Command::SetLockTimeout(n) => {
                if let Some(ms) = n {
                    self.lock_timeout = ms;
                }
            },
            Command::SetMaxMemory(n) => {
                if let Some(b) = n {
                    if b <= usize::MAX as u64 {
                        self.max_memory_per_query = b as usize;
                    }
                }
            },
            Command::Accept => {},
            Command::CreateProcedure { name, body } => {
                proof {
                    law_set_entry(d0.procedures, lower_text(name@), body.deep_view(), name@);
                }
                put_entry(&mut self.procedures, name.to_lowercase(), body);
            },
            Command::Exec(rest) => {
                return self.find_executed(rest.as_str());
            },
            Command::CreateTrigger(def) => {
                self.add_trigger(def);
            },
            Command::DropTrigger(name) => {
                self.drop_triggers(name.as_str());
            },
            Command::CreateUser { name, password } => {
                let none: Vec<String> = Vec::new();
                assert(none.deep_view() =~= Seq::<Seq<char>>::empty());
                proof {
                    law_set_entry(
                        d0.users,
                        lower_text(name@),
                        (password@, Seq::<Seq<char>>::empty()),
                        name@,
                    );
                }
                put_entry(&mut self.users, name.to_lowercase(), (password, none));
            },
            Command::DropUser(name) => {
                proof {
                    law_drop_entry(d0.users, lower_text(name@), name@);
                }
                remove_entry(&mut self.users, name.to_lowercase().as_str());
            },
            Command::DropProcedure(name) => {
                proof {
                    law_drop_entry(d0.procedures, lower_text(name@), name@);
                }
                remove_entry(&mut self.procedures, name.to_lowercase().as_str());
            },
            Command::DropSequence(name) => {
                remove_entry(&mut self.engine.sequences, name.to_lowercase().as_str());
            },
            Command::Grant { key, user } => {
                self.grant(key, user);
            },
            Command::Revoke { key, user } => {
                self.revoke(key.as_str(), user);
            },
            Command::Prepare { name, sql } => {
                proof {
                    law_set_entry(d0.prepared, lower_text(name@), sql@, name@);
                }
                put_entry(&mut self.prepared_stmts, name.to_lowercase(), sql);
            },
            Command::Backup(path) => {
                return Ok(Action::Backup(path));
            },
            Command::Restore(path) => {
                return Ok(Action::Restore(path));
            },
            Command::DeclareCursor { name, query } => {
                self.declare_cursor(name.as_str(), query);
            },
            Command::OpenCursor(name) => {
                return self.find_cursor_query(name);
            },
            Command::FetchCursor(name) => {
                return match self.fetch_row(name.as_str()) {
                    Ok(r) => Ok(Action::Done(r)),
                    Err(e) => Err(e),
                };
            },
            Command::DeallocateCursor(name) => {
                proof {
                    law_drop_entry(d0.cursors, lower_text(name@), name@);
                }
                remove_entry(&mut self.cursors, name.to_lowercase().as_str());
            },
            Command::CreatePartitioned => {
                return match read_partitioned_table(sql_text) {
                    Err(e) => Err(e),
                    Ok((table, meta)) => {
                        let statements = make_part_statements(table.as_str(), &meta);
                        Ok(Action::Partition { table, meta, statements })
                    },
                };
            },
            Command::Statement => {
                let text = trim(sql_text);
                let sql = resolve_partitioned_sql(
                    text.as_str(),
                    &self.partitions,
                    &self.engine.ctx.catalog,
                );
                return Ok(Action::Parse(sql));
            },
        }
        Ok(Action::Done(ok_result()))
    }

    /// Begins a SQL statement that stands alone: what is left to be done for it is done in no
    /// session.
    pub fn execute_sql(&mut self, sql_text: &str) -> (r: Result<Action>)
        requires
            old(self)@.wf(),
        ensures
            final(self)@.wf(),
            final(self)@ == begun(old(self)@, sql_text@).db,
            outcome(r) == begun(old(self)@, sql_text@).result,
    {
        self.execute_sql_session(sql_text)
    }

    /// Begins a SQL statement: carries it out if it is recognized by its text, and says what is
    /// to be done for it.
    pub fn execute_sql_session(&mut self, sql_text: &str) -> (r: Result<Action>)
        requires
            old(self)@.wf(),
        ensures
            final(self)@.wf(),
            final(self)@ == begun(old(self)@, sql_text@).db,
            outcome(r) == begun(old(self)@, sql_text@).result,
    {
        match read_command(sql_text) {
            Err(e) => Err(e),
            Ok(c) => self.obey(c, sql_text),
        }
    }

    /// Enters the partitions of a table.
    pub fn add_partitions(&mut self, table: String, meta: PartitionMeta) -> (r: ExecuteResult)
        requires
            old(self)@.wf(),
            meta.range_partitions@.len() > 0,
        ensures
            final(self)@.wf(),
            r.deep_view() == ok(),
            final(self)@ == (DatabaseView {
                partitions: set_entry(old(self)@.partitions, table@, meta.deep_view()),
                ..old(self)@
            }),
    {
        let ghost d0 = self@;
        let ghost mv = meta.deep_view();
        assert(mv.ranges.len() == meta.range_partitions@.len());
        proof {
            law_set_entry(d0.partitions, table@, mv, table@);
            lemma_named_from(d0.partitions, table@, 0);
        }
        put_entry(&mut self.partitions, table, meta);
        ok_result()
    }
}

/// What a backup is reported with.
pub fn backup_done(path: &str) -> (r: ExecuteResult)
    ensures
        r.deep_view() == report("Database backed up to "@ + path@, 0, 0),
{
    ExecuteResult::report(joined("Database backed up to ", path), 0, 0)
}

/// What a restoration is reported with.
pub fn restore_done(path: &str) -> (r: ExecuteResult)
    ensures
        r.deep_view() == report("Database restored from "@ + path@, 0, 0),
{
    ExecuteResult::report(joined("Database restored from ", path), 0, 0)
}

} // verus!
