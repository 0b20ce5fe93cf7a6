//! Statements that are recognized by their text alone, before any parsing.
use crate::ast::{TriggerDef, TriggerEvent};
use crate::error::{outcome, ErrorView, ForgeError, Result};
use crate::keywords::{
    bare_statement, begins_with_word, between, between_text, contains_word, find_last_word,
    find_word, has_word, last_word_from, nth_word, opens_with, split_statements, stands_first,
    statement_text, statements, strip_word, unquote, unquoted, without_word, word, word_at,
    word_from,
};
use crate::text::{
    begins, chars_of, find_from, find_text, is_white, joined, lower_text, natural_value, parse_u64,
    pieces, same_text, split_char, split_whitespace, starts_with, tail, tail_text, trim, trim_both,
    trim_both_text, trim_end, trim_end_text, trim_start, trim_start_text, trimmed, upper_text,
    white, words, CharSet,
};
use vstd::prelude::*;

verus! {

/// [`TriggerDef`] as mathematical values.
pub struct TriggerView {
    pub name: Seq<char>,
    pub table: Seq<char>,
    pub event: TriggerEvent,
    pub body: Seq<Seq<char>>,
}

impl DeepView for TriggerDef {
    type V = TriggerView;

    open spec fn deep_view(&self) -> TriggerView {
        TriggerView {
            name: self.name@,
            table: self.table@,
            event: self.event,
            body: self.body.deep_view(),
        }
    }
}

/// A statement that was recognized by its text.
#[derive(Debug)]
pub enum Command {
    SetLockTimeout(Option<u64>),
    SetMaxMemory(Option<u64>),
    /// Nothing is to be done.
    Accept,
    CreateProcedure { name: String, body: Vec<String> },
    /// What follows EXEC or EXECUTE.
    Exec(String),
    CreateTrigger(TriggerDef),
    DropTrigger(String),
    CreateUser { name: String, password: String },
    DropUser(String),
    DropProcedure(String),
    DropSequence(String),
    Grant { key: String, user: String },
    Revoke { key: String, user: String },
    Prepare { name: String, sql: String },
    Backup(String),
    Restore(String),
    DeclareCursor { name: String, query: String },
    OpenCursor(String),
    FetchCursor(String),
    DeallocateCursor(String),
    CreatePartitioned,
    /// A statement to be parsed.
    Statement,
}

/// [`Command`] as mathematical values.
pub enum CommandView {
    SetLockTimeout(Option<u64>),
    SetMaxMemory(Option<u64>),
    Accept,
    CreateProcedure { name: Seq<char>, body: Seq<Seq<char>> },
    Exec(Seq<char>),
    CreateTrigger(TriggerView),
    DropTrigger(Seq<char>),
    CreateUser { name: Seq<char>, password: Seq<char> },
    DropUser(Seq<char>),
    DropProcedure(Seq<char>),
    DropSequence(Seq<char>),
    Grant { key: Seq<char>, user: Seq<char> },
    Revoke { key: Seq<char>, user: Seq<char> },
    Prepare { name: Seq<char>, sql: Seq<char> },
    Backup(Seq<char>),
    Restore(Seq<char>),
    DeclareCursor { name: Seq<char>, query: Seq<char> },
    OpenCursor(Seq<char>),
    FetchCursor(Seq<char>),
    DeallocateCursor(Seq<char>),
    CreatePartitioned,
    Statement,
}

impl DeepView for Command {
    type V = CommandView;

    open spec fn deep_view(&self) -> CommandView {
        match *self {
            Command::SetLockTimeout(n) => CommandView::SetLockTimeout(n),
            Command::SetMaxMemory(n) => CommandView::SetMaxMemory(n),
            Command::Accept => CommandView::Accept,
            Command::CreateProcedure { name, body } => CommandView::CreateProcedure {
                name: name@,
                body: body.deep_view(),
            },
            Command::Exec(s) => CommandView::Exec(s@),
            Command::CreateTrigger(t) => CommandView::CreateTrigger(t.deep_view()),
            Command::DropTrigger(s) => CommandView::DropTrigger(s@),
            Command::CreateUser { name, password } => CommandView::CreateUser {
                name: name@,
                password: password@,
            },
            Command::DropUser(s) => CommandView::DropUser(s@),
            Command::DropProcedure(s) => CommandView::DropProcedure(s@),
            Command::DropSequence(s) => CommandView::DropSequence(s@),
            Command::Grant { key, user } => CommandView::Grant { key: key@, user: user@ },
            Command::Revoke { key, user } => CommandView::Revoke { key: key@, user: user@ },
            Command::Prepare { name, sql } => CommandView::Prepare { name: name@, sql: sql@ },
            Command::Backup(s) => CommandView::Backup(s@),
            Command::Restore(s) => CommandView::Restore(s@),
            Command::DeclareCursor { name, query } => CommandView::DeclareCursor {
                name: name@,
                query: query@,
            },
            Command::OpenCursor(s) => CommandView::OpenCursor(s@),
            Command::FetchCursor(s) => CommandView::FetchCursor(s@),
            Command::DeallocateCursor(s) => CommandView::DeallocateCursor(s@),
            Command::CreatePartitioned => CommandView::CreatePartitioned,
            Command::Statement => CommandView::Statement,
        }
    }
}

/// The reading of a command, or why it cannot be read.
pub type Reading = std::result::Result<CommandView, ErrorView>;

fn parse_error<T: DeepView>(text: &str) -> (r: Result<T>)
    ensures
        outcome(r) == Err::<T::V, ErrorView>(ErrorView::Parse(text@)),
{
    Err(ForgeError::Parse(text.to_owned()))
}

// ---------------------------------------------------------------------------
// Procedures and triggers
// ---------------------------------------------------------------------------

/// The statements between BEGIN and the last END, or behind AS; none, where there is neither.
pub open spec fn body_of(s: Seq<char>) -> Option<Seq<Seq<char>>> {
    match word_from(s, "BEGIN"@, 0) {
        Some(b) => {
            let end = match last_word_from(s, "END"@, s.len() as int) {
                Some(e) => e,
                None => s.len() as int,
            };
            Some(statements(trimmed(between(s, b + 5, end))))
        },
        None => match word_from(s, " AS "@, 0) {
            Some(a) => Some(statements(trimmed(s.skip(a + 4)))),
            None => None,
        },
    }
}

fn find_body(s: &str) -> (r: Option<Vec<String>>)
    ensures
        r.deep_view() == body_of(s@),
{
    proof {
        reveal_strlit("BEGIN");
        reveal_strlit(" AS ");
    }
    match find_word(s, "BEGIN") {
        Some(b) => {
            let end: usize = match find_last_word(s, "END") {
                Some(e) => e,
                None => s.unicode_len(),
            };
            let body = trim(between_text(s, b + 5, end).as_str());
            Some(split_statements(body.as_str()))
        },
        None => match find_word(s, " AS ") {
            Some(a) => {
                let body = trim(tail_text(s, a + 4).as_str());
                Some(split_statements(body.as_str()))
            },
            None => None,
        },
    }
}

/// The reading of CREATE PROCEDURE.
pub open spec fn procedure_reading(sql: Seq<char>) -> Reading {
    let text = statement_text(sql);
    if !opens_with(text, "CREATE PROCEDURE "@) && !opens_with(text, "CREATE PROC "@) {
        Err(ErrorView::Parse("invalid CREATE PROCEDURE syntax"@))
    } else {
        let after = if opens_with(text, "CREATE PROCEDURE "@) {
            tail(text, 17)
        } else {
            tail(text, 12)
        };
        if word(after, 0).len() == 0 {
            Err(ErrorView::Parse("missing procedure name"@))
        } else {
            match body_of(after) {
                Some(body) => Ok(CommandView::CreateProcedure { name: word(after, 0), body }),
                None => Err(ErrorView::Parse("CREATE PROCEDURE: missing AS or BEGIN"@)),
            }
        }
    }
}

fn read_procedure(sql: &str) -> (r: Result<Command>)
    ensures
        outcome(r) == procedure_reading(sql@),
{
    let text = bare_statement(sql);
    let after = if begins_with_word(text.as_str(), "CREATE PROCEDURE ") {
        tail_text(text.as_str(), 17)
    } else if begins_with_word(text.as_str(), "CREATE PROC ") {
        tail_text(text.as_str(), 12)
    } else {
        return parse_error("invalid CREATE PROCEDURE syntax");
    };
    let name = nth_word(after.as_str(), 0);
    if name.as_str().unicode_len() == 0 {
        return parse_error("missing procedure name");
    }
    match find_body(after.as_str()) {
        Some(body) => Ok(Command::CreateProcedure { name, body }),
        None => parse_error("CREATE PROCEDURE: missing AS or BEGIN"),
    }
}

/// What a trigger waits for, going by the words of its definition.
pub open spec fn trigger_event(s: Seq<char>) -> TriggerEvent {
    if has_word(s, "AFTER INSERT"@) || has_word(s, "FOR INSERT"@) {
        TriggerEvent::AfterInsert
    } else if has_word(s, "AFTER UPDATE"@) || has_word(s, "FOR UPDATE"@) {
        TriggerEvent::AfterUpdate
    } else if has_word(s, "AFTER DELETE"@) || has_word(s, "FOR DELETE"@) {
        TriggerEvent::AfterDelete
    } else if has_word(s, "BEFORE INSERT"@) {
        TriggerEvent::BeforeInsert
    } else if has_word(s, "BEFORE UPDATE"@) {
        TriggerEvent::BeforeUpdate
    } else if has_word(s, "BEFORE DELETE"@) {
        TriggerEvent::BeforeDelete
    } else {
        TriggerEvent::AfterInsert
    }
}

fn find_trigger_event(s: &str) -> (r: TriggerEvent)
    ensures
        r == trigger_event(s@),
{
    if contains_word(s, "AFTER INSERT") || contains_word(s, "FOR INSERT") {
        TriggerEvent::AfterInsert
    } else if contains_word(s, "AFTER UPDATE") || contains_word(s, "FOR UPDATE") {
        TriggerEvent::AfterUpdate
    } else if contains_word(s, "AFTER DELETE") || contains_word(s, "FOR DELETE") {
        TriggerEvent::AfterDelete
    } else if contains_word(s, "BEFORE INSERT") {
        TriggerEvent::BeforeInsert
    } else if contains_word(s, "BEFORE UPDATE") {
        TriggerEvent::BeforeUpdate
    } else if contains_word(s, "BEFORE DELETE") {
        TriggerEvent::BeforeDelete
    } else {
        TriggerEvent::AfterInsert
    }
}

/// The reading of CREATE TRIGGER name ON table AFTER|BEFORE INSERT|UPDATE|DELETE AS ...
pub open spec fn trigger_reading(sql: Seq<char>) -> Reading {
    let after = tail(statement_text(sql), 15);
    match word_from(after, " ON "@, 0) {
        None => Err(ErrorView::Parse("CREATE TRIGGER: missing ON clause"@)),
        Some(p) => Ok(
            CommandView::CreateTrigger(
                TriggerView {
                    name: word(after, 0),
                    table: word(trimmed(after.skip(p + 4)), 0),
                    event: trigger_event(after),
                    body: match body_of(after) {
                        Some(b) => b,
                        None => Seq::empty(),
                    },
                },
            ),
        ),
    }
}

fn read_trigger(sql: &str) -> (r: Result<Command>)
    ensures
        outcome(r) == trigger_reading(sql@),
{
    proof {
        reveal_strlit(" ON ");
    }
    let text = bare_statement(sql);
    let after = tail_text(text.as_str(), 15);
    match find_word(after.as_str(), " ON ") {
        None => parse_error("CREATE TRIGGER: missing ON clause"),
        Some(p) => {
            let rest = trim(tail_text(after.as_str(), p + 4).as_str());
            let body: Vec<String> = match find_body(after.as_str()) {
                Some(b) => b,
                None => Vec::new(),
            };
            let def = TriggerDef {
                name: nth_word(after.as_str(), 0),
                table: nth_word(rest.as_str(), 0),
                event: find_trigger_event(after.as_str()),
                body,
            };
            proof {
                if body_of(after@) is None {
                    assert(def.body.deep_view() =~= Seq::<Seq<char>>::empty());
                }
            }
            Ok(Command::CreateTrigger(def))
        },
    }
}

// ---------------------------------------------------------------------------
// Users
// ---------------------------------------------------------------------------

/// The password of CREATE USER: a quoted text or a word behind PASSWORD.
pub open spec fn password_in(text: Seq<char>) -> Seq<char> {
    match word_from(text, "PASSWORD"@, 0) {
        None => Seq::empty(),
        Some(p) => {
            let after = trim_start(
                trim_start(trimmed(text.skip(p + 8)), CharSet::One('=')),
                CharSet::One(' '),
            );
            if begins(after, "'"@) {
                let end = match find_from(after, "'"@, 1) {
                    Some(e) => e,
                    None => after.len() as int,
                };
                between(after, 1, end)
            } else {
                word(after, 0)
            }
        },
    }
}

fn find_password(text: &str) -> (r: String)
    ensures
        r@ == password_in(text@),
{
    proof {
        reveal_strlit("PASSWORD");
    }
    match find_word(text, "PASSWORD") {
        None => {
            let r = String::new();
            assert(r@ =~= Seq::<char>::empty());
            r
        },
        Some(p) => {
            let rest = trim(tail_text(text, p + 8).as_str());
            let rest = trim_start_text(rest.as_str(), CharSet::One('='));
            let after = trim_start_text(rest.as_str(), CharSet::One(' '));
            if starts_with(after.as_str(), "'") {
                let end: usize = match find_text(after.as_str(), "'", 1) {
                    Some(e) => e,
                    None => after.as_str().unicode_len(),
                };
                between_text(after.as_str(), 1, end)
            } else {
                nth_word(after.as_str(), 0)
            }
        },
    }
}

/// The reading of CREATE USER name WITH PASSWORD 'password', or of CREATE LOGIN.
pub open spec fn user_reading(sql: Seq<char>) -> CommandView {
    let text = statement_text(sql);
    let after = if opens_with(text, "CREATE USER "@) {
        tail(text, 12)
    } else {
        tail(text, 13)
    };
    CommandView::CreateUser { name: unquoted(word(after, 0)), password: password_in(text) }
}

fn read_user(sql: &str) -> (r: Command)
    ensures
        r.deep_view() == user_reading(sql@),
{
    let text = bare_statement(sql);
    let after = if begins_with_word(text.as_str(), "CREATE USER ") {
        tail_text(text.as_str(), 12)
    } else {
        tail_text(text.as_str(), 13)
    };
    Command::CreateUser {
        name: unquote(nth_word(after.as_str(), 0).as_str()),
        password: find_password(text.as_str()),
    }
}

/// The first place of a keyword in a list, from `i` on, in whatever case it is written.
pub open spec fn place_of(list: Seq<Seq<char>>, w: Seq<char>, i: int) -> Option<int>
    decreases list.len() - i,
{
    if i < 0 || i >= list.len() {
        None
    } else if upper_text(list[i]) == w {
        Some(i)
    } else {
        place_of(list, w, i + 1)
    }
}

/// The word behind another in a list, or a substitute if there is none.
pub open spec fn behind(list: Seq<Seq<char>>, place: int, other: Seq<char>) -> Seq<char> {
    if place + 1 < list.len() {
        list[place + 1]
    } else {
        other
    }
}

fn find_place(list: &Vec<String>, w: &str) -> (r: Option<usize>)
    ensures
        match r {
            Some(k) => k < list.len() && place_of(list.deep_view(), w@, 0) == Some(k as int),
            None => place_of(list.deep_view(), w@, 0) is None,
        },
{
    let ghost lv = list.deep_view();
    let mut i: usize = 0;
    while i < list.len()
        invariant
            0 <= i <= list.len(),
            lv == list.deep_view(),
            place_of(lv, w@, 0) == place_of(lv, w@, i as int),
        decreases list.len() - i,
    {
        assert(lv[i as int] == list@[i as int]@);
        if same_text(list[i].as_str().to_uppercase().as_str(), w) {
            return Some(i);
        }
        i += 1;
    }
    None
}

fn word_behind(list: &Vec<String>, place: usize, other: &str) -> (r: String)
    requires
        place < list.len(),
    ensures
        r@ == behind(list.deep_view(), place as int, other@),
{
    let ghost lv = list.deep_view();
    if place + 1 < list.len() {
        assert(lv[place + 1] == list@[place + 1]@);
        list[place + 1].clone()
    } else {
        other.to_owned()
    }
}

/// The table of a privilege, in whatever case it is written: `*`, or `*.*`, for all tables.
pub open spec fn table_key(table: Seq<char>) -> Seq<char> {
    if table == "*"@ || table == "*.*"@ {
        "*"@
    } else {
        lower_text(table)
    }
}

/// The table of a privilege.
pub fn make_table_key(table: &str) -> (r: String)
    ensures
        r@ == table_key(table@),
{
    if same_text(table, "*") || same_text(table, "*.*") {
        "*".to_owned()
    } else {
        table.to_lowercase()
    }
}

/// The key of a privilege on a table.
pub open spec fn privilege_key(privilege: Seq<char>, table: Seq<char>) -> Seq<char> {
    privilege + ":"@ + table
}

/// The key of a privilege on a table.
pub fn make_privilege_key(privilege: &str, table: &str) -> (r: String)
    ensures
        r@ == privilege_key(privilege@, table@),
{
    joined(joined(privilege, ":").as_str(), table)
}

/// The privilege and the user of a GRANT or REVOKE, given the words behind it.
pub open spec fn privilege_in(list: Seq<Seq<char>>, link: Seq<char>) -> Option<
    (Seq<char>, Seq<char>),
> {
    match place_of(list, link, 0) {
        None => None,
        Some(k) => {
            let privilege = if list.len() > 0 {
                upper_text(list[0])
            } else {
                "ALL"@
            };
            let table = match place_of(list, "ON"@, 0) {
                Some(p) => table_key(behind(list, p, "*"@)),
                None => "*"@,
            };
            Some(
                (
                    privilege_key(privilege, table),
                    lower_text(unquoted(behind(list, k, ""@))),
                ),
            )
        },
    }
}

fn find_privilege(list: &Vec<String>, link: &str) -> (r: Option<(String, String)>)
    ensures
        r.deep_view() == privilege_in(list.deep_view(), link@),
{
    let ghost lv = list.deep_view();
    match find_place(list, link) {
        None => None,
        Some(k) => {
            assert(lv[0] == list@[0]@);
            let privilege = list[0].as_str().to_uppercase();
            let table = match find_place(list, "ON") {
                Some(p) => make_table_key(word_behind(list, p, "*").as_str()),
                None => "*".to_owned(),
            };
            let key = make_privilege_key(privilege.as_str(), table.as_str());
            let user = unquote(word_behind(list, k, "").as_str());
            Some((key, user.as_str().to_lowercase()))
        },
    }
}

/// The words of a GRANT or REVOKE behind its keyword.
pub open spec fn grant_words(sql: Seq<char>, n: int) -> Seq<Seq<char>> {
    words(tail(statement_text(sql), n))
}

/// The reading of GRANT privilege ON table TO user.
pub open spec fn grant_reading(sql: Seq<char>) -> Reading {
    match privilege_in(grant_words(sql, 6), "TO"@) {
        None => Err(ErrorView::Parse("GRANT: missing TO clause"@)),
        Some(p) => Ok(CommandView::Grant { key: p.0, user: p.1 }),
    }
}

/// The reading of REVOKE privilege ON table FROM user.
pub open spec fn revoke_reading(sql: Seq<char>) -> Reading {
    match privilege_in(grant_words(sql, 7), "FROM"@) {
        None => Err(ErrorView::Parse("REVOKE: missing FROM clause"@)),
        Some(p) => Ok(CommandView::Revoke { key: p.0, user: p.1 }),
    }
}

fn read_grant(sql: &str) -> (r: Result<Command>)
    ensures
        outcome(r) == grant_reading(sql@),
{
    let list = split_whitespace(tail_text(bare_statement(sql).as_str(), 6).as_str());
    match find_privilege(&list, "TO") {
        None => parse_error("GRANT: missing TO clause"),
        Some((key, user)) => Ok(Command::Grant { key, user }),
    }
}

fn read_revoke(sql: &str) -> (r: Result<Command>)
    ensures
        outcome(r) == revoke_reading(sql@),
{
    let list = split_whitespace(tail_text(bare_statement(sql).as_str(), 7).as_str());
    match find_privilege(&list, "FROM") {
        None => parse_error("REVOKE: missing FROM clause"),
        Some((key, user)) => Ok(Command::Revoke { key, user }),
    }
}

// ---------------------------------------------------------------------------
// Prepared statements, copies, cursors
// ---------------------------------------------------------------------------

/// The reading of PREPARE name AS sql, or of PREPARE name FROM 'sql'.
pub open spec fn prepare_reading(sql: Seq<char>) -> Reading {
    let after = tail(statement_text(sql), 8);
    match word_from(after, " AS "@, 0) {
        Some(p) => Ok(
            CommandView::Prepare { name: word(after, 0), sql: trimmed(after.skip(p + 4)) },
        ),
        None => match word_from(after, " FROM "@, 0) {
            Some(p) => Ok(
                CommandView::Prepare {
                    name: word(after, 0),
                    sql: trim_both(trimmed(after.skip(p + 6)), CharSet::One('\'')),
                },
            ),
            None => Err(ErrorView::Parse("PREPARE: missing AS or FROM"@)),
        },
    }
}

fn read_prepare(sql: &str) -> (r: Result<Command>)
    ensures
        outcome(r) == prepare_reading(sql@),
{
    proof {
        reveal_strlit(" AS ");
        reveal_strlit(" FROM ");
    }
    let after = tail_text(bare_statement(sql).as_str(), 8);
    let name = nth_word(after.as_str(), 0);
    if let Some(p) = find_word(after.as_str(), " AS ") {
        let rest = tail_text(after.as_str(), p + 4);
        return Ok(Command::Prepare { name, sql: trim(rest.as_str()) });
    }
    if let Some(p) = find_word(after.as_str(), " FROM ") {
        let rest = trim(tail_text(after.as_str(), p + 6).as_str());
        return Ok(
            Command::Prepare { name, sql: trim_both_text(rest.as_str(), CharSet::One('\'')) },
        );
    }
    parse_error("PREPARE: missing AS or FROM")
}

/// The path behind a keyword: 'path', or DISK = 'path'.
pub open spec fn path_behind(text: Seq<char>, link: Seq<char>) -> Option<Seq<char>> {
    match word_from(text, link, 0) {
        None => None,
        Some(p) => {
            let after = trimmed(text.skip(p + link.len()));
            let path = if opens_with(after, "DISK"@) {
                trimmed(
                    tail(
                        after,
                        1 + match find_from(after, "="@, 0) {
                            Some(e) => e,
                            None => 4,
                        },
                    ),
                )
            } else {
                after
            };
            Some(unquoted(path))
        },
    }
}

fn find_path(text: &str, link: &str) -> (r: Option<String>)
    ensures
        r.deep_view() == path_behind(text@, link@),
{
    proof {
        reveal_strlit("=");
    }
    match find_word(text, link) {
        None => None,
        Some(p) => {
            let after = trim(tail_text(text, p + link.unicode_len()).as_str());
            let path = if begins_with_word(after.as_str(), "DISK") {
                let e: usize = match find_text(after.as_str(), "=", 0) {
                    Some(e) => e,
                    None => 4,
                };
                trim(tail_text(after.as_str(), e + 1).as_str())
            } else {
                after
            };
            Some(unquote(path.as_str()))
        },
    }
}

/// The reading of BACKUP DATABASE TO 'path'.
pub open spec fn backup_reading(sql: Seq<char>) -> Reading {
    match path_behind(statement_text(sql), " TO "@) {
        Some(p) => Ok(CommandView::Backup(p)),
        None => Err(ErrorView::Parse("BACKUP: missing TO clause"@)),
    }
}

/// The reading of RESTORE DATABASE FROM 'path'.
pub open spec fn restore_reading(sql: Seq<char>) -> Reading {
    match path_behind(statement_text(sql), " FROM "@) {
        Some(p) => Ok(CommandView::Restore(p)),
        None => Err(ErrorView::Parse("RESTORE: missing FROM clause"@)),
    }
}

fn read_backup(sql: &str) -> (r: Result<Command>)
    ensures
        outcome(r) == backup_reading(sql@),
{
    match find_path(bare_statement(sql).as_str(), " TO ") {
        Some(p) => Ok(Command::Backup(p)),
        None => parse_error("BACKUP: missing TO clause"),
    }
}

fn read_restore(sql: &str) -> (r: Result<Command>)
    ensures
        outcome(r) == restore_reading(sql@),
{
    match find_path(bare_statement(sql).as_str(), " FROM ") {
        Some(p) => Ok(Command::Restore(p)),
        None => parse_error("RESTORE: missing FROM clause"),
    }
}

/// The reading of DECLARE name CURSOR FOR query.
pub open spec fn declare_reading(sql: Seq<char>) -> Reading {
    let text = statement_text(sql);
    let name = word(tail(text, 8), 0);
    match word_from(text, " FOR "@, 0) {
        Some(p) => Ok(CommandView::DeclareCursor { name, query: trimmed(text.skip(p + 5)) }),
        None => match word_from(text, "CURSOR"@, 0) {
            Some(p) => {
                let after = trimmed(text.skip(p + 6));
                Ok(
                    CommandView::DeclareCursor {
                        name,
                        query: if opens_with(after, "FOR "@) {
                            trimmed(tail(after, 4))
                        } else {
                            after
                        },
                    },
                )
            },
            None => Err(ErrorView::Parse("DECLARE CURSOR: missing FOR clause"@)),
        },
    }
}

fn read_declare(sql: &str) -> (r: Result<Command>)
    ensures
        outcome(r) == declare_reading(sql@),
{
    proof {
        reveal_strlit(" FOR ");
        reveal_strlit("CURSOR");
    }
    let text = bare_statement(sql);
    let name = nth_word(tail_text(text.as_str(), 8).as_str(), 0);
    if let Some(p) = find_word(text.as_str(), " FOR ") {
        let query = trim(tail_text(text.as_str(), p + 5).as_str());
        return Ok(Command::DeclareCursor { name, query });
    }
    if let Some(p) = find_word(text.as_str(), "CURSOR") {
        let after = trim(tail_text(text.as_str(), p + 6).as_str());
        let query = if begins_with_word(after.as_str(), "FOR ") {
            trim(tail_text(after.as_str(), 4).as_str())
        } else {
            after
        };
        return Ok(Command::DeclareCursor { name, query });
    }
    parse_error("DECLARE CURSOR: missing FOR clause")
}

/// The name behind the first `n` characters of a statement.
pub open spec fn name_behind(sql: Seq<char>, n: int) -> Seq<char> {
    trimmed(trim_end(trimmed(tail(trimmed(sql), n)), CharSet::One(';')))
}

fn read_name_behind(sql: &str, n: usize) -> (r: String)
    ensures
        r@ == name_behind(sql@, n as int),
{
    let rest = trim(tail_text(trim(sql).as_str(), n).as_str());
    trim(trim_end_text(rest.as_str(), CharSet::One(';')).as_str())
}

/// The cursor that a DEALLOCATE names: what is given, without the word CURSOR before it.
pub open spec fn cursor_named(s: Seq<char>) -> Seq<char> {
    if word_at(s, "CURSOR"@, 0) && s.len() > 6 && white(s[6]) {
        trimmed(tail(s, 6))
    } else {
        s
    }
}

fn read_cursor_name(s: String) -> (r: String)
    ensures
        r@ == cursor_named(s@),
{
    let c = chars_of(s.as_str());
    if stands_first(s.as_str(), "CURSOR") && c.len() > 6 && is_white(c[6]) {
        trim(tail_text(s.as_str(), 6).as_str())
    } else {
        s
    }
}

/// The cursor that a FETCH names: behind FROM, or as its last word.
pub open spec fn fetched_cursor(sql: Seq<char>) -> Seq<char> {
    let text = statement_text(sql);
    match word_from(text, " FROM "@, 0) {
        Some(p) => trimmed(text.skip(p + 6)),
        None => {
            let w = words(trimmed(tail(text, 6)));
            if w.len() > 0 {
                w.last()
            } else {
                Seq::empty()
            }
        },
    }
}

fn read_fetched_cursor(sql: &str) -> (r: String)
    ensures
        r@ == fetched_cursor(sql@),
{
    proof {
        reveal_strlit(" FROM ");
    }
    let text = bare_statement(sql);
    match find_word(text.as_str(), " FROM ") {
        Some(p) => trim(tail_text(text.as_str(), p + 6).as_str()),
        None => {
            let w = split_whitespace(trim(tail_text(text.as_str(), 6).as_str()).as_str());
            let ghost wv = w.deep_view();
            if w.len() > 0 {
                assert(wv[wv.len() - 1] == w@[w.len() - 1]@);
                w[w.len() - 1].clone()
            } else {
                let r = String::new();
                assert(r@ =~= Seq::<char>::empty());
                r
            }
        },
    }
}

/// The third word of a statement, without closing semicolons.
pub open spec fn third_word(sql: Seq<char>) -> Seq<char> {
    trim_end(word(trimmed(sql), 2), CharSet::One(';'))
}

fn read_third_word(sql: &str) -> (r: String)
    ensures
        r@ == third_word(sql@),
{
    trim_end_text(nth_word(trim(sql).as_str(), 2).as_str(), CharSet::One(';'))
}

// ---------------------------------------------------------------------------
// All commands
// ---------------------------------------------------------------------------

/// Whether a statement is one of those that go to the parser at once.
pub open spec fn parsed_at_once(text: Seq<char>) -> bool {
    word_at(text, "SELECT"@, 0) || word_at(text, "INSERT"@, 0) || word_at(text, "UPDATE"@, 0)
        || word_at(text, "DELETE"@, 0) || word_at(text, "ANALYZ"@, 0)
}

fn goes_to_parser(text: &str) -> (r: bool)
    ensures
        r == parsed_at_once(text@),
{
    stands_first(text, "SELECT") || stands_first(text, "INSERT") || stands_first(text, "UPDATE")
        || stands_first(text, "DELETE") || stands_first(text, "ANALYZ")
}

/// The reading of a statement by its text.
pub open spec fn command_reading(sql: Seq<char>) -> Reading {
    let text = trimmed(sql);
    if parsed_at_once(text) {
        Ok(CommandView::Statement)
    } else if opens_with(text, "SET LOCK_TIMEOUT "@) {
        Ok(
            CommandView::SetLockTimeout(
                natural_value(trim_end(trimmed(tail(text, 17)), CharSet::One(';'))),
            ),
        )
    } else if opens_with(text, "SET TRANSACTION ISOLATION LEVEL"@) {
        Ok(CommandView::Accept)
    } else if opens_with(text, "CREATE PROC"@) {
        procedure_reading(sql)
    } else if opens_with(text, "EXEC "@) {
        Ok(CommandView::Exec(trimmed(tail(text, 5))))
    } else if opens_with(text, "EXECUTE "@) {
        Ok(CommandView::Exec(trimmed(tail(text, 8))))
    } else if opens_with(text, "CREATE TRIGGER"@) {
        trigger_reading(sql)
    } else if opens_with(text, "DROP TRIGGER"@) {
        Ok(
            CommandView::DropTrigger(
                trimmed(
                    trim_end(trimmed(without_word(text, "DROP TRIGGER"@)), CharSet::One(';')),
                ),
            ),
        )
    } else if opens_with(text, "CREATE USER"@) || opens_with(text, "CREATE LOGIN"@) {
        Ok(user_reading(sql))
    } else if opens_with(text, "DROP USER"@) || opens_with(text, "DROP LOGIN"@) {
        Ok(CommandView::DropUser(third_word(sql)))
    } else if opens_with(text, "DROP PROCEDURE "@) || opens_with(text, "DROP PROC "@) {
        Ok(CommandView::DropProcedure(third_word(sql)))
    } else if opens_with(text, "DROP SEQUENCE "@) {
        Ok(CommandView::DropSequence(third_word(sql)))
    } else if opens_with(text, "GRANT "@) {
        grant_reading(sql)
    } else if opens_with(text, "REVOKE "@) {
        revoke_reading(sql)
    } else if opens_with(text, "PREPARE "@) {
        prepare_reading(sql)
    } else if opens_with(text, "BACKUP DATABASE"@) || opens_with(text, "BACKUP DB"@) {
        backup_reading(sql)
    } else if opens_with(text, "RESTORE DATABASE"@) || opens_with(text, "RESTORE DB"@) {
        restore_reading(sql)
    } else if opens_with(text, "DECLARE "@) && has_word(text, "CURSOR"@) {
        declare_reading(sql)
    } else if opens_with(text, "OPEN "@) {
        Ok(CommandView::OpenCursor(name_behind(sql, 5)))
    } else if opens_with(text, "FETCH "@) {
        Ok(CommandView::FetchCursor(fetched_cursor(sql)))
    } else if opens_with(text, "CLOSE "@) {
        Ok(CommandView::Accept)
    } else if opens_with(text, "DEALLOCATE "@) {
        Ok(CommandView::DeallocateCursor(cursor_named(name_behind(sql, 11))))
    } else if opens_with(text, "SET MAX_MEMORY "@) || opens_with(
        text,
        "SET MAX_MEMORY_PER_QUERY "@,
    ) {
        Ok(
            CommandView::SetMaxMemory(
                natural_value(trim_end(pieces(text, ' ').last(), CharSet::One(';'))),
            ),
        )
    } else if opens_with(text, "CREATE TABLE"@) && has_word(text, "PARTITION BY RANGE"@) {
        Ok(CommandView::CreatePartitioned)
    } else if opens_with(text, "CREATE FULLTEXT INDEX"@) {
        Ok(CommandView::Accept)
    } else {
        Ok(CommandView::Statement)
    }
}

fn last_piece(text: &str) -> (r: String)
    ensures
        r@ == pieces(text@, ' ').last(),
{
    let p = split_char(text, ' ');
    let ghost pv = p.deep_view();
    proof {
        lemma_pieces_some(text@, ' ');
    }
    assert(pv.len() == p.len());
    assert(pv[pv.len() - 1] == p@[p.len() - 1]@);
    p[p.len() - 1].clone()
}

proof fn lemma_pieces_some(s: Seq<char>, sep: char)
    ensures
        pieces(s, sep).len() > 0,
    decreases s.len(),
{
    if s.len() > 0 {
        lemma_pieces_some(s.drop_last(), sep);
    }
}

/// Reads a statement by its text.
pub fn read_command(sql: &str) -> (r: Result<Command>)
    ensures
        outcome(r) == command_reading(sql@),
{
    let owned = trim(sql);
    let text = owned.as_str();
    if goes_to_parser(text) {
        return Ok(Command::Statement);
    }
    if begins_with_word(text, "SET LOCK_TIMEOUT ") {
        let n = trim_end_text(trim(tail_text(text, 17).as_str()).as_str(), CharSet::One(';'));
        return Ok(Command::SetLockTimeout(parse_u64(n.as_str())));
    }
    if begins_with_word(text, "SET TRANSACTION ISOLATION LEVEL") {
        return Ok(Command::Accept);
    }
    if begins_with_word(text, "CREATE PROC") {
        return read_procedure(sql);
    }
    if begins_with_word(text, "EXEC ") {
        return Ok(Command::Exec(trim(tail_text(text, 5).as_str())));
    }
    if begins_with_word(text, "EXECUTE ") {
        return Ok(Command::Exec(trim(tail_text(text, 8).as_str())));
    }
    if begins_with_word(text, "CREATE TRIGGER") {
        return read_trigger(sql);
    }
    if begins_with_word(text, "DROP TRIGGER") {
        let rest = trim(strip_word(text, "DROP TRIGGER").as_str());
        let name = trim(trim_end_text(rest.as_str(), CharSet::One(';')).as_str());
        return Ok(Command::DropTrigger(name));
    }
    if begins_with_word(text, "CREATE USER") || begins_with_word(text, "CREATE LOGIN") {
        return Ok(read_user(sql));
    }
    if begins_with_word(text, "DROP USER") || begins_with_word(text, "DROP LOGIN") {
        return Ok(Command::DropUser(read_third_word(sql)));
    }
    if begins_with_word(text, "DROP PROCEDURE ") || begins_with_word(text, "DROP PROC ") {
        return Ok(Command::DropProcedure(read_third_word(sql)));
    }
    if begins_with_word(text, "DROP SEQUENCE ") {
        return Ok(Command::DropSequence(read_third_word(sql)));
    }
    read_later_command(sql, text)
}

fn read_later_command(sql: &str, text: &str) -> (r: Result<Command>)
    requires
        text@ == trimmed(sql@),
        !parsed_at_once(text@),
        !opens_with(text@, "SET LOCK_TIMEOUT "@),
        !opens_with(text@, "SET TRANSACTION ISOLATION LEVEL"@),
        !opens_with(text@, "CREATE PROC"@),
        !opens_with(text@, "EXEC "@),
        !opens_with(text@, "EXECUTE "@),
        !opens_with(text@, "CREATE TRIGGER"@),
        !opens_with(text@, "DROP TRIGGER"@),
        !opens_with(text@, "CREATE USER"@),
        !opens_with(text@, "CREATE LOGIN"@),
        !opens_with(text@, "DROP USER"@),
        !opens_with(text@, "DROP LOGIN"@),
        !opens_with(text@, "DROP PROCEDURE "@),
        !opens_with(text@, "DROP PROC "@),
        !opens_with(text@, "DROP SEQUENCE "@),
    ensures
        outcome(r) == command_reading(sql@),
{
    if begins_with_word(text, "GRANT ") {
        return read_grant(sql);
    }
    if begins_with_word(text, "REVOKE ") {
        return read_revoke(sql);
    }
    if begins_with_word(text, "PREPARE ") {
        return read_prepare(sql);
    }
    if begins_with_word(text, "BACKUP DATABASE") || begins_with_word(text, "BACKUP DB") {
        return read_backup(sql);
    }
    if begins_with_word(text, "RESTORE DATABASE") || begins_with_word(text, "RESTORE DB") {
        return read_restore(sql);
    }
    if begins_with_word(text, "DECLARE ") && contains_word(text, "CURSOR") {
        return read_declare(sql);
    }
    if begins_with_word(text, "OPEN ") {
        return Ok(Command::OpenCursor(read_name_behind(sql, 5)));
    }
    if begins_with_word(text, "FETCH ") {
        return Ok(Command::FetchCursor(read_fetched_cursor(sql)));
    }
    if begins_with_word(text, "CLOSE ") {
        return Ok(Command::Accept);
    }
    if begins_with_word(text, "DEALLOCATE ") {
        let name = read_name_behind(sql, 11);
        return Ok(Command::DeallocateCursor(read_cursor_name(name)));
    }
    if begins_with_word(text, "SET MAX_MEMORY ") || begins_with_word(
        text,
        "SET MAX_MEMORY_PER_QUERY ",
    ) {
        let n = trim_end_text(last_piece(text).as_str(), CharSet::One(';'));
        return Ok(Command::SetMaxMemory(parse_u64(n.as_str())));
    }
    if begins_with_word(text, "CREATE TABLE") && contains_word(text, "PARTITION BY RANGE") {
        return Ok(Command::CreatePartitioned);
    }
    if begins_with_word(text, "CREATE FULLTEXT INDEX") {
        return Ok(Command::Accept);
    }
    Ok(Command::Statement)
}

} // verus!
