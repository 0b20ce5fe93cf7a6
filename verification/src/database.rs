//! The database: what is known beside the tables, and what a statement is to be answered with.
use crate::ast::TriggerDef;
use crate::catalog::Catalog;
use crate::commands::{
    grant_reading, grant_words, make_privilege_key, make_table_key, place_of, privilege_key,
    table_key, CommandView, TriggerView,
};
use crate::keywords::unquoted;
use crate::common::TxnId;
use crate::engine::{next_number, Engine, EngineView};
use crate::error::{outcome, Result};
use crate::index::BTreeIndex;
use crate::partitions::{all_split, MetaView, PartitionMeta};
use crate::page_ids::pages_valid;
use crate::registry::{distinct_names, entry_of, law_set_entry, put_entry, set_entry};
use crate::state::{find_named, DmlContext, ExecutorContext, StateView};
use crate::storage::{BufferPool, PageView};
use crate::text::{copy_texts, joined, lower_text, same_text, upper_text};
use crate::transactions::{Transactions, TxnsView};
use crate::types::{Value, ValueView};
use vstd::prelude::*;

verus! {

/// The milliseconds for which a transaction waits for a lock, unless set otherwise.
pub const DEFAULT_LOCK_TIMEOUT: u64 = 30000;

/// The rows of a query and the place of the next one. Before it is opened, the query itself
/// stands in place of its columns.
#[derive(Debug)]
pub struct Cursor {
    pub rows: Vec<Vec<Value>>,
    pub columns: Vec<String>,
    pub pos: usize,
}

/// [`Cursor`] as mathematical values.
pub struct CursorView {
    pub rows: Seq<Seq<ValueView>>,
    pub columns: Seq<Seq<char>>,
    pub pos: int,
}

impl DeepView for Cursor {
    type V = CursorView;

    open spec fn deep_view(&self) -> CursorView {
        CursorView {
            rows: self.rows.deep_view(),
            columns: self.columns.deep_view(),
            pos: self.pos as int,
        }
    }
}

/// Top-level database handle.
#[derive(Debug)]
pub struct Database {
    pub engine: Engine,
    /// Names and lengths of the log, by transaction.
    pub savepoints: Vec<(TxnId, Vec<(String, usize)>)>,
    /// Milliseconds.
    pub lock_timeout: u64,
    pub db_path: String,
    /// Statements by the lowercase name of the procedure.
    pub procedures: Vec<(String, Vec<String>)>,
    /// Triggers by the lowercase name of their table.
    pub triggers: Vec<(String, Vec<TriggerDef>)>,
    /// Passwords and privileges by the lowercase name of the user.
    pub users: Vec<(String, (String, Vec<String>))>,
    /// Statements by lowercase name.
    pub prepared_stmts: Vec<(String, String)>,
    pub cursors: Vec<(String, Cursor)>,
    /// Bytes; zero stands for no limit.
    pub max_memory_per_query: usize,
    /// Partitioned tables by lowercase name.
    pub partitions: Vec<(String, PartitionMeta)>,
}

/// [`Database`] as mathematical values.
pub struct DatabaseView {
    pub engine: EngineView,
    pub savepoints: Seq<(TxnId, Seq<(Seq<char>, usize)>)>,
    pub lock_timeout: u64,
    pub path: Seq<char>,
    pub procedures: Seq<(Seq<char>, Seq<Seq<char>>)>,
    pub triggers: Seq<(Seq<char>, Seq<TriggerView>)>,
    pub users: Seq<(Seq<char>, (Seq<char>, Seq<Seq<char>>))>,
    pub prepared: Seq<(Seq<char>, Seq<char>)>,
    pub cursors: Seq<(Seq<char>, CursorView)>,
    pub max_memory: usize,
    pub partitions: Seq<(Seq<char>, MetaView)>,
}

impl View for Database {
    type V = DatabaseView;

    open spec fn view(&self) -> DatabaseView {
        DatabaseView {
            engine: self.engine@,
            savepoints: self.savepoints.deep_view(),
            lock_timeout: self.lock_timeout,
            path: self.db_path@,
            procedures: self.procedures.deep_view(),
            triggers: self.triggers.deep_view(),
            users: self.users.deep_view(),
            prepared: self.prepared_stmts.deep_view(),
            cursors: self.cursors.deep_view(),
            max_memory: self.max_memory_per_query,
            partitions: self.partitions.deep_view(),
        }
    }
}

impl DatabaseView {
    /// The engine is well-formed, every partitioned table has a partition, and nothing is
    /// entered twice.
    pub open spec fn wf(self) -> bool {
        &&& self.engine.wf()
        &&& all_split(self.partitions)
        &&& distinct_names(self.procedures)
        &&& distinct_names(self.triggers)
        &&& distinct_names(self.users)
        &&& distinct_names(self.prepared)
        &&& distinct_names(self.cursors)
        &&& distinct_names(self.partitions)
    }
}

/// A database in which nothing is known but its tables.
pub open spec fn opened(catalog: Catalog, pages: Seq<PageView>, next: u32, path: Seq<char>) -> DatabaseView {
    DatabaseView {
        engine: EngineView {
            catalog,
            st: StateView {
                pages,
                next_page: next,
                indexes: Seq::empty(),
                clustered: Seq::empty(),
                counters: Seq::empty(),
                txn: None,
            },
            txns: TxnsView { next: 1, active: Seq::empty() },
            sequences: Seq::empty(),
            cache: Seq::empty(),
        },
        savepoints: Seq::empty(),
        lock_timeout: DEFAULT_LOCK_TIMEOUT,
        path,
        procedures: Seq::empty(),
        triggers: Seq::empty(),
        users: Seq::empty(),
        prepared: Seq::empty(),
        cursors: Seq::empty(),
        max_memory: 0,
        partitions: Seq::empty(),
    }
}

impl Database {
    /// Open an existing database at the given directory path, given its catalog and its pages.
    pub fn open(path: &str, catalog: Catalog, bpm: BufferPool) -> (r: Database)
        requires
            catalog.wf(),
            pages_valid(bpm@, bpm.next_page_id),
        ensures
            r@ == opened(catalog, bpm@, bpm.next_page_id, path@),
            r@.wf(),
    {
        let dml = DmlContext {
            bpm,
            indexes: Vec::new(),
            clustered_indexes: Vec::new(),
            auto_increment_counters: Vec::new(),
            txn_ctx: None,
        };
        let engine = Engine {
            ctx: ExecutorContext { catalog, dml },
            txns: Transactions::new(),
            sequences: Vec::new(),
            plan_cache: Vec::new(),
        };
        let r = Database {
            engine,
            savepoints: Vec::new(),
            lock_timeout: DEFAULT_LOCK_TIMEOUT,
            db_path: path.to_owned(),
            procedures: Vec::new(),
            triggers: Vec::new(),
            users: Vec::new(),
            prepared_stmts: Vec::new(),
            cursors: Vec::new(),
            max_memory_per_query: 0,
            partitions: Vec::new(),
        };
        let ghost want = opened(catalog, bpm@, bpm.next_page_id, path@);
        assert(r@.engine.st.indexes =~= want.engine.st.indexes);
        assert(r@.engine.st.clustered =~= want.engine.st.clustered);
        assert(r@.engine.st.counters =~= want.engine.st.counters);
        assert(r@.engine.sequences =~= want.engine.sequences);
        assert(r@.engine.cache =~= want.engine.cache);
        assert(r@.savepoints =~= want.savepoints);
        assert(r@.procedures =~= want.procedures);
        assert(r@.triggers =~= want.triggers);
        assert(r@.users =~= want.users);
        assert(r@.prepared =~= want.prepared);
        assert(r@.cursors =~= want.cursors);
        assert(r@.partitions =~= want.partitions);
        r
    }

    /// Create a new database at the given directory path.
    pub fn new(path: &str) -> (r: Database)
        ensures
            r@.wf(),
            r@ == opened(r@.engine.catalog, Seq::empty(), 0, path@),
            r@.engine.catalog.tables@.len() == 0,
            r@.engine.catalog.views@.len() == 0,
            r@.engine.catalog.next_table_id == 0,
            r@.engine.catalog.path@ == path@ + "/forgedb.catalog"@,
    {
        let bpm = BufferPool { pages: Vec::new(), next_page_id: 0 };
        assert(bpm@ =~= Seq::<PageView>::empty());
        let catalog = Catalog::new(joined(path, "/forgedb.catalog").as_str());
        Database::open(path, catalog, bpm)
    }

    /// Set the transaction lock timeout, in milliseconds.
    pub fn set_lock_timeout(&mut self, timeout: u64)
        ensures
            final(self)@ == (DatabaseView { lock_timeout: timeout, ..old(self)@ }),
    {
        self.lock_timeout = timeout;
    }

    /// Get the current max memory per query setting
    pub fn get_max_memory_per_query(&self) -> (r: usize)
        ensures
            r == self@.max_memory,
    {
        self.max_memory_per_query
    }

    /// Get next value from a sequence.
    pub fn nextval(&mut self, seq_name: &str) -> (r: Result<i64>)
        ensures
            ({
                let t = next_number(old(self)@.engine.sequences, seq_name@);
                &&& outcome(r) == t.result
                &&& final(self)@ == (DatabaseView {
                    engine: EngineView { sequences: t.sequences, ..old(self)@.engine },
                    ..old(self)@
                })
            }),
    {
        self.engine.nextval(seq_name)
    }

    /// Read-only catalog reference for direct access (used by ForgeWire columnar join).
    pub fn catalog_ref(&self) -> (r: &Catalog)
        ensures
            *r == self@.engine.catalog,
    {
        &self.engine.ctx.catalog
    }

    /// Read-only indexes reference.
    pub fn indexes_ref(&self) -> (r: &Vec<(String, BTreeIndex)>)
        ensures
            r.deep_view() == self@.engine.st.indexes,
    {
        &self.engine.ctx.dml.indexes
    }

    /// The pages, for direct access.
    pub fn cbpm_ref(&self) -> (r: &BufferPool)
        ensures
            r@ == self@.engine.st.pages,
            r.next_page_id == self@.engine.st.next_page,
    {
        &self.engine.ctx.dml.bpm
    }
}

// ---------------------------------------------------------------------------
// Privileges
// ---------------------------------------------------------------------------

/// Whether a user has a privilege on a table, or on all tables: itself, or as one of all
/// privileges.
pub open spec fn allowed(
    users: Seq<(Seq<char>, (Seq<char>, Seq<Seq<char>>))>,
    user: Seq<char>,
    privilege: Seq<char>,
    table: Option<Seq<char>>,
) -> bool {
    let on = match table {
        Some(t) => table_key(t),
        None => "*"@,
    };
    match entry_of(users, lower_text(user)) {
        None => false,
        Some(u) => {
            ||| u.1.contains(privilege_key(upper_text(privilege), on))
            ||| u.1.contains(privilege_key("ALL"@, on))
            ||| u.1.contains(privilege_key(upper_text(privilege), "*"@))
            ||| u.1.contains(privilege_key("ALL"@, "*"@))
        },
    }
}

/// The users after a privilege was given to one of them, who is made if not known.
pub open spec fn granted(
    users: Seq<(Seq<char>, (Seq<char>, Seq<Seq<char>>))>,
    key: Seq<char>,
    user: Seq<char>,
) -> Seq<(Seq<char>, (Seq<char>, Seq<Seq<char>>))> {
    match entry_of(users, user) {
        Some(u) => set_entry(
            users,
            user,
            (
                u.0,
                if u.1.contains(key) {
                    u.1
                } else {
                    u.1.push(key)
                },
            ),
        ),
        None => set_entry(users, user, (Seq::empty(), seq![key])),
    }
}

/// The texts from `i` on that are not `key`, behind `acc`.
pub open spec fn texts_without(
    list: Seq<Seq<char>>,
    key: Seq<char>,
    i: int,
    acc: Seq<Seq<char>>,
) -> Seq<Seq<char>>
    decreases list.len() - i,
{
    if i < 0 || i >= list.len() {
        acc
    } else {
        texts_without(
            list,
            key,
            i + 1,
            if list[i] == key {
                acc
            } else {
                acc.push(list[i])
            },
        )
    }
}

/// The users after a privilege was taken from one of them.
pub open spec fn revoked(
    users: Seq<(Seq<char>, (Seq<char>, Seq<Seq<char>>))>,
    key: Seq<char>,
    user: Seq<char>,
) -> Seq<(Seq<char>, (Seq<char>, Seq<Seq<char>>))> {
    match entry_of(users, user) {
        Some(u) => set_entry(users, user, (u.0, texts_without(u.1, key, 0, Seq::empty()))),
        None => users,
    }
}

/// Whether a text stands in a list.
pub fn has_entry(list: &Vec<String>, key: &str) -> (r: bool)
    ensures
        r == list.deep_view().contains(key@),
{
    let ghost lv = list.deep_view();
    let mut i: usize = 0;
    while i < list.len()
        invariant
            0 <= i <= list.len(),
            lv == list.deep_view(),
            forall|k: int| 0 <= k < i ==> lv[k] != key@,
        decreases list.len() - i,
    {
        assert(lv[i as int] == list@[i as int]@);
        if same_text(list[i].as_str(), key) {
            return true;
        }
        i += 1;
    }
    false
}

fn drop_texts(list: &Vec<String>, key: &str) -> (r: Vec<String>)
    ensures
        r.deep_view() == texts_without(list.deep_view(), key@, 0, Seq::empty()),
{
    let ghost lv = list.deep_view();
    let mut out: Vec<String> = Vec::new();
    assert(out.deep_view() =~= Seq::<Seq<char>>::empty());
    let mut i: usize = 0;
    while i < list.len()
        invariant
            0 <= i <= list.len(),
            lv == list.deep_view(),
            texts_without(lv, key@, 0, Seq::empty()) == texts_without(
                lv,
                key@,
                i as int,
                out.deep_view(),
            ),
        decreases list.len() - i,
    {
        assert(lv[i as int] == list@[i as int]@);
        if !same_text(list[i].as_str(), key) {
            let ghost had = out.deep_view();
            out.push(list[i].clone());
            assert(out.deep_view() =~= had.push(lv[i as int]));
        }
        i += 1;
    }
    out
}

proof fn lemma_texts_without(
    list: Seq<Seq<char>>,
    key: Seq<char>,
    i: int,
    acc: Seq<Seq<char>>,
    other: Seq<char>,
)
    requires
        0 <= i <= list.len(),
    ensures
        texts_without(list, key, i, acc).contains(other) <==> acc.contains(other) || (other != key
            && list.skip(i).contains(other)),
    decreases list.len() - i,
{
    if i < list.len() {
        let next = if list[i] == key {
            acc
        } else {
            acc.push(list[i])
        };
        lemma_texts_without(list, key, i + 1, next, other);
        assert(list.skip(i) =~= seq![list[i]] + list.skip(i + 1));
        if list[i] != key {
            assert(acc.push(list[i]).contains(other) <==> acc.contains(other) || other == list[i])
                by {
                if acc.contains(other) {
                    let k = choose|k: int| 0 <= k < acc.len() && acc[k] == other;
                    assert(acc.push(list[i])[k] == other);
                }
                assert(acc.push(list[i])[acc.len() as int] == list[i]);
            }
        }
        assert(list.skip(i).contains(other) <==> other == list[i] || list.skip(i + 1).contains(
            other,
        )) by {
            let rest = list.skip(i + 1);
            if rest.contains(other) {
                let k = choose|k: int| 0 <= k < rest.len() && rest[k] == other;
                assert(list.skip(i)[k + 1] == other);
            }
            assert(list.skip(i)[0] == list[i]);
            if list.skip(i).contains(other) && other != list[i] {
                let k = choose|k: int| 0 <= k < list.skip(i).len() && list.skip(i)[k] == other;
                assert(list.skip(i + 1)[k - 1] == other);
            }
        }
    } else {
        assert(list.skip(i).len() == 0);
    }
}

/// Whether a key stands for a privilege on a table: itself, or as one of all privileges, on that
/// table or on all.
pub open spec fn key_allows(key: Seq<char>, privilege: Seq<char>, table: Option<Seq<char>>) -> bool {
    let on = match table {
        Some(t) => table_key(t),
        None => "*"@,
    };
    ||| key == privilege_key(upper_text(privilege), on)
    ||| key == privilege_key("ALL"@, on)
    ||| key == privilege_key(upper_text(privilege), "*"@)
    ||| key == privilege_key("ALL"@, "*"@)
}

/// A privilege that is granted is there: a user may do after a grant what could be done before
/// it, and the one it names also what its key stands for, and nobody anything else.
pub proof fn law_granted_is_allowed(
    users: Seq<(Seq<char>, (Seq<char>, Seq<Seq<char>>))>,
    key: Seq<char>,
    user: Seq<char>,
    other: Seq<char>,
    privilege: Seq<char>,
    table: Option<Seq<char>>,
)
    ensures
        allowed(granted(users, key, user), other, privilege, table) <==> allowed(
            users,
            other,
            privilege,
            table,
        ) || (lower_text(other) == user && key_allows(key, privilege, table)),
{
    let name = lower_text(other);
    match entry_of(users, user) {
        Some(u) => {
            let list = if u.1.contains(key) {
                u.1
            } else {
                u.1.push(key)
            };
            law_set_entry(users, user, (u.0, list), name);
            assert(u.1.push(key)[u.1.len() as int] == key);
            assert forall|x: Seq<char>| #[trigger] list.contains(x) <==> u.1.contains(x) || x == key by {
                if u.1.contains(x) {
                    let k = choose|k: int| 0 <= k < u.1.len() && u.1[k] == x;
                    assert(u.1.push(key)[k] == x);
                }
            }
        },
        None => {
            let list = seq![key];
            law_set_entry(users, user, (Seq::empty(), list), name);
            assert(list[0] == key);
            assert forall|x: Seq<char>| #[trigger] list.contains(x) <==> x == key by {}
        },
    }
}

/// After `GRANT privilege ON table TO user`, written in whatever case, the user has the privilege
/// on the table, and another privilege or user is allowed only what was allowed before.
pub proof fn law_grant_statement_is_allowed(
    users: Seq<(Seq<char>, (Seq<char>, Seq<Seq<char>>))>,
    sql: Seq<char>,
    on: int,
    to: int,
)
    requires
        place_of(grant_words(sql, 6), "ON"@, 0) == Some(on),
        place_of(grant_words(sql, 6), "TO"@, 0) == Some(to),
        on + 1 < grant_words(sql, 6).len(),
        to + 1 < grant_words(sql, 6).len(),
    ensures
        grant_reading(sql) matches Ok(CommandView::Grant { key, user }) && ({
            let list = grant_words(sql, 6);
            let after = granted(users, key, user);
            &&& allowed(after, unquoted(list[to + 1]), list[0], Some(list[on + 1]))
            &&& forall|other: Seq<char>, p: Seq<char>, t: Option<Seq<char>>| #[trigger]
                allowed(after, other, p, t) <==> allowed(users, other, p, t) || (lower_text(other)
                    == lower_text(unquoted(list[to + 1])) && key_allows(
                    privilege_key(upper_text(list[0]), table_key(list[on + 1])),
                    p,
                    t,
                ))
        }),
{
    let list = grant_words(sql, 6);
    let key = privilege_key(upper_text(list[0]), table_key(list[on + 1]));
    let user = lower_text(unquoted(list[to + 1]));
    assert forall|other: Seq<char>, p: Seq<char>, t: Option<Seq<char>>| #[trigger]
        allowed(granted(users, key, user), other, p, t) <==> allowed(users, other, p, t) || (
        lower_text(other) == user && key_allows(key, p, t)) by {
        law_granted_is_allowed(users, key, user, other, p, t);
    }
    assert(key_allows(key, list[0], Some(list[on + 1])));
    law_granted_is_allowed(users, key, user, unquoted(list[to + 1]), list[0], Some(list[on + 1]));
}

/// A privilege that is revoked is not among those of the user any more, and the others are.
pub proof fn law_revoked_is_gone(
    users: Seq<(Seq<char>, (Seq<char>, Seq<Seq<char>>))>,
    user: Seq<char>,
    key: Seq<char>,
    other: Seq<char>,
)
    requires
        entry_of(users, user) is Some,
    ensures
        entry_of(revoked(users, key, user), user) is Some,
        !(entry_of(revoked(users, key, user), user)->0).1.contains(key),
        other != key ==> (entry_of(revoked(users, key, user), user)->0).1.contains(other) == (
        entry_of(users, user)->0).1.contains(other),
{
    let u = entry_of(users, user)->0;
    let list = texts_without(u.1, key, 0, Seq::empty());
    law_set_entry(users, user, (u.0, list), user);
    lemma_texts_without(u.1, key, 0, Seq::empty(), key);
    lemma_texts_without(u.1, key, 0, Seq::empty(), other);
    assert(u.1.skip(0) =~= u.1);
}

impl Database {
    /// Check if a user has a specific privilege
    pub fn check_privilege(&self, username: &str, privilege: &str, table: Option<&str>) -> (r: bool)
        ensures
            r == allowed(
                self@.users,
                username@,
                privilege@,
                match table {
                    Some(t) => Some(t@),
                    None => None,
                },
            ),
    {
        let on = match table {
            Some(t) => make_table_key(t),
            None => "*".to_owned(),
        };
        match find_named(&self.users, username.to_lowercase().as_str()) {
            None => false,
            Some(k) => {
                let ghost uv = self@.users[k as int];
                assert(uv == (
                    self.users@[k as int].0@,
                    (self.users@[k as int].1.0@, self.users@[k as int].1.1.deep_view()),
                ));
                let upper = privilege.to_uppercase();
                let key = make_privilege_key(upper.as_str(), on.as_str());
                let all_key = make_privilege_key("ALL", on.as_str());
                let global_key = make_privilege_key(upper.as_str(), "*");
                let global_all = make_privilege_key("ALL", "*");
                let list = &self.users[k].1.1;
                has_entry(list, key.as_str()) || has_entry(list, all_key.as_str()) || has_entry(
                    list,
                    global_key.as_str(),
                ) || has_entry(list, global_all.as_str())
            },
        }
    }

    /// Gives a privilege to a user.
    pub fn grant(&mut self, key: String, user: String)
        requires
            old(self)@.wf(),
        ensures
            final(self)@.wf(),
            final(self)@ == (DatabaseView {
                users: granted(old(self)@.users, key@, user@),
                ..old(self)@
            }),
    {
        let ghost d0 = self@;
        let entry: (String, Vec<String>) = match find_named(&self.users, user.as_str()) {
            None => {
                let mut list: Vec<String> = Vec::new();
                let ghost kv = key@;
                list.push(key);
                assert(list.deep_view() =~= seq![kv]);
                let none = String::new();
                assert(none@ =~= Seq::<char>::empty());
                (none, list)
            },
            Some(k) => {
                assert(d0.users[k as int].1 == (
                    self.users@[k as int].1.0@,
                    self.users@[k as int].1.1.deep_view(),
                ));
                let mut list = copy_texts(&self.users[k].1.1);
                if !has_entry(&list, key.as_str()) {
                    let ghost had = list.deep_view();
                    let ghost kv = key@;
                    list.push(key);
                    assert(list.deep_view() =~= had.push(kv));
                }
                (self.users[k].1.0.clone(), list)
            },
        };
        proof {
            law_set_entry(d0.users, user@, entry.deep_view(), user@);
        }
        put_entry(&mut self.users, user, entry);
    }

    /// Takes a privilege from a user.
    pub fn revoke(&mut self, key: &str, user: String)
        requires
            old(self)@.wf(),
        ensures
            final(self)@.wf(),
            final(self)@ == (DatabaseView {
                users: revoked(old(self)@.users, key@, user@),
                ..old(self)@
            }),
    {
        let ghost d0 = self@;
        if let Some(k) = find_named(&self.users, user.as_str()) {
            assert(d0.users[k as int].1 == (
                self.users@[k as int].1.0@,
                self.users@[k as int].1.1.deep_view(),
            ));
            let list = drop_texts(&self.users[k].1.1, key);
            let entry: (String, Vec<String>) = (self.users[k].1.0.clone(), list);
            proof {
                law_set_entry(d0.users, user@, entry.deep_view(), user@);
            }
            put_entry(&mut self.users, user, entry);
        }
    }
}

} // verus!
