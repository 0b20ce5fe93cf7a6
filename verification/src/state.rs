//! What statements work on, and what they give back.
use crate::catalog::Catalog;
use crate::error::{ErrorView, Result};
use crate::index::{BTreeIndex, ClusteredIndex, ClusteredView, IndexView};
use crate::storage::{BufferPool, PageView};
use crate::text::{same_text, show_u64, nat_text};
use crate::txn::{TxnContext, TxnView};
use crate::types::{Value, ValueView};
use vstd::prelude::*;

verus! {

// ---------------------------------------------------------------------------
// Results
// ---------------------------------------------------------------------------

/// Result of executing a SQL statement.
#[derive(Debug)]
pub struct ExecuteResult {
    pub rows: Vec<Vec<Value>>,
    pub columns: Vec<String>,
    pub rows_affected: usize,
    pub last_insert_id: u64,
    pub message: String,
}

/// [`ExecuteResult`] as mathematical values.
pub struct ResultView {
    pub rows: Seq<Seq<ValueView>>,
    pub columns: Seq<Seq<char>>,
    pub rows_affected: int,
    pub last_insert_id: u64,
    pub message: Seq<char>,
}

impl DeepView for ExecuteResult {
    type V = ResultView;

    open spec fn deep_view(&self) -> ResultView {
        ResultView {
            rows: self.rows.deep_view(),
            columns: self.columns.deep_view(),
            rows_affected: self.rows_affected as int,
            last_insert_id: self.last_insert_id,
            message: self.message@,
        }
    }
}

/// A result without rows.
pub open spec fn report(message: Seq<char>, affected: int, last: u64) -> ResultView {
    ResultView {
        rows: Seq::empty(),
        columns: Seq::empty(),
        rows_affected: affected,
        last_insert_id: last,
        message,
    }
}

/// A result of rows, without a message.
pub open spec fn answer(columns: Seq<Seq<char>>, rows: Seq<Seq<ValueView>>) -> ResultView {
    ResultView {
        rows,
        columns,
        rows_affected: 0,
        last_insert_id: 0,
        message: Seq::empty(),
    }
}

impl ExecuteResult {
    /// A result without rows.
    pub fn report(message: String, affected: usize, last: u64) -> (r: ExecuteResult)
        ensures
            r.deep_view() == report(message@, affected as int, last),
    {
        let r = ExecuteResult {
            rows: Vec::new(),
            columns: Vec::new(),
            rows_affected: affected,
            last_insert_id: last,
            message,
        };
        assert(r.rows.deep_view() =~= Seq::<Seq<ValueView>>::empty());
        assert(r.columns.deep_view() =~= Seq::<Seq<char>>::empty());
        r
    }

    /// A result of rows, without a message.
    pub fn answer(columns: Vec<String>, rows: Vec<Vec<Value>>) -> (r: ExecuteResult)
        ensures
            r.deep_view() == answer(columns.deep_view(), rows.deep_view()),
    {
        let r = ExecuteResult {
            rows,
            columns,
            rows_affected: 0,
            last_insert_id: 0,
            message: String::new(),
        };
        assert(r.message@ =~= Seq::<char>::empty());
        r
    }
}

/// How many rows a change affected, in words.
pub open spec fn affected_text(n: int) -> Seq<char> {
    "("@ + nat_text(n as nat) + " row(s) affected)"@
}

/// The result of a change of rows.
pub open spec fn affected(n: int, last: u64) -> ResultView {
    report(affected_text(n), n, last)
}

/// The result of a change of rows.
pub fn affected_result(n: usize, last: u64) -> (r: ExecuteResult)
    ensures
        r.deep_view() == affected(n as int, last),
{
    let mut s = "(".to_owned();
    s.append(show_u64(n as u64).as_str());
    s.append(" row(s) affected)");
    ExecuteResult::report(s, n, last)
}

// ---------------------------------------------------------------------------
// State
// ---------------------------------------------------------------------------

/// What a change of rows works on: pages, indexes and counters, and the transaction that it
/// is part of.
#[derive(Debug)]
pub struct DmlContext {
    pub bpm: BufferPool,
    /// Indexes, named after their table and columns.
    pub indexes: Vec<(String, BTreeIndex)>,
    /// Clustered indexes by the lowercase names of their tables.
    pub clustered_indexes: Vec<(String, ClusteredIndex)>,
    /// The last numbers given out, by table and column in lowercase.
    pub auto_increment_counters: Vec<(String, i64)>,
    pub txn_ctx: Option<TxnContext>,
}

/// [`DmlContext`] as mathematical values.
pub struct StateView {
    pub pages: Seq<PageView>,
    pub next_page: u32,
    pub indexes: Seq<(Seq<char>, IndexView)>,
    pub clustered: Seq<(Seq<char>, ClusteredView)>,
    pub counters: Seq<(Seq<char>, i64)>,
    pub txn: Option<TxnView>,
}

impl View for DmlContext {
    type V = StateView;

    open spec fn view(&self) -> StateView {
        StateView {
            pages: self.bpm@,
            next_page: self.bpm.next_page_id,
            indexes: self.indexes.deep_view(),
            clustered: self.clustered_indexes.deep_view(),
            counters: self.auto_increment_counters.deep_view(),
            txn: self.txn_ctx.deep_view(),
        }
    }
}

/// What everything that defines or removes tables works on.
#[derive(Debug)]
pub struct ExecutorContext {
    pub catalog: Catalog,
    pub dml: DmlContext,
}

/// What queries read.
#[derive(Debug)]
pub struct ReadContext<'a> {
    pub bpm: &'a BufferPool,
    pub catalog: &'a Catalog,
    pub indexes: &'a Vec<(String, BTreeIndex)>,
    pub clustered_indexes: &'a Vec<(String, ClusteredIndex)>,
    pub txn_ctx: Option<&'a TxnContext>,
}

/// [`ReadContext`] as mathematical values.
pub struct ReadView {
    pub catalog: Catalog,
    pub pages: Seq<PageView>,
    pub indexes: Seq<(Seq<char>, IndexView)>,
    pub clustered: Seq<(Seq<char>, ClusteredView)>,
    pub txn: Option<TxnView>,
}

impl<'a> View for ReadContext<'a> {
    type V = ReadView;

    open spec fn view(&self) -> ReadView {
        ReadView {
            catalog: *self.catalog,
            pages: self.bpm@,
            indexes: self.indexes.deep_view(),
            clustered: self.clustered_indexes.deep_view(),
            txn: self.txn_ctx.deep_view(),
        }
    }
}

/// What queries read of a state.
pub open spec fn readable(c: Catalog, st: StateView) -> ReadView {
    ReadView {
        catalog: c,
        pages: st.pages,
        indexes: st.indexes,
        clustered: st.clustered,
        txn: st.txn,
    }
}

impl DmlContext {
    /// What queries read.
    pub fn readable<'a>(&'a self, catalog: &'a Catalog) -> (r: ReadContext<'a>)
        ensures
            r@ == readable(*catalog, self@),
    {
        let txn_ctx: Option<&'a TxnContext> = match &self.txn_ctx {
            Some(t) => Some(t),
            None => None,
        };
        ReadContext {
            bpm: &self.bpm,
            catalog,
            indexes: &self.indexes,
            clustered_indexes: &self.clustered_indexes,
            txn_ctx,
        }
    }
}

/// A state and what a statement that led to it gave back.
pub struct Step<T> {
    pub state: StateView,
    pub result: std::result::Result<T, ErrorView>,
}

/// The first entry with a name, from `i` on.
pub open spec fn named_from<T>(entries: Seq<(Seq<char>, T)>, name: Seq<char>, i: int) -> Option<int>
    decreases entries.len() - i,
{
    if i < 0 || i >= entries.len() {
        None
    } else if entries[i].0 == name {
        Some(i)
    } else {
        named_from(entries, name, i + 1)
    }
}

/// Where an entry is found, it has the name, and none before it has.
pub proof fn lemma_named_from<T>(entries: Seq<(Seq<char>, T)>, name: Seq<char>, i: int)
    requires
        0 <= i,
    ensures
        named_from(entries, name, i) matches Some(k) ==> i <= k < entries.len() && entries[k].0
            == name,
        named_from(entries, name, i) is None ==> forall|k: int|
            i <= k < entries.len() ==> (#[trigger] entries[k]).0 != name,
    decreases entries.len() - i,
{
    if i < entries.len() && entries[i].0 != name {
        lemma_named_from(entries, name, i + 1);
    }
}

/// The first entry with a name.
pub fn find_named<T: DeepView>(entries: &Vec<(String, T)>, name: &str) -> (r: Option<usize>)
    ensures
        match r {
            Some(k) => k < entries.len() && named_from(entries.deep_view(), name@, 0) == Some(
                k as int,
            ),
            None => named_from(entries.deep_view(), name@, 0) is None,
        },
{
    let ghost ev = entries.deep_view();
    let mut i: usize = 0;
    while i < entries.len()
        invariant
            0 <= i <= entries.len(),
            ev == entries.deep_view(),
            named_from(ev, name@, 0) == named_from(ev, name@, i as int),
        decreases entries.len() - i,
    {
        assert(ev[i as int].0 == entries@[i as int].0@);
        if same_text(entries[i].0.as_str(), name) {
            return Some(i);
        }
        i += 1;
    }
    None
}

} // verus!
