//! Transactions, and the state that statements work on.
use crate::common::{TxnId, RID};
use crate::error::{ErrorView, ForgeError};
use crate::index::{BTreeIndex, ClusteredIndex};
use crate::state::{DmlContext, StateView};
use crate::storage::{copy_bytes, BufferPool, HeapPage, Snapshot};
use crate::text::copy_texts;
use crate::txn::{apply_undo, undone, TxnContext, UndoEntry, UndoView};
use vstd::prelude::*;

verus! {

// ---------------------------------------------------------------------------
// Transactions
// ---------------------------------------------------------------------------

/// The transactions that have begun and not ended, with what they have changed.
#[derive(Debug)]
pub struct Transactions {
    /// The number of the next transaction.
    pub next: u64,
    pub active: Vec<(TxnId, Vec<UndoEntry>)>,
}

/// [`Transactions`] as mathematical values.
pub struct TxnsView {
    pub next: u64,
    pub active: Seq<(TxnId, Seq<UndoView>)>,
}

impl View for Transactions {
    type V = TxnsView;

    open spec fn view(&self) -> TxnsView {
        TxnsView { next: self.next, active: self.active.deep_view() }
    }
}

/// The place of a transaction, from `i` on.
pub open spec fn txn_from(active: Seq<(TxnId, Seq<UndoView>)>, t: TxnId, i: int) -> Option<int>
    decreases active.len() - i,
{
    if i < 0 || i >= active.len() {
        None
    } else if active[i].0 == t {
        Some(i)
    } else {
        txn_from(active, t, i + 1)
    }
}

/// Where a transaction is found, it is there.
pub proof fn lemma_txn_from(active: Seq<(TxnId, Seq<UndoView>)>, t: TxnId, i: int)
    requires
        0 <= i,
    ensures
        txn_from(active, t, i) matches Some(k) ==> i <= k < active.len() && active[k].0 == t,
        txn_from(active, t, i) is None ==> forall|k: int|
            i <= k < active.len() ==> (#[trigger] active[k]).0 != t,
    decreases active.len() - i,
{
    if i < active.len() && active[i].0 != t {
        lemma_txn_from(active, t, i + 1);
    }
}

impl TxnsView {
    /// No two transactions have the same number, and all numbers are below the next one.
    pub open spec fn wf(self) -> bool {
        &&& forall|i: int| 0 <= i < self.active.len() ==> (#[trigger] self.active[i]).0.0 < self.next
        &&& forall|i: int, j: int|
            0 <= i < j < self.active.len() ==> (#[trigger] self.active[i]).0 != (
            #[trigger] self.active[j]).0
    }

    /// Whether a transaction has begun and not ended.
    pub open spec fn is_active(self, t: TxnId) -> bool {
        txn_from(self.active, t, 0) is Some
    }

    /// What a transaction has changed.
    pub open spec fn log(self, t: TxnId) -> Seq<UndoView> {
        match txn_from(self.active, t, 0) {
            Some(k) => self.active[k].1,
            None => Seq::empty(),
        }
    }

    /// The transactions after one more has begun.
    pub open spec fn begun(self) -> TxnsView {
        TxnsView {
            next: (self.next + 1) as u64,
            active: self.active.push((TxnId(self.next), Seq::empty())),
        }
    }

    /// The transactions after one has ended.
    pub open spec fn ended(self, t: TxnId) -> TxnsView {
        match txn_from(self.active, t, 0) {
            Some(k) => TxnsView { active: self.active.remove(k), ..self },
            None => self,
        }
    }

    /// The transactions with the log of one replaced.
    pub open spec fn with_log(self, t: TxnId, log: Seq<UndoView>) -> TxnsView {
        match txn_from(self.active, t, 0) {
            Some(k) => TxnsView { active: self.active.update(k, (t, log)), ..self },
            None => self,
        }
    }
}

/// Whether a snapshot is what a transaction sees now: itself, and what has ended.
pub open spec fn snapshot_of(s: Snapshot, txns: TxnsView, t: TxnId) -> bool {
    &&& s.txn_id == t.0
    &&& s.next_txn == txns.next
    &&& s.active@ == Seq::new(txns.active.len(), |i: int| txns.active[i].0.0)
}

impl Transactions {
    /// No transactions.
    pub fn new() -> (r: Transactions)
        ensures
            r@ == (TxnsView { next: 1, active: Seq::empty() }),
    {
        let r = Transactions { next: 1, active: Vec::new() };
        assert(r@.active =~= Seq::<(TxnId, Seq<UndoView>)>::empty());
        r
    }

    fn find(&self, t: TxnId) -> (r: Option<usize>)
        ensures
            match r {
                Some(k) => k < self.active.len() && txn_from(self@.active, t, 0) == Some(k as int),
                None => txn_from(self@.active, t, 0) is None,
            },
    {
        let ghost av = self@.active;
        let mut i: usize = 0;
        while i < self.active.len()
            invariant
                0 <= i <= self.active.len(),
                av == self@.active,
                txn_from(av, t, 0) == txn_from(av, t, i as int),
            decreases self.active.len() - i,
        {
            assert(av[i as int].0 == self.active@[i as int].0);
            if self.active[i].0 == t {
                return Some(i);
            }
            i += 1;
        }
        None
    }

    /// Whether a transaction has begun and not ended.
    pub fn is_active(&self, t: TxnId) -> (r: bool)
        ensures
            r == self@.is_active(t),
    {
        self.find(t).is_some()
    }

    /// Begins a transaction.
    pub fn begin(&mut self) -> (r: std::result::Result<TxnId, ForgeError>)
        ensures
            match r {
                Ok(t) => old(self)@.next < u64::MAX && t == TxnId(old(self)@.next) && final(self)@
                    == old(self)@.begun(),
                Err(e) => old(self)@.next == u64::MAX && *final(self) == *old(self) && e@
                    == ErrorView::Transaction("no transaction number is left"@),
            },
    {
        if self.next == u64::MAX {
            return Err(ForgeError::Transaction("no transaction number is left".to_owned()));
        }
        let ghost before = self@;
        let t = TxnId(self.next);
        self.next = self.next + 1;
        let log: Vec<UndoEntry> = Vec::new();
        assert(log.deep_view() =~= Seq::<UndoView>::empty());
        let ghost lv = log.deep_view();
        self.active.push((t, log));
        assert(self@.active =~= before.active.push((t, lv)));
        Ok(t)
    }

    /// Takes back that the last transaction has begun.
    pub fn unbegin(&mut self)
        requires
            old(self).active.len() > 0,
            old(self).next > 0,
        ensures
            final(self)@ == (TxnsView {
                next: (old(self)@.next - 1) as u64,
                active: old(self)@.active.drop_last(),
            }),
    {
        let ghost before = self@;
        let _ = self.active.pop();
        self.next = self.next - 1;
        assert(self@.active =~= before.active.drop_last());
    }

    /// Ends a transaction.
    pub fn end(&mut self, t: TxnId)
        ensures
            final(self)@ == old(self)@.ended(t),
    {
        let ghost before = self@;
        if let Some(k) = self.find(t) {
            let _ = self.active.remove(k);
            assert(self@.active =~= before.active.remove(k as int));
        }
    }

    /// How many changes a transaction has made.
    pub fn log_len(&self, t: TxnId) -> (r: usize)
        ensures
            r == self@.log(t).len(),
    {
        match self.find(t) {
            Some(k) => {
                assert(self@.active[k as int].1 == self.active@[k as int].1.deep_view());
                self.active[k].1.len()
            },
            None => 0,
        }
    }

    /// Adds to what a transaction has changed.
    pub fn add_log(&mut self, t: TxnId, log: Vec<UndoEntry>)
        ensures
            final(self)@ == old(self)@.with_log(t, old(self)@.log(t) + log.deep_view()),
    {
        let ghost before = self@;
        let ghost lv = log.deep_view();
        if let Some(k) = self.find(t) {
            assert(before.active[k as int].1 == self.active@[k as int].1.deep_view());
            let ghost was = before.active[k as int].1;
            let mut log = log;
            self.active[k].1.append(&mut log);
            assert(self.active@[k as int].1.deep_view() =~= was + lv);
            proof {
                lemma_txn_from(before.active, t, 0);
            }
            assert(self@.active =~= before.active.update(k as int, (t, was + lv)));
        }
    }

    /// Undoes what a transaction has changed since its first `from` changes.
    pub fn roll_back(&mut self, t: TxnId, from: usize, bpm: &mut BufferPool)
        ensures
            final(self)@ == old(self)@.with_log(
                t,
                kept_log(old(self)@.log(t), from as int),
            ),
            final(bpm)@ == undone(
                old(bpm)@,
                undone_log(old(self)@.log(t), from as int),
            ),
            final(bpm).next_page_id == old(bpm).next_page_id,
    {
        let ghost before = self@;
        match self.find(t) {
            None => {
                assert(undone(bpm@, Seq::empty()) == bpm@);
            },
            Some(k) => {
                assert(before.active[k as int].1 == self.active@[k as int].1.deep_view());
                let ghost log = before.active[k as int].1;
                proof {
                    lemma_txn_from(before.active, t, 0);
                }
                if from < self.active[k].1.len() {
                    apply_undo(&self.active[k].1, from, bpm);
                    self.active[k].1.truncate(from);
                    assert(self.active@[k as int].1.deep_view() =~= log.take(from as int));
                    assert(self@.active =~= before.active.update(
                        k as int,
                        (t, log.take(from as int)),
                    ));
                } else {
                    assert(undone(bpm@, Seq::empty()) == bpm@);
                    assert(self@.active =~= before.active.update(k as int, (t, log)));
                }
            },
        }
    }

    /// What a transaction sees now.
    pub fn take_snapshot(&self, t: TxnId) -> (s: Snapshot)
        ensures
            snapshot_of(s, self@, t),
    {
        let ghost av = self@.active;
        let ghost all = Seq::new(av.len(), |i: int| av[i].0.0);
        let mut active: Vec<u64> = Vec::new();
        let mut i: usize = 0;
        while i < self.active.len()
            invariant
                0 <= i <= self.active.len(),
                av == self@.active,
                all == Seq::new(av.len(), |i: int| av[i].0.0),
                active@ == all.take(i as int),
            decreases self.active.len() - i,
        {
            assert(av[i as int].0 == self.active@[i as int].0);
            let ghost had = active@;
            active.push(self.active[i].0.0);
            assert(all.take(i + 1) =~= had.push(all[i as int]));
            i += 1;
        }
        assert(all.take(all.len() as int) =~= all);
        Snapshot { txn_id: t.0, next_txn: self.next, active }
    }
}

/// The part of a log that stays when all but its first entries are undone.
pub open spec fn kept_log(log: Seq<UndoView>, from: int) -> Seq<UndoView> {
    if from < log.len() {
        log.take(from)
    } else {
        log
    }
}

/// The part of a log that is undone when its first entries stay.
pub open spec fn undone_log(log: Seq<UndoView>, from: int) -> Seq<UndoView> {
    if from < log.len() {
        log.skip(from)
    } else {
        Seq::empty()
    }
}

/// A transaction sees what it changes itself.
pub proof fn law_transaction_sees_itself(s: Snapshot, txns: TxnsView, t: TxnId)
    requires
        snapshot_of(s, txns, t),
    ensures
        s.sees(t.0),
{
}

/// A transaction does not see what another one changes that has begun and not ended.
pub proof fn law_transaction_does_not_see_others(s: Snapshot, txns: TxnsView, t: TxnId, other: TxnId)
    requires
        snapshot_of(s, txns, t),
        txns.is_active(other),
        other != t,
        other.0 != 0,
    ensures
        !s.sees(other.0),
{
    lemma_txn_from(txns.active, other, 0);
    let k = txn_from(txns.active, other, 0)->0;
    assert(s.active@[k] == other.0);
    assert(s.active@.contains(other.0));
}

// ---------------------------------------------------------------------------
// Copies
// ---------------------------------------------------------------------------

fn copy_slots(slots: &Vec<Option<Vec<u8>>>) -> (r: Vec<Option<Vec<u8>>>)
    ensures
        r.deep_view() == slots.deep_view(),
{
    let ghost all = slots.deep_view();
    let mut out: Vec<Option<Vec<u8>>> = Vec::new();
    let mut i: usize = 0;
    while i < slots.len()
        invariant
            0 <= i <= slots.len(),
            all == slots.deep_view(),
            out.len() == i,
            forall|k: int| 0 <= k < i ==> (#[trigger] out@[k]).deep_view() == all[k],
        decreases slots.len() - i,
    {
        assert(all[i as int] == slots@[i as int].deep_view());
        match &slots[i] {
            Some(b) => {
                let c = copy_bytes(b.as_slice());
                assert(b.deep_view() =~= b@);
                out.push(Some(c));
            },
            None => out.push(None),
        }
        i += 1;
    }
    assert(out.deep_view() =~= all);
    out
}

fn copy_pages(pages: &Vec<HeapPage>) -> (r: Vec<HeapPage>)
    ensures
        r.deep_view() == pages.deep_view(),
{
    let ghost all = pages.deep_view();
    let mut out: Vec<HeapPage> = Vec::new();
    let mut i: usize = 0;
    while i < pages.len()
        invariant
            0 <= i <= pages.len(),
            all == pages.deep_view(),
            out.len() == i,
            forall|k: int| 0 <= k < i ==> (#[trigger] out@[k]).deep_view() == all[k],
        decreases pages.len() - i,
    {
        let p = &pages[i];
        out.push(
            HeapPage {
                page_id: p.page_id,
                slots: copy_slots(&p.slots),
                next_page: p.next_page,
            },
        );
        i += 1;
    }
    assert(out.deep_view() =~= all);
    out
}

fn copy_index(x: &BTreeIndex) -> (r: BTreeIndex)
    ensures
        r.deep_view() == x.deep_view(),
{
    let ghost all = x.entries.deep_view();
    let mut entries: Vec<(Vec<u8>, RID)> = Vec::new();
    let mut i: usize = 0;
    while i < x.entries.len()
        invariant
            0 <= i <= x.entries.len(),
            all == x.entries.deep_view(),
            entries.len() == i,
            forall|k: int| 0 <= k < i ==> (#[trigger] entries@[k]).deep_view() == all[k],
        decreases x.entries.len() - i,
    {
        assert(all[i as int].0 =~= x.entries@[i as int].0@);
        let c = copy_bytes(x.entries[i].0.as_slice());
        entries.push((c, x.entries[i].1));
        i += 1;
    }
    assert(entries.deep_view() =~= all);
    BTreeIndex {
        key_type: x.key_type,
        table_id: x.table_id,
        column_index: x.column_index,
        columns: copy_texts(&x.columns),
        entries,
    }
}

impl DmlContext {
    /// A copy for a transaction to work on.
    pub fn copy_for(&self, txn_ctx: Option<TxnContext>) -> (r: DmlContext)
        ensures
            r@ == (StateView { txn: txn_ctx.deep_view(), ..self@ }),
    {
        let mut indexes: Vec<(String, BTreeIndex)> = Vec::new();
        let mut i: usize = 0;
        while i < self.indexes.len()
            invariant
                0 <= i <= self.indexes.len(),
                indexes.len() == i,
                forall|k: int|
                    0 <= k < i ==> (#[trigger] indexes@[k]).deep_view()
                        == self.indexes@[k].deep_view(),
            decreases self.indexes.len() - i,
        {
            indexes.push((self.indexes[i].0.clone(), copy_index(&self.indexes[i].1)));
            i += 1;
        }
        assert(indexes.deep_view() =~= self.indexes.deep_view());
        let mut clustered_indexes: Vec<(String, ClusteredIndex)> = Vec::new();
        let mut j: usize = 0;
        while j < self.clustered_indexes.len()
            invariant
                0 <= j <= self.clustered_indexes.len(),
                clustered_indexes.len() == j,
                forall|k: int|
                    0 <= k < j ==> (#[trigger] clustered_indexes@[k]).deep_view()
                        == self.clustered_indexes@[k].deep_view(),
            decreases self.clustered_indexes.len() - j,
        {
            clustered_indexes.push(
                (
                    self.clustered_indexes[j].0.clone(),
                    ClusteredIndex::create(self.clustered_indexes[j].1.key_column_index),
                ),
            );
            j += 1;
        }
        assert(clustered_indexes.deep_view() =~= self.clustered_indexes.deep_view());
        let mut counters: Vec<(String, i64)> = Vec::new();
        let mut n: usize = 0;
        while n < self.auto_increment_counters.len()
            invariant
                0 <= n <= self.auto_increment_counters.len(),
                counters.len() == n,
                forall|k: int|
                    0 <= k < n ==> (#[trigger] counters@[k]).deep_view()
                        == self.auto_increment_counters@[k].deep_view(),
            decreases self.auto_increment_counters.len() - n,
        {
            counters.push(
                (
                    self.auto_increment_counters[n].0.clone(),
                    self.auto_increment_counters[n].1,
                ),
            );
            n += 1;
        }
        assert(counters.deep_view() =~= self.auto_increment_counters.deep_view());
        DmlContext {
            bpm: BufferPool {
                pages: copy_pages(&self.bpm.pages),
                next_page_id: self.bpm.next_page_id,
            },
            indexes,
            clustered_indexes,
            auto_increment_counters: counters,
            txn_ctx,
        }
    }
}

// ---------------------------------------------------------------------------
// What begins and ends
// ---------------------------------------------------------------------------

/// A transaction that begins has a number of its own and is active; the others are as before.
pub proof fn law_begun_transaction_is_active(txns: TxnsView, other: TxnId)
    requires
        txns.wf(),
        txns.next < u64::MAX,
    ensures
        txns.begun().wf(),
        !txns.is_active(TxnId(txns.next)),
        txns.begun().is_active(TxnId(txns.next)),
        txns.begun().log(TxnId(txns.next)) == Seq::<UndoView>::empty(),
        other != TxnId(txns.next) ==> txns.begun().is_active(other) == txns.is_active(other)
            && txns.begun().log(other) == txns.log(other),
{
    let t = TxnId(txns.next);
    let after = txns.begun();
    let n = txns.active.len() as int;
    assert forall|i: int| 0 <= i < after.active.len() implies (#[trigger] after.active[i]).0.0
        < after.next by {
        if i < n {
            assert(txns.active[i].0.0 < txns.next);
        }
    }
    assert forall|i: int, j: int| 0 <= i < j < after.active.len() implies (
    #[trigger] after.active[i]).0 != (#[trigger] after.active[j]).0 by {
        assert(txns.active[i].0.0 < txns.next);
        if j < n {
            assert(txns.active[i].0 != txns.active[j].0);
        }
    }
    lemma_txn_from(txns.active, t, 0);
    lemma_txn_from(after.active, t, 0);
    assert(after.active[n].0 == t);
    if let Some(k) = txn_from(txns.active, t, 0) {
        assert(txns.active[k].0.0 < txns.next);
    }
    if let Some(k) = txn_from(after.active, t, 0) {
        if k < n {
            assert(txns.active[k].0.0 < txns.next);
        }
    }
    if other != t {
        lemma_txn_from(txns.active, other, 0);
        lemma_txn_from(after.active, other, 0);
        match txn_from(txns.active, other, 0) {
            Some(k) => {
                assert(after.active[k] == txns.active[k]);
                let m = txn_from(after.active, other, 0)->0;
                if m != k {
                    assert(m < n);
                    if m < k {
                        assert(txns.active[m].0 != txns.active[k].0);
                    } else {
                        assert(txns.active[k].0 != txns.active[m].0);
                    }
                }
            },
            None => {
                if let Some(m) = txn_from(after.active, other, 0) {
                    assert(after.active[m] == txns.active[m]);
                }
            },
        }
    }
}

/// A transaction that ended is not active any more; the others are as before.
pub proof fn law_ended_transaction_is_not_active(txns: TxnsView, t: TxnId, other: TxnId)
    requires
        txns.wf(),
    ensures
        txns.ended(t).wf(),
        !txns.ended(t).is_active(t),
        other != t ==> txns.ended(t).is_active(other) == txns.is_active(other) && txns.ended(t).log(
            other,
        ) == txns.log(other),
{
    lemma_txn_from(txns.active, t, 0);
    if let Some(k) = txn_from(txns.active, t, 0) {
        let after = txns.ended(t);
        let a = txns.active;
        assert forall|i: int| 0 <= i < after.active.len() implies #[trigger] after.active[i]
            == a[if i < k {
            i
        } else {
            i + 1
        }] by {}
        assert forall|i: int| 0 <= i < after.active.len() implies (#[trigger] after.active[i]).0.0
            < after.next by {
            let o = if i < k {
                i
            } else {
                i + 1
            };
            assert(a[o].0.0 < txns.next);
        }
        assert forall|i: int, j: int| 0 <= i < j < after.active.len() implies (
        #[trigger] after.active[i]).0 != (#[trigger] after.active[j]).0 by {
            let p = if i < k {
                i
            } else {
                i + 1
            };
            let q = if j < k {
                j
            } else {
                j + 1
            };
            assert(a[p].0 != a[q].0);
        }
        lemma_txn_from(after.active, t, 0);
        if let Some(z) = txn_from(after.active, t, 0) {
            let o = if z < k {
                z
            } else {
                z + 1
            };
            assert(after.active[z] == a[o]);
            if o < k {
                assert(a[o].0 != a[k].0);
            } else {
                assert(a[k].0 != a[o].0);
            }
        }
        if other != t {
            lemma_txn_from(a, other, 0);
            lemma_txn_from(after.active, other, 0);
            match txn_from(a, other, 0) {
                Some(q) => {
                    let at = if q < k {
                        q
                    } else {
                        q - 1
                    };
                    assert(after.active[at] == a[q]);
                    let z = txn_from(after.active, other, 0)->0;
                    if z < at {
                        assert(after.active[z].0 != after.active[at].0);
                    } else if z > at {
                        assert(after.active[at].0 != after.active[z].0);
                    }
                },
                None => {
                    if let Some(z) = txn_from(after.active, other, 0) {
                        let o = if z < k {
                            z
                        } else {
                            z + 1
                        };
                        assert(after.active[z] == a[o]);
                    }
                },
            }
        }
    }
}

/// A replaced log leaves the numbers of the transactions as they were.
pub proof fn lemma_with_log_wf(txns: TxnsView, t: TxnId, log: Seq<UndoView>)
    requires
        txns.wf(),
    ensures
        txns.with_log(t, log).wf(),
{
    lemma_txn_from(txns.active, t, 0);
    let after = txns.with_log(t, log);
    assert forall|i: int| 0 <= i < after.active.len() implies (#[trigger] after.active[i]).0
        == txns.active[i].0 by {}
    assert forall|i: int| 0 <= i < after.active.len() implies (#[trigger] after.active[i]).0.0
        < after.next by {
        assert(txns.active[i].0.0 < txns.next);
    }
    assert forall|i: int, j: int| 0 <= i < j < after.active.len() implies (
    #[trigger] after.active[i]).0 != (#[trigger] after.active[j]).0 by {
        assert(txns.active[i].0 != txns.active[j].0);
    }
}

/// What a transaction has changed is seen by every snapshot that is taken after its end.
pub proof fn law_committed_is_seen(s: Snapshot, txns: TxnsView, t: TxnId, reader: TxnId)
    requires
        txns.wf(),
        txns.is_active(t),
        snapshot_of(s, txns.ended(t), reader),
    ensures
        s.sees(t.0),
{
    law_ended_transaction_is_not_active(txns, t, t);
    lemma_txn_from(txns.active, t, 0);
    let k = txn_from(txns.active, t, 0)->0;
    assert(txns.active[k].0.0 < txns.next);
    let after = txns.ended(t).active;
    if s.active@.contains(t.0) {
        let i = choose|i: int| 0 <= i < s.active@.len() && s.active@[i] == t.0;
        assert(after[i].0.0 == t.0);
        assert(after[i].0 == t);
        lemma_found(after, t, 0, i);
    }
}

proof fn lemma_found(active: Seq<(TxnId, Seq<UndoView>)>, t: TxnId, i: int, k: int)
    requires
        0 <= i <= k < active.len(),
        active[k].0 == t,
    ensures
        txn_from(active, t, i) is Some,
    decreases active.len() - i,
{
    if active[i].0 != t {
        lemma_found(active, t, i + 1, k);
    }
}

} // verus!
