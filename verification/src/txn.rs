//! Transactions and the undoing of what they changed.
use crate::common::{TxnId, RID};
use crate::storage::{
    ids_below, law_removed_insertion, law_restored_tuple, table_tuples, tuple_at, tuple_inserted,
    tuple_replaced, tuple_restored, BufferPool, PageView, Snapshot,
};
use vstd::prelude::*;

verus! {

/// How one change of a transaction is undone.
#[derive(Debug)]
pub enum UndoEntry {
    /// A tuple was put in.
    InsertUndo { table_name: String, rid: RID },
    /// A tuple was removed.
    DeleteUndo { table_name: String, rid: RID, old_xmax: u64, old_data: Vec<u8> },
    /// A tuple was changed.
    UpdateUndo { table_name: String, rid: RID, old_data: Vec<u8> },
}

/// [`UndoEntry`] as mathematical values.
pub enum UndoView {
    InsertUndo { table_name: Seq<char>, rid: RID },
    DeleteUndo { table_name: Seq<char>, rid: RID, old_xmax: u64, old_data: Seq<u8> },
    UpdateUndo { table_name: Seq<char>, rid: RID, old_data: Seq<u8> },
}

impl DeepView for UndoEntry {
    type V = UndoView;

    open spec fn deep_view(&self) -> UndoView {
        match *self {
            UndoEntry::InsertUndo { table_name, rid } => UndoView::InsertUndo {
                table_name: table_name@,
                rid,
            },
            UndoEntry::DeleteUndo { table_name, rid, old_xmax, old_data } => UndoView::DeleteUndo {
                table_name: table_name@,
                rid,
                old_xmax,
                old_data: old_data@,
            },
            UndoEntry::UpdateUndo { table_name, rid, old_data } => UndoView::UpdateUndo {
                table_name: table_name@,
                rid,
                old_data: old_data@,
            },
        }
    }
}

/// A transaction in the course of a statement: what it sees, and what it has changed.
#[derive(Debug)]
pub struct TxnContext {
    pub txn_id: TxnId,
    pub snapshot: Snapshot,
    pub undo_log: Vec<UndoEntry>,
}

/// [`TxnContext`] as mathematical values.
pub struct TxnView {
    pub txn_id: TxnId,
    pub snapshot: Snapshot,
    pub undo_log: Seq<UndoView>,
}

impl DeepView for TxnContext {
    type V = TxnView;

    open spec fn deep_view(&self) -> TxnView {
        TxnView {
            txn_id: self.txn_id,
            snapshot: self.snapshot,
            undo_log: self.undo_log.deep_view(),
        }
    }
}

/// The pages with one change undone.
pub open spec fn entry_undone(pages: Seq<PageView>, e: UndoView) -> Seq<PageView> {
    match e {
        UndoView::InsertUndo { table_name, rid } => tuple_replaced(pages, rid, None),
        UndoView::DeleteUndo { table_name, rid, old_xmax, old_data } => tuple_restored(
            pages,
            rid,
            old_data,
        ),
        UndoView::UpdateUndo { table_name, rid, old_data } => tuple_restored(pages, rid, old_data),
    }
}

/// The pages with all changes of a log undone, the last one first.
pub open spec fn undone(pages: Seq<PageView>, log: Seq<UndoView>) -> Seq<PageView>
    decreases log.len(),
{
    if log.len() == 0 {
        pages
    } else {
        undone(entry_undone(pages, log.last()), log.drop_last())
    }
}

/// Undoes the changes of a log from entry `from` on, the last one first.
pub fn apply_undo(log: &Vec<UndoEntry>, from: usize, bpm: &mut BufferPool)
    requires
        from <= log.len(),
    ensures
        final(bpm)@ == undone(old(bpm)@, log.deep_view().skip(from as int)),
        final(bpm).next_page_id == old(bpm).next_page_id,
{
    let ghost all = log.deep_view();
    let ghost start = bpm@;
    let mut i: usize = log.len();
    assert(all.take(i as int) =~= all);
    while i > from
        invariant
            from <= i <= log.len(),
            all == log.deep_view(),
            bpm.next_page_id == old(bpm).next_page_id,
            undone(start, all.skip(from as int)) == undone(
                bpm@,
                all.subrange(from as int, i as int),
            ),
        decreases i,
    {
        i -= 1;
        let ghost rest = all.subrange(from as int, i + 1);
        assert(rest.last() == all[i as int]);
        assert(rest.drop_last() =~= all.subrange(from as int, i as int));
        assert(all[i as int] == log@[i as int].deep_view());
        match &log[i] {
            UndoEntry::InsertUndo { table_name: _, rid } => {
                let _ = bpm.delete_tuple(*rid);
            },
            UndoEntry::DeleteUndo { table_name: _, rid, old_xmax: _, old_data } => {
                bpm.restore_tuple(*rid, old_data.as_slice());
            },
            UndoEntry::UpdateUndo { table_name: _, rid, old_data } => {
                bpm.restore_tuple(*rid, old_data.as_slice());
            },
        }
    }
    assert(all.subrange(from as int, from as int) =~= Seq::<UndoView>::empty());
}

/// A removal that is undone leaves the pages as they were before it.
pub proof fn law_deletion_undone(pages: Seq<PageView>, table_name: Seq<char>, rid: RID, old_xmax: u64)
    requires
        tuple_at(pages, rid) is Some,
    ensures
        undone(
            tuple_replaced(pages, rid, None),
            seq![
                UndoView::DeleteUndo {
                    table_name,
                    rid,
                    old_xmax,
                    old_data: tuple_at(pages, rid)->0,
                },
            ],
        ) == pages,
{
    let e = UndoView::DeleteUndo { table_name, rid, old_xmax, old_data: tuple_at(pages, rid)->0 };
    law_restored_tuple(pages, rid, None);
    assert(seq![e].drop_last() =~= Seq::<UndoView>::empty());
    assert(seq![e].last() == e);
    assert(undone(pages, Seq::empty()) == pages);
}

/// An insertion that is undone leaves the table with the tuples that it held before.
pub proof fn law_insertion_undone(
    pages: Seq<PageView>,
    next: u32,
    first: u32,
    b: Seq<u8>,
    table_name: Seq<char>,
)
    requires
        ids_below(pages, next),
        tuple_inserted(pages, next, first, b).result is Ok,
    ensures
        ({
            let c = tuple_inserted(pages, next, first, b);
            table_tuples(
                undone(
                    c.pages,
                    seq![UndoView::InsertUndo { table_name, rid: c.result->Ok_0 }],
                ),
                first,
            ) == table_tuples(pages, first)
        }),
{
    let c = tuple_inserted(pages, next, first, b);
    let e = UndoView::InsertUndo { table_name, rid: c.result->Ok_0 };
    law_removed_insertion(pages, next, first, b);
    assert(seq![e].drop_last() =~= Seq::<UndoView>::empty());
    assert(seq![e].last() == e);
    let p = entry_undone(c.pages, e);
    assert(undone(p, Seq::empty()) == p);
}

/// To undo a log is to undo its later part first, then its earlier part.
pub proof fn law_undone_in_parts(pages: Seq<PageView>, a: Seq<UndoView>, b: Seq<UndoView>)
    ensures
        undone(pages, a + b) == undone(undone(pages, b), a),
    decreases b.len(),
{
    if b.len() == 0 {
        assert(a + b =~= a);
    } else {
        assert((a + b).last() == b.last());
        assert((a + b).drop_last() =~= a + b.drop_last());
        law_undone_in_parts(entry_undone(pages, b.last()), a, b.drop_last());
    }
}

} // verus!
