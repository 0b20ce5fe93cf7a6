//! What a transaction that is rolled back leaves behind: the tables as they were.
use crate::aggregate::RowView;
use crate::ast::{Expr, OnConflict, OnConflictAction};
use crate::catalog::{Catalog, TableInfo};
use crate::common::{INVALID_PAGE_ID, RID, TxnId};
use crate::delete::{deleted, lemma_delete_keeps, row_gone, row_replaced};
use crate::engine::{changed_in, rolled_back, rows_changed, EngineView};
use crate::executor::{changed, plan_rows, Answer, Purpose};
use crate::host::HostView;
use crate::index_scan::row_at;
use crate::insert::{
    defaulted, duplicate, inserted, numbered_from, row_given, row_inserted, row_stored,
    rows_inserted, txn_number, versioned,
};
use crate::plan::PlanNode;
use crate::scan::{table_of, table_rows};
use crate::state::{readable, StateView};
use crate::storage::{
    chain, has_room, ids_below, law_inserted_tuple_is_read, law_restored_tuple, lemma_chain_end,
    lemma_chain_first, lemma_chain_within, lemma_inserted_place, lemma_page_from, page_from,
    page_tuples, table_tuples, tuple_at, tuple_inserted, tuple_replaced, tuple_restored, tuples_of,
    with_tuple, PageView, RawView,
};
use crate::transactions::{lemma_txn_from, txn_from, undone_log};
use crate::tuple::serialized;
use crate::txn::{entry_undone, law_undone_in_parts, undone, TxnView, UndoView};
use crate::types::ValueView;
use crate::update::{assigned_from, row_updated, rows_updated, updated};
use vstd::prelude::*;

verus! {

// ---------------------------------------------------------------------------
// Pages that have only grown
// ---------------------------------------------------------------------------

/// Whether a page holds what another held, with empty slots behind it.
pub open spec fn page_grown(p: PageView, q: PageView) -> bool {
    &&& q.page_id == p.page_id
    &&& p.slots.len() <= q.slots.len()
    &&& forall|s: int| 0 <= s < p.slots.len() ==> #[trigger] q.slots[s] == p.slots[s]
    &&& forall|s: int| p.slots.len() <= s < q.slots.len() ==> (#[trigger] q.slots[s]) is None
}

/// Whether all slots of a page are empty.
pub open spec fn page_empty(q: PageView) -> bool {
    forall|s: int| 0 <= s < q.slots.len() ==> (#[trigger] q.slots[s]) is None
}

/// Whether a page is followed by one at a place from `from` on.
pub open spec fn followed(pages: Seq<PageView>, next: u32, from: int) -> bool {
    exists|j: int| from <= j < pages.len() && (#[trigger] pages[j]).page_id.0 == next
}

/// Whether pages hold the tuples that others held, at the same places, with nothing but empty
/// slots and empty pages added.
pub open spec fn grown(p: Seq<PageView>, q: Seq<PageView>) -> bool {
    &&& p.len() <= q.len()
    &&& forall|i: int| 0 <= i < p.len() ==> page_grown(p[i], #[trigger] q[i])
    &&& forall|i: int|
        0 <= i < p.len() ==> (#[trigger] q[i]).next_page == p[i].next_page || (p[i].next_page
            == INVALID_PAGE_ID && followed(q, q[i].next_page, p.len() as int))
    &&& forall|i: int| p.len() <= i < q.len() ==> page_empty(#[trigger] q[i])
    &&& forall|i: int|
        p.len() <= i < q.len() ==> (#[trigger] q[i]).next_page == INVALID_PAGE_ID || followed(
            q,
            q[i].next_page,
            i + 1,
        )
    &&& forall|i: int|
        p.len() <= i < q.len() ==> page_from(q, (#[trigger] q[i]).page_id.0, 0) == Some(i)
    &&& forall|i: int| p.len() <= i < q.len() ==> (#[trigger] q[i]).page_id.0 != INVALID_PAGE_ID
}

proof fn lemma_prefix_page_from(p: Seq<PageView>, q: Seq<PageView>, id: u32, i: int)
    requires
        0 <= i,
        p.len() <= q.len(),
        forall|k: int| 0 <= k < p.len() ==> (#[trigger] q[k]).page_id == p[k].page_id,
    ensures
        page_from(p, id, i) is Some ==> page_from(q, id, i) == page_from(p, id, i),
        page_from(p, id, i) is None && page_from(q, id, i) is Some ==> page_from(q, id, i)->0
            >= p.len(),
    decreases p.len() - i,
{
    lemma_page_from(q, id, i);
    if i < p.len() {
        assert(q[i].page_id == p[i].page_id);
        if p[i].page_id.0 != id {
            lemma_prefix_page_from(p, q, id, i + 1);
        }
    }
}

/// Pages hold what they hold.
proof fn lemma_grown_reflexive(p: Seq<PageView>)
    ensures
        grown(p, p),
{
}

proof fn lemma_grown_transitive(a: Seq<PageView>, b: Seq<PageView>, c: Seq<PageView>)
    requires
        grown(a, b),
        grown(b, c),
    ensures
        grown(a, c),
{
    assert forall|i: int| 0 <= i < a.len() implies page_grown(a[i], #[trigger] c[i]) by {
        assert(page_grown(a[i], b[i]));
        assert(page_grown(b[i], c[i]));
        assert forall|s: int| 0 <= s < a[i].slots.len() implies #[trigger] c[i].slots[s]
            == a[i].slots[s] by {
            assert(b[i].slots[s] == a[i].slots[s]);
        }
        assert forall|s: int| a[i].slots.len() <= s < c[i].slots.len() implies (
        #[trigger] c[i].slots[s]) is None by {
            if s < b[i].slots.len() {
                assert(b[i].slots[s] is None);
            }
        }
    }
    assert forall|i: int| 0 <= i < a.len() implies (#[trigger] c[i]).next_page == a[i].next_page
        || (a[i].next_page == INVALID_PAGE_ID && followed(c, c[i].next_page, a.len() as int)) by {
        assert(page_grown(b[i], c[i]));
        assert(b[i].next_page == a[i].next_page || (a[i].next_page == INVALID_PAGE_ID && followed(
            b,
            b[i].next_page,
            a.len() as int,
        )));
        if b[i].next_page != a[i].next_page {
            let j = choose|j: int| a.len() <= j < b.len() && (#[trigger] b[j]).page_id.0
                == b[i].next_page;
            assert(b[j].page_id.0 != INVALID_PAGE_ID);
            assert(page_grown(b[j], c[j]));
            assert(c[j].page_id.0 == b[i].next_page);
        } else if c[i].next_page != b[i].next_page {
            let j = choose|j: int| b.len() <= j < c.len() && (#[trigger] c[j]).page_id.0
                == c[i].next_page;
            assert(c[j].page_id.0 == c[i].next_page);
        }
    }
    assert forall|i: int| a.len() <= i < c.len() implies page_empty(#[trigger] c[i]) by {
        if i < b.len() {
            assert(page_grown(b[i], c[i]));
            assert(page_empty(b[i]));
            assert forall|s: int| 0 <= s < c[i].slots.len() implies (
            #[trigger] c[i].slots[s]) is None by {
                if s < b[i].slots.len() {
                    assert(b[i].slots[s] is None);
                }
            }
        }
    }
    assert forall|i: int| a.len() <= i < c.len() implies (#[trigger] c[i]).next_page
        == INVALID_PAGE_ID || followed(c, c[i].next_page, i + 1) by {
        if i < b.len() {
            assert(page_grown(b[i], c[i]));
            assert(b[i].next_page == INVALID_PAGE_ID || followed(b, b[i].next_page, i + 1));
            if c[i].next_page == b[i].next_page {
                if b[i].next_page != INVALID_PAGE_ID {
                    let j = choose|j: int| i + 1 <= j < b.len() && (#[trigger] b[j]).page_id.0
                        == b[i].next_page;
                    assert(page_grown(b[j], c[j]));
                    assert(c[j].page_id.0 == c[i].next_page);
                }
            } else {
                let j = choose|j: int| b.len() <= j < c.len() && (#[trigger] c[j]).page_id.0
                    == c[i].next_page;
                assert(c[j].page_id.0 == c[i].next_page);
            }
        }
    }
    assert forall|i: int| a.len() <= i < c.len() implies page_from(
        c,
        (#[trigger] c[i]).page_id.0,
        0,
    ) == Some(i) by {
        if i < b.len() {
            assert(page_grown(b[i], c[i]));
            assert(page_from(b, b[i].page_id.0, 0) == Some(i));
            lemma_prefix_page_from(b, c, b[i].page_id.0, 0);
        }
    }
    assert forall|i: int| a.len() <= i < c.len() implies (#[trigger] c[i]).page_id.0
        != INVALID_PAGE_ID by {
        if i < b.len() {
            assert(page_grown(b[i], c[i]));
            assert(b[i].page_id.0 != INVALID_PAGE_ID);
        }
    }
}

// ---------------------------------------------------------------------------
// Tables on pages that have only grown
// ---------------------------------------------------------------------------

proof fn lemma_added_chain(p: Seq<PageView>, q: Seq<PageView>, j: int, fuel: nat)
    requires
        grown(p, q),
        p.len() <= j < q.len(),
        fuel >= q.len() - j,
    ensures
        chain(q, q[j].page_id.0, fuel) is Ok,
        forall|k: int|
            0 <= k < chain(q, q[j].page_id.0, fuel)->Ok_0.len() ==> p.len() <= #[trigger] chain(
                q,
                q[j].page_id.0,
                fuel,
            )->Ok_0[k] < q.len(),
    decreases q.len() - j,
{
    assert(page_from(q, q[j].page_id.0, 0) == Some(j));
    assert(q[j].page_id.0 != INVALID_PAGE_ID);
    let n = q[j].next_page;
    if n != INVALID_PAGE_ID {
        assert(followed(q, n, j + 1));
        let m = choose|m: int| j + 1 <= m < q.len() && (#[trigger] q[m]).page_id.0 == n;
        lemma_added_chain(p, q, m, (fuel - 1) as nat);
    }
}

proof fn lemma_grown_chain(p: Seq<PageView>, q: Seq<PageView>, first: u32, fuel: nat)
    requires
        grown(p, q),
        chain(p, first, fuel) is Ok,
    ensures
        ({
            let s = chain(p, first, fuel)->Ok_0;
            let r = chain(q, first, (fuel + q.len() - p.len()) as nat);
            &&& r is Ok
            &&& r->Ok_0.len() >= s.len()
            &&& forall|k: int| 0 <= k < s.len() ==> #[trigger] r->Ok_0[k] == s[k]
            &&& forall|k: int|
                s.len() <= k < r->Ok_0.len() ==> p.len() <= #[trigger] r->Ok_0[k] < q.len()
        }),
    decreases fuel,
{
    let more = (fuel + q.len() - p.len()) as nat;
    if first != INVALID_PAGE_ID {
        assert(fuel > 0);
        lemma_page_from(p, first, 0);
        let i = page_from(p, first, 0)->0;
        assert forall|k: int| 0 <= k < p.len() implies (#[trigger] q[k]).page_id
            == p[k].page_id by {
            assert(page_grown(p[k], q[k]));
        }
        lemma_prefix_page_from(p, q, first, 0);
        assert(page_grown(p[i], q[i]));
        let rest = (fuel - 1) as nat;
        assert(chain(p, p[i].next_page, rest) is Ok);
        let sr = chain(p, p[i].next_page, rest)->Ok_0;
        let tail = (more - 1) as nat;
        if q[i].next_page == p[i].next_page {
            lemma_grown_chain(p, q, p[i].next_page, rest);
            assert(tail == (rest + q.len() - p.len()) as nat);
        } else {
            assert(followed(q, q[i].next_page, p.len() as int));
            let j = choose|j: int| p.len() <= j < q.len() && (#[trigger] q[j]).page_id.0
                == q[i].next_page;
            lemma_added_chain(p, q, j, tail);
            assert(sr.len() == 0);
        }
        let rr = chain(q, q[i].next_page, tail)->Ok_0;
        let s = chain(p, first, fuel)->Ok_0;
        let r = chain(q, first, more)->Ok_0;
        assert(s == seq![i] + sr);
        assert(r == seq![i] + rr);
        assert forall|k: int| 0 <= k < s.len() implies #[trigger] r[k] == s[k] by {
            if k > 0 {
                assert(rr[k - 1] == sr[k - 1]);
            }
        }
        assert forall|k: int| s.len() <= k < r.len() implies p.len() <= #[trigger] r[k]
            < q.len() by {
            assert(r[k] == rr[k - 1]);
        }
    }
}

proof fn lemma_grown_page_tuples(p: PageView, q: PageView, n: int)
    requires
        page_grown(p, q),
        0 <= n <= q.slots.len(),
    ensures
        n <= p.slots.len() ==> page_tuples(q, n) == page_tuples(p, n),
        n > p.slots.len() ==> page_tuples(q, n) == page_tuples(p, p.slots.len() as int),
    decreases n,
{
    if n > 0 {
        lemma_grown_page_tuples(p, q, n - 1);
        assert(n - 1 < p.slots.len() ==> q.slots[n - 1] == p.slots[n - 1]);
        assert(n - 1 >= p.slots.len() ==> q.slots[n - 1] is None);
    }
}

proof fn lemma_empty_page_tuples(q: PageView, n: int)
    requires
        page_empty(q),
        0 <= n <= q.slots.len(),
    ensures
        page_tuples(q, n) == Seq::<RawView>::empty(),
    decreases n,
{
    if n > 0 {
        lemma_empty_page_tuples(q, n - 1);
        assert(q.slots[n - 1] is None);
    }
}

proof fn lemma_grown_tuples_of(p: Seq<PageView>, q: Seq<PageView>, s: Seq<int>, r: Seq<int>)
    requires
        grown(p, q),
        s.len() <= r.len(),
        forall|k: int| 0 <= k < s.len() ==> 0 <= #[trigger] s[k] < p.len(),
        forall|k: int| 0 <= k < s.len() ==> #[trigger] r[k] == s[k],
        forall|k: int| s.len() <= k < r.len() ==> p.len() <= #[trigger] r[k] < q.len(),
    ensures
        tuples_of(q, r) == tuples_of(p, s),
    decreases r.len(),
{
    if r.len() > 0 {
        let l = r.last();
        assert(r[r.len() - 1] == l);
        if r.len() > s.len() {
            assert forall|k: int| s.len() <= k < r.drop_last().len() implies p.len()
                <= #[trigger] r.drop_last()[k] < q.len() by {
                assert(r[k] == r.drop_last()[k]);
            }
            assert forall|k: int| 0 <= k < s.len() implies #[trigger] r.drop_last()[k] == s[k] by {
                assert(r[k] == s[k]);
            }
            lemma_grown_tuples_of(p, q, s, r.drop_last());
            assert(page_empty(q[l]));
            lemma_empty_page_tuples(q[l], q[l].slots.len() as int);
            assert(tuples_of(q, r) =~= tuples_of(q, r.drop_last()));
        } else {
            assert forall|k: int| 0 <= k < s.drop_last().len() implies #[trigger] r.drop_last()[k]
                == s.drop_last()[k] by {
                assert(r[k] == s[k]);
            }
            assert forall|k: int| 0 <= k < s.drop_last().len() implies 0 <= #[trigger] s.drop_last()[k]
                < p.len() by {
                assert(0 <= s[k] < p.len());
            }
            lemma_grown_tuples_of(p, q, s.drop_last(), r.drop_last());
            assert(s[s.len() - 1] == l);
            assert(page_grown(p[l], q[l]));
            lemma_grown_page_tuples(p[l], q[l], q[l].slots.len() as int);
        }
    }
}

/// A table holds the same tuples on pages that have only grown.
pub proof fn law_grown_pages_hold_the_same(p: Seq<PageView>, q: Seq<PageView>, first: u32)
    requires
        grown(p, q),
        table_tuples(p, first) is Ok,
    ensures
        table_tuples(q, first) == table_tuples(p, first),
{
    let s = chain(p, first, p.len())->Ok_0;
    lemma_chain_within(p, first, p.len());
    lemma_grown_chain(p, q, first, p.len());
    assert((p.len() + q.len() - p.len()) as nat == q.len());
    let r = chain(q, first, q.len())->Ok_0;
    lemma_grown_tuples_of(p, q, s, r);
}

// ---------------------------------------------------------------------------
// Undoing on pages that have only grown
// ---------------------------------------------------------------------------

/// Whether there is a slot, empty or not.
pub open spec fn slot_there(pages: Seq<PageView>, rid: RID) -> bool {
    match page_from(pages, rid.page_id.0, 0) {
        Some(i) => rid.slot_id < pages[i].slots.len(),
        None => false,
    }
}

/// The slot into which an entry of a log puts something back, if it does.
pub open spec fn put_back(e: UndoView) -> Option<RID> {
    match e {
        UndoView::InsertUndo { table_name, rid } => None,
        UndoView::DeleteUndo { table_name, rid, old_xmax, old_data } => Some(rid),
        UndoView::UpdateUndo { table_name, rid, old_data } => Some(rid),
    }
}

/// Whether all slots into which a log puts something back are there.
pub open spec fn undoable(pages: Seq<PageView>, log: Seq<UndoView>) -> bool {
    forall|k: int|
        0 <= k < log.len() ==> (put_back(#[trigger] log[k]) matches Some(rid) ==> slot_there(
            pages,
            rid,
        ))
}

/// Whether pages have the same slots, whatever these hold.
pub open spec fn same_slots(p: Seq<PageView>, q: Seq<PageView>) -> bool {
    &&& p.len() == q.len()
    &&& forall|i: int|
        0 <= i < p.len() ==> (#[trigger] q[i]).page_id == p[i].page_id && q[i].slots.len()
            == p[i].slots.len() && q[i].next_page == p[i].next_page
}

proof fn lemma_same_slots(p: Seq<PageView>, q: Seq<PageView>, rid: RID)
    requires
        same_slots(p, q),
    ensures
        slot_there(p, rid) == slot_there(q, rid),
        page_from(q, rid.page_id.0, 0) == page_from(p, rid.page_id.0, 0),
{
    lemma_prefix_page_from(p, q, rid.page_id.0, 0);
    lemma_prefix_page_from(q, p, rid.page_id.0, 0);
    lemma_page_from(p, rid.page_id.0, 0);
    lemma_page_from(q, rid.page_id.0, 0);
}

proof fn lemma_entry_same_slots(pages: Seq<PageView>, e: UndoView)
    ensures
        same_slots(pages, entry_undone(pages, e)),
{
    match e {
        UndoView::InsertUndo { table_name, rid } => {
            lemma_page_from(pages, rid.page_id.0, 0);
        },
        UndoView::DeleteUndo { table_name, rid, old_xmax, old_data } => {
            lemma_page_from(pages, rid.page_id.0, 0);
        },
        UndoView::UpdateUndo { table_name, rid, old_data } => {
            lemma_page_from(pages, rid.page_id.0, 0);
        },
    }
}

proof fn lemma_grown_slot(p: Seq<PageView>, q: Seq<PageView>, rid: RID)
    requires
        grown(p, q),
        slot_there(p, rid),
    ensures
        slot_there(q, rid),
        page_from(q, rid.page_id.0, 0) == page_from(p, rid.page_id.0, 0),
        tuple_at(q, rid) == tuple_at(p, rid),
{
    assert forall|k: int| 0 <= k < p.len() implies (#[trigger] q[k]).page_id == p[k].page_id by {
        assert(page_grown(p[k], q[k]));
    }
    lemma_prefix_page_from(p, q, rid.page_id.0, 0);
    lemma_page_from(p, rid.page_id.0, 0);
    let i = page_from(p, rid.page_id.0, 0)->0;
    assert(page_grown(p[i], q[i]));
    assert(q[i].slots[rid.slot_id as int] == p[i].slots[rid.slot_id as int]);
}

proof fn lemma_grown_no_slot(p: Seq<PageView>, q: Seq<PageView>, rid: RID)
    requires
        grown(p, q),
        !slot_there(p, rid),
    ensures
        tuple_at(q, rid) is None,
        tuple_at(p, rid) is None,
{
    assert forall|k: int| 0 <= k < p.len() implies (#[trigger] q[k]).page_id == p[k].page_id by {
        assert(page_grown(p[k], q[k]));
    }
    lemma_prefix_page_from(p, q, rid.page_id.0, 0);
    lemma_page_from(p, rid.page_id.0, 0);
    lemma_page_from(q, rid.page_id.0, 0);
    if let Some(i) = page_from(q, rid.page_id.0, 0) {
        if i < p.len() {
            assert(page_grown(p[i], q[i]));
            if rid.slot_id < q[i].slots.len() {
                assert(q[i].slots[rid.slot_id as int] is None);
            }
        } else {
            assert(page_empty(q[i]));
            if rid.slot_id < q[i].slots.len() {
                assert(q[i].slots[rid.slot_id as int] is None);
            }
        }
    }
}

/// A slot is written alike on pages and on pages that have grown from them.
proof fn lemma_grown_write(p: Seq<PageView>, q: Seq<PageView>, rid: RID, b: Option<Seq<u8>>)
    requires
        grown(p, q),
        slot_there(p, rid),
    ensures
        ({
            let i = page_from(p, rid.page_id.0, 0)->0;
            grown(
                p.update(i, PageView { slots: p[i].slots.update(rid.slot_id as int, b), ..p[i] }),
                q.update(i, PageView { slots: q[i].slots.update(rid.slot_id as int, b), ..q[i] }),
            )
        }),
{
    lemma_page_from(p, rid.page_id.0, 0);
    let i = page_from(p, rid.page_id.0, 0)->0;
    let s = rid.slot_id as int;
    assert(page_grown(p[i], q[i]));
    let p2 = p.update(i, PageView { slots: p[i].slots.update(s, b), ..p[i] });
    let q2 = q.update(i, PageView { slots: q[i].slots.update(s, b), ..q[i] });
    assert forall|k: int| 0 <= k < p2.len() implies page_grown(p2[k], #[trigger] q2[k]) by {
        assert(page_grown(p[k], q[k]));
        if k == i {
            assert forall|z: int| 0 <= z < p2[k].slots.len() implies #[trigger] q2[k].slots[z]
                == p2[k].slots[z] by {
                if z != s {
                    assert(q[k].slots[z] == p[k].slots[z]);
                }
            }
            assert forall|z: int| p2[k].slots.len() <= z < q2[k].slots.len() implies (
            #[trigger] q2[k].slots[z]) is None by {
                assert(q[k].slots[z] is None);
            }
        }
    }
    assert forall|k: int| 0 <= k < q.len() implies (#[trigger] q2[k]).page_id == q[k].page_id
        && q2[k].next_page == q[k].next_page by {}
    assert forall|k: int| 0 <= k < p2.len() implies (#[trigger] q2[k]).next_page
        == p2[k].next_page || (p2[k].next_page == INVALID_PAGE_ID && followed(
        q2,
        q2[k].next_page,
        p2.len() as int,
    )) by {
        assert(q[k].next_page == p[k].next_page || (p[k].next_page == INVALID_PAGE_ID && followed(
            q,
            q[k].next_page,
            p.len() as int,
        )));
        if q[k].next_page != p[k].next_page {
            let j = choose|j: int| p.len() <= j < q.len() && (#[trigger] q[j]).page_id.0
                == q[k].next_page;
            assert(q2[j].page_id.0 == q2[k].next_page);
        }
    }
    assert forall|k: int| p2.len() <= k < q2.len() implies (#[trigger] q2[k]).next_page
        == INVALID_PAGE_ID || followed(q2, q2[k].next_page, k + 1) by {
        assert(q2[k] == q[k]);
        if q[k].next_page != INVALID_PAGE_ID {
            assert(followed(q, q[k].next_page, k + 1));
            let j = choose|j: int| k + 1 <= j < q.len() && (#[trigger] q[j]).page_id.0
                == q[k].next_page;
            assert(q2[j].page_id.0 == q2[k].next_page);
        }
    }
    assert forall|k: int| p2.len() <= k < q2.len() implies page_from(
        q2,
        (#[trigger] q2[k]).page_id.0,
        0,
    ) == Some(k) by {
        assert(q2[k] == q[k]);
        assert(page_from(q, q[k].page_id.0, 0) == Some(k));
        lemma_prefix_page_from(q, q2, q[k].page_id.0, 0);
    }
    assert forall|k: int| p2.len() <= k < q2.len() implies page_empty(#[trigger] q2[k])
        && q2[k].page_id.0 != INVALID_PAGE_ID by {
        assert(q2[k] == q[k]);
        assert(page_empty(q[k]));
        assert(q[k].page_id.0 != INVALID_PAGE_ID);
    }
}

proof fn lemma_grown_entry_undone(p: Seq<PageView>, q: Seq<PageView>, e: UndoView)
    requires
        grown(p, q),
        put_back(e) matches Some(rid) ==> slot_there(p, rid),
    ensures
        grown(entry_undone(p, e), entry_undone(q, e)),
{
    match e {
        UndoView::InsertUndo { table_name, rid } => {
            if slot_there(p, rid) {
                lemma_grown_slot(p, q, rid);
                if tuple_at(p, rid) is Some {
                    lemma_grown_write(p, q, rid, None);
                }
            } else {
                lemma_grown_no_slot(p, q, rid);
            }
        },
        UndoView::DeleteUndo { table_name, rid, old_xmax, old_data } => {
            lemma_grown_slot(p, q, rid);
            lemma_grown_write(p, q, rid, Some(old_data));
        },
        UndoView::UpdateUndo { table_name, rid, old_data } => {
            lemma_grown_slot(p, q, rid);
            lemma_grown_write(p, q, rid, Some(old_data));
        },
    }
}

proof fn lemma_grown_undone(p: Seq<PageView>, q: Seq<PageView>, log: Seq<UndoView>)
    requires
        grown(p, q),
        undoable(p, log),
    ensures
        grown(undone(p, log), undone(q, log)),
    decreases log.len(),
{
    if log.len() > 0 {
        let e = log.last();
        assert(log[log.len() - 1] == e);
        lemma_grown_entry_undone(p, q, e);
        let p2 = entry_undone(p, e);
        lemma_entry_same_slots(p, e);
        assert forall|k: int| 0 <= k < log.drop_last().len() implies (put_back(
            #[trigger] log.drop_last()[k],
        ) matches Some(rid) ==> slot_there(p2, rid)) by {
            assert(log[k] == log.drop_last()[k]);
            if let Some(rid) = put_back(log[k]) {
                lemma_same_slots(p, p2, rid);
            }
        }
        lemma_grown_undone(p2, entry_undone(q, e), log.drop_last());
    }
}

// ---------------------------------------------------------------------------
// Changes and their logs
// ---------------------------------------------------------------------------

/// Whether a log leads back from pages to others: what undoing it gives has only grown from
/// them.
pub open spec fn leads_back(
    start: Seq<PageView>,
    pages: Seq<PageView>,
    next: u32,
    log: Seq<UndoView>,
) -> bool {
    &&& ids_below(pages, next)
    &&& undoable(pages, log)
    &&& grown(start, undone(pages, log))
}

/// The empty log leads back to the pages themselves.
pub proof fn law_nothing_to_undo(pages: Seq<PageView>, next: u32)
    requires
        ids_below(pages, next),
    ensures
        leads_back(pages, pages, next, Seq::empty()),
{
    lemma_grown_reflexive(pages);
}

/// Pages with a tuple put in and taken out again have only grown.
proof fn lemma_insertion_grows(pages: Seq<PageView>, next: u32, first: u32, b: Seq<u8>)
    requires
        ids_below(pages, next),
        tuple_inserted(pages, next, first, b).result is Ok,
    ensures
        ({
            let c = tuple_inserted(pages, next, first, b);
            &&& grown(pages, tuple_replaced(c.pages, c.result->Ok_0, None))
            &&& pages.len() <= c.pages.len()
            &&& forall|i: int|
                0 <= i < pages.len() ==> (#[trigger] c.pages[i]).page_id == pages[i].page_id
                    && pages[i].slots.len() <= c.pages[i].slots.len()
        }),
{
    let c = tuple_inserted(pages, next, first, b);
    let rid = c.result->Ok_0;
    let places = chain(pages, first, pages.len())->Ok_0;
    lemma_chain_within(pages, first, pages.len());
    lemma_inserted_place(pages, next, first, b);
    let l = places.last();
    assert(places[places.len() - 1] == l);
    let p = pages[l];
    let after = tuple_replaced(c.pages, rid, None);
    if has_room(p, b.len() as int) {
        lemma_chain_first(pages, first, pages.len());
        assert(chain(pages, first, pages.len())->Ok_0[places.len() - 1] == places.last());
        assert forall|k: int| 0 <= k < pages.len() implies (#[trigger] c.pages[k]).page_id
            == pages[k].page_id by {}
        lemma_prefix_page_from(pages, c.pages, p.page_id.0, 0);
        assert(page_from(c.pages, rid.page_id.0, 0) == Some(l));
        assert(c.pages[l] == with_tuple(p, b));
        assert(rid.slot_id as int == p.slots.len());
        assert(after[l].slots =~= p.slots.push(None));
        assert forall|k: int| 0 <= k < pages.len() implies page_grown(
            pages[k],
            #[trigger] after[k],
        ) && after[k].next_page == pages[k].next_page by {}
    } else {
        assert(page_from(pages, next, 0) is None) by {
            lemma_page_from(pages, next, 0);
        }
        assert forall|k: int| 0 <= k < pages.len() implies (#[trigger] c.pages[k]).page_id
            == pages[k].page_id by {}
        lemma_fresh_page_from(c.pages, next, 0, pages.len() as int);
        assert(page_from(c.pages, next, 0) == Some(pages.len() as int));
        assert(after[pages.len() as int].slots =~= seq![None::<Seq<u8>>]);
        assert forall|k: int| 0 <= k < pages.len() implies page_grown(
            pages[k],
            #[trigger] after[k],
        ) by {}
        assert forall|k: int| 0 <= k < pages.len() implies (#[trigger] after[k]).next_page
            == pages[k].next_page || (pages[k].next_page == INVALID_PAGE_ID && followed(
            after,
            after[k].next_page,
            pages.len() as int,
        )) by {
            if k == l {
                lemma_chain_end(pages, first, pages.len());
                assert(after[pages.len() as int].page_id.0 == next);
            }
        }
        lemma_prefix_page_from(c.pages, after, next, 0);
        lemma_prefix_page_from(after, c.pages, next, 0);
    }
}

proof fn lemma_fresh_page_from(pages: Seq<PageView>, id: u32, i: int, l: int)
    requires
        0 <= i <= l < pages.len(),
        forall|k: int| 0 <= k < l ==> (#[trigger] pages[k]).page_id.0 != id,
        pages[l].page_id.0 == id,
    ensures
        page_from(pages, id, i) == Some(l),
    decreases l - i,
{
    if i < l {
        lemma_fresh_page_from(pages, id, i + 1, l);
    }
}

/// The last page of a chain is followed by none.
proof fn lemma_grown_slots_there(p: Seq<PageView>, q: Seq<PageView>, rid: RID)
    requires
        p.len() <= q.len(),
        forall|i: int|
            0 <= i < p.len() ==> (#[trigger] q[i]).page_id == p[i].page_id && p[i].slots.len()
                <= q[i].slots.len(),
        slot_there(p, rid),
    ensures
        slot_there(q, rid),
{
    lemma_prefix_page_from(p, q, rid.page_id.0, 0);
    lemma_page_from(p, rid.page_id.0, 0);
    let i = page_from(p, rid.page_id.0, 0)->0;
    assert(q[i].page_id == p[i].page_id);
}

proof fn lemma_push_undone(pages: Seq<PageView>, log: Seq<UndoView>, e: UndoView)
    ensures
        undone(pages, log.push(e)) == undone(entry_undone(pages, e), log),
{
    assert(log.push(e).last() == e);
    assert(log.push(e).drop_last() =~= log);
}

proof fn lemma_insertion_leads_back(
    start: Seq<PageView>,
    pages: Seq<PageView>,
    next: u32,
    log: Seq<UndoView>,
    first: u32,
    b: Seq<u8>,
    table: Seq<char>,
)
    requires
        leads_back(start, pages, next, log),
        tuple_inserted(pages, next, first, b).result is Ok,
    ensures
        ({
            let c = tuple_inserted(pages, next, first, b);
            leads_back(
                start,
                c.pages,
                c.next,
                log.push(UndoView::InsertUndo { table_name: table, rid: c.result->Ok_0 }),
            )
        }),
{
    let c = tuple_inserted(pages, next, first, b);
    let e = UndoView::InsertUndo { table_name: table, rid: c.result->Ok_0 };
    law_inserted_tuple_is_read(pages, next, first, b);
    lemma_insertion_grows(pages, next, first, b);
    let back = entry_undone(c.pages, e);
    lemma_push_undone(c.pages, log, e);
    lemma_grown_undone(pages, back, log);
    lemma_grown_transitive(start, undone(pages, log), undone(back, log));
    assert forall|k: int| 0 <= k < log.push(e).len() implies (put_back(
        #[trigger] log.push(e)[k],
    ) matches Some(rid) ==> slot_there(c.pages, rid)) by {
        if k < log.len() {
            assert(log.push(e)[k] == log[k]);
            if let Some(rid) = put_back(log[k]) {
                lemma_grown_slots_there(pages, c.pages, rid);
            }
        }
    }
}

proof fn lemma_replacement_leads_back(
    start: Seq<PageView>,
    pages: Seq<PageView>,
    next: u32,
    log: Seq<UndoView>,
    rid: RID,
    b: Option<Seq<u8>>,
    e: UndoView,
)
    requires
        leads_back(start, pages, next, log),
        tuple_at(pages, rid) is Some,
        put_back(e) == Some(rid),
        entry_undone(tuple_replaced(pages, rid, b), e) == tuple_restored(
            tuple_replaced(pages, rid, b),
            rid,
            tuple_at(pages, rid)->0,
        ),
    ensures
        leads_back(start, tuple_replaced(pages, rid, b), next, log.push(e)),
{
    let after = tuple_replaced(pages, rid, b);
    law_restored_tuple(pages, rid, b);
    lemma_push_undone(after, log, e);
    lemma_page_from(pages, rid.page_id.0, 0);
    let i = page_from(pages, rid.page_id.0, 0)->0;
    assert(same_slots(pages, after));
    assert forall|k: int| 0 <= k < log.push(e).len() implies (put_back(
        #[trigger] log.push(e)[k],
    ) matches Some(r) ==> slot_there(after, r)) by {
        if k < log.len() {
            assert(log.push(e)[k] == log[k]);
            if let Some(r) = put_back(log[k]) {
                lemma_same_slots(pages, after, r);
            }
        } else {
            lemma_same_slots(pages, after, rid);
        }
    }
    assert(ids_below(after, next)) by {
        assert forall|k: int| 0 <= k < after.len() implies (#[trigger] after[k]).page_id.0
            < next by {
            assert(pages[k].page_id.0 < next);
        }
    }
}

// ---------------------------------------------------------------------------
// Statements
// ---------------------------------------------------------------------------

/// Whether the log of the transaction under way leads back to pages.
pub open spec fn can_go_back(start: Seq<PageView>, st: StateView) -> bool {
    match st.txn {
        Some(t) => leads_back(start, st.pages, st.next_page, t.undo_log),
        None => false,
    }
}

proof fn lemma_row_inserted_back(
    start: Seq<PageView>,
    st: StateView,
    c: Catalog,
    info: TableInfo,
    table: Seq<char>,
    exprs: Seq<Expr>,
    columns: Option<Seq<Seq<char>>>,
    conflict: Option<OnConflict>,
    last: u64,
    h: HostView,
)
    requires
        can_go_back(start, st),
    ensures
        can_go_back(
            start,
            row_inserted(st, c, info, table, exprs, columns, conflict, last, h).state,
        ),
{
    let step = row_inserted(st, c, info, table, exprs, columns, conflict, last, h);
    if step.state.pages != st.pages || step.state.txn != st.txn {
        let s = info.schema;
        let given = row_given(exprs, columns, s.names(), h)->Ok_0;
        let n = numbered_from(s.columns@, 0, table, given, st.counters, last);
        let counted = StateView { counters: n.counters, ..st };
        let row = defaulted(s.columns@, n.row);
        match duplicate(counted, info, table, row, None) {
            Some(p) => {
                if let OnConflictAction::DoUpdate(assignments) = conflict->0.action {
                    let there = row_at(st.pages, info, p.1)->Ok_0;
                    lemma_row_updated_back(
                        start,
                        counted,
                        c,
                        info,
                        table,
                        assignments@,
                        (p.1, there),
                        h,
                    );
                }
            },
            None => {
                assert(step.state == row_stored(counted, info, table, row, h).state);
                let data = serialized(row, info.schema, h)->Ok_0;
                let b = versioned(data, info.mvcc_enabled, txn_number(counted.txn));
                let r = tuple_inserted(st.pages, st.next_page, info.first_page_id.0, b);
                if r.result is Ok {
                    lemma_insertion_leads_back(
                        start,
                        st.pages,
                        st.next_page,
                        st.txn->0.undo_log,
                        info.first_page_id.0,
                        b,
                        table,
                    );
                }
            },
        }
    }
}

proof fn lemma_rows_inserted_back(
    start: Seq<PageView>,
    st: StateView,
    c: Catalog,
    info: TableInfo,
    table: Seq<char>,
    values: Seq<Vec<Expr>>,
    i: int,
    columns: Option<Seq<Seq<char>>>,
    conflict: Option<OnConflict>,
    count: int,
    last: u64,
    h: HostView,
)
    requires
        can_go_back(start, st),
    ensures
        can_go_back(
            start,
            rows_inserted(st, c, info, table, values, i, columns, conflict, count, last, h).state,
        ),
    decreases values.len() - i,
{
    if 0 <= i < values.len() {
        lemma_row_inserted_back(
            start,
            st,
            c,
            info,
            table,
            values[i]@,
            columns,
            conflict,
            last,
            h,
        );
        let step = row_inserted(st, c, info, table, values[i]@, columns, conflict, last, h);
        if let Ok(p) = step.result {
            lemma_rows_inserted_back(
                start,
                step.state,
                c,
                info,
                table,
                values,
                i + 1,
                columns,
                conflict,
                count + p.0,
                p.1,
                h,
            );
        }
    }
}

/// Whatever comes of an INSERT, its log leads back to where the log led back before.
pub proof fn law_insert_can_be_undone(
    start: Seq<PageView>,
    st: StateView,
    c: Catalog,
    table: Seq<char>,
    columns: Option<Seq<Seq<char>>>,
    values: Seq<Vec<Expr>>,
    conflict: Option<OnConflict>,
    h: HostView,
)
    requires
        can_go_back(start, st),
    ensures
        can_go_back(start, inserted(st, c, table, columns, values, conflict, h).state),
{
    if let Some(info) = table_of(c, table) {
        lemma_rows_inserted_back(
            start,
            st,
            c,
            info,
            table,
            values,
            0,
            columns,
            conflict,
            0,
            0,
            h,
        );
    }
}

proof fn lemma_row_gone_back(
    start: Seq<PageView>,
    st: StateView,
    table: Seq<char>,
    names: Seq<Seq<char>>,
    row: RowView,
)
    requires
        can_go_back(start, st),
    ensures
        can_go_back(start, row_gone(st, table, names, row)),
{
    if let Some(b) = tuple_at(st.pages, row.0) {
        let e = UndoView::DeleteUndo { table_name: table, rid: row.0, old_xmax: 0, old_data: b };
        lemma_replacement_leads_back(
            start,
            st.pages,
            st.next_page,
            st.txn->0.undo_log,
            row.0,
            None,
            e,
        );
    }
}

proof fn lemma_row_replaced_back(
    start: Seq<PageView>,
    st: StateView,
    table: Seq<char>,
    names: Seq<Seq<char>>,
    row: RowView,
    new: Seq<ValueView>,
    bytes: Seq<u8>,
)
    requires
        can_go_back(start, st),
    ensures
        can_go_back(start, row_replaced(st, table, names, row, new, bytes)),
{
    if let Some(b) = tuple_at(st.pages, row.0) {
        let e = UndoView::UpdateUndo { table_name: table, rid: row.0, old_data: b };
        lemma_replacement_leads_back(
            start,
            st.pages,
            st.next_page,
            st.txn->0.undo_log,
            row.0,
            Some(bytes),
            e,
        );
    }
}

proof fn lemma_row_updated_back(
    start: Seq<PageView>,
    st: StateView,
    c: Catalog,
    info: TableInfo,
    table: Seq<char>,
    assignments: Seq<(String, Expr)>,
    row: RowView,
    h: HostView,
)
    requires
        can_go_back(start, st),
    ensures
        can_go_back(start, row_updated(st, c, info, table, assignments, row, h).state),
{
    if row_updated(st, c, info, table, assignments, row, h).result is Ok {
        let names = info.schema.names();
        let new = assigned_from(assignments, 0, row.1, names, row.1, h)->Ok_0;
        let bytes = versioned(
            serialized(new, info.schema, h)->Ok_0,
            info.mvcc_enabled,
            txn_number(st.txn),
        );
        lemma_row_replaced_back(start, st, table, names, row, new, bytes);
    }
}

proof fn lemma_rows_updated_back(
    start: Seq<PageView>,
    st: StateView,
    c: Catalog,
    info: TableInfo,
    table: Seq<char>,
    assignments: Seq<(String, Expr)>,
    rows: Seq<RowView>,
    i: int,
    h: HostView,
)
    requires
        can_go_back(start, st),
    ensures
        can_go_back(start, rows_updated(st, c, info, table, assignments, rows, i, h).state),
    decreases rows.len() - i,
{
    if 0 <= i < rows.len() {
        let step = row_updated(st, c, info, table, assignments, rows[i], h);
        lemma_row_updated_back(start, st, c, info, table, assignments, rows[i], h);
        if step.result is Ok {
            lemma_rows_updated_back(start, step.state, c, info, table, assignments, rows, i + 1, h);
        }
    }
}

/// Whatever comes of an UPDATE, its log leads back to where the log led back before.
pub proof fn law_update_can_be_undone(
    start: Seq<PageView>,
    st: StateView,
    c: Catalog,
    table: Seq<char>,
    assignments: Seq<(String, Expr)>,
    rows: Seq<RowView>,
    h: HostView,
)
    requires
        can_go_back(start, st),
    ensures
        can_go_back(start, updated(st, c, table, assignments, rows, h).state),
{
    if let Some(info) = table_of(c, table) {
        lemma_rows_updated_back(start, st, c, info, table, assignments, rows, 0, h);
    }
}

/// Whatever comes of a DELETE, its log leads back to where the log led back before. That goes
/// for the rows that referred to the deleted ones too.
pub proof fn law_delete_can_be_undone(
    start: Seq<PageView>,
    st: StateView,
    c: Catalog,
    table: Seq<char>,
    rows: Seq<RowView>,
    h: HostView,
)
    requires
        can_go_back(start, st),
    ensures
        can_go_back(start, deleted(st, c, table, rows, h).state),
{
    let back = |s: StateView| can_go_back(start, s);
    assert forall|s: StateView, t: Seq<char>, names: Seq<Seq<char>>, row: RowView| back(
        s,
    ) implies back(#[trigger] row_gone(s, t, names, row)) by {
        lemma_row_gone_back(start, s, t, names, row);
    }
    assert forall|
        s: StateView,
        t: Seq<char>,
        names: Seq<Seq<char>>,
        row: RowView,
        new: Seq<ValueView>,
        bytes: Seq<u8>,
    | back(s) implies back(#[trigger] row_replaced(s, t, names, row, new, bytes)) by {
        lemma_row_replaced_back(start, s, t, names, row, new, bytes);
    }
    assert(back(st));
    lemma_delete_keeps(back, st, c, table, rows, h);
}

proof fn lemma_change_back(
    start: Seq<PageView>,
    plan: PlanNode,
    c: Catalog,
    st: StateView,
    h: HostView,
)
    requires
        can_go_back(start, st),
    ensures
        can_go_back(start, changed(plan, c, st, h).state),
{
    reveal(changed);
    match plan {
        PlanNode::Insert { table_name, columns, values, on_conflict } => {
            law_insert_can_be_undone(
                start,
                st,
                c,
                table_name@,
                columns.deep_view(),
                values@,
                on_conflict,
                h,
            );
        },
        PlanNode::Update { table_name, assignments, child } => {
            if let Ok(x) = plan_rows(*child, Purpose::Change, readable(c, st), h) {
                law_update_can_be_undone(start, st, c, table_name@, assignments@, x.1, h);
            }
        },
        PlanNode::Delete { table_name, child } => {
            if let Ok(x) = plan_rows(*child, Purpose::Change, readable(c, st), h) {
                law_delete_can_be_undone(start, st, c, table_name@, x.1, h);
            }
        },
        _ => {},
    }
}

// ---------------------------------------------------------------------------
// Transactions
// ---------------------------------------------------------------------------

/// A transaction that is rolled back leaves every table with the tuples that it held on the
/// pages to which its log leads back.
pub proof fn law_rolled_back_tables(
    e: EngineView,
    t: TxnId,
    from: int,
    start: Seq<PageView>,
    first: u32,
)
    requires
        leads_back(start, e.st.pages, e.st.next_page, undone_log(e.txns.log(t), from)),
        table_tuples(start, first) is Ok,
    ensures
        table_tuples(rolled_back(e, t, from).st.pages, first) == table_tuples(start, first),
{
    law_grown_pages_hold_the_same(
        start,
        undone(e.st.pages, undone_log(e.txns.log(t), from)),
        first,
    );
}

/// A transaction that is rolled back leaves every table with the rows that it had.
pub proof fn law_rolled_back_rows(
    e: EngineView,
    t: TxnId,
    from: int,
    start: Seq<PageView>,
    name: Seq<char>,
    limit: Option<usize>,
    reader: Option<TxnView>,
)
    requires
        leads_back(start, e.st.pages, e.st.next_page, undone_log(e.txns.log(t), from)),
        table_rows(e.catalog, start, name, limit, reader) is Ok,
    ensures
        table_rows(e.catalog, rolled_back(e, t, from).st.pages, name, limit, reader)
            == table_rows(e.catalog, start, name, limit, reader),
{
    let info = table_of(e.catalog, name)->0;
    law_rolled_back_tables(e, t, from, start, info.first_page_id.0);
}

/// A change of rows that fails and is in no transaction leaves all tables and indexes as they
/// were.
pub proof fn law_failed_change_changes_nothing(
    plan: PlanNode,
    e0: EngineView,
    e1: EngineView,
    s1: Option<TxnId>,
    r: Answer,
    h: HostView,
)
    requires
        rows_changed(plan, e0, None, e1, s1, r, h),
        r is Err,
    ensures
        e1.st.pages == e0.st.pages,
        e1.st.indexes == e0.st.indexes,
        e1.catalog == e0.catalog,
        s1 is None,
{
}

/// A change of rows that fails in a transaction, other than by asking the host, ends it and
/// leaves every table with the tuples that it held on the pages to which the log of the
/// transaction leads back.
pub proof fn law_failed_change_rolls_back(
    plan: PlanNode,
    e0: EngineView,
    t: TxnId,
    e1: EngineView,
    s1: Option<TxnId>,
    r: Answer,
    h: HostView,
    start: Seq<PageView>,
    first: u32,
)
    requires
        rows_changed(plan, e0, Some(t), e1, s1, r, h),
        r is Err,
        !(r->Err_0 is NeedsFloat),
        leads_back(start, e0.st.pages, e0.st.next_page, undone_log(e0.txns.log(t), 0)),
        table_tuples(start, first) is Ok,
    ensures
        s1 is None,
        table_tuples(e1.st.pages, first) == table_tuples(start, first),
{
    law_rolled_back_tables(e0, t, 0, start, first);
}

/// A change of rows in a transaction keeps the way back: what was the case when the transaction
/// began, or at a savepoint, can still be restored.
pub proof fn law_change_in_transaction_keeps_way_back(
    plan: PlanNode,
    e0: EngineView,
    t: TxnId,
    e1: EngineView,
    r: Answer,
    h: HostView,
    start: Seq<PageView>,
)
    requires
        e0.txns.is_active(t),
        rows_changed(plan, e0, Some(t), e1, Some(t), r, h),
        leads_back(start, e0.st.pages, e0.st.next_page, e0.txns.log(t)),
    ensures
        leads_back(start, e1.st.pages, e1.st.next_page, e1.txns.log(t)),
{
    let v = choose|v: TxnView| #[trigger] changed_in(v, plan, e0, Some(t), e1, Some(t), r, h);
    let st = StateView { txn: Some(v), ..e0.st };
    let step = changed(plan, e0.catalog, st, h);
    if r is Ok {
        let pages = e0.st.pages;
        law_nothing_to_undo(pages, e0.st.next_page);
        lemma_change_back(pages, plan, e0.catalog, st, h);
        assert(can_go_back(pages, step.state));
        let old_log = e0.txns.log(t);
        let new_log = step.state.txn->0.undo_log;
        let after = step.state.pages;
        let mid = undone(after, new_log);
        lemma_txn_from(e0.txns.active, t, 0);
        let k = txn_from(e0.txns.active, t, 0)->0;
        lemma_log_replaced(e0.txns.active, t, old_log + new_log, k, 0);
        assert(e1.txns.log(t) == old_log + new_log);
        law_undone_in_parts(after, old_log, new_log);
        lemma_grown_undone(pages, mid, old_log);
        lemma_grown_transitive(start, undone(pages, old_log), undone(mid, old_log));
        assert forall|i: int| 0 <= i < (old_log + new_log).len() implies (put_back(
            #[trigger] (old_log + new_log)[i],
        ) matches Some(rid) ==> slot_there(after, rid)) by {
            if i < old_log.len() {
                assert((old_log + new_log)[i] == old_log[i]);
                if let Some(rid) = put_back(old_log[i]) {
                    lemma_grown_slot(pages, mid, rid);
                    lemma_undone_slots(after, new_log);
                    lemma_same_slots(after, mid, rid);
                }
            } else {
                assert((old_log + new_log)[i] == new_log[i - old_log.len()]);
            }
        }
    }
}

proof fn lemma_undone_slots(pages: Seq<PageView>, log: Seq<UndoView>)
    ensures
        same_slots(pages, undone(pages, log)),
    decreases log.len(),
{
    if log.len() > 0 {
        let e = log.last();
        lemma_entry_same_slots(pages, e);
        lemma_undone_slots(entry_undone(pages, e), log.drop_last());
        let mid = entry_undone(pages, e);
        let q = undone(pages, log);
        assert forall|i: int| 0 <= i < pages.len() implies (#[trigger] q[i]).page_id
            == pages[i].page_id && q[i].slots.len() == pages[i].slots.len() && q[i].next_page
            == pages[i].next_page by {
            assert(mid[i].page_id == pages[i].page_id);
        }
    }
}

proof fn lemma_log_replaced(
    active: Seq<(TxnId, Seq<UndoView>)>,
    t: TxnId,
    log: Seq<UndoView>,
    k: int,
    i: int,
)
    requires
        0 <= i <= k < active.len(),
        txn_from(active, t, i) == Some(k),
    ensures
        txn_from(active.update(k, (t, log)), t, i) == Some(k),
    decreases k - i,
{
    if i < k && active[i].0 != t {
        lemma_log_replaced(active, t, log, k, i + 1);
    }
}

} // verus!
