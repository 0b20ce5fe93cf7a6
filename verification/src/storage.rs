//! Heap pages, versions and indexes, as the host has loaded them.
use crate::bytes::{get_le, le, le_value, lemma_le_round_trip, lemma_pow256, put_bytes, put_le};
use crate::common::{PageId, INVALID_PAGE_ID, PAGE_SIZE, RID};
use crate::error::{outcome, ErrorView, ForgeError, Result};
use vstd::prelude::*;

verus! {

// ---------------------------------------------------------------------------
// Versions
// ---------------------------------------------------------------------------

/// The length of a version header: the creating and the deleting transaction.
pub const MVCC_HEADER_SIZE: usize = 16;

/// The deleting transaction of a tuple that is not deleted.
pub const XMAX_NONE: u64 = 0;

/// What a transaction sees: itself, and what was committed when it began.
#[derive(Debug, Clone)]
pub struct Snapshot {
    pub txn_id: u64,
    /// Transactions from this one on had not begun.
    pub next_txn: u64,
    /// Transactions that had begun and not ended.
    pub active: Vec<u64>,
}

impl Snapshot {
    /// Whether the effects of a transaction are seen. Zero stands for what was committed on
    /// its own.
    pub open spec fn sees(self, t: u64) -> bool {
        t == 0 || t == self.txn_id || (t < self.next_txn && !self.active@.contains(t))
    }

    fn includes(&self, t: u64) -> (r: bool)
        ensures
            r == self.sees(t),
    {
        if t == 0 || t == self.txn_id {
            return true;
        }
        if t >= self.next_txn {
            return false;
        }
        let mut i: usize = 0;
        while i < self.active.len()
            invariant
                0 <= i <= self.active.len(),
                t != 0,
                t != self.txn_id,
                t < self.next_txn,
                forall|k: int| 0 <= k < i ==> self.active@[k] != t,
            decreases self.active.len() - i,
        {
            if self.active[i] == t {
                return false;
            }
            i += 1;
        }
        true
    }
}

/// Whether a version is visible: its creation is seen and its deletion is not.
pub open spec fn visible(xmin: u64, xmax: u64, s: Snapshot) -> bool {
    s.sees(xmin) && (xmax == XMAX_NONE || !s.sees(xmax))
}

/// Whether a version is visible.
pub fn is_visible(xmin: u64, xmax: u64, s: &Snapshot) -> (r: bool)
    ensures
        r == visible(xmin, xmax, *s),
{
    s.includes(xmin) && (xmax == XMAX_NONE || !s.includes(xmax))
}

/// The bytes of a version header.
pub open spec fn version_header(xmin: u64, xmax: u64) -> Seq<u8> {
    le(xmin as int, 8) + le(xmax as int, 8)
}

/// The creating transaction of a versioned tuple.
pub open spec fn xmin_of(raw: Seq<u8>) -> u64 {
    le_value(raw.subrange(0, 8)) as u64
}

/// The deleting transaction of a versioned tuple.
pub open spec fn xmax_of(raw: Seq<u8>) -> u64 {
    le_value(raw.subrange(8, 16)) as u64
}

/// Appends a version header.
pub fn put_version_header(buf: &mut Vec<u8>, xmin: u64, xmax: u64)
    ensures
        final(buf)@ == old(buf)@ + version_header(xmin, xmax),
{
    let ghost start = buf@;
    put_le(buf, xmin, 8);
    put_le(buf, xmax, 8);
    assert(buf@ =~= start + version_header(xmin, xmax));
}

/// The creating and the deleting transaction of a versioned tuple.
pub fn decode_version_header(raw: &[u8]) -> (r: (u64, u64))
    requires
        raw.len() >= MVCC_HEADER_SIZE,
    ensures
        r.0 == xmin_of(raw@),
        r.1 == xmax_of(raw@),
{
    (get_le(raw, 0, 8), get_le(raw, 8, 8))
}

/// A version header gives back the transactions that were put into it.
pub proof fn law_version_header_round_trip(xmin: u64, xmax: u64, data: Seq<u8>)
    ensures
        (version_header(xmin, xmax) + data).len() == MVCC_HEADER_SIZE + data.len(),
        xmin_of(version_header(xmin, xmax) + data) == xmin,
        xmax_of(version_header(xmin, xmax) + data) == xmax,
        (version_header(xmin, xmax) + data).skip(MVCC_HEADER_SIZE as int) == data,
{
    let raw = version_header(xmin, xmax) + data;
    lemma_pow256();
    lemma_le_round_trip(xmin as int, 8);
    lemma_le_round_trip(xmax as int, 8);
    assert(raw.subrange(0, 8) =~= le(xmin as int, 8));
    assert(raw.subrange(8, 16) =~= le(xmax as int, 8));
    assert(raw.skip(16) =~= data);
}

// ---------------------------------------------------------------------------
// Pages
// ---------------------------------------------------------------------------

/// A heap page: its tuples by slot, and the page that follows it in its table.
#[derive(Debug)]
pub struct HeapPage {
    pub page_id: PageId,
    pub slots: Vec<Option<Vec<u8>>>,
    pub next_page: u32,
}

/// [`HeapPage`] as mathematical values.
pub struct PageView {
    pub page_id: PageId,
    pub slots: Seq<Option<Seq<u8>>>,
    pub next_page: u32,
}

impl DeepView for HeapPage {
    type V = PageView;

    open spec fn deep_view(&self) -> PageView {
        PageView {
            page_id: self.page_id,
            slots: self.slots.deep_view(),
            next_page: self.next_page,
        }
    }
}

/// The pages that the host has loaded, and the first page identifier that is not in use.
#[derive(Debug)]
pub struct BufferPool {
    pub pages: Vec<HeapPage>,
    pub next_page_id: u32,
}

/// The view of a pool is its pages; contracts that speak of the first free identifier name
/// `next_page_id` beside it.
impl View for BufferPool {
    type V = Seq<PageView>;

    open spec fn view(&self) -> Seq<PageView> {
        self.pages.deep_view()
    }
}

/// Whether the identifiers of all pages are below `next`.
pub open spec fn ids_below(pages: Seq<PageView>, next: u32) -> bool {
    forall|i: int| 0 <= i < pages.len() ==> (#[trigger] pages[i]).page_id.0 < next
}

/// A tuple with its place, as bytes.
pub type RawView = (RID, Seq<u8>);

/// The place of a page, from `i` on.
pub open spec fn page_from(pages: Seq<PageView>, id: u32, i: int) -> Option<int>
    decreases pages.len() - i,
{
    if i < 0 || i >= pages.len() {
        None
    } else if pages[i].page_id.0 == id {
        Some(i)
    } else {
        page_from(pages, id, i + 1)
    }
}

pub proof fn lemma_page_from(pages: Seq<PageView>, id: u32, i: int)
    requires
        0 <= i,
    ensures
        page_from(pages, id, i) matches Some(k) ==> i <= k < pages.len() && pages[k].page_id.0
            == id,
    decreases pages.len() - i,
{
    if i < pages.len() && pages[i].page_id.0 != id {
        lemma_page_from(pages, id, i + 1);
    }
}

/// The tuples of a page below slot `n`, in order of their slots.
pub open spec fn page_tuples(p: PageView, n: int) -> Seq<RawView>
    decreases n,
{
    if n <= 0 {
        Seq::empty()
    } else {
        let m = page_tuples(p, n - 1);
        match p.slots[n - 1] {
            Some(b) => m.push((RID { page_id: p.page_id, slot_id: (n - 1) as u16 }, b)),
            None => m,
        }
    }
}

/// The places of the pages of a table, in their order: a page is followed by its next page
/// until there is none. A page that is not there, or a chain that does not end within `fuel`
/// pages, is an error.
pub open spec fn chain(pages: Seq<PageView>, first: u32, fuel: nat) -> std::result::Result<
    Seq<int>,
    ErrorView,
>
    decreases fuel,
{
    if first == INVALID_PAGE_ID {
        Ok(Seq::empty())
    } else if fuel == 0 {
        Err(ErrorView::Page("page chain does not end"@))
    } else {
        match page_from(pages, first, 0) {
            None => Err(ErrorView::Page("page not found"@)),
            Some(i) => match chain(pages, pages[i].next_page, (fuel - 1) as nat) {
                Err(e) => Err(e),
                Ok(rest) => Ok(seq![i] + rest),
            },
        }
    }
}

/// The tuples of the pages at the given places.
pub open spec fn tuples_of(pages: Seq<PageView>, places: Seq<int>) -> Seq<RawView>
    decreases places.len(),
{
    if places.len() == 0 {
        Seq::empty()
    } else {
        let p = pages[places.last()];
        tuples_of(pages, places.drop_last()) + page_tuples(p, p.slots.len() as int)
    }
}

/// The tuples of a table, in the order of its pages and slots.
pub open spec fn table_tuples(pages: Seq<PageView>, first: u32) -> std::result::Result<
    Seq<RawView>,
    ErrorView,
> {
    match chain(pages, first, pages.len()) {
        Err(e) => Err(e),
        Ok(places) => Ok(tuples_of(pages, places)),
    }
}

/// The places of a chain are places of pages.
pub proof fn lemma_chain_within(pages: Seq<PageView>, first: u32, fuel: nat)
    ensures
        chain(pages, first, fuel) matches Ok(s) ==> forall|k: int|
            0 <= k < s.len() ==> 0 <= #[trigger] s[k] < pages.len(),
    decreases fuel,
{
    if first != INVALID_PAGE_ID && fuel > 0 {
        lemma_page_from(pages, first, 0);
        if let Some(i) = page_from(pages, first, 0) {
            lemma_chain_within(pages, pages[i].next_page, (fuel - 1) as nat);
        }
    }
}

/// Places as machine integers.
pub open spec fn as_places(v: Seq<usize>) -> Seq<int> {
    Seq::new(v.len(), |k: int| v[k] as int)
}

impl BufferPool {
    fn find_page(&self, id: u32) -> (r: Option<usize>)
        ensures
            match r {
                Some(i) => i < self.pages.len() && page_from(self@, id, 0) == Some(i as int),
                None => page_from(self@, id, 0) is None,
            },
    {
        let ghost pages = self@;
        let mut i: usize = 0;
        while i < self.pages.len()
            invariant
                0 <= i <= self.pages.len(),
                pages == self@,
                page_from(pages, id, 0) == page_from(pages, id, i as int),
            decreases self.pages.len() - i,
        {
            assert(pages[i as int].page_id == self.pages@[i as int].page_id);
            if self.pages[i].page_id.0 == id {
                return Some(i);
            }
            i += 1;
        }
        None
    }

    /// The places of the pages of a table.
    pub fn page_chain(&self, first: PageId) -> (r: std::result::Result<Vec<usize>, ForgeError>)
        ensures
            match r {
                Ok(v) => chain(self@, first.0, self@.len()) == Ok::<Seq<int>, ErrorView>(
                    as_places(v@),
                ) && forall|k: int| 0 <= k < v.len() ==> #[trigger] v@[k] < self.pages.len(),
                Err(e) => chain(self@, first.0, self@.len()) == Err::<Seq<int>, ErrorView>(e@),
            },
    {
        let ghost pages = self@;
        let mut out: Vec<usize> = Vec::new();
        let mut id: u32 = first.0;
        let mut fuel: usize = self.pages.len();
        let ghost whole = chain(pages, first.0, pages.len());
        assert(as_places(out@) =~= Seq::<int>::empty());
        proof {
            match whole {
                Ok(s) => {
                    assert(Seq::<int>::empty() + s =~= s);
                },
                Err(_) => {},
            }
        }
        while id != INVALID_PAGE_ID
            invariant
                pages == self@,
                fuel <= self.pages.len(),
                whole == chain(pages, first.0, pages.len()),
                forall|k: int| 0 <= k < out.len() ==> #[trigger] out@[k] < self.pages.len(),
                match chain(pages, id, fuel as nat) {
                    Ok(s) => whole == Ok::<Seq<int>, ErrorView>(as_places(out@) + s),
                    Err(e) => whole == Err::<Seq<int>, ErrorView>(e),
                },
            decreases fuel,
        {
            if fuel == 0 {
                return Err(ForgeError::Page("page chain does not end".to_owned()));
            }
            match self.find_page(id) {
                None => {
                    return Err(ForgeError::Page("page not found".to_owned()));
                },
                Some(i) => {
                    let ghost before = as_places(out@);
                    let ghost rest = chain(pages, pages[i as int].next_page, (fuel - 1) as nat);
                    out.push(i);
                    assert(as_places(out@) =~= before.push(i as int));
                    proof {
                        match rest {
                            Ok(s) => {
                                assert(before + (seq![i as int] + s) =~= before.push(i as int) + s);
                            },
                            Err(_) => {},
                        }
                    }
                    assert(pages[i as int].next_page == self.pages@[i as int].next_page);
                    id = self.pages[i].next_page;
                    fuel = fuel - 1;
                },
            }
        }
        assert(as_places(out@) + Seq::<int>::empty() =~= as_places(out@));
        Ok(out)
    }

    /// The tuples of a table, in the order of its pages and slots.
    pub fn table_iterator(&self, first: PageId) -> (r: Result<Vec<(RID, Vec<u8>)>>)
        ensures
            outcome(r) == table_tuples(self@, first.0),
    {
        let places = self.page_chain(first)?;
        Ok(self.scan_pages(places.as_slice()))
    }

    /// The tuples of the pages at the given places.
    pub fn scan_pages(&self, places: &[usize]) -> (r: Vec<(RID, Vec<u8>)>)
        requires
            forall|i: int| 0 <= i < places.len() ==> #[trigger] places@[i] < self.pages.len(),
        ensures
            r.deep_view() == tuples_of(self@, as_places(places@)),
    {
        let ghost pages = self@;
        let ghost pv = as_places(places@);
        let mut out: Vec<(RID, Vec<u8>)> = Vec::new();
        let mut k: usize = 0;
        assert(pv.take(0) =~= Seq::<int>::empty());
        assert(out.deep_view() =~= Seq::<RawView>::empty());
        while k < places.len()
            invariant
                0 <= k <= places.len(),
                pages == self@,
                pv == as_places(places@),
                forall|i: int| 0 <= i < places.len() ==> #[trigger] places@[i] < self.pages.len(),
                out.deep_view() == tuples_of(pages, pv.take(k as int)),
            decreases places.len() - k,
        {
            let page = &self.pages[places[k]];
            let ghost p = page.deep_view();
            let ghost start = out.deep_view();
            assert(p == pages[pv[k as int]]);
            let mut i: usize = 0;
            assert(start + page_tuples(p, 0) =~= start);
            while i < page.slots.len()
                invariant
                    0 <= i <= page.slots.len(),
                    p == page.deep_view(),
                    out.deep_view() == start + page_tuples(p, i as int),
                decreases page.slots.len() - i,
            {
                assert(p.slots[i as int] == page.slots@[i as int].deep_view());
                if let Some(b) = &page.slots[i] {
                    let ghost before = out.deep_view();
                    let rid = RID { page_id: page.page_id, slot_id: i as u16 };
                    let mut copy: Vec<u8> = Vec::new();
                    put_bytes(&mut copy, b.as_slice());
                    assert(copy.deep_view() =~= b.deep_view());
                    let ghost cv = copy.deep_view();
                    out.push((rid, copy));
                    assert(out.deep_view() =~= before.push((rid, cv)));
                    assert(start + page_tuples(p, i + 1) =~= before.push((rid, cv)));
                }
                i += 1;
            }
            assert(pv.take(k + 1).drop_last() =~= pv.take(k as int));
            assert(pv.take(k + 1).last() == pv[k as int]);
            k += 1;
        }
        assert(pv.take(places.len() as int) =~= pv);
        out
    }
}

// ---------------------------------------------------------------------------
// Changes
// ---------------------------------------------------------------------------

/// The bytes that a page's header and tuples take: sixteen for the header, four for each slot
/// and the tuples themselves.
pub open spec fn page_used(slots: Seq<Option<Seq<u8>>>) -> int
    decreases slots.len(),
{
    if slots.len() == 0 {
        16
    } else {
        page_used(slots.drop_last()) + 4 + match slots.last() {
            Some(b) => b.len() as int,
            None => 0,
        }
    }
}

/// Whether a page takes one more tuple of `n` bytes: an empty page always does.
pub open spec fn has_room(p: PageView, n: int) -> bool {
    p.slots.len() == 0 || (p.slots.len() < 0xffff && page_used(p.slots) + 4 + n <= PAGE_SIZE)
}

/// A page with one more tuple.
pub open spec fn with_tuple(p: PageView, b: Seq<u8>) -> PageView {
    PageView { slots: p.slots.push(Some(b)), ..p }
}

/// What a change of the pages leaves behind, and its result.
pub struct Changed<T> {
    pub pages: Seq<PageView>,
    pub next: u32,
    pub result: std::result::Result<T, ErrorView>,
}

/// A tuple put into a table: on its last page if that has room, else on a new page behind it.
pub open spec fn tuple_inserted(pages: Seq<PageView>, next: u32, first: u32, b: Seq<u8>) -> Changed<
    RID,
> {
    match chain(pages, first, pages.len()) {
        Err(e) => Changed { pages, next, result: Err(e) },
        Ok(places) => if places.len() == 0 {
            Changed { pages, next, result: Err(ErrorView::Page("table has no page"@)) }
        } else {
            let l = places.last();
            let p = pages[l];
            if has_room(p, b.len() as int) {
                Changed {
                    pages: pages.update(l, with_tuple(p, b)),
                    next,
                    result: Ok(RID { page_id: p.page_id, slot_id: p.slots.len() as u16 }),
                }
            } else if next == INVALID_PAGE_ID {
                Changed { pages, next, result: Err(ErrorView::Page("no page is left"@)) }
            } else {
                Changed {
                    pages: pages.update(l, PageView { next_page: next, ..p }).push(
                        PageView {
                            page_id: PageId(next),
                            slots: seq![Some(b)],
                            next_page: INVALID_PAGE_ID,
                        },
                    ),
                    next: (next + 1) as u32,
                    result: Ok(RID { page_id: PageId(next), slot_id: 0 }),
                }
            }
        },
    }
}

/// Whether a tuple stands at a place.
pub open spec fn tuple_at(pages: Seq<PageView>, rid: RID) -> Option<Seq<u8>> {
    match page_from(pages, rid.page_id.0, 0) {
        None => None,
        Some(i) => if rid.slot_id < pages[i].slots.len() {
            pages[i].slots[rid.slot_id as int]
        } else {
            None
        },
    }
}

/// The pages with a tuple at a place changed, or removed; unchanged, if no tuple is there.
pub open spec fn tuple_replaced(pages: Seq<PageView>, rid: RID, b: Option<Seq<u8>>) -> Seq<PageView> {
    if tuple_at(pages, rid) is None {
        pages
    } else {
        let i = page_from(pages, rid.page_id.0, 0)->0;
        pages.update(
            i,
            PageView { slots: pages[i].slots.update(rid.slot_id as int, b), ..pages[i] },
        )
    }
}

/// The pages with a tuple put back into its slot; unchanged, if there is no such slot.
pub open spec fn tuple_restored(pages: Seq<PageView>, rid: RID, b: Seq<u8>) -> Seq<PageView> {
    match page_from(pages, rid.page_id.0, 0) {
        None => pages,
        Some(i) => if rid.slot_id < pages[i].slots.len() {
            pages.update(
                i,
                PageView { slots: pages[i].slots.update(rid.slot_id as int, Some(b)), ..pages[i] },
            )
        } else {
            pages
        },
    }
}

pub fn copy_bytes(b: &[u8]) -> (r: Vec<u8>)
    ensures
        r@ == b@,
        r.deep_view() == b@,
{
    let mut c: Vec<u8> = Vec::new();
    put_bytes(&mut c, b);
    assert(c@ =~= b@);
    assert(c.deep_view() =~= b@);
    c
}

fn used(slots: &Vec<Option<Vec<u8>>>) -> (r: usize)
    ensures
        r as int == if page_used(slots.deep_view()) > PAGE_SIZE {
            PAGE_SIZE as int + 1
        } else {
            page_used(slots.deep_view())
        },
{
    let ghost sv = slots.deep_view();
    let mut n: usize = 16;
    let mut i: usize = 0;
    assert(sv.take(0).len() == 0);
    while i < slots.len()
        invariant
            0 <= i <= slots.len(),
            sv == slots.deep_view(),
            n as int == if page_used(sv.take(i as int)) > PAGE_SIZE {
                PAGE_SIZE as int + 1
            } else {
                page_used(sv.take(i as int))
            },
        decreases slots.len() - i,
    {
        assert(sv.take(i + 1).drop_last() =~= sv.take(i as int));
        assert(sv.take(i + 1).last() == sv[i as int]);
        assert(sv[i as int] == slots@[i as int].deep_view());
        let len: usize = match &slots[i] {
            Some(b) => {
                assert(b.deep_view().len() == b.len());
                b.len()
            },
            None => 0,
        };
        n = if n > PAGE_SIZE || len > PAGE_SIZE || n + 4 + len > PAGE_SIZE {
            PAGE_SIZE + 1
        } else {
            n + 4 + len
        };
        i += 1;
    }
    assert(sv.take(slots.len() as int) =~= sv);
    n
}

impl BufferPool {
    /// A new page without tuples, on its own.
    pub fn new_page(&mut self) -> (r: std::result::Result<PageId, ForgeError>)
        ensures
            match r {
                Ok(id) => {
                    &&& old(self).next_page_id != INVALID_PAGE_ID
                    &&& id == PageId(old(self).next_page_id)
                    &&& final(self).next_page_id == old(self).next_page_id + 1
                    &&& final(self)@ == old(self)@.push(
                        PageView {
                            page_id: id,
                            slots: Seq::empty(),
                            next_page: INVALID_PAGE_ID,
                        },
                    )
                },
                Err(e) => {
                    &&& old(self).next_page_id == INVALID_PAGE_ID
                    &&& e@ == ErrorView::Page("no page is left"@)
                    &&& *final(self) == *old(self)
                },
            },
    {
        if self.next_page_id == INVALID_PAGE_ID {
            return Err(ForgeError::Page("no page is left".to_owned()));
        }
        let id = PageId(self.next_page_id);
        let ghost before = self@;
        self.next_page_id = self.next_page_id + 1;
        let page = HeapPage { page_id: id, slots: Vec::new(), next_page: INVALID_PAGE_ID };
        let ghost pv = page.deep_view();
        self.pages.push(page);
        assert(pv.slots =~= Seq::<Option<Seq<u8>>>::empty());
        assert(self@ =~= before.push(pv));
        Ok(id)
    }

    /// Puts a tuple into a table.
    pub fn insert_tuple(&mut self, first: PageId, data: &[u8]) -> (r: Result<RID>)
        ensures
            ({
                let c = tuple_inserted(old(self)@, old(self).next_page_id, first.0, data@);
                outcome(r) == c.result && final(self)@ == c.pages && final(self).next_page_id
                    == c.next
            }),
    {
        let places = self.page_chain(first)?;
        let ghost pages = self@;
        if places.len() == 0 {
            return Err(ForgeError::Page("table has no page".to_owned()));
        }
        let l: usize = places[places.len() - 1];
        assert(as_places(places@).last() == l);
        let ghost p = pages[l as int];
        assert(p == self.pages@[l as int].deep_view());
        let n: usize = self.pages[l].slots.len();
        assert(p.slots.len() == n);
        let u: usize = used(&self.pages[l].slots);
        let room: bool = n == 0 || (n < 0xffff && data.len() <= PAGE_SIZE && u <= PAGE_SIZE && u + 4
            + data.len() <= PAGE_SIZE);
        assert(room == has_room(p, data.len() as int)) by {
            lemma_used_grows(p.slots);
        }
        let copy = copy_bytes(data);
        if room {
            let rid = RID { page_id: self.pages[l].page_id, slot_id: n as u16 };
            push_slot(&mut self.pages, l, copy);
            assert(self@ =~= pages.update(l as int, with_tuple(p, data@)));
            return Ok(rid);
        }
        if self.next_page_id == INVALID_PAGE_ID {
            return Err(ForgeError::Page("no page is left".to_owned()));
        }
        let id: u32 = self.next_page_id;
        self.next_page_id = self.next_page_id + 1;
        set_next(&mut self.pages, l, id);
        let ghost mid = self.pages.deep_view();
        let mut slots: Vec<Option<Vec<u8>>> = Vec::new();
        slots.push(Some(copy));
        assert(slots.deep_view() =~= seq![Some(data@)]);
        let page = HeapPage { page_id: PageId(id), slots, next_page: INVALID_PAGE_ID };
        let ghost pv = page.deep_view();
        self.pages.push(page);
        assert(self@ =~= mid.push(pv));
        Ok(RID { page_id: PageId(id), slot_id: 0 })
    }

    /// The tuple at a place.
    pub fn get_tuple(&self, rid: RID) -> (r: Option<Vec<u8>>)
        ensures
            r.deep_view() == tuple_at(self@, rid),
    {
        match self.find_page(rid.page_id.0) {
            None => None,
            Some(i) => {
                let slot: usize = rid.slot_id as usize;
                let page = &self.pages[i];
                assert(self@[i as int] == page.deep_view());
                if slot < page.slots.len() {
                    assert(page.deep_view().slots[slot as int]
                        == page.slots@[slot as int].deep_view());
                    match &page.slots[slot] {
                        Some(b) => {
                            let c = copy_bytes(b.as_slice());
                            assert(b.deep_view() =~= b@);
                            Some(c)
                        },
                        None => None,
                    }
                } else {
                    None
                }
            },
        }
    }

    /// Changes the tuple at a place, or removes it; tells whether there was one.
    pub fn replace_tuple(&mut self, rid: RID, data: Option<Vec<u8>>) -> (r: bool)
        ensures
            r == tuple_at(old(self)@, rid) is Some,
            final(self)@ == tuple_replaced(old(self)@, rid, data.deep_view()),
            final(self).next_page_id == old(self).next_page_id,
    {
        let ghost pages = self@;
        match self.find_page(rid.page_id.0) {
            None => false,
            Some(i) => {
                let slot: usize = rid.slot_id as usize;
                assert(pages[i as int] == self.pages@[i as int].deep_view());
                if slot >= self.pages[i].slots.len() {
                    return false;
                }
                assert(pages[i as int].slots[slot as int]
                    == self.pages@[i as int].slots@[slot as int].deep_view());
                if self.pages[i].slots[slot].is_none() {
                    return false;
                }
                let ghost dv = data.deep_view();
                set_slot(&mut self.pages, i, slot, data);
                assert(self@ =~= tuple_replaced(pages, rid, dv));
                true
            },
        }
    }

    /// Puts a tuple back into its slot.
    pub fn restore_tuple(&mut self, rid: RID, data: &[u8])
        ensures
            final(self)@ == tuple_restored(old(self)@, rid, data@),
            final(self).next_page_id == old(self).next_page_id,
    {
        let ghost pages = self@;
        match self.find_page(rid.page_id.0) {
            None => {},
            Some(i) => {
                let slot: usize = rid.slot_id as usize;
                assert(pages[i as int] == self.pages@[i as int].deep_view());
                if slot < self.pages[i].slots.len() {
                    let c = copy_bytes(data);
                    let ghost dv = Some(c).deep_view();
                    assert(dv == Some(data@));
                    set_slot(&mut self.pages, i, slot, Some(c));
                    assert(self@ =~= tuple_restored(pages, rid, data@));
                }
            },
        }
    }

    /// Removes the tuple at a place; tells whether there was one.
    pub fn delete_tuple(&mut self, rid: RID) -> (r: bool)
        ensures
            r == tuple_at(old(self)@, rid) is Some,
            final(self)@ == tuple_replaced(old(self)@, rid, None),
            final(self).next_page_id == old(self).next_page_id,
    {
        self.replace_tuple(rid, None)
    }
}

fn take_page(pages: &mut Vec<HeapPage>, i: usize) -> (p: HeapPage)
    requires
        i < old(pages).len(),
    ensures
        p == old(pages)@[i as int],
        final(pages).len() == old(pages).len(),
        forall|k: int|
            0 <= k < old(pages).len() && k != i ==> #[trigger] final(pages)@[k] == old(pages)@[k],
{
    let mut p = HeapPage {
        page_id: PageId(INVALID_PAGE_ID),
        slots: Vec::new(),
        next_page: INVALID_PAGE_ID,
    };
    core::mem::swap(&mut p, &mut pages[i]);
    p
}

fn push_slot(pages: &mut Vec<HeapPage>, i: usize, data: Vec<u8>)
    requires
        i < old(pages).len(),
    ensures
        final(pages).deep_view() == old(pages).deep_view().update(
            i as int,
            with_tuple(old(pages).deep_view()[i as int], data.deep_view()),
        ),
{
    let ghost before = pages.deep_view();
    let mut p = take_page(pages, i);
    let ghost old_slots = p.slots.deep_view();
    let ghost dv = data.deep_view();
    p.slots.push(Some(data));
    assert(p.slots.deep_view() =~= old_slots.push(Some(dv)));
    pages.set(i, p);
    assert(pages.deep_view() =~= before.update(i as int, with_tuple(before[i as int], dv)));
}

fn set_next(pages: &mut Vec<HeapPage>, i: usize, next: u32)
    requires
        i < old(pages).len(),
    ensures
        final(pages).deep_view() == old(pages).deep_view().update(
            i as int,
            PageView { next_page: next, ..old(pages).deep_view()[i as int] },
        ),
{
    let ghost before = pages.deep_view();
    let mut p = take_page(pages, i);
    p.next_page = next;
    pages.set(i, p);
    assert(pages.deep_view() =~= before.update(
        i as int,
        PageView { next_page: next, ..before[i as int] },
    ));
}

fn set_slot(pages: &mut Vec<HeapPage>, i: usize, slot: usize, data: Option<Vec<u8>>)
    requires
        i < old(pages).len(),
        slot < old(pages)@[i as int].slots.len(),
    ensures
        final(pages).deep_view() == old(pages).deep_view().update(
            i as int,
            PageView {
                slots: old(pages).deep_view()[i as int].slots.update(
                    slot as int,
                    data.deep_view(),
                ),
                ..old(pages).deep_view()[i as int]
            },
        ),
{
    let ghost before = pages.deep_view();
    let ghost dv = data.deep_view();
    let mut p = take_page(pages, i);
    let ghost old_slots = p.slots.deep_view();
    p.slots.set(slot, data);
    assert(p.slots.deep_view() =~= old_slots.update(slot as int, dv));
    pages.set(i, p);
    assert(pages.deep_view() =~= before.update(
        i as int,
        PageView { slots: old_slots.update(slot as int, dv), ..before[i as int] },
    ));
}

proof fn lemma_used_grows(slots: Seq<Option<Seq<u8>>>)
    ensures
        page_used(slots) >= 16,
    decreases slots.len(),
{
    if slots.len() > 0 {
        lemma_used_grows(slots.drop_last());
    }
}

// ---------------------------------------------------------------------------
// Laws
// ---------------------------------------------------------------------------

/// Whether two lists of pages are linked alike.
spec fn same_links(a: Seq<PageView>, b: Seq<PageView>) -> bool {
    &&& a.len() == b.len()
    &&& forall|i: int|
        0 <= i < a.len() ==> (#[trigger] a[i]).page_id == b[i].page_id && a[i].next_page
            == b[i].next_page
}

proof fn lemma_same_page_from(a: Seq<PageView>, b: Seq<PageView>, id: u32, i: int)
    requires
        same_links(a, b),
        0 <= i,
    ensures
        page_from(a, id, i) == page_from(b, id, i),
    decreases a.len() - i,
{
    if i < a.len() {
        assert(a[i].page_id == b[i].page_id);
        lemma_same_page_from(a, b, id, i + 1);
    }
}

proof fn lemma_same_chain(a: Seq<PageView>, b: Seq<PageView>, first: u32, fuel: nat)
    requires
        same_links(a, b),
    ensures
        chain(a, first, fuel) == chain(b, first, fuel),
    decreases fuel,
{
    if first != INVALID_PAGE_ID && fuel > 0 {
        lemma_same_page_from(a, b, first, 0);
        lemma_page_from(a, first, 0);
        if let Some(i) = page_from(a, first, 0) {
            assert(a[i].next_page == b[i].next_page);
            lemma_same_chain(a, b, a[i].next_page, (fuel - 1) as nat);
        }
    }
}

/// Only the last page of a chain has no next page.
pub proof fn lemma_chain_end(pages: Seq<PageView>, first: u32, fuel: nat)
    requires
        chain(pages, first, fuel) is Ok,
    ensures
        ({
            let s = chain(pages, first, fuel)->Ok_0;
            &&& forall|k: int| 0 <= k < s.len() ==> 0 <= #[trigger] s[k] < pages.len()
            &&& s.len() > 0 ==> pages[s.last()].next_page == INVALID_PAGE_ID
            &&& forall|k: int|
                0 <= k < s.len() - 1 ==> pages[#[trigger] s[k]].next_page != INVALID_PAGE_ID
        }),
    decreases fuel,
{
    lemma_chain_within(pages, first, fuel);
    if first != INVALID_PAGE_ID {
        let i = page_from(pages, first, 0)->0;
        let rest = chain(pages, pages[i].next_page, (fuel - 1) as nat)->Ok_0;
        lemma_chain_end(pages, pages[i].next_page, (fuel - 1) as nat);
        let s = chain(pages, first, fuel)->Ok_0;
        assert(s =~= seq![i] + rest);
        assert forall|k: int| 0 <= k < s.len() - 1 implies pages[#[trigger] s[k]].next_page
            != INVALID_PAGE_ID by {
            if k > 0 {
                assert(s[k] == rest[k - 1]);
            } else {
                assert(rest.len() > 0);
            }
        }
        if rest.len() > 0 {
            assert(s.last() == rest.last());
        } else if pages[i].next_page != INVALID_PAGE_ID {
            assert(rest.len() > 0);
        }
    }
}

proof fn lemma_tuples_same(a: Seq<PageView>, b: Seq<PageView>, places: Seq<int>)
    requires
        forall|k: int|
            0 <= k < places.len() ==> a[#[trigger] places[k]].slots == b[places[k]].slots
                && a[places[k]].page_id == b[places[k]].page_id,
    ensures
        tuples_of(a, places) == tuples_of(b, places),
    decreases places.len(),
{
    if places.len() > 0 {
        let short = places.drop_last();
        assert forall|k: int| 0 <= k < short.len() implies a[#[trigger] short[k]].slots
            == b[short[k]].slots && a[short[k]].page_id == b[short[k]].page_id by {
            assert(short[k] == places[k]);
        }
        lemma_tuples_same(a, b, short);
        let l = places[places.len() - 1];
        assert(a[l].slots == b[l].slots);
        lemma_page_tuples_same(a[l], b[l], a[l].slots.len() as int);
    }
}

proof fn lemma_page_tuples_same(p: PageView, q: PageView, n: int)
    requires
        p.page_id == q.page_id,
        0 <= n <= p.slots.len(),
        n <= q.slots.len(),
        forall|k: int| 0 <= k < n ==> #[trigger] p.slots[k] == q.slots[k],
    ensures
        page_tuples(p, n) == page_tuples(q, n),
    decreases n,
{
    if n > 0 {
        lemma_page_tuples_same(p, q, n - 1);
    }
}

proof fn lemma_page_from_push(pages: Seq<PageView>, q: PageView, id: u32, i: int)
    requires
        0 <= i <= pages.len(),
    ensures
        page_from(pages, id, i) is Some ==> page_from(pages.push(q), id, i) == page_from(
            pages,
            id,
            i,
        ),
        page_from(pages, id, i) is None && q.page_id.0 == id ==> page_from(pages.push(q), id, i)
            == Some(pages.len() as int),
    decreases pages.len() - i,
{
    if i < pages.len() {
        lemma_page_from_push(pages, q, id, i + 1);
    } else {
        assert(pages.push(q)[i] == q);
    }
}

proof fn lemma_no_page(pages: Seq<PageView>, next: u32, i: int)
    requires
        ids_below(pages, next),
        0 <= i,
    ensures
        page_from(pages, next, i) is None,
    decreases pages.len() - i,
{
    if i < pages.len() {
        assert(pages[i].page_id.0 < next);
        lemma_no_page(pages, next, i + 1);
    }
}

proof fn lemma_chain_grows(
    pages: Seq<PageView>,
    linked: Seq<PageView>,
    q: PageView,
    l: int,
    first: u32,
    fuel: nat,
)
    requires
        0 <= l < pages.len(),
        pages[l].next_page == INVALID_PAGE_ID,
        linked == pages.update(l, PageView { next_page: q.page_id.0, ..pages[l] }),
        q.next_page == INVALID_PAGE_ID,
        q.page_id.0 != INVALID_PAGE_ID,
        ids_below(pages, q.page_id.0),
        chain(pages, first, fuel) is Ok,
        chain(pages, first, fuel)->Ok_0.len() > 0,
        chain(pages, first, fuel)->Ok_0.last() == l,
    ensures
        chain(linked.push(q), first, fuel + 1) == Ok::<Seq<int>, ErrorView>(
            chain(pages, first, fuel)->Ok_0.push(pages.len() as int),
        ),
    decreases fuel,
{
    let all = linked.push(q);
    let s = chain(pages, first, fuel)->Ok_0;
    let i = page_from(pages, first, 0)->0;
    lemma_page_from(pages, first, 0);
    let rest = chain(pages, pages[i].next_page, (fuel - 1) as nat)->Ok_0;
    assert(s =~= seq![i] + rest);
    lemma_linked_page_from(pages, linked, l, first, 0);
    lemma_page_from_push(linked, q, first, 0);
    assert(page_from(all, first, 0) == Some(i));
    if rest.len() == 0 {
        assert(i == l);
        assert(all[i].next_page == q.page_id.0);
        lemma_no_page(pages, q.page_id.0, 0);
        lemma_linked_page_from(pages, linked, l, q.page_id.0, 0);
        lemma_page_from_push(linked, q, q.page_id.0, 0);
        assert(page_from(all, q.page_id.0, 0) == Some(pages.len() as int));
        assert(all[pages.len() as int] == q);
        assert(fuel > 0);
        assert(chain(all, INVALID_PAGE_ID, (fuel - 1) as nat) == Ok::<Seq<int>, ErrorView>(
            Seq::empty(),
        ));
        assert(chain(all, q.page_id.0, fuel) == Ok::<Seq<int>, ErrorView>(
            seq![pages.len() as int] + Seq::<int>::empty(),
        ));
        assert(seq![i] + (seq![pages.len() as int] + Seq::<int>::empty()) =~= s.push(
            pages.len() as int,
        ));
    } else {
        assert(s.last() == rest.last());
        lemma_chain_end(pages, first, fuel);
        assert(pages[s[0]].next_page != INVALID_PAGE_ID);
        assert(i != l);
        assert(all[i].next_page == pages[i].next_page);
        lemma_chain_grows(pages, linked, q, l, pages[i].next_page, (fuel - 1) as nat);
        assert(seq![i] + rest.push(pages.len() as int) =~= s.push(pages.len() as int));
    }
}

proof fn lemma_linked_page_from(
    pages: Seq<PageView>,
    linked: Seq<PageView>,
    l: int,
    id: u32,
    i: int,
)
    requires
        0 <= l < pages.len(),
        linked.len() == pages.len(),
        0 <= i,
        forall|k: int| 0 <= k < pages.len() ==> (#[trigger] linked[k]).page_id == pages[k].page_id,
    ensures
        page_from(linked, id, i) == page_from(pages, id, i),
    decreases pages.len() - i,
{
    if i < pages.len() {
        assert(linked[i].page_id == pages[i].page_id);
        lemma_linked_page_from(pages, linked, l, id, i + 1);
    }
}

/// A tuple that is put into a table is read from it, behind those that were there before.
pub proof fn law_inserted_tuple_is_read(
    pages: Seq<PageView>,
    next: u32,
    first: u32,
    b: Seq<u8>,
)
    requires
        ids_below(pages, next),
        tuple_inserted(pages, next, first, b).result is Ok,
    ensures
        ({
            let c = tuple_inserted(pages, next, first, b);
            &&& table_tuples(pages, first) is Ok
            &&& table_tuples(c.pages, first) == Ok::<Seq<RawView>, ErrorView>(
                table_tuples(pages, first)->Ok_0.push((c.result->Ok_0, b)),
            )
            &&& ids_below(c.pages, c.next)
        }),
{
    let c = tuple_inserted(pages, next, first, b);
    let s = chain(pages, first, pages.len())->Ok_0;
    lemma_chain_end(pages, first, pages.len());
    let l = s.last();
    let p = pages[l];
    let t = s.drop_last();
    assert(s =~= t.push(l));
    assert forall|k: int| 0 <= k < t.len() implies 0 <= #[trigger] t[k] < pages.len() && t[k]
        != l by {
        assert(t[k] == s[k]);
        assert(pages[s[k]].next_page != INVALID_PAGE_ID);
    }
    assert(0 <= s[s.len() - 1] < pages.len());
    if has_room(p, b.len() as int) {
        let q = with_tuple(p, b);
        assert(same_links(pages, c.pages)) by {
            assert forall|i: int| 0 <= i < pages.len() implies (#[trigger] pages[i]).page_id
                == c.pages[i].page_id && pages[i].next_page == c.pages[i].next_page by {
                if i == l {
                    assert(c.pages[i] == q);
                }
            }
        }
        lemma_same_chain(pages, c.pages, first, pages.len());
        assert forall|k: int| 0 <= k < t.len() implies pages[#[trigger] t[k]].slots
            == c.pages[t[k]].slots && pages[t[k]].page_id == c.pages[t[k]].page_id by {
            assert(c.pages[t[k]] == pages[t[k]]);
        }
        lemma_tuples_same(pages, c.pages, t);
        lemma_page_tuples_same(p, q, p.slots.len() as int);
        assert(c.pages[l] == q);
        assert(tuples_of(c.pages, s) =~= tuples_of(pages, s).push((c.result->Ok_0, b)));
        assert forall|i: int| 0 <= i < c.pages.len() implies (#[trigger] c.pages[i]).page_id.0
            < c.next by {
            assert(pages[i].page_id.0 < next);
        }
    } else {
        let linked = pages.update(l, PageView { next_page: next, ..p });
        let q = PageView {
            page_id: PageId(next),
            slots: seq![Some(b)],
            next_page: INVALID_PAGE_ID,
        };
        lemma_chain_grows(pages, linked, q, l, first, pages.len());
        let u = s.push(pages.len() as int);
        assert(u.drop_last() =~= s);
        assert forall|k: int| 0 <= k < s.len() implies pages[#[trigger] s[k]].slots
            == c.pages[s[k]].slots && pages[s[k]].page_id == c.pages[s[k]].page_id by {
            assert(c.pages[s[k]] == linked[s[k]]);
        }
        lemma_tuples_same(pages, c.pages, s);
        assert(c.pages[pages.len() as int] == q);
        assert(page_tuples(q, 0) =~= Seq::<RawView>::empty());
        assert(page_tuples(q, 1) =~= seq![(c.result->Ok_0, b)]);
        assert(tuples_of(c.pages, u) =~= tuples_of(pages, s).push((c.result->Ok_0, b)));
        assert forall|i: int| 0 <= i < c.pages.len() implies (#[trigger] c.pages[i]).page_id.0
            < c.next by {
            if i < pages.len() {
                assert(pages[i].page_id.0 < next);
                assert(c.pages[i] == linked[i]);
            }
        }
    }
}

proof fn lemma_replaced_page_from(pages: Seq<PageView>, rid: RID, b: Option<Seq<u8>>, id: u32)
    ensures
        page_from(tuple_replaced(pages, rid, b), id, 0) == page_from(pages, id, 0),
        tuple_replaced(pages, rid, b).len() == pages.len(),
{
    if tuple_at(pages, rid) is Some {
        lemma_page_from(pages, rid.page_id.0, 0);
        let i = page_from(pages, rid.page_id.0, 0)->0;
        let after = tuple_replaced(pages, rid, b);
        assert forall|k: int| 0 <= k < pages.len() implies (#[trigger] after[k]).page_id
            == pages[k].page_id by {
            if k == i {
                assert(after[k].page_id == pages[k].page_id);
            }
        }
        lemma_linked_page_from(pages, after, i, id, 0);
    }
}

/// After a change of the tuple at a place the changed tuple is there, if there was one before;
/// the tuples at all other places are as they were.
pub proof fn law_replaced_tuple(pages: Seq<PageView>, rid: RID, b: Option<Seq<u8>>, other: RID)
    ensures
        tuple_at(pages, rid) is Some ==> tuple_at(tuple_replaced(pages, rid, b), rid) == b,
        other != rid ==> tuple_at(tuple_replaced(pages, rid, b), other) == tuple_at(pages, other),
{
    lemma_replaced_page_from(pages, rid, b, rid.page_id.0);
    lemma_replaced_page_from(pages, rid, b, other.page_id.0);
    lemma_page_from(pages, rid.page_id.0, 0);
    lemma_page_from(pages, other.page_id.0, 0);
    if tuple_at(pages, rid) is Some && other != rid {
        let i = page_from(pages, rid.page_id.0, 0)->0;
        if let Some(k) = page_from(pages, other.page_id.0, 0) {
            if k == i {
                assert(other.page_id.0 == rid.page_id.0);
                assert(other.page_id == rid.page_id);
                assert(other.slot_id != rid.slot_id);
            }
        }
    }
}

/// Every page of a chain is the first one with its identifier.
pub proof fn lemma_chain_first(pages: Seq<PageView>, first: u32, fuel: nat)
    requires
        chain(pages, first, fuel) is Ok,
    ensures
        forall|k: int|
            0 <= k < chain(pages, first, fuel)->Ok_0.len() ==> page_from(
                pages,
                pages[#[trigger] chain(pages, first, fuel)->Ok_0[k]].page_id.0,
                0,
            ) == Some(chain(pages, first, fuel)->Ok_0[k]),
    decreases fuel,
{
    if first != INVALID_PAGE_ID {
        lemma_page_from(pages, first, 0);
        let i = page_from(pages, first, 0)->0;
        let rest = chain(pages, pages[i].next_page, (fuel - 1) as nat)->Ok_0;
        lemma_chain_first(pages, pages[i].next_page, (fuel - 1) as nat);
        let s = chain(pages, first, fuel)->Ok_0;
        assert(s =~= seq![i] + rest);
        assert forall|k: int| 0 <= k < s.len() implies page_from(
            pages,
            pages[#[trigger] s[k]].page_id.0,
            0,
        ) == Some(s[k]) by {
            if k > 0 {
                assert(s[k] == rest[k - 1]);
            }
        }
    }
}

proof fn lemma_used(slots: Seq<Option<Seq<u8>>>)
    ensures
        page_used(slots) >= 16 + 4 * slots.len(),
    decreases slots.len(),
{
    if slots.len() > 0 {
        lemma_used(slots.drop_last());
    }
}

/// A table from which the tuple that was just put in is removed again holds the tuples that
/// it held before.
pub proof fn law_removed_insertion(pages: Seq<PageView>, next: u32, first: u32, b: Seq<u8>)
    requires
        ids_below(pages, next),
        tuple_inserted(pages, next, first, b).result is Ok,
    ensures
        ({
            let c = tuple_inserted(pages, next, first, b);
            table_tuples(tuple_replaced(c.pages, c.result->Ok_0, None), first) == table_tuples(
                pages,
                first,
            )
        }),
{
    let c = tuple_inserted(pages, next, first, b);
    let rid = c.result->Ok_0;
    let after = tuple_replaced(c.pages, rid, None);
    law_inserted_tuple_is_read(pages, next, first, b);
    let s = chain(c.pages, first, c.pages.len())->Ok_0;
    lemma_chain_end(c.pages, first, c.pages.len());
    lemma_chain_first(c.pages, first, c.pages.len());
    let l = s.last();
    lemma_inserted_place(pages, next, first, b);
    assert(s[s.len() - 1] == l);
    assert(page_from(c.pages, c.pages[l].page_id.0, 0) == Some(l));
    let p = c.pages[l];
    let q = PageView { slots: p.slots.update(rid.slot_id as int, None), ..p };
    assert(after =~= c.pages.update(l, q));
    assert(same_links(c.pages, after)) by {
        assert forall|i: int| 0 <= i < c.pages.len() implies (#[trigger] c.pages[i]).page_id
            == after[i].page_id && c.pages[i].next_page == after[i].next_page by {
            if i == l {
                assert(after[i] == q);
            }
        }
    }
    lemma_same_chain(c.pages, after, first, c.pages.len());
    let t = s.drop_last();
    assert(s =~= t.push(l));
    assert forall|k: int| 0 <= k < t.len() implies c.pages[#[trigger] t[k]].slots
        == after[t[k]].slots && c.pages[t[k]].page_id == after[t[k]].page_id by {
        assert(t[k] == s[k]);
        assert(c.pages[s[k]].next_page != INVALID_PAGE_ID);
        assert(t[k] != l);
    }
    lemma_tuples_same(c.pages, after, t);
    let n = p.slots.len() - 1;
    lemma_page_tuples_same(p, q, n);
    assert(q.slots[n] is None);
    assert(page_tuples(q, n + 1) == page_tuples(q, n));
    assert(tuples_of(after, s) =~= tuples_of(c.pages, t) + page_tuples(p, n));
    assert(tuples_of(c.pages, s) =~= (tuples_of(c.pages, t) + page_tuples(p, n)).push((rid, b)));
    let was = table_tuples(pages, first)->Ok_0;
    assert(tuples_of(c.pages, s) == was.push((rid, b)));
    assert(was.push((rid, b)).drop_last() =~= was);
    assert((tuples_of(c.pages, t) + page_tuples(p, n)).push((rid, b)).drop_last() =~= tuples_of(
        c.pages,
        t,
    ) + page_tuples(p, n));
}

/// Where the tuple that was put in stands: in the last slot of the table's last page.
/// Where a tuple that is put into a table comes to stand.
pub proof fn lemma_inserted_place(pages: Seq<PageView>, next: u32, first: u32, b: Seq<u8>)
    requires
        ids_below(pages, next),
        tuple_inserted(pages, next, first, b).result is Ok,
    ensures
        ({
            let c = tuple_inserted(pages, next, first, b);
            let r = chain(c.pages, first, c.pages.len());
            &&& r is Ok
            &&& r->Ok_0.len() > 0
            &&& 0 <= r->Ok_0.last() < c.pages.len()
            &&& c.pages[r->Ok_0.last()].page_id == c.result->Ok_0.page_id
            &&& c.pages[r->Ok_0.last()].slots.len() == c.result->Ok_0.slot_id + 1
            &&& c.pages[r->Ok_0.last()].slots.last() == Some(b)
        }),
{
    let c = tuple_inserted(pages, next, first, b);
    let s = chain(pages, first, pages.len())->Ok_0;
    lemma_chain_end(pages, first, pages.len());
    let l = s.last();
    assert(0 <= s[s.len() - 1] < pages.len());
    let p = pages[l];
    if has_room(p, b.len() as int) {
        let q = with_tuple(p, b);
        assert(same_links(pages, c.pages)) by {
            assert forall|i: int| 0 <= i < pages.len() implies (#[trigger] pages[i]).page_id
                == c.pages[i].page_id && pages[i].next_page == c.pages[i].next_page by {
                if i == l {
                    assert(c.pages[i] == q);
                }
            }
        }
        lemma_same_chain(pages, c.pages, first, pages.len());
        assert(c.pages[l] == q);
        lemma_used(p.slots);
        assert(p.slots.len() as u16 == p.slots.len());
    } else {
        let linked = pages.update(l, PageView { next_page: next, ..p });
        let q = PageView {
            page_id: PageId(next),
            slots: seq![Some(b)],
            next_page: INVALID_PAGE_ID,
        };
        lemma_chain_grows(pages, linked, q, l, first, pages.len());
        assert(c.pages[pages.len() as int] == q);
    }
}

/// A tuple that was removed or changed and is put back stands as before, and so does all else.
pub proof fn law_restored_tuple(pages: Seq<PageView>, rid: RID, b: Option<Seq<u8>>)
    requires
        tuple_at(pages, rid) is Some,
    ensures
        tuple_restored(tuple_replaced(pages, rid, b), rid, tuple_at(pages, rid)->0) == pages,
{
    lemma_replaced_page_from(pages, rid, b, rid.page_id.0);
    lemma_page_from(pages, rid.page_id.0, 0);
    let i = page_from(pages, rid.page_id.0, 0)->0;
    let mid = tuple_replaced(pages, rid, b);
    let back = tuple_restored(mid, rid, tuple_at(pages, rid)->0);
    assert(back[i].slots =~= pages[i].slots);
    assert(back =~= pages);
}

// ---------------------------------------------------------------------------
// Tables with a tuple changed or removed
// ---------------------------------------------------------------------------

/// Whether the slots of every page can be told apart by their numbers.
pub open spec fn slots_numbered(pages: Seq<PageView>) -> bool {
    forall|i: int| 0 <= i < pages.len() ==> (#[trigger] pages[i]).slots.len() <= 0x1_0000
}

/// A tuple after the one at a place was changed.
pub open spec fn tuple_after(t: RawView, rid: RID, b: Seq<u8>) -> RawView {
    if t.0 == rid {
        (rid, b)
    } else {
        t
    }
}

/// The tuples without the one at a place.
pub open spec fn without_place(tuples: Seq<RawView>, rid: RID) -> Seq<RawView> {
    tuples.filter(|t: RawView| t.0 != rid)
}

/// The tuples with the one at a place changed.
pub open spec fn with_change(tuples: Seq<RawView>, rid: RID, b: Seq<u8>) -> Seq<RawView> {
    tuples.map_values(|t: RawView| tuple_after(t, rid, b))
}

proof fn lemma_without_push(tuples: Seq<RawView>, t: RawView, rid: RID)
    ensures
        without_place(tuples.push(t), rid) == if t.0 != rid {
            without_place(tuples, rid).push(t)
        } else {
            without_place(tuples, rid)
        },
{
    reveal(Seq::filter);
    assert(tuples.push(t).drop_last() =~= tuples);
}

proof fn lemma_without_concat(a: Seq<RawView>, b: Seq<RawView>, rid: RID)
    ensures
        without_place(a + b, rid) == without_place(a, rid) + without_place(b, rid),
    decreases b.len(),
{
    if b.len() == 0 {
        reveal(Seq::filter);
        assert(a + b =~= a);
        assert(without_place(b, rid) =~= Seq::<RawView>::empty());
        assert(without_place(a, rid) + Seq::<RawView>::empty() =~= without_place(a, rid));
    } else {
        let c = b.drop_last();
        lemma_without_concat(a, c, rid);
        assert(b =~= c.push(b.last()));
        assert(a + b =~= (a + c).push(b.last()));
        lemma_without_push(a + c, b.last(), rid);
        lemma_without_push(c, b.last(), rid);
        assert(without_place(a + b, rid) =~= without_place(a, rid) + without_place(b, rid));
    }
}

proof fn lemma_page_without(p: PageView, rid: RID, n: int)
    requires
        0 <= n <= p.slots.len() <= 0x1_0000,
        p.page_id == rid.page_id,
        rid.slot_id < p.slots.len(),
    ensures
        page_tuples(PageView { slots: p.slots.update(rid.slot_id as int, None), ..p }, n)
            == without_place(page_tuples(p, n), rid),
    decreases n,
{
    let q = PageView { slots: p.slots.update(rid.slot_id as int, None), ..p };
    if n > 0 {
        lemma_page_without(p, rid, n - 1);
        let at = RID { page_id: p.page_id, slot_id: (n - 1) as u16 };
        if let Some(b) = p.slots[n - 1] {
            lemma_without_push(page_tuples(p, n - 1), (at, b), rid);
            if n - 1 == rid.slot_id {
                assert(at == rid);
            } else {
                assert(at != rid);
            }
        }
    } else {
        reveal(Seq::filter);
        assert(without_place(Seq::empty(), rid) =~= Seq::<RawView>::empty());
    }
}

proof fn lemma_page_with(p: PageView, rid: RID, b: Seq<u8>, n: int)
    requires
        0 <= n <= p.slots.len() <= 0x1_0000,
        p.page_id == rid.page_id,
        rid.slot_id < p.slots.len(),
        p.slots[rid.slot_id as int] is Some,
    ensures
        page_tuples(PageView { slots: p.slots.update(rid.slot_id as int, Some(b)), ..p }, n)
            == with_change(page_tuples(p, n), rid, b),
    decreases n,
{
    let q = PageView { slots: p.slots.update(rid.slot_id as int, Some(b)), ..p };
    if n > 0 {
        lemma_page_with(p, rid, b, n - 1);
        let at = RID { page_id: p.page_id, slot_id: (n - 1) as u16 };
        if n - 1 == rid.slot_id {
            assert(at == rid);
        } else {
            assert(at != rid);
        }
        assert(page_tuples(q, n) =~= with_change(page_tuples(p, n), rid, b));
    } else {
        assert(with_change(Seq::empty(), rid, b) =~= Seq::<RawView>::empty());
    }
}

proof fn lemma_other_page(p: PageView, rid: RID, b: Seq<u8>, n: int)
    requires
        0 <= n <= p.slots.len(),
        p.page_id != rid.page_id,
    ensures
        without_place(page_tuples(p, n), rid) == page_tuples(p, n),
        with_change(page_tuples(p, n), rid, b) == page_tuples(p, n),
    decreases n,
{
    if n > 0 {
        lemma_other_page(p, rid, b, n - 1);
        if let Some(x) = p.slots[n - 1] {
            let at = RID { page_id: p.page_id, slot_id: (n - 1) as u16 };
            lemma_without_push(page_tuples(p, n - 1), (at, x), rid);
        }
        assert(with_change(page_tuples(p, n), rid, b) =~= page_tuples(p, n));
    } else {
        reveal(Seq::filter);
        assert(without_place(Seq::empty(), rid) =~= Seq::<RawView>::empty());
        assert(with_change(Seq::empty(), rid, b) =~= Seq::<RawView>::empty());
    }
}

proof fn lemma_tuples_changed(pages: Seq<PageView>, places: Seq<int>, rid: RID, b: Option<Seq<u8>>)
    requires
        slots_numbered(pages),
        tuple_at(pages, rid) is Some,
        forall|k: int| 0 <= k < places.len() ==> 0 <= #[trigger] places[k] < pages.len(),
        forall|k: int|
            0 <= k < places.len() ==> page_from(
                pages,
                pages[#[trigger] places[k]].page_id.0,
                0,
            ) == Some(places[k]),
    ensures
        tuples_of(tuple_replaced(pages, rid, b), places) == match b {
            None => without_place(tuples_of(pages, places), rid),
            Some(x) => with_change(tuples_of(pages, places), rid, x),
        },
    decreases places.len(),
{
    let after = tuple_replaced(pages, rid, b);
    lemma_page_from(pages, rid.page_id.0, 0);
    let i = page_from(pages, rid.page_id.0, 0)->0;
    let x = match b {
        Some(x) => x,
        None => Seq::empty(),
    };
    if places.len() == 0 {
        reveal(Seq::filter);
        assert(without_place(Seq::empty(), rid) =~= Seq::<RawView>::empty());
        assert(with_change(Seq::empty(), rid, x) =~= Seq::<RawView>::empty());
    } else {
        let l = places.last();
        let rest = places.drop_last();
        assert(places[places.len() - 1] == l);
        assert forall|k: int| 0 <= k < rest.len() implies 0 <= #[trigger] rest[k] < pages.len()
            && page_from(pages, pages[rest[k]].page_id.0, 0) == Some(rest[k]) by {
            assert(places[k] == rest[k]);
        }
        lemma_tuples_changed(pages, rest, rid, b);
        let p = pages[l];
        let n = p.slots.len() as int;
        if l == i {
            assert(p.page_id == rid.page_id);
            match b {
                None => lemma_page_without(p, rid, n),
                Some(x) => lemma_page_with(p, rid, x, n),
            }
        } else {
            if p.page_id == rid.page_id {
                assert(page_from(pages, p.page_id.0, 0) == Some(l));
            }
            assert(after[l] == p);
            lemma_other_page(p, rid, x, n);
        }
        lemma_without_concat(tuples_of(pages, rest), page_tuples(p, n), rid);
        assert(with_change(tuples_of(pages, rest) + page_tuples(p, n), rid, x) =~= with_change(
            tuples_of(pages, rest),
            rid,
            x,
        ) + with_change(page_tuples(p, n), rid, x));
    }
}

/// A table from which a tuple is removed holds the others, as before.
pub proof fn law_removed_tuple_is_not_read(pages: Seq<PageView>, rid: RID, first: u32)
    requires
        slots_numbered(pages),
        tuple_at(pages, rid) is Some,
        table_tuples(pages, first) is Ok,
    ensures
        table_tuples(tuple_replaced(pages, rid, None), first) == Ok::<Seq<RawView>, ErrorView>(
            without_place(table_tuples(pages, first)->Ok_0, rid),
        ),
{
    lemma_changed_table(pages, rid, None, first);
}

/// A table of which a tuple is changed holds the changed tuple in its place, and the others as
/// before.
pub proof fn law_changed_tuple_is_read(pages: Seq<PageView>, rid: RID, b: Seq<u8>, first: u32)
    requires
        slots_numbered(pages),
        tuple_at(pages, rid) is Some,
        table_tuples(pages, first) is Ok,
    ensures
        table_tuples(tuple_replaced(pages, rid, Some(b)), first) == Ok::<
            Seq<RawView>,
            ErrorView,
        >(with_change(table_tuples(pages, first)->Ok_0, rid, b)),
{
    lemma_changed_table(pages, rid, Some(b), first);
}

proof fn lemma_changed_table(pages: Seq<PageView>, rid: RID, b: Option<Seq<u8>>, first: u32)
    requires
        slots_numbered(pages),
        tuple_at(pages, rid) is Some,
        table_tuples(pages, first) is Ok,
    ensures
        table_tuples(tuple_replaced(pages, rid, b), first) == Ok::<Seq<RawView>, ErrorView>(
            match b {
                None => without_place(table_tuples(pages, first)->Ok_0, rid),
                Some(x) => with_change(table_tuples(pages, first)->Ok_0, rid, x),
            },
        ),
{
    let after = tuple_replaced(pages, rid, b);
    lemma_page_from(pages, rid.page_id.0, 0);
    let i = page_from(pages, rid.page_id.0, 0)->0;
    assert(same_links(pages, after)) by {
        assert forall|k: int| 0 <= k < pages.len() implies (#[trigger] pages[k]).page_id
            == after[k].page_id && pages[k].next_page == after[k].next_page by {}
    }
    lemma_same_chain(pages, after, first, pages.len());
    lemma_chain_within(pages, first, pages.len());
    lemma_chain_first(pages, first, pages.len());
    let places = chain(pages, first, pages.len())->Ok_0;
    lemma_tuples_changed(pages, places, rid, b);
}

/// Every tuple that is read of a table stands at its place.
pub proof fn law_read_tuple_stands_at_its_place(pages: Seq<PageView>, first: u32, k: int)
    requires
        slots_numbered(pages),
        table_tuples(pages, first) is Ok,
        0 <= k < table_tuples(pages, first)->Ok_0.len(),
    ensures
        ({
            let t = table_tuples(pages, first)->Ok_0[k];
            tuple_at(pages, t.0) == Some(t.1)
        }),
{
    lemma_chain_within(pages, first, pages.len());
    lemma_chain_first(pages, first, pages.len());
    lemma_tuples_there(pages, chain(pages, first, pages.len())->Ok_0, k);
}

proof fn lemma_tuples_there(pages: Seq<PageView>, places: Seq<int>, k: int)
    requires
        slots_numbered(pages),
        forall|j: int| 0 <= j < places.len() ==> 0 <= #[trigger] places[j] < pages.len(),
        forall|j: int|
            0 <= j < places.len() ==> page_from(
                pages,
                pages[#[trigger] places[j]].page_id.0,
                0,
            ) == Some(places[j]),
        0 <= k < tuples_of(pages, places).len(),
    ensures
        ({
            let t = tuples_of(pages, places)[k];
            tuple_at(pages, t.0) == Some(t.1)
        }),
    decreases places.len(),
{
    let rest = places.drop_last();
    let l = places.last();
    assert(places[places.len() - 1] == l);
    let p = pages[l];
    let n = p.slots.len() as int;
    let before = tuples_of(pages, rest);
    if k < before.len() {
        assert forall|j: int| 0 <= j < rest.len() implies 0 <= #[trigger] rest[j] < pages.len()
            && page_from(pages, pages[rest[j]].page_id.0, 0) == Some(rest[j]) by {
            assert(places[j] == rest[j]);
        }
        lemma_tuples_there(pages, rest, k);
        assert(tuples_of(pages, places)[k] == before[k]);
    } else {
        lemma_page_tuple(p, n, k - before.len());
        assert(tuples_of(pages, places)[k] == page_tuples(p, n)[k - before.len()]);
    }
}

proof fn lemma_page_tuple(p: PageView, n: int, k: int)
    requires
        0 <= n <= p.slots.len() <= 0x1_0000,
        0 <= k < page_tuples(p, n).len(),
    ensures
        ({
            let t = page_tuples(p, n)[k];
            &&& t.0.page_id == p.page_id
            &&& t.0.slot_id < n
            &&& p.slots[t.0.slot_id as int] == Some(t.1)
        }),
    decreases n,
{
    let m = page_tuples(p, n - 1);
    if k < m.len() {
        lemma_page_tuple(p, n - 1, k);
        assert(page_tuples(p, n)[k] == m[k]);
    }
}

} // verus!
