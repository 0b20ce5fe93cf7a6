//! Scans whose pages are read by several workers.
use crate::catalog::TableInfo;
use crate::common::RID;
use crate::error::{outcome, Result};
use crate::scan::{read_rows, rows_from};
use crate::storage::{tuples_of, PageView, RawView};
use crate::tuple::types_of;
use crate::txn::TxnContext;
use crate::types::Value;
use vstd::prelude::*;

verus! {

/// Minimum number of pages to trigger parallel scan.
pub const PARALLEL_PAGE_THRESHOLD: usize = 4;

/// The first `n` parts put together.
pub open spec fn together<T>(parts: Seq<Seq<T>>, n: int) -> Seq<T>
    decreases n,
{
    if n <= 0 || n > parts.len() {
        Seq::empty()
    } else {
        together(parts, n - 1) + parts[n - 1]
    }
}

/// How many pages each of the workers reads, but for the last one.
pub open spec fn share(pages: int, workers: int) -> int
    recommends
        workers > 0,
{
    (pages + workers - 1) / workers
}

/// Splits the pages of a table among workers, in order.
pub fn split_pages(places: &Vec<usize>, workers: usize) -> (r: Vec<Vec<usize>>)
    requires
        workers > 0,
    ensures
        together(r.deep_view(), r.len() as int) == places@,
        forall|k: int|
            0 <= k < r.len() ==> 0 < (#[trigger] r@[k]).len() && r@[k].len() <= share(
                places.len() as int,
                workers as int,
            ) && (k + 1 < r.len() ==> r@[k].len() == share(
                places.len() as int,
                workers as int,
            )),
{
    let ghost all = places@;
    let size: usize = if places.len() == 0 {
        1
    } else {
        (places.len() - 1) / workers + 1
    };
    proof {
        if places.len() > 0 {
            let n = places.len() as int;
            let w = workers as int;
            assert((n + w - 1) / w == (n - 1) / w + 1) by (nonlinear_arith)
                requires
                    w > 0,
                    n > 0,
            ;
        }
    }
    let mut out: Vec<Vec<usize>> = Vec::new();
    let mut part: Vec<usize> = Vec::new();
    let mut i: usize = 0;
    assert(all.take(0) =~= Seq::<usize>::empty());
    while i < places.len()
        invariant
            0 <= i <= places.len(),
            all == places@,
            size >= 1,
            places.len() > 0 ==> size == share(places.len() as int, workers as int),
            part.len() < size,
            together(out.deep_view(), out.len() as int) + part@ == all.take(i as int),
            forall|k: int| 0 <= k < out.len() ==> (#[trigger] out@[k]).len() == size,
            i > 0 && part.len() == 0 ==> out.len() > 0,
        decreases places.len() - i,
    {
        let ghost before = together(out.deep_view(), out.len() as int);
        let ghost had = part@;
        part.push(places[i]);
        assert(all.take(i + 1) =~= all.take(i as int).push(all[i as int]));
        assert(before + part@ =~= (before + had).push(all[i as int]));
        if part.len() == size {
            let mut full: Vec<usize> = Vec::new();
            core::mem::swap(&mut full, &mut part);
            let ghost old_out = out.deep_view();
            let ghost fv = full@;
            assert(full.deep_view() =~= fv);
            out.push(full);
            assert(out.deep_view() =~= old_out.push(fv));
            proof {
                lemma_together_push(old_out, fv);
            }
            assert(together(out.deep_view(), out.len() as int) + part@ =~= all.take(i + 1));
        }
        i += 1;
    }
    assert(all.take(i as int) =~= all);
    if part.len() > 0 {
        let ghost old_out = out.deep_view();
        let ghost fv = part@;
        assert(part.deep_view() =~= fv);
        out.push(part);
        assert(out.deep_view() =~= old_out.push(fv));
        proof {
            lemma_together_push(old_out, fv);
        }
    } else {
        assert(together(out.deep_view(), out.len() as int) + part@ =~= together(
            out.deep_view(),
            out.len() as int,
        ));
    }
    out
}

proof fn lemma_together_prefix<T>(parts: Seq<Seq<T>>, more: Seq<T>, n: int)
    requires
        0 <= n <= parts.len(),
    ensures
        together(parts.push(more), n) == together(parts, n),
    decreases n,
{
    if n > 0 {
        lemma_together_prefix(parts, more, n - 1);
        assert(parts.push(more)[n - 1] == parts[n - 1]);
    }
}

proof fn lemma_together_push<T>(parts: Seq<Seq<T>>, more: Seq<T>)
    ensures
        together(parts.push(more), parts.len() as int + 1) == together(parts, parts.len() as int) + more,
{
    lemma_together_prefix(parts, more, parts.len() as int);
    assert(parts.push(more)[parts.len() as int] == more);
}

/// The rows of what the workers have read, in the order of the workers.
pub fn merge_scans(
    parts: Vec<Vec<(RID, Vec<u8>)>>,
    info: &TableInfo,
    limit: Option<usize>,
    txn: Option<&TxnContext>,
) -> (r: Result<Vec<(RID, Vec<Value>)>>)
    ensures
        outcome(r) == rows_from(
            together(parts.deep_view(), parts.len() as int),
            0,
            info.mvcc_enabled,
            txn.deep_view(),
            types_of(info.schema),
            limit,
            Seq::empty(),
        ),
{
    let ghost pv = parts.deep_view();
    let mut left = parts;
    let mut raws: Vec<(RID, Vec<u8>)> = Vec::new();
    let mut i: usize = 0;
    assert(raws.deep_view() =~= Seq::<RawView>::empty());
    while i < left.len()
        invariant
            0 <= i <= left.len(),
            left.len() == pv.len(),
            forall|k: int| i <= k < left.len() ==> (#[trigger] left@[k]).deep_view() == pv[k],
            raws.deep_view() == together(pv, i as int),
        decreases left.len() - i,
    {
        let ghost had = raws.deep_view();
        let mut part: Vec<(RID, Vec<u8>)> = Vec::new();
        core::mem::swap(&mut part, &mut left[i]);
        assert(part.deep_view() == pv[i as int]);
        raws.append(&mut part);
        assert(raws.deep_view() =~= had + pv[i as int]);
        i += 1;
    }
    read_rows(&raws, info, limit, txn)
}

proof fn lemma_tuples_of_concat(pages: Seq<PageView>, a: Seq<int>, b: Seq<int>)
    ensures
        tuples_of(pages, a + b) == tuples_of(pages, a) + tuples_of(pages, b),
    decreases b.len(),
{
    if b.len() == 0 {
        assert(a + b =~= a);
        assert(tuples_of(pages, a) + Seq::<RawView>::empty() =~= tuples_of(pages, a));
    } else {
        lemma_tuples_of_concat(pages, a, b.drop_last());
        assert((a + b).drop_last() =~= a + b.drop_last());
        assert((a + b).last() == b.last());
        assert(tuples_of(pages, a + b) =~= tuples_of(pages, a) + tuples_of(pages, b));
    }
}

/// What the workers read, put together, is what one worker reads.
pub proof fn law_split_scan_reads_the_same(
    pages: Seq<PageView>,
    shares: Seq<Seq<int>>,
    scans: Seq<Seq<RawView>>,
    n: int,
)
    requires
        scans.len() == shares.len(),
        forall|k: int|
            0 <= k < shares.len() ==> #[trigger] scans[k] == tuples_of(pages, shares[k]),
        0 <= n <= shares.len(),
    ensures
        together(scans, n) == tuples_of(pages, together(shares, n)),
    decreases n,
{
    if n > 0 {
        law_split_scan_reads_the_same(pages, shares, scans, n - 1);
        assert(scans[n - 1] == tuples_of(pages, shares[n - 1]));
        lemma_tuples_of_concat(pages, together(shares, n - 1), shares[n - 1]);
    }
}

} // verus!
