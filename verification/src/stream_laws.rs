//! Queries that are executed tuple by tuple read the same rows as those executed step by step.
use crate::aggregate::RowView;
use crate::ast::Expr;
use crate::error::ErrorView;
use crate::eval::eval_bool;
use crate::executor::{plain_answer, plan_rows, Purpose};
use crate::filter::filter_from;
use crate::host::HostView;
use crate::iterator::{drained, filter_stream, scan_stream, streamed, Stream};
use crate::plan::PlanNode;
use crate::scan::{live, rows_from, table_of};
use crate::schema::view_names;
use crate::state::ReadView;
use crate::storage::{table_tuples, RawView};
use crate::tuple::{tuple_read, types_of};
use crate::txn::TxnView;
use crate::types::DataType;
use vstd::prelude::*;

verus! {

proof fn lemma_scan_stream(
    raws: Seq<RawView>,
    i: int,
    mvcc: bool,
    txn: Option<TxnView>,
    types: Seq<DataType>,
    acc: Seq<RowView>,
)
    requires
        0 <= i <= raws.len(),
    ensures
        ({
            let s = scan_stream(raws, i, mvcc, txn, types);
            rows_from(raws, i, mvcc, txn, types, None, acc) == match s.error {
                Some(e) => Err::<Seq<RowView>, ErrorView>(e),
                None => Ok(acc + s.rows),
            }
        }),
    decreases raws.len() - i,
{
    if i < raws.len() {
        match live(raws[i].1, mvcc, txn) {
            None => lemma_scan_stream(raws, i + 1, mvcc, txn, types, acc),
            Some(d) => {
                if let Ok(row) = tuple_read(d, types) {
                    let x = (raws[i].0, row);
                    lemma_scan_stream(raws, i + 1, mvcc, txn, types, acc.push(x));
                    let rest = scan_stream(raws, i + 1, mvcc, txn, types);
                    assert(acc.push(x) + rest.rows =~= acc + (seq![x] + rest.rows));
                }
            },
        }
    } else {
        assert(acc + Seq::<RowView>::empty() =~= acc);
    }
}

proof fn lemma_filter_stream(
    p: Expr,
    rows: Seq<RowView>,
    i: int,
    acc: Seq<RowView>,
    names: Seq<Seq<char>>,
    h: HostView,
)
    requires
        0 <= i <= rows.len(),
    ensures
        ({
            let s = filter_stream(Stream { rows: rows.skip(i), error: None }, p, names, h);
            filter_from(p, rows, i, acc, names, h) == match s.error {
                Some(e) => Err::<Seq<RowView>, ErrorView>(e),
                None => Ok(acc + s.rows),
            }
        }),
    decreases rows.len() - i,
{
    let s = Stream { rows: rows.skip(i), error: None };
    if i < rows.len() {
        assert(s.rows[0] == rows[i]);
        assert(s.rest().rows =~= rows.skip(i + 1));
        let rest = filter_stream(Stream { rows: rows.skip(i + 1), error: None }, p, names, h);
        match eval_bool(p, rows[i].1, names, h) {
            Ok(true) => {
                lemma_filter_stream(p, rows, i + 1, acc.push(rows[i]), names, h);
                assert(acc.push(rows[i]) + rest.rows =~= acc + (seq![rows[i]] + rest.rows));
            },
            Ok(false) => lemma_filter_stream(p, rows, i + 1, acc, names, h),
            Err(_) => {},
        }
    } else {
        assert(acc + s.rows =~= acc);
    }
}

proof fn lemma_filter_keeps_error(s: Stream, p: Expr, names: Seq<Seq<char>>, h: HostView)
    requires
        s.error is Some,
    ensures
        filter_stream(s, p, names, h).error is Some,
    decreases s.rows.len(),
{
    if s.rows.len() > 0 {
        lemma_filter_keeps_error(s.rest(), p, names, h);
    }
}

/// Whether a plan is a scan of a table with filters over it.
pub open spec fn filters_a_scan(plan: PlanNode) -> bool
    decreases plan,
{
    match plan {
        PlanNode::SeqScan { table_name, alias } => true,
        PlanNode::Filter { predicate, child } => filters_a_scan(*child),
        _ => false,
    }
}

/// A filtered scan that is executed tuple by tuple fails if and only if it does so step by step,
/// and gives the same columns and rows otherwise.
pub proof fn law_streaming_reads_the_same(plan: PlanNode, rd: ReadView, h: HostView)
    requires
        filters_a_scan(plan),
        streamed(plan, rd, h) is Some,
    ensures
        match (streamed(plan, rd, h)->0, plan_rows(plan, Purpose::Query, rd, h)) {
            (Err(_), r) => r is Err,
            (Ok(p), Err(_)) => p.1.error is Some,
            (Ok(p), Ok(x)) => p.1.error is None && p.0 == view_names(x.0) && p.1.rows == x.1,
        },
    decreases plan,
{
    match plan {
        PlanNode::SeqScan { table_name, alias } => {
            if table_name@ == "__dual__"@ {
                let x = plan_rows(plan, Purpose::Query, rd, h)->Ok_0;
                assert(view_names(x.0) =~= Seq::<Seq<char>>::empty());
            } else if let Some(info) = table_of(rd.catalog, table_name@) {
                if let Ok(raws) = table_tuples(rd.pages, info.first_page_id.0) {
                    let types = types_of(info.schema);
                    lemma_scan_stream(raws, 0, info.mvcc_enabled, rd.txn, types, Seq::empty());
                    let s = scan_stream(raws, 0, info.mvcc_enabled, rd.txn, types);
                    assert(Seq::<RowView>::empty() + s.rows =~= s.rows);
                }
            }
        },
        PlanNode::Filter { predicate, child } => {
            law_streaming_reads_the_same(*child, rd, h);
            if let Ok(p) = streamed(*child, rd, h)->0 {
                match plan_rows(*child, Purpose::Query, rd, h) {
                    Err(_) => lemma_filter_keeps_error(p.1, predicate, p.0, h),
                    Ok(x) => {
                        lemma_filter_stream(predicate, x.1, 0, Seq::empty(), p.0, h);
                        assert(x.1.skip(0) =~= x.1);
                        let s = filter_stream(p.1, predicate, p.0, h);
                        assert(Seq::<RowView>::empty() + s.rows =~= s.rows);
                    },
                }
            }
        },
        _ => {},
    }
}

/// A filtered scan has one answer, however it is executed.
pub proof fn law_streaming_answers_the_same(plan: PlanNode, rd: ReadView, h: HostView)
    requires
        filters_a_scan(plan),
        streamed(plan, rd, h) is Some,
        plan_rows(plan, Purpose::Query, rd, h) is Ok,
    ensures
        streamed(plan, rd, h)->0 is Ok,
        drained((streamed(plan, rd, h)->0->Ok_0).0, (streamed(plan, rd, h)->0->Ok_0).1)
            == plain_answer(plan_rows(plan, Purpose::Query, rd, h)),
{
    law_streaming_reads_the_same(plan, rd, h);
}

} // verus!
