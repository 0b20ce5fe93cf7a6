//! Volcano-style pull-based iterator model for read-only query execution.
//!
//! Each operator produces one tuple at a time via `next_tuple()`. The top operator pulls
//! from its child, which pulls from its child, and so on.
use crate::aggregate::{
    aggregate_result, build_column_names, column_names, execute_aggregate, has_aggregates,
    column_has_aggregate, RowView,
};
use crate::ast::{Expr, OrderByItem, SelectColumn};
use crate::bytes::{find_key, lemma_bytes_deep};
use crate::catalog::{Catalog, TableInfo};
use crate::common::{dummy_rid, no_rid, RID};
use crate::error::{outcome, ErrorView, ForgeError, Result};
use crate::eval::{eval_bool, eval_to_bool};
use crate::host::{Host, HostView};
use crate::plan::PlanNode;
use crate::projection::{
    bare_name, output_plan, plan_output, pointed, project_from, project_row, strip_table_prefix,
    Output, OutputView,
};
use crate::scan::{find_table, live, live_part, no_table, table_of};
use crate::schema::{
    columns_to_schema, lemma_view_names, prefixed, view_names, Schema,
};
use crate::sort::{execute_sort, sorted_rows};
use crate::state::{
    answer, find_named, named_from, ExecuteResult, ReadContext, ReadView, ResultView,
};
use crate::storage::{table_tuples, BufferPool, RawView};
use crate::streaming::{execute_grouping, grouped};
use crate::text::{lower_text, same_text};
use crate::tuple::{deserialize, tuple_read, types_of};
use crate::txn::{TxnContext, TxnView};
use crate::types::{clone_row, DataType, Value, ValueView};
use crate::values::{row_key, serialize_row_key};
use vstd::prelude::*;

verus! {

// ---------------------------------------------------------------------------
// Streams
// ---------------------------------------------------------------------------

/// A row produced by a volcano iterator.
#[derive(Debug)]
pub struct TupleRow {
    pub rid: RID,
    pub values: Vec<Value>,
}

impl DeepView for TupleRow {
    type V = RowView;

    open spec fn deep_view(&self) -> RowView {
        (self.rid, self.values.deep_view())
    }
}

/// What an iterator has yet to give: rows, and the error that comes behind them, if one does.
pub struct Stream {
    pub rows: Seq<RowView>,
    pub error: Option<ErrorView>,
}

/// The stream that gives nothing.
pub open spec fn ended() -> Stream {
    Stream { rows: Seq::empty(), error: None }
}

/// The stream that fails at once.
pub open spec fn failed(e: ErrorView) -> Stream {
    Stream { rows: Seq::empty(), error: Some(e) }
}

/// The stream that gives a row first.
pub open spec fn before(row: RowView, s: Stream) -> Stream {
    Stream { rows: seq![row] + s.rows, error: s.error }
}

impl Stream {
    /// What is left behind the first row.
    pub open spec fn rest(self) -> Stream {
        Stream { rows: self.rows.skip(1), error: self.error }
    }
}

/// Whether a pull gives what a stream has first, and leaves the rest.
pub open spec fn pulled(s: Stream, r: Result<Option<TupleRow>>, after: Stream) -> bool {
    match r {
        Ok(Some(row)) => s.rows.len() > 0 && row.deep_view() == s.rows[0] && after == s.rest(),
        Ok(None) => s.rows.len() == 0 && s.error is None && after == s,
        Err(e) => s.rows.len() == 0 && s.error == Some(e@),
    }
}

proof fn lemma_before(row: RowView, s: Stream)
    ensures
        before(row, s).rows.len() > 0,
        before(row, s).rows[0] == row,
        before(row, s).rest() == s,
{
    assert(before(row, s).rows.skip(1) =~= s.rows);
}

/// Volcano-style pull-based iterator. Each executor node implements this.
pub trait TupleIterator {
    /// What the iterator has yet to give.
    spec fn stream(&self, h: HostView) -> Stream;

    /// The names of the columns.
    spec fn names(&self) -> Seq<Seq<char>>;

    /// Return the output schema of this iterator.
    fn schema(&self) -> (s: &Schema)
        ensures
            s.names() == self.names(),
    ;

    /// Advance to the next tuple. Returns `None` when exhausted.
    fn next_tuple(&mut self, host: &Host) -> (r: Result<Option<TupleRow>>)
        ensures
            pulled(old(self).stream(host@), r, final(self).stream(host@)),
            final(self).names() == old(self).names(),
    ;
}

/// The rows of the tuples from `i` on that count.
pub open spec fn scan_stream(
    raws: Seq<RawView>,
    i: int,
    mvcc: bool,
    txn: Option<TxnView>,
    types: Seq<DataType>,
) -> Stream
    decreases raws.len() - i,
{
    if i < 0 || i >= raws.len() {
        ended()
    } else {
        match live(raws[i].1, mvcc, txn) {
            None => scan_stream(raws, i + 1, mvcc, txn, types),
            Some(d) => match tuple_read(d, types) {
                Err(e) => failed(e),
                Ok(row) => before((raws[i].0, row), scan_stream(raws, i + 1, mvcc, txn, types)),
            },
        }
    }
}

/// The rows of a stream that satisfy a predicate.
pub open spec fn filter_stream(s: Stream, p: Expr, names: Seq<Seq<char>>, h: HostView) -> Stream
    decreases s.rows.len(),
{
    if s.rows.len() == 0 {
        s
    } else {
        match eval_bool(p, s.rows[0].1, names, h) {
            Err(e) => failed(e),
            Ok(true) => before(s.rows[0], filter_stream(s.rest(), p, names, h)),
            Ok(false) => filter_stream(s.rest(), p, names, h),
        }
    }
}

/// No window functions among `n` columns.
pub open spec fn no_windows(n: nat) -> Seq<Option<Seq<ValueView>>> {
    Seq::new(n, |i: int| None)
}

/// The output rows of the rows of a stream.
pub open spec fn project_stream(
    s: Stream,
    exprs: Seq<OutputView>,
    names: Seq<Seq<char>>,
    h: HostView,
) -> Stream
    decreases s.rows.len(),
{
    if s.rows.len() == 0 {
        s
    } else {
        match project_from(
            exprs,
            no_windows(exprs.len()),
            0,
            Seq::empty(),
            0,
            s.rows[0].1,
            names,
            h,
        ) {
            Err(e) => failed(e),
            Ok(row) => before((s.rows[0].0, row), project_stream(s.rest(), exprs, names, h)),
        }
    }
}

/// Rows that stand on no page.
pub open spec fn placeless(rows: Seq<Seq<ValueView>>) -> Seq<RowView> {
    Seq::new(rows.len(), |i: int| (no_rid(), rows[i]))
}

/// The row of aggregates over a stream.
pub open spec fn aggregate_stream(
    s: Stream,
    cols: Seq<SelectColumn>,
    names: Seq<Seq<char>>,
    h: HostView,
) -> Stream {
    if s.error is Some {
        failed(s.error->0)
    } else {
        match aggregate_result(cols, s.rows, names, h) {
            Err(e) => failed(e),
            Ok(p) => if p.1.len() > 0 {
                Stream { rows: seq![(no_rid(), p.1[0])], error: None }
            } else {
                ended()
            },
        }
    }
}

/// The rows of the groups of a stream.
pub open spec fn group_stream(
    s: Stream,
    group_exprs: Seq<Expr>,
    having: Option<Expr>,
    cols: Seq<SelectColumn>,
    names: Seq<Seq<char>>,
    h: HostView,
) -> Stream {
    if s.error is Some {
        failed(s.error->0)
    } else {
        match grouped(group_exprs, having, cols, s.rows, names, h) {
            Err(e) => failed(e),
            Ok(p) => Stream { rows: placeless(p.1), error: None },
        }
    }
}

/// At most `count` rows of a stream behind the first `offset`.
pub open spec fn limit_stream(s: Stream, count: int, offset: int) -> Stream {
    if s.rows.len() < offset {
        Stream { rows: Seq::empty(), error: s.error }
    } else if s.rows.len() - offset >= count {
        Stream { rows: s.rows.subrange(offset, offset + count), error: None }
    } else {
        Stream { rows: s.rows.skip(offset), error: s.error }
    }
}

/// The values of rows.
pub open spec fn values_of(rows: Seq<RowView>) -> Seq<Seq<ValueView>> {
    Seq::new(rows.len(), |i: int| rows[i].1)
}

/// The rows of a stream in order.
pub open spec fn sort_stream(
    s: Stream,
    order_by: Seq<OrderByItem>,
    names: Seq<Seq<char>>,
    h: HostView,
) -> Stream {
    if s.error is Some {
        failed(s.error->0)
    } else {
        match sorted_rows(order_by, values_of(s.rows), names, h) {
            Err(e) => failed(e),
            Ok(rows) => Stream { rows: placeless(rows), error: None },
        }
    }
}

/// The rows of a stream that are not among those seen, each once.
pub open spec fn distinct_stream(s: Stream, seen: Seq<Seq<u8>>) -> Stream
    decreases s.rows.len(),
{
    if s.rows.len() == 0 {
        s
    } else {
        let key = row_key(s.rows[0].1);
        if seen.contains(key) {
            distinct_stream(s.rest(), seen)
        } else {
            before(s.rows[0], distinct_stream(s.rest(), seen.push(key)))
        }
    }
}

// ---------------------------------------------------------------------------
// Iterators
// ---------------------------------------------------------------------------

/// Sequential scan iterator. Each `next_tuple()` call returns the next live tuple.
#[derive(Debug)]
pub struct SeqScanIterator<'a> {
    pub out: Schema,
    pub info: &'a TableInfo,
    pub txn_ctx: Option<&'a TxnContext>,
    pub raws: Vec<(RID, Vec<u8>)>,
    pub at: usize,
}

/// Produces a single empty row for SELECT without FROM.
#[derive(Debug)]
pub struct DualIterator {
    pub out: Schema,
    pub emitted: bool,
}

/// Passes through tuples that match a predicate.
#[derive(Debug)]
pub struct FilterIterator<'a> {
    pub child: TupleSource<'a>,
    pub predicate: &'a Expr,
}

/// Evaluates projection expressions per tuple.
#[derive(Debug)]
pub struct ProjectionIterator<'a> {
    pub child: TupleSource<'a>,
    pub out: Schema,
    /// The expression of each output column; none for a column that `*` takes over.
    pub eval_plan: Vec<Output<'a>>,
}

/// Computes aggregates without GROUP BY: consumes all child tuples in a single
/// `next_tuple()` call, then returns one row.
#[derive(Debug)]
pub struct AggregateIterator<'a> {
    pub child: TupleSource<'a>,
    pub columns: &'a Vec<SelectColumn>,
    pub out: Schema,
    pub done: bool,
}

/// Groups and aggregates.
#[derive(Debug)]
pub struct GroupByIterator<'a> {
    pub child: TupleSource<'a>,
    pub group_exprs: &'a Vec<Expr>,
    pub having: &'a Option<Expr>,
    pub select_columns: &'a Vec<SelectColumn>,
    pub out: Schema,
    /// Output rows, computed on the first call.
    pub output: Option<Vec<Vec<Value>>>,
    pub output_idx: usize,
}

/// Stops after some tuples, having passed over some.
#[derive(Debug)]
pub struct LimitIterator<'a> {
    pub child: TupleSource<'a>,
    /// How many tuples may still be given.
    pub count: usize,
    /// How many tuples are still to be passed over.
    pub offset: usize,
}

/// Materializes from child, sorts, emits one at a time.
#[derive(Debug)]
pub struct SortIterator<'a> {
    pub child: TupleSource<'a>,
    pub order_by: &'a Vec<OrderByItem>,
    /// Sorted output rows, computed on the first call.
    pub output: Option<Vec<Vec<Value>>>,
    pub output_idx: usize,
}

/// Deduplicates.
#[derive(Debug)]
pub struct DistinctIterator<'a> {
    pub child: TupleSource<'a>,
    /// The keys of the rows seen so far.
    pub seen: Vec<Vec<u8>>,
}

/// An iterator of any kind.
#[derive(Debug)]
pub enum TupleSource<'a> {
    Scan(SeqScanIterator<'a>),
    Dual(DualIterator),
    Filter(Box<FilterIterator<'a>>),
    Project(Box<ProjectionIterator<'a>>),
    Aggregate(Box<AggregateIterator<'a>>),
    GroupBy(Box<GroupByIterator<'a>>),
    Limit(Box<LimitIterator<'a>>),
    Sort(Box<SortIterator<'a>>),
    Distinct(Box<DistinctIterator<'a>>),
}

/// How many iterators stand one above the other.
pub open spec fn depth(s: TupleSource) -> nat
    decreases s,
{
    match s {
        TupleSource::Scan(_) => 0,
        TupleSource::Dual(_) => 0,
        TupleSource::Filter(x) => depth(x.child) + 1,
        TupleSource::Project(x) => depth(x.child) + 1,
        TupleSource::Aggregate(x) => depth(x.child) + 1,
        TupleSource::GroupBy(x) => depth(x.child) + 1,
        TupleSource::Limit(x) => depth(x.child) + 1,
        TupleSource::Sort(x) => depth(x.child) + 1,
        TupleSource::Distinct(x) => depth(x.child) + 1,
    }
}

/// The names of an iterator's columns.
pub open spec fn names_of(s: TupleSource) -> Seq<Seq<char>>
    decreases s,
{
    match s {
        TupleSource::Scan(x) => x.out.names(),
        TupleSource::Dual(x) => x.out.names(),
        TupleSource::Filter(x) => names_of(x.child),
        TupleSource::Project(x) => x.out.names(),
        TupleSource::Aggregate(x) => x.out.names(),
        TupleSource::GroupBy(x) => x.out.names(),
        TupleSource::Limit(x) => names_of(x.child),
        TupleSource::Sort(x) => names_of(x.child),
        TupleSource::Distinct(x) => names_of(x.child),
    }
}

/// Rows that are still to be given.
pub open spec fn output_stream(rows: Vec<Vec<Value>>, i: usize) -> Stream {
    Stream {
        rows: if i <= rows.len() {
            placeless(rows.deep_view()).skip(i as int)
        } else {
            Seq::empty()
        },
        error: None,
    }
}

/// What an iterator has yet to give.
pub open spec fn stream_of(s: TupleSource, h: HostView) -> Stream
    decreases s,
{
    match s {
        TupleSource::Scan(x) => scan_stream(
            x.raws.deep_view(),
            x.at as int,
            x.info.mvcc_enabled,
            x.txn_ctx.deep_view(),
            types_of(x.info.schema),
        ),
        TupleSource::Dual(x) => if x.emitted {
            ended()
        } else {
            Stream { rows: seq![(no_rid(), Seq::empty())], error: None }
        },
        TupleSource::Filter(x) => filter_stream(
            stream_of(x.child, h),
            *x.predicate,
            names_of(x.child),
            h,
        ),
        TupleSource::Project(x) => project_stream(
            stream_of(x.child, h),
            pointed(x.eval_plan@),
            names_of(x.child),
            h,
        ),
        TupleSource::Aggregate(x) => if x.done {
            ended()
        } else {
            aggregate_stream(stream_of(x.child, h), x.columns@, names_of(x.child), h)
        },
        TupleSource::GroupBy(x) => match x.output {
            Some(rows) => output_stream(rows, x.output_idx),
            None => group_stream(
                stream_of(x.child, h),
                x.group_exprs@,
                *x.having,
                x.select_columns@,
                names_of(x.child),
                h,
            ),
        },
        TupleSource::Limit(x) => limit_stream(
            stream_of(x.child, h),
            x.count as int,
            x.offset as int,
        ),
        TupleSource::Sort(x) => match x.output {
            Some(rows) => output_stream(rows, x.output_idx),
            None => sort_stream(stream_of(x.child, h), x.order_by@, names_of(x.child), h),
        },
        TupleSource::Distinct(x) => distinct_stream(stream_of(x.child, h), x.seen.deep_view()),
    }
}

// ---------------------------------------------------------------------------
// Pulling
// ---------------------------------------------------------------------------

fn schema_of<'b>(s: &'b TupleSource) -> (r: &'b Schema)
    ensures
        r.names() == names_of(*s),
    decreases *s,
{
    match s {
        TupleSource::Scan(x) => &x.out,
        TupleSource::Dual(x) => &x.out,
        TupleSource::Filter(x) => schema_of(&x.child),
        TupleSource::Project(x) => &x.out,
        TupleSource::Aggregate(x) => &x.out,
        TupleSource::GroupBy(x) => &x.out,
        TupleSource::Limit(x) => schema_of(&x.child),
        TupleSource::Sort(x) => schema_of(&x.child),
        TupleSource::Distinct(x) => schema_of(&x.child),
    }
}

fn advance(s: &mut TupleSource, host: &Host) -> (r: Result<Option<TupleRow>>)
    ensures
        pulled(stream_of(*old(s), host@), r, stream_of(*final(s), host@)),
        names_of(*final(s)) == names_of(*old(s)),
        depth(*final(s)) == depth(*old(s)),
    decreases depth(*old(s)), 0int,
{
    match s {
        TupleSource::Scan(x) => x.next_tuple(host),
        TupleSource::Dual(x) => x.next_tuple(host),
        TupleSource::Filter(x) => advance_filter(x, host),
        TupleSource::Project(x) => advance_project(x, host),
        TupleSource::Aggregate(x) => advance_aggregate(x, host),
        TupleSource::GroupBy(x) => advance_group_by(x, host),
        TupleSource::Limit(x) => advance_limit(x, host),
        TupleSource::Sort(x) => advance_sort(x, host),
        TupleSource::Distinct(x) => advance_distinct(x, host),
    }
}

fn drain(s: &mut TupleSource, host: &Host) -> (r: Result<Vec<(RID, Vec<Value>)>>)
    ensures
        match r {
            Ok(rows) => stream_of(*old(s), host@).error is None && rows.deep_view() == stream_of(
                *old(s),
                host@,
            ).rows,
            Err(e) => stream_of(*old(s), host@).error == Some(e@),
        },
        names_of(*final(s)) == names_of(*old(s)),
        depth(*final(s)) == depth(*old(s)),
    decreases depth(*old(s)), 1int,
{
    let ghost all = stream_of(*s, host@);
    let mut rows: Vec<(RID, Vec<Value>)> = Vec::new();
    assert(rows.deep_view() + all.rows =~= all.rows);
    loop
        invariant
            names_of(*s) == names_of(*old(s)),
            depth(*s) == depth(*old(s)),
            all == stream_of(*old(s), host@),
            stream_of(*s, host@).error == all.error,
            rows.deep_view() + stream_of(*s, host@).rows == all.rows,
        decreases stream_of(*s, host@).rows.len(),
    {
        let ghost left = stream_of(*s, host@);
        let ghost had = rows.deep_view();
        match advance(s, host)? {
            None => {
                assert(had + left.rows =~= had);
                return Ok(rows);
            },
            Some(row) => {
                let ghost rv = row.deep_view();
                rows.push((row.rid, row.values));
                assert(rows.deep_view() =~= had.push(rv));
                assert(had.push(rv) + left.rest().rows =~= had + left.rows);
            },
        }
    }
}

impl<'a> TupleIterator for SeqScanIterator<'a> {
    open spec fn stream(&self, h: HostView) -> Stream {
        scan_stream(
            self.raws.deep_view(),
            self.at as int,
            self.info.mvcc_enabled,
            self.txn_ctx.deep_view(),
            types_of(self.info.schema),
        )
    }

    open spec fn names(&self) -> Seq<Seq<char>> {
        self.out.names()
    }

    fn schema(&self) -> (s: &Schema) {
        &self.out
    }

    fn next_tuple(&mut self, host: &Host) -> (r: Result<Option<TupleRow>>) {
        let ghost all = self.stream(host@);
        let ghost rv = self.raws.deep_view();
        while self.at < self.raws.len()
            invariant
                all == old(self).stream(host@),
                all == self.stream(host@),
                rv == self.raws.deep_view(),
                self.out == old(self).out,
            decreases self.raws.len() - self.at,
        {
            let i: usize = self.at;
            assert(rv[i as int].0 == self.raws@[i as int].0);
            assert(rv[i as int].1 =~= self.raws@[i as int].1@);
            match live_part(self.raws[i].1.as_slice(), self.info.mvcc_enabled, self.txn_ctx) {
                None => {
                    self.at = i + 1;
                },
                Some(d) => {
                    let values = deserialize(d, &self.info.schema)?;
                    let rid = self.raws[i].0;
                    self.at = i + 1;
                    proof {
                        lemma_before((rid, values.deep_view()), self.stream(host@));
                    }
                    return Ok(Some(TupleRow { rid, values }));
                },
            }
        }
        Ok(None)
    }
}

impl TupleIterator for DualIterator {
    open spec fn stream(&self, h: HostView) -> Stream {
        if self.emitted {
            ended()
        } else {
            Stream { rows: seq![(no_rid(), Seq::empty())], error: None }
        }
    }

    open spec fn names(&self) -> Seq<Seq<char>> {
        self.out.names()
    }

    fn schema(&self) -> (s: &Schema) {
        &self.out
    }

    fn next_tuple(&mut self, host: &Host) -> (r: Result<Option<TupleRow>>) {
        if self.emitted {
            return Ok(None);
        }
        let ghost s = self.stream(host@);
        self.emitted = true;
        let row = TupleRow { rid: dummy_rid(), values: Vec::new() };
        assert(row.values.deep_view() =~= Seq::<ValueView>::empty());
        assert(s.rows.skip(1) =~= Seq::<RowView>::empty());
        Ok(Some(row))
    }
}

fn advance_filter(x: &mut FilterIterator, host: &Host) -> (r: Result<Option<TupleRow>>)
    ensures
        pulled(
            filter_stream(
                stream_of(old(x).child, host@),
                *old(x).predicate,
                names_of(old(x).child),
                host@,
            ),
            r,
            filter_stream(
                stream_of(final(x).child, host@),
                *final(x).predicate,
                names_of(final(x).child),
                host@,
            ),
        ),
        names_of(final(x).child) == names_of(old(x).child),
        depth(final(x).child) == depth(old(x).child),
    decreases depth(old(x).child), 2int,
{
    let ghost p = *x.predicate;
    let ghost names = names_of(x.child);
    let ghost all = filter_stream(stream_of(x.child, host@), p, names, host@);
    loop
        invariant
            *x.predicate == p,
            names_of(x.child) == names,
            depth(x.child) == depth(old(x).child),
            names == names_of(old(x).child),
            all == filter_stream(
                stream_of(old(x).child, host@),
                *old(x).predicate,
                names,
                host@,
            ),
            all == filter_stream(stream_of(x.child, host@), p, names, host@),
        decreases stream_of(x.child, host@).rows.len(),
    {
        let ghost left = stream_of(x.child, host@);
        match advance(&mut x.child, host)? {
            None => {
                return Ok(None);
            },
            Some(row) => {
                if eval_to_bool(x.predicate, row.values.as_slice(), schema_of(&x.child), host)? {
                    proof {
                        lemma_before(
                            row.deep_view(),
                            filter_stream(stream_of(x.child, host@), p, names, host@),
                        );
                    }
                    return Ok(Some(row));
                }
            },
        }
    }
}

fn no_window_columns(n: usize) -> (r: Vec<Option<Vec<Value>>>)
    ensures
        r.len() == n,
        r.deep_view() == no_windows(n as nat),
        forall|i: int| 0 <= i < n ==> (#[trigger] r@[i]) is None,
{
    let mut out: Vec<Option<Vec<Value>>> = Vec::new();
    let mut i: usize = 0;
    while i < n
        invariant
            0 <= i <= n,
            out.len() == i,
            forall|k: int| 0 <= k < i ==> (#[trigger] out@[k]) is None,
        decreases n - i,
    {
        out.push(None);
        i += 1;
    }
    assert(out.deep_view() =~= no_windows(n as nat));
    out
}

fn advance_project(x: &mut ProjectionIterator, host: &Host) -> (r: Result<Option<TupleRow>>)
    ensures
        pulled(
            project_stream(
                stream_of(old(x).child, host@),
                pointed(old(x).eval_plan@),
                names_of(old(x).child),
                host@,
            ),
            r,
            project_stream(
                stream_of(final(x).child, host@),
                pointed(final(x).eval_plan@),
                names_of(final(x).child),
                host@,
            ),
        ),
        final(x).out == old(x).out,
        depth(final(x).child) == depth(old(x).child),
    decreases depth(old(x).child), 2int,
{
    match advance(&mut x.child, host)? {
        None => Ok(None),
        Some(row) => {
            let wins = no_window_columns(x.eval_plan.len());
            assert(pointed(x.eval_plan@).len() == x.eval_plan.len());
            let values = project_row(
                &x.eval_plan,
                &wins,
                0,
                row.values.as_slice(),
                schema_of(&x.child),
                host,
            )?;
            proof {
                lemma_before(
                    (row.rid, values.deep_view()),
                    project_stream(
                        stream_of(x.child, host@),
                        pointed(x.eval_plan@),
                        names_of(x.child),
                        host@,
                    ),
                );
            }
            Ok(Some(TupleRow { rid: row.rid, values }))
        },
    }
}

fn advance_aggregate(x: &mut AggregateIterator, host: &Host) -> (r: Result<Option<TupleRow>>)
    ensures
        ({
            let was = if old(x).done {
                ended()
            } else {
                aggregate_stream(
                    stream_of(old(x).child, host@),
                    old(x).columns@,
                    names_of(old(x).child),
                    host@,
                )
            };
            pulled(was, r, ended())
        }),
        final(x).done,
        final(x).out == old(x).out,
        depth(final(x).child) == depth(old(x).child),
    decreases depth(old(x).child), 2int,
{
    if x.done {
        return Ok(None);
    }
    x.done = true;
    let ghost s = stream_of(x.child, host@);
    let rows = drain(&mut x.child, host)?;
    let (_, mut result_rows) = execute_aggregate(
        x.columns.as_slice(),
        rows.as_slice(),
        schema_of(&x.child),
        host,
    )?;
    if result_rows.len() == 0 {
        assert(result_rows.deep_view().len() == 0);
        return Ok(None);
    }
    let ghost rv = result_rows.deep_view();
    assert(rv[0] == result_rows@[0].deep_view());
    let mut values: Vec<Value> = Vec::new();
    core::mem::swap(&mut values, &mut result_rows[0]);
    assert(values.deep_view() == rv[0]);
    proof {
        let one = Stream { rows: seq![(no_rid(), rv[0])], error: None };
        assert(one.rows.skip(1) =~= Seq::<RowView>::empty());
    }
    Ok(Some(TupleRow { rid: dummy_rid(), values }))
}

fn next_output(output: &Vec<Vec<Value>>, i: usize) -> (r: Option<TupleRow>)
    ensures
        match r {
            Some(row) => i < output.len() && output_stream(*output, i).rows.len() > 0
                && row.deep_view() == output_stream(*output, i).rows[0] && output_stream(
                *output,
                (i + 1) as usize,
            ) == output_stream(*output, i).rest(),
            None => i >= output.len() && output_stream(*output, i) == ended(),
        },
{
    let ghost all = placeless(output.deep_view());
    if i >= output.len() {
        assert(output_stream(*output, i).rows =~= Seq::<RowView>::empty());
        return None;
    }
    assert(output.deep_view()[i as int] == output@[i as int].deep_view());
    assert(all.skip(i as int).skip(1) =~= all.skip(i + 1));
    Some(TupleRow { rid: dummy_rid(), values: clone_row(output[i].as_slice()) })
}

fn advance_group_by(x: &mut GroupByIterator, host: &Host) -> (r: Result<Option<TupleRow>>)
    ensures
        pulled(
            match old(x).output {
                Some(rows) => output_stream(rows, old(x).output_idx),
                None => group_stream(
                    stream_of(old(x).child, host@),
                    old(x).group_exprs@,
                    *old(x).having,
                    old(x).select_columns@,
                    names_of(old(x).child),
                    host@,
                ),
            },
            r,
            match final(x).output {
                Some(rows) => output_stream(rows, final(x).output_idx),
                None => group_stream(
                    stream_of(final(x).child, host@),
                    final(x).group_exprs@,
                    *final(x).having,
                    final(x).select_columns@,
                    names_of(final(x).child),
                    host@,
                ),
            },
        ),
        final(x).out == old(x).out,
        depth(final(x).child) == depth(old(x).child),
    decreases depth(old(x).child), 2int,
{
    if x.output.is_none() {
        let rows = drain(&mut x.child, host)?;
        let (_, result_rows) = execute_grouping(
            x.group_exprs.as_slice(),
            x.having,
            x.select_columns.as_slice(),
            rows.as_slice(),
            schema_of(&x.child),
            host,
        )?;
        assert(placeless(result_rows.deep_view()).skip(0) =~= placeless(result_rows.deep_view()));
        x.output = Some(result_rows);
        x.output_idx = 0;
    }
    match &x.output {
        None => Ok(None),
        Some(rows) => match next_output(rows, x.output_idx) {
            None => Ok(None),
            Some(row) => {
                x.output_idx = x.output_idx + 1;
                Ok(Some(row))
            },
        },
    }
}

fn advance_limit(x: &mut LimitIterator, host: &Host) -> (r: Result<Option<TupleRow>>)
    ensures
        pulled(
            limit_stream(
                stream_of(old(x).child, host@),
                old(x).count as int,
                old(x).offset as int,
            ),
            r,
            limit_stream(
                stream_of(final(x).child, host@),
                final(x).count as int,
                final(x).offset as int,
            ),
        ),
        names_of(final(x).child) == names_of(old(x).child),
        depth(final(x).child) == depth(old(x).child),
    decreases depth(old(x).child), 2int,
{
    let ghost count = x.count as int;
    let ghost all = limit_stream(stream_of(x.child, host@), count, x.offset as int);
    while x.offset > 0
        invariant
            x.count == count,
            names_of(x.child) == names_of(old(x).child),
            depth(x.child) == depth(old(x).child),
            all == limit_stream(
                stream_of(old(x).child, host@),
                old(x).count as int,
                old(x).offset as int,
            ),
            all == limit_stream(stream_of(x.child, host@), count, x.offset as int),
        decreases x.offset,
    {
        let ghost left = stream_of(x.child, host@);
        let ghost o = x.offset as int;
        match advance(&mut x.child, host)? {
            None => {
                return Ok(None);
            },
            Some(_) => {
                x.offset = x.offset - 1;
                proof {
                    let rest = left.rest();
                    if left.rows.len() >= o {
                        assert(rest.rows.skip(o - 1) =~= left.rows.skip(o));
                        if left.rows.len() - o >= count {
                            assert(rest.rows.subrange(o - 1, o - 1 + count)
                                =~= left.rows.subrange(o, o + count));
                        }
                    }
                }
            },
        }
    }
    let ghost left = stream_of(x.child, host@);
    if x.count == 0 {
        assert(all.rows =~= Seq::<RowView>::empty());
        return Ok(None);
    }
    match advance(&mut x.child, host)? {
        None => {
            assert(left.rows.skip(0) =~= left.rows);
            Ok(None)
        },
        Some(row) => {
            x.count = x.count - 1;
            proof {
                let rest = left.rest();
                assert(rest.rows.skip(0) =~= left.rows.skip(0).skip(1));
                if left.rows.len() >= count {
                    assert(rest.rows.subrange(0, count - 1) =~= left.rows.subrange(0, count).skip(
                        1,
                    ));
                }
            }
            Ok(Some(row))
        },
    }
}

/// The values of rows.
pub fn take_values(rows: Vec<(RID, Vec<Value>)>) -> (r: Vec<Vec<Value>>)
    ensures
        r.deep_view() == values_of(rows.deep_view()),
{
    let ghost all = values_of(rows.deep_view());
    let mut left = rows;
    let mut out: Vec<Vec<Value>> = Vec::new();
    let mut i: usize = 0;
    while i < left.len()
        invariant
            0 <= i <= left.len(),
            left.len() == all.len(),
            out.len() == i,
            forall|k: int| 0 <= k < i ==> (#[trigger] out@[k]).deep_view() == all[k],
            forall|k: int| i <= k < left.len() ==> (#[trigger] left@[k]).1.deep_view() == all[k],
        decreases left.len() - i,
    {
        let mut row: Vec<Value> = Vec::new();
        core::mem::swap(&mut row, &mut left[i].1);
        out.push(row);
        i += 1;
    }
    assert(out.deep_view() =~= all);
    out
}

fn advance_sort(x: &mut SortIterator, host: &Host) -> (r: Result<Option<TupleRow>>)
    ensures
        pulled(
            match old(x).output {
                Some(rows) => output_stream(rows, old(x).output_idx),
                None => sort_stream(
                    stream_of(old(x).child, host@),
                    old(x).order_by@,
                    names_of(old(x).child),
                    host@,
                ),
            },
            r,
            match final(x).output {
                Some(rows) => output_stream(rows, final(x).output_idx),
                None => sort_stream(
                    stream_of(final(x).child, host@),
                    final(x).order_by@,
                    names_of(final(x).child),
                    host@,
                ),
            },
        ),
        names_of(final(x).child) == names_of(old(x).child),
        depth(final(x).child) == depth(old(x).child),
    decreases depth(old(x).child), 2int,
{
    if x.output.is_none() {
        let rows = drain(&mut x.child, host)?;
        let mut values = take_values(rows);
        execute_sort(x.order_by.as_slice(), &mut values, schema_of(&x.child), host)?;
        assert(placeless(values.deep_view()).skip(0) =~= placeless(values.deep_view()));
        x.output = Some(values);
        x.output_idx = 0;
    }
    match &x.output {
        None => Ok(None),
        Some(rows) => match next_output(rows, x.output_idx) {
            None => Ok(None),
            Some(row) => {
                x.output_idx = x.output_idx + 1;
                Ok(Some(row))
            },
        },
    }
}

fn advance_distinct(x: &mut DistinctIterator, host: &Host) -> (r: Result<Option<TupleRow>>)
    ensures
        pulled(
            distinct_stream(stream_of(old(x).child, host@), old(x).seen.deep_view()),
            r,
            distinct_stream(stream_of(final(x).child, host@), final(x).seen.deep_view()),
        ),
        names_of(final(x).child) == names_of(old(x).child),
        depth(final(x).child) == depth(old(x).child),
    decreases depth(old(x).child), 2int,
{
    let ghost all = distinct_stream(stream_of(x.child, host@), x.seen.deep_view());
    loop
        invariant
            names_of(x.child) == names_of(old(x).child),
            depth(x.child) == depth(old(x).child),
            all == distinct_stream(stream_of(old(x).child, host@), old(x).seen.deep_view()),
            all == distinct_stream(stream_of(x.child, host@), x.seen.deep_view()),
        decreases stream_of(x.child, host@).rows.len(),
    {
        match advance(&mut x.child, host)? {
            None => {
                return Ok(None);
            },
            Some(row) => {
                let key = serialize_row_key(row.values.as_slice());
                if find_key(&x.seen, &key).is_none() {
                    let ghost seen = x.seen.deep_view();
                    proof {
                        lemma_bytes_deep(key);
                    }
                    let ghost kv = key@;
                    x.seen.push(key);
                    assert(x.seen.deep_view() =~= seen.push(kv));
                    proof {
                        lemma_before(
                            row.deep_view(),
                            distinct_stream(stream_of(x.child, host@), x.seen.deep_view()),
                        );
                    }
                    return Ok(Some(row));
                }
            },
        }
    }
}

impl<'a> TupleIterator for FilterIterator<'a> {
    open spec fn stream(&self, h: HostView) -> Stream {
        filter_stream(stream_of(self.child, h), *self.predicate, names_of(self.child), h)
    }

    open spec fn names(&self) -> Seq<Seq<char>> {
        names_of(self.child)
    }

    fn schema(&self) -> (s: &Schema) {
        schema_of(&self.child)
    }

    fn next_tuple(&mut self, host: &Host) -> (r: Result<Option<TupleRow>>) {
        advance_filter(self, host)
    }
}

impl<'a> TupleIterator for ProjectionIterator<'a> {
    open spec fn stream(&self, h: HostView) -> Stream {
        project_stream(
            stream_of(self.child, h),
            pointed(self.eval_plan@),
            names_of(self.child),
            h,
        )
    }

    open spec fn names(&self) -> Seq<Seq<char>> {
        self.out.names()
    }

    fn schema(&self) -> (s: &Schema) {
        &self.out
    }

    fn next_tuple(&mut self, host: &Host) -> (r: Result<Option<TupleRow>>) {
        advance_project(self, host)
    }
}

impl<'a> TupleIterator for AggregateIterator<'a> {
    open spec fn stream(&self, h: HostView) -> Stream {
        if self.done {
            ended()
        } else {
            aggregate_stream(stream_of(self.child, h), self.columns@, names_of(self.child), h)
        }
    }

    open spec fn names(&self) -> Seq<Seq<char>> {
        self.out.names()
    }

    fn schema(&self) -> (s: &Schema) {
        &self.out
    }

    fn next_tuple(&mut self, host: &Host) -> (r: Result<Option<TupleRow>>) {
        advance_aggregate(self, host)
    }
}

impl<'a> TupleIterator for GroupByIterator<'a> {
    open spec fn stream(&self, h: HostView) -> Stream {
        match self.output {
            Some(rows) => output_stream(rows, self.output_idx),
            None => group_stream(
                stream_of(self.child, h),
                self.group_exprs@,
                *self.having,
                self.select_columns@,
                names_of(self.child),
                h,
            ),
        }
    }

    open spec fn names(&self) -> Seq<Seq<char>> {
        self.out.names()
    }

    fn schema(&self) -> (s: &Schema) {
        &self.out
    }

    fn next_tuple(&mut self, host: &Host) -> (r: Result<Option<TupleRow>>) {
        advance_group_by(self, host)
    }
}

impl<'a> TupleIterator for LimitIterator<'a> {
    open spec fn stream(&self, h: HostView) -> Stream {
        limit_stream(stream_of(self.child, h), self.count as int, self.offset as int)
    }

    open spec fn names(&self) -> Seq<Seq<char>> {
        names_of(self.child)
    }

    fn schema(&self) -> (s: &Schema) {
        schema_of(&self.child)
    }

    fn next_tuple(&mut self, host: &Host) -> (r: Result<Option<TupleRow>>) {
        advance_limit(self, host)
    }
}

impl<'a> TupleIterator for SortIterator<'a> {
    open spec fn stream(&self, h: HostView) -> Stream {
        match self.output {
            Some(rows) => output_stream(rows, self.output_idx),
            None => sort_stream(stream_of(self.child, h), self.order_by@, names_of(self.child), h),
        }
    }

    open spec fn names(&self) -> Seq<Seq<char>> {
        names_of(self.child)
    }

    fn schema(&self) -> (s: &Schema) {
        schema_of(&self.child)
    }

    fn next_tuple(&mut self, host: &Host) -> (r: Result<Option<TupleRow>>) {
        advance_sort(self, host)
    }
}

impl<'a> TupleIterator for DistinctIterator<'a> {
    open spec fn stream(&self, h: HostView) -> Stream {
        distinct_stream(stream_of(self.child, h), self.seen.deep_view())
    }

    open spec fn names(&self) -> Seq<Seq<char>> {
        names_of(self.child)
    }

    fn schema(&self) -> (s: &Schema) {
        schema_of(&self.child)
    }

    fn next_tuple(&mut self, host: &Host) -> (r: Result<Option<TupleRow>>) {
        advance_distinct(self, host)
    }
}

impl<'a> TupleIterator for TupleSource<'a> {
    open spec fn stream(&self, h: HostView) -> Stream {
        stream_of(*self, h)
    }

    open spec fn names(&self) -> Seq<Seq<char>> {
        names_of(*self)
    }

    fn schema(&self) -> (s: &Schema) {
        schema_of(self)
    }

    fn next_tuple(&mut self, host: &Host) -> (r: Result<Option<TupleRow>>) {
        advance(self, host)
    }
}

// ---------------------------------------------------------------------------
// Building
// ---------------------------------------------------------------------------

impl<'a> SeqScanIterator<'a> {
    /// A scan of a table from its beginning.
    pub fn new(
        table_name: &str,
        alias: Option<&str>,
        catalog: &'a Catalog,
        cbpm: &'a BufferPool,
        txn_ctx: Option<&'a TxnContext>,
    ) -> (r: std::result::Result<SeqScanIterator<'a>, ForgeError>)
        ensures
            match table_of(*catalog, table_name@) {
                None => r is Err && r->Err_0@ == no_table(table_name@),
                Some(info) => match table_tuples(cbpm@, info.first_page_id.0) {
                    Err(e) => r is Err && r->Err_0@ == e,
                    Ok(raws) => r is Ok && r->Ok_0.names() == view_names(
                        prefixed(
                            info.schema.deep_view(),
                            match alias {
                                Some(a) => a@,
                                None => table_name@,
                            },
                        ),
                    ) && forall|h: HostView|
                        #[trigger] r->Ok_0.stream(h) == scan_stream(
                            raws,
                            0,
                            info.mvcc_enabled,
                            txn_ctx.deep_view(),
                            types_of(info.schema),
                        ),
                },
            },
    {
        let info = find_table(catalog, table_name)?;
        let prefix: &str = match alias {
            Some(a) => a,
            None => table_name,
        };
        let raws = cbpm.table_iterator(info.first_page_id)?;
        let out = info.schema.prefixed(prefix);
        proof {
            lemma_view_names(out);
        }
        Ok(SeqScanIterator { out, info, txn_ctx, raws, at: 0 })
    }
}

impl DualIterator {
    /// One empty row.
    pub fn new() -> (r: DualIterator)
        ensures
            r.names() == Seq::<Seq<char>>::empty(),
            forall|h: HostView|
                #[trigger] r.stream(h) == (Stream {
                    rows: seq![(no_rid(), Seq::empty())],
                    error: None,
                }),
    {
        let r = DualIterator { out: Schema::new(Vec::new()), emitted: false };
        assert(r.names() =~= Seq::<Seq<char>>::empty());
        r
    }
}

impl<'a> FilterIterator<'a> {
    /// The tuples of a child that match a predicate.
    pub fn new(child: TupleSource<'a>, predicate: &'a Expr) -> (r: FilterIterator<'a>)
        ensures
            r.names() == names_of(child),
            forall|h: HostView|
                #[trigger] r.stream(h) == filter_stream(
                    stream_of(child, h),
                    *predicate,
                    names_of(child),
                    h,
                ),
    {
        FilterIterator { child, predicate }
    }
}

impl<'a> ProjectionIterator<'a> {
    /// The output rows of the tuples of a child.
    pub fn new(child: TupleSource<'a>, columns: &'a Vec<SelectColumn>) -> (r: ProjectionIterator<'a>)
        ensures
            r.names() == output_plan(columns@, names_of(child)).names,
            forall|h: HostView|
                #[trigger] r.stream(h) == project_stream(
                    stream_of(child, h),
                    output_plan(columns@, names_of(child)).exprs,
                    names_of(child),
                    h,
                ),
    {
        let (names, eval_plan) = plan_output(columns.as_slice(), schema_of(&child));
        let out = columns_to_schema(&names);
        ProjectionIterator { child, out, eval_plan }
    }
}

impl<'a> AggregateIterator<'a> {
    /// The row of aggregates over the tuples of a child.
    pub fn new(child: TupleSource<'a>, columns: &'a Vec<SelectColumn>) -> (r: AggregateIterator<'a>)
        ensures
            r.names() == column_names(columns@),
            forall|h: HostView|
                #[trigger] r.stream(h) == aggregate_stream(
                    stream_of(child, h),
                    columns@,
                    names_of(child),
                    h,
                ),
    {
        let out = columns_to_schema(&build_column_names(columns.as_slice()));
        AggregateIterator { child, columns, out, done: false }
    }
}

impl<'a> GroupByIterator<'a> {
    /// The rows of the groups of the tuples of a child.
    pub fn new(
        child: TupleSource<'a>,
        group_exprs: &'a Vec<Expr>,
        having: &'a Option<Expr>,
        select_columns: &'a Vec<SelectColumn>,
    ) -> (r: GroupByIterator<'a>)
        ensures
            r.names() == column_names(select_columns@),
            forall|h: HostView|
                #[trigger] r.stream(h) == group_stream(
                    stream_of(child, h),
                    group_exprs@,
                    *having,
                    select_columns@,
                    names_of(child),
                    h,
                ),
    {
        let out = columns_to_schema(&build_column_names(select_columns.as_slice()));
        GroupByIterator {
            child,
            group_exprs,
            having,
            select_columns,
            out,
            output: None,
            output_idx: 0,
        }
    }
}

impl<'a> LimitIterator<'a> {
    /// At most `count` tuples of a child behind the first `offset`.
    pub fn new(child: TupleSource<'a>, count: usize, offset: usize) -> (r: LimitIterator<'a>)
        ensures
            r.names() == names_of(child),
            forall|h: HostView|
                #[trigger] r.stream(h) == limit_stream(
                    stream_of(child, h),
                    count as int,
                    offset as int,
                ),
    {
        LimitIterator { child, count, offset }
    }
}

impl<'a> SortIterator<'a> {
    /// The tuples of a child in order.
    pub fn new(child: TupleSource<'a>, order_by: &'a Vec<OrderByItem>) -> (r: SortIterator<'a>)
        ensures
            r.names() == names_of(child),
            forall|h: HostView|
                #[trigger] r.stream(h) == sort_stream(
                    stream_of(child, h),
                    order_by@,
                    names_of(child),
                    h,
                ),
    {
        SortIterator { child, order_by, output: None, output_idx: 0 }
    }
}

impl<'a> DistinctIterator<'a> {
    /// The tuples of a child, each once.
    pub fn new(child: TupleSource<'a>) -> (r: DistinctIterator<'a>)
        ensures
            r.names() == names_of(child),
            forall|h: HostView|
                #[trigger] r.stream(h) == distinct_stream(stream_of(child, h), Seq::empty()),
    {
        let r = DistinctIterator { child, seen: Vec::new() };
        assert(r.seen.deep_view() =~= Seq::<Seq<u8>>::empty());
        r
    }
}

/// The columns and rows of a plan that is executed tuple by tuple, or the error that keeps it
/// from beginning; none for a plan that is not executed so.
pub type Opened = Option<std::result::Result<(Seq<Seq<char>>, Stream), ErrorView>>;

/// Whether one of the columns is a window function.
pub open spec fn has_window(cols: Seq<SelectColumn>) -> bool {
    exists|i: int| 0 <= i < cols.len() && window_column_at(#[trigger] cols[i])
}

/// Whether a column is a window function.
pub open spec fn window_column_at(c: SelectColumn) -> bool {
    match c {
        SelectColumn::Expr { expr, alias } => expr is WindowFunction,
        SelectColumn::AllColumns(_) => false,
    }
}

/// Whether one of the columns contains an aggregate.
pub open spec fn aggregated(cols: Seq<SelectColumn>) -> bool {
    exists|i: int| 0 <= i < cols.len() && column_has_aggregate(#[trigger] cols[i])
}

/// The output columns over a stream: of aggregates, or row by row.
pub open spec fn outputs(
    p: (Seq<Seq<char>>, Stream),
    cols: Seq<SelectColumn>,
    h: HostView,
) -> (Seq<Seq<char>>, Stream) {
    if aggregated(cols) {
        (column_names(cols), aggregate_stream(p.1, cols, p.0, h))
    } else {
        (
            output_plan(cols, p.0).names,
            project_stream(p.1, output_plan(cols, p.0).exprs, p.0, h),
        )
    }
}

/// What a plan gives tuple by tuple. Joins, lookups by an index, tables with a clustered
/// index and window functions are not executed so.
pub open spec fn streamed(plan: PlanNode, rd: ReadView, h: HostView) -> Opened
    decreases plan,
{
    match plan {
        PlanNode::SeqScan { table_name, alias } => if table_name@ == "__dual__"@ {
            Some(
                Ok(
                    (
                        Seq::empty(),
                        Stream { rows: seq![(no_rid(), Seq::empty())], error: None },
                    ),
                ),
            )
        } else if named_from(rd.clustered, lower_text(table_name@), 0) is Some {
            None
        } else {
            match table_of(rd.catalog, table_name@) {
                None => Some(Err(no_table(table_name@))),
                Some(info) => match table_tuples(rd.pages, info.first_page_id.0) {
                    Err(e) => Some(Err(e)),
                    Ok(raws) => Some(
                        Ok(
                            (
                                view_names(
                                    prefixed(
                                        info.schema.deep_view(),
                                        match alias {
                                            Some(a) => a@,
                                            None => table_name@,
                                        },
                                    ),
                                ),
                                scan_stream(
                                    raws,
                                    0,
                                    info.mvcc_enabled,
                                    rd.txn,
                                    types_of(info.schema),
                                ),
                            ),
                        ),
                    ),
                },
            }
        },
        PlanNode::Filter { predicate, child } => match streamed(*child, rd, h) {
            None => None,
            Some(Err(e)) => Some(Err(e)),
            Some(Ok(p)) => Some(Ok((p.0, filter_stream(p.1, predicate, p.0, h)))),
        },
        PlanNode::Projection { columns, child } => if has_window(columns@) {
            None
        } else {
            match streamed(*child, rd, h) {
                None => None,
                Some(Err(e)) => Some(Err(e)),
                Some(Ok(p)) => Some(Ok(outputs(p, columns@, h))),
            }
        },
        PlanNode::Limit { count, offset, child } => match streamed(*child, rd, h) {
            None => None,
            Some(Err(e)) => Some(Err(e)),
            Some(Ok(p)) => Some(Ok((p.0, limit_stream(p.1, count as int, offset as int)))),
        },
        PlanNode::Sort { order_by, child } => match *child {
            PlanNode::Projection { columns, child: inner } => match streamed(*inner, rd, h) {
                None => None,
                Some(Err(e)) => Some(Err(e)),
                Some(Ok(p)) => Some(
                    Ok(outputs((p.0, sort_stream(p.1, order_by@, p.0, h)), columns@, h)),
                ),
            },
            _ => match streamed(*child, rd, h) {
                None => None,
                Some(Err(e)) => Some(Err(e)),
                Some(Ok(p)) => Some(Ok((p.0, sort_stream(p.1, order_by@, p.0, h)))),
            },
        },
        PlanNode::GroupBy { group_exprs, having, select_columns, child } => match streamed(
            *child,
            rd,
            h,
        ) {
            None => None,
            Some(Err(e)) => Some(Err(e)),
            Some(Ok(p)) => Some(
                Ok(
                    (
                        column_names(select_columns@),
                        group_stream(
                            p.1,
                            group_exprs@,
                            having,
                            select_columns@,
                            p.0,
                            h,
                        ),
                    ),
                ),
            ),
        },
        PlanNode::Distinct { child } => match streamed(*child, rd, h) {
            None => None,
            Some(Err(e)) => Some(Err(e)),
            Some(Ok(p)) => Some(Ok((p.0, distinct_stream(p.1, Seq::empty())))),
        },
        _ => None,
    }
}

/// Whether an iterator, or the lack of one, is what a plan gives.
pub open spec fn opens(
    r: Option<std::result::Result<TupleSource, ForgeError>>,
    o: Opened,
    h: HostView,
) -> bool {
    match r {
        None => o is None,
        Some(Err(e)) => o == Some(Err::<(Seq<Seq<char>>, Stream), ErrorView>(e@)),
        Some(Ok(s)) => o == Some(
            Ok::<(Seq<Seq<char>>, Stream), ErrorView>((names_of(s), stream_of(s, h))),
        ),
    }
}

fn any_window(columns: &Vec<SelectColumn>) -> (r: bool)
    ensures
        r == has_window(columns@),
{
    let mut i: usize = 0;
    while i < columns.len()
        invariant
            0 <= i <= columns.len(),
            forall|k: int| 0 <= k < i ==> !window_column_at(#[trigger] columns@[k]),
        decreases columns.len() - i,
    {
        if let SelectColumn::Expr { expr, alias: _ } = &columns[i] {
            if let Expr::WindowFunction { name: _, args: _, partition_by: _, order_by: _ } = expr {
                assert(window_column_at(columns@[i as int]));
                return true;
            }
        }
        i += 1;
    }
    false
}

fn output_source<'a>(s: TupleSource<'a>, columns: &'a Vec<SelectColumn>) -> (r: TupleSource<'a>)
    ensures
        forall|h: HostView|
            (names_of(r), #[trigger] stream_of(r, h)) == outputs(
                (names_of(s), stream_of(s, h)),
                columns@,
                h,
            ),
{
    if has_aggregates(columns.as_slice()) {
        let it = AggregateIterator::new(s, columns);
        let ghost names = it.names();
        let r = TupleSource::Aggregate(Box::new(it));
        assert forall|h: HostView| (names_of(r), #[trigger] stream_of(r, h)) == outputs(
            (names_of(s), stream_of(s, h)),
            columns@,
            h,
        ) by {
            assert(it.stream(h) == stream_of(r, h));
        }
        r
    } else {
        let it = ProjectionIterator::new(s, columns);
        let r = TupleSource::Project(Box::new(it));
        assert forall|h: HostView| (names_of(r), #[trigger] stream_of(r, h)) == outputs(
            (names_of(s), stream_of(s, h)),
            columns@,
            h,
        ) by {
            assert(it.stream(h) == stream_of(r, h));
        }
        r
    }
}

/// Attempt to build a volcano iterator pipeline from a read-only plan.
/// Returns `None` if the plan shape is not supported by the streaming path
/// (e.g., contains JOINs, IndexScans, or other unsupported nodes).
///
/// When this returns `Some`, the caller should drain the iterator to produce
/// the final `ExecuteResult`.
pub fn try_build_iterator<'a>(plan: &'a PlanNode, ctx: &ReadContext<'a>, host: &Host) -> (r: Option<
    std::result::Result<TupleSource<'a>, ForgeError>,
>)
    ensures
        opens(r, streamed(*plan, ctx@, host@), host@),
    decreases *plan,
{
    match plan {
        PlanNode::SeqScan { table_name, alias } => {
            if same_text(table_name.as_str(), "__dual__") {
                let it = DualIterator::new();
                let r = TupleSource::Dual(it);
                assert(it.stream(host@) == stream_of(r, host@));
                return Some(Ok(r));
            }
            let low = table_name.as_str().to_lowercase();
            if find_named(ctx.clustered_indexes, low.as_str()).is_some() {
                return None;
            }
            let name: Option<&str> = match alias {
                Some(a) => Some(a.as_str()),
                None => None,
            };
            match SeqScanIterator::new(
                table_name.as_str(),
                name,
                ctx.catalog,
                ctx.bpm,
                ctx.txn_ctx,
            ) {
                Ok(it) => {
                    let r = TupleSource::Scan(it);
                    assert(it.stream(host@) == stream_of(r, host@));
                    Some(Ok(r))
                },
                Err(e) => Some(Err(e)),
            }
        },
        PlanNode::Filter { predicate, child } => match try_build_iterator(child, ctx, host) {
            None => None,
            Some(Err(e)) => Some(Err(e)),
            Some(Ok(s)) => {
                let it = FilterIterator::new(s, predicate);
                let r = TupleSource::Filter(Box::new(it));
                assert(it.stream(host@) == stream_of(r, host@));
                Some(Ok(r))
            },
        },
        PlanNode::Projection { columns, child } => {
            if any_window(columns) {
                return None;
            }
            match try_build_iterator(child, ctx, host) {
                None => None,
                Some(Err(e)) => Some(Err(e)),
                Some(Ok(s)) => {
                    let r = output_source(s, columns);
                    assert(stream_of(r, host@) == stream_of(r, host@));
                    Some(Ok(r))
                },
            }
        },
        PlanNode::Limit { count, offset, child } => match try_build_iterator(child, ctx, host) {
            None => None,
            Some(Err(e)) => Some(Err(e)),
            Some(Ok(s)) => {
                let it = LimitIterator::new(s, *count, *offset);
                let r = TupleSource::Limit(Box::new(it));
                assert(it.stream(host@) == stream_of(r, host@));
                Some(Ok(r))
            },
        },
        PlanNode::Sort { order_by, child } => {
            if let PlanNode::Projection { columns, child: inner } = &**child {
                return match try_build_iterator(inner, ctx, host) {
                    None => None,
                    Some(Err(e)) => Some(Err(e)),
                    Some(Ok(s)) => {
                        let it = SortIterator::new(s, order_by);
                        let sorted = TupleSource::Sort(Box::new(it));
                        assert(it.stream(host@) == stream_of(sorted, host@));
                        let r = output_source(sorted, columns);
                        assert(stream_of(r, host@) == stream_of(r, host@));
                        Some(Ok(r))
                    },
                };
            }
            match try_build_iterator(child, ctx, host) {
                None => None,
                Some(Err(e)) => Some(Err(e)),
                Some(Ok(s)) => {
                    let it = SortIterator::new(s, order_by);
                    let r = TupleSource::Sort(Box::new(it));
                    assert(it.stream(host@) == stream_of(r, host@));
                    Some(Ok(r))
                },
            }
        },
        PlanNode::GroupBy { group_exprs, having, select_columns, child } => match try_build_iterator(
            child,
            ctx,
            host,
        ) {
            None => None,
            Some(Err(e)) => Some(Err(e)),
            Some(Ok(s)) => {
                let it = GroupByIterator::new(s, group_exprs, having, select_columns);
                let r = TupleSource::GroupBy(Box::new(it));
                assert(it.stream(host@) == stream_of(r, host@));
                Some(Ok(r))
            },
        },
        PlanNode::Distinct { child } => match try_build_iterator(child, ctx, host) {
            None => None,
            Some(Err(e)) => Some(Err(e)),
            Some(Ok(s)) => {
                let it = DistinctIterator::new(s);
                let r = TupleSource::Distinct(Box::new(it));
                assert(it.stream(host@) == stream_of(r, host@));
                Some(Ok(r))
            },
        },
        _ => None,
    }
}

// ---------------------------------------------------------------------------
// Draining
// ---------------------------------------------------------------------------

/// Column names without their tables.
pub open spec fn bare_names(names: Seq<Seq<char>>) -> Seq<Seq<char>> {
    Seq::new(names.len(), |i: int| bare_name(names[i]))
}

/// Column names without their tables.
pub fn strip_names(schema: &Schema) -> (r: Vec<String>)
    ensures
        r.deep_view() == bare_names(schema.names()),
{
    let mut out: Vec<String> = Vec::new();
    let mut i: usize = 0;
    while i < schema.columns.len()
        invariant
            0 <= i <= schema.columns.len(),
            out.len() == i,
            forall|k: int| 0 <= k < i ==> (#[trigger] out@[k])@ == bare_name(schema.names()[k]),
        decreases schema.columns.len() - i,
    {
        out.push(strip_table_prefix(schema.columns[i].name.as_str()));
        i += 1;
    }
    assert(out.deep_view() =~= bare_names(schema.names()));
    out
}

/// What draining a stream gives.
pub open spec fn drained(names: Seq<Seq<char>>, s: Stream) -> std::result::Result<
    ResultView,
    ErrorView,
> {
    match s.error {
        Some(e) => Err(e),
        None => Ok(answer(bare_names(names), values_of(s.rows))),
    }
}

/// Drain an iterator into an ExecuteResult.
/// The column names come from the iterator's output schema.
pub fn drain_iterator(iter: &mut TupleSource, host: &Host) -> (r: Result<ExecuteResult>)
    ensures
        outcome(r) == drained(old(iter).names(), old(iter).stream(host@)),
{
    let col_names = strip_names(schema_of(iter));
    let rows = drain(iter, host)?;
    Ok(ExecuteResult::answer(col_names, take_values(rows)))
}

} // verus!
