//! A LIMIT gives the first rows of what it limits, also where reading stops early.
use crate::aggregate::{agg_row, agg_value, column_has_aggregate, column_names, RowView};
use crate::aggregate_laws::{all_agree, law_aggregates_without_rows_are_right};
use crate::ast::{Expr, SelectColumn};
use crate::common::no_rid;
use crate::error::ErrorView;
use crate::eval::eval_bool;
use crate::executor::{
    aggregate_answer, aggregate_labels, alias_or, count_answer, count_name, count_names, count_star, filter_limited,
    first_matches, limited_answer, limited_rows, parts_read, plain_table, plan_rows, read_limited,
    read_result, repeated, row_by_row, simple_column, table_scan, table_seen, takes_limit, Purpose,
    Rows,
};
use crate::filter::{filter_from, filtered, limited, skipped};
use crate::host::HostView;
use crate::iterator::{
    aggregated, bare_names, drained, has_window, limit_stream, scan_stream, streamed, values_of,
    window_column_at,
};
use crate::plan::PlanNode;
use crate::projection::{
    bare_name, expr_name, output_plan, planned, project_from, project_rows, projection,
    windows_from, with_star, OutputPlan, OutputView,
};
use crate::scan::{first_rows, live_from, table_of};
use crate::schema::{prefixed, view_names};
use crate::state::{named_from, ReadView};
use crate::storage::{table_tuples, RawView};
use crate::text::lower_text;
use crate::tuple::{tuple_read, types_of};
use crate::txn::TxnView;
use crate::types::{DataType, ValueView};
use vstd::prelude::*;

verus! {

// ---------------------------------------------------------------------------
// Reading rows
// ---------------------------------------------------------------------------

proof fn lemma_parts_read(raws: Seq<RawView>, i: int, types: Seq<DataType>, acc: Seq<RowView>)
    requires
        0 <= i <= raws.len(),
        parts_read(raws, i, types, None, acc) is Ok,
    ensures
        ({
            let all = parts_read(raws, i, types, None, acc)->Ok_0;
            &&& all.len() == acc.len() + raws.len() - i
            &&& forall|k: int| 0 <= k < acc.len() ==> #[trigger] all[k] == acc[k]
            &&& forall|k: int|
                i <= k < raws.len() ==> tuple_read((#[trigger] raws[k]).1, types) is Ok && all[
                acc.len() + k - i] == (raws[k].0, tuple_read(raws[k].1, types)->Ok_0)
        }),
    decreases raws.len() - i,
{
    if i < raws.len() {
        let row = tuple_read(raws[i].1, types)->Ok_0;
        let more = acc.push((raws[i].0, row));
        lemma_parts_read(raws, i + 1, types, more);
        let all = parts_read(raws, i, types, None, acc)->Ok_0;
        assert forall|k: int| 0 <= k < acc.len() implies #[trigger] all[k] == acc[k] by {
            assert(all[k] == more[k]);
        }
        assert(all[acc.len() as int] == more[acc.len() as int]);
    }
}

/// A scan in the order of a clustered index that has a limit reads the first rows of one that
/// has none.
pub proof fn law_limited_parts_are_prefix(
    raws: Seq<RawView>,
    i: int,
    types: Seq<DataType>,
    limit: usize,
    acc: Seq<RowView>,
)
    requires
        0 <= i <= raws.len(),
        acc.len() <= limit,
        parts_read(raws, i, types, None, acc) is Ok,
    ensures
        parts_read(raws, i, types, Some(limit), acc) == Ok::<Seq<RowView>, ErrorView>(
            first_rows(parts_read(raws, i, types, None, acc)->Ok_0, limit as int),
        ),
    decreases raws.len() - i,
{
    let all = parts_read(raws, i, types, None, acc)->Ok_0;
    lemma_parts_read(raws, i, types, acc);
    if acc.len() == limit {
        assert(first_rows(all, limit as int) =~= acc);
    } else if i < raws.len() {
        let more = acc.push((raws[i].0, tuple_read(raws[i].1, types)->Ok_0));
        law_limited_parts_are_prefix(raws, i + 1, types, limit, more);
    } else {
        assert(all =~= acc);
    }
}

proof fn lemma_filter_extends(
    p: Expr,
    rows: Seq<RowView>,
    i: int,
    acc: Seq<RowView>,
    names: Seq<Seq<char>>,
    h: HostView,
)
    requires
        0 <= i <= rows.len(),
        filter_from(p, rows, i, acc, names, h) is Ok,
    ensures
        ({
            let all = filter_from(p, rows, i, acc, names, h)->Ok_0;
            &&& all.len() >= acc.len()
            &&& forall|k: int| 0 <= k < acc.len() ==> #[trigger] all[k] == acc[k]
        }),
    decreases rows.len() - i,
{
    if i < rows.len() {
        let b = eval_bool(p, rows[i].1, names, h)->Ok_0;
        let more = if b {
            acc.push(rows[i])
        } else {
            acc
        };
        lemma_filter_extends(p, rows, i + 1, more, names, h);
        let all = filter_from(p, rows, i, acc, names, h)->Ok_0;
        assert forall|k: int| 0 <= k < acc.len() implies #[trigger] all[k] == acc[k] by {
            assert(all[k] == more[k]);
        }
    }
}

/// Whether rows are those that stored parts hold.
spec fn read_from(parts: Seq<RawView>, types: Seq<DataType>, rows: Seq<RowView>) -> bool {
    &&& rows.len() == parts.len()
    &&& forall|k: int|
        0 <= k < parts.len() ==> tuple_read((#[trigger] parts[k]).1, types) is Ok && rows[k] == (
            parts[k].0,
            tuple_read(parts[k].1, types)->Ok_0,
        )
}

proof fn lemma_first_matches(
    parts: Seq<RawView>,
    i: int,
    types: Seq<DataType>,
    p: Expr,
    names: Seq<Seq<char>>,
    limit: int,
    acc: Seq<RowView>,
    rows: Seq<RowView>,
    h: HostView,
)
    requires
        0 <= i <= parts.len(),
        acc.len() <= limit,
        read_from(parts, types, rows),
        filter_from(p, rows, i, acc, names, h) is Ok,
    ensures
        first_matches(parts, i, types, p, names, limit, acc, h) == Ok::<Seq<RowView>, ErrorView>(
            first_rows(filter_from(p, rows, i, acc, names, h)->Ok_0, limit),
        ),
    decreases parts.len() - i,
{
    let all = filter_from(p, rows, i, acc, names, h)->Ok_0;
    lemma_filter_extends(p, rows, i, acc, names, h);
    if acc.len() == limit {
        assert(first_rows(all, limit) =~= acc);
    } else if i < parts.len() {
        assert(rows[i] == (parts[i].0, tuple_read(parts[i].1, types)->Ok_0));
        let b = eval_bool(p, rows[i].1, names, h)->Ok_0;
        let more = if b {
            acc.push(rows[i])
        } else {
            acc
        };
        assert(filter_from(p, rows, i, acc, names, h) == filter_from(
            p,
            rows,
            i + 1,
            more,
            names,
            h,
        ));
        assert(first_matches(parts, i, types, p, names, limit, acc, h) == first_matches(
            parts,
            i + 1,
            types,
            p,
            names,
            limit,
            more,
            h,
        ));
        lemma_first_matches(parts, i + 1, types, p, names, limit, more, rows, h);
    }
}

proof fn lemma_limited_scan(
    table: Seq<char>,
    alias: Option<Seq<char>>,
    limit: usize,
    rd: ReadView,
)
    requires
        named_from(rd.clustered, lower_text(table), 0) is Some,
        table_scan(rd, table, alias, None) is Ok,
    ensures
        ({
            let x = table_scan(rd, table, alias, None)->Ok_0;
            table_scan(rd, table, alias, Some(limit)) == Ok::<_, ErrorView>(
                (x.0, first_rows(x.1, limit as int)),
            )
        }),
{
    let info = table_of(rd.catalog, table)->0;
    let parts = table_seen(rd, info, table)->Ok_0;
    law_limited_parts_are_prefix(parts, 0, types_of(info.schema), limit, Seq::empty());
}

proof fn lemma_limited_matches(
    table: Seq<char>,
    alias: Option<Seq<char>>,
    p: Expr,
    limit: usize,
    rd: ReadView,
    h: HostView,
)
    requires
        named_from(rd.clustered, lower_text(table), 0) is Some,
        table_scan(rd, table, alias, None) matches Ok(x) && filtered(p, x.1, view_names(x.0), h) is Ok,
    ensures
        ({
            let x = table_scan(rd, table, alias, None)->Ok_0;
            let info = table_of(rd.catalog, table)->0;
            &&& table_of(rd.catalog, table) is Some
            &&& x.0 == prefixed(info.schema.deep_view(), alias_or(alias, table))
            &&& table_seen(rd, info, table) is Ok
            &&& first_matches(
                table_seen(rd, info, table)->Ok_0,
                0,
                types_of(info.schema),
                p,
                view_names(x.0),
                limit as int,
                Seq::empty(),
                h,
            ) == Ok::<Seq<RowView>, ErrorView>(
                first_rows(filtered(p, x.1, view_names(x.0), h)->Ok_0, limit as int),
            )
        }),
{
    let info = table_of(rd.catalog, table)->0;
    let parts = table_seen(rd, info, table)->Ok_0;
    let types = types_of(info.schema);
    let x = table_scan(rd, table, alias, None)->Ok_0;
    assert(x.1 == parts_read(parts, 0, types, None, Seq::empty())->Ok_0);
    lemma_parts_read(parts, 0, types, Seq::empty());
    assert(read_from(parts, types, x.1));
    lemma_first_matches(
        parts,
        0,
        types,
        p,
        view_names(x.0),
        limit as int,
        Seq::empty(),
        x.1,
        h,
    );
}

/// What the first rows of a plan are to be.
spec fn cut_rows(r: Rows, limit: int) -> Rows {
    match r {
        Err(e) => Err(e),
        Ok(x) => Ok((x.0, first_rows(x.1, limit))),
    }
}

proof fn lemma_limited_filter(
    child: PlanNode,
    p: Expr,
    limit: usize,
    rd: ReadView,
    h: HostView,
)
    requires
        streamed(child, rd, h) is None,
        plan_rows(child, Purpose::Query, rd, h) matches Ok(x) && filtered(p, x.1, view_names(x.0), h) is Ok,
    ensures
        ({
            let x = plan_rows(child, Purpose::Query, rd, h)->Ok_0;
            filter_limited(child, p, limit, rd, h) == Ok::<_, ErrorView>(
                (x.0, first_rows(filtered(p, x.1, view_names(x.0), h)->Ok_0, limit as int)),
            )
        }),
{
    if child is SeqScan {
        let table = child->SeqScan_table_name@;
        let alias = child->SeqScan_alias.deep_view();
        assert(plan_rows(child, Purpose::Query, rd, h) == table_scan(rd, table, alias, None));
        lemma_limited_matches(table, alias, p, limit, rd, h);
    }
}

/// The first rows of a scan or of a filter are those of the whole of it.
proof fn lemma_limited_rows(plan: PlanNode, limit: usize, rd: ReadView, h: HostView)
    requires
        streamed(plan, rd, h) is None,
        plan is SeqScan || plan is Filter,
        plan_rows(plan, Purpose::Query, rd, h) is Ok,
    ensures
        limited_rows(plan, limit, rd, h) == Some(
            cut_rows(plan_rows(plan, Purpose::Query, rd, h), limit as int),
        ),
{
    if plan is SeqScan {
        let table = plan->SeqScan_table_name@;
        let alias = plan->SeqScan_alias.deep_view();
        assert(plan_rows(plan, Purpose::Query, rd, h) == table_scan(rd, table, alias, None));
        lemma_limited_scan(table, alias, limit, rd);
    } else {
        let child = *plan->Filter_child;
        let p = plan->Filter_predicate;
        assert(streamed(child, rd, h) is None);
        lemma_limited_filter(child, p, limit, rd, h);
    }
}

// ---------------------------------------------------------------------------
// Output columns
// ---------------------------------------------------------------------------

/// Whether none of the sources is a window function.
spec fn without_window(exprs: Seq<OutputView>) -> bool {
    forall|j: int|
        0 <= j < exprs.len() ==> !(#[trigger] exprs[j] matches OutputView::Expr(e) && e is WindowFunction)
}

proof fn lemma_star_without_window(
    p: OutputPlan,
    filter: Option<Seq<char>>,
    names: Seq<Seq<char>>,
    i: int,
)
    requires
        0 <= i <= names.len(),
        without_window(p.exprs),
    ensures
        without_window(with_star(p, filter, names, i).exprs),
    decreases names.len() - i,
{
    if i < names.len() {
        let next = OutputPlan {
            names: p.names.push(bare_name(names[i])),
            exprs: p.exprs.push(OutputView::Column(i)),
        };
        lemma_star_without_window(next, filter, names, i + 1);
        lemma_star_without_window(p, filter, names, i + 1);
    }
}

proof fn lemma_planned_without_window(
    p: OutputPlan,
    cols: Seq<SelectColumn>,
    names: Seq<Seq<char>>,
    i: int,
)
    requires
        0 <= i <= cols.len(),
        !has_window(cols),
        without_window(p.exprs),
    ensures
        without_window(planned(p, cols, names, i).exprs),
    decreases cols.len() - i,
{
    if i < cols.len() {
        assert(!window_column_at(cols[i]));
        match cols[i] {
            SelectColumn::AllColumns(filter) => {
                lemma_star_without_window(p, filter.deep_view(), names, 0);
                let next = with_star(p, filter.deep_view(), names, 0);
                lemma_planned_without_window(next, cols, names, i + 1);
            },
            SelectColumn::Expr { expr, alias } => {
                let next = OutputPlan {
                    names: p.names.push(
                        match alias {
                            Some(a) => a@,
                            None => expr_name(expr),
                        },
                    ),
                    exprs: p.exprs.push(OutputView::Expr(expr)),
                };
                lemma_planned_without_window(next, cols, names, i + 1);
            },
        }
    }
}

proof fn lemma_windows_ignore_rows(
    exprs: Seq<OutputView>,
    j: int,
    acc: Seq<Option<Seq<ValueView>>>,
    a: Seq<RowView>,
    b: Seq<RowView>,
    names: Seq<Seq<char>>,
    h: HostView,
)
    requires
        0 <= j <= exprs.len(),
        without_window(exprs),
    ensures
        windows_from(exprs, j, acc, a, names, h) == windows_from(exprs, j, acc, b, names, h),
    decreases exprs.len() - j,
{
    if j < exprs.len() {
        assert(!(exprs[j] matches OutputView::Expr(e) && e is WindowFunction));
        lemma_windows_ignore_rows(exprs, j + 1, acc.push(None), a, b, names, h);
    }
}

proof fn lemma_project_prefix(
    exprs: Seq<OutputView>,
    wins: Seq<Option<Seq<ValueView>>>,
    rows: Seq<RowView>,
    n: int,
    i: int,
    acc: Seq<Seq<ValueView>>,
    names: Seq<Seq<char>>,
    h: HostView,
)
    requires
        0 <= i <= n <= rows.len(),
        acc.len() == i,
        project_rows(exprs, wins, rows, i, acc, names, h) is Ok,
    ensures
        ({
            let all = project_rows(exprs, wins, rows, i, acc, names, h)->Ok_0;
            &&& all.len() == rows.len()
            &&& forall|k: int| 0 <= k < i ==> #[trigger] all[k] == acc[k]
            &&& project_rows(exprs, wins, rows.take(n), i, acc, names, h) == Ok::<
                Seq<Seq<ValueView>>,
                ErrorView,
            >(all.take(n))
        }),
    decreases rows.len() - i,
{
    let all = project_rows(exprs, wins, rows, i, acc, names, h)->Ok_0;
    if i < rows.len() {
        let row = project_from(exprs, wins, 0, Seq::empty(), i, rows[i].1, names, h)->Ok_0;
        let more = acc.push(row);
        let m = if i < n {
            n
        } else {
            i + 1
        };
        lemma_project_prefix(exprs, wins, rows, m, i + 1, more, names, h);
        assert forall|k: int| 0 <= k < i implies #[trigger] all[k] == acc[k] by {
            assert(all[k] == more[k]);
        }
        if i < n {
            assert(rows.take(n)[i] == rows[i]);
        } else {
            assert(all.take(n) =~= acc);
        }
    } else {
        assert(all.take(n) =~= acc);
    }
}

proof fn lemma_projection_prefix(
    cols: Seq<SelectColumn>,
    rows: Seq<RowView>,
    n: int,
    names: Seq<Seq<char>>,
    h: HostView,
)
    requires
        0 <= n <= rows.len(),
        !has_window(cols),
        projection(cols, rows, names, h) is Ok,
    ensures
        ({
            let all = projection(cols, rows, names, h)->Ok_0;
            &&& all.1.len() == rows.len()
            &&& projection(cols, rows.take(n), names, h) == Ok::<_, ErrorView>(
                (all.0, all.1.take(n)),
            )
        }),
{
    let start = OutputPlan { names: Seq::empty(), exprs: Seq::empty() };
    lemma_planned_without_window(start, cols, names, 0);
    let p = output_plan(cols, names);
    lemma_windows_ignore_rows(p.exprs, 0, Seq::empty(), rows, rows.take(n), names, h);
    let wins = windows_from(p.exprs, 0, Seq::empty(), rows, names, h)->Ok_0;
    lemma_project_prefix(p.exprs, wins, rows, n, 0, Seq::empty(), names, h);
}

/// Aggregates over a whole table are not put out row by row.
proof fn lemma_fast_is_aggregated(cols: Seq<SelectColumn>, child: PlanNode, rd: ReadView, h: HostView)
    requires
        count_answer(cols, child, rd) is Some || aggregate_answer(cols, child, rd, h) is Some,
    ensures
        aggregated(cols),
{
    reveal_strlit("COUNT");
    if count_answer(cols, child, rd) is Some {
        assert(count_names(cols, 0, Seq::empty()) is Some);
    } else {
        assert(simple_column(cols[0]));
    }
    assert(column_has_aggregate(cols[0]));
}

// ---------------------------------------------------------------------------
// Laws
// ---------------------------------------------------------------------------

/// A limit that is passed on to a scan, a filter or a projection changes no answer: behind it
/// the same rows are left as of the whole answer.
pub proof fn law_pushed_limit_changes_no_answer(
    child: PlanNode,
    count: usize,
    rd: ReadView,
    h: HostView,
)
    requires
        takes_limit(child),
        streamed(child, rd, h) is None,
        read_result(child, rd, h) is Ok,
    ensures
        read_limited(child, count, rd, h) is Ok,
        limited_answer(read_limited(child, count, rd, h)->Ok_0, count as int, 0) == limited_answer(
            read_result(child, rd, h)->Ok_0,
            count as int,
            0,
        ),
{
    match child {
        PlanNode::Projection { columns, child: inner } => {
            if limited_rows(*inner, count, rd, h) is Some && row_by_row(columns@) {
                if count_answer(columns@, *inner, rd) is Some || aggregate_answer(
                    columns@,
                    *inner,
                    rd,
                    h,
                ) is Some {
                    lemma_fast_is_aggregated(columns@, *inner, rd, h);
                }
                lemma_limited_rows(*inner, count, rd, h);
                let x = plan_rows(*inner, Purpose::Query, rd, h)->Ok_0;
                let names = view_names(x.0);
                let all = projection(columns@, x.1, names, h)->Ok_0;
                if count < x.1.len() {
                    lemma_projection_prefix(columns@, x.1, count as int, names, h);
                    assert(limited(skipped(all.1.take(count as int), 0), count as int)
                        =~= limited(skipped(all.1, 0), count as int));
                }
            }
        },
        _ => {
            lemma_limited_rows(child, count, rd, h);
            let x = plan_rows(child, Purpose::Query, rd, h)->Ok_0;
            assert(limited(skipped(values_of(first_rows(x.1, count as int)), 0), count as int)
                =~= limited(skipped(values_of(x.1), 0), count as int));
        },
    }
}

/// Whether a query is answered alike with and without a limit above it. Counts and aggregates of
/// whole tables are found without reading rows, but tuple by tuple below a limit: of these it is
/// the counts of tables whose tuples can all be read and the aggregates that are then computed
/// alike, under the names that are given in either way, and whatever is read step by step, as are
/// tables with a clustered index.
pub open spec fn answered_alike(child: PlanNode, rd: ReadView, h: HostView) -> bool {
    match child {
        PlanNode::Projection { columns, child: inner } => {
            ||| streamed(child, rd, h) is None
            ||| count_answer(columns@, *inner, rd) is None && aggregate_answer(
                columns@,
                *inner,
                rd,
                h,
            ) is None
            ||| count_answer(columns@, *inner, rd) is Some && (streamed(
                *inner,
                rd,
                h,
            ) matches Some(Ok(p)) && p.1.error is None) && Some(bare_names(column_names(columns@)))
                == count_names(columns@, 0, Seq::empty())
            ||| count_answer(columns@, *inner, rd) is None && (streamed(
                *inner,
                rd,
                h,
            ) matches Some(Ok(p)) && p.1.error is None && all_agree(
                columns@,
                0,
                plain_table(*inner)->0,
                rd,
                p.1.rows,
                p.0,
                h,
            )) && bare_names(column_names(columns@)) == aggregate_labels(columns@)
        },
        _ => true,
    }
}

/// A table has as many live tuples as rows are read, if all can be read.
proof fn lemma_live_are_read(
    raws: Seq<RawView>,
    i: int,
    mvcc: bool,
    txn: Option<TxnView>,
    types: Seq<DataType>,
)
    requires
        0 <= i <= raws.len(),
        scan_stream(raws, i, mvcc, txn, types).error is None,
    ensures
        scan_stream(raws, i, mvcc, txn, types).rows.len() == live_from(raws, i, mvcc, txn),
    decreases raws.len() - i,
{
    if i < raws.len() {
        lemma_live_are_read(raws, i + 1, mvcc, txn, types);
    }
}

/// A row of counts has the number of rows in each column.
proof fn lemma_counts(
    cols: Seq<SelectColumn>,
    i: int,
    acc: Seq<ValueView>,
    found: Seq<Seq<char>>,
    star_error: Seq<char>,
    rows: Seq<RowView>,
    names: Seq<Seq<char>>,
    h: HostView,
)
    requires
        0 <= i <= cols.len(),
        found.len() == i,
        acc == repeated(ValueView::BigInt(rows.len() as i64), i as nat),
        count_names(cols, i, found) is Some,
    ensures
        agg_row(cols, i, acc, star_error, rows, names, h) == Ok::<Seq<ValueView>, ErrorView>(
            repeated(ValueView::BigInt(rows.len() as i64), cols.len()),
        ),
        count_names(cols, i, found)->0.len() == cols.len(),
        i < cols.len() ==> column_has_aggregate(cols[i]),
    decreases cols.len() - i,
{
    if i < cols.len() {
        reveal_strlit("COUNT");
        let v = ValueView::BigInt(rows.len() as i64);
        if let SelectColumn::Expr { expr, alias } = cols[i] {
            assert(count_star(expr));
            assert(agg_value(expr, rows, names, h) == Ok::<ValueView, ErrorView>(v));
            assert(acc.push(v) =~= repeated(v, (i + 1) as nat));
            lemma_counts(
                cols,
                i + 1,
                acc.push(v),
                found.push(count_name(expr, alias.deep_view())),
                star_error,
                rows,
                names,
                h,
            );
        }
    }
}

/// A count that is found without reading rows is what reading them gives.
pub proof fn law_count_without_reading_is_right(
    child: PlanNode,
    columns: Vec<SelectColumn>,
    inner: PlanNode,
    rd: ReadView,
    h: HostView,
)
    requires
        child matches PlanNode::Projection { columns: c, child: i } && c == columns && *i == inner,
        count_answer(columns@, inner, rd) is Some,
        streamed(inner, rd, h) matches Some(Ok(p)) && p.1.error is None,
        Some(bare_names(column_names(columns@))) == count_names(columns@, 0, Seq::empty()),
        !has_window(columns@),
    ensures
        streamed(child, rd, h) matches Some(Ok(p)) && p.1.error is None && count_answer(
            columns@,
            inner,
            rd,
        ) == Some(drained(p.0, p.1)),
{
    let p = streamed(inner, rd, h)->0->Ok_0;
    let cols = columns@;
    let none = Seq::<ValueView>::empty();
    assert(none =~= repeated(ValueView::BigInt(p.1.rows.len() as i64), 0));
    lemma_counts(
        cols,
        0,
        none,
        Seq::empty(),
        "cannot use * with aggregate functions"@,
        p.1.rows,
        p.0,
        h,
    );
    assert(column_has_aggregate(cols[0]));
    assert(aggregated(cols));
    let table = plain_table(inner)->0;
    let info = table_of(rd.catalog, table)->0;
    let raws = table_tuples(rd.pages, info.first_page_id.0)->Ok_0;
    lemma_live_are_read(raws, 0, info.mvcc_enabled, rd.txn, types_of(info.schema));
    let row = repeated(ValueView::BigInt(p.1.rows.len() as i64), cols.len());
    let q = streamed(child, rd, h)->0->Ok_0;
    assert(q.1.rows =~= seq![(no_rid(), row)]);
    assert(values_of(q.1.rows) =~= seq![row]);
}

/// The answer to a query with a LIMIT and an OFFSET is made of the rows of the answer without
/// them: at most so many as the limit says, behind the first so many as the offset says.
pub proof fn law_limit_gives_first_rows(
    plan: PlanNode,
    count: usize,
    offset: usize,
    child: PlanNode,
    rd: ReadView,
    h: HostView,
)
    requires
        plan matches PlanNode::Limit { count: n, offset: m, child: c } && n == count && m == offset
            && *c == child,
        answered_alike(child, rd, h),
        read_result(child, rd, h) is Ok,
    ensures
        read_result(plan, rd, h) == Ok::<_, ErrorView>(
            limited_answer(read_result(child, rd, h)->Ok_0, count as int, offset as int),
        ),
{
    match streamed(child, rd, h) {
        Some(Err(_)) => {},
        Some(Ok(p)) => {
            if let PlanNode::Projection { columns, child: inner } = child {
                if count_answer(columns@, *inner, rd) is Some {
                    law_count_without_reading_is_right(child, columns, *inner, rd, h);
                } else if aggregate_answer(columns@, *inner, rd, h) is Some {
                    law_aggregates_without_rows_are_right(child, columns, *inner, rd, h);
                }
            }
            let s = limit_stream(p.1, count as int, offset as int);
            assert(p.1.error is None);
            assert(values_of(s.rows) =~= limited(
                skipped(values_of(p.1.rows), offset as int),
                count as int,
            ));
        },
        None => {
            if offset == 0 && takes_limit(child) {
                law_pushed_limit_changes_no_answer(child, count, rd, h);
            }
        },
    }
}

} // verus!
