//! What a SELECT statement answers: its clauses, one by one.
use crate::aggregate::{column_has_aggregate, has_aggregate, RowView};
use crate::ast::{Expr, FromClause, OrderByItem, SelectColumn, Statement};
use crate::catalog::Catalog;
use crate::error::ErrorView;
use crate::eval::eval;
use crate::executor::{
    aggregate_answer, all_simple, count_answer, count_star, distinct_answer, has_row_key,
    law_distinct_rows, plan_rows, read_result, simple_column, Purpose,
};
use crate::host::HostView;
use crate::iterator::{
    aggregated, has_window, no_windows, outputs, placeless, project_stream, sort_stream, streamed,
    values_of, window_column_at, Stream,
};
use crate::limit_laws::{answered_alike, law_limit_gives_first_rows};
use crate::plan::PlanNode;
use crate::planner::planned;
use crate::projection::{output_plan, project_from, OutputPlan, OutputView};
use crate::row_laws::{
    law_select_list_is_evaluated, law_where_keeps_order, lemma_planned, lemma_project,
    plain_columns, plain_outputs, satisfying,
};
use crate::schema::view_names;
use crate::sort::sorted_rows;
use crate::state::{ReadView, ResultView};
use crate::statements::union_answer;
use crate::stream_laws::{filters_a_scan, law_streaming_reads_the_same};
use crate::types::ValueView;
use crate::values::row_key;
use vstd::prelude::*;

verus! {

/// Whether rows hold, for each of the given rows and in their order, the values of the columns of a
/// SELECT list, in theirs.
pub open spec fn listed(
    cols: Seq<SelectColumn>,
    rows: Seq<RowView>,
    out: Seq<Seq<ValueView>>,
    names: Seq<Seq<char>>,
    h: HostView,
) -> bool {
    &&& out.len() == rows.len()
    &&& forall|i: int, j: int|
        0 <= i < out.len() && 0 <= j < cols.len() ==> (
        #[trigger] cols[j] matches SelectColumn::Expr { expr, alias } && (#[trigger] out[i]).len()
            == cols.len() && eval(expr, rows[i].1, names, h) == Ok::<ValueView, ErrorView>(
            out[i][j],
        ))
}

proof fn lemma_project_stream(
    s: Stream,
    exprs: Seq<OutputView>,
    names: Seq<Seq<char>>,
    h: HostView,
)
    requires
        plain_outputs(exprs),
        s.error is None,
        project_stream(s, exprs, names, h).error is None,
    ensures
        project_stream(s, exprs, names, h).rows.len() == s.rows.len(),
        forall|i: int, k: int|
            0 <= i < s.rows.len() && 0 <= k < exprs.len() ==> (
            #[trigger] exprs[k] matches OutputView::Expr(e) && (#[trigger] project_stream(
                s,
                exprs,
                names,
                h,
            ).rows[i]).1.len() == exprs.len() && eval(e, s.rows[i].1, names, h) == Ok::<
                ValueView,
                ErrorView,
            >(project_stream(s, exprs, names, h).rows[i].1[k])),
    decreases s.rows.len(),
{
    if s.rows.len() > 0 {
        let wins = no_windows(exprs.len());
        let row = project_from(exprs, wins, 0, Seq::empty(), 0, s.rows[0].1, names, h)->Ok_0;
        let rest = project_stream(s.rest(), exprs, names, h);
        let out = project_stream(s, exprs, names, h);
        lemma_project(exprs, wins, 0, Seq::empty(), 0, s.rows[0].1, names, h);
        lemma_project_stream(s.rest(), exprs, names, h);
        assert forall|i: int, k: int| 0 <= i < s.rows.len() && 0 <= k < exprs.len() implies (
        #[trigger] exprs[k] matches OutputView::Expr(e) && (#[trigger] out.rows[i]).1.len()
            == exprs.len() && eval(e, s.rows[i].1, names, h) == Ok::<ValueView, ErrorView>(
            out.rows[i].1[k],
        )) by {
            if i > 0 {
                assert(out.rows[i] == rest.rows[i - 1]);
                assert(s.rest().rows[i - 1] == s.rows[i]);
            }
        }
    }
}

proof fn lemma_outputs(
    s: Stream,
    cols: Seq<SelectColumn>,
    names: Seq<Seq<char>>,
    h: HostView,
)
    requires
        plain_columns(cols),
        !aggregated(cols),
        s.error is None,
        outputs((names, s), cols, h).1.error is None,
    ensures
        listed(cols, s.rows, values_of(outputs((names, s), cols, h).1.rows), names, h),
{
    let none = OutputPlan { names: Seq::empty(), exprs: Seq::empty() };
    lemma_planned(cols, names, 0, none);
    let p = output_plan(cols, names);
    assert(plain_outputs(p.exprs)) by {
        assert forall|j: int| 0 <= j < p.exprs.len() implies (
        #[trigger] p.exprs[j] matches OutputView::Expr(e) && !(e is WindowFunction)) by {
            let c = cols[j];
        }
    }
    lemma_project_stream(s, p.exprs, names, h);
    let out = outputs((names, s), cols, h).1.rows;
    let values = values_of(out);
    assert forall|i: int, j: int| 0 <= i < values.len() && 0 <= j < cols.len() implies (
    #[trigger] cols[j] matches SelectColumn::Expr { expr, alias } && (#[trigger] values[i]).len()
        == cols.len() && eval(expr, s.rows[i].1, names, h) == Ok::<ValueView, ErrorView>(
        values[i][j],
    )) by {
        let x = p.exprs[j];
        let y = out[i];
    }
}

proof fn lemma_no_shortcut(cols: Seq<SelectColumn>, inner: PlanNode, rd: ReadView, h: HostView)
    requires
        !aggregated(cols),
    ensures
        count_answer(cols, inner, rd) is None,
        aggregate_answer(cols, inner, rd, h) is None,
{
    if cols.len() > 0 {
        let c = cols[0];
        assert(!column_has_aggregate(c));
        if let SelectColumn::Expr { expr, alias } = c {
            if count_star(expr) {
                assert(has_aggregate(expr));
            }
            if simple_column(c) {
                assert(has_aggregate(expr));
            }
        }
        if all_simple(cols) {
            assert(simple_column(cols[0]));
        }
    }
}

proof fn lemma_no_window(cols: Seq<SelectColumn>)
    requires
        plain_columns(cols),
    ensures
        !has_window(cols),
{
    if has_window(cols) {
        let i = choose|i: int| 0 <= i < cols.len() && window_column_at(#[trigger] cols[i]);
        assert(cols[i] is Expr);
    }
}

proof fn lemma_projection_answer(
    columns: Vec<SelectColumn>,
    inner: PlanNode,
    rd: ReadView,
    h: HostView,
)
    requires
        filters_a_scan(inner),
        plain_columns(columns@),
        !aggregated(columns@),
        read_result(PlanNode::Projection { columns, child: Box::new(inner) }, rd, h) is Ok,
    ensures
        plan_rows(inner, Purpose::Query, rd, h) is Ok,
        ({
            let x = plan_rows(inner, Purpose::Query, rd, h)->Ok_0;
            let a = read_result(
                PlanNode::Projection { columns, child: Box::new(inner) },
                rd,
                h,
            )->Ok_0;
            listed(columns@, x.1, a.rows, view_names(x.0), h)
        }),
{
    let plan = PlanNode::Projection { columns, child: Box::new(inner) };
    let x = plan_rows(inner, Purpose::Query, rd, h)->Ok_0;
    lemma_no_shortcut(columns@, inner, rd, h);
    lemma_no_window(columns@);
    match streamed(inner, rd, h) {
        Some(Ok(p)) => {
            law_streaming_reads_the_same(inner, rd, h);
            if p.1.error is Some {
                lemma_failed(p.1, columns@, p.0, h);
            }
            lemma_outputs(p.1, columns@, p.0, h);
        },
        Some(Err(_)) => {
            law_streaming_reads_the_same(inner, rd, h);
        },
        None => {
            law_select_list_is_evaluated(columns@, x.1, view_names(x.0), h);
        },
    }
}

proof fn lemma_sorted_answer(
    order_by: Vec<OrderByItem>,
    columns: Vec<SelectColumn>,
    inner: PlanNode,
    rd: ReadView,
    h: HostView,
)
    requires
        filters_a_scan(inner),
        plain_columns(columns@),
        !aggregated(columns@),
        read_result(
            PlanNode::Sort {
                order_by,
                child: Box::new(PlanNode::Projection { columns, child: Box::new(inner) }),
            },
            rd,
            h,
        ) is Ok,
    ensures
        plan_rows(inner, Purpose::Query, rd, h) is Ok,
        ({
            let x = plan_rows(inner, Purpose::Query, rd, h)->Ok_0;
            let a = read_result(
                PlanNode::Sort {
                    order_by,
                    child: Box::new(PlanNode::Projection { columns, child: Box::new(inner) }),
                },
                rd,
                h,
            )->Ok_0;
            sorted_rows(order_by@, values_of(x.1), view_names(x.0), h) matches Ok(s) && listed(
                columns@,
                placeless(s),
                a.rows,
                view_names(x.0),
                h,
            )
        }),
{
    let below = PlanNode::Projection { columns, child: Box::new(inner) };
    let plan = PlanNode::Sort { order_by, child: Box::new(below) };
    let x = plan_rows(inner, Purpose::Query, rd, h)->Ok_0;
    let names = view_names(x.0);
    match streamed(inner, rd, h) {
        Some(Ok(p)) => {
            law_streaming_reads_the_same(inner, rd, h);
            let s = sort_stream(p.1, order_by@, p.0, h);
            assert(streamed(plan, rd, h) == Some(
                Ok::<(Seq<Seq<char>>, Stream), ErrorView>(outputs((p.0, s), columns@, h)),
            ));
            if s.error is Some {
                lemma_failed(s, columns@, p.0, h);
            } else {
                lemma_outputs(s, columns@, p.0, h);
            }
        },
        Some(Err(_)) => {
            law_streaming_reads_the_same(inner, rd, h);
        },
        None => {
            let s = sorted_rows(order_by@, values_of(x.1), names, h)->Ok_0;
            law_select_list_is_evaluated(columns@, placeless(s), names, h);
        },
    }
}

proof fn lemma_failed(s: Stream, cols: Seq<SelectColumn>, names: Seq<Seq<char>>, h: HostView)
    requires
        s.error is Some,
        !aggregated(cols),
    ensures
        outputs((names, s), cols, h).1.error is Some,
{
    lemma_project_keeps_error(s, output_plan(cols, names).exprs, names, h);
}

proof fn lemma_project_keeps_error(
    s: Stream,
    exprs: Seq<OutputView>,
    names: Seq<Seq<char>>,
    h: HostView,
)
    requires
        s.error is Some,
    ensures
        project_stream(s, exprs, names, h).error is Some,
    decreases s.rows.len(),
{
    if s.rows.len() > 0 {
        lemma_project_keeps_error(s.rest(), exprs, names, h);
    }
}

/// Whether a statement is a SELECT from one table, with the given columns, condition and order, and
/// no other clauses.
pub open spec fn selects(
    stmt: Statement,
    cols: Vec<SelectColumn>,
    table: String,
    alias: Option<String>,
    condition: Option<Expr>,
    order: Vec<OrderByItem>,
) -> bool {
    match stmt {
        Statement::Select {
            distinct,
            columns,
            from,
            where_clause,
            group_by,
            having,
            order_by,
            limit,
            offset,
            ctes,
        } => {
            &&& !distinct
            &&& columns == cols
            &&& from == FromClause::Table { name: table, alias }
            &&& where_clause == condition
            &&& group_by@.len() == 0
            &&& having is None
            &&& order_by == order
            &&& limit is None
            &&& offset is None
        },
        _ => false,
    }
}

/// The rows on which an optional condition holds.
pub open spec fn fulfilling(
    condition: Option<Expr>,
    rows: Seq<RowView>,
    names: Seq<Seq<char>>,
    h: HostView,
) -> Seq<RowView> {
    match condition {
        Some(p) => satisfying(p, rows, rows.len() as int, names, h),
        None => rows,
    }
}

/// A SELECT from a table answers with a row for each row of the table on which its condition holds,
/// in the table's order or in that of ORDER BY, and each has the values of the SELECT list.
pub proof fn law_select_answers(
    stmt: Statement,
    cols: Vec<SelectColumn>,
    table: String,
    alias: Option<String>,
    condition: Option<Expr>,
    order: Vec<OrderByItem>,
    c: Catalog,
    plan: PlanNode,
    rd: ReadView,
    h: HostView,
)
    requires
        selects(stmt, cols, table, alias, condition, order),
        plain_columns(cols@),
        !aggregated(cols@),
        planned(stmt, c, Ok(plan)),
        plan_rows(PlanNode::SeqScan { table_name: table, alias }, Purpose::Query, rd, h) is Ok,
        read_result(plan, rd, h) is Ok,
    ensures
        ({
            let x = plan_rows(
                PlanNode::SeqScan { table_name: table, alias },
                Purpose::Query,
                rd,
                h,
            )->Ok_0;
            let names = view_names(x.0);
            let kept = fulfilling(condition, x.1, names, h);
            let a = read_result(plan, rd, h)->Ok_0;
            if order@.len() == 0 {
                listed(cols@, kept, a.rows, names, h)
            } else {
                sorted_rows(order@, values_of(kept), names, h) matches Ok(s) && listed(
                    cols@,
                    placeless(s),
                    a.rows,
                    names,
                    h,
                )
            }
        }),
{
    let scan = PlanNode::SeqScan { table_name: table, alias };
    let x = plan_rows(scan, Purpose::Query, rd, h)->Ok_0;
    let names = view_names(x.0);
    let inner = match condition {
        Some(predicate) => PlanNode::Filter { predicate, child: Box::new(scan) },
        None => scan,
    };
    assert(filters_a_scan(scan));
    assert(filters_a_scan(inner));
    if order@.len() == 0 {
        lemma_projection_answer(cols, inner, rd, h);
    } else {
        lemma_sorted_answer(order, cols, inner, rd, h);
    }
    if let Some(p) = condition {
        law_where_keeps_order(p, x.1, names, h);
    }
}

/// Whether two statements are the same SELECT, the first with LIMIT and OFFSET and the second with
/// neither.
pub open spec fn limits(
    stmt: Statement,
    whole: Statement,
    count: Option<usize>,
    start: Option<usize>,
) -> bool {
    match (stmt, whole) {
        (
            Statement::Select {
                distinct,
                columns,
                from,
                where_clause,
                group_by,
                having,
                order_by,
                limit,
                offset,
                ctes,
            },
            Statement::Select {
                distinct: d,
                columns: c,
                from: f,
                where_clause: w,
                group_by: g,
                having: v,
                order_by: o,
                limit: l,
                offset: s,
                ctes: _,
            },
        ) => {
            &&& limit == count
            &&& offset == start
            &&& l is None
            &&& s is None
            &&& distinct == d
            &&& columns == c
            &&& from == f
            &&& where_clause == w
            &&& group_by == g
            &&& having == v
            &&& order_by == o
        },
        _ => false,
    }
}

/// A SELECT with LIMIT and OFFSET answers with the rows that it has without them, from the given one
/// on and no more than the given number.
pub proof fn law_limit_and_offset_cut(
    stmt: Statement,
    whole: Statement,
    count: Option<usize>,
    start: Option<usize>,
    c: Catalog,
    plan: PlanNode,
    below: PlanNode,
    rd: ReadView,
    h: HostView,
)
    requires
        limits(stmt, whole, count, start),
        planned(stmt, c, Ok(plan)),
        planned(whole, c, Ok(below)),
        answered_alike(below, rd, h),
        read_result(below, rd, h) is Ok,
        read_result(below, rd, h)->Ok_0.rows.len() <= usize::MAX,
    ensures
        ({
            let b = read_result(below, rd, h)->Ok_0;
            let skip = match start {
                Some(n) => n as int,
                None => 0,
            };
            &&& read_result(plan, rd, h) is Ok
            &&& read_result(plan, rd, h)->Ok_0.columns == b.columns
            &&& forall|i: int|
                0 <= i < read_result(plan, rd, h)->Ok_0.rows.len() ==> skip + i < b.rows.len()
                    && #[trigger] read_result(plan, rd, h)->Ok_0.rows[i] == b.rows[skip + i]
            &&& match count {
                Some(n) => read_result(plan, rd, h)->Ok_0.rows.len() <= n && (read_result(
                    plan,
                    rd,
                    h,
                )->Ok_0.rows.len() < n ==> skip + read_result(plan, rd, h)->Ok_0.rows.len()
                    >= b.rows.len()),
                None => skip + read_result(plan, rd, h)->Ok_0.rows.len() >= b.rows.len(),
            }
        }),
{
    if count is Some || start is Some {
        let n = match count {
            Some(n) => n,
            None => usize::MAX,
        };
        let skip = match start {
            Some(n) => n,
            None => 0,
        };
        law_limit_gives_first_rows(plan, n, skip, below, rd, h);
    }
}

/// UNION ALL gives the rows of the first query and behind them those of the second. UNION gives no
/// two rows with the same key, a row with the key of each, and no others.
pub proof fn law_union_gives_both(left: ResultView, right: ResultView)
    ensures
        ({
            let out = union_answer(left, right, true).rows;
            &&& out.len() == left.rows.len() + right.rows.len()
            &&& forall|i: int| 0 <= i < left.rows.len() ==> #[trigger] out[i] == left.rows[i]
            &&& forall|i: int|
                left.rows.len() <= i < out.len() ==> #[trigger] out[i] == right.rows[i
                    - left.rows.len()]
        }),
        ({
            let out = union_answer(left, right, false).rows;
            &&& forall|k: int, l: int|
                0 <= k < l < out.len() ==> row_key(#[trigger] out[k]) != row_key(#[trigger] out[l])
            &&& forall|k: int|
                0 <= k < out.len() ==> left.rows.contains(#[trigger] out[k])
                    || right.rows.contains(out[k])
            &&& forall|k: int|
                0 <= k < left.rows.len() ==> has_row_key(out, row_key(#[trigger] left.rows[k]))
            &&& forall|k: int|
                0 <= k < right.rows.len() ==> has_row_key(out, row_key(#[trigger] right.rows[k]))
        }),
        left.columns.len() > 0 ==> union_answer(left, right, true).columns == left.columns
            && union_answer(left, right, false).columns == left.columns,
{
    let rows = left.rows + right.rows;
    let both = ResultView { rows, ..left };
    law_distinct_rows(both);
    let out = union_answer(left, right, false).rows;
    assert(out == distinct_answer(both).rows);
    assert forall|k: int| 0 <= k < out.len() implies left.rows.contains(#[trigger] out[k])
        || right.rows.contains(out[k]) by {
        assert(rows.contains(out[k]));
        let j = choose|j: int| 0 <= j < rows.len() && rows[j] == out[k];
        if j < left.rows.len() {
            assert(left.rows[j] == out[k]);
        } else {
            assert(right.rows[j - left.rows.len()] == out[k]);
        }
    }
    assert forall|k: int| 0 <= k < left.rows.len() implies has_row_key(
        out,
        row_key(#[trigger] left.rows[k]),
    ) by {
        assert(rows[k] == left.rows[k]);
    }
    assert forall|k: int| 0 <= k < right.rows.len() implies has_row_key(
        out,
        row_key(#[trigger] right.rows[k]),
    ) by {
        assert(rows[left.rows.len() + k] == right.rows[k]);
    }
}

} // verus!
