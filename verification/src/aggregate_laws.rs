//! Aggregates over a column of a table are what reading the rows gives, also where only the column
//! is read.
use crate::aggregate::{
    agg_row, agg_value, aggregate_of, column_has_aggregate, column_names, gather, gather_from,
    nothing, Aggregate, Gathered, RowView,
};
use crate::ast::{Expr, SelectColumn};
use crate::catalog::TableInfo;
use crate::common::no_rid;
use crate::error::ErrorView;
use crate::eval::resolve;
use crate::executor::{
    aggregate_answer, aggregate_labels, aggregates_from, plain_table, simple_aggregate,
};
use crate::host::HostView;
use crate::iterator::{
    aggregated, bare_names, drained, has_window, scan_stream, streamed, values_of,
};
use crate::order::Order;
use crate::plan::PlanNode;
use crate::scan::{
    column_aggregate, live, run_from, run_start, run_step, table_of, AggFunc, Running,
};
use crate::schema::{lemma_name_from, name_from};
use crate::state::ReadView;
use crate::storage::{table_tuples, RawView};
use crate::text::{text_order, upper_text};
use crate::tuple::{
    bitmap_len, column_read_from, field_read, law_single_column_agrees, marked_null, tuple_read,
    types_of,
};
use crate::txn::TxnView;
use crate::types::{DataType, ValueView};
use crate::values::whole;
use vstd::prelude::*;

verus! {

/// Whether a value is of the kind that a column of a type holds, as far as aggregates over it go
/// by one way or another.
pub open spec fn of_type(v: ValueView, t: DataType) -> bool {
    match t {
        DataType::Integer => v is Integer,
        DataType::BigInt => v is BigInt,
        DataType::Float => v is Float,
        DataType::Varchar(_) => v is Varchar,
        _ => !(v is Null),
    }
}

proof fn lemma_read_is_of_type(data: Seq<u8>, types: Seq<DataType>, i: int, pos: int, col: int)
    requires
        0 <= i <= col < types.len(),
        column_read_from(data, types, i, pos, col) is Ok,
    ensures
        column_read_from(data, types, i, pos, col)->Ok_0 is Null || of_type(
            column_read_from(data, types, i, pos, col)->Ok_0,
            types[col],
        ),
    decreases types.len() - i,
{
    if i < col {
        let next = if marked_null(data, i) {
            pos
        } else {
            field_read(data, pos, types[i])->Ok_0.1
        };
        lemma_read_is_of_type(data, types, i + 1, next, col);
    }
}

/// The aggregate function that a scan of one column computes.
pub open spec fn function_of(f: AggFunc) -> Aggregate {
    match f {
        AggFunc::Sum => Aggregate::Sum,
        AggFunc::Min => Aggregate::Min,
        AggFunc::Max => Aggregate::Max,
        AggFunc::Avg => Aggregate::Avg,
    }
}

/// Whether an aggregate over a column of a type is computed alike, from the column alone and from
/// the rows: the least and the greatest of numbers and texts, sums of integers, and averages of
/// doubles. Of other types the least and the greatest are not told apart in the column alone, and
/// doubles are rounded in another order.
pub open spec fn computed_alike(f: AggFunc, t: DataType) -> bool {
    match f {
        AggFunc::Min | AggFunc::Max => t is Integer || t is BigInt || t is Float || t is Varchar,
        AggFunc::Sum => t is Integer || t is BigInt,
        AggFunc::Avg => t is Float,
    }
}

/// Whether what has been gathered from the column and from the rows is the same.
spec fn gathered_alike(f: AggFunc, t: DataType, st: Running, g: Gathered) -> bool {
    match f {
        AggFunc::Min | AggFunc::Max => {
            &&& st.count >= 0
            &&& st.count == 0 <==> st.held is None
            &&& match st.held {
                None => g.acc is Null,
                Some(v) => g.acc == v && of_type(v, t),
            }
        },
        AggFunc::Sum => {
            &&& st.count >= 0
            &&& st.float is None
            &&& if st.count == 0 {
                g.acc is Null && st.whole == 0
            } else {
                whole(g.acc) == Some(st.whole as int)
            }
        },
        AggFunc::Avg => {
            &&& st.count == g.count
            &&& match st.float {
                None => st.whole == 0 && g.fsum == 0,
                Some(x) => g.fsum == x,
            }
        },
    }
}

proof fn lemma_text_order_turns(a: Seq<char>, b: Seq<char>)
    ensures
        text_order(a, b) == Order::Less <==> text_order(b, a) == Order::Greater,
    decreases a.len(),
{
    if a.len() > 0 && b.len() > 0 && a[0] == b[0] {
        lemma_text_order_turns(a.skip(1), b.skip(1));
    }
}

proof fn lemma_step_alike(
    f: AggFunc,
    t: DataType,
    st: Running,
    g: Gathered,
    v: ValueView,
    h: HostView,
)
    requires
        computed_alike(f, t),
        gathered_alike(f, t, st, g),
        of_type(v, t),
        run_step(f, st, v, h) is Ok,
    ensures
        gather(function_of(f), false, g, v, h) is Ok,
        gathered_alike(
            f,
            t,
            run_step(f, st, v, h)->Ok_0,
            gather(function_of(f), false, g, v, h)->Ok_0,
        ),
{
    if let (Some(ValueView::Varchar(a)), ValueView::Varchar(b)) = (st.held, v) {
        lemma_text_order_turns(a, b);
        lemma_text_order_turns(b, a);
    }
}

proof fn lemma_scan_alike(
    raws: Seq<RawView>,
    i: int,
    mvcc: bool,
    txn: Option<TxnView>,
    types: Seq<DataType>,
    col: int,
    f: AggFunc,
    st: Running,
    g: Gathered,
    arg: Expr,
    rows: Seq<RowView>,
    j: int,
    names: Seq<Seq<char>>,
    h: HostView,
)
    requires
        0 <= i <= raws.len(),
        0 <= j <= rows.len(),
        0 <= col < types.len(),
        mvcc ==> txn is None,
        arg matches Expr::ColumnRef { table, column } && resolve(
            names,
            table.deep_view(),
            column@,
        ) == Some(col),
        scan_stream(raws, i, mvcc, txn, types).error is None,
        rows.skip(j) == scan_stream(raws, i, mvcc, txn, types).rows,
        computed_alike(f, types[col]),
        gathered_alike(f, types[col], st, g),
        run_from(raws, i, mvcc, types, col, f, st, h) is Ok,
    ensures
        gather_from(function_of(f), false, arg, rows, j, g, names, h) is Ok,
        gathered_alike(
            f,
            types[col],
            run_from(raws, i, mvcc, types, col, f, st, h)->Ok_0,
            gather_from(function_of(f), false, arg, rows, j, g, names, h)->Ok_0,
        ),
    decreases raws.len() - i,
{
    if i >= raws.len() {
        assert(rows.skip(j).len() == 0);
    } else {
        match live(raws[i].1, mvcc, txn) {
            None => lemma_scan_alike(
                raws,
                i + 1,
                mvcc,
                txn,
                types,
                col,
                f,
                st,
                g,
                arg,
                rows,
                j,
                names,
                h,
            ),
            Some(d) => {
                let row = tuple_read(d, types)->Ok_0;
                let rest = scan_stream(raws, i + 1, mvcc, txn, types).rows;
                law_single_column_agrees(d, types, col);
                assert(rows.skip(j)[0] == (raws[i].0, row));
                assert(rows[j] == rows.skip(j)[0]);
                assert(rows.skip(j + 1) =~= rows.skip(j).skip(1));
                assert(rows.skip(j + 1) =~= rest);
                let v = row[col];
                if v is Null {
                    lemma_scan_alike(
                        raws,
                        i + 1,
                        mvcc,
                        txn,
                        types,
                        col,
                        f,
                        st,
                        g,
                        arg,
                        rows,
                        j + 1,
                        names,
                        h,
                    );
                } else {
                    lemma_read_is_of_type(
                        d,
                        types,
                        0,
                        bitmap_len(types.len() as int),
                        col,
                    );
                    lemma_step_alike(f, types[col], st, g, v, h);
                    lemma_scan_alike(
                        raws,
                        i + 1,
                        mvcc,
                        txn,
                        types,
                        col,
                        f,
                        run_step(f, st, v, h)->Ok_0,
                        gather(function_of(f), false, g, v, h)->Ok_0,
                        arg,
                        rows,
                        j + 1,
                        names,
                        h,
                    );
                }
            },
        }
    }
}

/// Whether a SELECT column is an aggregate over one column that is computed alike from the column
/// alone and from the rows: its reference means the same column in both, and a sum comes out as
/// wide.
pub open spec fn agrees(
    c: SelectColumn,
    info: TableInfo,
    rows: Seq<RowView>,
    names: Seq<Seq<char>>,
    found: std::result::Result<Option<ValueView>, ErrorView>,
    h: HostView,
) -> bool {
    match c {
        SelectColumn::Expr { expr: Expr::Function { name, args, distinct }, alias } => {
            let e = Expr::Function { name, args, distinct };
            match (simple_aggregate(e), args@[0]) {
                (Some((f, _)), Expr::ColumnRef { table, column }) => {
                    let at = name_from(info.schema.names(), column@, 0);
                    &&& resolve(names, table.deep_view(), column@) == at
                    &&& at matches Some(k) && computed_alike(f, types_of(info.schema)[k])
                    &&& f == AggFunc::Sum ==> (agg_value(e, rows, names, h) matches Ok(v)
                        && found matches Ok(Some(w)) && (v is Integer) == (w is Integer))
                },
                _ => false,
            }
        },
        _ => false,
    }
}

/// What an aggregate over one column comes to when only that column is read is what reading the
/// rows gives.
pub proof fn law_column_aggregate_is_right(
    name: Seq<char>,
    c: SelectColumn,
    rd: ReadView,
    names: Seq<Seq<char>>,
    h: HostView,
)
    requires
        table_of(rd.catalog, name) is Some,
        table_tuples(rd.pages, table_of(rd.catalog, name)->0.first_page_id.0) is Ok,
        ({
            let info = table_of(rd.catalog, name)->0;
            let raws = table_tuples(rd.pages, info.first_page_id.0)->Ok_0;
            let s = scan_stream(raws, 0, info.mvcc_enabled, rd.txn, types_of(info.schema));
            &&& s.error is None
            &&& c matches SelectColumn::Expr { expr, alias } && simple_aggregate(
                expr,
            ) matches Some(p) && {
                let found = column_aggregate(
                    rd.catalog,
                    rd.pages,
                    name,
                    p.1,
                    p.0,
                    rd.txn is Some,
                    h,
                );
                found matches Ok(Some(_)) && agrees(c, info, s.rows, names, found, h)
            }
        }),
    ensures
        ({
            let info = table_of(rd.catalog, name)->0;
            let raws = table_tuples(rd.pages, info.first_page_id.0)->Ok_0;
            let s = scan_stream(raws, 0, info.mvcc_enabled, rd.txn, types_of(info.schema));
            let expr = c->Expr_expr;
            let p = simple_aggregate(expr)->0;
            &&& agg_value(expr, s.rows, names, h) is Ok
            &&& column_aggregate(
                rd.catalog,
                rd.pages,
                name,
                p.1,
                p.0,
                rd.txn is Some,
                h,
            ) == Ok::<_, ErrorView>(Some(agg_value(expr, s.rows, names, h)->Ok_0))
        }),
{
    let info = table_of(rd.catalog, name)->0;
    let raws = table_tuples(rd.pages, info.first_page_id.0)->Ok_0;
    let types = types_of(info.schema);
    let s = scan_stream(raws, 0, info.mvcc_enabled, rd.txn, types);
    reveal_strlit("COUNT");
    reveal_strlit("SUM");
    reveal_strlit("AVG");
    reveal_strlit("MIN");
    reveal_strlit("MAX");
    if let SelectColumn::Expr { expr, alias } = c {
        if let Expr::Function { name: called, args, distinct } = expr {
            let (f, column) = simple_aggregate(expr)->0;
            let k = name_from(info.schema.names(), column, 0)->0;
            lemma_name_from(info.schema.names(), column, 0);
            assert(s.rows.skip(0) =~= s.rows);
            assert("COUNT"@.len() == 5 && "SUM"@.len() == 3);
            assert("SUM"@[0] == 'S' && "AVG"@[0] == 'A' && "MIN"@[1] == 'I' && "MAX"@[1] == 'A'
                && "MIN"@[0] == 'M' && "MAX"@[0] == 'M');
            assert(aggregate_of(upper_text(called@)) == function_of(f));
            lemma_scan_alike(
                raws,
                0,
                info.mvcc_enabled,
                rd.txn,
                types,
                k,
                f,
                run_start(),
                nothing(),
                args[0],
                s.rows,
                0,
                names,
                h,
            );
        }
    }
}

/// Whether the columns of a SELECT list from `i` on agree, over a table that is streamed.
pub open spec fn all_agree(
    cols: Seq<SelectColumn>,
    i: int,
    name: Seq<char>,
    rd: ReadView,
    rows: Seq<RowView>,
    names: Seq<Seq<char>>,
    h: HostView,
) -> bool {
    forall|k: int|
        i <= k < cols.len() ==> (#[trigger] cols[k] matches SelectColumn::Expr { expr, alias }
            && simple_aggregate(expr) matches Some(p) && agrees(
            cols[k],
            table_of(rd.catalog, name)->0,
            rows,
            names,
            column_aggregate(rd.catalog, rd.pages, name, p.1, p.0, rd.txn is Some, h),
            h,
        ))
}

proof fn lemma_row_alike(
    cols: Seq<SelectColumn>,
    i: int,
    acc: Seq<ValueView>,
    star_error: Seq<char>,
    name: Seq<char>,
    rd: ReadView,
    names: Seq<Seq<char>>,
    h: HostView,
)
    requires
        0 <= i <= cols.len(),
        table_of(rd.catalog, name) is Some,
        table_tuples(rd.pages, table_of(rd.catalog, name)->0.first_page_id.0) is Ok,
        aggregates_from(cols, i, name, rd, acc, h) matches Some(Ok(_)),
        ({
            let info = table_of(rd.catalog, name)->0;
            let raws = table_tuples(rd.pages, info.first_page_id.0)->Ok_0;
            let s = scan_stream(raws, 0, info.mvcc_enabled, rd.txn, types_of(info.schema));
            s.error is None && all_agree(cols, i, name, rd, s.rows, names, h)
        }),
    ensures
        ({
            let info = table_of(rd.catalog, name)->0;
            let raws = table_tuples(rd.pages, info.first_page_id.0)->Ok_0;
            let s = scan_stream(raws, 0, info.mvcc_enabled, rd.txn, types_of(info.schema));
            aggregates_from(cols, i, name, rd, acc, h) == Some(
                agg_row(cols, i, acc, star_error, s.rows, names, h),
            )
        }),
    decreases cols.len() - i,
{
    if i < cols.len() {
        if let SelectColumn::Expr { expr, alias } = cols[i] {
            let p = simple_aggregate(expr)->0;
            law_column_aggregate_is_right(name, cols[i], rd, names, h);
            let v = column_aggregate(
                rd.catalog,
                rd.pages,
                name,
                p.1,
                p.0,
                rd.txn is Some,
                h,
            )->Ok_0->0;
            lemma_row_alike(cols, i + 1, acc.push(v), star_error, name, rd, names, h);
        }
    }
}

/// Aggregates over columns of a table that are found from those columns alone are what reading
/// the rows gives.
pub proof fn law_aggregates_without_rows_are_right(
    child: PlanNode,
    columns: Vec<SelectColumn>,
    inner: PlanNode,
    rd: ReadView,
    h: HostView,
)
    requires
        child matches PlanNode::Projection { columns: c, child: i } && c == columns && *i == inner,
        aggregate_answer(columns@, inner, rd, h) matches Some(Ok(_)),
        streamed(inner, rd, h) matches Some(Ok(p)) && p.1.error is None && all_agree(
            columns@,
            0,
            plain_table(inner)->0,
            rd,
            p.1.rows,
            p.0,
            h,
        ),
        bare_names(column_names(columns@)) == aggregate_labels(columns@),
        !has_window(columns@),
    ensures
        streamed(child, rd, h) matches Some(Ok(p)) && p.1.error is None && aggregate_answer(
            columns@,
            inner,
            rd,
            h,
        ) == Some(drained(p.0, p.1)),
{
    let p = streamed(inner, rd, h)->0->Ok_0;
    let cols = columns@;
    let table = plain_table(inner)->0;
    let none = Seq::<ValueView>::empty();
    let star_error = "cannot use * with aggregate functions"@;
    lemma_row_alike(cols, 0, none, star_error, table, rd, p.0, h);
    let row = agg_row(cols, 0, none, star_error, p.1.rows, p.0, h)->Ok_0;
    assert(column_has_aggregate(cols[0]));
    assert(aggregated(cols));
    let q = streamed(child, rd, h)->0->Ok_0;
    assert(q.1.rows =~= seq![(no_rid(), row)]);
    assert(values_of(q.1.rows) =~= seq![row]);
}

} // verus!
