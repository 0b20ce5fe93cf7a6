//! GROUP BY in one pass over the rows.
use crate::aggregate::{
    aggregate_of, avg_term, build_column_names, column_names, compute_group_key, execute_group_by,
    gather, gathered_value, group_by_result, group_key, is_starred, nothing, starred,
    which_aggregate, Aggregate, Gathered, Gatherer, RowView,
};
use crate::ast::{Expr, LiteralValue, SelectColumn};
use crate::builtins::{aggregate_name, is_aggregate_name};
use crate::bytes::lemma_bytes_deep;
use crate::common::RID;
use crate::error::{execution, outcome, ErrorView, ForgeError, Result};
use crate::eval::{eval, evaluate};
use crate::grouping::{distinct_keys, lemma_distinct_keys, Grouping};
use crate::host::{Host, HostView};
use crate::schema::Schema;
use crate::text::upper_text;
use crate::types::{Value, ValueView};
use vstd::prelude::*;

verus! {

// ---------------------------------------------------------------------------
// GROUP BY in one pass
// ---------------------------------------------------------------------------

/// Whether an expression can be computed for all groups in one pass: an aggregate function
/// without DISTINCT whose arguments are columns and literals, a column, or a literal.
pub open spec fn streamable(e: Expr) -> bool {
    match e {
        Expr::Function { name, args, distinct } => aggregate_name(upper_text(name@)) && !distinct
            && forall|i: int|
            0 <= i < args@.len() ==> (#[trigger] args@[i] is ColumnRef || args@[i] is Literal),
        Expr::ColumnRef { table, column } => true,
        Expr::Literal(_) => true,
        _ => false,
    }
}

/// Whether a SELECT column can be computed in one pass.
pub open spec fn streamable_column(c: SelectColumn) -> bool {
    match c {
        SelectColumn::AllColumns(_) => false,
        SelectColumn::Expr { expr, alias } => streamable(expr),
    }
}

fn can_stream_expr(expr: &Expr) -> (r: bool)
    ensures
        r == streamable(*expr),
{
    match expr {
        Expr::Function { name, args, distinct } => {
            if !is_aggregate_name(name.as_str().to_uppercase().as_str()) || *distinct {
                return false;
            }
            let mut i: usize = 0;
            while i < args.len()
                invariant
                    0 <= i <= args.len(),
                    *expr == (Expr::Function { name: *name, args: *args, distinct: *distinct }),
                    forall|k: int|
                        0 <= k < i ==> (#[trigger] args@[k] is ColumnRef || args@[k] is Literal),
                decreases args.len() - i,
            {
                let simple: bool = match &args[i] {
                    Expr::ColumnRef { table: _, column: _ } => true,
                    Expr::Literal(_) => true,
                    _ => false,
                };
                if !simple {
                    assert(!(args@[i as int] is ColumnRef || args@[i as int] is Literal));
                    return false;
                }
                i += 1;
            }
            true
        },
        Expr::ColumnRef { table: _, column: _ } => true,
        Expr::Literal(_) => true,
        _ => false,
    }
}

/// Check if a GROUP BY plan is suitable for streaming aggregation.
/// Returns true if all select columns are either:
/// - Simple aggregate functions (COUNT, SUM, AVG, MIN, MAX) with non-DISTINCT
/// - Column references (group key columns)
/// - Literals
pub fn can_stream_group_by(select_columns: &[SelectColumn]) -> (r: bool)
    ensures
        r == forall|i: int|
            0 <= i < select_columns@.len() ==> streamable_column(#[trigger] select_columns@[i]),
{
    let mut i: usize = 0;
    while i < select_columns.len()
        invariant
            0 <= i <= select_columns.len(),
            forall|k: int| 0 <= k < i ==> streamable_column(#[trigger] select_columns@[k]),
        decreases select_columns.len() - i,
    {
        let fine: bool = match &select_columns[i] {
            SelectColumn::AllColumns(_) => false,
            SelectColumn::Expr { expr, alias: _ } => can_stream_expr(expr),
        };
        if !fine {
            assert(!streamable_column(select_columns@[i as int]));
            return false;
        }
        i += 1;
    }
    true
}

/// How a column is computed in one pass.
pub enum StreamKind {
    /// The number of rows.
    Rows,
    /// An aggregate function of an expression.
    Over(Aggregate, Expr),
    /// The value of an expression on the first row of the group.
    First(Expr),
}

/// How an expression is computed in one pass.
pub open spec fn stream_kind(e: Expr) -> StreamKind {
    match e {
        Expr::Function { name, args, distinct } => if aggregate_name(upper_text(name@)) {
            if starred(args) {
                StreamKind::Rows
            } else {
                StreamKind::Over(aggregate_of(upper_text(name@)), args[0])
            }
        } else {
            StreamKind::First(e)
        },
        _ => StreamKind::First(e),
    }
}

/// One row added to what a column has gathered from its group; `first` tells the first row
/// of the group. A value that is no number is left out of an average.
pub open spec fn stream_step(
    k: StreamKind,
    first: bool,
    st: Gathered,
    row: Seq<ValueView>,
    names: Seq<Seq<char>>,
    h: HostView,
) -> std::result::Result<Gathered, ErrorView> {
    match k {
        StreamKind::Rows => Ok(Gathered { count: st.count + 1, ..st }),
        StreamKind::Over(f, arg) => match eval(arg, row, names, h) {
            Err(e) => Err(e),
            Ok(v) => if f == Aggregate::Avg && avg_term(v) is None {
                Ok(st)
            } else {
                gather(f, false, st, v, h)
            },
        },
        StreamKind::First(e) => if first {
            match eval(e, row, names, h) {
                Err(e) => Err(e),
                Ok(v) => Ok(Gathered { acc: v, ..st }),
            }
        } else {
            Ok(st)
        },
    }
}

/// The result of a column on what it has gathered.
pub open spec fn stream_value(k: StreamKind, st: Gathered, h: HostView) -> std::result::Result<
    ValueView,
    ErrorView,
> {
    match k {
        StreamKind::Rows => Ok(ValueView::BigInt(st.count as i64)),
        StreamKind::Over(f, _) => gathered_value(f, st, h),
        StreamKind::First(_) => Ok(st.acc),
    }
}

/// The expression of a SELECT column; a literal NULL stands in where there is none.
pub open spec fn column_expr(c: SelectColumn) -> Expr {
    match c {
        SelectColumn::Expr { expr, alias } => expr,
        SelectColumn::AllColumns(_) => Expr::Literal(LiteralValue::Null),
    }
}

/// One row added to what the columns from `j` on have gathered, behind `acc`.
pub open spec fn stream_row(
    cols: Seq<SelectColumn>,
    j: int,
    first: bool,
    sts: Seq<Gathered>,
    acc: Seq<Gathered>,
    row: Seq<ValueView>,
    names: Seq<Seq<char>>,
    h: HostView,
) -> std::result::Result<Seq<Gathered>, ErrorView>
    decreases cols.len() - j,
{
    if j < 0 || j >= cols.len() {
        Ok(acc)
    } else {
        let st = if first {
            nothing()
        } else {
            sts[j]
        };
        match stream_step(stream_kind(column_expr(cols[j])), first, st, row, names, h) {
            Err(e) => Err(e),
            Ok(next) => stream_row(cols, j + 1, first, sts, acc.push(next), row, names, h),
        }
    }
}

/// What the groups have gathered from the rows from `i` on: the keys of all rows, and for
/// each key what its columns have gathered.
pub open spec fn stream_from(
    exprs: Seq<Expr>,
    cols: Seq<SelectColumn>,
    rows: Seq<RowView>,
    i: int,
    keys: Seq<Seq<u8>>,
    m: Map<Seq<u8>, Seq<Gathered>>,
    names: Seq<Seq<char>>,
    h: HostView,
) -> std::result::Result<(Seq<Seq<u8>>, Map<Seq<u8>, Seq<Gathered>>), ErrorView>
    decreases rows.len() - i,
{
    if i < 0 || i >= rows.len() {
        Ok((keys, m))
    } else {
        match group_key(exprs, 0, Seq::empty(), rows[i].1, names, h) {
            Err(e) => Err(e),
            Ok(k) => {
                let first = !keys.contains(k);
                match stream_row(cols, 0, first, m[k], Seq::empty(), rows[i].1, names, h) {
                    Err(e) => Err(e),
                    Ok(sts) => stream_from(
                        exprs,
                        cols,
                        rows,
                        i + 1,
                        keys.push(k),
                        m.insert(k, sts),
                        names,
                        h,
                    ),
                }
            },
        }
    }
}

/// The values of the columns from `j` on, on what they have gathered, behind `acc`.
pub open spec fn finished_row(
    cols: Seq<SelectColumn>,
    j: int,
    sts: Seq<Gathered>,
    acc: Seq<ValueView>,
    h: HostView,
) -> std::result::Result<Seq<ValueView>, ErrorView>
    decreases cols.len() - j,
{
    if j < 0 || j >= cols.len() {
        Ok(acc)
    } else {
        match stream_value(stream_kind(column_expr(cols[j])), sts[j], h) {
            Err(e) => Err(e),
            Ok(v) => finished_row(cols, j + 1, sts, acc.push(v), h),
        }
    }
}

/// The result rows of the groups with the keys from `g` on, behind `acc`.
pub open spec fn finished_rows(
    cols: Seq<SelectColumn>,
    d: Seq<Seq<u8>>,
    g: int,
    m: Map<Seq<u8>, Seq<Gathered>>,
    acc: Seq<Seq<ValueView>>,
    h: HostView,
) -> std::result::Result<Seq<Seq<ValueView>>, ErrorView>
    decreases d.len() - g,
{
    if g < 0 || g >= d.len() {
        Ok(acc)
    } else {
        match finished_row(cols, 0, m[d[g]], Seq::empty(), h) {
            Err(e) => Err(e),
            Ok(row) => finished_rows(cols, d, g + 1, m, acc.push(row), h),
        }
    }
}

/// Whether a SELECT list contains `*`.
pub open spec fn has_star(cols: Seq<SelectColumn>) -> bool {
    exists|i: int| 0 <= i < cols.len() && #[trigger] cols[i] is AllColumns
}

/// The column names and rows of a GROUP BY that is computed in one pass. With HAVING it is
/// computed group by group.
pub open spec fn stream_result(
    exprs: Seq<Expr>,
    having: Option<Expr>,
    cols: Seq<SelectColumn>,
    rows: Seq<RowView>,
    names: Seq<Seq<char>>,
    h: HostView,
) -> std::result::Result<(Seq<Seq<char>>, Seq<Seq<ValueView>>), ErrorView> {
    if having is Some {
        group_by_result(exprs, having, cols, rows, names, h)
    } else if has_star(cols) {
        Err(ErrorView::Execution("cannot use * with GROUP BY"@))
    } else {
        match stream_from(exprs, cols, rows, 0, Seq::empty(), Map::empty(), names, h) {
            Err(e) => Err(e),
            Ok(p) => match finished_rows(cols, distinct_keys(p.0), 0, p.1, Seq::empty(), h) {
                Err(e) => Err(e),
                Ok(out) => Ok((column_names(cols), out)),
            },
        }
    }
}

/// How a column is computed in one pass.
enum StreamCol<'a> {
    Rows,
    Over(Aggregate, &'a Expr),
    First(&'a Expr),
}

impl<'a> StreamCol<'a> {
    spec fn kind(self) -> StreamKind {
        match self {
            StreamCol::Rows => StreamKind::Rows,
            StreamCol::Over(f, e) => StreamKind::Over(f, *e),
            StreamCol::First(e) => StreamKind::First(*e),
        }
    }
}

fn classify_stream_col<'a>(expr: &'a Expr) -> (r: StreamCol<'a>)
    ensures
        r.kind() == stream_kind(*expr),
{
    match expr {
        Expr::Function { name, args, distinct: _ } => {
            let upper = name.as_str().to_uppercase();
            if is_aggregate_name(upper.as_str()) {
                if is_starred(args) {
                    StreamCol::Rows
                } else {
                    StreamCol::Over(which_aggregate(upper.as_str()), &args[0])
                }
            } else {
                StreamCol::First(expr)
            }
        },
        _ => StreamCol::First(expr),
    }
}

/// What several columns have gathered.
spec fn states(v: Seq<Gatherer>) -> Seq<Gathered> {
    Seq::new(v.len(), |j: int| v[j].state())
}

fn update_accumulator(
    k: &StreamCol,
    first: bool,
    g: Gatherer,
    row: &[Value],
    schema: &Schema,
    host: &Host,
) -> (r: std::result::Result<Gatherer, ForgeError>)
    requires
        g.state().count < usize::MAX,
    ensures
        match r {
            Ok(x) => stream_step(
                k.kind(),
                first,
                g.state(),
                row.deep_view(),
                schema.names(),
                host@,
            ) == Ok::<Gathered, ErrorView>(x.state()) && x.state().count <= g.state().count + 1,
            Err(e) => stream_step(
                k.kind(),
                first,
                g.state(),
                row.deep_view(),
                schema.names(),
                host@,
            ) == Err::<Gathered, ErrorView>(e@),
        },
{
    match k {
        StreamCol::Rows => Ok(g.count_one()),
        StreamCol::Over(f, arg) => {
            let v = evaluate(arg, row, schema, host)?;
            let number: bool = match &v {
                Value::Integer(_) => true,
                Value::BigInt(_) => true,
                Value::Float(_) => true,
                _ => false,
            };
            if *f == Aggregate::Avg && !number {
                Ok(g)
            } else {
                g.add(*f, false, v, host)
            }
        },
        StreamCol::First(e) => if first {
            let v = evaluate(e, row, schema, host)?;
            Ok(g.hold(v))
        } else {
            Ok(g)
        },
    }
}

fn update_row(
    kinds: &Vec<StreamCol>,
    cols: &[SelectColumn],
    first: bool,
    sts: Vec<Gatherer>,
    row: &[Value],
    schema: &Schema,
    host: &Host,
    n: usize,
) -> (r: std::result::Result<Vec<Gatherer>, ForgeError>)
    requires
        kinds.len() == cols@.len(),
        forall|j: int|
            0 <= j < kinds.len() ==> (#[trigger] kinds@[j]).kind() == stream_kind(
                column_expr(cols@[j]),
            ),
        sts.len() == kinds.len(),
        n < usize::MAX,
        forall|j: int| 0 <= j < sts.len() ==> (#[trigger] sts@[j]).state().count <= n,
        first ==> forall|j: int| 0 <= j < sts.len() ==> (#[trigger] sts@[j]).state() == nothing(),
    ensures
        match r {
            Ok(x) => {
                &&& stream_row(
                    cols@,
                    0,
                    first,
                    states(sts@),
                    Seq::empty(),
                    row.deep_view(),
                    schema.names(),
                    host@,
                ) == Ok::<Seq<Gathered>, ErrorView>(states(x@))
                &&& x.len() == kinds.len()
                &&& forall|j: int| 0 <= j < x.len() ==> (#[trigger] x@[j]).state().count <= n + 1
            },
            Err(e) => stream_row(
                cols@,
                0,
                first,
                states(sts@),
                Seq::empty(),
                row.deep_view(),
                schema.names(),
                host@,
            ) == Err::<Seq<Gathered>, ErrorView>(e@),
        },
{
    let ghost before = states(sts@);
    let ghost all = sts@;
    let mut rest = sts;
    let mut out: Vec<Gatherer> = Vec::new();
    let mut j: usize = 0;
    assert(states(out@) =~= Seq::<Gathered>::empty());
    while j < kinds.len()
        invariant
            0 <= j <= kinds.len(),
            kinds.len() == cols@.len(),
            n < usize::MAX,
            forall|i: int|
                0 <= i < kinds.len() ==> (#[trigger] kinds@[i]).kind() == stream_kind(
                    column_expr(cols@[i]),
                ),
            all == sts@,
            all.len() == kinds.len(),
            before == states(all),
            rest.len() == kinds.len(),
            forall|i: int| j <= i < rest.len() ==> #[trigger] rest@[i] == all[i],
            forall|i: int| 0 <= i < all.len() ==> (#[trigger] all[i]).state().count <= n,
            first ==> forall|i: int|
                0 <= i < all.len() ==> (#[trigger] all[i]).state() == nothing(),
            out.len() == j,
            forall|i: int| 0 <= i < out.len() ==> (#[trigger] out@[i]).state().count <= n + 1,
            stream_row(
                cols@,
                0,
                first,
                before,
                Seq::empty(),
                row.deep_view(),
                schema.names(),
                host@,
            ) == stream_row(
                cols@,
                j as int,
                first,
                before,
                states(out@),
                row.deep_view(),
                schema.names(),
                host@,
            ),
        decreases kinds.len() - j,
    {
        let mut g = Gatherer::new();
        core::mem::swap(&mut g, &mut rest[j]);
        assert(g == all[j as int]);
        let next = update_accumulator(&kinds[j], first, g, row, schema, host)?;
        let ghost was = states(out@);
        out.push(next);
        assert(states(out@) =~= was.push(next.state()));
        j += 1;
    }
    Ok(out)
}

fn fresh_row(n: usize) -> (r: Vec<Gatherer>)
    ensures
        r.len() == n,
        forall|j: int| 0 <= j < r.len() ==> (#[trigger] r@[j]).state() == nothing(),
{
    let mut out: Vec<Gatherer> = Vec::new();
    let mut j: usize = 0;
    while j < n
        invariant
            0 <= j <= n,
            out.len() == j,
            forall|i: int| 0 <= i < out.len() ==> (#[trigger] out@[i]).state() == nothing(),
        decreases n - j,
    {
        out.push(Gatherer::new());
        j += 1;
    }
    out
}

fn finish_row(
    kinds: &Vec<StreamCol>,
    cols: &[SelectColumn],
    sts: Vec<Gatherer>,
    host: &Host,
) -> (r: Result<Vec<Value>>)
    requires
        kinds.len() == cols@.len(),
        sts.len() == kinds.len(),
        forall|j: int|
            0 <= j < kinds.len() ==> (#[trigger] kinds@[j]).kind() == stream_kind(
                column_expr(cols@[j]),
            ),
    ensures
        outcome(r) == finished_row(cols@, 0, states(sts@), Seq::empty(), host@),
{
    let ghost all = sts@;
    let ghost view = states(sts@);
    let mut rest = sts;
    let mut out: Vec<Value> = Vec::new();
    let mut j: usize = 0;
    assert(out.deep_view() =~= Seq::<ValueView>::empty());
    while j < kinds.len()
        invariant
            0 <= j <= kinds.len(),
            kinds.len() == cols@.len(),
            all == sts@,
            all.len() == kinds.len(),
            rest.len() == kinds.len(),
            view == states(all),
            forall|i: int|
                0 <= i < kinds.len() ==> (#[trigger] kinds@[i]).kind() == stream_kind(
                    column_expr(cols@[i]),
                ),
            forall|i: int| j <= i < rest.len() ==> #[trigger] rest@[i] == all[i],
            finished_row(cols@, 0, view, Seq::empty(), host@) == finished_row(
                cols@,
                j as int,
                view,
                out.deep_view(),
                host@,
            ),
        decreases kinds.len() - j,
    {
        let mut g = Gatherer::new();
        core::mem::swap(&mut g, &mut rest[j]);
        assert(g == all[j as int]);
        let v = match &kinds[j] {
            StreamCol::Rows => g.finish(Aggregate::Count, host)?,
            StreamCol::Over(f, _) => g.finish(*f, host)?,
            StreamCol::First(_) => g.held(),
        };
        let ghost was = out.deep_view();
        out.push(v);
        assert(out.deep_view() =~= was.push(v@));
        j += 1;
    }
    Ok(out)
}

/// Execute a streaming GROUP BY: scans rows and accumulates aggregates in a
/// single pass. This avoids materializing all rows into a Vec first.
///
/// `rows` is iterated exactly once. For each row, the group key is computed,
/// and all accumulators for that group are updated incrementally.
///
/// Falls back to the non-streaming path when HAVING is present, since HAVING
/// requires re-evaluating aggregate expressions against the group's raw rows.
pub fn execute_streaming_group_by(
    group_exprs: &[Expr],
    having: &Option<Expr>,
    select_columns: &[SelectColumn],
    rows: &[(RID, Vec<Value>)],
    schema: &Schema,
    host: &Host,
) -> (r: Result<(Vec<String>, Vec<Vec<Value>>)>)
    ensures
        outcome(r) == stream_result(
            group_exprs@,
            *having,
            select_columns@,
            rows.deep_view(),
            schema.names(),
            host@,
        ),
{
    if having.is_some() {
        return execute_group_by(group_exprs, having, select_columns, rows, schema, host);
    }
    let mut kinds: Vec<StreamCol> = Vec::new();
    let mut j: usize = 0;
    while j < select_columns.len()
        invariant
            0 <= j <= select_columns.len(),
            kinds.len() == j,
            *having is None,
            forall|i: int| 0 <= i < j ==> !(#[trigger] select_columns@[i] is AllColumns),
            forall|i: int|
                0 <= i < kinds.len() ==> (#[trigger] kinds@[i]).kind() == stream_kind(
                    column_expr(select_columns@[i]),
                ),
        decreases select_columns.len() - j,
    {
        match &select_columns[j] {
            SelectColumn::AllColumns(_) => {
                assert(select_columns@[j as int] is AllColumns);
                return execution("cannot use * with GROUP BY");
            },
            SelectColumn::Expr { expr, alias: _ } => kinds.push(classify_stream_col(expr)),
        }
        j += 1;
    }
    let gathered = stream_rows(group_exprs, select_columns, &kinds, rows, schema, host)?;
    let out = finish_rows(
        &kinds,
        select_columns,
        gathered.0,
        host,
        Ghost(distinct_keys(gathered.1@)),
        Ghost(gathered.2@),
    )?;
    Ok((build_column_names(select_columns), out))
}

/// Whether the columns of each group have gathered what the map says of its key.
spec fn matches_map(
    sts: Seq<Vec<Gatherer>>,
    d: Seq<Seq<u8>>,
    m: Map<Seq<u8>, Seq<Gathered>>,
    n: int,
) -> bool {
    &&& sts.len() == d.len()
    &&& forall|g: int|
        0 <= g < d.len() ==> m[#[trigger] d[g]] == states(sts[g]@) && sts[g]@.len() == n
}

fn stream_rows(
    exprs: &[Expr],
    cols: &[SelectColumn],
    kinds: &Vec<StreamCol>,
    rows: &[(RID, Vec<Value>)],
    schema: &Schema,
    host: &Host,
) -> (r: std::result::Result<
    (Vec<Vec<Gatherer>>, Ghost<Seq<Seq<u8>>>, Ghost<Map<Seq<u8>, Seq<Gathered>>>),
    ForgeError,
>)
    requires
        kinds.len() == cols@.len(),
        forall|j: int|
            0 <= j < kinds.len() ==> (#[trigger] kinds@[j]).kind() == stream_kind(
                column_expr(cols@[j]),
            ),
    ensures
        ({
            let spec = stream_from(
                exprs@,
                cols@,
                rows.deep_view(),
                0,
                Seq::empty(),
                Map::empty(),
                schema.names(),
                host@,
            );
            match r {
                Ok(p) => spec == Ok::<(Seq<Seq<u8>>, Map<Seq<u8>, Seq<Gathered>>), ErrorView>(
                    (p.1@, p.2@),
                ) && matches_map(p.0@, distinct_keys(p.1@), p.2@, cols@.len() as int),
                Err(e) => spec == Err::<
                    (Seq<Seq<u8>>, Map<Seq<u8>, Seq<Gathered>>),
                    ErrorView,
                >(e@),
            }
        }),
{
    let ghost view = rows.deep_view();
    let ghost mut keys: Seq<Seq<u8>> = Seq::empty();
    let ghost mut m: Map<Seq<u8>, Seq<Gathered>> = Map::empty();
    let mut grouping = Grouping::new();
    let mut sts: Vec<Vec<Gatherer>> = Vec::new();
    let mut i: usize = 0;
    while i < rows.len()
        invariant
            0 <= i <= rows.len(),
            view == rows.deep_view(),
            keys.len() == i,
            grouping.of(keys),
            kinds.len() == cols@.len(),
            forall|j: int|
                0 <= j < kinds.len() ==> (#[trigger] kinds@[j]).kind() == stream_kind(
                    column_expr(cols@[j]),
                ),
            matches_map(sts@, distinct_keys(keys), m, cols@.len() as int),
            forall|g: int, j: int|
                0 <= g < sts.len() && 0 <= j < sts@[g]@.len() ==> (#[trigger] sts@[g]@[j]).state().count
                    <= i,
            stream_from(
                exprs@,
                cols@,
                view,
                0,
                Seq::empty(),
                Map::empty(),
                schema.names(),
                host@,
            ) == stream_from(exprs@, cols@, view, i as int, keys, m, schema.names(), host@),
        decreases rows.len() - i,
    {
        assert(view[i as int].1 == rows@[i as int].1.deep_view());
        let row = rows[i].1.as_slice();
        let key = compute_group_key(exprs, row, schema, host)?;
        let ghost k = key@;
        let ghost d = distinct_keys(keys);
        let ghost old_sts = sts@;
        proof {
            lemma_bytes_deep(key);
            lemma_distinct_keys(keys);
            lemma_distinct_keys(keys.push(k));
            assert(keys.push(k).drop_last() =~= keys);
        }
        let (g, first) = grouping.add(key, i, Ghost(keys));
        assert(first == !keys.contains(k));
        if first {
            let fresh = fresh_row(kinds.len());
            proof {
                lemma_first_row(
                    cols@,
                    0,
                    m[k],
                    states(fresh@),
                    Seq::empty(),
                    row.deep_view(),
                    schema.names(),
                    host@,
                );
            }
            let next = update_row(kinds, cols, true, fresh, row, schema, host, i)?;
            sts.push(next);
            proof {
                let m2 = m.insert(k, states(next@));
                let d2 = distinct_keys(keys.push(k));
                assert(d2 == d.push(k));
                assert forall|x: int| 0 <= x < d2.len() implies m2[#[trigger] d2[x]] == states(
                    sts@[x]@,
                ) && sts@[x]@.len() == cols@.len() by {
                    if x < d.len() {
                        assert(d.contains(d[x]));
                        assert(d[x] != k);
                        assert(m[d[x]] == states(old_sts[x]@));
                    }
                }
                m = m2;
                keys = keys.push(k);
            }
        } else {
            let mut mine: Vec<Gatherer> = Vec::new();
            assert(distinct_keys(keys.push(k)) == d);
            core::mem::swap(&mut mine, &mut sts[g]);
            assert(mine@ == old_sts[g as int]@);
            assert(m[d[g as int]] == states(mine@));
            let next = update_row(kinds, cols, false, mine, row, schema, host, i)?;
            sts.set(g, next);
            proof {
                let m2 = m.insert(k, states(next@));
                assert forall|x: int| 0 <= x < d.len() implies m2[#[trigger] d[x]] == states(
                    sts@[x]@,
                ) && sts@[x]@.len() == cols@.len() by {
                    if x != g {
                        assert(d[x] != d[g as int]);
                        assert(m[d[x]] == states(old_sts[x]@));
                        assert(sts@[x] == old_sts[x]);
                    }
                }
                m = m2;
                keys = keys.push(k);
            }
        }
        i += 1;
    }
    Ok((sts, Ghost(keys), Ghost(m)))
}

/// What a group held before its first row makes no difference.
proof fn lemma_first_row(
    cols: Seq<SelectColumn>,
    j: int,
    a: Seq<Gathered>,
    b: Seq<Gathered>,
    acc: Seq<Gathered>,
    row: Seq<ValueView>,
    names: Seq<Seq<char>>,
    h: HostView,
)
    ensures
        stream_row(cols, j, true, a, acc, row, names, h) == stream_row(
            cols,
            j,
            true,
            b,
            acc,
            row,
            names,
            h,
        ),
    decreases cols.len() - j,
{
    if 0 <= j < cols.len() {
        match stream_step(stream_kind(column_expr(cols[j])), true, nothing(), row, names, h) {
            Ok(next) => {
                lemma_first_row(cols, j + 1, a, b, acc.push(next), row, names, h);
            },
            Err(_) => {},
        }
    }
}

fn finish_rows(
    kinds: &Vec<StreamCol>,
    cols: &[SelectColumn],
    sts: Vec<Vec<Gatherer>>,
    host: &Host,
    Ghost(d): Ghost<Seq<Seq<u8>>>,
    Ghost(m): Ghost<Map<Seq<u8>, Seq<Gathered>>>,
) -> (r: Result<Vec<Vec<Value>>>)
    requires
        kinds.len() == cols@.len(),
        forall|j: int|
            0 <= j < kinds.len() ==> (#[trigger] kinds@[j]).kind() == stream_kind(
                column_expr(cols@[j]),
            ),
        matches_map(sts@, d, m, cols@.len() as int),
    ensures
        outcome(r) == finished_rows(cols@, d, 0, m, Seq::empty(), host@),
{
    let ghost all = sts@;
    let mut rest = sts;
    let mut out: Vec<Vec<Value>> = Vec::new();
    let mut g: usize = 0;
    assert(out.deep_view() =~= Seq::<Seq<ValueView>>::empty());
    while g < rest.len()
        invariant
            0 <= g <= rest.len(),
            all == sts@,
            rest.len() == all.len(),
            kinds.len() == cols@.len(),
            forall|j: int|
                0 <= j < kinds.len() ==> (#[trigger] kinds@[j]).kind() == stream_kind(
                    column_expr(cols@[j]),
                ),
            matches_map(all, d, m, cols@.len() as int),
            forall|x: int| g <= x < rest.len() ==> #[trigger] rest@[x] == all[x],
            finished_rows(cols@, d, 0, m, Seq::empty(), host@) == finished_rows(
                cols@,
                d,
                g as int,
                m,
                out.deep_view(),
                host@,
            ),
        decreases rest.len() - g,
    {
        let mut mine: Vec<Gatherer> = Vec::new();
        core::mem::swap(&mut mine, &mut rest[g]);
        assert(mine == all[g as int]);
        assert(m[d[g as int]] == states(all[g as int]@));
        let row = finish_row(kinds, cols, mine, host)?;
        let ghost was = out.deep_view();
        let ghost rv = row.deep_view();
        out.push(row);
        assert(out.deep_view() =~= was.push(rv));
        g += 1;
    }
    Ok(out)
}


/// Whether all columns of a SELECT list can be computed row by row.
pub open spec fn all_streamable(cols: Seq<SelectColumn>) -> bool {
    forall|i: int| 0 <= i < cols.len() ==> streamable_column(#[trigger] cols[i])
}

/// What GROUP BY gives: row by row where the columns allow it, else group by group.
pub open spec fn grouped(
    group_exprs: Seq<Expr>,
    having: Option<Expr>,
    cols: Seq<SelectColumn>,
    rows: Seq<RowView>,
    names: Seq<Seq<char>>,
    h: HostView,
) -> std::result::Result<(Seq<Seq<char>>, Seq<Seq<ValueView>>), ErrorView> {
    if all_streamable(cols) {
        stream_result(group_exprs, having, cols, rows, names, h)
    } else {
        group_by_result(group_exprs, having, cols, rows, names, h)
    }
}

/// Executes GROUP BY: row by row where the columns allow it, else group by group.
pub fn execute_grouping(
    group_exprs: &[Expr],
    having: &Option<Expr>,
    select_columns: &[SelectColumn],
    rows: &[(RID, Vec<Value>)],
    schema: &Schema,
    host: &Host,
) -> (r: Result<(Vec<String>, Vec<Vec<Value>>)>)
    ensures
        outcome(r) == grouped(
            group_exprs@,
            *having,
            select_columns@,
            rows.deep_view(),
            schema.names(),
            host@,
        ),
{
    if can_stream_group_by(select_columns) {
        execute_streaming_group_by(group_exprs, having, select_columns, rows, schema, host)
    } else {
        execute_group_by(group_exprs, having, select_columns, rows, schema, host)
    }
}

} // verus!
