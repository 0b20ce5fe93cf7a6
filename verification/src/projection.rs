//! Projection of SELECT columns.
use crate::aggregate::RowView;
use crate::ast::{Expr, SelectColumn};
use crate::common::RID;
use crate::error::{outcome, ErrorView, Result};
use crate::eval::{eval, evaluate};
use crate::host::{Host, HostView};
use crate::schema::Schema;
use crate::text::{begins, chars_of, find, find_from, lower_text, starts_with, string_of};
use crate::types::{Value, ValueView};
use crate::window::{compute_window_column, window_column};
use vstd::prelude::*;

verus! {

/// A column name without its table: what follows the first point.
pub open spec fn bare_name(name: Seq<char>) -> Seq<char> {
    match find_from(name, seq!['.'], 0) {
        Some(k) => name.skip(k + 1),
        None => name,
    }
}

/// Strip "table." prefix from a column name for output.
pub fn strip_table_prefix(name: &str) -> (r: String)
    ensures
        r@ == bare_name(name@),
{
    let c = chars_of(name);
    let mut dot: Vec<char> = Vec::new();
    dot.push('.');
    assert(dot@ =~= seq!['.']);
    match find(&c, &dot, 0) {
        Some(k) => {
            assert(c@.subrange(k + 1, c.len() as int) =~= name@.skip(k + 1));
            string_of(&c, k + 1, c.len())
        },
        None => name.to_owned(),
    }
}

/// The name under which an expression without an alias appears.
pub open spec fn expr_name(e: Expr) -> Seq<char> {
    match e {
        Expr::ColumnRef { table, column } => column@,
        Expr::Function { name, args, distinct } => name@ + "(?)"@,
        Expr::WindowFunction { name, args, partition_by, order_by } => name@,
        _ => "?"@,
    }
}

/// The name under which an expression without an alias appears.
pub fn expr_to_name(expr: &Expr) -> (r: String)
    ensures
        r@ == expr_name(*expr),
{
    match expr {
        Expr::ColumnRef { table: _, column } => column.clone(),
        Expr::Function { name, args: _, distinct: _ } => {
            let mut s = name.clone();
            s.append("(?)");
            s
        },
        Expr::WindowFunction { name, args: _, partition_by: _, order_by: _ } => name.clone(),
        _ => "?".to_owned(),
    }
}

/// Whether `*`, or `table.*`, takes a column of the given name.
pub open spec fn star_takes(filter: Option<Seq<char>>, name: Seq<char>) -> bool {
    match filter {
        None => true,
        Some(t) => begins(lower_text(name), lower_text(t) + seq!['.']),
    }
}

/// Where an output value comes from: a column of the row, or an expression.
#[derive(Debug, Clone, Copy)]
pub enum Output<'a> {
    Column(usize),
    Expr(&'a Expr),
}

/// Where an output value comes from.
pub enum OutputView {
    Column(int),
    Expr(Expr),
}

/// The output columns: their names, and where the value of each comes from.
pub struct OutputPlan {
    pub names: Seq<Seq<char>>,
    pub exprs: Seq<OutputView>,
}

/// The plan with the columns that `*` takes from the schema, from column `i` on.
pub open spec fn with_star(
    p: OutputPlan,
    filter: Option<Seq<char>>,
    names: Seq<Seq<char>>,
    i: int,
) -> OutputPlan
    decreases names.len() - i,
{
    if i < 0 || i >= names.len() {
        p
    } else if star_takes(filter, names[i]) {
        with_star(
            OutputPlan {
                names: p.names.push(bare_name(names[i])),
                exprs: p.exprs.push(OutputView::Column(i)),
            },
            filter,
            names,
            i + 1,
        )
    } else {
        with_star(p, filter, names, i + 1)
    }
}

/// The plan with the SELECT columns from `i` on.
pub open spec fn planned(
    p: OutputPlan,
    cols: Seq<SelectColumn>,
    names: Seq<Seq<char>>,
    i: int,
) -> OutputPlan
    decreases cols.len() - i,
{
    if i < 0 || i >= cols.len() {
        p
    } else {
        let next = match cols[i] {
            SelectColumn::AllColumns(filter) => with_star(p, filter.deep_view(), names, 0),
            SelectColumn::Expr { expr, alias } => OutputPlan {
                names: p.names.push(
                    match alias {
                        Some(a) => a@,
                        None => expr_name(expr),
                    },
                ),
                exprs: p.exprs.push(OutputView::Expr(expr)),
            },
        };
        planned(next, cols, names, i + 1)
    }
}

/// The output columns of a SELECT list.
pub open spec fn output_plan(cols: Seq<SelectColumn>, names: Seq<Seq<char>>) -> OutputPlan {
    planned(OutputPlan { names: Seq::empty(), exprs: Seq::empty() }, cols, names, 0)
}

/// The sources that references stand for.
pub open spec fn pointed(v: Seq<Output>) -> Seq<OutputView> {
    Seq::new(
        v.len(),
        |i: int|
            match v[i] {
                Output::Column(k) => OutputView::Column(k as int),
                Output::Expr(e) => OutputView::Expr(*e),
            },
    )
}

/// The output columns of a SELECT list: names and sources.
pub fn plan_output<'a>(columns: &'a [SelectColumn], schema: &Schema) -> (r: (
    Vec<String>,
    Vec<Output<'a>>,
))
    ensures
        r.0.deep_view() == output_plan(columns@, schema.names()).names,
        pointed(r.1@) == output_plan(columns@, schema.names()).exprs,
{
    let ghost names = schema.names();
    let mut out: Vec<String> = Vec::new();
    let mut exprs: Vec<Output<'a>> = Vec::new();
    let mut i: usize = 0;
    assert(out.deep_view() =~= Seq::<Seq<char>>::empty());
    assert(pointed(exprs@) =~= Seq::<OutputView>::empty());
    while i < columns.len()
        invariant
            0 <= i <= columns.len(),
            names == schema.names(),
            output_plan(columns@, names) == planned(
                OutputPlan { names: out.deep_view(), exprs: pointed(exprs@) },
                columns@,
                names,
                i as int,
            ),
        decreases columns.len() - i,
    {
        let ghost p = OutputPlan { names: out.deep_view(), exprs: pointed(exprs@) };
        match &columns[i] {
            SelectColumn::AllColumns(filter) => {
                let prefix: Option<String> = match filter {
                    None => None,
                    Some(t) => {
                        let mut s = t.as_str().to_lowercase();
                        s.push('.');
                        assert(s@ =~= lower_text(t@) + seq!['.']);
                        Some(s)
                    },
                };
                let ghost fv = filter.deep_view();
                let mut k: usize = 0;
                while k < schema.columns.len()
                    invariant
                        0 <= k <= schema.columns.len(),
                        names == schema.names(),
                        fv == filter.deep_view(),
                        prefix is None == fv is None,
                        prefix matches Some(s) ==> s@ == lower_text(fv->0) + seq!['.'],
                        with_star(p, fv, names, 0) == with_star(
                            OutputPlan { names: out.deep_view(), exprs: pointed(exprs@) },
                            fv,
                            names,
                            k as int,
                        ),
                    decreases schema.columns.len() - k,
                {
                    let name: &str = schema.columns[k].name.as_str();
                    let takes: bool = match &prefix {
                        None => true,
                        Some(s) => starts_with(name.to_lowercase().as_str(), s.as_str()),
                    };
                    if takes {
                        let ghost on = out.deep_view();
                        let ghost oe = pointed(exprs@);
                        let s = strip_table_prefix(name);
                        out.push(s);
                        exprs.push(Output::Column(k));
                        assert(out.deep_view() =~= on.push(s@));
                        assert(pointed(exprs@) =~= oe.push(OutputView::Column(k as int)));
                    }
                    k += 1;
                }
            },
            SelectColumn::Expr { expr, alias } => {
                let s = match alias {
                    Some(a) => a.clone(),
                    None => expr_to_name(expr),
                };
                let ghost on = out.deep_view();
                let ghost oe = pointed(exprs@);
                out.push(s);
                exprs.push(Output::Expr(expr));
                assert(out.deep_view() =~= on.push(s@));
                assert(pointed(exprs@) =~= oe.push(OutputView::Expr(*expr)));
            },
        }
        i += 1;
    }
    (out, exprs)
}

/// The values of the window functions among the output columns from `j` on, behind `acc`;
/// none for a column that is no window function.
pub open spec fn windows_from(
    exprs: Seq<OutputView>,
    j: int,
    acc: Seq<Option<Seq<ValueView>>>,
    rows: Seq<RowView>,
    names: Seq<Seq<char>>,
    h: HostView,
) -> std::result::Result<Seq<Option<Seq<ValueView>>>, ErrorView>
    decreases exprs.len() - j,
{
    if j < 0 || j >= exprs.len() {
        Ok(acc)
    } else {
        match exprs[j] {
            OutputView::Expr(Expr::WindowFunction { name, args, partition_by, order_by }) => match window_column(
                name@,
                args@,
                partition_by@,
                order_by@,
                rows,
                names,
                h,
            ) {
                Err(e) => Err(e),
                Ok(v) => windows_from(exprs, j + 1, acc.push(Some(v)), rows, names, h),
            },
            _ => windows_from(exprs, j + 1, acc.push(None), rows, names, h),
        }
    }
}

/// The output row of row `r` from column `j` on, behind `acc`. A column that `*` takes and
/// that the row does not have is left out.
pub open spec fn project_from(
    exprs: Seq<OutputView>,
    wins: Seq<Option<Seq<ValueView>>>,
    j: int,
    acc: Seq<ValueView>,
    r: int,
    row: Seq<ValueView>,
    names: Seq<Seq<char>>,
    h: HostView,
) -> std::result::Result<Seq<ValueView>, ErrorView>
    decreases exprs.len() - j,
{
    if j < 0 || j >= exprs.len() {
        Ok(acc)
    } else {
        match exprs[j] {
            OutputView::Column(k) => if k < row.len() {
                project_from(exprs, wins, j + 1, acc.push(row[k]), r, row, names, h)
            } else {
                project_from(exprs, wins, j + 1, acc, r, row, names, h)
            },
            OutputView::Expr(e) => {
                let v = match wins[j] {
                    Some(w) => Ok(w[r]),
                    None => eval(e, row, names, h),
                };
                match v {
                    Err(x) => Err(x),
                    Ok(x) => project_from(
                        exprs,
                        wins,
                        j + 1,
                        acc.push(x),
                        r,
                        row,
                        names,
                        h,
                    ),
                }
            },
        }
    }
}

/// The output rows of the rows from `i` on, behind `acc`.
pub open spec fn project_rows(
    exprs: Seq<OutputView>,
    wins: Seq<Option<Seq<ValueView>>>,
    rows: Seq<RowView>,
    i: int,
    acc: Seq<Seq<ValueView>>,
    names: Seq<Seq<char>>,
    h: HostView,
) -> std::result::Result<Seq<Seq<ValueView>>, ErrorView>
    decreases rows.len() - i,
{
    if i < 0 || i >= rows.len() {
        Ok(acc)
    } else {
        match project_from(exprs, wins, 0, Seq::empty(), i, rows[i].1, names, h) {
            Err(e) => Err(e),
            Ok(row) => project_rows(exprs, wins, rows, i + 1, acc.push(row), names, h),
        }
    }
}

/// The column names and rows of a projection.
pub open spec fn projection(
    cols: Seq<SelectColumn>,
    rows: Seq<RowView>,
    names: Seq<Seq<char>>,
    h: HostView,
) -> std::result::Result<(Seq<Seq<char>>, Seq<Seq<ValueView>>), ErrorView> {
    let p = output_plan(cols, names);
    match windows_from(p.exprs, 0, Seq::empty(), rows, names, h) {
        Err(e) => Err(e),
        Ok(wins) => match project_rows(p.exprs, wins, rows, 0, Seq::empty(), names, h) {
            Err(e) => Err(e),
            Ok(out) => Ok((p.names, out)),
        },
    }
}

fn compute_windows(
    exprs: &Vec<Output>,
    rows: &[(RID, Vec<Value>)],
    schema: &Schema,
    host: &Host,
) -> (r: Result<Vec<Option<Vec<Value>>>>)
    ensures
        outcome(r) == windows_from(
            pointed(exprs@),
            0,
            Seq::empty(),
            rows.deep_view(),
            schema.names(),
            host@,
        ),
        r matches Ok(w) ==> w.len() == exprs.len() && forall|j: int|
            0 <= j < w.len() ==> (#[trigger] w@[j] matches Some(v) ==> v.len() == rows@.len()),
{
    let ghost view = rows.deep_view();
    let ghost ev = pointed(exprs@);
    let mut out: Vec<Option<Vec<Value>>> = Vec::new();
    let mut j: usize = 0;
    assert(out.deep_view() =~= Seq::<Option<Seq<ValueView>>>::empty());
    while j < exprs.len()
        invariant
            0 <= j <= exprs.len(),
            out.len() == j,
            view == rows.deep_view(),
            ev == pointed(exprs@),
            forall|i: int|
                0 <= i < out.len() ==> (#[trigger] out@[i] matches Some(v) ==> v.len()
                    == rows@.len()),
            windows_from(ev, 0, Seq::empty(), view, schema.names(), host@) == windows_from(
                ev,
                j as int,
                out.deep_view(),
                view,
                schema.names(),
                host@,
            ),
        decreases exprs.len() - j,
    {
        let ghost before = out.deep_view();
        let w: Option<Vec<Value>> = match exprs[j] {
            Output::Expr(Expr::WindowFunction { name, args, partition_by, order_by }) => Some(
                compute_window_column(
                    name.as_str(),
                    args,
                    partition_by,
                    order_by,
                    rows,
                    schema,
                    host,
                )?,
            ),
            _ => None,
        };
        let ghost wv = w.deep_view();
        out.push(w);
        assert(out.deep_view() =~= before.push(wv));
        j += 1;
    }
    Ok(out)
}

/// The output row of a row.
pub fn project_row(
    exprs: &Vec<Output>,
    wins: &Vec<Option<Vec<Value>>>,
    r: usize,
    row: &[Value],
    schema: &Schema,
    host: &Host,
) -> (o: Result<Vec<Value>>)
    requires
        wins.len() == exprs.len(),
        forall|j: int|
            0 <= j < wins.len() ==> (#[trigger] wins@[j] matches Some(v) ==> r < v.len()),
    ensures
        outcome(o) == project_from(
            pointed(exprs@),
            wins.deep_view(),
            0,
            Seq::empty(),
            r as int,
            row.deep_view(),
            schema.names(),
            host@,
        ),
{
    let ghost ev = pointed(exprs@);
    let ghost wv = wins.deep_view();
    let ghost rv = row.deep_view();
    let mut out: Vec<Value> = Vec::new();
    let mut j: usize = 0;
    assert(out.deep_view() =~= Seq::<ValueView>::empty());
    while j < exprs.len()
        invariant
            0 <= j <= exprs.len(),
            ev == pointed(exprs@),
            wv == wins.deep_view(),
            rv == row.deep_view(),
            wins.len() == exprs.len(),
            forall|i: int|
                0 <= i < wins.len() ==> (#[trigger] wins@[i] matches Some(v) ==> r < v.len()),
            project_from(ev, wv, 0, Seq::empty(), r as int, rv, schema.names(), host@)
                == project_from(
                ev,
                wv,
                j as int,
                out.deep_view(),
                r as int,
                rv,
                schema.names(),
                host@,
            ),
        decreases exprs.len() - j,
    {
        let ghost before = out.deep_view();
        match exprs[j] {
            Output::Column(k) => {
                if k < row.len() {
                    let v = row[k].clone();
                    out.push(v);
                    assert(out.deep_view() =~= before.push(v@));
                }
            },
            Output::Expr(e) => {
                assert(wv[j as int] == wins@[j as int].deep_view());
                let v = match &wins[j] {
                    Some(w) => {
                        assert(w.deep_view()[r as int] == w@[r as int]@);
                        w[r].clone()
                    },
                    None => evaluate(e, row, schema, host)?,
                };
                out.push(v);
                assert(out.deep_view() =~= before.push(v@));
            },
        }
        j += 1;
    }
    Ok(out)
}

/// Project columns from rows, returning (column_names, projected_rows).
pub fn execute_projection(
    columns: &[SelectColumn],
    rows: &[(RID, Vec<Value>)],
    schema: &Schema,
    host: &Host,
) -> (r: Result<(Vec<String>, Vec<Vec<Value>>)>)
    ensures
        outcome(r) == projection(columns@, rows.deep_view(), schema.names(), host@),
{
    let (names, exprs) = plan_output(columns, schema);
    let wins = compute_windows(&exprs, rows, schema, host)?;
    let ghost view = rows.deep_view();
    let ghost ev = pointed(exprs@);
    let ghost wv = wins.deep_view();
    let mut out: Vec<Vec<Value>> = Vec::new();
    let mut i: usize = 0;
    assert(out.deep_view() =~= Seq::<Seq<ValueView>>::empty());
    while i < rows.len()
        invariant
            0 <= i <= rows.len(),
            view == rows.deep_view(),
            ev == pointed(exprs@),
            ev == output_plan(columns@, schema.names()).exprs,
            wv == wins.deep_view(),
            wins.len() == exprs.len(),
            forall|j: int|
                0 <= j < wins.len() ==> (#[trigger] wins@[j] matches Some(v) ==> v.len()
                    == rows@.len()),
            windows_from(ev, 0, Seq::empty(), view, schema.names(), host@) == Ok::<
                Seq<Option<Seq<ValueView>>>,
                ErrorView,
            >(wv),
            project_rows(ev, wv, view, 0, Seq::empty(), schema.names(), host@) == project_rows(
                ev,
                wv,
                view,
                i as int,
                out.deep_view(),
                schema.names(),
                host@,
            ),
        decreases rows.len() - i,
    {
        assert(view[i as int].1 == rows@[i as int].1.deep_view());
        let row = project_row(&exprs, &wins, i, rows[i].1.as_slice(), schema, host)?;
        let ghost before = out.deep_view();
        let ghost rv = row.deep_view();
        out.push(row);
        assert(out.deep_view() =~= before.push(rv));
        i += 1;
    }
    Ok((names, out))
}

} // verus!
