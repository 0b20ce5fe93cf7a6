//! Common table expressions, recursive ones among them.
use crate::ast::{Cte, FromClause, SelectColumn, Statement};
use crate::catalog::Catalog;
use crate::common::TxnId;
use crate::engine::{only_reads, plan_ran, Engine, EngineView};
use crate::error::{error_of, outcome, ErrorView, ForgeError, Result};
use crate::executor::Answer;
use crate::host::{Host, HostView};
use crate::plan::PlanNode;
use crate::planner::{plan, planned};
use crate::resolve::stored_as;
use crate::run::{planned_ran, stmt_ran};
use crate::state::{ExecuteResult, ResultView};
use crate::text::{joined, lower_text, same_text};
use crate::types::{clone_row, Value, ValueView};
use crate::bytes::find_key;
use crate::values::{row_key, serialize_row_key};
use vstd::prelude::*;

verus! {

/// Most rounds of a recursive expression.
pub const MAX_ROUNDS: usize = 1000;

// ---------------------------------------------------------------------------
// The recursive part
// ---------------------------------------------------------------------------

/// A FROM clause in which one table stands for another.
pub open spec fn from_renamed(f: FromClause, name: Seq<char>, table: String) -> FromClause
    decreases f,
{
    match f {
        FromClause::Table { name: n, alias } => if lower_text(n@) == lower_text(name) {
            FromClause::Table {
                name: table,
                alias: match alias {
                    Some(a) => Some(a),
                    None => Some(n),
                },
            }
        } else {
            f
        },
        FromClause::Join { left, right, join_type, on } => FromClause::Join {
            left: Box::new(from_renamed(*left, name, table)),
            right: Box::new(from_renamed(*right, name, table)),
            join_type,
            on,
        },
        FromClause::Subquery { query, alias } => f,
    }
}

fn rename_from(f: FromClause, name: &str, table: &String) -> (r: FromClause)
    ensures
        r == from_renamed(f, name@, *table),
    decreases f,
{
    match f {
        FromClause::Table { name: n, alias } => if same_text(
            n.to_lowercase().as_str(),
            name.to_lowercase().as_str(),
        ) {
            let alias = match alias {
                Some(a) => Some(a),
                None => Some(n),
            };
            FromClause::Table { name: table.clone(), alias }
        } else {
            FromClause::Table { name: n, alias }
        },
        FromClause::Join { left, right, join_type, on } => {
            let l = rename_from(*left, name, table);
            let r = rename_from(*right, name, table);
            FromClause::Join { left: Box::new(l), right: Box::new(r), join_type, on }
        },
        FromClause::Subquery { query, alias } => FromClause::Subquery { query, alias },
    }
}

/// A query in which one table stands for another.
pub open spec fn renamed(stmt: Statement, name: Seq<char>, table: String) -> Statement {
    match stmt {
        Statement::Select {
            distinct,
            columns,
            from,
            where_clause,
            group_by,
            having,
            order_by,
            limit,
            offset,
            ctes,
        } => Statement::Select {
            distinct,
            columns,
            from: from_renamed(from, name, table),
            where_clause,
            group_by,
            having,
            order_by,
            limit,
            offset,
            ctes,
        },
        _ => stmt,
    }
}

/// Whether this is the plan of the recursive part: the query with the table of the last round
/// in place of the expression's name; none, if the part is no query that can be planned.
pub open spec fn recurs_by(
    part: Option<Statement>,
    name: Seq<char>,
    table: String,
    c: Catalog,
    p: Option<PlanNode>,
) -> bool {
    match part {
        None => p is None,
        Some(stmt) => if stmt is Select {
            planned(
                renamed(stmt, name, table),
                c,
                match p {
                    Some(node) => Ok(node),
                    None => Err(ErrorView::Plan("query in a FROM clause is not resolved"@)),
                },
            )
        } else {
            p is None
        },
    }
}

fn plan_part(part: Option<Statement>, name: &str, table: &String, catalog: &Catalog) -> (r: Option<
    PlanNode,
>)
    ensures
        recurs_by(part, name@, *table, *catalog, r),
        r is Some ==> only_reads(r->0),
{
    match part {
        Some(
            Statement::Select {
                distinct,
                columns,
                from,
                where_clause,
                group_by,
                having,
                order_by,
                limit,
                offset,
                ctes,
            },
        ) => {
            let from = rename_from(from, name, table);
            let stmt = Statement::Select {
                distinct,
                columns,
                from,
                where_clause,
                group_by,
                having,
                order_by,
                limit,
                offset,
                ctes,
            };
            match plan(stmt, catalog) {
                Ok(node) => Some(node),
                Err(_) => None,
            }
        },
        _ => None,
    }
}

/// The rows from `i` on that are not among those known, behind `acc`.
pub open spec fn new_rows(
    rows: Seq<Seq<ValueView>>,
    known: Seq<Seq<ValueView>>,
    i: int,
    acc: Seq<Seq<ValueView>>,
) -> Seq<Seq<ValueView>>
    decreases rows.len() - i,
{
    if i < 0 || i >= rows.len() {
        acc
    } else {
        new_rows(
            rows,
            known,
            i + 1,
            if row_keys(known).contains(row_key(rows[i])) {
                acc
            } else {
                acc.push(rows[i])
            },
        )
    }
}

/// The keys of rows.
pub open spec fn row_keys(rows: Seq<Seq<ValueView>>) -> Seq<Seq<u8>> {
    rows.map_values(|row: Seq<ValueView>| row_key(row))
}

fn keys_of_rows(rows: &Vec<Vec<Value>>) -> (r: Vec<Vec<u8>>)
    ensures
        r.deep_view() == row_keys(rows.deep_view()),
{
    let ghost rv = rows.deep_view();
    let mut out: Vec<Vec<u8>> = Vec::new();
    let mut i: usize = 0;
    while i < rows.len()
        invariant
            0 <= i <= rows.len(),
            rv == rows.deep_view(),
            out.deep_view() == row_keys(rv).take(i as int),
        decreases rows.len() - i,
    {
        let ghost had = out.deep_view();
        assert(rv[i as int] == rows@[i as int].deep_view());
        let key = serialize_row_key(rows[i].as_slice());
        assert(key.deep_view() =~= key@);
        out.push(key);
        assert(out.deep_view() =~= had.push(row_key(rv[i as int])));
        assert(row_keys(rv).take(i + 1) =~= row_keys(rv).take(i as int).push(row_keys(rv)[i as int]));
        i += 1;
    }
    assert(row_keys(rv).take(i as int) =~= row_keys(rv));
    out
}

fn keep_new(rows: &Vec<Vec<Value>>, known: &Vec<Vec<Value>>) -> (r: Vec<Vec<Value>>)
    ensures
        r.deep_view() == new_rows(rows.deep_view(), known.deep_view(), 0, Seq::empty()),
{
    let ghost rv = rows.deep_view();
    let ghost kv = known.deep_view();
    let keys = keys_of_rows(known);
    let mut out: Vec<Vec<Value>> = Vec::new();
    assert(out.deep_view() =~= Seq::<Seq<ValueView>>::empty());
    let mut i: usize = 0;
    while i < rows.len()
        invariant
            0 <= i <= rows.len(),
            rv == rows.deep_view(),
            keys.deep_view() == row_keys(kv),
            new_rows(rv, kv, 0, Seq::empty()) == new_rows(rv, kv, i as int, out.deep_view()),
        decreases rows.len() - i,
    {
        assert(rv[i as int] == rows@[i as int].deep_view());
        let key = serialize_row_key(rows[i].as_slice());
        if find_key(&keys, &key).is_none() {
            let ghost had = out.deep_view();
            out.push(clone_row(rows[i].as_slice()));
            assert(out.deep_view() =~= had.push(rv[i as int]));
        }
        i += 1;
    }
    out
}

// ---------------------------------------------------------------------------
// Rounds
// ---------------------------------------------------------------------------

/// Whether a step failed because the host is asked.
pub open spec fn asked(m: Option<ErrorView>) -> bool {
    m matches Some(ErrorView::NeedsFloat(_))
}

/// Whether a statement removes a table, if it is there, and leaves this behind.
pub open spec fn removed_by(
    stmt: Statement,
    table: Seq<char>,
    e0: EngineView,
    e1: EngineView,
    r: Answer,
    h: HostView,
) -> bool {
    &&& match stmt {
        Statement::DropTable { table_name, if_exists } => table_name@ == table && if_exists,
        _ => false,
    }
    &&& planned_ran(stmt, e0, None, e1, None, r, h)
}

/// What the rounds leave behind, and the rows of all of them: in each round the query runs over
/// the rows that the round before it added, until no new rows come, the query fails or no
/// round is left.
pub open spec fn recurred(
    p: Option<PlanNode>,
    table: Seq<char>,
    names: Seq<Seq<char>>,
    rounds: nat,
    all: Seq<Seq<ValueView>>,
    last: Seq<Seq<ValueView>>,
    e0: EngineView,
    e1: EngineView,
    out: std::result::Result<Seq<Seq<ValueView>>, ErrorView>,
    h: HostView,
) -> bool
    decreases rounds,
{
    if p is None || rounds == 0 || last.len() == 0 {
        e1 == e0 && out == Ok::<Seq<Seq<ValueView>>, ErrorView>(all)
    } else {
        exists|em: EngineView, m: Option<ErrorView>| #[trigger]
            stored_as(table, names, last, e0, em, m, h) && if asked(m) {
                e1 == em && out == Err::<Seq<Seq<ValueView>>, ErrorView>(m->0)
            } else {
                exists|a: Answer| #[trigger]
                    plan_ran(p->0, em, None, em, None, a, h) && match a {
                        Err(ErrorView::NeedsFloat(f)) => e1 == em && out == Err::<
                            Seq<Seq<ValueView>>,
                            ErrorView,
                        >(ErrorView::NeedsFloat(f)),
                        Err(_) => e1 == em && out == Ok::<Seq<Seq<ValueView>>, ErrorView>(all),
                        Ok(x) => {
                            let more = new_rows(x.rows, all, 0, Seq::empty());
                            if more.len() == 0 {
                                e1 == em && out == Ok::<Seq<Seq<ValueView>>, ErrorView>(all)
                            } else {
                                exists|drop: Statement, ed: EngineView, d: Answer| #[trigger]
                                    removed_by(drop, table, em, ed, d, h) && recurred(
                                        p,
                                        table,
                                        names,
                                        (rounds - 1) as nat,
                                        all + more,
                                        more,
                                        ed,
                                        e1,
                                        out,
                                        h,
                                    )
                            }
                        },
                    }
            }
    }
}

fn copy_rows(rows: &Vec<Vec<Value>>) -> (r: Vec<Vec<Value>>)
    ensures
        r.deep_view() == rows.deep_view(),
{
    let ghost rv = rows.deep_view();
    let mut out: Vec<Vec<Value>> = Vec::new();
    let mut i: usize = 0;
    while i < rows.len()
        invariant
            0 <= i <= rows.len(),
            rv == rows.deep_view(),
            out.deep_view() == rv.take(i as int),
        decreases rows.len() - i,
    {
        let ghost had = out.deep_view();
        out.push(clone_row(rows[i].as_slice()));
        assert(out.deep_view() =~= had.push(rv[i as int]));
        assert(rv.take(i + 1) =~= rv.take(i as int).push(rv[i as int]));
        i += 1;
    }
    assert(rv.take(i as int) =~= rv);
    out
}

impl Engine {
    fn run_rounds(
        &mut self,
        p: &Option<PlanNode>,
        table: &str,
        names: &Vec<String>,
        rounds: usize,
        all: Vec<Vec<Value>>,
        last: Vec<Vec<Value>>,
        host: &Host,
    ) -> (r: Result<Vec<Vec<Value>>>)
        requires
            old(self)@.wf(),
            *p is Some ==> only_reads(p->0),
        ensures
            final(self)@.wf(),
            recurred(
                *p,
                table@,
                names.deep_view(),
                rounds as nat,
                all.deep_view(),
                last.deep_view(),
                old(self)@,
                final(self)@,
                outcome(r),
                host@,
            ),
        decreases rounds,
    {
        let ghost allv = all.deep_view();
        let node = match p {
            Some(node) => node,
            None => {
                return Ok(all);
            },
        };
        if rounds == 0 || last.len() == 0 {
            return Ok(all);
        }
        let ghost e0 = self@;
        let ghost nv = names.deep_view();
        let ghost lastv = last.deep_view();
        assert(lastv.len() == last.len());
        let m = self.store_result(table, names, &last, host);
        let ghost em = self@;
        let ghost mv = error_of(m);
        assert(stored_as(table@, nv, lastv, e0, em, mv, host@));
        match m {
            Err(ForgeError::NeedsFloat(f)) => {
                return Err(ForgeError::NeedsFloat(f));
            },
            _ => {},
        }
        assert(!asked(mv));
        let a = self.read_plan(node, None, host);
        assert(plan_ran(*node, em, None, em, None, outcome(a), host@));
        let found = match a {
            Err(ForgeError::NeedsFloat(f)) => {
                return Err(ForgeError::NeedsFloat(f));
            },
            Err(_) => {
                return Ok(all);
            },
            Ok(found) => found,
        };
        let more = keep_new(&found.rows, &all);
        let ghost morev = more.deep_view();
        assert(morev.len() == more.len());
        if more.len() == 0 {
            return Ok(all);
        }
        let mut session: Option<TxnId> = None;
        let drop = Statement::DropTable { table_name: table.to_owned(), if_exists: true };
        let ghost dstmt = drop;
        let d = self.execute_planned(drop, &mut session, host);
        assert(session is None);
        assert(removed_by(dstmt, table@, em, self@, outcome(d), host@));
        let mut known = all;
        let mut extra = copy_rows(&more);
        known.append(&mut extra);
        assert(known.deep_view() =~= allv + morev);
        self.run_rounds(p, table, names, rounds - 1, known, more, host)
    }
}

// ---------------------------------------------------------------------------
// Expressions of a WITH clause
// ---------------------------------------------------------------------------

/// The first part of a recursive query, and the part that recurs.
pub open spec fn parts(query: Statement) -> (Statement, Option<Statement>) {
    match query {
        Statement::Union { left, right, all } => (*left, Some(*right)),
        _ => (query, None),
    }
}

/// Whether a plan reads a whole table.
pub open spec fn reads_all(p: PlanNode, table: Seq<char>) -> bool {
    match p {
        PlanNode::Projection { columns, child } => {
            &&& columns@.len() == 1
            &&& columns@[0] == SelectColumn::AllColumns(None)
            &&& match *child {
                PlanNode::SeqScan { table_name, alias } => table_name@ == table && alias is None,
                _ => false,
            }
        },
        _ => false,
    }
}

/// The steps of a recursive expression.
pub struct Recurring {
    pub based: EngineView,
    pub base: Answer,
    pub table: String,
    pub part: Option<PlanNode>,
    pub ended: EngineView,
    pub rows: std::result::Result<Seq<Seq<ValueView>>, ErrorView>,
    pub kept: EngineView,
    pub keeping: Option<ErrorView>,
    pub read: PlanNode,
}

/// Whether a recursive expression takes these steps: the first part runs, then the rounds; all
/// rows go into a table, which is read.
pub open spec fn recursive_by(
    s: Recurring,
    name: Seq<char>,
    query: Statement,
    e0: EngineView,
    e1: EngineView,
    r: Answer,
    h: HostView,
) -> bool {
    &&& stmt_ran(parts(query).0, ""@, e0, s.based, s.base, h)
    &&& match s.base {
        Err(x) => e1 == s.based && r == Err::<ResultView, ErrorView>(x),
        Ok(b) => {
            &&& s.table@ == "__recursive_cte_"@ + name + "__"@
            &&& recurs_by(parts(query).1, name, s.table, s.based.catalog, s.part)
            &&& recurred(
                s.part,
                s.table@,
                b.columns,
                MAX_ROUNDS as nat,
                b.rows,
                b.rows,
                s.based,
                s.ended,
                s.rows,
                h,
            )
            &&& match s.rows {
                Err(x) => e1 == s.ended && r == Err::<ResultView, ErrorView>(x),
                Ok(all) => {
                    let result = "__recursive_result_"@ + name + "__"@;
                    &&& stored_as(result, b.columns, all, s.ended, s.kept, s.keeping, h)
                    &&& if asked(s.keeping) {
                        e1 == s.kept && r == Err::<ResultView, ErrorView>(s.keeping->0)
                    } else {
                        &&& reads_all(s.read, result)
                        &&& e1 == s.kept
                        &&& plan_ran(s.read, s.kept, None, e1, None, r, h)
                    }
                },
            }
        },
    }
}

/// What a common table expression leaves behind, and the rows that it stands for.
pub open spec fn cte_ran(cte: Cte, e0: EngineView, e1: EngineView, r: Answer, h: HostView) -> bool {
    if cte.recursive {
        exists|s: Recurring| #[trigger] recursive_by(s, cte.name@, *cte.query, e0, e1, r, h)
    } else {
        stmt_ran(*cte.query, ""@, e0, e1, r, h)
    }
}

fn between_bars(before: &str, name: &str) -> (r: String)
    ensures
        r@ == before@ + name@ + "__"@,
{
    joined(joined(before, name).as_str(), "__")
}

impl Engine {
    /// Execute a recursive CTE iteratively until fixed point.
    /// The CTE query must be a UNION ALL of base case and recursive case.
    pub fn execute_recursive_cte(&mut self, name: &str, query: Statement, host: &Host) -> (r: Result<
        ExecuteResult,
    >)
        requires
            old(self)@.wf(),
        ensures
            final(self)@.wf(),
            exists|s: Recurring| #[trigger]
                recursive_by(s, name@, query, old(self)@, final(self)@, outcome(r), host@),
    {
        let ghost e0 = self@;
        let ghost mut s: Recurring = arbitrary();
        let (first, part): (Statement, Option<Statement>) = match query {
            Statement::Union { left, right, all: _ } => (*left, Some(*right)),
            other => (other, None),
        };
        assert((first, part) == parts(query));
        let base = self.execute_stmt_internal(first, "", host);
        proof {
            s.based = self@;
            s.base = outcome(base);
        }
        let found = match base {
            Err(e) => {
                let r: Result<ExecuteResult> = Err(e);
                assert(recursive_by(s, name@, query, e0, self@, outcome(r), host@));
                return r;
            },
            Ok(found) => found,
        };
        let table = between_bars("__recursive_cte_", name);
        let p = plan_part(part, name, &table, &self.ctx.catalog);
        let all = copy_rows(&found.rows);
        let names = found.columns;
        let rows = self.run_rounds(&p, table.as_str(), &names, MAX_ROUNDS, all, found.rows, host);
        proof {
            s.table = table;
            s.part = p;
            s.ended = self@;
            s.rows = outcome(rows);
        }
        let all = match rows {
            Err(e) => {
                let r: Result<ExecuteResult> = Err(e);
                assert(recursive_by(s, name@, query, e0, self@, outcome(r), host@));
                return r;
            },
            Ok(rows) => rows,
        };
        let result = between_bars("__recursive_result_", name);
        let keeping = self.store_result(result.as_str(), &names, &all, host);
        proof {
            s.kept = self@;
            s.keeping = error_of(keeping);
        }
        match keeping {
            Err(ForgeError::NeedsFloat(f)) => {
                let r: Result<ExecuteResult> = Err(ForgeError::NeedsFloat(f));
                assert(recursive_by(s, name@, query, e0, self@, outcome(r), host@));
                return r;
            },
            _ => {},
        }
        let mut columns: Vec<SelectColumn> = Vec::new();
        columns.push(SelectColumn::AllColumns(None));
        let scan = PlanNode::SeqScan { table_name: result, alias: None };
        let read = PlanNode::Projection { columns, child: Box::new(scan) };
        proof {
            s.read = read;
        }
        let r = self.read_plan(&read, None, host);
        assert(recursive_by(s, name@, query, e0, self@, outcome(r), host@));
        r
    }

    /// Executes a common table expression.
    pub fn execute_cte(&mut self, cte: Cte, host: &Host) -> (r: Result<ExecuteResult>)
        requires
            old(self)@.wf(),
        ensures
            final(self)@.wf(),
            cte_ran(cte, old(self)@, final(self)@, outcome(r), host@),
    {
        if cte.recursive {
            self.execute_recursive_cte(cte.name.as_str(), *cte.query, host)
        } else {
            self.execute_stmt_internal(*cte.query, "", host)
        }
    }
}

} // verus!
