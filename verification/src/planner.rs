//! From statements to plans.
use crate::ast::{Expr, FromClause, OrderByItem, SelectColumn, Statement};
use crate::catalog::Catalog;
use crate::error::{ErrorView, ForgeError};
use crate::plan::PlanNode;
use vstd::prelude::*;

verus! {

/// The scans and joins of a FROM clause; none, where a query stands in it.
pub open spec fn from_plan(f: FromClause) -> Option<PlanNode>
    decreases f,
{
    match f {
        FromClause::Table { name, alias } => Some(PlanNode::SeqScan { table_name: name, alias }),
        FromClause::Join { left, right, join_type, on } => match (
            from_plan(*left),
            from_plan(*right),
        ) {
            (Some(l), Some(r)) => Some(
                PlanNode::NestedLoopJoin { left: Box::new(l), right: Box::new(r), join_type, on },
            ),
            _ => None,
        },
        FromClause::Subquery { query, alias } => None,
    }
}

/// A plan with a condition on its rows.
pub open spec fn filter_plan(p: PlanNode, condition: Option<Expr>) -> PlanNode {
    match condition {
        Some(predicate) => PlanNode::Filter { predicate, child: Box::new(p) },
        None => p,
    }
}

/// A plan with its output columns: of groups, or row by row.
pub open spec fn output_plan(
    p: PlanNode,
    columns: Vec<SelectColumn>,
    group_by: Vec<Expr>,
    having: Option<Expr>,
) -> PlanNode {
    if group_by@.len() > 0 || having is Some {
        PlanNode::GroupBy {
            group_exprs: group_by,
            having,
            select_columns: columns,
            child: Box::new(p),
        }
    } else {
        PlanNode::Projection { columns, child: Box::new(p) }
    }
}

/// A plan whose rows come once each.
pub open spec fn distinct_plan(p: PlanNode, distinct: bool) -> PlanNode {
    if distinct {
        PlanNode::Distinct { child: Box::new(p) }
    } else {
        p
    }
}

/// A plan whose rows come in order.
pub open spec fn sort_plan(p: PlanNode, order_by: Vec<OrderByItem>) -> PlanNode {
    if order_by@.len() > 0 {
        PlanNode::Sort { order_by, child: Box::new(p) }
    } else {
        p
    }
}

/// A plan of which some rows are wanted.
pub open spec fn limit_plan(p: PlanNode, limit: Option<usize>, offset: Option<usize>) -> PlanNode {
    if limit is Some || offset is Some {
        PlanNode::Limit {
            count: match limit {
                Some(n) => n,
                None => usize::MAX,
            },
            offset: match offset {
                Some(n) => n,
                None => 0,
            },
            child: Box::new(p),
        }
    } else {
        p
    }
}

/// Whether a plan, or the lack of one, is the one for a statement. A table that is to be made
/// if it is not there, or removed if it is there, loses its name in the plan where nothing is
/// to be done.
pub open spec fn planned(
    stmt: Statement,
    c: Catalog,
    r: std::result::Result<PlanNode, ErrorView>,
) -> bool {
    match stmt {
        Statement::Select {
            distinct,
            columns,
            from,
            where_clause,
            group_by,
            having,
            order_by,
            limit,
            offset,
            ctes,
        } => match from_plan(from) {
            None => r == Err::<PlanNode, ErrorView>(
                ErrorView::Plan("query in a FROM clause is not resolved"@),
            ),
            Some(p) => r == Ok::<PlanNode, ErrorView>(
                limit_plan(
                    sort_plan(
                        distinct_plan(
                            output_plan(filter_plan(p, where_clause), columns, group_by, having),
                            distinct,
                        ),
                        order_by,
                    ),
                    limit,
                    offset,
                ),
            ),
        },
        Statement::Insert { table_name, columns, values, on_conflict } => r == Ok::<
            PlanNode,
            ErrorView,
        >(PlanNode::Insert { table_name, columns, values, on_conflict }),
        Statement::Update { table_name, assignments, where_clause } => r == Ok::<
            PlanNode,
            ErrorView,
        >(
            PlanNode::Update {
                table_name,
                assignments,
                child: Box::new(
                    filter_plan(PlanNode::SeqScan { table_name, alias: None }, where_clause),
                ),
            },
        ),
        Statement::Delete { table_name, where_clause } => r == Ok::<PlanNode, ErrorView>(
            PlanNode::Delete {
                table_name,
                child: Box::new(
                    filter_plan(PlanNode::SeqScan { table_name, alias: None }, where_clause),
                ),
            },
        ),
        Statement::CreateTable { table_name, columns, if_not_exists } => match r {
            Ok(PlanNode::CreateTable { table_name: t, columns: defs }) => {
                &&& defs == columns
                &&& if if_not_exists && c.place(table_name@) is Some {
                    t@.len() == 0
                } else {
                    t == table_name
                }
            },
            _ => false,
        },
        Statement::DropTable { table_name, if_exists } => match r {
            Ok(PlanNode::DropTable { table_name: t }) => if if_exists && c.place(
                table_name@,
            ) is None {
                t@.len() == 0
            } else {
                t == table_name
            },
            _ => false,
        },
        Statement::CreateIndex { index_name, table_name, columns, unique } => match r {
            Ok(
                PlanNode::CreateIndex {
                    index_name: i,
                    table_name: t,
                    columns: cols,
                    unique: u,
                    include_columns,
                },
            ) => {
                &&& i == index_name
                &&& t == table_name
                &&& cols == columns
                &&& u == unique
                &&& include_columns@.len() == 0
            },
            _ => false,
        },
        _ => r == Err::<PlanNode, ErrorView>(ErrorView::Plan("statement has no plan"@)),
    }
}

fn plan_from(f: FromClause) -> (r: Option<PlanNode>)
    ensures
        r == from_plan(f),
    decreases f,
{
    match f {
        FromClause::Table { name, alias } => Some(PlanNode::SeqScan { table_name: name, alias }),
        FromClause::Join { left, right, join_type, on } => match (
            plan_from(*left),
            plan_from(*right),
        ) {
            (Some(l), Some(r)) => Some(
                PlanNode::NestedLoopJoin { left: Box::new(l), right: Box::new(r), join_type, on },
            ),
            _ => None,
        },
        FromClause::Subquery { query: _, alias: _ } => None,
    }
}

fn add_filter(p: PlanNode, condition: Option<Expr>) -> (r: PlanNode)
    ensures
        r == filter_plan(p, condition),
{
    match condition {
        Some(predicate) => PlanNode::Filter { predicate, child: Box::new(p) },
        None => p,
    }
}

/// The plan for a statement.
pub fn plan(stmt: Statement, catalog: &Catalog) -> (r: std::result::Result<PlanNode, ForgeError>)
    ensures
        planned(
            stmt,
            *catalog,
            match r {
                Ok(p) => Ok(p),
                Err(e) => Err(e@),
            },
        ),
{
    match stmt {
        Statement::Select {
            distinct,
            columns,
            from,
            where_clause,
            group_by,
            having,
            order_by,
            limit,
            offset,
            ctes: _,
        } => {
            let p = match plan_from(from) {
                Some(p) => p,
                None => {
                    return Err(
                        ForgeError::Plan("query in a FROM clause is not resolved".to_owned()),
                    );
                },
            };
            let p = add_filter(p, where_clause);
            let p = if group_by.len() > 0 || having.is_some() {
                PlanNode::GroupBy {
                    group_exprs: group_by,
                    having,
                    select_columns: columns,
                    child: Box::new(p),
                }
            } else {
                PlanNode::Projection { columns, child: Box::new(p) }
            };
            let p = if distinct {
                PlanNode::Distinct { child: Box::new(p) }
            } else {
                p
            };
            let p = if order_by.len() > 0 {
                PlanNode::Sort { order_by, child: Box::new(p) }
            } else {
                p
            };
            let p = if limit.is_some() || offset.is_some() {
                let count: usize = match limit {
                    Some(n) => n,
                    None => usize::MAX,
                };
                let skip: usize = match offset {
                    Some(n) => n,
                    None => 0,
                };
                PlanNode::Limit { count, offset: skip, child: Box::new(p) }
            } else {
                p
            };
            Ok(p)
        },
        Statement::Insert { table_name, columns, values, on_conflict } => Ok(
            PlanNode::Insert { table_name, columns, values, on_conflict },
        ),
        Statement::Update { table_name, assignments, where_clause } => {
            let scan = PlanNode::SeqScan { table_name: table_name.clone(), alias: None };
            let child = Box::new(add_filter(scan, where_clause));
            Ok(PlanNode::Update { table_name, assignments, child })
        },
        Statement::Delete { table_name, where_clause } => {
            let scan = PlanNode::SeqScan { table_name: table_name.clone(), alias: None };
            let child = Box::new(add_filter(scan, where_clause));
            Ok(PlanNode::Delete { table_name, child })
        },
        Statement::CreateTable { table_name, columns, if_not_exists } => {
            let there = if_not_exists && catalog.get_table(table_name.as_str()).is_some();
            let table_name = if there {
                String::new()
            } else {
                table_name
            };
            Ok(PlanNode::CreateTable { table_name, columns })
        },
        Statement::DropTable { table_name, if_exists } => {
            let missing = if_exists && catalog.get_table(table_name.as_str()).is_none();
            let table_name = if missing {
                String::new()
            } else {
                table_name
            };
            Ok(PlanNode::DropTable { table_name })
        },
        Statement::CreateIndex { index_name, table_name, columns, unique } => Ok(
            PlanNode::CreateIndex {
                index_name,
                table_name,
                columns,
                unique,
                include_columns: Vec::new(),
            },
        ),
        _ => Err(ForgeError::Plan("statement has no plan".to_owned())),
    }
}

} // verus!
