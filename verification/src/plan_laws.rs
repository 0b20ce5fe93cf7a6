//! The clauses of a statement reach its plan, and joins and groups are made of what they name.
use crate::ast::{Expr, FromClause, JoinType, OrderByItem, SelectColumn, Statement};
use crate::catalog::Catalog;
use crate::executor::{fast_join, partitioned, plan_rows, read_result, Purpose};
use crate::host::HostView;
use crate::iterator::{placeless, streamed, values_of};
use crate::join::join_rows;
use crate::plan::PlanNode;
use crate::planner::planned;
use crate::query_laws::fulfilling;
use crate::row_laws::law_where_keeps_order;
use crate::schema::view_names;
use crate::state::ReadView;
use crate::stream_laws::{filters_a_scan, law_streaming_reads_the_same};
use crate::streaming::grouped;
use vstd::prelude::*;

verus! {

/// The plan under LIMIT and OFFSET.
pub open spec fn under_limit(
    plan: PlanNode,
    limit: Option<usize>,
    offset: Option<usize>,
) -> Option<PlanNode> {
    if limit is None && offset is None {
        Some(plan)
    } else {
        match plan {
            PlanNode::Limit { count, offset: start, child } => {
                let right_count = match limit {
                    Some(n) => count == n,
                    None => count == usize::MAX,
                };
                let right_start = match offset {
                    Some(n) => start == n,
                    None => start == 0,
                };
                if right_count && right_start {
                    Some(*child)
                } else {
                    None
                }
            },
            _ => None,
        }
    }
}

/// The plan under ORDER BY.
pub open spec fn under_order(plan: PlanNode, order: Vec<OrderByItem>) -> Option<PlanNode> {
    if order@.len() == 0 {
        Some(plan)
    } else {
        match plan {
            PlanNode::Sort { order_by, child } => if order_by == order {
                Some(*child)
            } else {
                None
            },
            _ => None,
        }
    }
}

/// The plan under DISTINCT.
pub open spec fn under_distinct(plan: PlanNode, distinct: bool) -> Option<PlanNode> {
    if !distinct {
        Some(plan)
    } else {
        match plan {
            PlanNode::Distinct { child } => Some(*child),
            _ => None,
        }
    }
}

/// The plan under a SELECT list, with or without GROUP BY and HAVING.
pub open spec fn under_list(
    plan: PlanNode,
    cols: Vec<SelectColumn>,
    group: Vec<Expr>,
    filter: Option<Expr>,
) -> Option<PlanNode> {
    match plan {
        PlanNode::GroupBy { group_exprs, having, select_columns, child } => if (group@.len() > 0
            || filter is Some) && group_exprs == group && having == filter && select_columns
            == cols {
            Some(*child)
        } else {
            None
        },
        PlanNode::Projection { columns, child } => if group@.len() == 0 && filter is None && columns
            == cols {
            Some(*child)
        } else {
            None
        },
        _ => None,
    }
}

/// The plan under WHERE.
pub open spec fn under_where(plan: PlanNode, condition: Option<Expr>) -> Option<PlanNode> {
    match condition {
        None => Some(plan),
        Some(c) => match plan {
            PlanNode::Filter { predicate, child } => if predicate == c {
                Some(*child)
            } else {
                None
            },
            _ => None,
        },
    }
}

/// Whether a plan reads the tables of a FROM clause and joins them as it says.
pub open spec fn reads_from(plan: PlanNode, from: FromClause) -> bool
    decreases from,
{
    match (plan, from) {
        (PlanNode::SeqScan { table_name, alias }, FromClause::Table { name, alias: a }) => {
            table_name == name && alias == a
        },
        (
            PlanNode::NestedLoopJoin { left, right, join_type, on },
            FromClause::Join { left: l, right: r, join_type: t, on: c },
        ) => join_type == t && on == c && reads_from(*left, *l) && reads_from(*right, *r),
        _ => false,
    }
}

proof fn lemma_reads_from(from: FromClause)
    ensures
        crate::planner::from_plan(from) matches Some(p) ==> reads_from(p, from),
    decreases from,
{
    if let FromClause::Join { left, right, join_type, on } = from {
        lemma_reads_from(*left);
        lemma_reads_from(*right);
    }
}

/// The plan of a SELECT takes up all its clauses: LIMIT and OFFSET are applied last, before them
/// ORDER BY, DISTINCT, the SELECT list with GROUP BY and HAVING, and WHERE, and first FROM.
pub proof fn law_plan_takes_up_all_clauses(stmt: Statement, c: Catalog, plan: PlanNode)
    requires
        stmt is Select,
        planned(stmt, c, Ok(plan)),
    ensures
        under_limit(plan, stmt->Select_limit, stmt->Select_offset) matches Some(a) && (under_order(
            a,
            stmt->Select_order_by,
        ) matches Some(b) && (under_distinct(b, stmt->Select_distinct) matches Some(d) && (
        under_list(
            d,
            stmt->Select_columns,
            stmt->Select_group_by,
            stmt->Select_having,
        ) matches Some(e) && (under_where(e, stmt->Select_where_clause) matches Some(f)
            && reads_from(f, stmt->Select_from))))),
{
    lemma_reads_from(stmt->Select_from);
}

/// A join of two plans is made of the rows of the first and of those of the second, with the kind
/// and the condition of the join.
pub proof fn law_joined_plans(
    left: PlanNode,
    right: PlanNode,
    t: JoinType,
    on: Option<Expr>,
    p: Purpose,
    rd: ReadView,
    h: HostView,
)
    requires
        plan_rows(left, p, rd, h) is Ok,
        plan_rows(right, p, rd, h) is Ok,
        p == Purpose::Query && t == JoinType::Inner && on is Some ==> fast_join(
            left,
            right,
            on->0,
            rd,
        ) is None,
        partitioned(
            plan_rows(left, p, rd, h)->Ok_0,
            plan_rows(right, p, rd, h)->Ok_0,
            t,
            on,
        ) is None,
    ensures
        ({
            let l = plan_rows(left, p, rd, h)->Ok_0;
            let r = plan_rows(right, p, rd, h)->Ok_0;
            let plan = PlanNode::NestedLoopJoin {
                left: Box::new(left),
                right: Box::new(right),
                join_type: t,
                on,
            };
            match join_rows(l.1, r.1, t, on, view_names(l.0), view_names(r.0), h) {
                Ok(rows) => plan_rows(plan, p, rd, h) matches Ok(x) && x.1 == rows,
                Err(e) => plan_rows(plan, p, rd, h) matches Err(y) && y == e,
            }
        }),
{
}

/// A SELECT with GROUP BY or HAVING from a table groups the rows on which its condition holds.
pub proof fn law_groups_are_made_of_satisfying_rows(
    stmt: Statement,
    table: String,
    alias: Option<String>,
    c: Catalog,
    plan: PlanNode,
    rd: ReadView,
    h: HostView,
)
    requires
        stmt is Select,
        stmt->Select_group_by@.len() > 0 || stmt->Select_having is Some,
        stmt->Select_from == (FromClause::Table { name: table, alias }),
        !stmt->Select_distinct,
        stmt->Select_order_by@.len() == 0,
        stmt->Select_limit is None,
        stmt->Select_offset is None,
        planned(stmt, c, Ok(plan)),
        plan_rows(PlanNode::SeqScan { table_name: table, alias }, Purpose::Query, rd, h) is Ok,
        read_result(plan, rd, h) is Ok,
    ensures
        ({
            let scan = PlanNode::SeqScan { table_name: table, alias };
            let x = plan_rows(scan, Purpose::Query, rd, h)->Ok_0;
            let names = view_names(x.0);
            grouped(
                stmt->Select_group_by@,
                stmt->Select_having,
                stmt->Select_columns@,
                fulfilling(stmt->Select_where_clause, x.1, names, h),
                names,
                h,
            ) matches Ok(g) && read_result(plan, rd, h)->Ok_0.rows == g.1
        }),
{
    let scan = PlanNode::SeqScan { table_name: table, alias };
    let x = plan_rows(scan, Purpose::Query, rd, h)->Ok_0;
    let names = view_names(x.0);
    let inner = match stmt->Select_where_clause {
        Some(predicate) => PlanNode::Filter { predicate, child: Box::new(scan) },
        None => scan,
    };
    assert(filters_a_scan(scan));
    assert(filters_a_scan(inner));
    let node = PlanNode::GroupBy {
        group_exprs: stmt->Select_group_by,
        having: stmt->Select_having,
        select_columns: stmt->Select_columns,
        child: Box::new(inner),
    };
    assert(plan == node);
    if streamed(inner, rd, h) is Some {
        law_streaming_reads_the_same(inner, rd, h);
    }
    if let Some(p) = stmt->Select_where_clause {
        if plan_rows(inner, Purpose::Query, rd, h) is Ok {
            law_where_keeps_order(p, x.1, names, h);
        }
    }
    let kept = fulfilling(stmt->Select_where_clause, x.1, names, h);
    let g = grouped(
        stmt->Select_group_by@,
        stmt->Select_having,
        stmt->Select_columns@,
        kept,
        names,
        h,
    );
    if let Ok(p) = g {
        assert(values_of(placeless(p.1)) =~= p.1);
    }
}

} // verus!
