//! Physical plans.
use crate::ast::{ColumnDef, Expr, JoinType, OnConflict, OrderByItem, SelectColumn};
use vstd::prelude::*;

verus! {

/// How a statement is executed.
#[derive(Debug)]
pub enum PlanNode {
    /// An empty name stands for a table that is there already.
    CreateTable { table_name: String, columns: Vec<ColumnDef> },
    /// An empty name stands for a table that is not there.
    DropTable { table_name: String },
    CreateIndex {
        index_name: String,
        table_name: String,
        columns: Vec<String>,
        unique: bool,
        include_columns: Vec<String>,
    },
    Insert {
        table_name: String,
        columns: Option<Vec<String>>,
        values: Vec<Vec<Expr>>,
        on_conflict: Option<OnConflict>,
    },
    Update { table_name: String, assignments: Vec<(String, Expr)>, child: Box<PlanNode> },
    Delete { table_name: String, child: Box<PlanNode> },
    /// The rows of a table.
    SeqScan { table_name: String, alias: Option<String> },
    /// The row that an index has for a value.
    IndexScan {
        table_name: String,
        index_column: String,
        lookup_value: Expr,
        index_only: bool,
    },
    Filter { predicate: Expr, child: Box<PlanNode> },
    NestedLoopJoin {
        left: Box<PlanNode>,
        right: Box<PlanNode>,
        join_type: JoinType,
        on: Option<Expr>,
    },
    HashJoin {
        left: Box<PlanNode>,
        right: Box<PlanNode>,
        join_type: JoinType,
        on: Option<Expr>,
    },
    Projection { columns: Vec<SelectColumn>, child: Box<PlanNode> },
    GroupBy {
        group_exprs: Vec<Expr>,
        having: Option<Expr>,
        select_columns: Vec<SelectColumn>,
        child: Box<PlanNode>,
    },
    Distinct { child: Box<PlanNode> },
    Sort { order_by: Vec<OrderByItem>, child: Box<PlanNode> },
    Limit { count: usize, offset: usize, child: Box<PlanNode> },
}

} // verus!
