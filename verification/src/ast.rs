//! Statements and expressions of the query language, as the parser hands them over.
use crate::types::{DataType, Value};
use vstd::prelude::*;

verus! {

/// A literal. A floating-point literal is held as its bit pattern.
#[derive(Debug, Clone)]
pub enum LiteralValue {
    Integer(i64),
    Float(u64),
    String(String),
    Boolean(bool),
    Null,
}

#[derive(Debug, Clone, Copy, PartialEq, Eq, Structural)]
pub enum BinaryOperator {
    Eq,
    NotEq,
    Lt,
    LtEq,
    Gt,
    GtEq,
    And,
    Or,
    Add,
    Sub,
    Mul,
    Div,
    Modulo,
}

#[derive(Debug, Clone, Copy, PartialEq, Eq, Structural)]
pub enum UnaryOperator {
    Not,
    Neg,
}

/// An expression over the columns of a row.
#[derive(Debug)]
#[allow(inconsistent_fields)]
pub enum Expr {
    Literal(LiteralValue),
    ColumnRef { table: Option<String>, column: String },
    BinaryOp { left: Box<Expr>, op: BinaryOperator, right: Box<Expr> },
    UnaryOp { op: UnaryOperator, expr: Box<Expr> },
    IsNull(Box<Expr>),
    IsNotNull(Box<Expr>),
    Function { name: String, args: Vec<Expr>, distinct: bool },
    Like { expr: Box<Expr>, pattern: Box<Expr> },
    NotLike { expr: Box<Expr>, pattern: Box<Expr> },
    /// Membership in a subquery's result: its values and the keys of those that are not NULL.
    InValues { expr: Box<Expr>, values: Vec<Value>, keys: Vec<Vec<u8>>, negated: bool },
    In { expr: Box<Expr>, list: Vec<Expr> },
    NotIn { expr: Box<Expr>, list: Vec<Expr> },
    Between { expr: Box<Expr>, low: Box<Expr>, high: Box<Expr> },
    Case {
        operand: Option<Box<Expr>>,
        when_clauses: Vec<(Expr, Expr)>,
        else_result: Option<Box<Expr>>,
    },
    Subquery(Box<Statement>),
    InSubquery { expr: Box<Expr>, subquery: Box<Statement>, negated: bool },
    Exists { subquery: Box<Statement>, negated: bool },
    Cast { expr: Box<Expr>, data_type: DataType },
    WindowFunction {
        name: String,
        args: Vec<Expr>,
        partition_by: Vec<Expr>,
        order_by: Vec<OrderByItem>,
    },
    Concat { left: Box<Expr>, right: Box<Expr> },
}

/// One key of an ORDER BY clause.
#[derive(Debug)]
pub struct OrderByItem {
    pub expr: Expr,
    pub ascending: bool,
}

/// One column of a SELECT list.
#[derive(Debug)]
pub enum SelectColumn {
    /// All columns, or those of one table.
    AllColumns(Option<String>),
    Expr { expr: Expr, alias: Option<String> },
}

#[derive(Debug, Clone, Copy, PartialEq, Eq, Structural)]
pub enum JoinType {
    Inner,
    Left,
    Right,
    Full,
    Cross,
}

/// The FROM clause of a SELECT.
#[derive(Debug)]
#[allow(inconsistent_fields)]
pub enum FromClause {
    Table { name: String, alias: Option<String> },
    Join {
        left: Box<FromClause>,
        right: Box<FromClause>,
        join_type: JoinType,
        on: Option<Expr>,
    },
    Subquery { query: Box<Statement>, alias: String },
}

/// What becomes of referencing rows when the referenced row is deleted.
#[derive(Debug, Clone, Copy, PartialEq, Eq, Structural)]
pub enum FkAction {
    Restrict,
    Cascade,
    SetNull,
}

/// A REFERENCES clause.
#[derive(Debug, Clone)]
pub struct FkReference {
    pub table: String,
    pub column: String,
    pub on_delete: FkAction,
}

/// A column of CREATE TABLE.
#[derive(Debug)]
pub struct ColumnDef {
    pub name: String,
    pub data_type: DataType,
    pub nullable: bool,
    pub auto_increment: bool,
    pub default_value: Option<Expr>,
    pub is_primary_key: bool,
    pub is_unique: bool,
    pub check_expr: Option<Expr>,
    pub references: Option<FkReference>,
}

/// What INSERT does with a row whose key is taken.
#[derive(Debug)]
pub enum OnConflictAction {
    DoNothing,
    DoUpdate(Vec<(String, Expr)>),
}

/// An ON CONFLICT clause.
#[derive(Debug)]
pub struct OnConflict {
    pub action: OnConflictAction,
}

/// A change of ALTER TABLE.
#[derive(Debug)]
pub enum AlterTableOp {
    AddColumn(ColumnDef),
    DropColumn(String),
    ModifyColumn(ColumnDef),
    RenameColumn { old_name: String, new_name: String },
    AddIndex { name: String, columns: Vec<String> },
}

/// When a trigger fires.
#[derive(Debug, Clone, Copy, PartialEq, Eq, Structural)]
pub enum TriggerEvent {
    BeforeInsert,
    AfterInsert,
    BeforeUpdate,
    AfterUpdate,
    BeforeDelete,
    AfterDelete,
}

/// A trigger and the statements it runs.
#[derive(Debug, Clone)]
pub struct TriggerDef {
    pub name: String,
    pub table: String,
    pub event: TriggerEvent,
    pub body: Vec<String>,
}

/// A common table expression of a WITH clause.
#[derive(Debug)]
pub struct Cte {
    pub name: String,
    pub query: Box<Statement>,
    pub recursive: bool,
}

/// A parsed statement.
#[derive(Debug)]
#[allow(inconsistent_fields)]
pub enum Statement {
    Select {
        distinct: bool,
        columns: Vec<SelectColumn>,
        from: FromClause,
        where_clause: Option<Expr>,
        group_by: Vec<Expr>,
        having: Option<Expr>,
        order_by: Vec<OrderByItem>,
        limit: Option<usize>,
        offset: Option<usize>,
        ctes: Vec<Cte>,
    },
    Insert {
        table_name: String,
        columns: Option<Vec<String>>,
        values: Vec<Vec<Expr>>,
        on_conflict: Option<OnConflict>,
    },
    InsertSelect { table_name: String, columns: Option<Vec<String>>, query: Box<Statement> },
    Update { table_name: String, assignments: Vec<(String, Expr)>, where_clause: Option<Expr> },
    Delete { table_name: String, where_clause: Option<Expr> },
    CreateTable { table_name: String, columns: Vec<ColumnDef>, if_not_exists: bool },
    DropTable { table_name: String, if_exists: bool },
    CreateIndex { index_name: String, table_name: String, columns: Vec<String>, unique: bool },
    ShowTables,
    ShowColumns { table_name: String },
    DescribeTable { table_name: String },
    ShowCreateTable { table_name: String },
    SetVariable { name: String, value: String },
    UseDatabase { name: String },
    StartTransaction,
    Commit,
    Rollback,
    Savepoint { name: String },
    RollbackTo { name: String },
    ReleaseSavepoint { name: String },
    AnalyzeTable { table_name: String },
    Explain { statement: Box<Statement> },
    Union { left: Box<Statement>, right: Box<Statement>, all: bool },
    CreateView { name: String, column_aliases: Vec<String>, query: Box<Statement> },
    DropView { name: String, if_exists: bool },
    TruncateTable { table_name: String },
    CreateSequence { name: String, start: i64, increment: i64 },
    CreateDatabase { name: String },
    DropDatabase { name: String },
    AlterTable { table_name: String, operations: Vec<AlterTableOp> },
    /// A statement that was carried out before parsing.
    Preparsed,
}

} // verus!
