//! Columns and schemas.
use crate::ast::Expr;
use crate::expr_format::{check_tree, Tree};
use crate::text::{eq_ignore_ascii_case, same_name};
use crate::types::{DataType, Value, ValueView};
use vstd::prelude::*;

verus! {

/// A column of a table or of an intermediate result.
#[derive(Debug)]
pub struct Column {
    pub name: String,
    pub data_type: DataType,
    pub nullable: bool,
    pub column_id: u16,
    pub auto_increment: bool,
    pub default_value: Option<Value>,
    pub is_primary_key: bool,
    pub is_unique: bool,
    pub check_expr: Option<Expr>,
    /// Referenced table and column, and the code of what a deletion there does.
    pub fk_ref: Option<(String, String, u8)>,
}

/// The columns of a row, in order.
#[derive(Debug)]
pub struct Schema {
    pub columns: Vec<Column>,
}

/// [`Column`] as mathematical values. A CHECK condition is seen as its tree.
pub struct ColumnView {
    pub name: Seq<char>,
    pub data_type: DataType,
    pub nullable: bool,
    pub column_id: u16,
    pub auto_increment: bool,
    pub default_value: Option<ValueView>,
    pub is_primary_key: bool,
    pub is_unique: bool,
    pub check: Option<Tree>,
    pub fk_ref: Option<(Seq<char>, Seq<char>, u8)>,
}

impl DeepView for Column {
    type V = ColumnView;

    open spec fn deep_view(&self) -> ColumnView {
        ColumnView {
            name: self.name@,
            data_type: self.data_type,
            nullable: self.nullable,
            column_id: self.column_id,
            auto_increment: self.auto_increment,
            default_value: self.default_value.deep_view(),
            is_primary_key: self.is_primary_key,
            is_unique: self.is_unique,
            check: check_tree(self.check_expr),
            fk_ref: self.fk_ref.deep_view(),
        }
    }
}

impl DeepView for Schema {
    type V = Seq<ColumnView>;

    open spec fn deep_view(&self) -> Seq<ColumnView> {
        self.columns.deep_view()
    }
}

/// The first place of a column name in `names`, from `i` on, up to the case of ASCII letters.
pub open spec fn name_from(names: Seq<Seq<char>>, name: Seq<char>, i: int) -> Option<int>
    decreases names.len() - i,
{
    if i < 0 || i >= names.len() {
        None
    } else if same_name(names[i], name) {
        Some(i)
    } else {
        name_from(names, name, i + 1)
    }
}

/// Where a name is found, it is there, and nowhere before.
pub proof fn lemma_name_from(names: Seq<Seq<char>>, name: Seq<char>, i: int)
    requires
        0 <= i,
    ensures
        name_from(names, name, i) matches Some(k) ==> i <= k < names.len() && same_name(
            names[k],
            name,
        ),
        name_from(names, name, i) is None ==> forall|k: int|
            i <= k < names.len() ==> !same_name(#[trigger] names[k], name),
    decreases names.len() - i,
{
    if i < names.len() && !same_name(names[i], name) {
        lemma_name_from(names, name, i + 1);
    }
}

impl Schema {
    pub open spec fn names(self) -> Seq<Seq<char>> {
        Seq::new(self.columns@.len(), |i: int| self.columns@[i].name@)
    }

    /// A schema of the given columns.
    pub fn new(columns: Vec<Column>) -> (s: Schema)
        ensures
            s.columns == columns,
    {
        Schema { columns }
    }

    /// The number of columns.
    pub fn column_count(&self) -> (n: usize)
        ensures
            n == self.names().len(),
    {
        self.columns.len()
    }

    /// The place of the first column with a name, up to the case of ASCII letters.
    pub fn get_column(&self, name: &str) -> (r: Option<usize>)
        ensures
            r is Some == name_from(self.names(), name@, 0) is Some,
            r is Some ==> name_from(self.names(), name@, 0) == Some(r->0 as int) && r->0
                < self.columns.len(),
    {
        let ghost names = self.names();
        let mut i: usize = 0;
        while i < self.columns.len()
            invariant
                0 <= i <= self.columns.len(),
                names == self.names(),
                name_from(names, name@, 0) == name_from(names, name@, i as int),
            decreases self.columns.len() - i,
        {
            if eq_ignore_ascii_case(self.columns[i].name.as_str(), name) {
                return Some(i);
            }
            i += 1;
        }
        None
    }
}

// ---------------------------------------------------------------------------
// Schemas of results
// ---------------------------------------------------------------------------

/// The names of columns.
pub open spec fn view_names(cols: Seq<ColumnView>) -> Seq<Seq<char>> {
    Seq::new(cols.len(), |i: int| cols[i].name)
}

/// A schema's names are those of its columns.
pub proof fn lemma_view_names(s: Schema)
    ensures
        s.names() == view_names(s.deep_view()),
{
    assert(s.names() =~= view_names(s.deep_view()));
}

/// A column of a table as a query sees it: named after the table too, and without
/// constraints.
pub open spec fn prefixed_column(c: ColumnView, i: int, prefix: Seq<char>) -> ColumnView {
    ColumnView {
        name: prefix + "."@ + c.name,
        column_id: i as u16,
        is_unique: false,
        check: None,
        fk_ref: None,
        ..c
    }
}

/// The columns of a table as a query sees them.
pub open spec fn prefixed(cols: Seq<ColumnView>, prefix: Seq<char>) -> Seq<ColumnView> {
    Seq::new(cols.len(), |i: int| prefixed_column(cols[i], i, prefix))
}

/// A column without constraints.
pub open spec fn described_column(c: ColumnView) -> ColumnView {
    ColumnView { check: None, fk_ref: None, ..c }
}

/// Columns without constraints.
pub open spec fn described(cols: Seq<ColumnView>) -> Seq<ColumnView> {
    Seq::new(cols.len(), |i: int| described_column(cols[i]))
}

/// A column of a result: of text, whatever it holds.
pub open spec fn text_column(name: Seq<char>, i: int) -> ColumnView {
    ColumnView {
        name,
        data_type: DataType::Varchar(255),
        nullable: true,
        column_id: i as u16,
        auto_increment: false,
        default_value: None,
        is_primary_key: false,
        is_unique: false,
        check: None,
        fk_ref: None,
    }
}

/// The columns of a result.
pub open spec fn text_columns(names: Seq<Seq<char>>) -> Seq<ColumnView> {
    Seq::new(names.len(), |i: int| text_column(names[i], i))
}

fn copy_column(c: &Column, name: String, column_id: u16, is_unique: bool) -> (r: Column)
    ensures
        r.deep_view() == (ColumnView {
            name: name@,
            column_id,
            is_unique,
            check: None,
            fk_ref: None,
            ..c.deep_view()
        }),
{
    let default_value: Option<Value> = match &c.default_value {
        Some(v) => Some(v.clone()),
        None => None,
    };
    let no_ref: Option<(String, String, u8)> = None;
    Column {
        name,
        data_type: c.data_type,
        nullable: c.nullable,
        column_id,
        auto_increment: c.auto_increment,
        default_value,
        is_primary_key: c.is_primary_key,
        is_unique,
        check_expr: None,
        fk_ref: no_ref,
    }
}

impl Schema {
    /// The columns as a query sees them, named after a table or its alias too.
    pub fn prefixed(&self, prefix: &str) -> (r: Schema)
        ensures
            r.deep_view() == prefixed(self.deep_view(), prefix@),
    {
        let ghost all = prefixed(self.deep_view(), prefix@);
        let mut columns: Vec<Column> = Vec::new();
        let mut i: usize = 0;
        while i < self.columns.len()
            invariant
                0 <= i <= self.columns.len(),
                columns.len() == i,
                all == prefixed(self.deep_view(), prefix@),
                forall|k: int| 0 <= k < i ==> (#[trigger] columns@[k]).deep_view() == all[k],
            decreases self.columns.len() - i,
        {
            let c = &self.columns[i];
            let mut name = prefix.to_owned();
            name.append(".");
            name.append(c.name.as_str());
            assert(self.deep_view()[i as int] == c.deep_view());
            columns.push(copy_column(c, name, i as u16, false));
            i += 1;
        }
        let r = Schema::new(columns);
        assert(r.deep_view() =~= all);
        r
    }

    /// The columns without constraints.
    pub fn described(&self) -> (r: Schema)
        ensures
            r.deep_view() == described(self.deep_view()),
    {
        let ghost all = described(self.deep_view());
        let mut columns: Vec<Column> = Vec::new();
        let mut i: usize = 0;
        while i < self.columns.len()
            invariant
                0 <= i <= self.columns.len(),
                columns.len() == i,
                all == described(self.deep_view()),
                forall|k: int| 0 <= k < i ==> (#[trigger] columns@[k]).deep_view() == all[k],
            decreases self.columns.len() - i,
        {
            let c = &self.columns[i];
            assert(self.deep_view()[i as int] == c.deep_view());
            columns.push(copy_column(c, c.name.clone(), c.column_id, c.is_unique));
            i += 1;
        }
        let r = Schema::new(columns);
        assert(r.deep_view() =~= all);
        r
    }
}

/// Build a minimal schema from column names (all Varchar, nullable) for sort evaluation.
pub fn columns_to_schema(col_names: &Vec<String>) -> (r: Schema)
    ensures
        r.deep_view() == text_columns(col_names.deep_view()),
        r.names() == col_names.deep_view(),
{
    let ghost all = text_columns(col_names.deep_view());
    let mut columns: Vec<Column> = Vec::new();
    let mut i: usize = 0;
    while i < col_names.len()
        invariant
            0 <= i <= col_names.len(),
            columns.len() == i,
            all == text_columns(col_names.deep_view()),
            forall|k: int| 0 <= k < i ==> (#[trigger] columns@[k]).deep_view() == all[k],
        decreases col_names.len() - i,
    {
        assert(col_names.deep_view()[i as int] == col_names@[i as int]@);
        let none: Option<Value> = None;
        let no_ref: Option<(String, String, u8)> = None;
        columns.push(
            Column {
                name: col_names[i].clone(),
                data_type: DataType::Varchar(255),
                nullable: true,
                column_id: i as u16,
                auto_increment: false,
                default_value: none,
                is_primary_key: false,
                is_unique: false,
                check_expr: None,
                fk_ref: no_ref,
            },
        );
        i += 1;
    }
    let r = Schema::new(columns);
    assert(r.deep_view() =~= all);
    proof {
        lemma_view_names(r);
        assert(r.names() =~= col_names.deep_view());
    }
    r
}

} // verus!
