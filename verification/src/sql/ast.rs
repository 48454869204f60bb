//! The syntax tree of SQL statements.
use vstd::prelude::*;

verus! {

/// SQL data types.
#[derive(Clone, Copy, PartialEq, Eq, Structural, Debug)]
pub enum DataType {
    /// Signed 64-bit integer.
    Integer,
    /// 64-bit floating point.
    Float,
    /// Variable-length string.
    Text,
    /// True or false.
    Boolean,
    /// Character string with a width.
    Char(usize),
}

/// A literal value.
#[derive(Debug, PartialEq)]
pub enum Value {
    /// Signed 64-bit integer.
    Integer(i64),
    /// 64-bit floating point, by the bits of its IEEE 754 representation.
    Float(u64),
    /// Character string.
    Text(String),
    /// True or false.
    Boolean(bool),
    /// No value.
    Null,
    /// Character string of a column with a width.
    Char(String),
}

/// Comparison operators.
#[derive(Clone, Copy, PartialEq, Eq, Structural, Debug)]
pub enum Operator {
    /// =
    Eq,
    /// !=
    Ne,
    /// >
    Gt,
    /// <
    Lt,
    /// >=
    Ge,
    /// <=
    Le,
}

/// The condition of a WHERE clause.
pub enum BoolExpr {
    /// A comparison, such as `age > 18`.
    Comparison {
        /// The column to compare.
        column: String,
        /// The operator.
        op: Operator,
        /// The value to compare with.
        value: Value,
    },
    /// Both conditions hold.
    And(Box<BoolExpr>, Box<BoolExpr>),
    /// One of the conditions holds.
    Or(Box<BoolExpr>, Box<BoolExpr>),
}

/// A column of a table.
pub struct ColumnDef {
    /// The name of the column.
    pub name: String,
    /// The type of its values.
    pub data_type: DataType,
}

/// The columns that a SELECT asks for.
#[derive(Debug, PartialEq)]
pub enum Columns {
    /// All columns (`*`).
    Star,
    /// These columns.
    List(Vec<String>),
}

/// A new value for a column, such as `age = 18`.
pub struct Assignment {
    /// The column.
    pub column: String,
    /// Its new value.
    pub value: Value,
}

/// A SQL statement.
#[allow(inconsistent_fields)]
pub enum Statement {
    /// `CREATE TABLE name (col type, ...)`
    CreateTable { name: String, columns: Vec<ColumnDef> },
    /// `DROP TABLE name`
    DropTable { name: String },
    /// `CREATE INDEX name ON table (col)`
    CreateIndex { name: String, table: String, column: String },
    /// `DROP INDEX name`
    DropIndex { name: String },
    /// `INSERT INTO table [(col, ...)] VALUES (val, ...)`
    Insert { table: String, columns: Option<Vec<String>>, values: Vec<Value> },
    /// `SELECT cols FROM t1 [, t2, ...] [WHERE condition]`
    Select { columns: Columns, tables: Vec<String>, condition: Option<BoolExpr> },
    /// `UPDATE table SET col = val, ... WHERE condition`
    Update { table: String, assignments: Vec<Assignment>, condition: BoolExpr },
    /// `DELETE FROM table WHERE condition`
    Delete { table: String, condition: BoolExpr },
    /// `SHOW TABLES`
    ShowTables,
    /// `CREATE DATABASE name`
    CreateDatabase { name: String },
    /// `DROP DATABASE name`
    DropDatabase { name: String },
    /// `SHOW DATABASES`
    ShowDatabases,
    /// `USE name`
    UseDatabase { name: String },
}

/// A value, free of its representation.
pub ghost enum ValueView {
    Integer(i64),
    Float(u64),
    Text(Seq<char>),
    Boolean(bool),
    Null,
    Char(Seq<char>),
}

/// A condition, free of its representation.
pub ghost enum ExprView {
    Comparison { column: Seq<char>, op: Operator, value: ValueView },
    And(Box<ExprView>, Box<ExprView>),
    Or(Box<ExprView>, Box<ExprView>),
}

/// A column, free of its representation.
pub ghost struct ColumnView {
    pub name: Seq<char>,
    pub data_type: DataType,
}

/// The columns of a SELECT, free of their representation.
pub ghost enum ColumnsView {
    Star,
    List(Seq<Seq<char>>),
}

/// An assignment, free of its representation.
pub ghost struct AssignmentView {
    pub column: Seq<char>,
    pub value: ValueView,
}

/// A statement, free of its representation.
#[allow(inconsistent_fields)]
pub ghost enum StatementView {
    CreateTable { name: Seq<char>, columns: Seq<ColumnView> },
    DropTable { name: Seq<char> },
    CreateIndex { name: Seq<char>, table: Seq<char>, column: Seq<char> },
    DropIndex { name: Seq<char> },
    Insert { table: Seq<char>, columns: Option<Seq<Seq<char>>>, values: Seq<ValueView> },
    Select { columns: ColumnsView, tables: Seq<Seq<char>>, condition: Option<ExprView> },
    Update { table: Seq<char>, assignments: Seq<AssignmentView>, condition: ExprView },
    Delete { table: Seq<char>, condition: ExprView },
    ShowTables,
    CreateDatabase { name: Seq<char> },
    DropDatabase { name: Seq<char> },
    ShowDatabases,
    UseDatabase { name: Seq<char> },
}

impl View for Value {
    type V = ValueView;

    open spec fn view(&self) -> ValueView {
        match *self {
            Value::Integer(n) => ValueView::Integer(n),
            Value::Float(b) => ValueView::Float(b),
            Value::Text(s) => ValueView::Text(s@),
            Value::Boolean(b) => ValueView::Boolean(b),
            Value::Null => ValueView::Null,
            Value::Char(s) => ValueView::Char(s@),
        }
    }
}

/// The view of a condition.
pub open spec fn expr_view(e: BoolExpr) -> ExprView
    decreases e,
{
    match e {
        BoolExpr::Comparison { column, op, value } => ExprView::Comparison { column: column@, op, value: value@ },
        BoolExpr::And(a, b) => ExprView::And(Box::new(expr_view(*a)), Box::new(expr_view(*b))),
        BoolExpr::Or(a, b) => ExprView::Or(Box::new(expr_view(*a)), Box::new(expr_view(*b))),
    }
}

impl View for BoolExpr {
    type V = ExprView;

    open spec fn view(&self) -> ExprView {
        expr_view(*self)
    }
}

impl View for ColumnDef {
    type V = ColumnView;

    open spec fn view(&self) -> ColumnView {
        ColumnView { name: self.name@, data_type: self.data_type }
    }
}

impl View for Columns {
    type V = ColumnsView;

    open spec fn view(&self) -> ColumnsView {
        match *self {
            Columns::Star => ColumnsView::Star,
            Columns::List(names) => ColumnsView::List(texts(names@)),
        }
    }
}

impl View for Assignment {
    type V = AssignmentView;

    open spec fn view(&self) -> AssignmentView {
        AssignmentView { column: self.column@, value: self.value@ }
    }
}

/// Strings by their characters.
pub open spec fn texts(v: Seq<String>) -> Seq<Seq<char>> {
    Seq::new(v.len(), |i: int| v[i]@)
}

/// Values by their views.
pub open spec fn row_view(v: Seq<Value>) -> Seq<ValueView> {
    Seq::new(v.len(), |i: int| v[i]@)
}

/// Rows by their views.
pub open spec fn rows_view(v: Seq<Vec<Value>>) -> Seq<Seq<ValueView>> {
    Seq::new(v.len(), |i: int| row_view(v[i]@))
}

/// Columns by their views.
pub open spec fn schema_view(v: Seq<ColumnDef>) -> Seq<ColumnView> {
    Seq::new(v.len(), |i: int| v[i]@)
}

/// Assignments by their views.
pub open spec fn assignments_view(v: Seq<Assignment>) -> Seq<AssignmentView> {
    Seq::new(v.len(), |i: int| v[i]@)
}

/// A condition that may be missing, by its view.
pub open spec fn condition_view(c: Option<BoolExpr>) -> Option<ExprView> {
    match c {
        None => None,
        Some(e) => Some(e@),
    }
}

impl View for Statement {
    type V = StatementView;

    open spec fn view(&self) -> StatementView {
        match *self {
            Statement::CreateTable { name, columns } => StatementView::CreateTable {
                name: name@,
                columns: schema_view(columns@),
            },
            Statement::DropTable { name } => StatementView::DropTable { name: name@ },
            Statement::CreateIndex { name, table, column } => StatementView::CreateIndex {
                name: name@,
                table: table@,
                column: column@,
            },
            Statement::DropIndex { name } => StatementView::DropIndex { name: name@ },
            Statement::Insert { table, columns, values } => StatementView::Insert {
                table: table@,
                columns: match columns {
                    None => None,
                    Some(names) => Some(texts(names@)),
                },
                values: row_view(values@),
            },
            Statement::Select { columns, tables, condition } => StatementView::Select {
                columns: columns@,
                tables: texts(tables@),
                condition: condition_view(condition),
            },
            Statement::Update { table, assignments, condition } => StatementView::Update {
                table: table@,
                assignments: assignments_view(assignments@),
                condition: condition@,
            },
            Statement::Delete { table, condition } => StatementView::Delete { table: table@, condition: condition@ },
            Statement::ShowTables => StatementView::ShowTables,
            Statement::CreateDatabase { name } => StatementView::CreateDatabase { name: name@ },
            Statement::DropDatabase { name } => StatementView::DropDatabase { name: name@ },
            Statement::ShowDatabases => StatementView::ShowDatabases,
            Statement::UseDatabase { name } => StatementView::UseDatabase { name: name@ },
        }
    }
}

impl Value {
    /// A copy of the value.
    pub fn duplicate(&self) -> (r: Value)
        ensures
            r@ == self@,
    {
        match self {
            Value::Integer(n) => Value::Integer(*n),
            Value::Float(b) => Value::Float(*b),
            Value::Text(s) => Value::Text(s.clone()),
            Value::Boolean(b) => Value::Boolean(*b),
            Value::Null => Value::Null,
            Value::Char(s) => Value::Char(s.clone()),
        }
    }
}

impl BoolExpr {
    /// A copy of the condition.
    pub fn duplicate(&self) -> (r: BoolExpr)
        ensures
            r@ == self@,
        decreases self,
    {
        match self {
            BoolExpr::Comparison { column, op, value } => BoolExpr::Comparison {
                column: column.clone(),
                op: *op,
                value: value.duplicate(),
            },
            BoolExpr::And(a, b) => BoolExpr::And(Box::new(a.duplicate()), Box::new(b.duplicate())),
            BoolExpr::Or(a, b) => BoolExpr::Or(Box::new(a.duplicate()), Box::new(b.duplicate())),
        }
    }
}

impl ColumnDef {
    /// A copy of the column.
    pub fn duplicate(&self) -> (r: ColumnDef)
        ensures
            r@ == self@,
    {
        ColumnDef { name: self.name.clone(), data_type: self.data_type }
    }
}

/// A copy of a row.
pub fn copy_row(row: &Vec<Value>) -> (r: Vec<Value>)
    ensures
        row_view(r@) == row_view(row@),
{
    let mut r: Vec<Value> = Vec::new();
    let mut i: usize = 0;
    while i < row.len()
        invariant
            i <= row@.len(),
            r@.len() == i,
            forall|j: int| 0 <= j < i ==> (#[trigger] r@[j])@ == row@[j]@,
        decreases row@.len() - i,
    {
        r.push(row[i].duplicate());
        i += 1;
    }
    assert(row_view(r@) =~= row_view(row@));
    r
}

} // verus!
