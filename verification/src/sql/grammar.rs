//! The grammar: which statement a sequence of tokens is.
//!
//! Each function says what stands at a place among the tokens, and where it ends.
use vstd::prelude::*;

use crate::sql::ast::{
    AssignmentView, ColumnView, ColumnsView, DataType, ExprView, Operator, StatementView, ValueView,
};
use crate::sql::lexer::{Token, TokenView};

verus! {

/// What a statement lacks at a place.
#[derive(Debug, PartialEq, Eq)]
pub enum Wanted {
    /// The first keyword of a statement.
    Statement,
    /// TABLE, INDEX or DATABASE.
    Object,
    /// TABLES or DATABASES.
    Listing,
    /// This token.
    Token(Token),
    /// The name of a table.
    TableName,
    /// The name of a column.
    ColumnName,
    /// The name of an index.
    IndexName,
    /// The name of a database.
    DatabaseName,
    /// A data type.
    DataType,
    /// The width of a CHAR.
    Width,
    /// A value.
    Value,
    /// A comparison operator.
    Operator,
}

/// Why tokens are no statement.
pub ghost enum Fault {
    /// Something else is wanted in place of the token at a place, or of the end.
    Expected { want: Wanted, found: Option<TokenView>, at: int },
    /// The bits of this number are not known.
    UnknownFloat(Seq<char>),
}

/// What stands at a place, and where it ends.
pub type Parsed<T> = Result<(T, int), Fault>;

/// The bits of numbers with a decimal point by how they are written; the first entry counts.
pub type Floats = Seq<(Seq<char>, u64)>;

/// The bits of a number.
pub open spec fn float_bits(f: Floats, t: Seq<char>) -> Option<u64>
    decreases f.len(),
{
    if f.len() == 0 {
        None
    } else if f[0].0 == t {
        Some(f[0].1)
    } else {
        float_bits(f.drop_first(), t)
    }
}

/// The token at a place, if there is one.
pub open spec fn found(s: Seq<TokenView>, i: int) -> Option<TokenView> {
    if 0 <= i < s.len() {
        Some(s[i])
    } else {
        None
    }
}

/// This token, one that holds nothing, stands at a place.
pub open spec fn is_at(s: Seq<TokenView>, i: int, t: Token) -> bool {
    found(s, i) == Some(TokenView::Plain(t))
}

/// Something else is wanted at a place.
pub open spec fn wanted(s: Seq<TokenView>, i: int, want: Wanted) -> Fault {
    Fault::Expected { want, found: found(s, i), at: i }
}

/// This token, and then the end of it.
pub open spec fn token(s: Seq<TokenView>, i: int, t: Token) -> Result<int, Fault> {
    if is_at(s, i, t) {
        Ok(i + 1)
    } else {
        Err(wanted(s, i, Wanted::Token(t)))
    }
}

/// A name.
pub open spec fn name(s: Seq<TokenView>, i: int, want: Wanted) -> Parsed<Seq<char>> {
    match found(s, i) {
        Some(TokenView::Identifier(n)) => Ok((n, i + 1)),
        _ => Err(wanted(s, i, want)),
    }
}

/// Names with commas between them, of which some have been read.
pub open spec fn names(s: Seq<TokenView>, i: int, want: Wanted, done: Seq<Seq<char>>) -> Parsed<Seq<Seq<char>>>
    decreases s.len() - i,
{
    match name(s, i, want) {
        Err(e) => Err(e),
        Ok((n, j)) => if is_at(s, j, Token::Comma) {
            names(s, j + 1, want, done.push(n))
        } else {
            Ok((done.push(n), j))
        },
    }
}

/// A data type.
pub open spec fn data_type(s: Seq<TokenView>, i: int) -> Parsed<DataType> {
    match found(s, i) {
        Some(TokenView::Plain(Token::Integer)) => Ok((DataType::Integer, i + 1)),
        Some(TokenView::Plain(Token::Float)) => Ok((DataType::Float, i + 1)),
        Some(TokenView::Plain(Token::Text)) => Ok((DataType::Text, i + 1)),
        Some(TokenView::Plain(Token::Boolean)) => Ok((DataType::Boolean, i + 1)),
        Some(TokenView::Plain(Token::Char)) => match token(s, i + 1, Token::LParen) {
            Err(e) => Err(e),
            Ok(j) => match char_width(s, j) {
                Err(e) => Err(e),
                Ok((n, k)) => match token(s, k, Token::RParen) {
                    Err(e) => Err(e),
                    Ok(l) => Ok((DataType::Char(n), l)),
                },
            },
        },
        _ => Err(wanted(s, i, Wanted::DataType)),
    }
}

/// The width of a CHAR.
pub open spec fn char_width(s: Seq<TokenView>, i: int) -> Parsed<usize> {
    match found(s, i) {
        Some(TokenView::IntLiteral(n)) => if 0 <= n <= usize::MAX {
            Ok((n as usize, i + 1))
        } else {
            Err(wanted(s, i, Wanted::Width))
        },
        _ => Err(wanted(s, i, Wanted::Width)),
    }
}

/// A column: a name and a data type.
pub open spec fn column(s: Seq<TokenView>, i: int) -> Parsed<ColumnView> {
    match name(s, i, Wanted::ColumnName) {
        Err(e) => Err(e),
        Ok((n, j)) => match data_type(s, j) {
            Err(e) => Err(e),
            Ok((t, k)) => Ok((ColumnView { name: n, data_type: t }, k)),
        },
    }
}

/// Columns with commas between them, of which some have been read.
pub open spec fn columns(s: Seq<TokenView>, i: int, done: Seq<ColumnView>) -> Parsed<Seq<ColumnView>>
    decreases s.len() - i,
{
    match column(s, i) {
        Err(e) => Err(e),
        Ok((c, j)) => if is_at(s, j, Token::Comma) {
            columns(s, j + 1, done.push(c))
        } else {
            Ok((done.push(c), j))
        },
    }
}

/// A value.
pub open spec fn value(s: Seq<TokenView>, f: Floats, i: int) -> Parsed<ValueView> {
    match found(s, i) {
        Some(TokenView::IntLiteral(n)) => Ok((ValueView::Integer(n), i + 1)),
        Some(TokenView::FloatLiteral(t)) => match float_bits(f, t) {
            Some(b) => Ok((ValueView::Float(b), i + 1)),
            None => Err(Fault::UnknownFloat(t)),
        },
        Some(TokenView::StringLiteral(t)) => Ok((ValueView::Text(t), i + 1)),
        Some(TokenView::Plain(Token::True)) => Ok((ValueView::Boolean(true), i + 1)),
        Some(TokenView::Plain(Token::False)) => Ok((ValueView::Boolean(false), i + 1)),
        Some(TokenView::Plain(Token::Null)) => Ok((ValueView::Null, i + 1)),
        _ => Err(wanted(s, i, Wanted::Value)),
    }
}

/// Values with commas between them, of which some have been read.
pub open spec fn values(s: Seq<TokenView>, f: Floats, i: int, done: Seq<ValueView>) -> Parsed<Seq<ValueView>>
    decreases s.len() - i,
{
    match value(s, f, i) {
        Err(e) => Err(e),
        Ok((v, j)) => if is_at(s, j, Token::Comma) {
            values(s, f, j + 1, done.push(v))
        } else {
            Ok((done.push(v), j))
        },
    }
}

/// An assignment: a name, `=` and a value.
pub open spec fn assignment(s: Seq<TokenView>, f: Floats, i: int) -> Parsed<AssignmentView> {
    match name(s, i, Wanted::ColumnName) {
        Err(e) => Err(e),
        Ok((n, j)) => match token(s, j, Token::Eq) {
            Err(e) => Err(e),
            Ok(k) => match value(s, f, k) {
                Err(e) => Err(e),
                Ok((v, l)) => Ok((AssignmentView { column: n, value: v }, l)),
            },
        },
    }
}

/// Assignments with commas between them, of which some have been read.
pub open spec fn assignments(s: Seq<TokenView>, f: Floats, i: int, done: Seq<AssignmentView>) -> Parsed<
    Seq<AssignmentView>,
>
    decreases s.len() - i,
{
    match assignment(s, f, i) {
        Err(e) => Err(e),
        Ok((a, j)) => if is_at(s, j, Token::Comma) {
            assignments(s, f, j + 1, done.push(a))
        } else {
            Ok((done.push(a), j))
        },
    }
}

/// A comparison operator.
pub open spec fn operator(s: Seq<TokenView>, i: int) -> Parsed<Operator> {
    match found(s, i) {
        Some(TokenView::Plain(Token::Eq)) => Ok((Operator::Eq, i + 1)),
        Some(TokenView::Plain(Token::Ne)) => Ok((Operator::Ne, i + 1)),
        Some(TokenView::Plain(Token::Gt)) => Ok((Operator::Gt, i + 1)),
        Some(TokenView::Plain(Token::Lt)) => Ok((Operator::Lt, i + 1)),
        Some(TokenView::Plain(Token::Ge)) => Ok((Operator::Ge, i + 1)),
        Some(TokenView::Plain(Token::Le)) => Ok((Operator::Le, i + 1)),
        _ => Err(wanted(s, i, Wanted::Operator)),
    }
}

/// A comparison: a name, an operator and a value.
pub open spec fn comparison(s: Seq<TokenView>, f: Floats, i: int) -> Parsed<ExprView> {
    match name(s, i, Wanted::ColumnName) {
        Err(e) => Err(e),
        Ok((n, j)) => match operator(s, j) {
            Err(e) => Err(e),
            Ok((op, k)) => match value(s, f, k) {
                Err(e) => Err(e),
                Ok((v, l)) => Ok((ExprView::Comparison { column: n, op, value: v }, l)),
            },
        },
    }
}

/// A condition: conjunctions with OR between them, grouped from the left.
pub open spec fn or_expr(s: Seq<TokenView>, f: Floats, i: int) -> Parsed<ExprView>
    decreases s.len() - i, 5nat,
{
    match and_expr(s, f, i) {
        Err(e) => Err(e),
        Ok((left, j)) => if i < j <= s.len() {
            or_rest(s, f, j, left)
        } else {
            Ok((left, j))
        },
    }
}

/// What follows a condition that has been read, with OR before each part.
pub open spec fn or_rest(s: Seq<TokenView>, f: Floats, i: int, left: ExprView) -> Parsed<ExprView>
    decreases s.len() - i, 0nat,
{
    if is_at(s, i, Token::Or) {
        match and_expr(s, f, i + 1) {
            Err(e) => Err(e),
            Ok((right, j)) => if i < j <= s.len() {
                or_rest(s, f, j, ExprView::Or(Box::new(left), Box::new(right)))
            } else {
                Ok((left, i))
            },
        }
    } else {
        Ok((left, i))
    }
}

/// A conjunction: comparisons and conditions in parentheses with AND between them, grouped from the
/// left.
pub open spec fn and_expr(s: Seq<TokenView>, f: Floats, i: int) -> Parsed<ExprView>
    decreases s.len() - i, 4nat,
{
    match atom(s, f, i) {
        Err(e) => Err(e),
        Ok((left, j)) => if i < j <= s.len() {
            and_rest(s, f, j, left)
        } else {
            Ok((left, j))
        },
    }
}

/// What follows a conjunction that has been read, with AND before each part.
pub open spec fn and_rest(s: Seq<TokenView>, f: Floats, i: int, left: ExprView) -> Parsed<ExprView>
    decreases s.len() - i, 0nat,
{
    if is_at(s, i, Token::And) {
        match atom(s, f, i + 1) {
            Err(e) => Err(e),
            Ok((right, j)) => if i < j <= s.len() {
                and_rest(s, f, j, ExprView::And(Box::new(left), Box::new(right)))
            } else {
                Ok((left, i))
            },
        }
    } else {
        Ok((left, i))
    }
}

/// A comparison, or a condition in parentheses.
pub open spec fn atom(s: Seq<TokenView>, f: Floats, i: int) -> Parsed<ExprView>
    decreases s.len() - i, 3nat,
{
    if is_at(s, i, Token::LParen) {
        match or_expr(s, f, i + 1) {
            Err(e) => Err(e),
            Ok((e, j)) => match token(s, j, Token::RParen) {
                Err(x) => Err(x),
                Ok(k) => Ok((e, k)),
            },
        }
    } else {
        comparison(s, f, i)
    }
}

/// The columns of a SELECT: `*`, or names.
pub open spec fn selected(s: Seq<TokenView>, i: int) -> Parsed<ColumnsView> {
    if is_at(s, i, Token::Star) {
        Ok((ColumnsView::Star, i + 1))
    } else {
        match names(s, i, Wanted::ColumnName, Seq::empty()) {
            Err(e) => Err(e),
            Ok((n, j)) => Ok((ColumnsView::List(n), j)),
        }
    }
}

/// The WHERE clause of a SELECT, if there is one.
pub open spec fn filter(s: Seq<TokenView>, f: Floats, i: int) -> Parsed<Option<ExprView>> {
    if is_at(s, i, Token::Where) {
        match or_expr(s, f, i + 1) {
            Err(e) => Err(e),
            Ok((c, j)) => Ok((Some(c), j)),
        }
    } else {
        Ok((None, i))
    }
}

/// The columns of an INSERT in parentheses, if they are given.
pub open spec fn insert_columns(s: Seq<TokenView>, i: int) -> Parsed<Option<Seq<Seq<char>>>> {
    if is_at(s, i, Token::LParen) {
        match names(s, i + 1, Wanted::ColumnName, Seq::empty()) {
            Err(e) => Err(e),
            Ok((n, j)) => match token(s, j, Token::RParen) {
                Err(e) => Err(e),
                Ok(k) => Ok((Some(n), k)),
            },
        }
    } else {
        Ok((None, i))
    }
}

/// The statement, if a semicolon stands at a place.
pub open spec fn ended(s: Seq<TokenView>, i: int, stmt: StatementView) -> Result<StatementView, Fault> {
    match token(s, i, Token::Semicolon) {
        Err(e) => Err(e),
        Ok(_) => Ok(stmt),
    }
}

/// `name (col type, ...);`
pub open spec fn create_table(s: Seq<TokenView>, i: int) -> Result<StatementView, Fault> {
    match name(s, i, Wanted::TableName) {
        Err(e) => Err(e),
        Ok((n, j)) => match token(s, j, Token::LParen) {
            Err(e) => Err(e),
            Ok(k) => match columns(s, k, Seq::empty()) {
                Err(e) => Err(e),
                Ok((c, l)) => match token(s, l, Token::RParen) {
                    Err(e) => Err(e),
                    Ok(m) => ended(s, m, StatementView::CreateTable { name: n, columns: c }),
                },
            },
        },
    }
}

/// `name ON table (col);`
pub open spec fn create_index(s: Seq<TokenView>, i: int) -> Result<StatementView, Fault> {
    match name(s, i, Wanted::IndexName) {
        Err(e) => Err(e),
        Ok((n, j)) => match token(s, j, Token::On) {
            Err(e) => Err(e),
            Ok(k) => match name(s, k, Wanted::TableName) {
                Err(e) => Err(e),
                Ok((t, l)) => match token(s, l, Token::LParen) {
                    Err(e) => Err(e),
                    Ok(m) => match name(s, m, Wanted::ColumnName) {
                        Err(e) => Err(e),
                        Ok((c, o)) => match token(s, o, Token::RParen) {
                            Err(e) => Err(e),
                            Ok(p) => ended(s, p, StatementView::CreateIndex { name: n, table: t, column: c }),
                        },
                    },
                },
            },
        },
    }
}

/// What follows CREATE DATABASE.
pub open spec fn create_database(s: Seq<TokenView>, i: int) -> Result<StatementView, Fault> {
    match name(s, i, Wanted::DatabaseName) {
        Err(e) => Err(e),
        Ok((n, j)) => ended(s, j, StatementView::CreateDatabase { name: n }),
    }
}

/// What follows DROP TABLE.
pub open spec fn drop_table(s: Seq<TokenView>, i: int) -> Result<StatementView, Fault> {
    match name(s, i, Wanted::TableName) {
        Err(e) => Err(e),
        Ok((n, j)) => ended(s, j, StatementView::DropTable { name: n }),
    }
}

/// What follows DROP INDEX.
pub open spec fn drop_index(s: Seq<TokenView>, i: int) -> Result<StatementView, Fault> {
    match name(s, i, Wanted::IndexName) {
        Err(e) => Err(e),
        Ok((n, j)) => ended(s, j, StatementView::DropIndex { name: n }),
    }
}

/// What follows DROP DATABASE.
pub open spec fn drop_database(s: Seq<TokenView>, i: int) -> Result<StatementView, Fault> {
    match name(s, i, Wanted::DatabaseName) {
        Err(e) => Err(e),
        Ok((n, j)) => ended(s, j, StatementView::DropDatabase { name: n }),
    }
}

/// What follows CREATE.
pub open spec fn create(s: Seq<TokenView>, i: int) -> Result<StatementView, Fault> {
    if is_at(s, i, Token::Table) {
        create_table(s, i + 1)
    } else if is_at(s, i, Token::Index) {
        create_index(s, i + 1)
    } else if is_at(s, i, Token::Database) {
        create_database(s, i + 1)
    } else {
        Err(wanted(s, i, Wanted::Object))
    }
}

/// What follows DROP.
pub open spec fn drop_object(s: Seq<TokenView>, i: int) -> Result<StatementView, Fault> {
    if is_at(s, i, Token::Table) {
        drop_table(s, i + 1)
    } else if is_at(s, i, Token::Index) {
        drop_index(s, i + 1)
    } else if is_at(s, i, Token::Database) {
        drop_database(s, i + 1)
    } else {
        Err(wanted(s, i, Wanted::Object))
    }
}

/// What follows INSERT: `INTO table [(col, ...)] VALUES (val, ...);`
pub open spec fn insert(s: Seq<TokenView>, f: Floats, i: int) -> Result<StatementView, Fault> {
    match token(s, i, Token::Into) {
        Err(e) => Err(e),
        Ok(j) => match name(s, j, Wanted::TableName) {
            Err(e) => Err(e),
            Ok((t, k)) => match insert_columns(s, k) {
                Err(e) => Err(e),
                Ok((c, l)) => match token(s, l, Token::Values) {
                    Err(e) => Err(e),
                    Ok(m) => match token(s, m, Token::LParen) {
                        Err(e) => Err(e),
                        Ok(o) => match values(s, f, o, Seq::empty()) {
                            Err(e) => Err(e),
                            Ok((v, p)) => match token(s, p, Token::RParen) {
                                Err(e) => Err(e),
                                Ok(q) => ended(s, q, StatementView::Insert { table: t, columns: c, values: v }),
                            },
                        },
                    },
                },
            },
        },
    }
}

/// What follows SELECT: `cols FROM table [, table ...] [WHERE condition];`
pub open spec fn select(s: Seq<TokenView>, f: Floats, i: int) -> Result<StatementView, Fault> {
    match selected(s, i) {
        Err(e) => Err(e),
        Ok((c, j)) => match token(s, j, Token::From) {
            Err(e) => Err(e),
            Ok(k) => match names(s, k, Wanted::TableName, Seq::empty()) {
                Err(e) => Err(e),
                Ok((t, l)) => match filter(s, f, l) {
                    Err(e) => Err(e),
                    Ok((w, m)) => ended(s, m, StatementView::Select { columns: c, tables: t, condition: w }),
                },
            },
        },
    }
}

/// `WHERE condition`
pub open spec fn restriction(s: Seq<TokenView>, f: Floats, i: int) -> Parsed<ExprView> {
    match token(s, i, Token::Where) {
        Err(e) => Err(e),
        Ok(j) => or_expr(s, f, j),
    }
}

/// What follows UPDATE: `table SET col = val, ... WHERE condition;`
pub open spec fn update(s: Seq<TokenView>, f: Floats, i: int) -> Result<StatementView, Fault> {
    match name(s, i, Wanted::TableName) {
        Err(e) => Err(e),
        Ok((t, j)) => match token(s, j, Token::SetKeyword) {
            Err(e) => Err(e),
            Ok(k) => match assignments(s, f, k, Seq::empty()) {
                Err(e) => Err(e),
                Ok((a, l)) => match restriction(s, f, l) {
                    Err(e) => Err(e),
                    Ok((c, m)) => ended(s, m, StatementView::Update { table: t, assignments: a, condition: c }),
                },
            },
        },
    }
}

/// What follows DELETE: `FROM table WHERE condition;`
pub open spec fn delete(s: Seq<TokenView>, f: Floats, i: int) -> Result<StatementView, Fault> {
    match token(s, i, Token::From) {
        Err(e) => Err(e),
        Ok(j) => match name(s, j, Wanted::TableName) {
            Err(e) => Err(e),
            Ok((t, k)) => match restriction(s, f, k) {
                Err(e) => Err(e),
                Ok((c, l)) => ended(s, l, StatementView::Delete { table: t, condition: c }),
            },
        },
    }
}

/// What follows SHOW.
pub open spec fn show(s: Seq<TokenView>, i: int) -> Result<StatementView, Fault> {
    if is_at(s, i, Token::Tables) {
        ended(s, i + 1, StatementView::ShowTables)
    } else if is_at(s, i, Token::Databases) {
        ended(s, i + 1, StatementView::ShowDatabases)
    } else {
        Err(wanted(s, i, Wanted::Listing))
    }
}

/// What follows USE.
pub open spec fn use_database(s: Seq<TokenView>, i: int) -> Result<StatementView, Fault> {
    match name(s, i, Wanted::DatabaseName) {
        Err(e) => Err(e),
        Ok((n, j)) => ended(s, j, StatementView::UseDatabase { name: n }),
    }
}

/// The statement at a place. What follows its semicolon does not count.
pub open spec fn statement(s: Seq<TokenView>, f: Floats, i: int) -> Result<StatementView, Fault> {
    if is_at(s, i, Token::Create) {
        create(s, i + 1)
    } else if is_at(s, i, Token::Drop) {
        drop_object(s, i + 1)
    } else if is_at(s, i, Token::Insert) {
        insert(s, f, i + 1)
    } else if is_at(s, i, Token::Select) {
        select(s, f, i + 1)
    } else if is_at(s, i, Token::Update) {
        update(s, f, i + 1)
    } else if is_at(s, i, Token::Delete) {
        delete(s, f, i + 1)
    } else if is_at(s, i, Token::Show) {
        show(s, i + 1)
    } else if is_at(s, i, Token::Use) {
        use_database(s, i + 1)
    } else {
        Err(wanted(s, i, Wanted::Statement))
    }
}

} // verus!
