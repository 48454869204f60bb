//! From tokens to statements.
use sakuradb::sql::ast::{BoolExpr, Columns, DataType, Operator, Statement, Value};
use sakuradb::sql::grammar::Wanted;
use sakuradb::sql::lexer::{LexError, Lexer, Token};
use sakuradb::sql::parser::{Parser, SyntaxError};

fn parse_sql(sql: &str) -> Result<Statement, SyntaxError> {
    parse_with(sql, Vec::new())
}

fn parse_with(sql: &str, floats: Vec<(String, u64)>) -> Result<Statement, SyntaxError> {
    let mut lexer = Lexer::new(sql);
    let tokens = match lexer.tokenize() {
        Ok(tokens) => tokens,
        Err(e) => return Err(SyntaxError::Lex(e)),
    };
    let mut parser = Parser::new(tokens, floats);
    parser.parse()
}

#[test]
fn test_create_table() {
    let stmt = parse_sql("CREATE TABLE users (id INTEGER, name TEXT, age INTEGER);").unwrap();
    match stmt {
        Statement::CreateTable { name, columns } => {
            assert_eq!(name, "users");
            assert_eq!(columns.len(), 3);
            assert_eq!(columns[0].name, "id");
            assert_eq!(columns[0].data_type, DataType::Integer);
            assert_eq!(columns[1].name, "name");
            assert_eq!(columns[1].data_type, DataType::Text);
            assert_eq!(columns[2].name, "age");
            assert_eq!(columns[2].data_type, DataType::Integer);
        }
        _ => panic!("expected CreateTable"),
    }
}

#[test]
fn test_create_table_with_char() {
    let stmt = parse_sql("CREATE TABLE users (name CHAR(20), age INT);").unwrap();
    match stmt {
        Statement::CreateTable { name, columns } => {
            assert_eq!(name, "users");
            assert_eq!(columns.len(), 2);
            assert_eq!(columns[0].name, "name");
            assert_eq!(columns[0].data_type, DataType::Char(20));
            assert_eq!(columns[1].name, "age");
            assert_eq!(columns[1].data_type, DataType::Integer);
        }
        _ => panic!("expected CreateTable"),
    }
}

#[test]
fn test_drop_table() {
    let stmt = parse_sql("DROP TABLE users;").unwrap();
    match stmt {
        Statement::DropTable { name } => assert_eq!(name, "users"),
        _ => panic!("expected DropTable"),
    }
}

#[test]
fn test_create_database() {
    let stmt = parse_sql("CREATE DATABASE XJGL;").unwrap();
    match stmt {
        Statement::CreateDatabase { name } => assert_eq!(name, "XJGL"),
        _ => panic!("expected CreateDatabase"),
    }
}

#[test]
fn test_drop_database() {
    let stmt = parse_sql("DROP DATABASE XJGL;").unwrap();
    match stmt {
        Statement::DropDatabase { name } => assert_eq!(name, "XJGL"),
        _ => panic!("expected DropDatabase"),
    }
}

#[test]
fn test_show_databases() {
    let stmt = parse_sql("SHOW DATABASES;").unwrap();
    assert!(matches!(stmt, Statement::ShowDatabases));
}

#[test]
fn test_use_database() {
    let stmt = parse_sql("USE XJGL;").unwrap();
    match stmt {
        Statement::UseDatabase { name } => assert_eq!(name, "XJGL"),
        _ => panic!("expected UseDatabase"),
    }
}

#[test]
fn test_create_index() {
    let stmt = parse_sql("CREATE INDEX idx_age ON users (age);").unwrap();
    match stmt {
        Statement::CreateIndex {
            name,
            table,
            column,
        } => {
            assert_eq!(name, "idx_age");
            assert_eq!(table, "users");
            assert_eq!(column, "age");
        }
        _ => panic!("expected CreateIndex"),
    }
}

#[test]
fn test_drop_index() {
    let stmt = parse_sql("DROP INDEX idx_age;").unwrap();
    match stmt {
        Statement::DropIndex { name } => assert_eq!(name, "idx_age"),
        _ => panic!("expected DropIndex"),
    }
}

#[test]
fn test_insert() {
    let stmt = parse_sql("INSERT INTO users VALUES (1, 'alice', 18);").unwrap();
    match stmt {
        Statement::Insert {
            table,
            columns,
            values,
        } => {
            assert_eq!(table, "users");
            assert_eq!(columns, None);
            assert_eq!(values.len(), 3);
            assert_eq!(values[0], Value::Integer(1));
            assert_eq!(values[1], Value::Text("alice".to_string()));
            assert_eq!(values[2], Value::Integer(18));
        }
        _ => panic!("expected Insert"),
    }
}

#[test]
fn test_select_star() {
    let stmt = parse_sql("SELECT * FROM users;").unwrap();
    match stmt {
        Statement::Select {
            columns,
            tables,
            condition,
        } => {
            assert_eq!(columns, Columns::Star);
            assert_eq!(tables, vec!["users"]);
            assert!(condition.is_none());
        }
        _ => panic!("expected Select"),
    }
}

#[test]
fn test_select_columns() {
    let stmt = parse_sql("SELECT id, name FROM users;").unwrap();
    match stmt {
        Statement::Select {
            columns,
            tables,
            condition,
        } => {
            assert_eq!(
                columns,
                Columns::List(vec!["id".to_string(), "name".to_string()])
            );
            assert_eq!(tables, vec!["users"]);
            assert!(condition.is_none());
        }
        _ => panic!("expected Select"),
    }
}

#[test]
fn parser_test_select_with_where() {
    let stmt = parse_sql("SELECT id, name FROM users WHERE age > 18;").unwrap();
    match stmt {
        Statement::Select {
            columns,
            tables,
            condition: Some(BoolExpr::Comparison { column, op, value }),
        } => {
            assert_eq!(
                columns,
                Columns::List(vec!["id".to_string(), "name".to_string()])
            );
            assert_eq!(tables, vec!["users"]);
            assert_eq!(column, "age");
            assert_eq!(op, Operator::Gt);
            assert_eq!(value, Value::Integer(18));
        }
        _ => panic!("expected Select with WHERE"),
    }
}

#[test]
fn parser_test_update() {
    let stmt = parse_sql("UPDATE users SET name = 'bob' WHERE id = 1;").unwrap();
    match stmt {
        Statement::Update {
            table,
            assignments,
            condition: BoolExpr::Comparison { column, op, value },
        } => {
            assert_eq!(table, "users");
            assert_eq!(assignments.len(), 1);
            assert_eq!(assignments[0].column, "name");
            assert_eq!(assignments[0].value, Value::Text("bob".to_string()));
            assert_eq!(column, "id");
            assert_eq!(op, Operator::Eq);
            assert_eq!(value, Value::Integer(1));
        }
        _ => panic!("expected Update"),
    }
}

#[test]
fn parser_test_delete() {
    let stmt = parse_sql("DELETE FROM users WHERE id = 1;").unwrap();
    match stmt {
        Statement::Delete {
            table,
            condition: BoolExpr::Comparison { column, op, value },
        } => {
            assert_eq!(table, "users");
            assert_eq!(column, "id");
            assert_eq!(op, Operator::Eq);
            assert_eq!(value, Value::Integer(1));
        }
        _ => panic!("expected Delete"),
    }
}

#[test]
fn test_error_unexpected_token() {
    let result = parse_sql("FOO bar;");
    assert!(result.is_err());
}

#[test]
fn test_error_missing_semicolon() {
    let result = parse_sql("SELECT * FROM users");
    assert!(result.is_err());
}

#[test]
fn test_case_insensitive() {
    let stmt = parse_sql("select * from users;").unwrap();
    match stmt {
        Statement::Select {
            columns, tables, ..
        } => {
            assert_eq!(columns, Columns::Star);
            assert_eq!(tables, vec!["users"]);
        }
        _ => panic!("expected Select"),
    }
}

#[test]
fn test_boolean_and_null() {
    let stmt = parse_sql("INSERT INTO users VALUES (true, false, null);").unwrap();
    match stmt {
        Statement::Insert {
            columns, values, ..
        } => {
            assert_eq!(columns, None);
            assert!(matches!(values[0], Value::Boolean(true)));
            assert!(matches!(values[1], Value::Boolean(false)));
            assert!(matches!(values[2], Value::Null));
        }
        _ => panic!("expected Insert"),
    }
}

#[test]
fn test_select_where_equals() {
    let stmt = parse_sql("SELECT id, name FROM users WHERE age = 18;").unwrap();
    assert!(matches!(
        stmt,
        Statement::Select {
            condition: Some(BoolExpr::Comparison {
                op: Operator::Eq,
                ..
            }),
            ..
        }
    ));
}

#[test]
fn test_select_where_and() {
    let stmt = parse_sql("SELECT id FROM t WHERE a > 1 AND b = 2;").unwrap();
    assert!(matches!(
        stmt,
        Statement::Select {
            condition: Some(BoolExpr::And(_, _)),
            ..
        }
    ));
}

#[test]
fn test_select_where_or() {
    let stmt = parse_sql("SELECT id FROM t WHERE a = 1 OR b < 2;").unwrap();
    assert!(matches!(
        stmt,
        Statement::Select {
            condition: Some(BoolExpr::Or(_, _)),
            ..
        }
    ));
}

#[test]
fn test_where_nested_parens() {
    let stmt = parse_sql("SELECT id FROM t WHERE (a > 1) AND (b = 2 OR c < 3);").unwrap();
    match stmt {
        Statement::Select {
            condition: Some(BoolExpr::And(left, right)),
            ..
        } => {
            assert!(matches!(*left, BoolExpr::Comparison { .. }));
            assert!(matches!(*right, BoolExpr::Or(_, _)));
        }
        _ => panic!("expected And with Or right"),
    }
}

#[test]
fn test_update_where_and() {
    let stmt = parse_sql("UPDATE t SET x = 1 WHERE a > 1 AND b = 2;").unwrap();
    assert!(matches!(
        stmt,
        Statement::Update {
            condition: BoolExpr::And(_, _),
            ..
        }
    ));
}

#[test]
fn test_delete_where_or() {
    let stmt = parse_sql("DELETE FROM t WHERE a = 1 OR b = 2;").unwrap();
    assert!(matches!(
        stmt,
        Statement::Delete {
            condition: BoolExpr::Or(_, _),
            ..
        }
    ));
}

#[test]
fn parser_test_show_tables() {
    let stmt = parse_sql("SHOW TABLES;").unwrap();
    assert!(matches!(stmt, Statement::ShowTables));
}

#[test]
fn test_insert_with_columns() {
    let stmt = parse_sql("INSERT INTO users (name, age) VALUES ('alice', 18);").unwrap();
    match stmt {
        Statement::Insert {
            table,
            columns: Some(cols),
            values,
        } => {
            assert_eq!(table, "users");
            assert_eq!(cols, vec!["name", "age"]);
            assert_eq!(
                values,
                vec![Value::Text("alice".into()), Value::Integer(18)]
            );
        }
        _ => panic!("expected Insert with columns"),
    }
}

#[test]
fn parser_test_select_multi_table() {
    let stmt = parse_sql("SELECT * FROM t1, t2;").unwrap();
    match stmt {
        Statement::Select {
            columns: Columns::Star,
            tables,
            condition: None,
        } => {
            assert_eq!(tables, vec!["t1", "t2"]);
        }
        _ => panic!("expected Select with two tables"),
    }
}

fn wanted(sql: &str) -> (Wanted, Option<Token>, usize) {
    match parse_sql(sql) {
        Err(SyntaxError::Expected { want, found, at }) => (want, found, at),
        Err(e) => panic!("unexpected error {:?}", e),
        Ok(_) => panic!("expected an error"),
    }
}

#[test]
fn errors_say_what_is_wanted() {
    let id = |s: &str| Some(Token::Identifier(s.into()));
    assert_eq!(wanted(""), (Wanted::Statement, None, 0));
    assert_eq!(wanted("foo;"), (Wanted::Statement, id("foo"), 0));
    assert_eq!(wanted("CREATE foo;"), (Wanted::Object, id("foo"), 1));
    assert_eq!(wanted("DROP;"), (Wanted::Object, Some(Token::Semicolon), 1));
    assert_eq!(wanted("SHOW foo;"), (Wanted::Listing, id("foo"), 1));
    assert_eq!(wanted("DROP TABLE 1;"), (Wanted::TableName, Some(Token::IntLiteral(1)), 2));
    assert_eq!(wanted("DROP INDEX"), (Wanted::IndexName, None, 2));
    assert_eq!(wanted("USE"), (Wanted::DatabaseName, None, 1));
    assert_eq!(wanted("SELECT FROM t;"), (Wanted::ColumnName, Some(Token::From), 1));
    assert_eq!(wanted("CREATE TABLE t (a foo);"), (Wanted::DataType, id("foo"), 5));
    assert_eq!(wanted("CREATE TABLE t (a CHAR(b));"), (Wanted::Width, id("b"), 7));
    assert_eq!(wanted("INSERT INTO t VALUES (a);"), (Wanted::Value, id("a"), 5));
    assert_eq!(wanted("DELETE FROM t WHERE a 1;"), (Wanted::Operator, Some(Token::IntLiteral(1)), 5));
    assert_eq!(wanted("USE a"), (Wanted::Token(Token::Semicolon), None, 2));
    assert_eq!(wanted("UPDATE t x;"), (Wanted::Token(Token::SetKeyword), id("x"), 2));
    assert!(matches!(parse_sql("USE 'a"), Err(SyntaxError::Lex(LexError::UnterminatedString))));
}

#[test]
fn numbers_with_a_point_come_from_the_table() {
    let bits = 2.5f64.to_bits();
    match parse_with("INSERT INTO t VALUES (2.5);", vec![("2.5".to_string(), bits)]) {
        Ok(Statement::Insert { values, .. }) => assert_eq!(values, vec![Value::Float(bits)]),
        _ => panic!("expected Insert"),
    }
    assert!(matches!(parse_sql("INSERT INTO t VALUES (2.5);"), Err(SyntaxError::UnknownFloat(t)) if t == "2.5"));
}

#[test]
fn and_binds_tighter_than_or() {
    for sql in [
        "DELETE FROM t WHERE a = 1 AND b = 2 OR c = 3;",
        "DELETE FROM t WHERE c = 3 OR a = 1 AND b = 2;",
    ] {
        match parse_sql(sql) {
            Ok(Statement::Delete { condition: BoolExpr::Or(l, r), .. }) => {
                assert!(matches!(*l, BoolExpr::And(..)) != matches!(*r, BoolExpr::And(..)));
            }
            _ => panic!("expected Delete with Or"),
        }
    }
    match parse_sql("DELETE FROM t WHERE a = 1 OR b = 2 OR c = 3;") {
        Ok(Statement::Delete { condition: BoolExpr::Or(l, r), .. }) => {
            assert!(matches!(*l, BoolExpr::Or(..)));
            assert!(matches!(*r, BoolExpr::Comparison { op: Operator::Eq, .. }));
        }
        _ => panic!("expected Delete with Or"),
    }
    match parse_sql("DELETE FROM t WHERE (((a = 1 OR b = 2))) AND c = 3; anything") {
        Ok(Statement::Delete { condition: BoolExpr::And(l, _), .. }) => {
            assert!(matches!(*l, BoolExpr::Or(..)));
        }
        _ => panic!("expected Delete with And"),
    }
}
