//! Statements on tables.
use sakuradb::engine::executor::{Engine, QueryResult};
use sakuradb::sql::ast::{Assignment, BoolExpr, ColumnDef, Columns, DataType, Operator, Statement, Value};

fn open_engine(name: &str) -> Engine {
    let mut engine = Engine::open(Vec::new());
    engine.execute(Statement::CreateDatabase { name: name.into() }).unwrap();
    engine.execute(Statement::UseDatabase { name: name.into() }).unwrap();
    engine
}

/// Put everything back into the files, and open them anew.
fn reopen_engine(engine: Engine, name: &str) -> Engine {
    let (files, _) = engine.into_files();
    let mut engine = Engine::open(files);
    engine.execute(Statement::UseDatabase { name: name.into() }).unwrap();
    engine
}

#[test]
fn test_create_and_drop_table() {
    let mut engine = open_engine("create_drop");
    exec_create(
        &mut engine,
        "t1",
        &[("id", DataType::Integer), ("name", DataType::Text)],
    );
    assert!(engine.table_exists("t1").unwrap());
    engine
        .execute(Statement::DropTable { name: "t1".into() })
        .unwrap();
    assert!(!engine.table_exists("t1").unwrap());
}

#[test]
fn test_index_select() {
    let raw_name = "index_select";
    let mut engine = open_engine(raw_name);
    let name = "t";
    exec_create(
        &mut engine,
        name,
        &[("id", DataType::Integer), ("name", DataType::Text)],
    );

    for i in 0..100000 {
        engine
            .execute(Statement::Insert {
                table: name.into(),
                columns: None,
                values: vec![Value::Integer(i), Value::Text(format!("u{}", i))],
            })
            .unwrap();
    }

    engine
        .execute(Statement::CreateIndex {
            name: "idx_name".into(),
            table: name.into(),
            column: "name".into(),
        })
        .unwrap();
    let search_val = Value::Text("u1500".into());

    let mut engine = reopen_engine(engine, raw_name);
    let t0 = std::time::Instant::now();
    for _ in 0..50 {
        let result = engine
            .execute(Statement::Select {
                columns: Columns::Star,
                tables: vec![name.into()],
                condition: Some(BoolExpr::Comparison {
                    column: "name".into(),
                    op: Operator::Eq,
                    value: search_val.duplicate(),
                }),
            })
            .unwrap();
        match result {
            QueryResult::Rows(rows) => {
                assert_eq!(rows.len(), 1);
                assert_eq!(rows[0][0], Value::Integer(1500));
            }
            _ => panic!("expected Rows"),
        }
    }
    let with_index_us = t0.elapsed().as_micros() / 50;

    engine
        .execute(Statement::DropIndex {
            name: "idx_name".into(),
        })
        .unwrap();

    let mut engine = reopen_engine(engine, raw_name);
    let t1 = std::time::Instant::now();
    for _ in 0..50 {
        let result = engine
            .execute(Statement::Select {
                columns: Columns::Star,
                tables: vec![name.into()],
                condition: Some(BoolExpr::Comparison {
                    column: "name".into(),
                    op: Operator::Eq,
                    value: search_val.duplicate(),
                }),
            })
            .unwrap();
        match result {
            QueryResult::Rows(rows) => {
                assert_eq!(rows.len(), 1);
                assert_eq!(rows[0][0], Value::Integer(1500));
            }
            _ => panic!("expected Rows"),
        }
    }
    let without_index_us = t1.elapsed().as_micros() / 50;

    println!("index:   {} us/query", with_index_us);
    println!("no idx:  {} us/query", without_index_us);
}

#[test]
fn executor_test_select_with_where() {
    let mut engine = open_engine("select_where");
    let name = "test_sw";
    exec_create(
        &mut engine,
        name,
        &[("id", DataType::Integer), ("age", DataType::Integer)],
    );

    engine
        .execute(Statement::Insert {
            table: name.into(),
            columns: None,
            values: vec![Value::Integer(1), Value::Integer(20)],
        })
        .unwrap();
    engine
        .execute(Statement::Insert {
            table: name.into(),
            columns: None,
            values: vec![Value::Integer(2), Value::Integer(30)],
        })
        .unwrap();
    engine
        .execute(Statement::Insert {
            table: name.into(),
            columns: None,
            values: vec![Value::Integer(3), Value::Integer(25)],
        })
        .unwrap();

    let result = engine
        .execute(Statement::Select {
            columns: Columns::Star,
            tables: vec![name.into()],
            condition: Some(BoolExpr::Comparison {
                column: "age".into(),
                op: Operator::Gt,
                value: Value::Integer(20),
            }),
        })
        .unwrap();

    match result {
        QueryResult::Rows(rows) => {
            assert_eq!(rows.len(), 2);
            assert!(
                rows[0][0] == Value::Integer(2) && rows[1][0] == Value::Integer(3)
                    || rows[0][0] == Value::Integer(3) && rows[1][0] == Value::Integer(2)
            );
        }
        _ => panic!("expected Rows"),
    }
}

#[test]
fn test_select_column_projection() {
    let mut engine = open_engine("select_proj");
    let name = "test_proj";
    exec_create(
        &mut engine,
        name,
        &[
            ("id", DataType::Integer),
            ("name", DataType::Text),
            ("age", DataType::Integer),
        ],
    );

    engine
        .execute(Statement::Insert {
            table: name.into(),
            columns: None,
            values: vec![
                Value::Integer(1),
                Value::Text("alice".into()),
                Value::Integer(18),
            ],
        })
        .unwrap();

    let result = engine
        .execute(Statement::Select {
            columns: Columns::List(vec!["name".into(), "age".into()]),
            tables: vec![name.into()],
            condition: None,
        })
        .unwrap();

    match result {
        QueryResult::Rows(rows) => {
            assert_eq!(rows.len(), 1);
            assert_eq!(rows[0].len(), 2);
            assert_eq!(rows[0][0], Value::Text("alice".into()));
            assert_eq!(rows[0][1], Value::Integer(18));
        }
        _ => panic!("expected Rows"),
    }
}

#[test]
fn executor_test_update() {
    let mut engine = open_engine("update");
    let name = "test_upd";
    exec_create(
        &mut engine,
        name,
        &[("id", DataType::Integer), ("name", DataType::Text)],
    );

    engine
        .execute(Statement::Insert {
            table: name.into(),
            columns: None,
            values: vec![Value::Integer(1), Value::Text("alice".into())],
        })
        .unwrap();
    engine
        .execute(Statement::Insert {
            table: name.into(),
            columns: None,
            values: vec![Value::Integer(2), Value::Text("bob".into())],
        })
        .unwrap();

    let result = engine
        .execute(Statement::Update {
            table: name.into(),
            assignments: vec![Assignment {
                column: "name".into(),
                value: Value::Text("charlie".into()),
            }],
            condition: BoolExpr::Comparison {
                column: "id".into(),
                op: Operator::Eq,
                value: Value::Integer(1),
            },
        })
        .unwrap();

    assert!(matches!(result, QueryResult::RowsAffected(1)));

    let result = engine
        .execute(Statement::Select {
            columns: Columns::Star,
            tables: vec![name.into()],
            condition: None,
        })
        .unwrap();

    match result {
        QueryResult::Rows(rows) => {
            assert_eq!(rows.len(), 2);
            assert!(
                rows[0][1] == Value::Text("charlie".into())
                    && rows[1][1] == Value::Text("bob".into())
                    || rows[0][1] == Value::Text("bob".into())
                        && rows[1][1] == Value::Text("charlie".into())
            );
        }
        _ => panic!("expected Rows"),
    }
}

#[test]
fn executor_test_delete() {
    let mut engine = open_engine("engine_delete");
    let name = "test_del";
    exec_create(
        &mut engine,
        name,
        &[("id", DataType::Integer), ("val", DataType::Integer)],
    );

    for i in 1..=3 {
        engine
            .execute(Statement::Insert {
                table: name.into(),
                columns: None,
                values: vec![Value::Integer(i), Value::Integer(i * 10)],
            })
            .unwrap();
    }

    let result = engine
        .execute(Statement::Delete {
            table: name.into(),
            condition: BoolExpr::Comparison {
                column: "id".into(),
                op: Operator::Gt,
                value: Value::Integer(1),
            },
        })
        .unwrap();

    assert!(matches!(result, QueryResult::RowsAffected(2)));

    let result = engine
        .execute(Statement::Select {
            columns: Columns::Star,
            tables: vec![name.into()],
            condition: None,
        })
        .unwrap();

    match result {
        QueryResult::Rows(rows) => {
            assert_eq!(rows.len(), 1);
            assert_eq!(rows[0][0], Value::Integer(1));
        }
        _ => panic!("expected Rows"),
    }
}

#[test]
fn test_create_and_drop_index() {
    let mut engine = open_engine("index");
    let name = "test_idx";
    exec_create(
        &mut engine,
        name,
        &[("id", DataType::Integer), ("name", DataType::Text)],
    );

    let result = engine.execute(Statement::CreateIndex {
        name: "idx_name".into(),
        table: name.into(),
        column: "name".into(),
    });
    assert!(result.is_ok());

    let result = engine.execute(Statement::DropIndex {
        name: "idx_name".into(),
    });
    assert!(result.is_ok());
}

#[test]
fn test_duplicate_table_error() {
    let mut engine = open_engine("dup_table");
    let name = "test_dup";
    exec_create(&mut engine, name, &[("id", DataType::Integer)]);

    let result = engine.execute(Statement::CreateTable {
        name: name.into(),
        columns: vec![col("x", DataType::Integer)],
    });
    assert!(result.is_err());
}

#[test]
fn test_column_count_mismatch() {
    let mut engine = open_engine("col_mismatch");
    let name = "test_ccm";
    exec_create(&mut engine, name, &[("id", DataType::Integer)]);

    let result = engine.execute(Statement::Insert {
        table: name.into(),
        columns: None,
        values: vec![Value::Integer(1), Value::Text("extra".into())],
    });
    assert!(result.is_err());
}

#[test]
fn test_type_mismatch() {
    let mut engine = open_engine("type_mismatch");
    let name = "test_tm";
    exec_create(&mut engine, name, &[("id", DataType::Integer)]);

    let result = engine.execute(Statement::Insert {
        table: name.into(),
        columns: None,
        values: vec![Value::Text("not int".into())],
    });
    assert!(result.is_err());
}

#[test]
fn executor_test_show_tables() {
    let mut engine = open_engine("show_tables");
    exec_create(&mut engine, "t1", &[("id", DataType::Integer)]);
    exec_create(&mut engine, "t2", &[("name", DataType::Text)]);

    let result = engine.execute(Statement::ShowTables).unwrap();
    match result {
        QueryResult::Rows(rows) => {
            assert_eq!(rows.len(), 2);
            let mut names: Vec<_> = rows
                .iter()
                .map(|r| match &r[0] {
                    Value::Text(s) => s.clone(),
                    _ => panic!("expected Text"),
                })
                .collect();
            names.sort();
            assert_eq!(names, vec!["T1".to_string(), "T2".to_string()]);
        }
        _ => panic!("expected Rows"),
    }
}

#[test]
fn executor_test_select_multi_table() {
    let mut engine = open_engine("select_multi");
    exec_create(
        &mut engine,
        "s",
        &[("sname", DataType::Text), ("ssex", DataType::Integer)],
    );
    exec_create(
        &mut engine,
        "c",
        &[("cid", DataType::Integer), ("cname", DataType::Text)],
    );

    engine
        .execute(Statement::Insert {
            table: "s".into(),
            columns: None,
            values: vec![Value::Text("a".into()), Value::Integer(1)],
        })
        .unwrap();
    engine
        .execute(Statement::Insert {
            table: "c".into(),
            columns: None,
            values: vec![Value::Integer(1), Value::Text("db".into())],
        })
        .unwrap();

    let result = engine
        .execute(Statement::Select {
            columns: Columns::Star,
            tables: vec!["s".into(), "c".into()],
            condition: None,
        })
        .unwrap();

    match result {
        QueryResult::Rows(rows) => {
            assert_eq!(rows.len(), 1);
            assert_eq!(rows[0].len(), 4);
            assert_eq!(rows[0][0], Value::Text("a".into()));
            assert_eq!(rows[0][1], Value::Integer(1));
            assert_eq!(rows[0][2], Value::Integer(1));
            assert_eq!(rows[0][3], Value::Text("db".into()));
        }
        _ => panic!("expected Rows"),
    }
}

#[test]
fn names_are_compared_in_upper_case() {
    let mut engine = open_engine("upper");
    exec_create(&mut engine, "stra\u{df}e", &[("id", DataType::Integer)]);
    assert!(engine.table_exists("STRASSE").unwrap());
    assert!(!engine.table_exists("strase").unwrap());
}

#[test]
fn statements_need_a_database() {
    let mut engine = Engine::open(Vec::new());
    assert!(engine.table_exists("t").is_err());
    assert!(engine.execute(Statement::ShowTables).is_err());
    assert!(engine.execute(Statement::ShowDatabases).is_ok());
}

// --- test helpers ---

fn col(name: &str, dt: DataType) -> ColumnDef {
    ColumnDef {
        name: name.into(),
        data_type: dt,
    }
}

fn exec_create(engine: &mut Engine, name: &str, cols: &[(&str, DataType)]) {
    let columns: Vec<ColumnDef> = cols.iter().map(|(n, dt)| col(n, *dt)).collect();
    engine
        .execute(Statement::CreateTable {
            name: name.into(),
            columns,
        })
        .unwrap();
}
