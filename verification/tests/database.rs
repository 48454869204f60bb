//! SQL strings from end to end.
use sakuradb::engine::error::Error;
use sakuradb::sql::float_literals;
use sakuradb::sql::parser::SyntaxError;
use sakuradb::storage::page::PAGE_SIZE;
use sakuradb::storage::pager::{PageFile, StorageError};
use sakuradb::{Database, DatabaseError};

fn run(db: &mut Database, sql: &str) -> Result<String, DatabaseError> {
    let floats: Vec<(String, u64)> = float_literals(sql)
        .into_iter()
        .map(|t| {
            let bits = t.parse::<f64>().unwrap().to_bits();
            (t, bits)
        })
        .collect();
    let result = db.execute(sql, floats)?;
    let shown: Vec<(u64, String)> = result
        .floats()
        .into_iter()
        .map(|b| (b, format!("{:?}", f64::from_bits(b))))
        .collect();
    Ok(result.to_text(&shown).unwrap())
}

fn ok(db: &mut Database, sql: &str) -> String {
    run(db, sql).unwrap()
}

fn engine_error(db: &mut Database, sql: &str) -> Error {
    match run(db, sql) {
        Err(DatabaseError::Engine(e)) => e,
        other => panic!("expected an engine error, got {:?}", other),
    }
}

fn with_database() -> Database {
    let mut db = Database::new(Vec::new());
    ok(&mut db, "CREATE DATABASE shop;");
    ok(&mut db, "USE shop;");
    db
}

fn reopen(db: Database) -> Database {
    let (files, _) = db.into_files();
    Database::new(files)
}

#[test]
fn results_are_shown_as_text() {
    let mut db = with_database();
    assert_eq!(
        ok(&mut db, "CREATE TABLE t (id INT, name TEXT, price FLOAT, sold BOOLEAN, code CHAR(4));"),
        "Query executed successfully"
    );
    ok(&mut db, "INSERT INTO t VALUES (1, 'a \"b\"', 1.50, true, 'xy');");
    ok(&mut db, "INSERT INTO t VALUES (2, 'c', 2.0, false, null);");
    assert_eq!(
        ok(&mut db, "SELECT * FROM t;"),
        "Integer(1), Text(\"a \\\"b\\\"\"), Float(1.5), Boolean(true), Char(\"xy\")\n\
         Integer(2), Text(\"c\"), Float(2.0), Boolean(false), Null"
    );
    assert_eq!(ok(&mut db, "UPDATE t SET name = 'd' WHERE id > 0;"), "2 rows affected");
    assert_eq!(ok(&mut db, "DELETE FROM t WHERE price < 1.75;"), "1 rows affected");
    assert_eq!(ok(&mut db, "SELECT name, id FROM t;"), "Text(\"d\"), Integer(2)");
    assert_eq!(ok(&mut db, "SELECT id FROM t WHERE id = 9;"), "");
}

#[test]
fn databases_are_created_listed_and_dropped() {
    let mut db = Database::new(Vec::new());
    assert_eq!(ok(&mut db, "SHOW DATABASES;"), "");
    ok(&mut db, "CREATE DATABASE zoo;");
    ok(&mut db, "CREATE DATABASE Apple;");
    assert_eq!(ok(&mut db, "SHOW DATABASES;"), "Text(\"APPLE\")\nText(\"ZOO\")");
    assert!(matches!(engine_error(&mut db, "CREATE DATABASE ZOO;"), Error::DatabaseExists(n) if n == "ZOO"));
    assert!(matches!(engine_error(&mut db, "USE pear;"), Error::NoSuchDatabase(n) if n == "pear"));
    assert!(matches!(engine_error(&mut db, "DROP DATABASE pear;"), Error::NoSuchDatabase(n) if n == "pear"));
    ok(&mut db, "USE zoo;");
    ok(&mut db, "CREATE TABLE t (id INT);");
    ok(&mut db, "DROP DATABASE apple;");
    assert_eq!(ok(&mut db, "SHOW TABLES;"), "Text(\"T\")");
    ok(&mut db, "DROP DATABASE zoo;");
    assert!(matches!(engine_error(&mut db, "SHOW TABLES;"), Error::NoDatabase));
    let (files, removed) = db.into_files();
    assert!(files.is_empty());
    assert_eq!(removed, vec!["APPLE".to_string(), "ZOO".to_string()]);
}

#[test]
fn a_database_is_as_it_was_left() {
    let mut db = with_database();
    ok(&mut db, "CREATE TABLE t (id INT, name TEXT);");
    ok(&mut db, "CREATE INDEX by_name ON t (name);");
    ok(&mut db, "INSERT INTO t VALUES (1, 'one');");
    ok(&mut db, "CREATE DATABASE other;");
    ok(&mut db, "USE other;");
    assert_eq!(ok(&mut db, "SHOW TABLES;"), "");
    ok(&mut db, "USE SHOP;");
    assert_eq!(ok(&mut db, "SELECT * FROM T WHERE name = 'one';"), "Integer(1), Text(\"one\")");
    ok(&mut db, "USE shop;");
    assert_eq!(ok(&mut db, "SELECT * FROM t;"), "Integer(1), Text(\"one\")");
}

#[test]
fn files_are_read_back() {
    let mut db = with_database();
    ok(&mut db, "CREATE TABLE t (id INT, name TEXT);");
    for i in 0..300 {
        ok(&mut db, &format!("INSERT INTO t VALUES ({}, 'n{}');", i, i));
    }
    ok(&mut db, "CREATE INDEX by_id ON t (id);");
    ok(&mut db, "DELETE FROM t WHERE id < 100;");
    let mut db = reopen(db);
    assert_eq!(ok(&mut db, "SHOW DATABASES;"), "Text(\"SHOP\")");
    ok(&mut db, "USE shop;");
    assert_eq!(ok(&mut db, "SELECT name FROM t WHERE id = 250;"), "Text(\"n250\")");
    assert_eq!(ok(&mut db, "SELECT name FROM t WHERE id = 50;"), "");
    assert_eq!(ok(&mut db, "SELECT * FROM t;").lines().count(), 200);
    ok(&mut db, "INSERT INTO t VALUES (1000, 'last');");
    let mut db = reopen(db);
    ok(&mut db, "USE shop;");
    assert_eq!(ok(&mut db, "SELECT name FROM t WHERE id > 299;"), "Text(\"last\")");
}

#[test]
fn a_hundred_tables_are_read_back() {
    let mut db = with_database();
    for i in 0..100 {
        ok(&mut db, &format!("CREATE TABLE t{} (id INT);", i));
    }
    let mut db = reopen(db);
    ok(&mut db, "USE shop;");
    assert_eq!(ok(&mut db, "SHOW TABLES;").lines().count(), 100);
    ok(&mut db, "CREATE TABLE another (id INT);");
    assert_eq!(ok(&mut db, "SHOW TABLES;").lines().count(), 101);
}

fn bytes_of(file: &PageFile) -> Vec<(u32, Vec<u8>)> {
    let mut numbers = file.page_numbers();
    numbers.sort_unstable();
    numbers.into_iter().map(|id| (id, file.read(id).unwrap().to_vec())).collect()
}

#[test]
fn the_page_numbers_of_a_file_are_listed_once() {
    let mut file = PageFile::new();
    assert!(file.page_numbers().is_empty());
    for id in [9, 2, 9, 0, u32::MAX] {
        file.write(id, [1u8; PAGE_SIZE]);
    }
    let mut numbers = file.page_numbers();
    numbers.sort_unstable();
    assert_eq!(numbers, [0, 2, 9, u32::MAX]);
}

#[test]
fn copied_pages_are_the_whole_database() {
    let mut db = with_database();
    ok(&mut db, "CREATE TABLE t (id INT);");
    for i in 0..300 {
        ok(&mut db, &format!("INSERT INTO t VALUES ({});", i));
    }
    let (files, _) = db.into_files();
    let mut copy = PageFile::new();
    for (id, data) in bytes_of(&files[0].1) {
        let mut page = [0u8; PAGE_SIZE];
        page.copy_from_slice(&data);
        copy.write(id, page);
    }
    let mut db = Database::new(vec![("SHOP".to_string(), copy)]);
    ok(&mut db, "USE shop;");
    assert_eq!(ok(&mut db, "SELECT id FROM t;").lines().count(), 300);
}

#[test]
fn files_that_are_not_in_use_stay_as_they_are() {
    let mut db = with_database();
    ok(&mut db, "CREATE TABLE t (id INT);");
    let (mut files, _) = db.into_files();
    let mut bad = PageFile::new();
    bad.write(0, [7u8; PAGE_SIZE]);
    bad.write(5, [8u8; PAGE_SIZE]);
    files.push(("BAD".to_string(), bad));
    let before: Vec<_> = files.iter().map(|(n, f)| (n.clone(), bytes_of(f))).collect();
    let mut db = Database::new(files);
    engine_error(&mut db, "USE bad;");
    ok(&mut db, "CREATE DATABASE other;");
    ok(&mut db, "USE other;");
    ok(&mut db, "CREATE TABLE t (id INT);");
    ok(&mut db, "INSERT INTO t VALUES (1);");
    let (files, _) = db.into_files();
    for (name, pages) in before {
        let kept = files.iter().find(|(n, _)| *n == name).unwrap();
        assert_eq!(bytes_of(&kept.1), pages);
    }
}

#[test]
fn pages_of_dropped_tables_and_indexes_are_used_again() {
    let mut db = with_database();
    let mut sizes = Vec::new();
    for _ in 0..4 {
        ok(&mut db, "CREATE TABLE t (id INT);");
        ok(&mut db, "CREATE INDEX i ON t (id);");
        for i in 0..400 {
            ok(&mut db, &format!("INSERT INTO t VALUES ({});", i));
        }
        ok(&mut db, "DROP INDEX i;");
        ok(&mut db, "DROP TABLE t;");
        let (files, _) = db.into_files();
        sizes.push(files[0].1.page_numbers().len());
        db = Database::new(files);
        ok(&mut db, "USE shop;");
    }
    assert!(sizes.iter().all(|n| *n == sizes[0]));
}

#[test]
fn a_broken_file_cannot_be_used_and_is_kept() {
    let mut file = PageFile::new();
    file.write(0, [7u8; PAGE_SIZE]);
    let mut db = Database::new(vec![("BAD".to_string(), file), ("EMPTY".to_string(), PageFile::new())]);
    assert!(matches!(engine_error(&mut db, "USE bad;"), Error::Storage(StorageError::Page(_))));
    assert!(matches!(engine_error(&mut db, "USE empty;"), Error::Storage(StorageError::MissingPage(0))));
    assert!(matches!(engine_error(&mut db, "SHOW TABLES;"), Error::NoDatabase));
    let (files, _) = db.into_files();
    assert_eq!(files.len(), 2);
    for (name, file) in files {
        if name == "BAD" {
            assert_eq!(file.read(0).unwrap()[0], 7);
        }
    }
}

#[test]
fn of_two_files_with_one_name_the_later_counts() {
    let mut db = with_database();
    ok(&mut db, "CREATE TABLE t (id INT);");
    let (mut files, _) = db.into_files();
    let (name, file) = files.pop().unwrap();
    let mut db = Database::new(vec![(name.clone(), PageFile::new()), (name, file)]);
    ok(&mut db, "USE shop;");
    assert_eq!(ok(&mut db, "SHOW TABLES;"), "Text(\"T\")");
}

#[test]
fn table_errors() {
    let mut db = with_database();
    ok(&mut db, "CREATE TABLE t (id INT, name TEXT, flag BOOLEAN);");
    assert!(matches!(engine_error(&mut db, "CREATE TABLE T (x INT);"), Error::TableExists(n) if n == "T"));
    assert!(matches!(engine_error(&mut db, "DROP TABLE u;"), Error::NoTable(n) if n == "u"));
    assert!(matches!(engine_error(&mut db, "SELECT * FROM t, u;"), Error::NoTable(n) if n == "u"));
    assert!(matches!(engine_error(&mut db, "INSERT INTO u VALUES (1);"), Error::NoTable(_)));
    assert!(matches!(engine_error(&mut db, "UPDATE u SET id = 1 WHERE id = 1;"), Error::NoTable(_)));
    assert!(matches!(engine_error(&mut db, "DELETE FROM u WHERE id = 1;"), Error::NoTable(_)));
    assert!(matches!(engine_error(&mut db, "SELECT x FROM t;"), Error::NoColumn(n) if n == "x"));
    assert!(matches!(engine_error(&mut db, "SELECT * FROM t, t;"), Error::DuplicateColumn(n) if n == "id"));
    assert!(matches!(
        engine_error(&mut db, "INSERT INTO t (id, x) VALUES (1, 2);"),
        Error::NoColumnInTable { column, table } if column == "x" && table == "t"
    ));
    assert!(matches!(
        engine_error(&mut db, "INSERT INTO t (id) VALUES (1, 2);"),
        Error::ColumnCount { expected: 1, got: 2 }
    ));
    assert!(matches!(
        engine_error(&mut db, "INSERT INTO t VALUES (1, 2, true);"),
        Error::TypeMismatch { .. }
    ));
    assert!(matches!(
        engine_error(&mut db, "CREATE INDEX i ON t (flag);"),
        Error::NotIndexable { .. }
    ));
    assert!(matches!(
        engine_error(&mut db, "CREATE INDEX i ON t (x);"),
        Error::NoColumnInTable { .. }
    ));
    assert!(matches!(engine_error(&mut db, "CREATE INDEX i ON u (x);"), Error::NoTable(_)));
    assert!(matches!(engine_error(&mut db, "DROP INDEX i;"), Error::NoIndex(n) if n == "i"));
    ok(&mut db, "CREATE INDEX i ON t (id);");
    assert!(matches!(engine_error(&mut db, "DROP TABLE t;"), Error::IndexesExist(n) if n == "t"));
    ok(&mut db, "DROP INDEX I;");
    ok(&mut db, "DROP TABLE T;");
    assert_eq!(ok(&mut db, "SHOW TABLES;"), "");
    assert!(matches!(
        run(&mut db, "SELEC * FROM t;"),
        Err(DatabaseError::Syntax(SyntaxError::Expected { .. }))
    ));
}

#[test]
fn a_row_larger_than_a_page_does_not_last() {
    let mut db = with_database();
    ok(&mut db, "CREATE TABLE t (name TEXT);");
    let long = "x".repeat(5000);
    ok(&mut db, &format!("INSERT INTO t VALUES ('{}');", long));
    assert_eq!(ok(&mut db, "SELECT * FROM t;").len(), 5000 + "Text(\"\")".len());
    let mut db = reopen(db);
    ok(&mut db, "USE shop;");
    assert_ne!(run(&mut db, "SELECT * FROM t;").unwrap_or_default().len(), 5000 + "Text(\"\")".len());
}

#[test]
fn an_update_that_fails_changes_nothing() {
    let mut db = with_database();
    ok(&mut db, "CREATE TABLE t (id INT, name TEXT);");
    ok(&mut db, "CREATE INDEX i ON t (id);");
    ok(&mut db, "INSERT INTO t VALUES (1, 'a');");
    assert!(matches!(
        engine_error(&mut db, "UPDATE t SET id = 2, name = 3 WHERE id = 1;"),
        Error::TypeMismatch { .. }
    ));
    assert!(matches!(
        engine_error(&mut db, "UPDATE t SET id = 2, x = 3 WHERE id = 1;"),
        Error::NoColumn(n) if n == "x"
    ));
    assert_eq!(ok(&mut db, "UPDATE t SET x = 3 WHERE id = 7;"), "0 rows affected");
    assert_eq!(ok(&mut db, "SELECT * FROM t WHERE id = 1;"), "Integer(1), Text(\"a\")");
}

#[test]
fn the_last_assignment_to_a_column_counts() {
    let mut db = with_database();
    ok(&mut db, "CREATE TABLE t (id INT);");
    ok(&mut db, "CREATE INDEX i ON t (id);");
    ok(&mut db, "INSERT INTO t VALUES (1);");
    assert_eq!(ok(&mut db, "UPDATE t SET id = 2, id = 3 WHERE id = 1;"), "1 rows affected");
    assert_eq!(ok(&mut db, "SELECT * FROM t WHERE id = 3;"), "Integer(3)");
    assert_eq!(ok(&mut db, "SELECT * FROM t WHERE id = 2;"), "");
}

#[test]
fn an_index_gives_the_same_rows() {
    let mut db = with_database();
    ok(&mut db, "CREATE TABLE t (id INT, name TEXT);");
    for i in 0..150 {
        ok(&mut db, &format!("INSERT INTO t VALUES ({}, 'n{}');", (i * 37) % 50, i % 7));
    }
    ok(&mut db, "INSERT INTO t (name) VALUES ('n1');");
    ok(&mut db, "INSERT INTO t VALUES (9223372036854775807, '');");
    let queries = [
        "SELECT * FROM t WHERE id = 7;",
        "SELECT * FROM t WHERE id > 40;",
        "SELECT * FROM t WHERE id >= 40;",
        "SELECT * FROM t WHERE id < 5;",
        "SELECT * FROM t WHERE id <= 5;",
        "SELECT * FROM t WHERE id != 5;",
        "SELECT * FROM t WHERE id = 9223372036854775807;",
        "SELECT * FROM t WHERE id > 9223372036854775807;",
        "SELECT * FROM t WHERE id <= 9223372036854775807;",
        "SELECT * FROM t WHERE id = 7.0;",
        "SELECT * FROM t WHERE id < 4.5;",
        "SELECT * FROM t WHERE name = 'n3';",
        "SELECT * FROM t WHERE name < 'n2';",
        "SELECT * FROM t WHERE name <= 'n2';",
        "SELECT * FROM t WHERE name > 'n2';",
        "SELECT * FROM t WHERE name >= '';",
        "SELECT * FROM t WHERE id = null;",
        "SELECT * FROM t WHERE id < 10 AND name = 'n1';",
        "SELECT * FROM t WHERE id < 3 OR name = 'n1';",
    ];
    let sorted = |s: String| {
        let mut lines: Vec<String> = s.lines().map(|l| l.to_string()).collect();
        lines.sort();
        lines
    };
    let plain: Vec<Vec<String>> = queries.iter().map(|q| sorted(ok(&mut db, q))).collect();
    ok(&mut db, "CREATE INDEX by_id ON t (id);");
    ok(&mut db, "CREATE INDEX by_name ON T (name);");
    for (q, rows) in queries.iter().zip(&plain) {
        assert_eq!(&sorted(ok(&mut db, q)), rows, "{}", q);
    }
    ok(&mut db, "DROP INDEX by_id;");
    ok(&mut db, "DROP INDEX by_name;");
    for (q, rows) in queries.iter().zip(&plain) {
        assert_eq!(&sorted(ok(&mut db, q)), rows, "{}", q);
    }
}

#[test]
fn joins_are_filtered_products() {
    let mut db = with_database();
    ok(&mut db, "CREATE TABLE a (x INT);");
    ok(&mut db, "CREATE TABLE b (y INT, z TEXT);");
    ok(&mut db, "INSERT INTO a VALUES (1);");
    ok(&mut db, "INSERT INTO a VALUES (2);");
    ok(&mut db, "INSERT INTO b VALUES (10, 'p');");
    ok(&mut db, "INSERT INTO b VALUES (20, 'q');");
    assert_eq!(
        ok(&mut db, "SELECT * FROM a, b;"),
        "Integer(1), Integer(10), Text(\"p\")\nInteger(1), Integer(20), Text(\"q\")\n\
         Integer(2), Integer(10), Text(\"p\")\nInteger(2), Integer(20), Text(\"q\")"
    );
    assert_eq!(
        ok(&mut db, "SELECT z, x FROM a, b WHERE x = 2 AND (y < 15 OR z = 'r');"),
        "Text(\"p\"), Integer(2)"
    );
    assert_eq!(
        ok(&mut db, "SELECT x, y FROM a, b WHERE x = 1 OR y = 20;"),
        "Integer(1), Integer(10)\nInteger(1), Integer(20)\nInteger(2), Integer(20)"
    );
}

#[test]
fn comparisons_with_null_and_other_types() {
    let mut db = with_database();
    ok(&mut db, "CREATE TABLE t (id INT, f FLOAT, c CHAR(2));");
    ok(&mut db, "INSERT INTO t VALUES (1, 1.0, 'ab');");
    ok(&mut db, "INSERT INTO t (id) VALUES (2);");
    assert_eq!(ok(&mut db, "SELECT id FROM t WHERE f = 1.0;"), "Integer(1)");
    assert_eq!(ok(&mut db, "SELECT id FROM t WHERE f < 2.5;"), "Integer(1)");
    assert_eq!(ok(&mut db, "SELECT id FROM t WHERE c = 'ab';"), "Integer(1)");
    assert_eq!(ok(&mut db, "SELECT c FROM t WHERE id = 2;"), "Null");
}

#[test]
fn inserted_rows_are_selected_and_deleted_ones_are_not() {
    let mut db = with_database();
    ok(&mut db, "CREATE TABLE t (id INT, v INT);");
    ok(&mut db, "INSERT INTO t (v, id) VALUES (10, 1);");
    ok(&mut db, "INSERT INTO t VALUES (2, 20);");
    assert_eq!(ok(&mut db, "SELECT * FROM t;"), "Integer(1), Integer(10)\nInteger(2), Integer(20)");
    assert_eq!(ok(&mut db, "DELETE FROM t WHERE v > 15;"), "1 rows affected");
    assert_eq!(ok(&mut db, "DELETE FROM t WHERE v > 15;"), "0 rows affected");
    assert_eq!(ok(&mut db, "SELECT * FROM t;"), "Integer(1), Integer(10)");
    ok(&mut db, "INSERT INTO t VALUES (3, 30);");
    assert_eq!(ok(&mut db, "SELECT * FROM t;"), "Integer(1), Integer(10)\nInteger(3), Integer(30)");
}

#[test]
fn names_ignore_case_and_columns_do_not() {
    let mut db = with_database();
    ok(&mut db, "create table Street (Id int);");
    ok(&mut db, "insert into STREET values (1);");
    assert_eq!(ok(&mut db, "SELECT Id FROM street;"), "Integer(1)");
    assert!(matches!(engine_error(&mut db, "SELECT ID FROM street;"), Error::NoColumn(_)));
}

#[test]
fn values_of_another_type_meet_no_comparison() {
    let mut db = with_database();
    ok(&mut db, "CREATE TABLE t (a INT, b INT);");
    ok(&mut db, "INSERT INTO t VALUES (1, 2);");
    assert_eq!(ok(&mut db, "SELECT b FROM t WHERE a != 'x';"), "");
    assert_eq!(ok(&mut db, "SELECT b FROM t WHERE a = 'x' OR b = 2;"), "");
    assert_eq!(ok(&mut db, "SELECT a FROM t WHERE b = 2 OR a = 'x';"), "Integer(1)");
}

#[test]
fn null_differs_from_every_other_value() {
    let mut db = with_database();
    ok(&mut db, "CREATE TABLE t (a INT, b INT);");
    ok(&mut db, "INSERT INTO t VALUES (1, 7);");
    ok(&mut db, "INSERT INTO t (b) VALUES (2);");
    assert_eq!(ok(&mut db, "SELECT b FROM t WHERE a != 5;"), "Integer(7)\nInteger(2)");
    assert_eq!(ok(&mut db, "SELECT b FROM t WHERE a != 'x';"), "Integer(2)");
    assert_eq!(ok(&mut db, "SELECT b FROM t WHERE a = 5 OR b = 2;"), "Integer(2)");
    assert_eq!(ok(&mut db, "SELECT a FROM t WHERE b = 2 OR a = 1;"), "Integer(1)\nNull");
    assert_eq!(ok(&mut db, "SELECT b FROM t WHERE a = null;"), "Integer(2)");
    assert_eq!(ok(&mut db, "SELECT b FROM t WHERE a != null;"), "Integer(7)");
    ok(&mut db, "UPDATE t SET b = 3 WHERE a != 1;");
    assert_eq!(ok(&mut db, "SELECT b FROM t;"), "Integer(7)\nInteger(3)");
    ok(&mut db, "DELETE FROM t WHERE a = 5 OR b = 3;");
    assert_eq!(ok(&mut db, "SELECT b FROM t;"), "Integer(7)");
}

#[test]
fn rows_found_by_an_index_come_in_its_order() {
    let mut db = with_database();
    ok(&mut db, "CREATE TABLE t (id INT, name TEXT);");
    for (id, name) in [(3, "c"), (1, "a"), (2, "b")] {
        ok(&mut db, &format!("INSERT INTO t VALUES ({}, '{}');", id, name));
    }
    ok(&mut db, "CREATE INDEX by_id ON t (id);");
    assert_eq!(ok(&mut db, "SELECT id FROM t WHERE id > 0;"), "Integer(1)\nInteger(2)\nInteger(3)");
    assert_eq!(ok(&mut db, "SELECT id FROM t WHERE id != 0;"), "Integer(3)\nInteger(1)\nInteger(2)");
    assert_eq!(ok(&mut db, "SELECT id FROM t WHERE name > '';"), "Integer(3)\nInteger(1)\nInteger(2)");
    assert_eq!(ok(&mut db, "SELECT id FROM t WHERE id > 0 AND id < 9;"), "Integer(3)\nInteger(1)\nInteger(2)");
}
