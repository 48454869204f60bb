//! Scripts.
use sakuradb::script::statements;

#[test]
fn a_script_is_taken_apart() {
    let script = "// first\nCREATE DATABASE a; USE a; // then\r\n\n  SELECT *\n\tFROM t ;;\n";
    assert_eq!(
        statements(script),
        vec!["CREATE DATABASE a".to_string(), "USE a".to_string(), "SELECT * FROM t".to_string()]
    );
}

#[test]
fn nothing_after_exit_is_run() {
    assert_eq!(statements("USE a; Exit; USE b;"), vec!["USE a".to_string()]);
    assert_eq!(statements("exit"), Vec::<String>::new());
    assert_eq!(statements("exits; USE b"), vec!["exits".to_string(), "USE b".to_string()]);
}

#[test]
fn an_empty_script_has_no_statements() {
    assert_eq!(statements(""), Vec::<String>::new());
    assert_eq!(statements(" \n ; // x ; y\n;"), Vec::<String>::new());
}

#[test]
fn comments_end_with_their_line() {
    assert_eq!(statements("a / b // c; d\ne; f"), vec!["a / b e".to_string(), "f".to_string()]);
    assert_eq!(statements("a /// b\nc"), vec!["a c".to_string()]);
    assert_eq!(statements("\u{3000}a\u{a0};\u{2003}b"), vec!["a".to_string(), "b".to_string()]);
}
