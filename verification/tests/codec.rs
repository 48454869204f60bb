//! Values, rows, schemas and keys as bytes.
use sakuradb::bytes::{compare, Standing};
use sakuradb::engine::condition::{compare_values, evaluate_condition, values_equal};
use sakuradb::engine::index::{encode_value, index_range, index_row_key, row_key};
use sakuradb::engine::meta::{data_type_from_tag, decode_index, decode_schema, encode_index, encode_schema, type_tag};
use sakuradb::engine::join::split_expr;
use sakuradb::engine::row::{deserialize_row, deserialize_value, serialize_row, serialize_value, RowError};
use sakuradb::ints::{from_be64, from_le16, from_le32, from_le64, to_be64, to_le16, to_le32, to_le64};
use sakuradb::sql::ast::{BoolExpr, ColumnDef, DataType, Operator, Value};

#[test]
fn integers_are_read_back() {
    assert_eq!(to_le16(0x0102), vec![2, 1]);
    assert_eq!(to_le32(0x01020304), vec![4, 3, 2, 1]);
    assert_eq!(to_le64(1), vec![1, 0, 0, 0, 0, 0, 0, 0]);
    assert_eq!(to_be64(1), vec![0, 0, 0, 0, 0, 0, 0, 1]);
    assert_eq!(from_le16(&to_le16(65535)), 65535);
    assert_eq!(from_le32(&to_le32(4000000000)), 4000000000);
    assert_eq!(from_le64(&to_le64(u64::MAX)), u64::MAX);
    assert_eq!(from_be64(&to_be64(1 << 40)), 1 << 40);
}

#[test]
fn rows_are_read_back() {
    let row = vec![
        Value::Integer(-5),
        Value::Float(1.5f64.to_bits()),
        Value::Text("aé".into()),
        Value::Boolean(true),
        Value::Null,
        Value::Char("x".into()),
    ];
    let bytes = serialize_row(&row).unwrap();
    assert_eq!(deserialize_row(&bytes, 6).unwrap(), row);
}

#[test]
fn broken_rows_are_refused() {
    assert_eq!(deserialize_row(&[], 1), Err(RowError::End));
    assert_eq!(deserialize_row(&[99], 1), Err(RowError::UnknownTag(99)));
    let mut bytes = serialize_row(&vec![Value::Text("ab".into())]).unwrap();
    let last = bytes.len() - 1;
    bytes[last] = 0xFF;
    assert_eq!(deserialize_row(&bytes, 1), Err(RowError::Utf8));
    assert_eq!(deserialize_row(&bytes[..last], 1), Err(RowError::End));
}

#[test]
fn schemas_and_indexes_are_read_back() {
    let columns = vec![
        ColumnDef { name: "id".into(), data_type: DataType::Integer },
        ColumnDef { name: "code".into(), data_type: DataType::Char(300) },
    ];
    let bytes = encode_schema(7, &columns).unwrap();
    let (next, read) = match decode_schema(&bytes) {
        Ok(x) => x,
        Err(e) => panic!("{:?}", e),
    };
    assert_eq!(next, 7);
    assert_eq!(read.len(), 2);
    assert_eq!(read[0].name, "id");
    assert_eq!(read[0].data_type, DataType::Integer);
    assert_eq!(read[1].name, "code");
    assert_eq!(read[1].data_type, DataType::Char(300));
    let bytes = encode_index("users", "age").unwrap();
    assert_eq!(decode_index(&bytes).unwrap(), ("users".to_string(), "age".to_string()));
    for t in [DataType::Integer, DataType::Float, DataType::Text, DataType::Boolean] {
        assert_eq!(data_type_from_tag(type_tag(&t)), Ok(t));
    }
    assert_eq!(data_type_from_tag(200), Err(RowError::UnknownTag(200)));
}

#[test]
fn integer_keys_are_in_order() {
    let numbers = [i64::MIN, -300, -1, 0, 1, 255, 256, i64::MAX];
    for pair in numbers.windows(2) {
        let a = encode_value(&Value::Integer(pair[0]));
        let b = encode_value(&Value::Integer(pair[1]));
        assert_eq!(compare(&a, &b), Standing::Before);
    }
    assert_eq!(row_key(258), vec![0, 0, 0, 0, 0, 0, 1, 2]);
}

#[test]
fn index_ranges_hold_the_matches() {
    for n in [-2i64, 0, 7, i64::MAX] {
        for op in [Operator::Eq, Operator::Lt, Operator::Le, Operator::Gt, Operator::Ge] {
            let (start, end) = index_range(&op, &Value::Integer(7));
            let meets = match op {
                Operator::Eq => n == 7,
                Operator::Lt => n < 7,
                Operator::Le => n <= 7,
                Operator::Gt => n > 7,
                _ => n >= 7,
            };
            let key = index_row_key(&Value::Integer(n), 3);
            let inside = compare(&start, &key) != Standing::After
                && match &end {
                    Some(e) => compare(&key, e) == Standing::Before,
                    None => true,
                };
            assert!(inside || !meets);
        }
    }
}

#[test]
fn values_are_compared() {
    let f = |x: f64| Value::Float(x.to_bits());
    assert!(values_equal(&f(0.0), &f(-0.0)));
    assert!(!values_equal(&f(f64::NAN), &f(f64::NAN)));
    assert_eq!(compare_values(&f(-1.5), &f(2.0)), Some(Standing::Before));
    assert_eq!(compare_values(&f(f64::NAN), &f(2.0)), None);
    assert_eq!(compare_values(&f(f64::INFINITY), &f(f64::MAX)), Some(Standing::After));
    assert_eq!(compare_values(&Value::Integer(3), &Value::Integer(3)), Some(Standing::Same));
    assert_eq!(
        compare_values(&Value::Text("a".into()), &Value::Text("b".into())),
        Some(Standing::Before)
    );
}

#[test]
fn a_comparison_of_different_types_has_no_value() {
    let schema = vec![
        ColumnDef { name: "a".into(), data_type: DataType::Integer },
        ColumnDef { name: "c".into(), data_type: DataType::Char(2) },
    ];
    let row = vec![Value::Integer(1), Value::Char("x".into())];
    let text = Value::Text("x".into());
    for op in [Operator::Eq, Operator::Ne, Operator::Gt, Operator::Lt, Operator::Ge, Operator::Le] {
        assert_eq!(evaluate_condition("a", &op, &text, &row, &schema), None);
        assert_eq!(evaluate_condition("b", &op, &Value::Integer(1), &row, &schema), None);
    }
    assert_eq!(evaluate_condition("a", &Operator::Eq, &Value::Integer(1), &row, &schema), Some(true));
    assert_eq!(evaluate_condition("c", &Operator::Eq, &text, &row, &schema), Some(true));
}

#[test]
fn null_equals_null_and_nothing_else() {
    let schema = vec![
        ColumnDef { name: "a".into(), data_type: DataType::Integer },
        ColumnDef { name: "c".into(), data_type: DataType::Char(2) },
    ];
    let row = vec![Value::Integer(1), Value::Char("x".into())];
    let nothing = vec![Value::Null, Value::Null];
    let text = Value::Text("x".into());
    for column in ["a", "c"] {
        assert_eq!(evaluate_condition(column, &Operator::Eq, &Value::Null, &row, &schema), Some(false));
        assert_eq!(evaluate_condition(column, &Operator::Ne, &Value::Null, &row, &schema), Some(true));
        for value in [&text, &Value::Integer(1), &Value::Boolean(true)] {
            assert_eq!(evaluate_condition(column, &Operator::Eq, value, &nothing, &schema), Some(false));
            assert_eq!(evaluate_condition(column, &Operator::Ne, value, &nothing, &schema), Some(true));
        }
        assert_eq!(evaluate_condition(column, &Operator::Eq, &Value::Null, &nothing, &schema), Some(true));
        assert_eq!(evaluate_condition(column, &Operator::Ne, &Value::Null, &nothing, &schema), Some(false));
    }
}

#[test]
fn a_value_that_is_cut_off_is_refused() {
    for value in [
        Value::Integer(7),
        Value::Float(7),
        Value::Text("abc".into()),
        Value::Boolean(true),
        Value::Char("abc".into()),
    ] {
        let bytes = serialize_row(&vec![value]).unwrap();
        for n in 0..bytes.len() {
            assert_eq!(deserialize_row(&bytes[..n], 1), Err(RowError::End));
        }
    }
}

#[test]
fn a_value_is_read_back_from_among_other_bytes() {
    for value in [
        Value::Null,
        Value::Integer(-7),
        Value::Float(7),
        Value::Text("a\u{e9}c".into()),
        Value::Boolean(true),
        Value::Char("abc".into()),
    ] {
        let mut bytes = vec![9, 9, 9];
        assert!(serialize_value(&value, &mut bytes));
        let end = bytes.len();
        bytes.extend([3, 255, 0]);
        let (read, at) = deserialize_value(&bytes, 3).unwrap();
        assert_eq!(format!("{:?}", read), format!("{:?}", value));
        assert_eq!(at, end);
        for n in 3..end {
            assert!(matches!(deserialize_value(&bytes[..n], 3), Err(RowError::End)));
        }
    }
    assert!(matches!(deserialize_value(&[6], 0), Err(RowError::UnknownTag(6))));
    assert!(matches!(deserialize_value(&[3, 1, 0, 0, 0, 255], 0), Err(RowError::Utf8)));
}

fn equals(column: &str, n: i64) -> BoolExpr {
    BoolExpr::Comparison { column: column.into(), op: Operator::Eq, value: Value::Integer(n) }
}

fn shown(e: &BoolExpr) -> String {
    match e {
        BoolExpr::Comparison { column, value: Value::Integer(n), .. } => format!("{} = {}", column, n),
        BoolExpr::And(a, b) => format!("({} AND {})", shown(a), shown(b)),
        BoolExpr::Or(a, b) => format!("({} OR {})", shown(a), shown(b)),
        _ => panic!("no integer"),
    }
}

#[test]
fn conditions_go_to_the_tables_that_have_their_columns() {
    let int = |name: &str| ColumnDef { name: name.into(), data_type: DataType::Integer };
    let schemas = vec![vec![int("a")], vec![int("b")]];
    let mut locals = vec![None, Some(equals("b", 0))];
    let either = BoolExpr::Or(Box::new(equals("a", 1)), Box::new(equals("b", 2)));
    let expr = BoolExpr::And(
        Box::new(BoolExpr::And(Box::new(equals("b", 3)), Box::new(either))),
        Box::new(BoolExpr::And(Box::new(equals("a", 4)), Box::new(equals("c", 5)))),
    );
    let rest = split_expr(&expr, &schemas, &mut locals).unwrap();
    assert_eq!(locals[0].as_ref().map(shown).unwrap(), "a = 4");
    assert_eq!(locals[1].as_ref().map(shown).unwrap(), "(b = 0 AND b = 3)");
    assert_eq!(shown(&rest), "((a = 1 OR b = 2) AND c = 5)");
    let only = equals("a", 6);
    assert!(split_expr(&only, &schemas, &mut locals).is_none());
    assert_eq!(locals[0].as_ref().map(shown).unwrap(), "(a = 4 AND a = 6)");
}
