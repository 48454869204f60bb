//! Conditions: comparing values, and evaluating a WHERE clause on a row.
use vstd::prelude::*;

use crate::bytes::{group_order, standing_of, Standing};
use crate::sql::ast::{
    row_view, schema_view, BoolExpr, ColumnDef, ColumnView, ExprView, Operator, Value, ValueView,
};
use crate::text::{compare_texts, same_text, text_bytes, text_bytes_injective};

verus! {

/// The bits are those of no number.
pub open spec fn is_nan(b: u64) -> bool {
    (b & 0x7fff_ffff_ffff_ffff) > 0x7ff0_0000_0000_0000
}

/// Where a floating-point number stands among the others: its bits without the sign, negated if the
/// sign is set.
pub open spec fn float_rank(b: u64) -> int {
    if b < 0x8000_0000_0000_0000 {
        b as int
    } else {
        -((b & 0x7fff_ffff_ffff_ffff) as int)
    }
}

/// The values are equal: of the same kind, where strings with and without a width are of one kind.
pub open spec fn equal(a: ValueView, b: ValueView) -> bool {
    match (a, b) {
        (ValueView::Null, ValueView::Null) => true,
        (ValueView::Integer(x), ValueView::Integer(y)) => x == y,
        (ValueView::Float(x), ValueView::Float(y)) => !is_nan(x) && !is_nan(y) && float_rank(x) == float_rank(y),
        (ValueView::Text(x), ValueView::Text(y)) => x == y,
        (ValueView::Char(x), ValueView::Char(y)) => x == y,
        (ValueView::Text(x), ValueView::Char(y)) => x == y,
        (ValueView::Char(x), ValueView::Text(y)) => x == y,
        (ValueView::Boolean(x), ValueView::Boolean(y)) => x == y,
        _ => false,
    }
}

/// The values are of types that can be compared: the same one, where strings with and without a width
/// are of one type, and NULL is of every type.
pub open spec fn comparable(a: ValueView, b: ValueView) -> bool {
    match (a, b) {
        (ValueView::Null, _) => true,
        (_, ValueView::Null) => true,
        (ValueView::Integer(_), ValueView::Integer(_)) => true,
        (ValueView::Float(_), ValueView::Float(_)) => true,
        (ValueView::Boolean(_), ValueView::Boolean(_)) => true,
        (ValueView::Text(_) | ValueView::Char(_), ValueView::Text(_) | ValueView::Char(_)) => true,
        _ => false,
    }
}

/// How two numbers stand to each other.
pub open spec fn order_of(a: int, b: int) -> Standing {
    if a < b {
        Standing::Before
    } else if a == b {
        Standing::Same
    } else {
        Standing::After
    }
}

/// How two values stand to each other, if they can be ordered: numbers by size, strings by their
/// bytes.
pub open spec fn ordered(a: ValueView, b: ValueView) -> Option<Standing> {
    match (a, b) {
        (ValueView::Integer(x), ValueView::Integer(y)) => Some(order_of(x as int, y as int)),
        (ValueView::Float(x), ValueView::Float(y)) => if is_nan(x) || is_nan(y) {
            None
        } else {
            Some(order_of(float_rank(x), float_rank(y)))
        },
        (ValueView::Text(x), ValueView::Text(y)) => Some(standing_of(text_bytes(x), text_bytes(y))),
        (ValueView::Char(x), ValueView::Char(y)) => Some(standing_of(text_bytes(x), text_bytes(y))),
        (ValueView::Text(x), ValueView::Char(y)) => Some(standing_of(text_bytes(x), text_bytes(y))),
        (ValueView::Char(x), ValueView::Text(y)) => Some(standing_of(text_bytes(x), text_bytes(y))),
        _ => None,
    }
}

/// The first column of this name, at or after `i`.
pub open spec fn column_from(cols: Seq<ColumnView>, name: Seq<char>, i: int) -> Option<int>
    decreases cols.len() - i,
{
    if i < 0 || i >= cols.len() {
        None
    } else if cols[i].name == name {
        Some(i)
    } else {
        column_from(cols, name, i + 1)
    }
}

/// The first column of this name.
pub open spec fn column_of(cols: Seq<ColumnView>, name: Seq<char>) -> Option<int> {
    column_from(cols, name, 0)
}

/// The value of a comparison of two values. There is none where their types do not match, nor of an order
/// where they have none.
pub open spec fn compares(op: Operator, a: ValueView, b: ValueView) -> Option<bool> {
    match op {
        Operator::Eq => if comparable(a, b) {
            Some(equal(a, b))
        } else {
            None
        },
        Operator::Ne => if comparable(a, b) {
            Some(!equal(a, b))
        } else {
            None
        },
        Operator::Gt => match ordered(a, b) {
            None => None,
            Some(o) => Some(o == Standing::After),
        },
        Operator::Lt => match ordered(a, b) {
            None => None,
            Some(o) => Some(o == Standing::Before),
        },
        Operator::Ge => match ordered(a, b) {
            None => None,
            Some(o) => Some(o != Standing::Before),
        },
        Operator::Le => match ordered(a, b) {
            None => None,
            Some(o) => Some(o != Standing::After),
        },
    }
}

/// The value of a comparison on a row, if the row has the column and the values can be compared.
pub open spec fn condition_value(
    column: Seq<char>,
    op: Operator,
    value: ValueView,
    row: Seq<ValueView>,
    cols: Seq<ColumnView>,
) -> Option<bool> {
    match column_of(cols, column) {
        None => None,
        Some(i) => if i < row.len() {
            compares(op, row[i], value)
        } else {
            None
        },
    }
}

/// The value of a condition on a row. A part that has no value leaves the whole without one, unless
/// the part before it decides.
pub open spec fn expr_value(e: ExprView, row: Seq<ValueView>, cols: Seq<ColumnView>) -> Option<bool>
    decreases e,
{
    match e {
        ExprView::Comparison { column, op, value } => condition_value(column, op, value, row, cols),
        ExprView::And(a, b) => match expr_value(*a, row, cols) {
            Some(true) => expr_value(*b, row, cols),
            v => v,
        },
        ExprView::Or(a, b) => match expr_value(*a, row, cols) {
            Some(false) => expr_value(*b, row, cols),
            v => v,
        },
    }
}

/// The row meets the condition.
pub open spec fn meets(e: ExprView, row: Seq<ValueView>, cols: Seq<ColumnView>) -> bool {
    expr_value(e, row, cols) == Some(true)
}

/// The row meets the condition, if there is one.
pub open spec fn meets_opt(e: Option<ExprView>, row: Seq<ValueView>, cols: Seq<ColumnView>) -> bool {
    match e {
        None => true,
        Some(e) => meets(e, row, cols),
    }
}

/// What a found column is, and what a missing one means.
pub proof fn column_found(cols: Seq<ColumnView>, name: Seq<char>, i: int)
    requires
        0 <= i,
    ensures
        match column_from(cols, name, i) {
            Some(p) => {
                &&& i <= p < cols.len()
                &&& cols[p].name == name
                &&& forall|j: int| i <= j < p ==> (#[trigger] cols[j]).name != name
            },
            None => forall|j: int| i <= j < cols.len() ==> (#[trigger] cols[j]).name != name,
        },
    decreases cols.len() - i,
{
    if i < cols.len() && cols[i].name != name {
        column_found(cols, name, i + 1);
    }
}

/// The first column of a name is the only candidate before any other.
pub proof fn column_is(cols: Seq<ColumnView>, name: Seq<char>, i: int, p: int)
    requires
        0 <= i <= p < cols.len(),
        cols[p].name == name,
        forall|j: int| i <= j < p ==> (#[trigger] cols[j]).name != name,
    ensures
        column_from(cols, name, i) == Some(p),
{
    column_found(cols, name, i);
}

/// The first column of this name.
pub fn find_column(schema: &Vec<ColumnDef>, name: &str) -> (r: Option<usize>)
    ensures
        match r {
            Some(i) => column_of(schema_view(schema@), name@) == Some(i as int) && i < schema@.len(),
            None => column_of(schema_view(schema@), name@) is None,
        },
{
    let ghost cols = schema_view(schema@);
    let mut i: usize = 0;
    while i < schema.len()
        invariant
            i <= schema@.len(),
            cols == schema_view(schema@),
            column_of(cols, name@) == column_from(cols, name@, i as int),
        decreases schema@.len() - i,
    {
        assert(cols[i as int] == schema@[i as int]@);
        if same_text(schema[i].name.as_str(), name) {
            return Some(i);
        }
        i += 1;
    }
    None
}

fn is_nan_bits(b: u64) -> (r: bool)
    ensures
        r == is_nan(b),
{
    (b & 0x7fff_ffff_ffff_ffff) > 0x7ff0_0000_0000_0000
}

/// Compare two floating-point numbers that are numbers.
fn compare_floats(a: u64, b: u64) -> (r: Standing)
    ensures
        r == order_of(float_rank(a), float_rank(b)),
{
    let neg_a: bool = a >= 0x8000_0000_0000_0000;
    let neg_b: bool = b >= 0x8000_0000_0000_0000;
    let mag_a: u64 = a & 0x7fff_ffff_ffff_ffff;
    let mag_b: u64 = b & 0x7fff_ffff_ffff_ffff;
    proof {
        assert(a < 0x8000_0000_0000_0000 ==> a & 0x7fff_ffff_ffff_ffff == a) by (bit_vector);
        assert(b < 0x8000_0000_0000_0000 ==> b & 0x7fff_ffff_ffff_ffff == b) by (bit_vector);
    }
    if !neg_a && !neg_b {
        if mag_a < mag_b {
            Standing::Before
        } else if mag_a == mag_b {
            Standing::Same
        } else {
            Standing::After
        }
    } else if neg_a && neg_b {
        if mag_a > mag_b {
            Standing::Before
        } else if mag_a == mag_b {
            Standing::Same
        } else {
            Standing::After
        }
    } else if neg_a {
        if mag_a == 0 && mag_b == 0 {
            Standing::Same
        } else {
            Standing::Before
        }
    } else {
        if mag_a == 0 && mag_b == 0 {
            Standing::Same
        } else {
            Standing::After
        }
    }
}

/// Whether two values are equal.
pub fn values_equal(a: &Value, b: &Value) -> (r: bool)
    ensures
        r == equal(a@, b@),
{
    match (a, b) {
        (Value::Null, Value::Null) => true,
        (Value::Integer(x), Value::Integer(y)) => *x == *y,
        (Value::Float(x), Value::Float(y)) => !is_nan_bits(*x) && !is_nan_bits(*y) && matches!(
            compare_floats(*x, *y),
            Standing::Same
        ),
        (Value::Text(x), Value::Text(y)) => same_text(x.as_str(), y.as_str()),
        (Value::Char(x), Value::Char(y)) => same_text(x.as_str(), y.as_str()),
        (Value::Text(x), Value::Char(y)) => same_text(x.as_str(), y.as_str()),
        (Value::Char(x), Value::Text(y)) => same_text(x.as_str(), y.as_str()),
        (Value::Boolean(x), Value::Boolean(y)) => *x == *y,
        _ => false,
    }
}

/// How two values stand to each other, if they can be ordered.
pub fn compare_values(a: &Value, b: &Value) -> (r: Option<Standing>)
    ensures
        r == ordered(a@, b@),
{
    match (a, b) {
        (Value::Integer(x), Value::Integer(y)) => Some(
            if *x < *y {
                Standing::Before
            } else if *x == *y {
                Standing::Same
            } else {
                Standing::After
            },
        ),
        (Value::Float(x), Value::Float(y)) => if is_nan_bits(*x) || is_nan_bits(*y) {
            None
        } else {
            Some(compare_floats(*x, *y))
        },
        (Value::Text(x), Value::Text(y)) => Some(compare_texts(x.as_str(), y.as_str())),
        (Value::Char(x), Value::Char(y)) => Some(compare_texts(x.as_str(), y.as_str())),
        (Value::Text(x), Value::Char(y)) => Some(compare_texts(x.as_str(), y.as_str())),
        (Value::Char(x), Value::Text(y)) => Some(compare_texts(x.as_str(), y.as_str())),
        _ => None,
    }
}

/// Whether two values are of types that can be compared.
pub fn types_match(a: &Value, b: &Value) -> (r: bool)
    ensures
        r == comparable(a@, b@),
{
    match (a, b) {
        (Value::Null, _) => true,
        (_, Value::Null) => true,
        (Value::Integer(_), Value::Integer(_)) => true,
        (Value::Float(_), Value::Float(_)) => true,
        (Value::Boolean(_), Value::Boolean(_)) => true,
        (Value::Text(_), Value::Text(_)) => true,
        (Value::Text(_), Value::Char(_)) => true,
        (Value::Char(_), Value::Text(_)) => true,
        (Value::Char(_), Value::Char(_)) => true,
        _ => false,
    }
}

/// The value of a comparison on a row.
pub fn evaluate_condition(
    column: &str,
    op: &Operator,
    cond_val: &Value,
    row: &Vec<Value>,
    schema: &Vec<ColumnDef>,
) -> (r: Option<bool>)
    ensures
        r == condition_value(column@, *op, cond_val@, row_view(row@), schema_view(schema@)),
{
    let idx = match find_column(schema, column) {
        None => {
            return None;
        },
        Some(i) => i,
    };
    if idx >= row.len() {
        return None;
    }
    assert(row_view(row@)[idx as int] == row@[idx as int]@);
    let row_val = &row[idx];
    match op {
        Operator::Eq => if types_match(row_val, cond_val) {
            Some(values_equal(row_val, cond_val))
        } else {
            None
        },
        Operator::Ne => if types_match(row_val, cond_val) {
            Some(!values_equal(row_val, cond_val))
        } else {
            None
        },
        Operator::Gt => match compare_values(row_val, cond_val) {
            None => None,
            Some(o) => Some(o == Standing::After),
        },
        Operator::Lt => match compare_values(row_val, cond_val) {
            None => None,
            Some(o) => Some(o == Standing::Before),
        },
        Operator::Ge => match compare_values(row_val, cond_val) {
            None => None,
            Some(o) => Some(o != Standing::Before),
        },
        Operator::Le => match compare_values(row_val, cond_val) {
            None => None,
            Some(o) => Some(o != Standing::After),
        },
    }
}

/// The value of a condition on a row.
pub fn evaluate_expr(expr: &BoolExpr, row: &Vec<Value>, schema: &Vec<ColumnDef>) -> (r: Option<bool>)
    ensures
        r == expr_value(expr@, row_view(row@), schema_view(schema@)),
    decreases expr,
{
    match expr {
        BoolExpr::Comparison { column, op, value } => evaluate_condition(column.as_str(), op, value, row, schema),
        BoolExpr::And(left, right) => match evaluate_expr(left, row, schema) {
            Some(true) => evaluate_expr(right, row, schema),
            v => v,
        },
        BoolExpr::Or(left, right) => match evaluate_expr(left, row, schema) {
            Some(false) => evaluate_expr(right, row, schema),
            v => v,
        },
    }
}

/// Whether a row meets a condition.
pub fn row_meets(expr: &BoolExpr, row: &Vec<Value>, schema: &Vec<ColumnDef>) -> (r: bool)
    ensures
        r == meets(expr@, row_view(row@), schema_view(schema@)),
{
    match evaluate_expr(expr, row, schema) {
        Some(true) => true,
        _ => false,
    }
}

/// Two conditions joined by AND are met exactly if both are.
pub proof fn and_is_met_if_both_are(a: ExprView, b: ExprView, row: Seq<ValueView>, cols: Seq<ColumnView>)
    ensures
        meets(ExprView::And(Box::new(a), Box::new(b)), row, cols) <==> meets(a, row, cols) && meets(b, row, cols),
{
}

/// NULL is equal to NULL and to nothing else.
pub proof fn null_equals_null_alone(v: ValueView)
    ensures
        compares(Operator::Eq, v, ValueView::Null) == Some(v is Null),
        compares(Operator::Ne, v, ValueView::Null) == Some(!(v is Null)),
        compares(Operator::Eq, ValueView::Null, v) == Some(v is Null),
        compares(Operator::Ne, ValueView::Null, v) == Some(!(v is Null)),
{
}

/// Equality is symmetric.
pub proof fn equality_is_symmetric(a: ValueView, b: ValueView)
    ensures
        equal(a, b) == equal(b, a),
{
}

/// Values whose types do not match meet no comparison, whatever the operator.
pub proof fn mismatch_has_no_value(op: Operator, a: ValueView, b: ValueView)
    requires
        !comparable(a, b),
    ensures
        compares(op, a, b) is None,
        !equal(a, b),
        ordered(a, b) is None,
{
}

/// Of values that can be ordered, exactly one of smaller, equal and greater holds, and equality is
/// that of `=`.
pub proof fn order_agrees_with_equality(a: ValueView, b: ValueView)
    ensures
        ordered(a, b) matches Some(o) ==> (o == Standing::Same <==> equal(a, b)),
        ordered(a, b) is Some <==> ordered(b, a) is Some,
        ordered(a, b) matches Some(o) ==> (o == Standing::Before <==> ordered(b, a) == Some(Standing::After)),
{
    broadcast use group_order;

    match (a, b) {
        (ValueView::Text(x), ValueView::Text(y)) => {
            if text_bytes(x) == text_bytes(y) {
                text_bytes_injective(x, y);
            }
        },
        (ValueView::Char(x), ValueView::Char(y)) => {
            if text_bytes(x) == text_bytes(y) {
                text_bytes_injective(x, y);
            }
        },
        (ValueView::Text(x), ValueView::Char(y)) => {
            if text_bytes(x) == text_bytes(y) {
                text_bytes_injective(x, y);
            }
        },
        (ValueView::Char(x), ValueView::Text(y)) => {
            if text_bytes(x) == text_bytes(y) {
                text_bytes_injective(x, y);
            }
        },
        _ => {},
    }
}

} // verus!
