//! What holds of comparisons and conditions.
use vstd::arithmetic::power2::{lemma_pow2_adds, lemma_pow2_pos, lemma_pow2_strictly_increases, pow2};
use vstd::prelude::*;

use crate::bytes::{group_order, order_by_first_difference, prefix_before, Standing};
use crate::engine::condition::{
    column_found, column_is, comparable, compares, equal, equality_is_symmetric, expr_value, is_nan,
    meets, meets_opt, order_agrees_with_equality, ordered,
};
use crate::sql::ast::{ColumnView, ExprView, Operator, ValueView};
use crate::text::text_bytes;

verus! {

/// A value that is a string, with a width or without.
pub open spec fn is_string(v: ValueView) -> bool {
    v is Text || v is Char
}

/// The characters of a string value.
pub open spec fn string_in(v: ValueView) -> Seq<char> {
    match v {
        ValueView::Text(s) => s,
        ValueView::Char(s) => s,
        _ => Seq::empty(),
    }
}

/// Integers compare by size, under each of the operators.
pub proof fn integers_compare_by_size(x: i64, y: i64)
    ensures
        compares(Operator::Eq, ValueView::Integer(x), ValueView::Integer(y)) == Some(x == y),
        compares(Operator::Ne, ValueView::Integer(x), ValueView::Integer(y)) == Some(x != y),
        compares(Operator::Gt, ValueView::Integer(x), ValueView::Integer(y)) == Some(x > y),
        compares(Operator::Lt, ValueView::Integer(x), ValueView::Integer(y)) == Some(x < y),
        compares(Operator::Ge, ValueView::Integer(x), ValueView::Integer(y)) == Some(x >= y),
        compares(Operator::Le, ValueView::Integer(x), ValueView::Integer(y)) == Some(x <= y),
{
}

/// Booleans are equal or not, and have no order.
pub proof fn booleans_have_no_order(x: bool, y: bool)
    ensures
        compares(Operator::Eq, ValueView::Boolean(x), ValueView::Boolean(y)) == Some(x == y),
        compares(Operator::Ne, ValueView::Boolean(x), ValueView::Boolean(y)) == Some(x != y),
        compares(Operator::Gt, ValueView::Boolean(x), ValueView::Boolean(y)) is None,
        compares(Operator::Lt, ValueView::Boolean(x), ValueView::Boolean(y)) is None,
        compares(Operator::Ge, ValueView::Boolean(x), ValueView::Boolean(y)) is None,
        compares(Operator::Le, ValueView::Boolean(x), ValueView::Boolean(y)) is None,
{
}

/// Strings are equal if their characters are, whether or not they have a width.
pub proof fn strings_are_equal_by_characters(a: ValueView, b: ValueView)
    requires
        is_string(a),
        is_string(b),
    ensures
        compares(Operator::Eq, a, b) == Some(string_in(a) == string_in(b)),
        compares(Operator::Ne, a, b) == Some(string_in(a) != string_in(b)),
{
}

/// Of two strings that part at a byte, or where one ends, the one with the smaller byte, or the one that
/// ends, is the smaller.
pub proof fn strings_compare_by_first_difference(a: ValueView, b: ValueView, k: int)
    requires
        is_string(a),
        is_string(b),
        0 <= k <= text_bytes(string_in(a)).len(),
        k < text_bytes(string_in(b)).len(),
        text_bytes(string_in(a)).take(k) == text_bytes(string_in(b)).take(k),
        k < text_bytes(string_in(a)).len() ==> text_bytes(string_in(a))[k] < text_bytes(string_in(b))[k],
    ensures
        compares(Operator::Lt, a, b) == Some(true),
        compares(Operator::Le, a, b) == Some(true),
        compares(Operator::Gt, a, b) == Some(false),
        compares(Operator::Ge, a, b) == Some(false),
        compares(Operator::Gt, b, a) == Some(true),
        compares(Operator::Ge, b, a) == Some(true),
        compares(Operator::Lt, b, a) == Some(false),
        compares(Operator::Le, b, a) == Some(false),
{
    broadcast use group_order;

    let x = text_bytes(string_in(a));
    let y = text_bytes(string_in(b));
    assert forall|j: int| 0 <= j < k implies x[j] == y[j] by {
        assert(x.take(k)[j] == y.take(k)[j]);
    }
    if k < x.len() {
        order_by_first_difference(x, y, k);
    } else {
        assert(y =~= x + y.skip(k));
        prefix_before(x, y.skip(k));
    }
}

/// A string is neither smaller nor greater than itself.
pub proof fn string_is_not_before_itself(a: ValueView, b: ValueView)
    requires
        is_string(a),
        is_string(b),
        string_in(a) == string_in(b),
    ensures
        compares(Operator::Lt, a, b) == Some(false),
        compares(Operator::Gt, a, b) == Some(false),
        compares(Operator::Le, a, b) == Some(true),
        compares(Operator::Ge, a, b) == Some(true),
{
    broadcast use group_order;

}

/// Which values have an order: integers, numbers with a decimal point that are numbers, and strings, each
/// among themselves. All four operators of order have a value on them, and none has one on others.
pub proof fn values_that_have_an_order(a: ValueView, b: ValueView)
    ensures
        ({
            let has = (a is Integer && b is Integer) || (is_string(a) && is_string(b)) || (a is Float && b is Float
                && !is_nan(a->Float_0) && !is_nan(b->Float_0));
            &&& compares(Operator::Lt, a, b) is Some == has
            &&& compares(Operator::Gt, a, b) is Some == has
            &&& compares(Operator::Le, a, b) is Some == has
            &&& compares(Operator::Ge, a, b) is Some == has
        }),
{
}

/// Which values can be asked to be equal: those of one type, where strings are of one type whether or not
/// they have a width, and NULL is of every type.
pub proof fn values_that_can_be_equal(a: ValueView, b: ValueView)
    ensures
        ({
            let has = a is Null || b is Null || (a is Integer && b is Integer) || (a is Float && b is Float) || (
            a is Boolean && b is Boolean) || (is_string(a) && is_string(b));
            &&& compares(Operator::Eq, a, b) is Some == has
            &&& compares(Operator::Ne, a, b) is Some == has
        }),
{
}

/// How the operators go together: `!=` denies `=`, `>=` is `>` or `=` and denies `<`, `<=` is `<` or `=`
/// and denies `>`, and `a < b` is `b > a`.
pub proof fn operators_agree(a: ValueView, b: ValueView)
    ensures
        compares(Operator::Eq, a, b) matches Some(v) ==> compares(Operator::Ne, a, b) == Some(!v),
        compares(Operator::Ne, a, b) matches Some(v) ==> compares(Operator::Eq, a, b) == Some(!v),
        compares(Operator::Ge, a, b) matches Some(v) ==> {
            &&& v == (compares(Operator::Gt, a, b) == Some(true) || compares(Operator::Eq, a, b) == Some(true))
            &&& compares(Operator::Lt, a, b) == Some(!v)
        },
        compares(Operator::Le, a, b) matches Some(v) ==> {
            &&& v == (compares(Operator::Lt, a, b) == Some(true) || compares(Operator::Eq, a, b) == Some(true))
            &&& compares(Operator::Gt, a, b) == Some(!v)
        },
        compares(Operator::Lt, a, b) == compares(Operator::Gt, b, a),
        compares(Operator::Le, a, b) == compares(Operator::Ge, b, a),
        compares(Operator::Eq, a, b) == compares(Operator::Eq, b, a),
{
    broadcast use group_order;

    order_agrees_with_equality(a, b);
    order_agrees_with_equality(b, a);
    equality_is_symmetric(a, b);
}

/// Equality and order are those that the operators ask for.
pub proof fn operators_ask_for_equality_and_order(a: ValueView, b: ValueView)
    ensures
        equal(a, b) <==> compares(Operator::Eq, a, b) == Some(true),
        ordered(a, b) == Some(Standing::Before) <==> compares(Operator::Lt, a, b) == Some(true),
        ordered(a, b) == Some(Standing::After) <==> compares(Operator::Gt, a, b) == Some(true),
        ordered(a, b) is Some <==> compares(Operator::Le, a, b) is Some,
        comparable(a, b) <==> compares(Operator::Ne, a, b) is Some,
{
}

/// The exponent of a floating-point number, as its bits have it.
pub open spec fn exponent(b: u64) -> int {
    (b as int % 0x8000_0000_0000_0000) / 0x10_0000_0000_0000
}

/// The fraction of a floating-point number, as its bits have it.
pub open spec fn fraction(b: u64) -> int {
    b as int % 0x10_0000_0000_0000
}

/// The value of a finite floating-point number as a multiple of the smallest one above zero.
pub open spec fn units(b: u64) -> int {
    let size = if exponent(b) == 0 {
        fraction(b)
    } else {
        (0x10_0000_0000_0000 + fraction(b)) * pow2((exponent(b) - 1) as nat)
    };
    if b < 0x8000_0000_0000_0000 {
        size
    } else {
        -size
    }
}

/// Finite numbers with a decimal point compare by their values.
pub proof fn floats_compare_by_value(x: u64, y: u64)
    requires
        exponent(x) < 2047,
        exponent(y) < 2047,
    ensures
        compares(Operator::Eq, ValueView::Float(x), ValueView::Float(y)) == Some(units(x) == units(y)),
        compares(Operator::Ne, ValueView::Float(x), ValueView::Float(y)) == Some(units(x) != units(y)),
        compares(Operator::Lt, ValueView::Float(x), ValueView::Float(y)) == Some(units(x) < units(y)),
        compares(Operator::Gt, ValueView::Float(x), ValueView::Float(y)) == Some(units(x) > units(y)),
        compares(Operator::Le, ValueView::Float(x), ValueView::Float(y)) == Some(units(x) <= units(y)),
        compares(Operator::Ge, ValueView::Float(x), ValueView::Float(y)) == Some(units(x) >= units(y)),
{
    without_sign(x);
    without_sign(y);
    units_bounded(x);
    units_bounded(y);
    let m = x as int % 0x8000_0000_0000_0000;
    let n = y as int % 0x8000_0000_0000_0000;
    if m < n {
        units_grow(x, y);
    } else if n < m {
        units_grow(y, x);
    } else {
        assert(exponent(x) == exponent(y) && fraction(x) == fraction(y));
    }
}

/// What is no number equals nothing and has no order; an infinite number is beyond every finite one.
pub proof fn infinite_and_no_number(x: u64, y: u64)
    requires
        exponent(x) == 2047,
    ensures
        fraction(x) != 0 ==> {
            &&& compares(Operator::Eq, ValueView::Float(x), ValueView::Float(y)) == Some(false)
            &&& compares(Operator::Ne, ValueView::Float(x), ValueView::Float(y)) == Some(true)
            &&& compares(Operator::Lt, ValueView::Float(x), ValueView::Float(y)) is None
            &&& compares(Operator::Lt, ValueView::Float(y), ValueView::Float(x)) is None
        },
        fraction(x) == 0 && exponent(y) < 2047 ==> {
            &&& compares(Operator::Lt, ValueView::Float(x), ValueView::Float(y)) == Some(x >= 0x8000_0000_0000_0000)
            &&& compares(Operator::Gt, ValueView::Float(x), ValueView::Float(y)) == Some(x < 0x8000_0000_0000_0000)
            &&& compares(Operator::Eq, ValueView::Float(x), ValueView::Float(y)) == Some(false)
        },
{
    without_sign(x);
    without_sign(y);
}

proof fn without_sign(b: u64)
    ensures
        (b & 0x7fff_ffff_ffff_ffff) as int == b as int % 0x8000_0000_0000_0000,
        is_nan(b) == (exponent(b) == 2047 && fraction(b) != 0),
        fraction(b) == (b as int % 0x8000_0000_0000_0000) % 0x10_0000_0000_0000,
{
    assert(b & 0x7fff_ffff_ffff_ffff == b % 0x8000_0000_0000_0000) by (bit_vector);
}

proof fn units_bounded(x: u64)
    ensures
        x < 0x8000_0000_0000_0000 ==> units(x) >= 0,
        x >= 0x8000_0000_0000_0000 ==> units(x) <= 0,
        units(x) == 0 <==> x as int % 0x8000_0000_0000_0000 == 0,
{
    without_sign(x);
    if exponent(x) > 0 {
        let p = pow2((exponent(x) - 1) as nat);
        let m = 0x10_0000_0000_0000 + fraction(x);
        lemma_pow2_pos((exponent(x) - 1) as nat);
        assert(m * p > 0) by (nonlinear_arith)
            requires
                m > 0,
                p > 0,
        ;
    }
}

/// Numbers of the same sign are the farther from zero the greater their other bits are.
proof fn units_grow(x: u64, y: u64)
    requires
        x as int % 0x8000_0000_0000_0000 < y as int % 0x8000_0000_0000_0000,
        exponent(y) < 2047,
    ensures
        x < 0x8000_0000_0000_0000 && y < 0x8000_0000_0000_0000 ==> units(x) < units(y),
        x >= 0x8000_0000_0000_0000 && y >= 0x8000_0000_0000_0000 ==> units(x) > units(y),
{
    without_sign(x);
    without_sign(y);
    let d = 0x10_0000_0000_0000int;
    let (e, g) = (exponent(x), exponent(y));
    let (m, n) = (fraction(x), fraction(y));
    let a = if e == 0 {
        m
    } else {
        (d + m) * pow2((e - 1) as nat)
    };
    let b = if g == 0 {
        n
    } else {
        (d + n) * pow2((g - 1) as nat)
    };
    assert(a < b) by {
        if e == g {
            if e > 0 {
                let p = pow2((e - 1) as nat) as int;
                lemma_pow2_pos((e - 1) as nat);
                assert((d + m) * p < (d + n) * p) by (nonlinear_arith)
                    requires
                        m < n,
                        p > 0,
                ;
            }
        } else {
            let p = pow2((g - 1) as nat) as int;
            lemma_pow2_pos((g - 1) as nat);
            assert((d + n) * p >= d * p) by (nonlinear_arith)
                requires
                    n >= 0,
                    p > 0,
            ;
            if e == 0 {
                assert(d * p >= d) by (nonlinear_arith)
                    requires
                        d > 0,
                        p > 0,
                ;
            } else {
                let q = pow2((e - 1) as nat) as int;
                lemma_pow2_pos((e - 1) as nat);
                lemma_pow2_adds((e - 1) as nat, 1);
                assert(pow2(1) == 2) by {
                    vstd::arithmetic::power2::lemma2_to64();
                }
                if e < g - 1 {
                    lemma_pow2_strictly_increases(e as nat, (g - 1) as nat);
                }
                assert(p >= 2 * q);
                assert((d + m) * q < d * p) by (nonlinear_arith)
                    requires
                        m < d,
                        d > 0,
                        q > 0,
                        p >= 2 * q,
                ;
            }
        }
    }
}

/// A comparison on a row is of the value in the first column of the name.
pub proof fn comparison_is_of_the_named_column(
    column: Seq<char>,
    op: Operator,
    value: ValueView,
    row: Seq<ValueView>,
    cols: Seq<ColumnView>,
    p: int,
)
    requires
        0 <= p < cols.len(),
        p < row.len(),
        cols[p].name == column,
        forall|j: int| 0 <= j < p ==> (#[trigger] cols[j]).name != column,
    ensures
        expr_value(ExprView::Comparison { column, op, value }, row, cols) == compares(op, row[p], value),
        meets(ExprView::Comparison { column, op, value }, row, cols) <==> compares(op, row[p], value) == Some(true),
{
    column_is(cols, column, 0, p);
}

/// A comparison with a column that does not exist is not met.
pub proof fn comparison_needs_its_column(
    column: Seq<char>,
    op: Operator,
    value: ValueView,
    row: Seq<ValueView>,
    cols: Seq<ColumnView>,
)
    requires
        forall|j: int| 0 <= j < cols.len() ==> (#[trigger] cols[j]).name != column,
    ensures
        expr_value(ExprView::Comparison { column, op, value }, row, cols) is None,
{
    column_found(cols, column, 0);
}

/// An integer in a row meets each comparison with another one by size.
pub proof fn integer_column_compares_by_size(
    column: Seq<char>,
    op: Operator,
    x: i64,
    y: i64,
    row: Seq<ValueView>,
    cols: Seq<ColumnView>,
    p: int,
)
    requires
        0 <= p < cols.len(),
        p < row.len(),
        cols[p].name == column,
        forall|j: int| 0 <= j < p ==> (#[trigger] cols[j]).name != column,
        row[p] == ValueView::Integer(x),
    ensures
        meets(ExprView::Comparison { column, op, value: ValueView::Integer(y) }, row, cols) <==> match op {
            Operator::Eq => x == y,
            Operator::Ne => x != y,
            Operator::Gt => x > y,
            Operator::Lt => x < y,
            Operator::Ge => x >= y,
            Operator::Le => x <= y,
        },
{
    column_is(cols, column, 0, p);
}

/// The values of conditions joined by AND and by OR: those of logic where both parts have one, a part that
/// decides alone needs no other, and a first part without a value leaves the whole without one.
pub proof fn and_or_follow_logic(a: ExprView, b: ExprView, row: Seq<ValueView>, cols: Seq<ColumnView>)
    ensures
        ({
            let x = expr_value(a, row, cols);
            let y = expr_value(b, row, cols);
            let both = expr_value(ExprView::And(Box::new(a), Box::new(b)), row, cols);
            let either = expr_value(ExprView::Or(Box::new(a), Box::new(b)), row, cols);
            &&& x is Some && y is Some ==> both == Some(x->Some_0 && y->Some_0) && either == Some(
                x->Some_0 || y->Some_0,
            )
            &&& x == Some(false) ==> both == Some(false)
            &&& x == Some(true) ==> either == Some(true)
            &&& x == Some(true) && y is None ==> both is None
            &&& x == Some(false) && y is None ==> either is None
            &&& x is None ==> both is None && either is None
        }),
{
}

/// A row meets conditions joined by OR if it meets the first, or does not meet it and meets the second.
pub proof fn or_is_met_by_either(a: ExprView, b: ExprView, row: Seq<ValueView>, cols: Seq<ColumnView>)
    ensures
        meets(ExprView::Or(Box::new(a), Box::new(b)), row, cols) ==> meets(a, row, cols) || meets(b, row, cols),
        meets(a, row, cols) ==> meets(ExprView::Or(Box::new(a), Box::new(b)), row, cols),
        meets(b, row, cols) && expr_value(a, row, cols) is Some ==> meets(
            ExprView::Or(Box::new(a), Box::new(b)),
            row,
            cols,
        ),
{
}

/// Without a condition every row is taken.
pub proof fn no_condition_takes_all(row: Seq<ValueView>, cols: Seq<ColumnView>)
    ensures
        meets_opt(None, row, cols),
{
}

} // verus!
