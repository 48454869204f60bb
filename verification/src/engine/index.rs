//! Index keys, and the range of an index in which the rows that meet a comparison are found.
use vstd::prelude::*;

use crate::bytes::{
    copy, empty_is_least, extension_keeps_order, group_order, le, lt, lt_total,
    order_by_first_difference, prefix_before, standing_of, Standing,
};
use crate::engine::condition::{column_of, compares, find_column};
use crate::engine::model::{encode, index_entry};
use crate::ints::{be64, be64_keeps_order, group_ints, le64, to_be64, to_le64};
use crate::sql::ast::{
    schema_view, BoolExpr, ColumnDef, ColumnView, DataType, ExprView, Operator, Value, ValueView,
};
use crate::storage::tree::in_range;
use crate::text::{bytes_of, same_text, text_bytes};

verus! {

/// The bits of an integer with the sign bit flipped, so that their order is that of the integers.
pub open spec fn int_code(n: i64) -> u64 {
    (n as u64) ^ 0x8000_0000_0000_0000
}

/// The bytes of the number behind `x`, if there is one.
pub open spec fn behind(x: u64) -> Option<Seq<u8>> {
    if x < u64::MAX {
        Some(be64((x + 1) as u64))
    } else {
        None
    }
}

/// The first string behind every extension of `b`, found by counting up the last byte.
pub open spec fn bumped(b: Seq<u8>) -> Option<Seq<u8>> {
    if b.len() == 0 || b.last() == 255 {
        None
    } else {
        Some(b.update(b.len() - 1, (b.last() + 1) as u8))
    }
}

/// The range of index keys to look at for a comparison with a value: from the first key on, up to
/// but without the second.
pub open spec fn scan_range(op: Operator, value: ValueView) -> (Seq<u8>, Option<Seq<u8>>) {
    match value {
        ValueView::Integer(n) => {
            let x = int_code(n);
            match op {
                Operator::Eq => (be64(x), behind(x)),
                Operator::Gt => (
                    match behind(x) {
                        Some(b) => b,
                        None => be64(x),
                    },
                    None,
                ),
                Operator::Lt => (Seq::empty(), Some(be64(x))),
                Operator::Ge => (be64(x), None),
                Operator::Le => (Seq::empty(), behind(x)),
                Operator::Ne => (Seq::empty(), None),
            }
        },
        ValueView::Text(s) => text_range(op, text_bytes(s)),
        ValueView::Char(s) => text_range(op, text_bytes(s)),
        _ => (Seq::empty(), None),
    }
}

/// The range of index keys to look at for a comparison with a string. A key that stands for a shorter
/// string can come behind that of a longer one, because a row number follows; so nothing bounds the
/// strings before a given one from above.
pub open spec fn text_range(op: Operator, b: Seq<u8>) -> (Seq<u8>, Option<Seq<u8>>) {
    match op {
        Operator::Eq => (b, bumped(b)),
        Operator::Gt => (b, None),
        Operator::Ge => (b, None),
        _ => (Seq::empty(), None),
    }
}

/// The codes of integers are ordered as the integers are.
pub proof fn int_code_keeps_order(a: i64, b: i64)
    ensures
        a < b <==> int_code(a) < int_code(b),
{
    assert(a < b <==> ((a as u64) ^ 0x8000_0000_0000_0000) < ((b as u64) ^ 0x8000_0000_0000_0000)) by (bit_vector);
}

/// The keys of integers are ordered as the integers are.
pub proof fn integer_keys_keep_order(a: i64, b: i64)
    requires
        a < b,
    ensures
        lt(encode(ValueView::Integer(a)), encode(ValueView::Integer(b))),
{
    int_code_keeps_order(a, b);
    be64_keeps_order(int_code(a), int_code(b));
}

proof fn before_extension(a: Seq<u8>, b: Seq<u8>, y: Seq<u8>)
    requires
        le(a, b),
    ensures
        le(a, b + y),
{
    broadcast use group_order;

    if y.len() == 0 {
        assert(b + y =~= b);
    } else {
        prefix_before(b, y);
    }
}

proof fn extension_before(a: Seq<u8>, b: Seq<u8>, y: Seq<u8>)
    requires
        a.len() == b.len(),
        lt(a, b),
    ensures
        lt(a + y, b),
{
    extension_keeps_order(a, b, y, Seq::empty());
    assert(b + Seq::<u8>::empty() =~= b);
}

proof fn empty_first(k: Seq<u8>)
    ensures
        le(Seq::empty(), k),
{
    empty_is_least(k);
    lt_total(Seq::empty(), k);
}

/// An index key whose value meets a comparison lies in the range that is looked at for it.
pub proof fn range_holds_matches(op: Operator, value: ValueView, v: ValueView, id: u64)
    requires
        compares(op, v, value) == Some(true),
    ensures
        in_range(index_entry(v, id), scan_range(op, value).0, scan_range(op, value).1),
{
    broadcast use {group_ints, group_order};

    let k = index_entry(v, id);
    let y = le64(id);
    empty_first(k);
    match value {
        ValueView::Integer(n) => {
            let x = int_code(n);
            match v {
                ValueView::Integer(m) => {
                    let z = int_code(m);
                    int_code_keeps_order(m, n);
                    int_code_keeps_order(n, m);
                    assert(m == n ==> z == x);
                    assert(k == be64(z) + y);
                    if x < z {
                        be64_keeps_order(x, z);
                        if x + 1 < z {
                            be64_keeps_order((x + 1) as u64, z);
                        }
                    }
                    if z < x {
                        be64_keeps_order(z, x);
                        extension_before(be64(z), be64(x), y);
                    }
                    if z <= x && x < u64::MAX {
                        be64_keeps_order(z, (x + 1) as u64);
                        extension_before(be64(z), be64((x + 1) as u64), y);
                    }
                    before_extension(be64(z), be64(z), y);
                    if x <= z {
                        before_extension(be64(x), be64(z), y);
                        if x < z {
                            before_extension(be64((x + 1) as u64), be64(z), y);
                        }
                    }
                },
                _ => {},
            }
        },
        ValueView::Text(s) => {
            match v {
                ValueView::Text(t) => {
                    text_match_in_range(op, s, t, y);
                },
                ValueView::Char(t) => {
                    text_match_in_range(op, s, t, y);
                },
                _ => {},
            }
        },
        ValueView::Char(s) => {
            match v {
                ValueView::Text(t) => {
                    text_match_in_range(op, s, t, y);
                },
                ValueView::Char(t) => {
                    text_match_in_range(op, s, t, y);
                },
                _ => {},
            }
        },
        _ => {},
    }
}

proof fn text_match_in_range(op: Operator, s: Seq<char>, t: Seq<char>, y: Seq<u8>)
    requires
        match op {
            Operator::Eq => s == t,
            Operator::Gt => standing_of(text_bytes(t), text_bytes(s)) == Standing::After,
            Operator::Ge => standing_of(text_bytes(t), text_bytes(s)) != Standing::Before,
            _ => true,
        },
    ensures
        in_range(text_bytes(t) + y, text_range(op, text_bytes(s)).0, text_range(op, text_bytes(s)).1),
{
    broadcast use group_order;

    let a = text_bytes(s);
    let b = text_bytes(t);
    empty_first(b + y);
    if op is Eq || op is Gt || op is Ge {
        before_extension(a, b, y);
    }
    if op is Eq && bumped(a) is Some {
        let c = bumped(a)->Some_0;
        assert forall|j: int| 0 <= j < a.len() - 1 implies (a + y)[j] == c[j] by {}
        order_by_first_difference(a + y, c, a.len() - 1);
    }
}

/// A value as a key.
pub fn encode_value(value: &Value) -> (r: Vec<u8>)
    ensures
        r@ == encode(value@),
{
    match value {
        Value::Integer(n) => to_be64((#[verifier::truncate] (*n as u64)) ^ 0x8000_0000_0000_0000),
        Value::Float(b) => to_be64(*b),
        Value::Text(s) => copy(bytes_of(s.as_str())),
        Value::Char(s) => copy(bytes_of(s.as_str())),
        Value::Boolean(b) => {
            let r: Vec<u8> = vec![if *b { 1u8 } else { 0u8 }];
            assert(r@ =~= encode(value@));
            r
        },
        Value::Null => {
            let r: Vec<u8> = Vec::new();
            assert(r@ =~= Seq::empty());
            r
        },
    }
}

/// The key of a row.
pub fn row_key(id: u64) -> (r: Vec<u8>)
    ensures
        r@ == be64(id),
{
    to_be64(id)
}

/// The key that an index has for a row with this value.
pub fn index_row_key(value: &Value, id: u64) -> (r: Vec<u8>)
    ensures
        r@ == index_entry(value@, id),
{
    let mut k = encode_value(value);
    let tail = to_le64(id);
    k.extend_from_slice(tail.as_slice());
    k
}

fn bump(b: &Vec<u8>) -> (r: Option<Vec<u8>>)
    ensures
        match r {
            Some(c) => bumped(b@) == Some(c@),
            None => bumped(b@) is None,
        },
{
    let n: usize = b.len();
    if n == 0 || b[n - 1] == 255 {
        return None;
    }
    let mut c = copy(b.as_slice());
    let last: u8 = c[n - 1];
    c.set(n - 1, last + 1);
    Some(c)
}

/// The bytes of the number behind `x`, if there is one.
fn next_code(x: u64) -> (r: Option<Vec<u8>>)
    ensures
        match r {
            Some(c) => behind(x) == Some(c@),
            None => behind(x) is None,
        },
{
    if x < u64::MAX {
        Some(to_be64(x + 1))
    } else {
        None
    }
}

/// The upper end of a range by its view.
pub open spec fn upper_view(end: Option<Vec<u8>>) -> Option<Seq<u8>> {
    match end {
        None => None,
        Some(e) => Some(e@),
    }
}

/// The range of index keys to look at for a comparison with a value.
pub fn index_range(op: &Operator, value: &Value) -> (r: (Vec<u8>, Option<Vec<u8>>))
    ensures
        (r.0@, upper_view(r.1)) == scan_range(*op, value@),
{
    let empty: Vec<u8> = Vec::new();
    assert(empty@ =~= Seq::empty());
    match value {
        Value::Integer(n) => {
            let x: u64 = (#[verifier::truncate] (*n as u64)) ^ 0x8000_0000_0000_0000;
            match op {
                Operator::Eq => (to_be64(x), next_code(x)),
                Operator::Gt => match next_code(x) {
                    Some(b) => (b, None),
                    None => (to_be64(x), None),
                },
                Operator::Lt => (empty, Some(to_be64(x))),
                Operator::Ge => (to_be64(x), None),
                Operator::Le => (empty, next_code(x)),
                Operator::Ne => (empty, None),
            }
        },
        Value::Text(s) => text_scan_range(op, s),
        Value::Char(s) => text_scan_range(op, s),
        _ => (empty, None),
    }
}

fn text_scan_range(op: &Operator, s: &String) -> (r: (Vec<u8>, Option<Vec<u8>>))
    ensures
        (r.0@, upper_view(r.1)) == text_range(*op, text_bytes(s@)),
{
    let b = copy(bytes_of(s.as_str()));
    match op {
        Operator::Eq => {
            let end = bump(&b);
            (b, end)
        },
        Operator::Gt => (b, None),
        Operator::Ge => (b, None),
        _ => {
            let empty: Vec<u8> = Vec::new();
            assert(empty@ =~= Seq::empty());
            (empty, None)
        },
    }
}

/// Whether an index can serve a comparison: not for inequality, and only on integer and text columns.
pub fn can_use_index(column: &str, op: &Operator, schema: &Vec<ColumnDef>, indexes: &Vec<(String, String)>) -> (r: bool)
    ensures
        r == usable(column@, *op, schema_view(schema@), indexes@),
{
    if *op == Operator::Ne {
        return false;
    }
    match find_column(schema, column) {
        None => {
            return false;
        },
        Some(p) => {
            assert(schema_view(schema@)[p as int] == schema@[p as int]@);
            match schema[p].data_type {
                DataType::Integer => {},
                DataType::Text => {},
                _ => {
                    return false;
                },
            }
        },
    }
    find_index(column, indexes).is_some()
}

/// The first index on a column, at or after `i`.
pub open spec fn index_from(column: Seq<char>, indexes: Seq<(String, String)>, i: int) -> Option<int>
    decreases indexes.len() - i,
{
    if i < 0 || i >= indexes.len() {
        None
    } else if indexes[i].1@ == column {
        Some(i)
    } else {
        index_from(column, indexes, i + 1)
    }
}

/// An index can serve a comparison.
pub open spec fn usable(
    column: Seq<char>,
    op: Operator,
    cols: Seq<ColumnView>,
    indexes: Seq<(String, String)>,
) -> bool {
    &&& op != Operator::Ne
    &&& column_of(cols, column) matches Some(p)
    &&& cols[p].data_type == DataType::Integer || cols[p].data_type == DataType::Text
    &&& index_from(column, indexes, 0) is Some
}

/// The first index on a column.
pub fn find_index(column: &str, indexes: &Vec<(String, String)>) -> (r: Option<usize>)
    ensures
        match r {
            Some(i) => index_from(column@, indexes@, 0) == Some(i as int) && i < indexes@.len() && indexes@[i as int].1@
                == column@,
            None => index_from(column@, indexes@, 0) is None,
        },
{
    let mut i: usize = 0;
    while i < indexes.len()
        invariant
            i <= indexes@.len(),
            index_from(column@, indexes@, 0) == index_from(column@, indexes@, i as int),
        decreases indexes@.len() - i,
    {
        if same_text(indexes[i].1.as_str(), column) {
            return Some(i);
        }
        i += 1;
    }
    None
}

/// The parts of a condition that is a single comparison.
pub fn as_single_comparison(expr: &BoolExpr) -> (r: Option<(&str, &Operator, &Value)>)
    ensures
        match r {
            Some((column, op, value)) => expr@ == (ExprView::Comparison { column: column@, op: *op, value: value@ }),
            None => !(expr@ is Comparison),
        },
{
    match expr {
        BoolExpr::Comparison { column, op, value } => Some((column.as_str(), op, value)),
        _ => None,
    }
}

} // verus!
