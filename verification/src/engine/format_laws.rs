//! How values, rows and the descriptions of tables and indexes are laid out as bytes.
use vstd::prelude::*;
use vstd::string::*;
use vstd::utf8::*;

use crate::bytes::lt;
use crate::engine::meta::type_of_tag;
use crate::engine::model::{
    column_bytes, columns_bytes, encode, ikey, index_entry, index_meta, table_meta, tag_of, tkey,
    IndexView,
};
use crate::engine::row::{row_bytes, value_at, value_bytes, value_storable, RowError};
use crate::ints::{be64, be64_keeps_order, le16, le32, le64, of_le32};
use crate::sql::ast::{ColumnView, DataType, ValueView};
use crate::storage::format_laws::{least_byte_first, most_byte_first, number_of};
use crate::text::text_bytes;

verus! {

/// A value: a byte that tells its type, and what belongs to it.
pub proof fn value_layout(v: ValueView)
    requires
        value_storable(v),
    ensures
        ({
            let b = value_bytes(v);
            match v {
                ValueView::Null => b == seq![0u8],
                ValueView::Integer(n) => b.len() == 9 && b[0] == 1 && number_of(b.skip(1)) == n as u64,
                ValueView::Float(x) => b.len() == 9 && b[0] == 2 && number_of(b.skip(1)) == x,
                ValueView::Text(s) => b.len() == 5 + text_bytes(s).len() && b[0] == 3 && number_of(b.subrange(1, 5))
                    == text_bytes(s).len() && b.skip(5) == text_bytes(s),
                ValueView::Boolean(x) => b.len() == 2 && b[0] == 4 && (b[1] == 1 <==> x) && (b[1] == 0 <==> !x),
                ValueView::Char(s) => b.len() == 5 + text_bytes(s).len() && b[0] == 5 && number_of(b.subrange(1, 5))
                    == text_bytes(s).len() && b.skip(5) == text_bytes(s),
            }
        }),
{
    let b = value_bytes(v);
    match v {
        ValueView::Integer(n) => {
            least_byte_first(0, 0, n as u64);
            assert(b.skip(1) =~= le64(n as u64));
        },
        ValueView::Float(x) => {
            least_byte_first(0, 0, x);
            assert(b.skip(1) =~= le64(x));
        },
        ValueView::Text(s) => {
            least_byte_first(0, text_bytes(s).len() as u32, 0);
            assert(b.subrange(1, 5) =~= le32(text_bytes(s).len() as u32));
            assert(b.skip(5) =~= text_bytes(s));
        },
        ValueView::Char(s) => {
            least_byte_first(0, text_bytes(s).len() as u32, 0);
            assert(b.subrange(1, 5) =~= le32(text_bytes(s).len() as u32));
            assert(b.skip(5) =~= text_bytes(s));
        },
        _ => {},
    }
}

/// A row: its values one behind the other.
pub proof fn row_layout(a: Seq<ValueView>, b: Seq<ValueView>, v: ValueView)
    ensures
        row_bytes(a + b) == row_bytes(a) + row_bytes(b),
        row_bytes(seq![v]) == value_bytes(v),
        row_bytes(Seq::empty()) == Seq::<u8>::empty(),
    decreases b.len(),
{
    assert(row_bytes(Seq::empty()) =~= Seq::<u8>::empty());
    assert(seq![v].drop_last() =~= Seq::<ValueView>::empty());
    assert(row_bytes(seq![v]) == row_bytes(seq![v].drop_last()) + value_bytes(v));
    assert(row_bytes(seq![v]) =~= value_bytes(v));
    if b.len() == 0 {
        assert(a + b =~= a);
        assert(row_bytes(a) + row_bytes(b) =~= row_bytes(a));
    } else {
        row_layout(a, b.drop_last(), v);
        assert((a + b).drop_last() =~= a + b.drop_last());
        assert(row_bytes(a + b) =~= row_bytes(a) + row_bytes(b));
    }
}

/// A table: the number of the next row in eight bytes, the number of columns in two, and the columns one
/// behind the other.
pub proof fn table_layout(next: u64, a: Seq<ColumnView>, b: Seq<ColumnView>, c: ColumnView)
    requires
        a.len() <= u16::MAX,
    ensures
        ({
            let m = table_meta(next, a);
            &&& m.len() >= 10
            &&& number_of(m.subrange(0, 8)) == next
            &&& number_of(m.subrange(8, 10)) == a.len()
            &&& m.skip(10) == columns_bytes(a)
        }),
        columns_bytes(a + b) == columns_bytes(a) + columns_bytes(b),
        columns_bytes(seq![c]) == column_bytes(c),
        columns_bytes(Seq::empty()) == Seq::<u8>::empty(),
{
    let m = table_meta(next, a);
    least_byte_first(a.len() as u16, 0, next);
    assert(m.subrange(0, 8) =~= le64(next));
    assert(m.subrange(8, 10) =~= le16(a.len() as u16));
    assert(m.skip(10) =~= columns_bytes(a));
    assert(columns_bytes(Seq::empty()) =~= Seq::<u8>::empty());
    assert(seq![c].drop_last() =~= Seq::<ColumnView>::empty());
    assert(columns_bytes(seq![c]) == columns_bytes(seq![c].drop_last()) + column_bytes(c));
    assert(columns_bytes(seq![c]) =~= column_bytes(c));
    columns_joined(a, b);
}

proof fn columns_joined(a: Seq<ColumnView>, b: Seq<ColumnView>)
    ensures
        columns_bytes(a + b) == columns_bytes(a) + columns_bytes(b),
    decreases b.len(),
{
    if b.len() == 0 {
        assert(a + b =~= a);
        assert(columns_bytes(a) + columns_bytes(b) =~= columns_bytes(a));
    } else {
        columns_joined(a, b.drop_last());
        assert((a + b).drop_last() =~= a + b.drop_last());
        assert(columns_bytes(a + b) =~= columns_bytes(a) + columns_bytes(b));
    }
}

/// A column: the length of its name in two bytes, the name, a byte that tells the type, and for a string
/// with a width the width in two bytes.
pub proof fn column_layout(c: ColumnView)
    requires
        text_bytes(c.name).len() <= u16::MAX,
    ensures
        ({
            let b = column_bytes(c);
            let n = text_bytes(c.name).len() as int;
            &&& b.len() >= 3 + n
            &&& number_of(b.take(2)) == n
            &&& b.subrange(2, 2 + n) == text_bytes(c.name)
            &&& match c.data_type {
                DataType::Integer => b[2 + n] == 1 && b.len() == 3 + n,
                DataType::Float => b[2 + n] == 2 && b.len() == 3 + n,
                DataType::Text => b[2 + n] == 3 && b.len() == 3 + n,
                DataType::Boolean => b[2 + n] == 4 && b.len() == 3 + n,
                DataType::Char(w) => b[2 + n] == 5 && b.len() == 5 + n && number_of(b.skip(3 + n)) == w as u16,
            }
        }),
{
    let b = column_bytes(c);
    let n = text_bytes(c.name).len() as int;
    least_byte_first(n as u16, 0, 0);
    assert(b.take(2) =~= le16(n as u16));
    assert(b.subrange(2, 2 + n) =~= text_bytes(c.name));
    match c.data_type {
        DataType::Char(w) => {
            least_byte_first(w as u16, 0, 0);
            assert(b.skip(3 + n) =~= le16(w as u16));
        },
        _ => {},
    }
}

/// An index: the name of its table and that of its column, each with its length in front in four bytes.
pub proof fn index_layout(ix: IndexView)
    requires
        text_bytes(ix.table).len() <= u32::MAX,
        text_bytes(ix.column).len() <= u32::MAX,
    ensures
        ({
            let b = index_meta(ix);
            let n = text_bytes(ix.table).len() as int;
            let m = text_bytes(ix.column).len() as int;
            &&& b.len() == 8 + n + m
            &&& number_of(b.take(4)) == n
            &&& b.subrange(4, 4 + n) == text_bytes(ix.table)
            &&& number_of(b.subrange(4 + n, 8 + n)) == m
            &&& b.skip(8 + n) == text_bytes(ix.column)
        }),
{
    let b = index_meta(ix);
    let n = text_bytes(ix.table).len() as int;
    let m = text_bytes(ix.column).len() as int;
    least_byte_first(0, n as u32, 0);
    least_byte_first(0, m as u32, 0);
    assert(b.take(4) =~= le32(n as u32));
    assert(b.subrange(4, 4 + n) =~= text_bytes(ix.table));
    assert(b.subrange(4 + n, 8 + n) =~= le32(m as u32));
    assert(b.skip(8 + n) =~= text_bytes(ix.column));
}

/// The catalog has a table and an index under their names in upper case, behind what tells the one from
/// the other.
pub proof fn catalog_keys(n: Seq<char>, i: int)
    ensures
        tkey(n).len() == 6 + text_bytes(n).len(),
        ikey(n).len() == 6 + text_bytes(n).len(),
        tkey(n).skip(6) == text_bytes(n),
        ikey(n).skip(6) == text_bytes(n),
        0 <= i < 6 ==> tkey(n)[i] as u32 == "table:"@[i] as u32,
        0 <= i < 6 ==> ikey(n)[i] as u32 == "index:"@[i] as u32,
{
    reveal_strlit("table:");
    reveal_strlit("index:");
    assert(tkey(n).skip(6) =~= text_bytes(n));
    assert(ikey(n).skip(6) =~= text_bytes(n));
}

/// The keys of an index: the value, so that the order of the bytes is that of integers, and then the number
/// of the row in eight bytes. A string is there by its bytes, NULL by none.
pub proof fn index_key_layout(v: ValueView, id: u64)
    ensures
        ({
            let k = index_entry(v, id);
            let n = k.len() - 8;
            &&& n >= 0
            &&& number_of(k.skip(n)) == id
            &&& match v {
                ValueView::Integer(x) => n == 8 && number_of(k.take(n).reverse()) == x + 0x8000_0000_0000_0000,
                ValueView::Float(b) => n == 8 && number_of(k.take(n).reverse()) == b,
                ValueView::Text(s) => k.take(n) == text_bytes(s),
                ValueView::Char(s) => k.take(n) == text_bytes(s),
                ValueView::Boolean(b) => k.take(n) == seq![if b {
                    1u8
                } else {
                    0u8
                }],
                ValueView::Null => n == 0,
            }
        }),
{
    let k = index_entry(v, id);
    let n = k.len() - 8;
    least_byte_first(0, 0, id);
    assert(k.skip(n) =~= le64(id));
    assert(k.take(n) =~= encode(v));
    match v {
        ValueView::Integer(x) => {
            let c = (x as u64) ^ 0x8000_0000_0000_0000;
            least_byte_first(0, 0, c);
            most_byte_first(c);
            assert(k.take(n).reverse() =~= le64(c));
            let y = x as u64;
            assert(y < 0x8000_0000_0000_0000 ==> y ^ 0x8000_0000_0000_0000 == y + 0x8000_0000_0000_0000) by (bit_vector);
            assert(y >= 0x8000_0000_0000_0000 ==> y ^ 0x8000_0000_0000_0000 == y - 0x8000_0000_0000_0000) by (bit_vector);
            assert(x >= 0 ==> (x as u64) < 0x8000_0000_0000_0000) by (bit_vector);
            assert(x < 0 ==> (x as u64) >= 0x8000_0000_0000_0000) by (bit_vector);
            if x >= 0 {
                assert(y == x);
            } else {
                assert(x < 0 ==> (x as u64) == 0xffff_ffff_ffff_ffff - ((-(x + 1)) as u64)) by (bit_vector);
                assert(y == x + 0x1_0000_0000_0000_0000);
            }
        },
        ValueView::Float(b) => {
            least_byte_first(0, 0, b);
            most_byte_first(b);
            assert(k.take(n).reverse() =~= le64(b));
        },
        _ => {},
    }
}

/// The rows of a table are kept under their numbers in the order of the numbers.
pub proof fn row_keys_are_in_order(a: u64, b: u64)
    ensures
        be64(a).len() == 8,
        number_of(be64(a).reverse()) == a,
        a < b ==> lt(be64(a), be64(b)),
{
    least_byte_first(0, 0, a);
    most_byte_first(a);
    assert(be64(a).reverse() =~= le64(a));
    if a < b {
        be64_keeps_order(a, b);
    }
}

/// Bytes that are no value are refused: where none is left, where the first tells no type, where the value
/// is cut off, and where a string is no valid UTF-8.
pub proof fn no_value(data: Seq<u8>, at: int)
    requires
        0 <= at,
    ensures
        at >= data.len() ==> value_at(data, at) == Err::<(ValueView, int), RowError>(RowError::End),
        at < data.len() && data[at] > 5 ==> value_at(data, at) == Err::<(ValueView, int), RowError>(
            RowError::UnknownTag(data[at]),
        ),
        value_at(data, at) matches Err(e) ==> match e {
            RowError::End => at >= data.len() || 1 <= data[at] <= 5,
            RowError::UnknownTag(t) => at < data.len() && t == data[at] && t > 5,
            RowError::Utf8 => at < data.len() && (data[at] == 3 || data[at] == 5) && exists|n: int|
                0 <= n && at + 5 + n <= data.len() && !valid_utf8(#[trigger] data.subrange(at + 5, at + 5 + n)),
        },
        value_at(data, at) matches Ok((v, end)) ==> {
            &&& at < end <= data.len()
            &&& match v {
                ValueView::Null => data[at] == 0,
                ValueView::Integer(_) => data[at] == 1,
                ValueView::Float(_) => data[at] == 2,
                ValueView::Text(_) => data[at] == 3,
                ValueView::Boolean(_) => data[at] == 4,
                ValueView::Char(_) => data[at] == 5,
            }
        },
{
    if at < data.len() && (data[at] == 3 || data[at] == 5) && at + 5 <= data.len() {
        let n = of_le32(data.subrange(at + 1, at + 5)) as int;
        if at + 5 + n <= data.len() && !valid_utf8(data.subrange(at + 5, at + 5 + n)) {
            assert(value_at(data, at) == Err::<(ValueView, int), RowError>(RowError::Utf8));
        }
    }
}

/// The numbers of types are 1 to 5, each that of the type that it is written for.
pub proof fn numbers_of_types(x: u8, t: DataType)
    ensures
        type_of_tag(x) is Ok <==> 1 <= x <= 5,
        x == 0 || x > 5 ==> type_of_tag(x) == Err::<DataType, RowError>(RowError::UnknownTag(x)),
        type_of_tag(tag_of(t)) matches Ok(u) && match t {
            DataType::Char(_) => u is Char,
            _ => u == t,
        },
        tag_of(DataType::Integer) == 1,
        tag_of(DataType::Float) == 2,
        tag_of(DataType::Text) == 3,
        tag_of(DataType::Boolean) == 4,
        t is Char ==> tag_of(t) == 5,
{
}

} // verus!
