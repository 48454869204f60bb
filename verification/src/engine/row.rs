//! Rows as bytes, and values as keys of an index.
use vstd::prelude::*;
use vstd::utf8::*;

use crate::ints::{from_le32, from_le64, group_ints, le32, le64, of_le32, of_le64, to_le32, to_le64};
use crate::sql::ast::{row_view, Value, ValueView};
use crate::text::{bytes_of, from_utf8, text_bytes, text_roundtrip};

verus! {

/// Why bytes could not be read as a row.
#[derive(Clone, Copy, PartialEq, Eq, Structural, Debug)]
pub enum RowError {
    /// The bytes end before the row does.
    End,
    /// The byte is the tag of no type.
    UnknownTag(u8),
    /// The bytes of a string are no valid UTF-8.
    Utf8,
}

/// A string with its length in front.
pub open spec fn text_block(s: Seq<char>) -> Seq<u8> {
    le32(text_bytes(s).len() as u32) + text_bytes(s)
}

/// The bytes of a value: a tag, and what belongs to it.
pub open spec fn value_bytes(v: ValueView) -> Seq<u8> {
    match v {
        ValueView::Null => seq![0u8],
        ValueView::Integer(n) => seq![1u8] + le64(n as u64),
        ValueView::Float(b) => seq![2u8] + le64(b),
        ValueView::Text(s) => seq![3u8] + text_block(s),
        ValueView::Boolean(b) => seq![4u8, if b {
            1u8
        } else {
            0u8
        }],
        ValueView::Char(s) => seq![5u8] + text_block(s),
    }
}

/// The bytes of a row: those of its values one after the other.
pub open spec fn row_bytes(row: Seq<ValueView>) -> Seq<u8>
    decreases row.len(),
{
    if row.len() == 0 {
        Seq::empty()
    } else {
        row_bytes(row.drop_last()) + value_bytes(row.last())
    }
}

/// The length of a string can be written.
pub open spec fn value_storable(v: ValueView) -> bool {
    match v {
        ValueView::Text(s) => text_bytes(s).len() <= u32::MAX,
        ValueView::Char(s) => text_bytes(s).len() <= u32::MAX,
        _ => true,
    }
}

/// The lengths of the strings can be written.
pub open spec fn row_storable(row: Seq<ValueView>) -> bool {
    forall|i: int| 0 <= i < row.len() ==> value_storable(#[trigger] row[i])
}

/// The string that starts at `at` with its length, and where it ends.
pub open spec fn text_at(data: Seq<u8>, at: int) -> Result<(Seq<char>, int), RowError> {
    if at + 4 > data.len() {
        Err(RowError::End)
    } else {
        let n = of_le32(data.subrange(at, at + 4));
        if at + 4 + n > data.len() {
            Err(RowError::End)
        } else {
            let b = data.subrange(at + 4, at + 4 + n);
            if valid_utf8(b) {
                Ok((decode_utf8(b), at + 4 + n))
            } else {
                Err(RowError::Utf8)
            }
        }
    }
}

/// The value that starts at `at`, and where it ends.
pub open spec fn value_at(data: Seq<u8>, at: int) -> Result<(ValueView, int), RowError> {
    if at >= data.len() {
        Err(RowError::End)
    } else if data[at] == 0 {
        Ok((ValueView::Null, at + 1))
    } else if data[at] == 1 || data[at] == 2 {
        if at + 9 > data.len() {
            Err(RowError::End)
        } else {
            let b = of_le64(data.subrange(at + 1, at + 9));
            if data[at] == 1 {
                Ok((ValueView::Integer(b as i64), at + 9))
            } else {
                Ok((ValueView::Float(b), at + 9))
            }
        }
    } else if data[at] == 4 {
        if at + 2 > data.len() {
            Err(RowError::End)
        } else {
            Ok((ValueView::Boolean(data[at + 1] != 0), at + 2))
        }
    } else if data[at] == 3 || data[at] == 5 {
        match text_at(data, at + 1) {
            Err(e) => Err(e),
            Ok((s, end)) => if data[at] == 3 {
                Ok((ValueView::Text(s), end))
            } else {
                Ok((ValueView::Char(s), end))
            },
        }
    } else {
        Err(RowError::UnknownTag(data[at]))
    }
}

/// The first `n` values, and where they end.
pub open spec fn row_at(data: Seq<u8>, n: nat) -> Result<(Seq<ValueView>, int), RowError>
    decreases n,
{
    if n == 0 {
        Ok((Seq::empty(), 0))
    } else {
        match row_at(data, (n - 1) as nat) {
            Err(e) => Err(e),
            Ok((row, mid)) => match value_at(data, mid) {
                Err(e) => Err(e),
                Ok((v, end)) => Ok((row.push(v), end)),
            },
        }
    }
}

/// A row of `n` values read from bytes.
pub open spec fn row_of(data: Seq<u8>, n: nat) -> Result<Seq<ValueView>, RowError> {
    match row_at(data, n) {
        Err(e) => Err(e),
        Ok((row, _)) => Ok(row),
    }
}

proof fn row_at_fails(data: Seq<u8>, i: nat, n: nat)
    requires
        i <= n,
        row_at(data, i) is Err,
    ensures
        row_at(data, n) == row_at(data, i),
    decreases n,
{
    if i < n {
        row_at_fails(data, i, (n - 1) as nat);
    }
}

/// The bits of a number give back the number.
pub proof fn bits_roundtrip(n: i64)
    ensures
        (n as u64) as i64 == n,
{
    assert((n as u64) as i64 == n) by (bit_vector);
}

/// Append a value to a row, unless a string is too long.
pub fn serialize_value(value: &Value, buf: &mut Vec<u8>) -> (r: bool)
    ensures
        r == value_storable(value@),
        r ==> final(buf)@ == old(buf)@ + value_bytes(value@),
{
    match value {
        Value::Null => {
            buf.push(0);
            assert(buf@ =~= old(buf)@ + value_bytes(value@));
            true
        },
        Value::Integer(v) => {
            buf.push(1);
            let b = to_le64(#[verifier::truncate] (*v as u64));
            buf.extend_from_slice(b.as_slice());
            assert(buf@ =~= old(buf)@ + value_bytes(value@));
            true
        },
        Value::Float(v) => {
            buf.push(2);
            let b = to_le64(*v);
            buf.extend_from_slice(b.as_slice());
            assert(buf@ =~= old(buf)@ + value_bytes(value@));
            true
        },
        Value::Text(v) => {
            buf.push(3);
            let ok = serialize_text(v, buf);
            assert(ok ==> buf@ =~= old(buf)@ + value_bytes(value@));
            ok
        },
        Value::Boolean(v) => {
            buf.push(4);
            buf.push(if *v {
                1
            } else {
                0
            });
            assert(buf@ =~= old(buf)@ + value_bytes(value@));
            true
        },
        Value::Char(v) => {
            buf.push(5);
            let ok = serialize_text(v, buf);
            assert(ok ==> buf@ =~= old(buf)@ + value_bytes(value@));
            ok
        },
    }
}

/// Append a string with its length in front, unless it is too long.
fn serialize_text(s: &String, buf: &mut Vec<u8>) -> (r: bool)
    ensures
        r == (text_bytes(s@).len() <= u32::MAX),
        r ==> final(buf)@ == old(buf)@ + text_block(s@),
{
    let bytes = bytes_of(s.as_str());
    let n: usize = bytes.len();
    if n > u32::MAX as usize {
        return false;
    }
    let len = to_le32(n as u32);
    buf.extend_from_slice(len.as_slice());
    buf.extend_from_slice(bytes);
    assert(buf@ =~= old(buf)@ + text_block(s@));
    true
}

/// A row as bytes, unless a string is too long.
pub fn serialize_row(values: &Vec<Value>) -> (r: Option<Vec<u8>>)
    ensures
        match r {
            Some(b) => row_storable(row_view(values@)) && b@ == row_bytes(row_view(values@)),
            None => !row_storable(row_view(values@)),
        },
{
    let ghost row = row_view(values@);
    let mut buf: Vec<u8> = Vec::new();
    let mut i: usize = 0;
    assert(row.take(0) =~= Seq::empty());
    assert(row_bytes(row.take(0)) =~= Seq::empty());
    while i < values.len()
        invariant
            i <= values@.len(),
            row == row_view(values@),
            forall|j: int| 0 <= j < i ==> value_storable(#[trigger] row[j]),
            buf@ == row_bytes(row.take(i as int)),
        decreases values@.len() - i,
    {
        assert(row.take(i + 1).drop_last() =~= row.take(i as int));
        assert(row[i as int] == values@[i as int]@);
        if !serialize_value(&values[i], &mut buf) {
            return None;
        }
        i += 1;
    }
    assert(row.take(i as int) =~= row);
    Some(buf)
}

/// The string that starts at `at` with its length, and where it ends.
pub fn deserialize_text(data: &[u8], at: usize) -> (r: Result<(String, usize), RowError>)
    requires
        at <= data@.len(),
    ensures
        match r {
            Ok((s, end)) => text_at(data@, at as int) == Ok::<(Seq<char>, int), RowError>((s@, end as int)) && end
                <= data@.len(),
            Err(e) => text_at(data@, at as int) == Err::<(Seq<char>, int), RowError>(e),
        },
{
    if data.len() - at < 4 {
        return Err(RowError::End);
    }
    let n: usize = from_le32(vstd::slice::slice_subrange(data, at, at + 4)) as usize;
    if data.len() - at - 4 < n {
        return Err(RowError::End);
    }
    let bytes = crate::bytes::copy(vstd::slice::slice_subrange(data, at + 4, at + 4 + n));
    match from_utf8(bytes) {
        None => Err(RowError::Utf8),
        Some(s) => Ok((s, at + 4 + n)),
    }
}

/// The value that starts at `at`, and where it ends.
pub fn deserialize_value(data: &[u8], at: usize) -> (r: Result<(Value, usize), RowError>)
    requires
        at <= data@.len(),
    ensures
        match r {
            Ok((v, end)) => value_at(data@, at as int) == Ok::<(ValueView, int), RowError>((v@, end as int)) && end
                <= data@.len(),
            Err(e) => value_at(data@, at as int) == Err::<(ValueView, int), RowError>(e),
        },
{
    if at == data.len() {
        return Err(RowError::End);
    }
    let tag: u8 = data[at];
    if tag == 0 {
        Ok((Value::Null, at + 1))
    } else if tag == 1 || tag == 2 {
        if data.len() - at < 9 {
            return Err(RowError::End);
        }
        let b: u64 = from_le64(vstd::slice::slice_subrange(data, at + 1, at + 9));
        if tag == 1 {
            Ok((Value::Integer(#[verifier::truncate] (b as i64)), at + 9))
        } else {
            Ok((Value::Float(b), at + 9))
        }
    } else if tag == 3 || tag == 5 {
        match deserialize_text(data, at + 1) {
            Err(e) => Err(e),
            Ok((s, end)) => if tag == 3 {
                Ok((Value::Text(s), end))
            } else {
                Ok((Value::Char(s), end))
            },
        }
    } else if tag == 4 {
        if data.len() - at < 2 {
            return Err(RowError::End);
        }
        Ok((Value::Boolean(data[at + 1] != 0), at + 2))
    } else {
        Err(RowError::UnknownTag(tag))
    }
}

/// A row of `col_count` values read from bytes.
pub fn deserialize_row(data: &[u8], col_count: usize) -> (r: Result<Vec<Value>, RowError>)
    ensures
        match r {
            Ok(row) => row_of(data@, col_count as nat) == Ok::<Seq<ValueView>, RowError>(row_view(row@)),
            Err(e) => row_of(data@, col_count as nat) == Err::<Seq<ValueView>, RowError>(e),
        },
{
    let mut row: Vec<Value> = Vec::new();
    let mut at: usize = 0;
    let mut i: usize = 0;
    assert(row_view(row@) =~= Seq::empty());
    while i < col_count
        invariant
            i <= col_count,
            at <= data@.len(),
            row_at(data@, i as nat) == Ok::<(Seq<ValueView>, int), RowError>((row_view(row@), at as int)),
        decreases col_count - i,
    {
        match deserialize_value(data, at) {
            Err(e) => {
                proof {
                    assert(row_at(data@, (i + 1) as nat) == Err::<(Seq<ValueView>, int), RowError>(e));
                    row_at_fails(data@, (i + 1) as nat, col_count as nat);
                }
                return Err(e);
            },
            Ok((v, end)) => {
                let ghost before = row_view(row@);
                row.push(v);
                assert(row_view(row@) =~= before.push(v@));
                at = end;
            },
        }
        i += 1;
    }
    Ok(row)
}

proof fn value_read_back(data: Seq<u8>, at: int, v: ValueView)
    requires
        0 <= at,
        value_storable(v),
        at + value_bytes(v).len() <= data.len(),
        data.subrange(at, at + value_bytes(v).len()) == value_bytes(v),
    ensures
        value_at(data, at) == Ok::<(ValueView, int), RowError>((v, at + value_bytes(v).len())),
{
    broadcast use {group_ints, text_roundtrip};

    let b = value_bytes(v);
    let d = data.subrange(at, at + b.len());
    assert(data[at] == d[0]);
    match v {
        ValueView::Integer(n) => {
            bits_roundtrip(n);
            assert(data.subrange(at + 1, at + 9) =~= d.subrange(1, 9));
            assert(d.subrange(1, 9) =~= le64(n as u64));
        },
        ValueView::Float(f) => {
            assert(data.subrange(at + 1, at + 9) =~= d.subrange(1, 9));
            assert(d.subrange(1, 9) =~= le64(f));
        },
        ValueView::Text(s) => {
            assert(data.subrange(at + 1, at + 1 + text_block(s).len()) =~= d.subrange(1, d.len() as int));
            assert(d.subrange(1, d.len() as int) =~= text_block(s));
            text_read_back(data, at + 1, s);
        },
        ValueView::Char(s) => {
            assert(data.subrange(at + 1, at + 1 + text_block(s).len()) =~= d.subrange(1, d.len() as int));
            assert(d.subrange(1, d.len() as int) =~= text_block(s));
            text_read_back(data, at + 1, s);
        },
        ValueView::Boolean(x) => {
            assert(data[at + 1] == d[1]);
        },
        ValueView::Null => {},
    }
}

/// Reading a string with its length gives back the string.
pub proof fn text_read_back(data: Seq<u8>, at: int, s: Seq<char>)
    requires
        0 <= at,
        text_bytes(s).len() <= u32::MAX,
        at + text_block(s).len() <= data.len(),
        data.subrange(at, at + text_block(s).len()) == text_block(s),
    ensures
        text_at(data, at) == Ok::<(Seq<char>, int), RowError>((s, at + text_block(s).len())),
{
    broadcast use {group_ints, text_roundtrip};

    let d = data.subrange(at, at + text_block(s).len());
    let n = text_bytes(s).len() as int;
    assert(data.subrange(at, at + 4) =~= d.subrange(0, 4));
    assert(d.subrange(0, 4) =~= le32(n as u32));
    assert(data.subrange(at + 4, at + 4 + n) =~= d.subrange(4, 4 + n));
    assert(d.subrange(4, 4 + n) =~= text_bytes(s));
}

proof fn row_read_back(data: Seq<u8>, row: Seq<ValueView>)
    requires
        row_storable(row),
        row_bytes(row).len() <= data.len(),
        data.take(row_bytes(row).len() as int) == row_bytes(row),
    ensures
        row_at(data, row.len()) == Ok::<(Seq<ValueView>, int), RowError>((row, row_bytes(row).len() as int)),
    decreases row.len(),
{
    if row.len() == 0 {
        assert(row =~= Seq::empty());
    } else {
        let front = row.drop_last();
        let n = row_bytes(front).len() as int;
        let all = data.take(row_bytes(row).len() as int);
        assert(data.take(n) =~= all.take(n));
        assert(all.take(n) =~= row_bytes(front));
        assert forall|i: int| 0 <= i < front.len() implies value_storable(#[trigger] front[i]) by {
            assert(front[i] == row[i]);
        }
        row_read_back(data, front);
        let v = row.last();
        assert(value_storable(row[row.len() - 1]));
        assert(data.subrange(n, n + value_bytes(v).len()) =~= all.subrange(n, n + value_bytes(v).len()));
        assert(all.subrange(n, n + value_bytes(v).len()) =~= value_bytes(v));
        value_read_back(data, n, v);
        assert(front.push(v) =~= row);
    }
}

/// Reading the bytes of a row gives back the row.
pub proof fn deserialize_row_undoes_serialize_row(row: Seq<ValueView>)
    requires
        row_storable(row),
    ensures
        row_of(row_bytes(row), row.len()) == Ok::<Seq<ValueView>, RowError>(row),
{
    let data = row_bytes(row);
    assert(data.take(data.len() as int) =~= data);
    row_read_back(data, row);
}

/// A value that has been written is read back, whatever stands in front of it and behind it, and its
/// end is found.
pub proof fn deserialize_value_undoes_serialize_value(before: Seq<u8>, v: ValueView, rest: Seq<u8>)
    requires
        value_storable(v),
    ensures
        value_at(before + value_bytes(v) + rest, before.len() as int) == Ok::<(ValueView, int), RowError>(
            (v, (before.len() + value_bytes(v).len()) as int),
        ),
{
    let data = before + value_bytes(v) + rest;
    let at = before.len() as int;
    assert(data.subrange(at, at + value_bytes(v).len()) =~= value_bytes(v));
    value_read_back(data, at, v);
}

/// A value whose last bytes are missing is refused.
pub proof fn cut_value_is_refused(v: ValueView, n: int)
    requires
        value_storable(v),
        0 <= n < value_bytes(v).len(),
    ensures
        value_at(value_bytes(v).take(n), 0) == Err::<(ValueView, int), RowError>(RowError::End),
{
    broadcast use group_ints;

    let all = value_bytes(v);
    let data = all.take(n);
    if n > 0 {
        assert(data[0] == all[0]);
        match v {
            ValueView::Text(s) => {
                if n >= 5 {
                    assert(data.subrange(1, 5) =~= le32(text_bytes(s).len() as u32));
                }
            },
            ValueView::Char(s) => {
                if n >= 5 {
                    assert(data.subrange(1, 5) =~= le32(text_bytes(s).len() as u32));
                }
            },
            _ => {},
        }
    }
}

} // verus!
