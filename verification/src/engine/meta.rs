//! Catalog metadata as bytes: the schema of a table, the table and column of an index.
use vstd::prelude::*;
use vstd::utf8::*;

use crate::engine::model::{
    column_bytes, columns_bytes, index_meta, schema_storable, stored_cols, stored_type, table_meta,
    tag_of, IndexView,
};
use crate::engine::row::{deserialize_text, text_at, text_block, text_read_back, RowError};
use crate::ints::{
    from_le16, from_le64, group_ints, le16, le64, of_le16, of_le64, to_le16, to_le32, to_le64,
};
use crate::sql::ast::{schema_view, ColumnDef, ColumnView, DataType};
use crate::text::{bytes_of, from_utf8, text_bytes, text_roundtrip};

verus! {

/// The type that belongs to a number; a width is still to be read.
pub open spec fn type_of_tag(tag: u8) -> Result<DataType, RowError> {
    if tag == 1 {
        Ok(DataType::Integer)
    } else if tag == 2 {
        Ok(DataType::Float)
    } else if tag == 3 {
        Ok(DataType::Text)
    } else if tag == 4 {
        Ok(DataType::Boolean)
    } else if tag == 5 {
        Ok(DataType::Char(0))
    } else {
        Err(RowError::UnknownTag(tag))
    }
}

/// The column that starts at `at`, and where it ends.
pub open spec fn column_at(data: Seq<u8>, at: int) -> Result<(ColumnView, int), RowError> {
    if at + 2 > data.len() {
        Err(RowError::End)
    } else {
        let n = of_le16(data.subrange(at, at + 2));
        let mid = at + 2 + n;
        if mid + 1 > data.len() {
            Err(RowError::End)
        } else if !valid_utf8(data.subrange(at + 2, mid)) {
            Err(RowError::Utf8)
        } else {
            let name = decode_utf8(data.subrange(at + 2, mid));
            match type_of_tag(data[mid]) {
                Err(e) => Err(e),
                Ok(DataType::Char(_)) => if mid + 3 > data.len() {
                    Err(RowError::End)
                } else {
                    let w = of_le16(data.subrange(mid + 1, mid + 3));
                    Ok((ColumnView { name, data_type: DataType::Char(w as usize) }, mid + 3))
                },
                Ok(t) => Ok((ColumnView { name, data_type: t }, mid + 1)),
            }
        }
    }
}

/// The `n` columns behind the number of the next row and the number of columns, and where they end.
pub open spec fn columns_at(data: Seq<u8>, n: nat) -> Result<(Seq<ColumnView>, int), RowError>
    decreases n,
{
    if n == 0 {
        Ok((Seq::empty(), 10))
    } else {
        match columns_at(data, (n - 1) as nat) {
            Err(e) => Err(e),
            Ok((cols, mid)) => match column_at(data, mid) {
                Err(e) => Err(e),
                Ok((c, end)) => Ok((cols.push(c), end)),
            },
        }
    }
}

/// The number of the next row and the columns, read from metadata.
pub open spec fn schema_of(data: Seq<u8>) -> Result<(u64, Seq<ColumnView>), RowError> {
    if data.len() < 10 {
        Err(RowError::End)
    } else {
        match columns_at(data, of_le16(data.subrange(8, 10)) as nat) {
            Err(e) => Err(e),
            Ok((cols, _)) => Ok((of_le64(data.subrange(0, 8)), cols)),
        }
    }
}

/// The table and the column, read from metadata.
pub open spec fn index_of(data: Seq<u8>) -> Result<IndexView, RowError> {
    match text_at(data, 0) {
        Err(e) => Err(e),
        Ok((table, mid)) => match text_at(data, mid) {
            Err(e) => Err(e),
            Ok((column, _)) => Ok(IndexView { table, column }),
        },
    }
}

/// The number of a type.
pub fn type_tag(dt: &DataType) -> (r: u8)
    ensures
        r == tag_of(*dt),
{
    match dt {
        DataType::Integer => 1,
        DataType::Float => 2,
        DataType::Text => 3,
        DataType::Boolean => 4,
        DataType::Char(_) => 5,
    }
}

/// The type that belongs to a number.
pub fn data_type_from_tag(tag: u8) -> (r: Result<DataType, RowError>)
    ensures
        r == type_of_tag(tag),
{
    if tag == 1 {
        Ok(DataType::Integer)
    } else if tag == 2 {
        Ok(DataType::Float)
    } else if tag == 3 {
        Ok(DataType::Text)
    } else if tag == 4 {
        Ok(DataType::Boolean)
    } else if tag == 5 {
        Ok(DataType::Char(0))
    } else {
        Err(RowError::UnknownTag(tag))
    }
}

/// Append a column, unless its name is too long.
fn write_column(col: &ColumnDef, out: &mut Vec<u8>) -> (r: bool)
    ensures
        r == (text_bytes(col.name@).len() <= u16::MAX),
        r ==> final(out)@ == old(out)@ + column_bytes(col@),
{
    let name = bytes_of(col.name.as_str());
    let n: usize = name.len();
    if n > u16::MAX as usize {
        return false;
    }
    let len = to_le16(n as u16);
    out.extend_from_slice(len.as_slice());
    out.extend_from_slice(name);
    out.push(type_tag(&col.data_type));
    match col.data_type {
        DataType::Char(w) => {
            let width = to_le16(#[verifier::truncate] (w as u16));
            out.extend_from_slice(width.as_slice());
        },
        _ => {},
    }
    assert(out@ =~= old(out)@ + column_bytes(col@));
    true
}

/// The metadata of a table, unless there are too many columns or a name is too long.
pub fn encode_schema(next: u64, columns: &Vec<ColumnDef>) -> (r: Option<Vec<u8>>)
    ensures
        match r {
            Some(m) => schema_storable(schema_view(columns@)) && m@ == table_meta(next, schema_view(columns@)),
            None => !schema_storable(schema_view(columns@)),
        },
{
    let ghost cols = schema_view(columns@);
    if columns.len() > u16::MAX as usize {
        return None;
    }
    let mut out: Vec<u8> = to_le64(next);
    let count = to_le16(columns.len() as u16);
    out.extend_from_slice(count.as_slice());
    let ghost head = out@;
    assert(head =~= le64(next) + le16(cols.len() as u16));
    assert(cols.take(0) =~= Seq::empty());
    assert(head + columns_bytes(cols.take(0)) =~= head);
    let mut i: usize = 0;
    while i < columns.len()
        invariant
            i <= columns@.len() <= u16::MAX,
            cols == schema_view(columns@),
            forall|j: int| 0 <= j < i ==> text_bytes((#[trigger] cols[j]).name).len() <= u16::MAX,
            out@ == head + columns_bytes(cols.take(i as int)),
        decreases columns@.len() - i,
    {
        proof {
            assert(cols.take(i + 1).drop_last() =~= cols.take(i as int));
            assert(cols[i as int] == columns@[i as int]@);
        }
        if !write_column(&columns[i], &mut out) {
            return None;
        }
        assert(out@ =~= head + columns_bytes(cols.take(i + 1)));
        i += 1;
    }
    assert(cols.take(i as int) =~= cols);
    Some(out)
}

proof fn columns_at_fails(data: Seq<u8>, i: nat, n: nat)
    requires
        i <= n,
        columns_at(data, i) is Err,
    ensures
        columns_at(data, n) == columns_at(data, i),
    decreases n,
{
    if i < n {
        columns_at_fails(data, i, (n - 1) as nat);
    }
}

/// The column that starts at `at`, and where it ends.
fn read_column(data: &[u8], at: usize) -> (r: Result<(ColumnDef, usize), RowError>)
    requires
        at <= data@.len(),
    ensures
        match r {
            Ok((c, end)) => column_at(data@, at as int) == Ok::<(ColumnView, int), RowError>((c@, end as int)) && end
                <= data@.len(),
            Err(e) => column_at(data@, at as int) == Err::<(ColumnView, int), RowError>(e),
        },
{
    if data.len() - at < 2 {
        return Err(RowError::End);
    }
    let n: usize = from_le16(vstd::slice::slice_subrange(data, at, at + 2)) as usize;
    if data.len() - at - 2 < n || data.len() - at - 2 - n < 1 {
        return Err(RowError::End);
    }
    let mid: usize = at + 2 + n;
    let name = match from_utf8(crate::bytes::copy(vstd::slice::slice_subrange(data, at + 2, mid))) {
        None => {
            return Err(RowError::Utf8);
        },
        Some(s) => s,
    };
    match data_type_from_tag(data[mid]) {
        Err(e) => Err(e),
        Ok(DataType::Char(_)) => {
            if data.len() - mid < 3 {
                return Err(RowError::End);
            }
            let w: u16 = from_le16(vstd::slice::slice_subrange(data, mid + 1, mid + 3));
            Ok((ColumnDef { name, data_type: DataType::Char(w as usize) }, mid + 3))
        },
        Ok(t) => Ok((ColumnDef { name, data_type: t }, mid + 1)),
    }
}

/// The number of the next row and the columns, read from metadata.
pub fn decode_schema(data: &[u8]) -> (r: Result<(u64, Vec<ColumnDef>), RowError>)
    ensures
        match r {
            Ok((next, cols)) => schema_of(data@) == Ok::<(u64, Seq<ColumnView>), RowError>(
                (next, schema_view(cols@)),
            ),
            Err(e) => schema_of(data@) == Err::<(u64, Seq<ColumnView>), RowError>(e),
        },
{
    if data.len() < 10 {
        return Err(RowError::End);
    }
    let next: u64 = from_le64(vstd::slice::slice_subrange(data, 0, 8));
    let n: usize = from_le16(vstd::slice::slice_subrange(data, 8, 10)) as usize;
    let mut cols: Vec<ColumnDef> = Vec::new();
    let mut at: usize = 10;
    let mut i: usize = 0;
    assert(schema_view(cols@) =~= Seq::empty());
    while i < n
        invariant
            i <= n,
            data@.len() >= 10,
            n == of_le16(data@.subrange(8, 10)),
            next == of_le64(data@.subrange(0, 8)),
            at <= data@.len(),
            columns_at(data@, i as nat) == Ok::<(Seq<ColumnView>, int), RowError>((schema_view(cols@), at as int)),
        decreases n - i,
    {
        match read_column(data, at) {
            Err(e) => {
                proof {
                    assert(columns_at(data@, (i + 1) as nat) == Err::<(Seq<ColumnView>, int), RowError>(e));
                    columns_at_fails(data@, (i + 1) as nat, n as nat);
                }
                return Err(e);
            },
            Ok((c, end)) => {
                let ghost before = schema_view(cols@);
                cols.push(c);
                assert(schema_view(cols@) =~= before.push(c@));
                at = end;
            },
        }
        i += 1;
    }
    Ok((next, cols))
}

/// The metadata of an index, unless a name is too long.
pub fn encode_index(table: &str, column: &str) -> (r: Option<Vec<u8>>)
    ensures
        match r {
            Some(m) => {
                &&& text_bytes(table@).len() <= u32::MAX
                &&& text_bytes(column@).len() <= u32::MAX
                &&& m@ == index_meta(IndexView { table: table@, column: column@ })
            },
            None => text_bytes(table@).len() > u32::MAX || text_bytes(column@).len() > u32::MAX,
        },
{
    let t = bytes_of(table);
    let c = bytes_of(column);
    let tn: usize = t.len();
    let cn: usize = c.len();
    if tn > u32::MAX as usize || cn > u32::MAX as usize {
        return None;
    }
    let mut out: Vec<u8> = to_le32(tn as u32);
    out.extend_from_slice(t);
    let len = to_le32(cn as u32);
    out.extend_from_slice(len.as_slice());
    out.extend_from_slice(c);
    assert(out@ =~= index_meta(IndexView { table: table@, column: column@ }));
    Some(out)
}

/// The table and the column, read from metadata.
pub fn decode_index(data: &[u8]) -> (r: Result<(String, String), RowError>)
    ensures
        match r {
            Ok((table, column)) => index_of(data@) == Ok::<IndexView, RowError>(
                (IndexView { table: table@, column: column@ }),
            ),
            Err(e) => index_of(data@) == Err::<IndexView, RowError>(e),
        },
{
    match deserialize_text(data, 0) {
        Err(e) => Err(e),
        Ok((table, mid)) => match deserialize_text(data, mid) {
            Err(e) => Err(e),
            Ok((column, _)) => Ok((table, column)),
        },
    }
}

proof fn width_kept(w: u16)
    ensures
        w as usize as u16 == w,
{
}

proof fn column_read_back(data: Seq<u8>, at: int, c: ColumnView)
    requires
        0 <= at,
        text_bytes(c.name).len() <= u16::MAX,
        at + column_bytes(c).len() <= data.len(),
        data.subrange(at, at + column_bytes(c).len()) == column_bytes(c),
    ensures
        column_at(data, at) == Ok::<(ColumnView, int), RowError>(
            (ColumnView { name: c.name, data_type: stored_type(c.data_type) }, at + column_bytes(c).len()),
        ),
{
    broadcast use {group_ints, text_roundtrip};

    let d = data.subrange(at, at + column_bytes(c).len());
    let n = text_bytes(c.name).len() as int;
    assert(data.subrange(at, at + 2) =~= d.subrange(0, 2));
    assert(d.subrange(0, 2) =~= le16(n as u16));
    assert(data.subrange(at + 2, at + 2 + n) =~= d.subrange(2, 2 + n));
    assert(d.subrange(2, 2 + n) =~= text_bytes(c.name));
    assert(data[at + 2 + n] == d[2 + n]);
    match c.data_type {
        DataType::Char(w) => {
            assert(data.subrange(at + 3 + n, at + 5 + n) =~= d.subrange(3 + n, 5 + n));
            assert(d.subrange(3 + n, 5 + n) =~= le16(w as u16));
        },
        _ => {},
    }
}

proof fn columns_read_back(data: Seq<u8>, cols: Seq<ColumnView>)
    requires
        schema_storable(cols),
        10 + columns_bytes(cols).len() <= data.len(),
        data.subrange(10, 10int + columns_bytes(cols).len()) == columns_bytes(cols),
    ensures
        columns_at(data, cols.len()) == Ok::<(Seq<ColumnView>, int), RowError>(
            (stored_cols(cols), 10int + columns_bytes(cols).len()),
        ),
    decreases cols.len(),
{
    if cols.len() == 0 {
        assert(stored_cols(cols) =~= Seq::empty());
    } else {
        let front = cols.drop_last();
        let c = cols.last();
        let n = columns_bytes(front).len() as int;
        let k = column_bytes(c).len() as int;
        let all = data.subrange(10, 10int + columns_bytes(cols).len());
        assert(data.subrange(10, 10 + n) =~= all.subrange(0, n));
        assert(all.subrange(0, n) =~= columns_bytes(front));
        assert forall|i: int| 0 <= i < front.len() implies text_bytes((#[trigger] front[i]).name).len() <= u16::MAX by {
            assert(front[i] == cols[i]);
        }
        columns_read_back(data, front);
        assert(data.subrange(10 + n, 10 + n + k) =~= all.subrange(n, n + k));
        assert(all.subrange(n, n + k) =~= column_bytes(c));
        assert(text_bytes(cols[cols.len() - 1].name).len() <= u16::MAX);
        column_read_back(data, 10 + n, c);
        assert(stored_cols(front).push(ColumnView { name: c.name, data_type: stored_type(c.data_type) })
            =~= stored_cols(cols));
    }
}

/// Reading the metadata of a table gives back the number of the next row and the columns.
pub proof fn schema_read_back(next: u64, cols: Seq<ColumnView>)
    requires
        schema_storable(cols),
    ensures
        schema_of(table_meta(next, cols)) == Ok::<(u64, Seq<ColumnView>), RowError>((next, stored_cols(cols))),
{
    broadcast use group_ints;

    let data = table_meta(next, cols);
    assert(data.subrange(0, 8) =~= le64(next));
    assert(data.subrange(8, 10) =~= le16(cols.len() as u16));
    assert(data.subrange(10, 10int + columns_bytes(cols).len()) =~= columns_bytes(cols));
    columns_read_back(data, cols);
}

/// Reading the metadata of an index gives back its table and its column.
pub proof fn index_read_back(ix: IndexView)
    requires
        text_bytes(ix.table).len() <= u32::MAX,
        text_bytes(ix.column).len() <= u32::MAX,
    ensures
        index_of(index_meta(ix)) == Ok::<IndexView, RowError>(ix),
{
    let data = index_meta(ix);
    let n = text_block(ix.table).len() as int;
    assert(data.subrange(0, n) =~= text_block(ix.table));
    text_read_back(data, 0, ix.table);
    assert(data.subrange(n, n + text_block(ix.column).len()) =~= text_block(ix.column));
    text_read_back(data, n, ix.column);
}

/// Columns that have been stored do not change when they are stored again.
pub proof fn stored_cols_stay(cols: Seq<ColumnView>)
    requires
        schema_storable(cols),
    ensures
        stored_cols(stored_cols(cols)) == stored_cols(cols),
        schema_storable(stored_cols(cols)),
{
    assert forall|i: int| 0 <= i < cols.len() implies stored_type(
        #[trigger] stored_cols(cols)[i].data_type,
    ) == stored_cols(cols)[i].data_type by {
        match cols[i].data_type {
            DataType::Char(w) => {
                width_kept(w as u16);
            },
            _ => {},
        }
    }
    assert(stored_cols(stored_cols(cols)) =~= stored_cols(cols));
    assert forall|i: int| 0 <= i < stored_cols(cols).len() implies text_bytes(
        (#[trigger] stored_cols(cols)[i]).name,
    ).len() <= u16::MAX by {
        assert(stored_cols(cols)[i].name == cols[i].name);
    }
}

/// The metadata does not change when the columns have been stored.
pub proof fn stored_meta_same(next: u64, cols: Seq<ColumnView>)
    requires
        schema_storable(cols),
    ensures
        table_meta(next, stored_cols(cols)) == table_meta(next, cols),
{
    stored_bytes_same(cols);
}

proof fn stored_bytes_same(cols: Seq<ColumnView>)
    ensures
        columns_bytes(stored_cols(cols)) == columns_bytes(cols),
    decreases cols.len(),
{
    if cols.len() > 0 {
        let front = cols.drop_last();
        stored_bytes_same(front);
        assert(stored_cols(cols).drop_last() =~= stored_cols(front));
        match cols.last().data_type {
            DataType::Char(w) => {
                width_kept(w as u16);
            },
            _ => {},
        }
    }
}

} // verus!
