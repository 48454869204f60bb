//! The mathematical model of a database, and how a catalog represents it.
use vstd::prelude::*;
use vstd::set_lib::{lemma_len_subset, lemma_len_union, lemma_map_size, lemma_set_union_finite_iff};
use vstd::utf8::*;

use crate::engine::condition::column_of;
use crate::engine::row::{row_bytes, row_storable, text_block};
use crate::ints::{be64, group_ints, le16, le64, of_be64, of_le64};
use crate::sql::ast::{ColumnView, DataType, ValueView};
use crate::storage::store::{admits_entry, Shelf};
use crate::storage::tree::{Stock, MAX_KEYS_LEAF};
use crate::text::{text_bytes, text_bytes_injective, uppercased};

verus! {

/// A table: its columns, the number that the next row gets, and the rows by their numbers.
pub ghost struct TableView {
    pub cols: Seq<ColumnView>,
    pub next: u64,
    pub rows: Map<u64, Seq<ValueView>>,
}

/// An index: the table and the column that it is on.
pub ghost struct IndexView {
    pub table: Seq<char>,
    pub column: Seq<char>,
}

/// A database: tables and indexes by their names in upper case.
pub ghost struct DbView {
    pub tables: Map<Seq<char>, TableView>,
    pub indexes: Map<Seq<char>, IndexView>,
}

/// What the catalog key of a table starts with: "table:".
pub open spec fn table_prefix() -> Seq<u8> {
    seq![0x74u8, 0x61u8, 0x62u8, 0x6cu8, 0x65u8, 0x3au8]
}

/// What the catalog key of an index starts with: "index:".
pub open spec fn index_prefix() -> Seq<u8> {
    seq![0x69u8, 0x6eu8, 0x64u8, 0x65u8, 0x78u8, 0x3au8]
}

/// The catalog key of the table with this name in upper case.
pub open spec fn tkey(n: Seq<char>) -> Seq<u8> {
    table_prefix() + text_bytes(n)
}

/// The catalog key of the index with this name in upper case.
pub open spec fn ikey(n: Seq<char>) -> Seq<u8> {
    index_prefix() + text_bytes(n)
}

/// The number of a type.
pub open spec fn tag_of(t: DataType) -> u8 {
    match t {
        DataType::Integer => 1,
        DataType::Float => 2,
        DataType::Text => 3,
        DataType::Boolean => 4,
        DataType::Char(_) => 5,
    }
}

/// The bytes of a column: its name with the length in front, the number of its type, and the width
/// if it has one.
pub open spec fn column_bytes(c: ColumnView) -> Seq<u8> {
    le16(text_bytes(c.name).len() as u16) + text_bytes(c.name) + seq![tag_of(c.data_type)] + match c.data_type {
        DataType::Char(w) => le16(w as u16),
        _ => Seq::empty(),
    }
}

/// The bytes of columns one after the other.
pub open spec fn columns_bytes(cols: Seq<ColumnView>) -> Seq<u8>
    decreases cols.len(),
{
    if cols.len() == 0 {
        Seq::empty()
    } else {
        columns_bytes(cols.drop_last()) + column_bytes(cols.last())
    }
}

/// The metadata of a table: the number that the next row gets, and the columns.
pub open spec fn table_meta(next: u64, cols: Seq<ColumnView>) -> Seq<u8> {
    le64(next) + le16(cols.len() as u16) + columns_bytes(cols)
}

/// The metadata of an index: its table and its column.
pub open spec fn index_meta(ix: IndexView) -> Seq<u8> {
    text_block(ix.table) + text_block(ix.column)
}

/// The number of columns and the lengths of their names can be written.
pub open spec fn schema_storable(cols: Seq<ColumnView>) -> bool {
    &&& cols.len() <= u16::MAX
    &&& forall|i: int| 0 <= i < cols.len() ==> text_bytes((#[trigger] cols[i]).name).len() <= u16::MAX
}

/// A type as it is stored: of a width two bytes are kept.
pub open spec fn stored_type(t: DataType) -> DataType {
    match t {
        DataType::Char(w) => DataType::Char((w as u16) as usize),
        t => t,
    }
}

/// Columns as they are stored.
pub open spec fn stored_cols(cols: Seq<ColumnView>) -> Seq<ColumnView> {
    Seq::new(cols.len(), |i: int| ColumnView { name: cols[i].name, data_type: stored_type(cols[i].data_type) })
}

/// A value as a key: the order of the keys is that of the numbers or strings.
pub open spec fn encode(v: ValueView) -> Seq<u8> {
    match v {
        ValueView::Integer(n) => be64((n as u64) ^ 0x8000_0000_0000_0000),
        ValueView::Float(b) => be64(b),
        ValueView::Text(s) => text_bytes(s),
        ValueView::Char(s) => text_bytes(s),
        ValueView::Boolean(b) => seq![if b {
            1u8
        } else {
            0u8
        }],
        ValueView::Null => Seq::empty(),
    }
}

/// The key that an index has for a row with this value.
pub open spec fn index_entry(v: ValueView, id: u64) -> Seq<u8> {
    encode(v) + le64(id)
}

/// The row that a key of an index is for.
pub open spec fn entry_id(k: Seq<u8>) -> u64 {
    of_le64(k.subrange(k.len() - 8, k.len() as int))
}

/// The rows of a table as the contents of a tree.
pub open spec fn rows_data(rows: Map<u64, Seq<ValueView>>) -> Map<Seq<u8>, Seq<u8>> {
    Map::new(
        |k: Seq<u8>| rows.contains_key(of_be64(k)) && k == be64(of_be64(k)),
        |k: Seq<u8>| row_bytes(rows[of_be64(k)]),
    )
}

/// The contents of the tree of an index on column `col` of these rows.
pub open spec fn index_data(rows: Map<u64, Seq<ValueView>>, col: int) -> Map<Seq<u8>, Seq<u8>> {
    Map::new(
        |k: Seq<u8>| k.len() >= 8 && rows.contains_key(entry_id(k)) && k == index_entry(rows[entry_id(k)][col], entry_id(k)),
        |k: Seq<u8>| Seq::empty(),
    )
}

/// A table that can be represented: every row has a value for each column and a number that was
/// given out.
pub open spec fn table_ok(t: TableView) -> bool {
    &&& schema_storable(t.cols)
    &&& stored_cols(t.cols) == t.cols
    &&& forall|id: u64| #[trigger]
        t.rows.contains_key(id) ==> t.rows[id].len() == t.cols.len() && row_storable(t.rows[id]) && id < t.next
}

/// An index that can be represented: on a column of a table that exists.
pub open spec fn index_ok(db: DbView, ix: IndexView) -> bool {
    &&& text_bytes(ix.table).len() <= u32::MAX
    &&& text_bytes(ix.column).len() <= u32::MAX
    &&& db.tables.contains_key(uppercased(ix.table))
    &&& column_of(db.tables[uppercased(ix.table)].cols, ix.column) is Some
}

/// The place of the column of an index.
pub open spec fn index_col(db: DbView, ix: IndexView) -> int {
    column_of(db.tables[uppercased(ix.table)].cols, ix.column)->Some_0
}

/// The catalog represents the tables, and each index holds what it should for the rows `seen` by it.
#[verifier::opaque]
pub open spec fn mirrors(
    shelf: Map<Seq<u8>, Shelf>,
    db: DbView,
    seen: Map<Seq<char>, Map<u64, Seq<ValueView>>>,
) -> bool {
    &&& forall|n: Seq<char>| #[trigger]
        db.tables.contains_key(n) ==> {
            &&& table_ok(db.tables[n])
            &&& shelf.contains_key(tkey(n))
            &&& shelf[tkey(n)].meta == table_meta(db.tables[n].next, db.tables[n].cols)
            &&& shelf[tkey(n)].data == rows_data(db.tables[n].rows)
        }
    &&& forall|n: Seq<char>| #[trigger]
        db.indexes.contains_key(n) ==> {
            &&& index_ok(db, db.indexes[n])
            &&& shelf.contains_key(ikey(n))
            &&& shelf[ikey(n)].meta == index_meta(db.indexes[n])
            &&& shelf[ikey(n)].data == index_data(seen[n], index_col(db, db.indexes[n]))
        }
    &&& forall|k: Seq<u8>| #[trigger] shelf.contains_key(k) ==> is_table_key(db, k) || is_index_key(db, k)
}

/// The key is that of a table.
pub open spec fn is_table_key(db: DbView, k: Seq<u8>) -> bool {
    exists|n: Seq<char>| #[trigger] db.tables.contains_key(n) && k == tkey(n)
}

/// The key is that of an index.
pub open spec fn is_index_key(db: DbView, k: Seq<u8>) -> bool {
    exists|n: Seq<char>| #[trigger] db.indexes.contains_key(n) && k == ikey(n)
}

/// The rows that the indexes should have seen: those of their tables.
pub open spec fn all_seen(db: DbView) -> Map<Seq<char>, Map<u64, Seq<ValueView>>> {
    Map::new(|n: Seq<char>| db.indexes.contains_key(n), |n: Seq<char>| db.tables[uppercased(db.indexes[n].table)].rows)
}

/// The catalog represents the database.
pub open spec fn represents(shelf: Map<Seq<u8>, Shelf>, db: DbView) -> bool {
    mirrors(shelf, db, all_seen(db))
}

/// The database has so few tables and indexes that a page of the catalog has room for them.
pub open spec fn few_names(db: DbView) -> bool {
    &&& db.tables.dom().finite()
    &&& db.indexes.dom().finite()
    &&& db.tables.dom().len() + db.indexes.dom().len() <= MAX_KEYS_LEAF
}

/// The stock has everything that the representation of the database holds.
pub open spec fn covers(stock: Stock, db: DbView) -> bool {
    &&& stock.few ==> few_names(db)
    &&& forall|n: Seq<char>| #[trigger]
        db.tables.contains_key(n) ==> admits_entry(stock, tkey(n), table_meta(db.tables[n].next, db.tables[n].cols))
    &&& forall|n: Seq<char>, id: u64| #[trigger]
        db.tables[n].rows.contains_key(id) && db.tables.contains_key(n) ==> {
            &&& stock.keys.contains(be64(id))
            &&& stock.pairs.contains((be64(id), row_bytes(db.tables[n].rows[id])))
        }
    &&& forall|n: Seq<char>| #[trigger]
        db.indexes.contains_key(n) ==> admits_entry(stock, ikey(n), index_meta(db.indexes[n]))
    &&& forall|n: Seq<char>, id: u64| #[trigger]
        db.tables[uppercased(db.indexes[n].table)].rows.contains_key(id) && db.indexes.contains_key(n) ==> {
            let e = index_entry(
                db.tables[uppercased(db.indexes[n].table)].rows[id][index_col(db, db.indexes[n])],
                id,
            );
            &&& stock.keys.contains(e)
            &&& stock.pairs.contains((e, Seq::empty()))
        }
}

/// The names of a database, and one more that a database with few names has, fit into a page.
pub proof fn names_fit(shelf: Map<Seq<u8>, Shelf>, db: DbView, to: DbView, key: Seq<u8>)
    requires
        represents(shelf, db),
        few_names(to),
        db.tables.dom().subset_of(to.tables.dom()),
        db.indexes.dom().subset_of(to.indexes.dom()),
        is_table_key(to, key) || is_index_key(to, key),
    ensures
        shelf.dom().insert(key).len() <= MAX_KEYS_LEAF,
{
    reveal(mirrors);
    let f = |n: Seq<char>| tkey(n);
    let g = |n: Seq<char>| ikey(n);
    let a = to.tables.dom().map(f);
    let b = to.indexes.dom().map(g);
    assert forall|x: Seq<char>, y: Seq<char>| #[trigger] f(x) == #[trigger] f(y) implies x == y by {
        tkey_injective(x, y);
    }
    assert forall|x: Seq<char>, y: Seq<char>| #[trigger] g(x) == #[trigger] g(y) implies x == y by {
        ikey_injective(x, y);
    }
    lemma_map_size(to.tables.dom(), a, f);
    lemma_map_size(to.indexes.dom(), b, g);
    assert forall|k: Seq<u8>| shelf.dom().insert(key).contains(k) implies a.union(b).contains(k) by {
        if is_table_key(db, k) || (k == key && is_table_key(to, key)) {
            let n = choose|n: Seq<char>| to.tables.contains_key(n) && k == tkey(n);
            assert(to.tables.dom().contains(n) && f(n) == k);
            assert(a.contains(k));
        } else {
            let n = choose|n: Seq<char>| to.indexes.contains_key(n) && k == ikey(n);
            assert(to.indexes.dom().contains(n) && g(n) == k);
            assert(b.contains(k));
        }
    }
    lemma_set_union_finite_iff(a, b);
    lemma_len_subset(shelf.dom().insert(key), a.union(b));
    lemma_len_union(a, b);
}

/// Different names have different keys.
pub proof fn tkey_injective(a: Seq<char>, b: Seq<char>)
    requires
        tkey(a) == tkey(b),
    ensures
        a == b,
{
    assert(tkey(a).skip(6) =~= text_bytes(a));
    assert(tkey(b).skip(6) =~= text_bytes(b));
    text_bytes_injective(a, b);
}

/// Different names have different keys.
pub proof fn ikey_injective(a: Seq<char>, b: Seq<char>)
    requires
        ikey(a) == ikey(b),
    ensures
        a == b,
{
    assert(ikey(a).skip(6) =~= text_bytes(a));
    assert(ikey(b).skip(6) =~= text_bytes(b));
    text_bytes_injective(a, b);
}

/// No table has the key of an index.
pub proof fn keys_differ(a: Seq<char>, b: Seq<char>)
    ensures
        tkey(a) != ikey(b),
{
    assert(tkey(a)[0] == 0x74);
    assert(ikey(b)[0] == 0x69);
}

/// The key of a row is read back.
pub proof fn rows_data_key(rows: Map<u64, Seq<ValueView>>, id: u64)
    ensures
        rows_data(rows).contains_key(be64(id)) <==> rows.contains_key(id),
        rows.contains_key(id) ==> rows_data(rows)[be64(id)] == row_bytes(rows[id]),
{
    broadcast use group_ints;

}

/// Setting a row sets its entry.
pub proof fn rows_data_insert(rows: Map<u64, Seq<ValueView>>, id: u64, row: Seq<ValueView>)
    ensures
        rows_data(rows.insert(id, row)) == rows_data(rows).insert(be64(id), row_bytes(row)),
{
    broadcast use group_ints;

    assert(rows_data(rows.insert(id, row)) =~= rows_data(rows).insert(be64(id), row_bytes(row)));
}

/// Removing a row removes its entry.
pub proof fn rows_data_remove(rows: Map<u64, Seq<ValueView>>, id: u64)
    ensures
        rows_data(rows.remove(id)) == rows_data(rows).remove(be64(id)),
{
    broadcast use group_ints;

    assert(rows_data(rows.remove(id)) =~= rows_data(rows).remove(be64(id)));
}

/// The row of an index key is read back.
pub proof fn entry_id_of(v: ValueView, id: u64)
    ensures
        index_entry(v, id).len() >= 8,
        entry_id(index_entry(v, id)) == id,
{
    broadcast use group_ints;

    let k = index_entry(v, id);
    assert(k.subrange(k.len() - 8, k.len() as int) =~= le64(id));
}

/// Setting a row that was not there adds its index key.
pub proof fn index_data_insert(rows: Map<u64, Seq<ValueView>>, col: int, id: u64, row: Seq<ValueView>)
    requires
        !rows.contains_key(id),
    ensures
        index_data(rows.insert(id, row), col) == index_data(rows, col).insert(index_entry(row[col], id), Seq::empty()),
{
    entry_id_of(row[col], id);
    assert(index_data(rows.insert(id, row), col) =~= index_data(rows, col).insert(
        index_entry(row[col], id),
        Seq::empty(),
    ));
}

/// Removing a row removes its index key.
pub proof fn index_data_remove(rows: Map<u64, Seq<ValueView>>, col: int, id: u64)
    requires
        rows.contains_key(id),
    ensures
        index_data(rows.remove(id), col) == index_data(rows, col).remove(index_entry(rows[id][col], id)),
{
    entry_id_of(rows[id][col], id);
    assert(index_data(rows.remove(id), col) =~= index_data(rows, col).remove(index_entry(rows[id][col], id)));
}

/// What the catalog has for a table.
pub proof fn table_facts(
    shelf: Map<Seq<u8>, Shelf>,
    db: DbView,
    seen: Map<Seq<char>, Map<u64, Seq<ValueView>>>,
    n: Seq<char>,
)
    requires
        mirrors(shelf, db, seen),
        db.tables.contains_key(n),
    ensures
        table_ok(db.tables[n]),
        shelf.contains_key(tkey(n)),
        shelf[tkey(n)].meta == table_meta(db.tables[n].next, db.tables[n].cols),
        shelf[tkey(n)].data == rows_data(db.tables[n].rows),
{
    reveal(mirrors);
}

/// What the catalog has for an index.
pub proof fn index_facts(
    shelf: Map<Seq<u8>, Shelf>,
    db: DbView,
    seen: Map<Seq<char>, Map<u64, Seq<ValueView>>>,
    n: Seq<char>,
)
    requires
        mirrors(shelf, db, seen),
        db.indexes.contains_key(n),
    ensures
        index_ok(db, db.indexes[n]),
        shelf.contains_key(ikey(n)),
        shelf[ikey(n)].meta == index_meta(db.indexes[n]),
        shelf[ikey(n)].data == index_data(seen[n], index_col(db, db.indexes[n])),
{
    reveal(mirrors);
}

} // verus!
