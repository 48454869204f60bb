//! The tables and indexes of an open database.
pub mod ddl;
pub mod dml;
pub mod select;

use vstd::prelude::*;
use vstd::utf8::*;

use crate::bytes::{copy, le, lt, lt_asymmetric, lt_irreflexive, prefix_before};
use crate::engine::catalog::{catalog_file, failure, file_within, names_listed, written_in, Catalog};
use crate::engine::condition::{column_of, find_column};
use crate::engine::error::{Error, ErrorView};
use crate::engine::index::{index_row_key, row_key, upper_view};
use crate::engine::meta::{decode_index, decode_schema, index_of, index_read_back, schema_read_back};
use crate::engine::model::{
    all_seen, covers, ikey, ikey_injective, index_col, index_data, index_data_insert,
    index_data_remove, index_entry, index_facts, index_meta, index_ok, index_prefix, is_index_key,
    is_table_key, keys_differ, mirrors, represents, rows_data, rows_data_insert, rows_data_key,
    rows_data_remove, table_facts, table_meta, table_ok, table_prefix, tkey, tkey_injective, DbView,
    IndexView, TableView,
};
use crate::engine::row::{
    deserialize_row, deserialize_row_undoes_serialize_row, row_bytes, row_storable, serialize_row,
    RowError,
};
use crate::engine::semantics::{matching, too_large};
use crate::ints::{be64, be64_keeps_order, be64_roundtrip, from_be64, of_be64};
use crate::sql::ast::{row_view, schema_view, ColumnDef, ColumnView, ExprView, Value, ValueView};
use crate::storage::btree::pairs_view;
use crate::storage::page::{decode, PageError};
use crate::storage::pager::{left_in, pages_of, sound, PageFile, StorageError};
use crate::storage::store::{
    admits_entry, entry_meta, lists_all, pages_fit, standing, Shelf, PUT_PAGES,
};
use crate::storage::tree::{owns, roomy, sorted, Stock, Tree};
use crate::text::{
    bytes_of, from_utf8, same_text, text_bytes, text_roundtrip, uppercase, uppercased,
};

verus! {

/// The tables and indexes of an open database.
pub struct Tables {
    catalog: Catalog,
    db: Ghost<DbView>,
}

impl View for Tables {
    type V = DbView;

    closed spec fn view(&self) -> DbView {
        self.db@
    }
}

impl Tables {
    /// The catalog is in order and represents the database.
    pub closed spec fn wf(&self) -> bool {
        self.catalog.wf() && represents(self.catalog@, self.db@)
    }

    /// Every page in use can be written.
    pub closed spec fn all_fit(&self) -> bool {
        self.catalog.all_fit()
    }

    /// What the trees hold comes from this stock.
    pub closed spec fn holds_in(&self, stock: Stock) -> bool {
        self.catalog.holds_in(stock)
    }

    /// How many pages can be taken into use.
    pub closed spec fn pages_left(&self) -> nat {
        self.catalog.pages_left()
    }

    /// The pages in use.
    pub closed spec fn used(&self) -> Set<u32> {
        self.catalog.used()
    }

    /// The tree of the catalog itself.
    pub closed spec fn names_tree(&self) -> Tree {
        self.catalog.names_tree()
    }

    /// The tree of a table or an index by its key in the catalog.
    pub closed spec fn tree_of(&self, key: Seq<u8>) -> Tree {
        self.catalog.tree_of(key)
    }
}

/// Nothing has changed.
pub open spec fn stays(a: Tables, b: Tables) -> bool {
    &&& b.wf()
    &&& b@ == a@
    &&& b.pages_left() == a.pages_left()
    &&& b.used() == a.used()
    &&& b.names_tree() == a.names_tree()
    &&& forall|key: Seq<u8>| #[trigger] b.tree_of(key) == a.tree_of(key)
    &&& b.all_fit() == a.all_fit()
    &&& forall|stock: Stock|
        #![trigger b.holds_in(stock)]
        #![trigger a.holds_in(stock)]
        b.holds_in(stock) == a.holds_in(stock)
}

/// A table or an index has been dropped, and its tree with it: the pages in use are those of the catalog
/// itself as it is now, and those that were in use and belonged neither to it nor to the tree.
pub open spec fn tree_freed(a: Tables, b: Tables, key: Seq<u8>) -> bool {
    forall|x: u32|
        #![trigger b.used().contains(x)]
        #![trigger a.used().contains(x)]
        b.used().contains(x) <==> owns(b.names_tree(), x) || (a.used().contains(x) && !owns(a.names_tree(), x) && !owns(
            a.tree_of(key),
            x,
        ))
}

/// The storage layer failed while it read, which takes a page that cannot be written.
pub open spec fn read_failed(a: Tables, e: ErrorView) -> bool {
    e == too_large() && !a.all_fit()
}

/// Whatever stock has everything that the database holds before and after, writing keeps within it, and
/// takes at most so many pages; and if the stock has room, writing fails only if fewer pages are left.
pub open spec fn spacious(a: Tables, b: Tables, to: DbView, most: nat, failed: Option<ErrorView>) -> bool {
    forall|stock: Stock| #[trigger]
        a.holds_in(stock) && covers(stock, a@) && covers(stock, to) ==> {
            &&& b.holds_in(stock)
            &&& failed is None ==> b.pages_left() + most >= a.pages_left()
            &&& roomy(stock) && a.all_fit() ==> match failed {
                None => b.all_fit(),
                Some(e) => e == ErrorView::Storage(StorageError::Full) && a.pages_left() < most,
            }
        }
}

/// What takes at most so many pages takes at most more.
pub proof fn spacious_more(a: Tables, b: Tables, to: DbView, less: nat, most: nat, failed: Option<ErrorView>)
    requires
        spacious(a, b, to, less, failed),
        less <= most,
    ensures
        spacious(a, b, to, most, failed),
{
}

/// The indexes on a table.
pub open spec fn indexes_on(db: DbView, table: Seq<char>) -> Set<Seq<char>> {
    Set::new(|n: Seq<char>| db.indexes.contains_key(n) && uppercased(db.indexes[n].table) == uppercased(table))
}

/// How many pages CREATE TABLE takes at most.
pub open spec fn create_table_pages() -> nat {
    (PUT_PAGES + 1) as nat
}

/// How many pages CREATE INDEX takes at most.
pub open spec fn create_index_pages(db: DbView, table: Seq<char>) -> nat {
    (PUT_PAGES + 1 + PUT_PAGES * db.tables[uppercased(table)].rows.dom().len()) as nat
}

/// How many pages INSERT takes at most.
pub open spec fn insert_pages(db: DbView, table: Seq<char>) -> nat {
    (PUT_PAGES + PUT_PAGES * indexes_on(db, table).len()) as nat
}

/// How many pages UPDATE takes at most.
pub open spec fn update_pages(db: DbView, table: Seq<char>, condition: ExprView) -> nat {
    (matching(db.tables[uppercased(table)], condition).len() * (PUT_PAGES * indexes_on(db, table).len())) as nat
}

/// A list of the indexes on a table is as long as there are indexes.
pub proof fn index_list_len(v: Seq<(String, String)>, db: DbView, table: Seq<char>)
    requires
        index_list(v, db, table),
    ensures
        indexes_on(db, table).len() == v.len(),
        indexes_on(db, table).finite(),
{
    let names = Seq::new(v.len(), |i: int| v[i].0@);
    assert(names.no_duplicates()) by {
        assert forall|i: int, j: int| 0 <= i < j < names.len() implies names[i] != names[j] by {
            assert(v[i].0@ != v[j].0@);
        }
    }
    names.unique_seq_to_set();
    vstd::seq_lib::seq_to_set_is_finite(names);
    assert(names.to_set() =~= indexes_on(db, table)) by {
        assert forall|n: Seq<char>| names.to_set().contains(n) <==> indexes_on(db, table).contains(n) by {
            if names.to_set().contains(n) {
                let i = choose|i: int| 0 <= i < names.len() && names[i] == n;
                assert(v[i].0@ == n);
            }
            if indexes_on(db, table).contains(n) {
                assert(db.indexes.contains_key(n));
                let i = choose|i: int| 0 <= i < v.len() && (#[trigger] v[i]).0@ == n;
                assert(names[i] == n);
            }
        }
    }
}

/// A list of the rows of a table is as long as there are rows.
pub proof fn all_rows_len(v: Seq<(u64, Vec<Value>)>, rows: Map<u64, Seq<ValueView>>)
    requires
        all_rows(v, rows),
    ensures
        rows.dom().len() == v.len(),
        rows.dom().finite(),
{
    let ids = Seq::new(v.len(), |i: int| v[i].0);
    assert(ids.no_duplicates()) by {
        assert forall|i: int, j: int| 0 <= i < j < ids.len() implies ids[i] != ids[j] by {
            assert(v[i].0 < v[j].0);
        }
    }
    ids.unique_seq_to_set();
    vstd::seq_lib::seq_to_set_is_finite(ids);
    assert(ids.to_set() =~= rows.dom()) by {
        assert forall|id: u64| ids.to_set().contains(id) <==> rows.dom().contains(id) by {
            if ids.to_set().contains(id) {
                let i = choose|i: int| 0 <= i < ids.len() && ids[i] == id;
                assert(v[i].0 == id);
            }
            if rows.contains_key(id) {
                let i = choose|i: int| 0 <= i < v.len() && (#[trigger] v[i]).0 == id;
                assert(ids[i] == id);
            }
        }
    }
}

/// The catalog has the key of a table exactly if there is such a table.
pub proof fn has_table(
    shelf: Map<Seq<u8>, Shelf>,
    db: DbView,
    seen: Map<Seq<char>, Map<u64, Seq<ValueView>>>,
    n: Seq<char>,
)
    requires
        mirrors(shelf, db, seen),
    ensures
        shelf.contains_key(tkey(n)) <==> db.tables.contains_key(n),
{
    reveal(mirrors);
    if shelf.contains_key(tkey(n)) {
        if is_table_key(db, tkey(n)) {
            let m = choose|m: Seq<char>| #[trigger] db.tables.contains_key(m) && tkey(n) == tkey(m);
            tkey_injective(n, m);
        } else {
            let m = choose|m: Seq<char>| #[trigger] db.indexes.contains_key(m) && tkey(n) == ikey(m);
            keys_differ(n, m);
        }
    }
}

/// The catalog has the key of an index exactly if there is such an index.
pub proof fn has_index(
    shelf: Map<Seq<u8>, Shelf>,
    db: DbView,
    seen: Map<Seq<char>, Map<u64, Seq<ValueView>>>,
    n: Seq<char>,
)
    requires
        mirrors(shelf, db, seen),
    ensures
        shelf.contains_key(ikey(n)) <==> db.indexes.contains_key(n),
{
    reveal(mirrors);
    if shelf.contains_key(ikey(n)) {
        if is_index_key(db, ikey(n)) {
            let m = choose|m: Seq<char>| #[trigger] db.indexes.contains_key(m) && ikey(n) == ikey(m);
            ikey_injective(n, m);
        } else {
            let m = choose|m: Seq<char>| #[trigger] db.tables.contains_key(m) && ikey(n) == tkey(m);
            keys_differ(m, n);
        }
    }
}

/// The database with a table set.
pub open spec fn with_table(db: DbView, n: Seq<char>, t: TableView) -> DbView {
    DbView { tables: db.tables.insert(n, t), indexes: db.indexes }
}

/// Changing the rows or the next number of a table.
pub proof fn table_changed(
    shelf: Map<Seq<u8>, Shelf>,
    db: DbView,
    seen: Map<Seq<char>, Map<u64, Seq<ValueView>>>,
    n: Seq<char>,
    t: TableView,
)
    requires
        mirrors(shelf, db, seen),
        db.tables.contains_key(n),
        t.cols == db.tables[n].cols,
        table_ok(t),
    ensures
        mirrors(
            shelf.insert(tkey(n), (Shelf { meta: table_meta(t.next, t.cols), data: rows_data(t.rows) })),
            with_table(db, n, t),
            seen,
        ),
{
    reveal(mirrors);
    let shelf2 = shelf.insert(tkey(n), Shelf { meta: table_meta(t.next, t.cols), data: rows_data(t.rows) });
    let db2 = with_table(db, n, t);
    assert forall|m: Seq<char>| #[trigger] db2.tables.contains_key(m) implies {
        &&& table_ok(db2.tables[m])
        &&& shelf2.contains_key(tkey(m))
        &&& shelf2[tkey(m)].meta == table_meta(db2.tables[m].next, db2.tables[m].cols)
        &&& shelf2[tkey(m)].data == rows_data(db2.tables[m].rows)
    } by {
        if m != n {
            assert(db.tables.contains_key(m));
            if tkey(m) == tkey(n) {
                tkey_injective(m, n);
            }
        }
    }
    assert forall|m: Seq<char>| #[trigger] db2.indexes.contains_key(m) implies {
        &&& index_ok(db2, db2.indexes[m])
        &&& shelf2.contains_key(ikey(m))
        &&& shelf2[ikey(m)].meta == index_meta(db2.indexes[m])
        &&& shelf2[ikey(m)].data == index_data(seen[m], index_col(db2, db2.indexes[m]))
    } by {
        assert(db.indexes.contains_key(m));
        keys_differ(n, m);
    }
    assert forall|k: Seq<u8>| #[trigger] shelf2.contains_key(k) implies is_table_key(db2, k) || is_index_key(
        db2,
        k,
    ) by {
        if k == tkey(n) {
            assert(db2.tables.contains_key(n));
        } else {
            assert(shelf.contains_key(k));
            if is_table_key(db, k) {
                let m = choose|m: Seq<char>| #[trigger] db.tables.contains_key(m) && k == tkey(m);
                assert(db2.tables.contains_key(m));
            } else {
                let m = choose|m: Seq<char>| #[trigger] db.indexes.contains_key(m) && k == ikey(m);
                assert(db2.indexes.contains_key(m));
            }
        }
    }
}

/// Changing what an index holds.
pub proof fn index_changed(
    shelf: Map<Seq<u8>, Shelf>,
    db: DbView,
    seen: Map<Seq<char>, Map<u64, Seq<ValueView>>>,
    n: Seq<char>,
    rows: Map<u64, Seq<ValueView>>,
)
    requires
        mirrors(shelf, db, seen),
        db.indexes.contains_key(n),
    ensures
        mirrors(
            shelf.insert(
                ikey(n),
                (Shelf {
                    meta: index_meta(db.indexes[n]),
                    data: index_data(rows, index_col(db, db.indexes[n])),
                }),
            ),
            db,
            seen.insert(n, rows),
        ),
{
    reveal(mirrors);
    let shelf2 = shelf.insert(
        ikey(n),
        Shelf { meta: index_meta(db.indexes[n]), data: index_data(rows, index_col(db, db.indexes[n])) },
    );
    let seen2 = seen.insert(n, rows);
    assert forall|m: Seq<char>| #[trigger] db.tables.contains_key(m) implies {
        &&& table_ok(db.tables[m])
        &&& shelf2.contains_key(tkey(m))
        &&& shelf2[tkey(m)].meta == table_meta(db.tables[m].next, db.tables[m].cols)
        &&& shelf2[tkey(m)].data == rows_data(db.tables[m].rows)
    } by {
        keys_differ(m, n);
    }
    assert forall|m: Seq<char>| #[trigger] db.indexes.contains_key(m) implies {
        &&& index_ok(db, db.indexes[m])
        &&& shelf2.contains_key(ikey(m))
        &&& shelf2[ikey(m)].meta == index_meta(db.indexes[m])
        &&& shelf2[ikey(m)].data == index_data(seen2[m], index_col(db, db.indexes[m]))
    } by {
        if m != n && ikey(m) == ikey(n) {
            ikey_injective(m, n);
        }
    }
    assert forall|k: Seq<u8>| #[trigger] shelf2.contains_key(k) implies is_table_key(db, k) || is_index_key(db, k) by {
        if k == ikey(n) {
            assert(db.indexes.contains_key(n));
        } else {
            assert(shelf.contains_key(k));
        }
    }
}

/// What the indexes have seen matters only where there are indexes.
pub proof fn seen_agree(
    shelf: Map<Seq<u8>, Shelf>,
    db: DbView,
    seen: Map<Seq<char>, Map<u64, Seq<ValueView>>>,
    seen2: Map<Seq<char>, Map<u64, Seq<ValueView>>>,
)
    requires
        mirrors(shelf, db, seen),
        forall|n: Seq<char>| #[trigger]
            db.indexes.contains_key(n) ==> index_data(seen2[n], index_col(db, db.indexes[n])) == index_data(
                seen[n],
                index_col(db, db.indexes[n]),
            ),
    ensures
        mirrors(shelf, db, seen2),
{
    reveal(mirrors);
}

/// A list of the indexes on a table, each with its column.
pub open spec fn index_list(v: Seq<(String, String)>, db: DbView, table: Seq<char>) -> bool {
    &&& forall|i: int|
        0 <= i < v.len() ==> {
            let n = (#[trigger] v[i]).0@;
            &&& db.indexes.contains_key(n)
            &&& uppercased(db.indexes[n].table) == uppercased(table)
            &&& db.indexes[n].column == v[i].1@
        }
    &&& forall|n: Seq<char>| #[trigger]
        db.indexes.contains_key(n) && uppercased(db.indexes[n].table) == uppercased(table) ==> exists|i: int|
            0 <= i < v.len() && (#[trigger] v[i]).0@ == n
    &&& forall|i: int, j: int| 0 <= i < j < v.len() ==> (#[trigger] v[i]).0@ != (#[trigger] v[j]).0@
}

/// The catalog key of a table.
pub fn table_key(name: &str) -> (r: Vec<u8>)
    ensures
        r@ == tkey(uppercased(name@)),
{
    let upper = uppercase(name);
    let mut k: Vec<u8> = vec![0x74u8, 0x61u8, 0x62u8, 0x6cu8, 0x65u8, 0x3au8];
    assert(k@ =~= table_prefix());
    k.extend_from_slice(bytes_of(upper.as_str()));
    k
}

/// The catalog key of an index whose name is in upper case.
pub fn upper_index_key(name: &str) -> (r: Vec<u8>)
    ensures
        r@ == ikey(name@),
{
    let mut k: Vec<u8> = vec![0x69u8, 0x6eu8, 0x64u8, 0x65u8, 0x78u8, 0x3au8];
    assert(k@ =~= index_prefix());
    k.extend_from_slice(bytes_of(name));
    k
}

/// The catalog key of an index.
pub fn index_key(name: &str) -> (r: Vec<u8>)
    ensures
        r@ == ikey(uppercased(name@)),
{
    let upper = uppercase(name);
    upper_index_key(upper.as_str())
}

/// Whether bytes start with "index:".
pub fn is_index_key_bytes(k: &Vec<u8>) -> (r: bool)
    ensures
        r == (k@.len() >= 6 && k@.take(6) == index_prefix()),
{
    if k.len() < 6 {
        return false;
    }
    let r = k[0] == 0x69 && k[1] == 0x6e && k[2] == 0x64 && k[3] == 0x65 && k[4] == 0x78 && k[5] == 0x3a;
    proof {
        let p = k@.take(6);
        if r {
            assert(p =~= index_prefix());
        } else {
            assert(p[0] == k@[0] && p[1] == k@[1] && p[2] == k@[2] && p[3] == k@[3] && p[4] == k@[4] && p[5] == k@[5]);
        }
    }
    r
}

/// Whether bytes start with "table:".
pub fn is_table_key_bytes(k: &Vec<u8>) -> (r: bool)
    ensures
        r == (k@.len() >= 6 && k@.take(6) == table_prefix()),
{
    if k.len() < 6 {
        return false;
    }
    let r = k[0] == 0x74 && k[1] == 0x61 && k[2] == 0x62 && k[3] == 0x6c && k[4] == 0x65 && k[5] == 0x3a;
    proof {
        let p = k@.take(6);
        if r {
            assert(p =~= table_prefix());
        } else {
            assert(p[0] == k@[0] && p[1] == k@[1] && p[2] == k@[2] && p[3] == k@[3] && p[4] == k@[4] && p[5] == k@[5]);
        }
    }
    r
}

/// The name, table and column of an index, read from a catalog entry, if it is that of an index.
fn read_index(key: &Vec<u8>, value: &Vec<u8>) -> (r: Result<Option<(String, String, String)>, RowError>)
    ensures
        ({
            let is_index = key@.len() >= 6 && key@.take(6) == index_prefix();
            match r {
                Ok(None) => !is_index,
                Ok(Some((name, table, column))) => {
                    &&& is_index
                    &&& valid_utf8(key@.skip(6))
                    &&& name@ == decode_utf8(key@.skip(6))
                    &&& index_of(entry_meta(value@)) == Ok::<IndexView, RowError>(
                        (IndexView { table: table@, column: column@ }),
                    )
                },
                Err(e) => is_index && (value@.len() < 4 || !valid_utf8(key@.skip(6)) || index_of(
                    entry_meta(value@),
                ) is Err),
            }
        }),
{
    if !is_index_key_bytes(key) {
        return Ok(None);
    }
    if value.len() < 4 {
        return Err(RowError::End);
    }
    assert(key@.subrange(6, key@.len() as int) =~= key@.skip(6));
    let name = match from_utf8(copy(vstd::slice::slice_subrange(key.as_slice(), 6, key.len()))) {
        None => {
            return Err(RowError::Utf8);
        },
        Some(s) => s,
    };
    match decode_index(vstd::slice::slice_subrange(value.as_slice(), 4, value.len())) {
        Err(e) => Err(e),
        Ok((table, column)) => Ok(Some((name, table, column))),
    }
}

impl Tables {
    /// The number of the next row and the columns of a table.
    pub fn get_table(&mut self, name: &str) -> (r: Result<(u64, Vec<ColumnDef>), Error>)
        ensures
            old(self).wf() ==> {
                let n = uppercased(name@);
                &&& stays(*old(self), *final(self))
                &&& match r {
                    Ok((next, schema)) => {
                        &&& old(self)@.tables.contains_key(n)
                        &&& next == old(self)@.tables[n].next
                        &&& schema_view(schema@) == old(self)@.tables[n].cols
                    },
                    Err(e) => {
                        ||| e@ == ErrorView::NoTable(name@) && !old(self)@.tables.contains_key(n)
                        ||| read_failed(*old(self), e@)
                    },
                }
            },
    {
        let ghost good = self.wf();
        let ghost n = uppercased(name@);
        let ghost db = self.db@;
        proof {
            if good {
                has_table(self.catalog@, db, all_seen(db), n);
            }
        }
        let key = table_key(name);
        match self.catalog.lookup(key.as_slice()) {
            Err(e) => Err(Error::Storage(e)),
            Ok(None) => Err(Error::NoTable(name.to_owned())),
            Ok(Some(meta)) => {
                proof {
                    if good {
                        table_facts(self.catalog@, db, all_seen(db), n);
                        schema_read_back(db.tables[n].next, db.tables[n].cols);
                    }
                }
                match decode_schema(meta.as_slice()) {
                    Err(e) => Err(Error::Row(e)),
                    Ok((next, schema)) => Ok((next, schema)),
                }
            },
        }
    }

    /// Whether there is a table of this name.
    pub fn table_exists(&mut self, name: &str) -> (r: Result<bool, Error>)
        ensures
            old(self).wf() ==> {
                &&& stays(*old(self), *final(self))
                &&& match r {
                    Ok(b) => b == old(self)@.tables.contains_key(uppercased(name@)),
                    Err(e) => read_failed(*old(self), e@),
                }
            },
    {
        proof {
            if self.wf() {
                has_table(self.catalog@, self.db@, all_seen(self.db@), uppercased(name@));
            }
        }
        let key = table_key(name);
        match self.catalog.lookup(key.as_slice()) {
            Err(e) => Err(Error::Storage(e)),
            Ok(None) => Ok(false),
            Ok(Some(_)) => Ok(true),
        }
    }

    /// The indexes on a table, each with its column.
    pub fn list_indexes(&mut self, table: &str) -> (r: Result<Vec<(String, String)>, Error>)
        ensures
            old(self).wf() ==> {
                &&& stays(*old(self), *final(self))
                &&& match r {
                    Ok(v) => index_list(v@, old(self)@, table@),
                    Err(e) => read_failed(*old(self), e@),
                }
            },
    {
        let ghost good = self.wf();
        let ghost db = self.db@;
        let ghost shelf = self.catalog@;
        let ghost was = *self;
        let upper = uppercase(table);
        let prefix = upper_index_key("");
        proof {
            reveal_strlit("");
            assert(prefix@ =~= index_prefix());
        }
        let entries = match self.catalog.names_from(prefix.as_slice()) {
            Err(e) => {
                return Err(Error::Storage(e));
            },
            Ok(v) => v,
        };
        let ghost all = pairs_view(entries@);
        let mut result: Vec<(String, String)> = Vec::new();
        let mut i: usize = 0;
        while i < entries.len()
            invariant
                i <= entries@.len(),
                all == pairs_view(entries@),
                was == *old(self),
                good == was.wf(),
                db == was.db@,
                shelf == was.catalog@,
                upper@ == uppercased(table@),
                good ==> {
                    &&& stays(was, *self)
                    &&& mirrors(shelf, db, all_seen(db))
                    &&& names_listed(all, shelf, index_prefix())
                    &&& listed_upto(result@, db, table@, all, i as int)
                },
            decreases entries@.len() - i,
        {
            let ghost before = result@;
            let ghost k = entries@[i as int].0@;
            let ghost n = decode_utf8(k.skip(6));
            proof {
                assert(all[i as int] == (k, entries@[i as int].1@));
                if good {
                    assert(shelf.contains_key(all[i as int].0));
                    if k.len() >= 6 && k.take(6) == index_prefix() {
                        index_key_name(shelf, db, all_seen(db), k);
                        index_facts(shelf, db, all_seen(db), n);
                        index_read_back(db.indexes[n]);
                    }
                }
            }
            match read_index(&entries[i].0, &entries[i].1) {
                Err(e) => {
                    return Err(Error::Row(e));
                },
                Ok(None) => {
                    proof {
                        if good {
                            assert forall|m: Seq<char>| all[i as int].0 != #[trigger] ikey(m) by {
                                assert(ikey(m).take(6) =~= index_prefix());
                            }
                            listed_skip(before, db, table@, all, i as int);
                        }
                    }
                },
                Ok(Some((name, idx_table, column))) => {
                    let idx_upper = uppercase(idx_table.as_str());
                    if same_text(idx_upper.as_str(), upper.as_str()) {
                        result.push((name, column));
                        assert(result@.drop_last() =~= before);
                    }
                    proof {
                        if good {
                            listed_step(before, result@, db, table@, all, i as int, n);
                        }
                    }
                },
            }
            i += 1;
        }
        proof {
            if good {
                assert forall|n: Seq<char>| #[trigger]
                    db.indexes.contains_key(n) && uppercased(db.indexes[n].table) == uppercased(
                        table@,
                    ) implies exists|p: int| 0 <= p < result@.len() && (#[trigger] result@[p]).0@ == n by {
                    has_index(shelf, db, all_seen(db), n);
                    prefix_le(index_prefix(), text_bytes(n));
                    let q = choose|q: int| 0 <= q < all.len() && (#[trigger] all[q]).0 == ikey(n);
                    assert(all[q].0 == ikey(n));
                }
            }
        }
        Ok(result)
    }
}

pub proof fn prefix_le(a: Seq<u8>, b: Seq<u8>)
    ensures
        le(a, a + b),
{
    if b.len() == 0 {
        assert(a + b =~= a);
    } else {
        prefix_before(a, b);
    }
}

/// A catalog key that starts like that of an index is that of the index with the name behind it.
proof fn index_key_name(
    shelf: Map<Seq<u8>, Shelf>,
    db: DbView,
    seen: Map<Seq<char>, Map<u64, Seq<ValueView>>>,
    k: Seq<u8>,
)
    requires
        mirrors(shelf, db, seen),
        shelf.contains_key(k),
        k.len() >= 6,
        k.take(6) == index_prefix(),
    ensures
        valid_utf8(k.skip(6)),
        db.indexes.contains_key(decode_utf8(k.skip(6))),
        k == ikey(decode_utf8(k.skip(6))),
{
    reveal(mirrors);
    if is_table_key(db, k) {
        let m = choose|m: Seq<char>| #[trigger] db.tables.contains_key(m) && k == tkey(m);
        assert(tkey(m).take(6) =~= table_prefix());
        assert(table_prefix()[0] != index_prefix()[0]);
    } else {
        let m = choose|m: Seq<char>| #[trigger] db.indexes.contains_key(m) && k == ikey(m);
        assert(ikey(m).skip(6) =~= text_bytes(m));
        text_roundtrip(m);
    }
}

spec fn listed_upto(
    v: Seq<(String, String)>,
    db: DbView,
    table: Seq<char>,
    all: Seq<(Seq<u8>, Seq<u8>)>,
    i: int,
) -> bool {
    &&& forall|p: int|
        0 <= p < v.len() ==> {
            let n = (#[trigger] v[p]).0@;
            &&& db.indexes.contains_key(n)
            &&& uppercased(db.indexes[n].table) == uppercased(table)
            &&& db.indexes[n].column == v[p].1@
            &&& exists|q: int| 0 <= q < i && (#[trigger] all[q]).0 == ikey(n)
        }
    &&& forall|q: int, n: Seq<char>|
        0 <= q < i && (#[trigger] all[q]).0 == #[trigger] ikey(n) && db.indexes.contains_key(n) && uppercased(
            db.indexes[n].table,
        ) == uppercased(table) ==> exists|p: int| 0 <= p < v.len() && (#[trigger] v[p]).0@ == n
    &&& forall|p: int, q: int| 0 <= p < q < v.len() ==> (#[trigger] v[p]).0@ != (#[trigger] v[q]).0@
}

proof fn listed_skip(v: Seq<(String, String)>, db: DbView, table: Seq<char>, all: Seq<(Seq<u8>, Seq<u8>)>, i: int)
    requires
        listed_upto(v, db, table, all, i),
        0 <= i < all.len(),
        forall|n: Seq<char>| all[i].0 != #[trigger] ikey(n),
    ensures
        listed_upto(v, db, table, all, i + 1),
{
    assert forall|p: int| 0 <= p < v.len() implies exists|q: int|
        0 <= q < i + 1 && (#[trigger] all[q]).0 == ikey((#[trigger] v[p]).0@) by {
        let q = choose|q: int| 0 <= q < i && (#[trigger] all[q]).0 == ikey(v[p].0@);
        assert(all[q].0 == ikey(v[p].0@));
    }
}

proof fn listed_step(
    v: Seq<(String, String)>,
    v2: Seq<(String, String)>,
    db: DbView,
    table: Seq<char>,
    all: Seq<(Seq<u8>, Seq<u8>)>,
    i: int,
    n: Seq<char>,
)
    requires
        sorted(all),
        listed_upto(v, db, table, all, i),
        0 <= i < all.len(),
        all[i].0 == ikey(n),
        db.indexes.contains_key(n),
        if uppercased(db.indexes[n].table) == uppercased(table) {
            &&& v2.len() == v.len() + 1
            &&& v2.drop_last() == v
            &&& v2.last().0@ == n
            &&& v2.last().1@ == db.indexes[n].column
        } else {
            v2 == v
        },
    ensures
        listed_upto(v2, db, table, all, i + 1),
{
    assert forall|p: int| 0 <= p < v2.len() implies {
        let n = (#[trigger] v2[p]).0@;
        &&& db.indexes.contains_key(n)
        &&& uppercased(db.indexes[n].table) == uppercased(table)
        &&& db.indexes[n].column == v2[p].1@
        &&& exists|q: int| 0 <= q < i + 1 && (#[trigger] all[q]).0 == ikey(n)
    } by {
        if p < v.len() {
            assert(v2[p] == v[p]) by {
                if v2 != v {
                    assert(v2.drop_last()[p] == v[p]);
                }
            }
            let q = choose|q: int| 0 <= q < i && (#[trigger] all[q]).0 == ikey(v[p].0@);
            assert(all[q].0 == ikey(v2[p].0@));
        } else {
            assert(all[i].0 == ikey(v2[p].0@));
        }
    }
    assert forall|q: int, m: Seq<char>|
        0 <= q < i + 1 && (#[trigger] all[q]).0 == #[trigger] ikey(m) && db.indexes.contains_key(m) && uppercased(
            db.indexes[m].table,
        ) == uppercased(table) implies exists|p: int| 0 <= p < v2.len() && (#[trigger] v2[p]).0@ == m by {
        if q < i {
            let p = choose|p: int| 0 <= p < v.len() && (#[trigger] v[p]).0@ == m;
            if v2 != v {
                assert(v2.drop_last()[p] == v[p]);
            }
            assert(v2[p].0@ == m);
        } else {
            ikey_injective(n, m);
            assert(v2[v2.len() - 1].0@ == m);
        }
    }
    assert forall|p: int, q: int| 0 <= p < q < v2.len() implies (#[trigger] v2[p]).0@ != (#[trigger] v2[q]).0@ by {
        if v2 != v {
            assert(v2.drop_last()[p] == v[p]);
            if q < v.len() {
                assert(v2.drop_last()[q] == v[q]);
                assert(v[p].0@ != v[q].0@);
            } else {
                let x = choose|x: int| 0 <= x < i && (#[trigger] all[x]).0 == ikey(v[p].0@);
                assert(lt(all[x].0, all[i].0));
                lt_irreflexive(all[i].0);
            }
        }
    }
}

/// The rows after the row with number `id` has been set or removed.
pub open spec fn rows_with(rows: Map<u64, Seq<ValueView>>, id: u64, new: Option<Seq<ValueView>>) -> Map<
    u64,
    Seq<ValueView>,
> {
    match new {
        Some(row) => rows.insert(id, row),
        None => rows.remove(id),
    }
}

/// A row that may be missing, by its view.
pub open spec fn row_opt(row: Option<Vec<Value>>) -> Option<Seq<ValueView>> {
    match row {
        None => None,
        Some(r) => Some(row_view(r@)),
    }
}

/// The contents of an index after a key has been replaced by another.
pub open spec fn moved(data: Map<Seq<u8>, Seq<u8>>, old: Option<Seq<u8>>, new: Option<Seq<u8>>) -> Map<
    Seq<u8>,
    Seq<u8>,
> {
    let gone = match old {
        Some(k) => data.remove(k),
        None => data,
    };
    match new {
        Some(k) => gone.insert(k, Seq::empty()),
        None => gone,
    }
}

/// The stock admits the keys of an index.
spec fn admits_move(stock: Stock, ik: Seq<u8>, meta: Seq<u8>, new: Option<Seq<u8>>) -> bool {
    &&& admits_entry(stock, ik, meta)
    &&& new matches Some(k) ==> stock.keys.contains(k) && stock.pairs.contains((k, Seq::empty()))
}

/// How many pages replacing a key of an index by another takes at most.
spec fn move_pages(new: Option<Seq<u8>>) -> nat {
    if new is Some {
        PUT_PAGES as nat
    } else {
        0
    }
}

/// Replace a key of an index by another.
fn move_key(catalog: &mut Catalog, ik: &Vec<u8>, old_key: &Option<Vec<u8>>, new_key: &Option<Vec<u8>>) -> (r: Result<
    (),
    StorageError,
>)
    ensures
        old(catalog).wf() && old(catalog)@.contains_key(ik@) ==> {
            let was = old(catalog)@;
            &&& r is Ok ==> {
                &&& final(catalog).wf()
                &&& final(catalog)@ == was.insert(
                    ik@,
                    (Shelf {
                        meta: was[ik@].meta,
                        data: moved(was[ik@].data, upper_view(*old_key), upper_view(*new_key)),
                    }),
                )
            }
            &&& forall|stock: Stock| #[trigger]
                old(catalog).holds_in(stock) && admits_move(stock, ik@, was[ik@].meta, upper_view(*new_key))
                    ==> written_in(*old(catalog), *final(catalog), stock, move_pages(upper_view(*new_key)), failure(r))
        },
{
    let ghost was = *catalog;
    let ghost good = catalog.wf() && catalog@.contains_key(ik@);
    match old_key {
        Some(k) => {
            match catalog.delete_in(ik.as_slice(), k.as_slice()) {
                Err(e) => {
                    return Err(e);
                },
                Ok(_) => {},
            }
        },
        None => {
            proof {
                if good {
                    assert(was@.insert(ik@, Shelf { meta: was@[ik@].meta, data: was@[ik@].data }) =~= was@);
                }
            }
        },
    }
    let ghost mid = *catalog;
    proof {
        if good {
            assert forall|stock: Stock| #[trigger]
                was.holds_in(stock) && admits_move(
                    stock,
                    ik@,
                    was@[ik@].meta,
                    upper_view(*new_key),
                ) implies mid.holds_in(stock) && mid.pages_left() >= was.pages_left() && (roomy(stock) && was.all_fit()
                ==> mid.all_fit()) by {}
        }
    }
    match new_key {
        Some(k) => {
            let nothing: Vec<u8> = Vec::new();
            assert(nothing@ =~= Seq::empty());
            match catalog.put_in(ik.as_slice(), k.as_slice(), nothing.as_slice()) {
                Err(e) => {
                    return Err(e);
                },
                Ok(_) => {},
            }
        },
        None => {},
    }
    proof {
        if good {
            let shelf = Shelf {
                meta: was@[ik@].meta,
                data: moved(was@[ik@].data, upper_view(*old_key), upper_view(*new_key)),
            };
            assert(catalog@ =~= was@.insert(ik@, shelf));
        }
    }
    Ok(())
}

/// The index is among the first `k` of a list.
spec fn among(list: Seq<(String, String)>, k: int, m: Seq<char>) -> bool {
    exists|i: int| 0 <= i < k && (#[trigger] list[i]).0@ == m
}

/// What the indexes have seen when the first `k` of those on the changed table know the new rows.
spec fn seen_upto(db: DbView, list: Seq<(String, String)>, k: int, rows: Map<u64, Seq<ValueView>>) -> Map<
    Seq<char>,
    Map<u64, Seq<ValueView>>,
> {
    Map::new(
        |m: Seq<char>| db.indexes.contains_key(m),
        |m: Seq<char>| if among(list, k, m) {
            rows
        } else {
            db.tables[uppercased(db.indexes[m].table)].rows
        },
    )
}

/// The row of a table is to be set or removed.
pub open spec fn row_ready(
    now: Tables,
    table: Seq<char>,
    key: Seq<u8>,
    id: u64,
    old_row: Option<Seq<ValueView>>,
    new_row: Option<Seq<ValueView>>,
    cols: Seq<ColumnView>,
    indexes: Seq<(String, String)>,
) -> bool {
    let n = uppercased(table);
    let t = now@.tables[n];
    &&& now.wf()
    &&& now@.tables.contains_key(n)
    &&& key == tkey(n)
    &&& cols == t.cols
    &&& index_list(indexes, now@, table)
    &&& id < t.next
    &&& match old_row {
        Some(row) => t.rows.contains_key(id) && t.rows[id] == row,
        None => !t.rows.contains_key(id),
    }
    &&& new_row matches Some(row) ==> row.len() == cols.len() && row_storable(row)
}

/// The database after the row of a table has been set or removed.
pub open spec fn with_row(db: DbView, n: Seq<char>, id: u64, new_row: Option<Seq<ValueView>>) -> DbView {
    with_table(
        db,
        n,
        TableView {
            cols: db.tables[n].cols,
            next: db.tables[n].next,
            rows: rows_with(db.tables[n].rows, id, new_row),
        },
    )
}

/// What an index on a table holds after the row has been set or removed.
proof fn moved_data(
    rows: Map<u64, Seq<ValueView>>,
    col: int,
    id: u64,
    old_row: Option<Seq<ValueView>>,
    new_row: Option<Seq<ValueView>>,
)
    requires
        match old_row {
            Some(row) => rows.contains_key(id) && rows[id] == row,
            None => !rows.contains_key(id),
        },
    ensures
        ({
            let a = match old_row {
                Some(row) => Some(index_entry(row[col], id)),
                None => None,
            };
            let b = match new_row {
                Some(row) => Some(index_entry(row[col], id)),
                None => None,
            };
            moved(index_data(rows, col), a, b) == index_data(rows_with(rows, id, new_row), col)
        }),
{
    match old_row {
        Some(row) => {
            index_data_remove(rows, col, id);
        },
        None => {
            assert(rows.remove(id) =~= rows);
        },
    }
    match new_row {
        Some(row) => {
            index_data_insert(rows.remove(id), col, id, row);
            assert(rows.remove(id).insert(id, row) =~= rows.insert(id, row));
        },
        None => {},
    }
}

/// How many pages setting or removing a row of a table with so many indexes takes at most.
pub open spec fn row_pages(t: TableView, id: u64, new_row: Option<Seq<ValueView>>, indexes: nat) -> nat {
    if new_row is None {
        0
    } else if t.rows.contains_key(id) {
        PUT_PAGES as nat * indexes
    } else {
        PUT_PAGES as nat + PUT_PAGES as nat * indexes
    }
}

proof fn row_pages_next(t: TableView, id: u64, new_row: Option<Seq<ValueView>>, i: nat, n: nat)
    requires
        i < n,
    ensures
        row_pages(t, id, new_row, i + 1) == row_pages(t, id, new_row, i) + if new_row is Some {
            PUT_PAGES as nat
        } else {
            0
        },
        row_pages(t, id, new_row, i + 1) <= row_pages(t, id, new_row, n),
        row_pages(t, id, new_row, i) <= row_pages(t, id, new_row, n),
        row_pages(t, id, new_row, 0) <= row_pages(t, id, new_row, n),
{
    assert(PUT_PAGES as nat * (i + 1) == PUT_PAGES as nat * i + PUT_PAGES as nat) by (nonlinear_arith);
    assert(PUT_PAGES as nat * (i + 1) <= PUT_PAGES as nat * n) by (nonlinear_arith)
        requires
            i < n,
    ;
    assert(PUT_PAGES as nat * 0 == 0) by (nonlinear_arith);
}

impl Tables {
    /// Set or remove a row, and keep the indexes of its table in step.
    fn set_row(
        &mut self,
        key: &Vec<u8>,
        id: u64,
        old_row: &Option<Vec<Value>>,
        new_row: &Option<Vec<Value>>,
        schema: &Vec<ColumnDef>,
        indexes: &Vec<(String, String)>,
        Ghost(table): Ghost<Seq<char>>,
    ) -> (r: Result<(), Error>)
        ensures
            row_ready(
                *old(self),
                table,
                key@,
                id,
                row_opt(*old_row),
                row_opt(*new_row),
                schema_view(schema@),
                indexes@,
            ) ==> {
                let to = with_row(old(self)@, uppercased(table), id, row_opt(*new_row));
                &&& match r {
                    Ok(_) => {
                        &&& final(self).wf()
                        &&& final(self)@ == to
                        &&& spacious(
                            *old(self),
                            *final(self),
                            to,
                            row_pages(old(self)@.tables[uppercased(table)], id, row_opt(*new_row), indexes@.len()),
                            None,
                        )
                    },
                    Err(e) => e@ is Storage && spacious(
                        *old(self),
                        *final(self),
                        to,
                        row_pages(old(self)@.tables[uppercased(table)], id, row_opt(*new_row), indexes@.len()),
                        Some(e@),
                    ),
                }
            },
    {
        let ghost was = *self;
        let ghost n = uppercased(table);
        let ghost good = row_ready(
            *self,
            table,
            key@,
            id,
            row_opt(*old_row),
            row_opt(*new_row),
            schema_view(schema@),
            indexes@,
        );
        let ghost db = self.db@;
        let ghost to = with_row(db, n, id, row_opt(*new_row));
        let ghost t = db.tables[n];
        let ghost t2 = to.tables[n];
        let rk = row_key(id);
        proof {
            if good {
                table_facts(self.catalog@, db, all_seen(db), n);
                set_row_table(db, n, id, row_opt(*new_row));
                rows_data_key(t.rows, id);
                if indexes@.len() > 0 {
                    row_pages_next(t, id, row_opt(*new_row), 0, indexes@.len());
                }
            }
        }
        match new_row {
            Some(row) => {
                let bytes = match serialize_row(row) {
                    None => {
                        return Err(Error::Storage(StorageError::Page(PageError::Overflow)));
                    },
                    Some(b) => b,
                };
                match self.catalog.put_in(key.as_slice(), rk.as_slice(), bytes.as_slice()) {
                    Err(e) => {
                        proof {
                            if good {
                                table_written(was, *self, to, n, id, row_opt(*new_row), Some(e));
                                spacious_more(
                                    was,
                                    *self,
                                    to,
                                    row_pages(t, id, row_opt(*new_row), 0),
                                    row_pages(t, id, row_opt(*new_row), indexes@.len()),
                                    Some(ErrorView::Storage(e)),
                                );
                            }
                        }
                        return Err(Error::Storage(e));
                    },
                    Ok(_) => {},
                }
            },
            None => {
                match self.catalog.delete_in(key.as_slice(), rk.as_slice()) {
                    Err(e) => {
                        proof {
                            if good {
                                table_written(was, *self, to, n, id, row_opt(*new_row), Some(e));
                                spacious_more(
                                    was,
                                    *self,
                                    to,
                                    row_pages(t, id, row_opt(*new_row), 0),
                                    row_pages(t, id, row_opt(*new_row), indexes@.len()),
                                    Some(ErrorView::Storage(e)),
                                );
                            }
                        }
                        return Err(Error::Storage(e));
                    },
                    Ok(_) => {},
                }
            },
        }
        proof {
            if good {
                table_written(was, *self, to, n, id, row_opt(*new_row), None);
                table_changed(was.catalog@, db, all_seen(db), n, t2);
                assert(all_seen(db) =~= seen_upto(db, indexes@, 0, t2.rows));
            }
        }
        let mut i: usize = 0;
        while i < indexes.len()
            invariant
                i <= indexes@.len(),
                was == *old(self),
                n == uppercased(table),
                db == was.db@,
                to == with_row(db, n, id, row_opt(*new_row)),
                t == db.tables[n],
                t2 == to.tables[n],
                good == row_ready(
                    was,
                    table,
                    key@,
                    id,
                    row_opt(*old_row),
                    row_opt(*new_row),
                    schema_view(schema@),
                    indexes@,
                ),
                good ==> {
                    &&& self.catalog.wf()
                    &&& mirrors(self.catalog@, to, seen_upto(db, indexes@, i as int, t2.rows))
                    &&& within_stock(was, *self, to, row_pages(t, id, row_opt(*new_row), i as nat))
                },
            decreases indexes@.len() - i,
        {
            let ghost m = indexes@[i as int].0@;
            let ghost ix = db.indexes[m];
            let ghost col = index_col(db, ix);
            let ghost before = *self;
            proof {
                if good {
                    table_facts(was.catalog@, db, all_seen(db), n);
                    set_row_index(was, table, indexes@, i as int);
                    row_pages_next(t, id, row_opt(*new_row), i as nat, indexes@.len());
                }
            }
            let pos = match find_column(schema, indexes[i].1.as_str()) {
                None => {
                    return Err(Error::Storage(StorageError::Corrupt));
                },
                Some(p) => p,
            };
            let old_key: Option<Vec<u8>> = match old_row {
                None => None,
                Some(row) => {
                    if pos >= row.len() {
                        return Err(Error::Storage(StorageError::Corrupt));
                    }
                    assert(row_view(row@)[pos as int] == row@[pos as int]@);
                    Some(index_row_key(&row[pos], id))
                },
            };
            let new_key: Option<Vec<u8>> = match new_row {
                None => None,
                Some(row) => {
                    if pos >= row.len() {
                        return Err(Error::Storage(StorageError::Corrupt));
                    }
                    assert(row_view(row@)[pos as int] == row@[pos as int]@);
                    Some(index_row_key(&row[pos], id))
                },
            };
            let ik = upper_index_key(indexes[i].0.as_str());
            proof {
                if good {
                    moved_data(t.rows, col, id, row_opt(*old_row), row_opt(*new_row));
                    assert(db.indexes.contains_key(m));
                    assert(to.indexes.contains_key(m));
                    index_facts(self.catalog@, to, seen_upto(db, indexes@, i as int, t2.rows), m);
                    index_changed(self.catalog@, to, seen_upto(db, indexes@, i as int, t2.rows), m, t2.rows);
                    seen_next(db, indexes@, i as int, t2.rows);
                    set_row_admits(was, to, table, indexes@, i as int, id, row_opt(*new_row));
                }
            }
            match move_key(&mut self.catalog, &ik, &old_key, &new_key) {
                Err(e) => {
                    proof {
                        if good {
                            carried_stock(
                                was,
                                before,
                                *self,
                                to,
                                m,
                                upper_view(new_key),
                                row_pages(t, id, row_opt(*new_row), i as nat),
                                Some(e),
                            );
                            spacious_more(
                                was,
                                *self,
                                to,
                                row_pages(t, id, row_opt(*new_row), (i + 1) as nat),
                                row_pages(t, id, row_opt(*new_row), indexes@.len()),
                                Some(ErrorView::Storage(e)),
                            );
                        }
                    }
                    return Err(Error::Storage(e));
                },
                Ok(_) => {
                    proof {
                        if good {
                            carried_stock(
                                was,
                                before,
                                *self,
                                to,
                                m,
                                upper_view(new_key),
                                row_pages(t, id, row_opt(*new_row), i as nat),
                                None,
                            );
                        }
                    }
                },
            }
            i += 1;
        }
        self.db = Ghost(to);
        proof {
            if good {
                assert(seen_upto(db, indexes@, i as int, t2.rows) =~= all_seen(to)) by {
                    assert forall|m: Seq<char>| db.indexes.contains_key(m) implies #[trigger] seen_upto(
                        db,
                        indexes@,
                        i as int,
                        t2.rows,
                    )[m] == all_seen(to)[m] by {
                        if uppercased(db.indexes[m].table) == n {
                            assert(among(indexes@, i as int, m));
                        } else if among(indexes@, i as int, m) {
                            let p = choose|p: int| 0 <= p < i && (#[trigger] indexes@[p]).0@ == m;
                            assert(indexes@[p].0@ == m);
                        }
                    }
                }
            }
        }
        Ok(())
    }
}

/// The state keeps within every stock that has what the database holds before and after, and at most so
/// many pages have been taken.
pub closed spec fn within_stock(was: Tables, now: Tables, to: DbView, spent: nat) -> bool {
    forall|stock: Stock| #[trigger]
        was.holds_in(stock) && covers(stock, was@) && covers(stock, to) ==> now.holds_in(stock) && now.pages_left()
            + spent >= was.pages_left() && (roomy(stock) && was.all_fit() ==> now.all_fit())
}

/// The table is still one that can be represented.
proof fn set_row_table(db: DbView, n: Seq<char>, id: u64, new_row: Option<Seq<ValueView>>)
    requires
        db.tables.contains_key(n),
        table_ok(db.tables[n]),
        id < db.tables[n].next,
        new_row matches Some(row) ==> row.len() == db.tables[n].cols.len() && row_storable(row),
    ensures
        table_ok(with_row(db, n, id, new_row).tables[n]),
        with_row(db, n, id, new_row).tables[n].cols == db.tables[n].cols,
        with_row(db, n, id, new_row).indexes == db.indexes,
        rows_data(with_row(db, n, id, new_row).tables[n].rows) == match new_row {
            Some(row) => rows_data(db.tables[n].rows).insert(be64(id), row_bytes(row)),
            None => rows_data(db.tables[n].rows).remove(be64(id)),
        },
{
    match new_row {
        Some(row) => {
            rows_data_insert(db.tables[n].rows, id, row);
        },
        None => {
            rows_data_remove(db.tables[n].rows, id);
        },
    }
}

/// Writing the row of a table keeps within the stock.
proof fn table_written(
    was: Tables,
    now: Tables,
    to: DbView,
    n: Seq<char>,
    id: u64,
    new_row: Option<Seq<ValueView>>,
    failed: Option<StorageError>,
)
    requires
        was.wf(),
        was@.tables.contains_key(n),
        to == with_row(was@, n, id, new_row),
        forall|stock: Stock| #[trigger]
            was.catalog.holds_in(stock) && (new_row matches Some(row) ==> stock.keys.contains(be64(id))
                && stock.pairs.contains((be64(id), row_bytes(row)))) && admits_entry(
                stock,
                tkey(n),
                was.catalog@[tkey(n)].meta,
            ) ==> written_in(
                was.catalog,
                now.catalog,
                stock,
                row_pages(was@.tables[n], id, new_row, 0),
                failed,
            ),
    ensures
        failed is None ==> within_stock(was, now, to, row_pages(was@.tables[n], id, new_row, 0)),
        failed matches Some(e) ==> spacious(
            was,
            now,
            to,
            row_pages(was@.tables[n], id, new_row, 0),
            Some(ErrorView::Storage(e)),
        ),
{
    table_facts(was.catalog@, was@, all_seen(was@), n);
    assert forall|stock: Stock| #[trigger]
        was.holds_in(stock) && covers(stock, was@) && covers(stock, to) implies written_in(
        was.catalog,
        now.catalog,
        stock,
        row_pages(was@.tables[n], id, new_row, 0),
        failed,
    ) by {
        assert(was.catalog.holds_in(stock));
        assert(admits_entry(stock, tkey(n), table_meta(was@.tables[n].next, was@.tables[n].cols)));
        if new_row is Some {
            assert(to.tables.contains_key(n));
            assert(to.tables[n].rows.contains_key(id));
        }
    }
}

/// An index of a list on the table of the row.
proof fn set_row_index(was: Tables, table: Seq<char>, indexes: Seq<(String, String)>, i: int)
    requires
        was.wf(),
        index_list(indexes, was@, table),
        0 <= i < indexes.len(),
    ensures
        was@.indexes.contains_key(indexes[i].0@),
        uppercased(was@.indexes[indexes[i].0@].table) == uppercased(table),
        column_of(was@.tables[uppercased(table)].cols, indexes[i].1@) == Some(
            index_col(was@, was@.indexes[indexes[i].0@]),
        ),
        !among(indexes, i, indexes[i].0@),
{
    let m = indexes[i].0@;
    assert(was@.indexes.contains_key(m));
    index_facts(was.catalog@, was@, all_seen(was@), m);
    if among(indexes, i, m) {
        let p = choose|p: int| 0 <= p < i && (#[trigger] indexes[p]).0@ == m;
        assert(indexes[p].0@ != indexes[i].0@);
    }
}

/// One more index knows the new rows.
proof fn seen_next(db: DbView, list: Seq<(String, String)>, i: int, rows: Map<u64, Seq<ValueView>>)
    requires
        0 <= i < list.len(),
        db.indexes.contains_key(list[i].0@),
    ensures
        seen_upto(db, list, i + 1, rows) == seen_upto(db, list, i, rows).insert(list[i].0@, rows),
{
    let a = seen_upto(db, list, i + 1, rows);
    let b = seen_upto(db, list, i, rows).insert(list[i].0@, rows);
    assert forall|m: Seq<char>| among(list, i + 1, m) <==> among(list, i, m) || m == list[i].0@ by {
        if among(list, i, m) {
            let p = choose|p: int| 0 <= p < i && (#[trigger] list[p]).0@ == m;
            assert(list[p].0@ == m);
        }
        if m == list[i].0@ {
            assert(list[i].0@ == m);
        }
    }
    assert(a =~= b);
}

/// The stock that has what the database holds before and after admits the new key of an index.
proof fn set_row_admits(
    was: Tables,
    to: DbView,
    table: Seq<char>,
    indexes: Seq<(String, String)>,
    i: int,
    id: u64,
    new_row: Option<Seq<ValueView>>,
)
    requires
        was.wf(),
        was@.tables.contains_key(uppercased(table)),
        index_list(indexes, was@, table),
        0 <= i < indexes.len(),
        to == with_row(was@, uppercased(table), id, new_row),
    ensures
        ({
            let m = indexes[i].0@;
            let col = index_col(was@, was@.indexes[m]);
            let k = match new_row {
                Some(row) => Some(index_entry(row[col], id)),
                None => None,
            };
            forall|stock: Stock| #[trigger]
                was.holds_in(stock) && covers(stock, was@) && covers(stock, to) ==> admits_move(
                    stock,
                    ikey(m),
                    index_meta(was@.indexes[m]),
                    k,
                )
        }),
{
    let m = indexes[i].0@;
    let n = uppercased(table);
    assert(was@.indexes.contains_key(m));
    index_facts(was.catalog@, was@, all_seen(was@), m);
    let col = index_col(was@, was@.indexes[m]);
    assert(index_col(to, to.indexes[m]) == col);
    assert forall|stock: Stock| #[trigger]
        was.holds_in(stock) && covers(stock, was@) && covers(stock, to) implies admits_move(
        stock,
        ikey(m),
        index_meta(was@.indexes[m]),
        match new_row {
            Some(row) => Some(index_entry(row[col], id)),
            None => None,
        },
    ) by {
        if new_row is Some {
            assert(to.indexes.contains_key(m));
            assert(to.tables[uppercased(to.indexes[m].table)].rows.contains_key(id));
        }
    }
}

/// Moving a key of an index keeps within the stock.
proof fn carried_stock(
    was: Tables,
    before: Tables,
    now: Tables,
    to: DbView,
    m: Seq<char>,
    new_key: Option<Seq<u8>>,
    spent: nat,
    failed: Option<StorageError>,
)
    requires
        within_stock(was, before, to, spent),
        forall|stock: Stock| #[trigger]
            was.holds_in(stock) && covers(stock, was@) && covers(stock, to) ==> admits_move(
                stock,
                ikey(m),
                index_meta(was@.indexes[m]),
                new_key,
            ),
        forall|stock: Stock| #[trigger]
            before.catalog.holds_in(stock) && admits_move(stock, ikey(m), index_meta(was@.indexes[m]), new_key)
                ==> written_in(before.catalog, now.catalog, stock, move_pages(new_key), failed),
    ensures
        failed is None ==> within_stock(was, now, to, spent + move_pages(new_key)),
        failed matches Some(e) ==> spacious(
            was,
            now,
            to,
            spent + move_pages(new_key),
            Some(ErrorView::Storage(e)),
        ),
{
    assert forall|stock: Stock| #[trigger]
        was.holds_in(stock) && covers(stock, was@) && covers(stock, to) implies now.holds_in(stock) && (failed is None
        ==> now.pages_left() + spent + move_pages(new_key) >= was.pages_left()) && (roomy(stock) && was.all_fit()
        ==> match failed {
        None => now.all_fit(),
        Some(e) => e == StorageError::Full && was.pages_left() < spent + move_pages(new_key),
    }) by {
        assert(before.holds_in(stock));
        assert(before.catalog.holds_in(stock));
    }
}

/// A list of all rows of a table in ascending order of their numbers.
pub open spec fn all_rows(v: Seq<(u64, Vec<Value>)>, rows: Map<u64, Seq<ValueView>>) -> bool {
    &&& forall|i: int|
        0 <= i < v.len() ==> rows.contains_key((#[trigger] v[i]).0) && rows[v[i].0] == row_view(v[i].1@)
    &&& forall|id: u64| #[trigger]
        rows.contains_key(id) ==> exists|i: int| 0 <= i < v.len() && (#[trigger] v[i]).0 == id
    &&& forall|i: int, j: int| 0 <= i < j < v.len() ==> (#[trigger] v[i]).0 < (#[trigger] v[j]).0
}

impl Tables {
    /// All rows of a table with their numbers.
    fn read_all_rows(&mut self, key: &Vec<u8>, schema: &Vec<ColumnDef>, Ghost(n): Ghost<Seq<char>>) -> (r: Result<
        Vec<(u64, Vec<Value>)>,
        Error,
    >)
        ensures
            old(self).wf() && old(self)@.tables.contains_key(n) && key@ == tkey(n) && schema_view(schema@) == old(
                self,
            )@.tables[n].cols ==> {
                &&& stays(*old(self), *final(self))
                &&& match r {
                    Ok(v) => all_rows(v@, old(self)@.tables[n].rows),
                    Err(e) => read_failed(*old(self), e@),
                }
            },
    {
        let ghost was = *self;
        let ghost t = self.db@.tables[n];
        let ghost good = self.wf() && self@.tables.contains_key(n) && key@ == tkey(n) && schema_view(schema@)
            == self@.tables[n].cols;
        proof {
            if good {
                table_facts(self.catalog@, self.db@, all_seen(self.db@), n);
            }
        }
        let entries = match self.catalog.scan_in(key.as_slice()) {
            Err(e) => {
                return Err(Error::Storage(e));
            },
            Ok(v) => v,
        };
        let ghost all = pairs_view(entries@);
        let mut result: Vec<(u64, Vec<Value>)> = Vec::new();
        let mut i: usize = 0;
        while i < entries.len()
            invariant
                i <= entries@.len(),
                all == pairs_view(entries@),
                was == *old(self),
                t == was.db@.tables[n],
                good == (was.wf() && was@.tables.contains_key(n) && key@ == tkey(n) && schema_view(schema@)
                    == was@.tables[n].cols),
                good ==> {
                    &&& stays(was, *self)
                    &&& table_ok(t)
                    &&& lists_all(all, rows_data(t.rows))
                    &&& result@.len() == i
                    &&& forall|p: int|
                        0 <= p < i ==> {
                            &&& t.rows.contains_key((#[trigger] result@[p]).0)
                            &&& t.rows[result@[p].0] == row_view(result@[p].1@)
                            &&& all[p].0 == be64(result@[p].0)
                        }
                },
            decreases entries@.len() - i,
        {
            let ghost k = entries@[i as int].0@;
            let ghost id = of_be64(k);
            proof {
                assert(all[i as int] == (k, entries@[i as int].1@));
                if good {
                    assert(all.contains((k, entries@[i as int].1@)));
                    rows_data_key(t.rows, id);
                    be64_roundtrip(id);
                    deserialize_row_undoes_serialize_row(t.rows[id]);
                }
            }
            if entries[i].0.len() != 8 {
                return Err(Error::Row(RowError::End));
            }
            let rowid: u64 = from_be64(entries[i].0.as_slice());
            match deserialize_row(entries[i].1.as_slice(), schema.len()) {
                Err(e) => {
                    return Err(Error::Row(e));
                },
                Ok(row) => {
                    result.push((rowid, row));
                },
            }
            i += 1;
        }
        proof {
            if good {
                assert forall|id: u64| #[trigger] t.rows.contains_key(id) implies exists|p: int|
                    0 <= p < result@.len() && (#[trigger] result@[p]).0 == id by {
                    rows_data_key(t.rows, id);
                    assert(all.contains((be64(id), row_bytes(t.rows[id]))));
                    let p = choose|p: int| 0 <= p < all.len() && all[p] == (be64(id), row_bytes(t.rows[id]));
                    be64_roundtrip(id);
                    be64_roundtrip(result@[p].0);
                    assert(result@[p].0 == id);
                }
                assert forall|p: int, q: int| 0 <= p < q < result@.len() implies (#[trigger] result@[p]).0 < (
                #[trigger] result@[q]).0 by {
                    let a = result@[p].0;
                    let b = result@[q].0;
                    assert(lt(all[p].0, all[q].0));
                    if b < a {
                        be64_keeps_order(b, a);
                        lt_asymmetric(be64(a), be64(b));
                    }
                    lt_irreflexive(be64(a));
                }
            }
        }
        Ok(result)
    }
}

/// A database without tables.
pub open spec fn empty_db() -> DbView {
    DbView { tables: Map::empty(), indexes: Map::empty() }
}

/// A file that holds this database.
pub open spec fn db_file(m: Map<u32, Seq<u8>>, trees: Map<u32, Tree>, db: DbView) -> bool {
    exists|shelf: Map<Seq<u8>, Shelf>| #[trigger] catalog_file(m, trees, shelf) && represents(shelf, db)
}

impl Tables {
    /// The catalog is where it is looked for when the file is opened again.
    pub closed spec fn rooted_first(&self) -> bool {
        self.catalog.rooted_first()
    }

    /// The pages in the file.
    pub closed spec fn on_file(&self) -> Map<u32, Seq<u8>> {
        self.catalog.on_file()
    }

    /// The trees with their pages.
    pub closed spec fn forest(&self) -> Map<u32, Tree> {
        self.catalog.forest()
    }

    /// Every table and every index can be represented.
    pub proof fn all_in_order(&self)
        requires
            self.wf(),
        ensures
            forall|n: Seq<char>| #[trigger] self@.tables.contains_key(n) ==> table_ok(self@.tables[n]),
            forall|n: Seq<char>| #[trigger] self@.indexes.contains_key(n) ==> index_ok(self@, self@.indexes[n]),
    {
        assert forall|n: Seq<char>| #[trigger] self@.tables.contains_key(n) implies table_ok(self@.tables[n]) by {
            table_facts(self.catalog@, self.db@, all_seen(self.db@), n);
        }
        assert forall|n: Seq<char>| #[trigger] self@.indexes.contains_key(n) implies index_ok(
            self@,
            self@.indexes[n],
        ) by {
            index_facts(self.catalog@, self.db@, all_seen(self.db@), n);
        }
    }

    /// A database with few names is where it is looked for when the file is opened again.
    pub proof fn few_rooted_first(&self, stock: Stock)
        requires
            self.holds_in(stock),
            stock.few,
        ensures
            self.rooted_first(),
    {
        self.catalog.few_rooted_first(stock);
    }

    /// A new database.
    pub fn create() -> (r: Result<Tables, Error>)
        ensures
            r matches Ok(t) && t.wf() && t.all_fit() && t.rooted_first() && t.pages_left() == u32::MAX - 2 && t@
                == empty_db() && (forall|stock: Stock|
             #[trigger] t.holds_in(stock)),
    {
        match Catalog::create() {
            Err(e) => Err(Error::Storage(e)),
            Ok(catalog) => {
                let t = Tables { catalog, db: Ghost(empty_db()) };
                proof {
                    reveal(mirrors);
                    assert(represents(catalog@, empty_db()));
                }
                Ok(t)
            },
        }
    }

    /// Write everything to the file and give it up. What cannot be written is lost.
    pub fn close(self) -> (r: (PageFile, Ghost<Map<u32, Tree>>))
        ensures
            self.wf() && self.all_fit() && self.rooted_first() ==> {
                &&& db_file(r.0@, r.1@, self@)
                &&& left_in(r.0@) == self.pages_left()
                &&& forall|stock: Stock| #[trigger] self.holds_in(stock) ==> file_within(r.1@, stock)
            },
    {
        let ghost shelf = self.catalog@;
        let ghost db = self.db@;
        let ghost good = self.wf() && self.all_fit() && self.rooted_first();
        let r = self.catalog.close();
        assert(good ==> catalog_file(r.0@, r.1@, shelf) && represents(shelf, db));
        r
    }

    /// Write everything to the file, if every page can be written: the trees then stand in its pages, and
    /// it is a file of the database if the catalog is where it is looked for.
    pub fn flush(&mut self)
        ensures
            old(self).wf() ==> {
                &&& stays(*old(self), *final(self))
                &&& final(self).rooted_first() == old(self).rooted_first()
                &&& final(self).forest() == old(self).forest()
                &&& old(self).all_fit() ==> {
                    &&& sound(final(self).on_file())
                    &&& standing(pages_of(final(self).on_file()), final(self).forest())
                    &&& pages_fit(pages_of(final(self).on_file()))
                    &&& left_in(final(self).on_file()) == final(self).pages_left()
                }
                &&& old(self).all_fit() && old(self).rooted_first() ==> {
                    &&& db_file(final(self).on_file(), final(self).forest(), final(self)@)
                    &&& forall|stock: Stock| #[trigger]
                        final(self).holds_in(stock) ==> file_within(final(self).forest(), stock)
                }
            },
    {
        let ghost good = self.wf() && self.all_fit() && self.rooted_first();
        let ghost shelf = self.catalog@;
        let ghost db = self.db@;
        let _ = self.catalog.flush();
        assert(good ==> catalog_file(self.on_file(), self.forest(), shelf) && represents(shelf, db));
    }

    /// Open the database of a file.
    pub fn reopen(file: PageFile, Ghost(trees): Ghost<Map<u32, Tree>>, Ghost(db): Ghost<DbView>) -> (r: Result<
        Tables,
        StorageError,
    >)
        ensures
            db_file(file@, trees, db) ==> {
                &&& r matches Ok(t)
                &&& t.wf()
                &&& t.all_fit()
                &&& t.rooted_first()
                &&& t@ == db
                &&& t.pages_left() == left_in(file@)
                &&& forall|stock: Stock| #[trigger] file_within(trees, stock) ==> t.holds_in(stock)
            },
            file@.contains_key(0) && decode(file@[0]) is Ok && decode(file@[0])->Ok_0 is Header <==> r is Ok,
    {
        match Catalog::reopen(file, Ghost(trees)) {
            Err(e) => Err(e),
            Ok(catalog) => {
                proof {
                    if db_file(file@, trees, db) {
                        let shelf = choose|shelf: Map<Seq<u8>, Shelf>| #[trigger]
                            catalog_file(file@, trees, shelf) && represents(shelf, db);
                        assert(catalog_file(file@, trees, shelf));
                    }
                }
                Ok(Tables { catalog, db: Ghost(db) })
            },
        }
    }
}

} // verus!
