//! CREATE and DROP of tables and indexes.
use vstd::prelude::*;
use vstd::utf8::*;

use crate::bytes::{lt, same_prefix_order};
use crate::engine::catalog::{failure, names_listed, one_more, pages_freed, written_in};
use crate::engine::condition::{column_found, column_of, find_column};
use crate::engine::error::{Error, ErrorView};
use crate::engine::index::index_row_key;
use crate::engine::meta::{encode_index, encode_schema, stored_cols_stay, stored_meta_same};
use crate::engine::model::{
    all_seen, covers, ikey, ikey_injective, index_col, index_data, index_data_insert, index_entry,
    index_facts, index_meta, index_ok, index_prefix, is_index_key, is_table_key, keys_differ,
    mirrors, names_fit, rows_data, stored_cols, table_facts, table_meta, table_ok, table_prefix,
    tkey, tkey_injective, DbView, IndexView, TableView,
};
use crate::engine::row::RowError;
use crate::engine::semantics::{
    index_created, index_dropped, is_indexed, table_created, table_dropped,
};
use crate::engine::tables::{
    all_rows, all_rows_len, create_index_pages, create_table_pages, has_index, has_table,
    index_changed, index_key, is_table_key_bytes, prefix_le, read_failed, seen_agree, spacious,
    spacious_more, stays, table_key, tree_freed, with_table, within_stock, Tables,
};
use crate::sql::ast::{row_view, rows_view, schema_view, ColumnDef, DataType, Value, ValueView};
use crate::storage::btree::pairs_view;
use crate::storage::page::PageError;
use crate::storage::pager::StorageError;
use crate::storage::store::{admits_entry, EntryError, Shelf, PUT_PAGES};
use crate::storage::tree::{owns, roomy, sorted, Stock};
use crate::text::{from_utf8, text_bytes, text_roundtrip, uppercased};

verus! {

/// The outcome of a statement that changes the database as `to` says, and takes at most so many pages.
pub open spec fn done(a: Tables, b: Tables, to: Result<DbView, ErrorView>, most: nat, r: Result<(), Error>) -> bool {
    match to {
        Err(e) => match r {
            Ok(_) => false,
            Err(x) => stays(a, b) && (x@ == e || read_failed(a, x@)),
        },
        Ok(db) => match r {
            Ok(_) => b.wf() && b@ == db && spacious(a, b, db, most, None),
            Err(x) => x@ is Storage && spacious(a, b, db, most, Some(x@)),
        },
    }
}

/// Adding a table.
proof fn table_added(
    shelf: Map<Seq<u8>, Shelf>,
    db: DbView,
    seen: Map<Seq<char>, Map<u64, Seq<ValueView>>>,
    n: Seq<char>,
    t: TableView,
)
    requires
        mirrors(shelf, db, seen),
        !db.tables.contains_key(n),
        table_ok(t),
    ensures
        mirrors(
            shelf.insert(tkey(n), (Shelf { meta: table_meta(t.next, t.cols), data: rows_data(t.rows) })),
            with_table(db, n, t),
            seen,
        ),
{
    reveal(mirrors);
    let shelf2 = shelf.insert(tkey(n), Shelf { meta: table_meta(t.next, t.cols), data: rows_data(t.rows) });
    let db2 = with_table(db, n, t);
    assert forall|m: Seq<char>| #[trigger] db2.tables.contains_key(m) implies {
        &&& table_ok(db2.tables[m])
        &&& shelf2.contains_key(tkey(m))
        &&& shelf2[tkey(m)].meta == table_meta(db2.tables[m].next, db2.tables[m].cols)
        &&& shelf2[tkey(m)].data == rows_data(db2.tables[m].rows)
    } by {
        if m != n {
            assert(db.tables.contains_key(m));
            if tkey(m) == tkey(n) {
                tkey_injective(m, n);
            }
        }
    }
    assert forall|m: Seq<char>| #[trigger] db2.indexes.contains_key(m) implies {
        &&& index_ok(db2, db2.indexes[m])
        &&& shelf2.contains_key(ikey(m))
        &&& shelf2[ikey(m)].meta == index_meta(db2.indexes[m])
        &&& shelf2[ikey(m)].data == index_data(seen[m], index_col(db2, db2.indexes[m]))
    } by {
        assert(db.indexes.contains_key(m));
        keys_differ(n, m);
    }
    assert forall|k: Seq<u8>| #[trigger] shelf2.contains_key(k) implies is_table_key(db2, k) || is_index_key(
        db2,
        k,
    ) by {
        if k == tkey(n) {
            assert(db2.tables.contains_key(n));
        } else {
            assert(shelf.contains_key(k));
            if is_table_key(db, k) {
                let m = choose|m: Seq<char>| #[trigger] db.tables.contains_key(m) && k == tkey(m);
                assert(db2.tables.contains_key(m));
            } else {
                let m = choose|m: Seq<char>| #[trigger] db.indexes.contains_key(m) && k == ikey(m);
                assert(db2.indexes.contains_key(m));
            }
        }
    }
}

/// Removing a table that no index is on.
proof fn table_removed(
    shelf: Map<Seq<u8>, Shelf>,
    db: DbView,
    seen: Map<Seq<char>, Map<u64, Seq<ValueView>>>,
    n: Seq<char>,
)
    requires
        mirrors(shelf, db, seen),
        db.tables.contains_key(n),
        forall|m: Seq<char>| #[trigger] db.indexes.contains_key(m) ==> uppercased(db.indexes[m].table) != n,
    ensures
        mirrors(shelf.remove(tkey(n)), (DbView { tables: db.tables.remove(n), indexes: db.indexes }), seen),
{
    reveal(mirrors);
    let shelf2 = shelf.remove(tkey(n));
    let db2 = DbView { tables: db.tables.remove(n), indexes: db.indexes };
    assert forall|m: Seq<char>| #[trigger] db2.tables.contains_key(m) implies {
        &&& table_ok(db2.tables[m])
        &&& shelf2.contains_key(tkey(m))
        &&& shelf2[tkey(m)].meta == table_meta(db2.tables[m].next, db2.tables[m].cols)
        &&& shelf2[tkey(m)].data == rows_data(db2.tables[m].rows)
    } by {
        assert(db.tables.contains_key(m));
        if tkey(m) == tkey(n) {
            tkey_injective(m, n);
        }
    }
    assert forall|m: Seq<char>| #[trigger] db2.indexes.contains_key(m) implies {
        &&& index_ok(db2, db2.indexes[m])
        &&& shelf2.contains_key(ikey(m))
        &&& shelf2[ikey(m)].meta == index_meta(db2.indexes[m])
        &&& shelf2[ikey(m)].data == index_data(seen[m], index_col(db2, db2.indexes[m]))
    } by {
        assert(db.indexes.contains_key(m));
        keys_differ(n, m);
    }
    assert forall|k: Seq<u8>| #[trigger] shelf2.contains_key(k) implies is_table_key(db2, k) || is_index_key(
        db2,
        k,
    ) by {
        assert(shelf.contains_key(k));
        if is_table_key(db, k) {
            let m = choose|m: Seq<char>| #[trigger] db.tables.contains_key(m) && k == tkey(m);
            assert(db2.tables.contains_key(m));
        } else {
            let m = choose|m: Seq<char>| #[trigger] db.indexes.contains_key(m) && k == ikey(m);
            assert(db2.indexes.contains_key(m));
        }
    }
}

/// Adding an index that has seen nothing yet, or replacing one by such.
proof fn index_added(
    shelf: Map<Seq<u8>, Shelf>,
    db: DbView,
    seen: Map<Seq<char>, Map<u64, Seq<ValueView>>>,
    n: Seq<char>,
    ix: IndexView,
)
    requires
        mirrors(shelf, db, seen),
        index_ok(db, ix),
    ensures
        mirrors(
            shelf.insert(ikey(n), (Shelf { meta: index_meta(ix), data: Map::empty() })),
            (DbView { tables: db.tables, indexes: db.indexes.insert(n, ix) }),
            seen.insert(n, Map::empty()),
        ),
{
    reveal(mirrors);
    let shelf2 = shelf.insert(ikey(n), Shelf { meta: index_meta(ix), data: Map::empty() });
    let db2 = DbView { tables: db.tables, indexes: db.indexes.insert(n, ix) };
    let seen2 = seen.insert(n, Map::empty());
    assert forall|m: Seq<char>| #[trigger] db2.tables.contains_key(m) implies {
        &&& table_ok(db2.tables[m])
        &&& shelf2.contains_key(tkey(m))
        &&& shelf2[tkey(m)].meta == table_meta(db2.tables[m].next, db2.tables[m].cols)
        &&& shelf2[tkey(m)].data == rows_data(db2.tables[m].rows)
    } by {
        keys_differ(m, n);
    }
    assert(index_data(Map::empty(), index_col(db2, ix)) =~= Map::empty());
    assert forall|m: Seq<char>| #[trigger] db2.indexes.contains_key(m) implies {
        &&& index_ok(db2, db2.indexes[m])
        &&& shelf2.contains_key(ikey(m))
        &&& shelf2[ikey(m)].meta == index_meta(db2.indexes[m])
        &&& shelf2[ikey(m)].data == index_data(seen2[m], index_col(db2, db2.indexes[m]))
    } by {
        if m != n {
            assert(db.indexes.contains_key(m));
            if ikey(m) == ikey(n) {
                ikey_injective(m, n);
            }
        }
    }
    assert forall|k: Seq<u8>| #[trigger] shelf2.contains_key(k) implies is_table_key(db2, k) || is_index_key(
        db2,
        k,
    ) by {
        if k == ikey(n) {
            assert(db2.indexes.contains_key(n));
        } else {
            assert(shelf.contains_key(k));
            if is_table_key(db, k) {
                let m = choose|m: Seq<char>| #[trigger] db.tables.contains_key(m) && k == tkey(m);
                assert(db2.tables.contains_key(m));
            } else {
                let m = choose|m: Seq<char>| #[trigger] db.indexes.contains_key(m) && k == ikey(m);
                assert(db2.indexes.contains_key(m));
            }
        }
    }
}

/// Removing an index.
proof fn index_removed(
    shelf: Map<Seq<u8>, Shelf>,
    db: DbView,
    seen: Map<Seq<char>, Map<u64, Seq<ValueView>>>,
    n: Seq<char>,
)
    requires
        mirrors(shelf, db, seen),
        db.indexes.contains_key(n),
    ensures
        mirrors(shelf.remove(ikey(n)), (DbView { tables: db.tables, indexes: db.indexes.remove(n) }), seen),
{
    reveal(mirrors);
    let shelf2 = shelf.remove(ikey(n));
    let db2 = DbView { tables: db.tables, indexes: db.indexes.remove(n) };
    assert forall|m: Seq<char>| #[trigger] db2.tables.contains_key(m) implies {
        &&& table_ok(db2.tables[m])
        &&& shelf2.contains_key(tkey(m))
        &&& shelf2[tkey(m)].meta == table_meta(db2.tables[m].next, db2.tables[m].cols)
        &&& shelf2[tkey(m)].data == rows_data(db2.tables[m].rows)
    } by {
        keys_differ(m, n);
    }
    assert forall|m: Seq<char>| #[trigger] db2.indexes.contains_key(m) implies {
        &&& index_ok(db2, db2.indexes[m])
        &&& shelf2.contains_key(ikey(m))
        &&& shelf2[ikey(m)].meta == index_meta(db2.indexes[m])
        &&& shelf2[ikey(m)].data == index_data(seen[m], index_col(db2, db2.indexes[m]))
    } by {
        assert(db.indexes.contains_key(m));
        if ikey(m) == ikey(n) {
            ikey_injective(m, n);
        }
    }
    assert forall|k: Seq<u8>| #[trigger] shelf2.contains_key(k) implies is_table_key(db2, k) || is_index_key(
        db2,
        k,
    ) by {
        assert(shelf.contains_key(k));
        if is_table_key(db, k) {
            let m = choose|m: Seq<char>| #[trigger] db.tables.contains_key(m) && k == tkey(m);
            assert(db2.tables.contains_key(m));
        } else {
            let m = choose|m: Seq<char>| #[trigger] db.indexes.contains_key(m) && k == ikey(m);
            assert(db2.indexes.contains_key(m));
        }
    }
}

impl Tables {
    /// `CREATE TABLE name (col type, ...)`
    pub fn exec_create_table(&mut self, name: &str, columns: &Vec<ColumnDef>) -> (r: Result<(), Error>)
        ensures
            old(self).wf() ==> done(
                *old(self),
                *final(self),
                table_created(old(self)@, name@, schema_view(columns@)),
                create_table_pages(),
                r,
            ),
    {
        let ghost was = *self;
        let ghost good = self.wf();
        let ghost db = self.db@;
        let ghost n = uppercased(name@);
        let ghost cols = schema_view(columns@);
        let ghost t = TableView { cols: stored_cols(cols), next: 1, rows: Map::empty() };
        let ghost to = with_table(db, n, t);
        match self.table_exists(name) {
            Err(e) => {
                proof {
                    if good {
                        read_spacious(was, *self, to, e@);
                    }
                }
                return Err(e);
            },
            Ok(true) => {
                return Err(Error::TableExists(name.to_owned()));
            },
            Ok(false) => {},
        }
        let meta = match encode_schema(1, columns) {
            None => {
                return Err(Error::Storage(StorageError::Page(PageError::Overflow)));
            },
            Some(m) => m,
        };
        let key = table_key(name);
        let ghost mid = *self;
        let r = self.catalog.create_entry(key.as_slice(), meta.as_slice());
        self.db = Ghost(to);
        proof {
            if good {
                stored_meta_same(1, cols);
                stored_cols_stay(cols);
                table_added(mid.catalog@, db, all_seen(db), n, t);
                assert(rows_data(t.rows) =~= Map::empty());
                assert(all_seen(to) =~= all_seen(db)) by {
                    assert forall|m: Seq<char>| #[trigger] db.indexes.contains_key(m) implies all_seen(to)[m]
                        == all_seen(db)[m] by {
                        index_facts(was.catalog@, db, all_seen(db), m);
                    }
                }
                assert forall|stock: Stock| #[trigger]
                    was.holds_in(stock) && covers(stock, db) && covers(stock, to) implies written_in(
                    mid.catalog,
                    self.catalog,
                    stock,
                    create_table_pages(),
                    failure(r),
                ) by {
                    assert(mid.holds_in(stock));
                    assert(to.tables.contains_key(n));
                    if stock.few {
                        assert(is_table_key(to, tkey(n)));
                        names_fit(mid.catalog@, db, to, tkey(n));
                    }
                }
            }
        }
        match r {
            Err(e) => Err(Error::Storage(e)),
            Ok(_) => Ok(()),
        }
    }

    /// `DROP TABLE name`
    pub fn exec_drop_table(&mut self, name: &str) -> (r: Result<(), Error>)
        ensures
            old(self).wf() ==> done(*old(self), *final(self), table_dropped(old(self)@, name@), 0, r) && (r is Ok
                ==> tree_freed(*old(self), *final(self), tkey(uppercased(name@)))),
    {
        let ghost was = *self;
        let ghost good = self.wf();
        let ghost db = self.db@;
        let ghost n = uppercased(name@);
        let ghost to = DbView { tables: db.tables.remove(n), indexes: db.indexes };
        let indexes = match self.list_indexes(name) {
            Err(e) => {
                proof {
                    if good {
                        read_spacious(was, *self, to, e@);
                    }
                }
                return Err(e);
            },
            Ok(v) => v,
        };
        if indexes.len() > 0 {
            proof {
                if good {
                    assert(db.indexes.contains_key(indexes@[0].0@));
                }
            }
            return Err(Error::IndexesExist(name.to_owned()));
        }
        proof {
            if good {
                assert(!is_indexed(db, name@));
            }
        }
        match self.table_exists(name) {
            Err(e) => {
                proof {
                    if good {
                        read_spacious(was, *self, to, e@);
                    }
                }
                return Err(e);
            },
            Ok(false) => {
                return Err(Error::NoTable(name.to_owned()));
            },
            Ok(true) => {},
        }
        let key = table_key(name);
        let ghost mid = *self;
        proof {
            if good {
                has_table(self.catalog@, db, all_seen(db), n);
                table_removed(self.catalog@, db, all_seen(db), n);
                assert(all_seen(to) =~= all_seen(db)) by {
                    assert forall|m: Seq<char>| #[trigger] db.indexes.contains_key(m) implies all_seen(to)[m]
                        == all_seen(db)[m] by {
                        index_facts(was.catalog@, db, all_seen(db), m);
                    }
                }
            }
        }
        let r = self.catalog.drop_entry(key.as_slice());
        self.db = Ghost(to);
        proof {
            if good {
                dropped_stock(was, mid, *self, to, key@, r);
            }
        }
        match r {
            Err(EntryError::NotFound) => Err(Error::NoTable(name.to_owned())),
            Err(EntryError::Storage(e)) => Err(Error::Storage(e)),
            Ok(_) => Ok(()),
        }
    }

    /// `DROP INDEX name`
    pub fn exec_drop_index(&mut self, name: &str) -> (r: Result<(), Error>)
        ensures
            old(self).wf() ==> done(*old(self), *final(self), index_dropped(old(self)@, name@), 0, r) && (r is Ok
                ==> tree_freed(*old(self), *final(self), ikey(uppercased(name@)))),
    {
        let ghost was = *self;
        let ghost good = self.wf();
        let ghost db = self.db@;
        let ghost n = uppercased(name@);
        let ghost to = DbView { tables: db.tables, indexes: db.indexes.remove(n) };
        let key = index_key(name);
        proof {
            if good {
                has_index(self.catalog@, db, all_seen(db), n);
            }
        }
        match self.catalog.lookup(key.as_slice()) {
            Err(e) => {
                proof {
                    if good {
                        read_spacious(was, *self, to, ErrorView::Storage(e));
                    }
                }
                return Err(Error::Storage(e));
            },
            Ok(None) => {
                return Err(Error::NoIndex(name.to_owned()));
            },
            Ok(Some(_)) => {},
        }
        let ghost mid = *self;
        proof {
            if good {
                index_removed(self.catalog@, db, all_seen(db), n);
                seen_agree(self.catalog@.remove(ikey(n)), to, all_seen(db), all_seen(to));
            }
        }
        let r = self.catalog.drop_entry(key.as_slice());
        self.db = Ghost(to);
        proof {
            if good {
                dropped_stock(was, mid, *self, to, key@, r);
            }
        }
        match r {
            Err(EntryError::NotFound) => Err(Error::NoIndex(name.to_owned())),
            Err(EntryError::Storage(e)) => Err(Error::Storage(e)),
            Ok(_) => Ok(()),
        }
    }
}

proof fn dropped_stock(
    was: Tables,
    mid: Tables,
    now: Tables,
    to: DbView,
    key: Seq<u8>,
    r: Result<(), EntryError>,
)
    requires
        stays(was, mid),
        r is Ok ==> pages_freed(mid.catalog, now.catalog, key),
        forall|stock: Stock| #[trigger]
            mid.catalog.holds_in(stock) ==> now.catalog.holds_in(stock) && (roomy(stock) && mid.catalog.all_fit()
                ==> match r {
                Ok(_) => now.catalog.all_fit(),
                Err(e) => e == EntryError::NotFound,
            }),
        r is Ok ==> now.catalog.pages_left() >= mid.catalog.pages_left(),
    ensures
        r is Ok ==> tree_freed(was, now, key),
        r is Ok ==> spacious(was, now, to, 0, None),
        r matches Err(EntryError::Storage(e)) ==> spacious(was, now, to, 0, Some(ErrorView::Storage(e))),
{
    assert forall|stock: Stock| #[trigger]
        was.holds_in(stock) && covers(stock, was@) && covers(stock, to) implies now.holds_in(stock) && (roomy(stock)
        && was.all_fit() ==> match r {
        Ok(_) => now.all_fit(),
        Err(e) => e == EntryError::NotFound,
    }) by {
        assert(mid.holds_in(stock));
        assert(mid.catalog.holds_in(stock));
    }
    if r is Ok {
        assert(mid.tree_of(key) == was.tree_of(key));
        assert forall|x: u32|
            #![trigger now.used().contains(x)]
            #![trigger was.used().contains(x)]
            now.used().contains(x) <==> owns(now.names_tree(), x) || (was.used().contains(x) && !owns(
                was.names_tree(),
                x,
            ) && !owns(was.tree_of(key), x)) by {
            assert(now.catalog.used().contains(x) == now.used().contains(x));
        }
    }
}

/// A failure to read takes a page that cannot be written.
pub proof fn read_spacious(was: Tables, now: Tables, to: DbView, e: ErrorView)
    requires
        stays(was, now),
        read_failed(was, e),
    ensures
        forall|most: nat| #[trigger] spacious(was, now, to, most, Some(e)),
{
}

/// The first `i` rows of a list.
spec fn rows_upto(v: Seq<(u64, Vec<Value>)>, i: int, rows: Map<u64, Seq<ValueView>>) -> Map<u64, Seq<ValueView>> {
    Map::new(|id: u64| exists|p: int| 0 <= p < i && (#[trigger] v[p]).0 == id, |id: u64| rows[id])
}

proof fn rows_upto_next(v: Seq<(u64, Vec<Value>)>, i: int, rows: Map<u64, Seq<ValueView>>)
    requires
        all_rows(v, rows),
        0 <= i < v.len(),
    ensures
        rows_upto(v, i + 1, rows) == rows_upto(v, i, rows).insert(v[i].0, row_view(v[i].1@)),
        !rows_upto(v, i, rows).contains_key(v[i].0),
{
    let a = rows_upto(v, i + 1, rows);
    let b = rows_upto(v, i, rows).insert(v[i].0, row_view(v[i].1@));
    assert forall|id: u64| a.contains_key(id) <==> b.contains_key(id) by {
        if rows_upto(v, i, rows).contains_key(id) {
            let p = choose|p: int| 0 <= p < i && (#[trigger] v[p]).0 == id;
            assert(v[p].0 == id);
        }
        if id == v[i].0 {
            assert(v[i].0 == id);
        }
    }
    assert(a =~= b);
    if rows_upto(v, i, rows).contains_key(v[i].0) {
        let p = choose|p: int| 0 <= p < i && (#[trigger] v[p]).0 == v[i].0;
        assert(v[p].0 < v[i].0);
    }
}

proof fn rows_upto_all(v: Seq<(u64, Vec<Value>)>, rows: Map<u64, Seq<ValueView>>)
    requires
        all_rows(v, rows),
    ensures
        rows_upto(v, v.len() as int, rows) == rows,
{
    assert(rows_upto(v, v.len() as int, rows) =~= rows);
}

impl Tables {
    /// `CREATE INDEX name ON table (col)`
    pub fn exec_create_index(&mut self, name: &str, table: &str, column: &str) -> (r: Result<(), Error>)
        ensures
            old(self).wf() ==> done(
                *old(self),
                *final(self),
                index_created(old(self)@, name@, table@, column@),
                create_index_pages(old(self)@, table@),
                r,
            ),
    {
        let ghost was = *self;
        let ghost most = create_index_pages(self.db@, table@);
        let ghost good = self.wf();
        let ghost db = self.db@;
        let ghost n = uppercased(name@);
        let ghost tn = uppercased(table@);
        let ghost t = db.tables[tn];
        let ghost ix = IndexView { table: table@, column: column@ };
        let ghost to = DbView { tables: db.tables, indexes: db.indexes.insert(n, ix) };
        let schema = match self.get_table(table) {
            Err(e) => {
                proof {
                    if good && read_failed(was, e@) {
                        read_spacious(was, *self, to, e@);
                    }
                }
                return Err(e);
            },
            Ok((_, schema)) => schema,
        };
        let pos = match find_column(&schema, column) {
            None => {
                return Err(Error::NoColumnInTable { column: column.to_owned(), table: table.to_owned() });
            },
            Some(p) => p,
        };
        assert(schema_view(schema@)[pos as int] == schema@[pos as int]@);
        match schema[pos].data_type {
            DataType::Integer => {},
            DataType::Text => {},
            DataType::Char(_) => {},
            _ => {
                return Err(Error::NotIndexable { column: column.to_owned(), data_type: schema[pos].data_type });
            },
        }
        let meta = match encode_index(table, column) {
            None => {
                return Err(Error::Storage(StorageError::Page(PageError::Overflow)));
            },
            Some(m) => m,
        };
        let tk = table_key(table);
        let rows = match self.read_all_rows(&tk, &schema, Ghost(tn)) {
            Err(e) => {
                proof {
                    if good {
                        read_spacious(was, *self, to, e@);
                    }
                }
                return Err(e);
            },
            Ok(v) => v,
        };
        let ghost mid = *self;
        proof {
            if good {
                assert(index_created(db, name@, table@, column@) == Ok::<DbView, ErrorView>(to));
                table_facts(self.catalog@, db, all_seen(db), tn);
                all_rows_len(rows@, t.rows);
                index_pages_more(0, rows@.len());
                index_added(self.catalog@, db, all_seen(db), n, ix);
            }
        }
        let key = index_key(name);
        match self.catalog.create_entry(key.as_slice(), meta.as_slice()) {
            Err(e) => {
                proof {
                    if good {
                        index_stock(was, mid, *self, to, n, Some(e));
                        spacious_more(was, *self, to, create_table_pages(), most, Some(ErrorView::Storage(e)));
                    }
                }
                return Err(Error::Storage(e));
            },
            Ok(_) => {},
        }
        proof {
            if good {
                index_stock(was, mid, *self, to, n, None);
                assert(index_pages(0) == create_table_pages());
                assert(rows_upto(rows@, 0, t.rows) =~= Map::empty());
            }
        }
        let mut i: usize = 0;
        while i < rows.len()
            invariant
                i <= rows@.len(),
                was == *old(self),
                good == was.wf(),
                db == was.db@,
                n == uppercased(name@),
                tn == uppercased(table@),
                t == db.tables[tn],
                ix == (IndexView { table: table@, column: column@ }),
                to == (DbView { tables: db.tables, indexes: db.indexes.insert(n, ix) }),
                key@ == ikey(n),
                good ==> {
                    &&& index_created(db, name@, table@, column@) == Ok::<DbView, ErrorView>(to)
                    &&& column_of(t.cols, column@) == Some(pos as int)
                    &&& table_ok(t)
                    &&& db.tables.contains_key(tn)
                    &&& all_rows(rows@, t.rows)
                    &&& self.catalog.wf()
                    &&& mirrors(self.catalog@, to, all_seen(db).insert(n, rows_upto(rows@, i as int, t.rows)))
                    &&& within_stock(was, *self, to, index_pages(i as nat))
                    &&& most == index_pages(rows@.len())
                    &&& most == create_index_pages(db, table@)
                },
            decreases rows@.len() - i,
        {
            let ghost before = *self;
            let ghost seen = all_seen(db).insert(n, rows_upto(rows@, i as int, t.rows));
            let rowid: u64 = rows[i].0;
            proof {
                if good {
                    assert(t.rows.contains_key(rows@[i as int].0));
                    assert(to.indexes.contains_key(n));
                    index_facts(self.catalog@, to, seen, n);
                    column_found(t.cols, column@, 0);
                }
            }
            if pos >= rows[i].1.len() {
                return Err(Error::Storage(StorageError::Corrupt));
            }
            assert(row_view(rows@[i as int].1@)[pos as int] == rows@[i as int].1@[pos as int]@);
            let k = index_row_key(&rows[i].1[pos], rowid);
            let nothing: Vec<u8> = Vec::new();
            assert(nothing@ =~= Seq::empty());
            proof {
                if good {
                    index_pages_more(i as nat, (i + 1) as nat);
                    let part = rows_upto(rows@, i as int, t.rows);
                    let part2 = rows_upto(rows@, i + 1, t.rows);
                    rows_upto_next(rows@, i as int, t.rows);
                    index_data_insert(part, pos as int, rowid, row_view(rows@[i as int].1@));
                    index_changed(self.catalog@, to, seen, n, part2);
                    assert(seen.insert(n, part2) =~= all_seen(db).insert(n, part2));
                }
            }
            match self.catalog.put_in(key.as_slice(), k.as_slice(), nothing.as_slice()) {
                Err(e) => {
                    proof {
                        if good {
                            index_row_stock(was, before, *self, to, n, rowid, index_pages(i as nat), Some(e));
                            index_pages_more((i + 1) as nat, rows@.len());
                            spacious_more(
                                was,
                                *self,
                                to,
                                index_pages((i + 1) as nat),
                                most,
                                Some(ErrorView::Storage(e)),
                            );
                        }
                    }
                    return Err(Error::Storage(e));
                },
                Ok(_) => {
                    proof {
                        if good {
                            index_row_stock(was, before, *self, to, n, rowid, index_pages(i as nat), None);
                        }
                    }
                },
            }
            i += 1;
        }
        self.db = Ghost(to);
        proof {
            if good {
                rows_upto_all(rows@, t.rows);
                assert(all_seen(db).insert(n, t.rows) =~= all_seen(to));
            }
        }
        Ok(())
    }

    /// `SHOW TABLES`
    pub fn exec_show_tables(&mut self) -> (r: Result<Vec<Vec<Value>>, Error>)
        ensures
            old(self).wf() ==> {
                &&& stays(*old(self), *final(self))
                &&& match r {
                    Ok(v) => table_names(rows_view(v@), old(self)@),
                    Err(e) => read_failed(*old(self), e@),
                }
            },
    {
        let ghost was = *self;
        let ghost good = self.wf();
        let ghost db = self.db@;
        let ghost shelf = self.catalog@;
        let prefix: Vec<u8> = vec![0x74u8, 0x61u8, 0x62u8, 0x6cu8, 0x65u8, 0x3au8];
        assert(prefix@ =~= table_prefix());
        let entries = match self.catalog.names_from(prefix.as_slice()) {
            Err(e) => {
                return Err(Error::Storage(e));
            },
            Ok(v) => v,
        };
        let ghost all = pairs_view(entries@);
        let mut result: Vec<Vec<Value>> = Vec::new();
        let mut i: usize = 0;
        while i < entries.len()
            invariant
                i <= entries@.len(),
                all == pairs_view(entries@),
                was == *old(self),
                good == was.wf(),
                db == was.db@,
                shelf == was.catalog@,
                good ==> {
                    &&& stays(was, *self)
                    &&& mirrors(shelf, db, all_seen(db))
                    &&& names_listed(all, shelf, table_prefix())
                    &&& named_upto(rows_view(result@), db, all, i as int)
                },
            decreases entries@.len() - i,
        {
            let ghost k = entries@[i as int].0@;
            let ghost before = rows_view(result@);
            proof {
                assert(all[i as int] == (k, entries@[i as int].1@));
                if good {
                    assert(shelf.contains_key(all[i as int].0));
                    if k.len() >= 6 && k.take(6) == table_prefix() {
                        table_key_name(shelf, db, all_seen(db), k);
                    }
                }
            }
            if is_table_key_bytes(&entries[i].0) {
                assert(k.subrange(6, k.len() as int) =~= k.skip(6));
                let tail = crate::bytes::copy(
                    vstd::slice::slice_subrange(entries[i].0.as_slice(), 6, entries[i].0.len()),
                );
                let name = match from_utf8(tail) {
                    None => {
                        return Err(Error::Row(RowError::Utf8));
                    },
                    Some(s) => s,
                };
                let ghost n = name@;
                let row: Vec<Value> = vec![Value::Text(name)];
                assert(row_view(row@) =~= seq![ValueView::Text(n)]);
                result.push(row);
                proof {
                    assert(rows_view(result@) =~= before.push(seq![ValueView::Text(n)]));
                    if good {
                        named_step(before, db, all, i as int, n);
                    }
                }
            } else {
                proof {
                    if good {
                        assert forall|m: Seq<char>| all[i as int].0 != #[trigger] tkey(m) by {
                            assert(tkey(m).take(6) =~= table_prefix());
                        }
                        named_skip(before, db, all, i as int);
                    }
                }
            }
            i += 1;
        }
        proof {
            if good {
                named_all(rows_view(result@), shelf, db, all);
            }
        }
        Ok(result)
    }
}

/// Rows with the names of the tables in ascending order of their bytes.
pub open spec fn table_names(rows: Seq<Seq<ValueView>>, db: DbView) -> bool {
    &&& forall|i: int|
        0 <= i < rows.len() ==> (#[trigger] rows[i]) == seq![ValueView::Text(name_in(rows[i]))]
            && db.tables.contains_key(name_in(rows[i]))
    &&& forall|n: Seq<char>| #[trigger]
        db.tables.contains_key(n) ==> exists|i: int| 0 <= i < rows.len() && name_in(#[trigger] rows[i]) == n
    &&& forall|i: int, j: int|
        0 <= i < j < rows.len() ==> lt(
            text_bytes(name_in(#[trigger] rows[i])),
            text_bytes(name_in(#[trigger] rows[j])),
        )
}

/// The text of a row that has one value.
pub open spec fn name_in(row: Seq<ValueView>) -> Seq<char> {
    row[0]->Text_0
}

spec fn named_upto(rows: Seq<Seq<ValueView>>, db: DbView, all: Seq<(Seq<u8>, Seq<u8>)>, i: int) -> bool {
    &&& forall|p: int|
        0 <= p < rows.len() ==> {
            &&& (#[trigger] rows[p]) == seq![ValueView::Text(name_in(rows[p]))]
            &&& db.tables.contains_key(name_in(rows[p]))
            &&& exists|q: int| 0 <= q < i && (#[trigger] all[q]).0 == tkey(name_in(rows[p]))
        }
    &&& forall|q: int, n: Seq<char>|
        0 <= q < i && (#[trigger] all[q]).0 == #[trigger] tkey(n) && db.tables.contains_key(n) ==> exists|p: int|
            0 <= p < rows.len() && name_in(#[trigger] rows[p]) == n
    &&& forall|p: int, q: int|
        0 <= p < q < rows.len() ==> lt(
            text_bytes(name_in(#[trigger] rows[p])),
            text_bytes(name_in(#[trigger] rows[q])),
        )
}

proof fn named_skip(rows: Seq<Seq<ValueView>>, db: DbView, all: Seq<(Seq<u8>, Seq<u8>)>, i: int)
    requires
        named_upto(rows, db, all, i),
        0 <= i < all.len(),
        forall|n: Seq<char>| all[i].0 != #[trigger] tkey(n),
    ensures
        named_upto(rows, db, all, i + 1),
{
    assert forall|p: int| 0 <= p < rows.len() implies exists|q: int|
        0 <= q < i + 1 && (#[trigger] all[q]).0 == tkey(name_in(#[trigger] rows[p])) by {
        let q = choose|q: int| 0 <= q < i && (#[trigger] all[q]).0 == tkey(name_in(rows[p]));
        assert(all[q].0 == tkey(name_in(rows[p])));
    }
}

proof fn named_step(rows: Seq<Seq<ValueView>>, db: DbView, all: Seq<(Seq<u8>, Seq<u8>)>, i: int, n: Seq<char>)
    requires
        sorted(all),
        named_upto(rows, db, all, i),
        0 <= i < all.len(),
        all[i].0 == tkey(n),
        db.tables.contains_key(n),
    ensures
        named_upto(rows.push(seq![ValueView::Text(n)]), db, all, i + 1),
{
    let v2 = rows.push(seq![ValueView::Text(n)]);
    assert forall|p: int| 0 <= p < v2.len() implies {
        &&& (#[trigger] v2[p]) == seq![ValueView::Text(name_in(v2[p]))]
        &&& db.tables.contains_key(name_in(v2[p]))
        &&& exists|q: int| 0 <= q < i + 1 && (#[trigger] all[q]).0 == tkey(name_in(v2[p]))
    } by {
        if p < rows.len() {
            assert(v2[p] == rows[p]);
            let q = choose|q: int| 0 <= q < i && (#[trigger] all[q]).0 == tkey(name_in(rows[p]));
            assert(all[q].0 == tkey(name_in(v2[p])));
        } else {
            assert(all[i].0 == tkey(name_in(v2[p])));
        }
    }
    assert forall|q: int, m: Seq<char>|
        0 <= q < i + 1 && (#[trigger] all[q]).0 == #[trigger] tkey(m) && db.tables.contains_key(m) implies exists|
        p: int,
    | 0 <= p < v2.len() && name_in(#[trigger] v2[p]) == m by {
        if q < i {
            let p = choose|p: int| 0 <= p < rows.len() && name_in(#[trigger] rows[p]) == m;
            assert(name_in(v2[p]) == m);
        } else {
            tkey_injective(n, m);
            assert(name_in(v2[v2.len() - 1]) == m);
        }
    }
    assert forall|p: int, q: int| 0 <= p < q < v2.len() implies lt(
        text_bytes(name_in(#[trigger] v2[p])),
        text_bytes(name_in(#[trigger] v2[q])),
    ) by {
        if q == rows.len() {
            let a = name_in(rows[p]);
            let x = choose|x: int| 0 <= x < i && (#[trigger] all[x]).0 == tkey(a);
            assert(lt(all[x].0, all[i].0));
            same_prefix_order(table_prefix(), text_bytes(a), text_bytes(n));
        } else {
            assert(v2[p] == rows[p] && v2[q] == rows[q]);
        }
    }
}

proof fn named_all(
    rows: Seq<Seq<ValueView>>,
    shelf: Map<Seq<u8>, Shelf>,
    db: DbView,
    all: Seq<(Seq<u8>, Seq<u8>)>,
)
    requires
        mirrors(shelf, db, all_seen(db)),
        names_listed(all, shelf, table_prefix()),
        named_upto(rows, db, all, all.len() as int),
    ensures
        table_names(rows, db),
{
    assert forall|n: Seq<char>| #[trigger] db.tables.contains_key(n) implies exists|i: int|
        0 <= i < rows.len() && name_in(#[trigger] rows[i]) == n by {
        has_table(shelf, db, all_seen(db), n);
        prefix_le(table_prefix(), text_bytes(n));
        let q = choose|q: int| 0 <= q < all.len() && (#[trigger] all[q]).0 == tkey(n);
        assert(all[q].0 == tkey(n));
    }
}

/// A catalog key that starts like that of a table is that of the table with the name behind it.
proof fn table_key_name(
    shelf: Map<Seq<u8>, Shelf>,
    db: DbView,
    seen: Map<Seq<char>, Map<u64, Seq<ValueView>>>,
    k: Seq<u8>,
)
    requires
        mirrors(shelf, db, seen),
        shelf.contains_key(k),
        k.len() >= 6,
        k.take(6) == table_prefix(),
    ensures
        valid_utf8(k.skip(6)),
        db.tables.contains_key(decode_utf8(k.skip(6))),
        k == tkey(decode_utf8(k.skip(6))),
{
    reveal(mirrors);
    if is_index_key(db, k) {
        let m = choose|m: Seq<char>| #[trigger] db.indexes.contains_key(m) && k == ikey(m);
        assert(ikey(m).take(6) =~= index_prefix());
        assert(table_prefix()[0] != index_prefix()[0]);
    } else {
        let m = choose|m: Seq<char>| #[trigger] db.tables.contains_key(m) && k == tkey(m);
        assert(tkey(m).skip(6) =~= text_bytes(m));
        text_roundtrip(m);
    }
}

/// How many pages an index with so many rows takes at most.
spec fn index_pages(rows: nat) -> nat {
    (PUT_PAGES + 1 + PUT_PAGES * rows) as nat
}

proof fn index_pages_more(i: nat, n: nat)
    requires
        i <= n,
    ensures
        index_pages(i) <= index_pages(n),
        n == i + 1 ==> index_pages(n) == index_pages(i) + PUT_PAGES,
{
    assert(PUT_PAGES * i <= PUT_PAGES * n) by (nonlinear_arith)
        requires
            i <= n,
    ;
    if n == i + 1 {
        assert(PUT_PAGES * (i + 1) == PUT_PAGES * i + PUT_PAGES) by (nonlinear_arith);
    }
}

/// Creating the entry of an index keeps within the stock.
proof fn index_stock(was: Tables, mid: Tables, now: Tables, to: DbView, n: Seq<char>, failed: Option<StorageError>)
    requires
        stays(was, mid),
        to.indexes.contains_key(n),
        was@.tables == to.tables,
        was@.indexes.dom().subset_of(to.indexes.dom()),
        forall|stock: Stock| #[trigger]
            mid.catalog.holds_in(stock) && admits_entry(stock, ikey(n), index_meta(to.indexes[n])) && one_more(
                stock,
                mid.catalog@,
                ikey(n),
            ) ==> written_in(mid.catalog, now.catalog, stock, create_table_pages(), failed),
    ensures
        failed is None ==> within_stock(was, now, to, create_table_pages()),
        failed matches Some(e) ==> spacious(was, now, to, create_table_pages(), Some(ErrorView::Storage(e))),
{
    assert forall|stock: Stock| #[trigger]
        was.holds_in(stock) && covers(stock, was@) && covers(stock, to) implies written_in(
        mid.catalog,
        now.catalog,
        stock,
        create_table_pages(),
        failed,
    ) by {
        assert(mid.holds_in(stock));
        assert(mid.catalog.holds_in(stock));
        if stock.few {
            assert(is_index_key(to, ikey(n)));
            names_fit(mid.catalog@, was@, to, ikey(n));
        }
    }
}

/// Adding a key to an index keeps within the stock.
proof fn index_row_stock(
    was: Tables,
    before: Tables,
    now: Tables,
    to: DbView,
    n: Seq<char>,
    id: u64,
    spent: nat,
    failed: Option<StorageError>,
)
    requires
        within_stock(was, before, to, spent),
        to.indexes.contains_key(n),
        to.tables[uppercased(to.indexes[n].table)].rows.contains_key(id),
        ({
            let e = index_entry(
                to.tables[uppercased(to.indexes[n].table)].rows[id][index_col(to, to.indexes[n])],
                id,
            );
            forall|stock: Stock| #[trigger]
                before.catalog.holds_in(stock) && stock.keys.contains(e) && stock.pairs.contains((e, Seq::empty()))
                    && admits_entry(stock, ikey(n), index_meta(to.indexes[n])) ==> written_in(
                    before.catalog,
                    now.catalog,
                    stock,
                    PUT_PAGES as nat,
                    failed,
                )
        }),
    ensures
        failed is None ==> within_stock(was, now, to, spent + PUT_PAGES as nat),
        failed matches Some(e) ==> spacious(was, now, to, spent + PUT_PAGES as nat, Some(ErrorView::Storage(e))),
{
    assert forall|stock: Stock| #[trigger]
        was.holds_in(stock) && covers(stock, was@) && covers(stock, to) implies now.holds_in(stock) && (failed is None
        ==> now.pages_left() + spent + PUT_PAGES >= was.pages_left()) && (roomy(stock) && was.all_fit()
        ==> match failed {
        None => now.all_fit(),
        Some(e) => e == StorageError::Full && was.pages_left() < spent + PUT_PAGES,
    }) by {
        assert(before.holds_in(stock));
        assert(before.catalog.holds_in(stock));
    }
}

} // verus!
