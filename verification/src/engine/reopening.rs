//! What a database file says of the database in it.
use vstd::prelude::*;

use crate::engine::catalog::{catalog_file, file_within};
use crate::engine::meta::{index_read_back, schema_read_back};
use crate::engine::model::{
    all_seen, ikey, ikey_injective, index_facts, is_index_key, is_table_key, keys_differ, mirrors,
    represents, rows_data, rows_data_key, table_facts, table_ok, tkey, tkey_injective, DbView,
    TableView,
};
use crate::engine::row::deserialize_row_undoes_serialize_row;
use crate::engine::tables::db_file;
use crate::storage::btree::rooted;
use crate::storage::page::PageView;
use crate::storage::pager::pages_of;
use crate::storage::store::{contents_of, entry_root, shelves, standing, Shelf};
use crate::storage::tree::{any_stock, disjoint, stored, tree_unique, Stock, Tree};

verus! {

/// A file holds a database.
pub open spec fn file_holds(m: Map<u32, Seq<u8>>, db: DbView) -> bool {
    exists|trees: Map<u32, Tree>| #[trigger] db_file(m, trees, db)
}

/// A file holds a database, and what it holds comes from a stock.
pub open spec fn file_holds_within(m: Map<u32, Seq<u8>>, db: DbView, stock: Stock) -> bool {
    exists|trees: Map<u32, Tree>| #[trigger] db_file(m, trees, db) && file_within(trees, stock)
}

/// The database that a file holds, if it holds one.
pub open spec fn db_in(m: Map<u32, Seq<u8>>) -> Option<DbView> {
    if exists|db: DbView| #[trigger] file_holds(m, db) {
        Some(choose|db: DbView| #[trigger] file_holds(m, db))
    } else {
        None
    }
}

/// The catalog, and the trees that it leads to.
spec fn led_to(trees: Map<u32, Tree>, r: u32) -> bool {
    let c = contents_of(trees)[1];
    r == 1 || exists|k: Seq<u8>| #[trigger] c.contains_key(k) && entry_root(c[k]) == r
}

spec fn pruned(trees: Map<u32, Tree>) -> Map<u32, Tree> {
    Map::new(|r: u32| trees.contains_key(r) && led_to(trees, r), |r: u32| trees[r])
}

proof fn trees_agree(m: Map<u32, PageView>, a: Map<u32, Tree>, b: Map<u32, Tree>, r: u32)
    requires
        standing(m, a),
        standing(m, b),
        a.contains_key(r),
        b.contains_key(r),
    ensures
        a[r] == b[r],
{
    tree_unique(a[r], b[r], m);
}

proof fn catalogs_agree(
    m: Map<u32, Seq<u8>>,
    a: Map<u32, Tree>,
    x: Map<Seq<u8>, Shelf>,
    b: Map<u32, Tree>,
    y: Map<Seq<u8>, Shelf>,
)
    requires
        catalog_file(m, a, x),
        catalog_file(m, b, y),
    ensures
        x == y,
        pruned(a) == pruned(b),
{
    let p = pages_of(m);
    let ca = contents_of(a);
    let cb = contents_of(b);
    trees_agree(p, a, b, 1);
    assert(ca[1] == cb[1]);
    assert forall|k: Seq<u8>| #[trigger] ca[1].contains_key(k) implies a[entry_root(ca[1][k])] == b[entry_root(
        ca[1][k],
    )] && a.contains_key(entry_root(ca[1][k])) && b.contains_key(entry_root(ca[1][k])) by {
        assert(cb[1].contains_key(k));
        trees_agree(p, a, b, entry_root(ca[1][k]));
    }
    assert(x =~= y);
    assert forall|r: u32| led_to(a, r) implies a.contains_key(r) && b.contains_key(r) && a[r] == b[r] by {
        if r != 1 {
            let k = choose|k: Seq<u8>| #[trigger] ca[1].contains_key(k) && entry_root(ca[1][k]) == r;
            assert(ca[1].contains_key(k));
        }
    }
    assert(pruned(a) =~= pruned(b));
}

proof fn pruned_catalog(m: Map<u32, Seq<u8>>, a: Map<u32, Tree>, x: Map<Seq<u8>, Shelf>)
    requires
        catalog_file(m, a, x),
    ensures
        catalog_file(m, pruned(a), x),
{
    let b = pruned(a);
    let ca = contents_of(a);
    let cb = contents_of(b);
    assert(led_to(a, 1));
    assert(b.contains_key(1) && b[1] == a[1]);
    assert(cb[1] == ca[1]);
    assert forall|k: Seq<u8>| #[trigger] cb[1].contains_key(k) implies b.contains_key(entry_root(cb[1][k])) && b[entry_root(
        cb[1][k],
    )] == a[entry_root(cb[1][k])] && cb[1][k].len() >= 4 && entry_root(cb[1][k]) != 1 by {
        assert(ca[1].contains_key(k));
        assert(led_to(a, entry_root(ca[1][k])));
    }
    assert forall|k: Seq<u8>, l: Seq<u8>|
        #![trigger cb[1].contains_key(k), cb[1].contains_key(l)]
        cb[1].contains_key(k) && cb[1].contains_key(l) && k != l implies entry_root(cb[1][k]) != entry_root(cb[1][l]) by {
        assert(ca[1].contains_key(k) && ca[1].contains_key(l));
    }
    assert(shelves(cb, 1) =~= x);
    assert forall|r: u32, q: u32|
        #![trigger b.contains_key(r), b.contains_key(q)]
        b.contains_key(r) && b.contains_key(q) && r != q implies disjoint(b[r], b[q]) by {
        assert(a.contains_key(r) && a.contains_key(q));
    }
    assert forall|r: u32| #[trigger] b.contains_key(r) implies stored(b[r], pages_of(m)) && rooted(b[r], any_stock())
        && b[r].id() == r by {
        assert(a.contains_key(r));
    }
}

/// The same rows are written as the same bytes only.
proof fn rows_agree(a: TableView, b: TableView)
    requires
        table_ok(a),
        table_ok(b),
        a.cols.len() == b.cols.len(),
        rows_data(a.rows) == rows_data(b.rows),
    ensures
        a.rows == b.rows,
{
    assert forall|id: u64| a.rows.contains_key(id) <==> b.rows.contains_key(id) by {
        rows_data_key(a.rows, id);
        rows_data_key(b.rows, id);
    }
    assert forall|id: u64| a.rows.contains_key(id) implies a.rows[id] == b.rows[id] by {
        rows_data_key(a.rows, id);
        rows_data_key(b.rows, id);
        assert(b.rows.contains_key(id));
        deserialize_row_undoes_serialize_row(a.rows[id]);
        deserialize_row_undoes_serialize_row(b.rows[id]);
    }
    assert(a.rows =~= b.rows);
}

/// A catalog represents one database only.
pub proof fn catalog_represents_one(shelf: Map<Seq<u8>, Shelf>, a: DbView, b: DbView)
    requires
        represents(shelf, a),
        represents(shelf, b),
    ensures
        a == b,
{
    names_agree(shelf, a, b);
    names_agree(shelf, b, a);
    assert forall|n: Seq<char>| a.tables.contains_key(n) implies a.tables[n] == b.tables[n] by {
        assert(b.tables.contains_key(n));
        table_facts(shelf, a, all_seen(a), n);
        table_facts(shelf, b, all_seen(b), n);
        schema_read_back(a.tables[n].next, a.tables[n].cols);
        schema_read_back(b.tables[n].next, b.tables[n].cols);
        rows_agree(a.tables[n], b.tables[n]);
    }
    assert(a.tables =~= b.tables);
    assert forall|n: Seq<char>| a.indexes.contains_key(n) implies a.indexes[n] == b.indexes[n] by {
        assert(b.indexes.contains_key(n));
        index_facts(shelf, a, all_seen(a), n);
        index_facts(shelf, b, all_seen(b), n);
        index_read_back(a.indexes[n]);
        index_read_back(b.indexes[n]);
    }
    assert(a.indexes =~= b.indexes);
}

proof fn names_agree(shelf: Map<Seq<u8>, Shelf>, a: DbView, b: DbView)
    requires
        represents(shelf, a),
        represents(shelf, b),
    ensures
        forall|n: Seq<char>| #[trigger] a.tables.contains_key(n) ==> b.tables.contains_key(n),
        forall|n: Seq<char>| #[trigger] a.indexes.contains_key(n) ==> b.indexes.contains_key(n),
{
    reveal(mirrors);
    assert forall|n: Seq<char>| #[trigger] a.tables.contains_key(n) implies b.tables.contains_key(n) by {
        assert(shelf.contains_key(tkey(n)));
        if is_index_key(b, tkey(n)) {
            let l = choose|l: Seq<char>| #[trigger] b.indexes.contains_key(l) && tkey(n) == ikey(l);
            keys_differ(n, l);
        } else {
            let l = choose|l: Seq<char>| #[trigger] b.tables.contains_key(l) && tkey(n) == tkey(l);
            tkey_injective(n, l);
        }
    }
    assert forall|n: Seq<char>| #[trigger] a.indexes.contains_key(n) implies b.indexes.contains_key(n) by {
        assert(shelf.contains_key(ikey(n)));
        if is_table_key(b, ikey(n)) {
            let l = choose|l: Seq<char>| #[trigger] b.tables.contains_key(l) && ikey(n) == tkey(l);
            keys_differ(l, n);
        } else {
            let l = choose|l: Seq<char>| #[trigger] b.indexes.contains_key(l) && ikey(n) == ikey(l);
            ikey_injective(n, l);
        }
    }
}

/// A file holds one database only.
pub proof fn file_holds_one(m: Map<u32, Seq<u8>>, a: DbView, b: DbView)
    requires
        file_holds(m, a),
        file_holds(m, b),
    ensures
        a == b,
{
    let ta = choose|trees: Map<u32, Tree>| #[trigger] db_file(m, trees, a);
    let tb = choose|trees: Map<u32, Tree>| #[trigger] db_file(m, trees, b);
    let x = choose|x: Map<Seq<u8>, Shelf>| #[trigger] catalog_file(m, ta, x) && represents(x, a);
    let y = choose|y: Map<Seq<u8>, Shelf>| #[trigger] catalog_file(m, tb, y) && represents(y, b);
    catalogs_agree(m, ta, x, tb, y);
    catalog_represents_one(x, a, b);
}

/// The database that a file holds is the one that is found in it.
pub proof fn held_is_found(m: Map<u32, Seq<u8>>, db: DbView)
    requires
        file_holds(m, db),
    ensures
        db_in(m) == Some(db),
{
    let found = choose|d: DbView| #[trigger] file_holds(m, d);
    file_holds_one(m, found, db);
}

/// The trees of a file that its catalog leads to, from whatever trees they are found.
pub open spec fn trees_in(m: Map<u32, Seq<u8>>) -> Map<u32, Tree> {
    choose|trees: Map<u32, Tree>|
        {
            &&& #[trigger] db_file(m, trees, db_in(m)->Some_0)
            &&& forall|stock: Stock| #[trigger]
                file_holds_within(m, db_in(m)->Some_0, stock) ==> file_within(trees, stock)
        }
}

/// The trees of a file are found, and come from every stock that they can come from.
pub proof fn trees_found(m: Map<u32, Seq<u8>>)
    requires
        db_in(m) is Some,
    ensures
        db_file(m, trees_in(m), db_in(m)->Some_0),
        forall|stock: Stock| #[trigger]
            file_holds_within(m, db_in(m)->Some_0, stock) ==> file_within(trees_in(m), stock),
{
    let db = db_in(m)->Some_0;
    assert(file_holds(m, db));
    let ta = choose|trees: Map<u32, Tree>| #[trigger] db_file(m, trees, db);
    let x = choose|x: Map<Seq<u8>, Shelf>| #[trigger] catalog_file(m, ta, x) && represents(x, db);
    let trees = pruned(ta);
    pruned_catalog(m, ta, x);
    assert(catalog_file(m, trees, x) && represents(x, db));
    assert(db_file(m, trees, db));
    assert forall|stock: Stock| #[trigger] file_holds_within(m, db, stock) implies file_within(trees, stock) by {
        let tb = choose|tb: Map<u32, Tree>| #[trigger] db_file(m, tb, db) && file_within(tb, stock);
        let y = choose|y: Map<Seq<u8>, Shelf>| #[trigger] catalog_file(m, tb, y) && represents(y, db);
        catalogs_agree(m, ta, x, tb, y);
        assert forall|r: u32| #[trigger] trees.contains_key(r) implies rooted(trees[r], stock) by {
            assert(pruned(tb).contains_key(r));
            assert(tb.contains_key(r));
        }
        assert(led_to(tb, 1));
        assert(tb.contains_key(1));
        assert(pruned(tb)[1] == tb[1]);
    }
}

} // verus!
