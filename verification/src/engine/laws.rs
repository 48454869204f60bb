//! What statements do to each other's work.
use vstd::prelude::*;

use crate::engine::condition::meets_opt;
use crate::engine::error::{Error, ErrorView};
use crate::engine::executor::{
    closed, found_in, last_named, opened, outcome, saved_in, use_outcome, Engine, QueryResult,
};
use crate::engine::join::{at_places, chosen, concat};
use crate::engine::model::{index_ok, table_ok, DbView, TableView};
use crate::engine::reopening::{db_in, file_holds_within, held_is_found};
use crate::engine::semantics::{
    index_created, index_dropped, is_indexed, matching, new_row, new_row_length, row_inserted,
    rows_deleted, rows_updated, table_created, table_dropped, updated_row,
};
use crate::engine::tables::Tables;
use crate::engine::tables::select::{picked, rows_at, schemas_of, selection, tables_of, ways};
use crate::sql::ast::{AssignmentView, ColumnView, ColumnsView, ExprView, StatementView, ValueView};
use crate::storage::pager::PageFile;
use crate::storage::tree::Stock;
use crate::text::uppercased;

verus! {

/// INSERT adds one row, with a number that no row had, and changes nothing else.
pub proof fn insert_adds_one_row(
    db: DbView,
    to: DbView,
    table: Seq<char>,
    columns: Option<Seq<Seq<char>>>,
    values: Seq<ValueView>,
)
    requires
        row_inserted(db, table, columns, values) == Ok::<DbView, ErrorView>(to),
        table_ok(db.tables[uppercased(table)]),
    ensures
        ({
            let n = uppercased(table);
            let id = db.tables[n].next;
            let row = new_row(columns, values, db.tables[n].cols, table)->Ok_0;
            &&& !db.tables[n].rows.contains_key(id)
            &&& to.tables[n].rows == db.tables[n].rows.insert(id, row)
            &&& to.tables[n].cols == db.tables[n].cols
            &&& to.tables.remove(n) == db.tables.remove(n)
            &&& to.indexes == db.indexes
        }),
{
    let n = uppercased(table);
    assert(to.tables.remove(n) =~= db.tables.remove(n));
}

/// What was inserted is selected.
pub proof fn inserted_row_is_selected(
    db: DbView,
    to: DbView,
    table: Seq<char>,
    columns: Option<Seq<Seq<char>>>,
    values: Seq<ValueView>,
    condition: Option<ExprView>,
    rows: Seq<Seq<ValueView>>,
    combos: Seq<Seq<u64>>,
)
    requires
        row_inserted(db, table, columns, values) == Ok::<DbView, ErrorView>(to),
        selection(
            rows,
            combos,
            tables_of(to, seq![table]),
            ColumnsView::Star,
            condition,
            ways(to, seq![table], condition),
        ),
    ensures
        ({
            let cols = db.tables[uppercased(table)].cols;
            let row = new_row(columns, values, cols, table)->Ok_0;
            meets_opt(condition, row, cols) ==> rows.contains(row)
        }),
{
    let n = uppercased(table);
    let t = to.tables[n];
    let cols = db.tables[n].cols;
    let row = new_row(columns, values, cols, table)->Ok_0;
    let ts = tables_of(to, seq![table]);
    let ids = seq![db.tables[n].next];
    new_row_length(columns, values, cols, table);
    assert(ts =~= seq![t]);
    assert(rows_at(ts, ids) =~= seq![row]);
    assert(schemas_of(ts) =~= seq![cols]);
    concat_one(row);
    concat_one(cols);
    if meets_opt(condition, row, cols) {
        assert(picked(ts, condition, ids));
        let i = choose|i: int| 0 <= i < combos.len() && combos[i] == ids;
        assert(picked(ts, condition, combos[i]));
        assert(at_places(row, chosen(ColumnsView::Star, cols)) =~= row);
        assert(rows[i] == row);
    }
}

proof fn concat_one<A>(x: Seq<A>)
    ensures
        concat(seq![x]) == x,
{
    let ss = seq![x];
    assert(ss.drop_last() =~= Seq::empty());
    assert(concat(ss.drop_last()) =~= Seq::empty());
    assert(concat(ss) =~= x);
}

/// After DELETE no row meets the condition, and the rows that did not meet it are as they were.
pub proof fn delete_removes_the_matches(db: DbView, to: DbView, count: nat, table: Seq<char>, condition: ExprView)
    requires
        rows_deleted(db, table, condition) == Ok::<(DbView, nat), ErrorView>((to, count)),
    ensures
        ({
            let n = uppercased(table);
            &&& matching(to.tables[n], condition) == Set::<u64>::empty()
            &&& rows_deleted(to, table, condition) == Ok::<(DbView, nat), ErrorView>((to, 0))
            &&& forall|id: u64| #[trigger]
                to.tables[n].rows.contains_key(id) <==> db.tables[n].rows.contains_key(id) && !matching(
                    db.tables[n],
                    condition,
                ).contains(id)
            &&& forall|id: u64| #[trigger]
                to.tables[n].rows.contains_key(id) ==> to.tables[n].rows[id] == db.tables[n].rows[id]
            &&& to.tables.remove(n) == db.tables.remove(n)
            &&& to.indexes == db.indexes
        }),
{
    let n = uppercased(table);
    let t = to.tables[n];
    assert(to.tables.remove(n) =~= db.tables.remove(n));
    assert(matching(t, condition) =~= Set::<u64>::empty());
    assert(t.rows.remove_keys(matching(t, condition)) =~= t.rows);
    assert(to.tables.insert(n, t) =~= to.tables);
}

/// UPDATE keeps the numbers of the rows, and changes only rows that meet the condition.
pub proof fn update_changes_only_matches(
    db: DbView,
    to: DbView,
    count: nat,
    table: Seq<char>,
    assignments: Seq<AssignmentView>,
    condition: ExprView,
)
    requires
        rows_updated(db, table, assignments, condition) == Ok::<(DbView, nat), ErrorView>((to, count)),
    ensures
        ({
            let n = uppercased(table);
            let t = db.tables[n];
            &&& to.tables[n].rows.dom() == t.rows.dom()
            &&& to.tables[n].cols == t.cols
            &&& forall|id: u64| #[trigger]
                t.rows.contains_key(id) ==> to.tables[n].rows[id] == if matching(t, condition).contains(id) {
                    updated_row(t.rows[id], assignments, t.cols)->Ok_0
                } else {
                    t.rows[id]
                }
            &&& to.tables.remove(n) == db.tables.remove(n)
            &&& to.indexes == db.indexes
        }),
{
    let n = uppercased(table);
    let t = db.tables[n];
    assert(to.tables.remove(n) =~= db.tables.remove(n));
    assert(to.tables[n].rows.dom() =~= t.rows.dom());
    if matching(t, condition) == Set::<u64>::empty() {
        assert forall|id: u64| #[trigger] t.rows.contains_key(id) implies !matching(t, condition).contains(id) by {}
    }
}

/// Dropping a table right after it was created gives back the database.
pub proof fn drop_undoes_create_table(db: DbView, to: DbView, name: Seq<char>, cols: Seq<ColumnView>)
    requires
        table_created(db, name, cols) == Ok::<DbView, ErrorView>(to),
        forall|n: Seq<char>| #[trigger] db.indexes.contains_key(n) ==> index_ok(db, db.indexes[n]),
    ensures
        table_dropped(to, name) == Ok::<DbView, ErrorView>(db),
{
    assert(!is_indexed(to, name));
    assert(to.tables.remove(uppercased(name)) =~= db.tables);
}

/// Dropping an index right after it was created gives back the database.
pub proof fn drop_undoes_create_index(db: DbView, to: DbView, name: Seq<char>, table: Seq<char>, column: Seq<char>)
    requires
        index_created(db, name, table, column) == Ok::<DbView, ErrorView>(to),
        !db.indexes.contains_key(uppercased(name)),
    ensures
        index_dropped(to, name) == Ok::<DbView, ErrorView>(db),
        to.tables == db.tables,
{
    assert(to.indexes.remove(uppercased(name)) =~= db.indexes);
}

/// A SELECT gives the same rows whether or not there are indexes.
pub proof fn indexes_leave_results_alone(
    ts: Seq<TableView>,
    columns: ColumnsView,
    condition: Option<ExprView>,
    rows: Seq<Seq<ValueView>>,
    combos: Seq<Seq<u64>>,
    via: Seq<Option<int>>,
    rows2: Seq<Seq<ValueView>>,
    combos2: Seq<Seq<u64>>,
    via2: Seq<Option<int>>,
)
    requires
        ts.len() > 0,
        selection(rows, combos, ts, columns, condition, via),
        selection(rows2, combos2, ts, columns, condition, via2),
    ensures
        rows.to_multiset() == rows2.to_multiset(),
{
    broadcast use vstd::seq_lib::group_to_multiset_ensures;

    same_combos(ts, columns, condition, rows, combos, via, rows2, combos2, via2);
    let f = |ids: Seq<u64>| at_places(concat(rows_at(ts, ids)), chosen(columns, concat(schemas_of(ts))));
    assert(rows =~= combos.map_values(f)) by {
        assert forall|i: int| 0 <= i < rows.len() implies rows[i] == #[trigger] combos.map_values(f)[i] by {
            assert(picked(ts, condition, combos[i]));
        }
    }
    assert(rows2 =~= combos2.map_values(f)) by {
        assert forall|i: int| 0 <= i < rows2.len() implies rows2[i] == #[trigger] combos2.map_values(f)[i] by {
            assert(picked(ts, condition, combos2[i]));
        }
    }
    permuted_map(combos, combos2, f);
}

proof fn same_combos(
    ts: Seq<TableView>,
    columns: ColumnsView,
    condition: Option<ExprView>,
    rows: Seq<Seq<ValueView>>,
    combos: Seq<Seq<u64>>,
    via: Seq<Option<int>>,
    rows2: Seq<Seq<ValueView>>,
    combos2: Seq<Seq<u64>>,
    via2: Seq<Option<int>>,
)
    requires
        ts.len() > 0,
        selection(rows, combos, ts, columns, condition, via),
        selection(rows2, combos2, ts, columns, condition, via2),
    ensures
        combos.no_duplicates(),
        combos2.no_duplicates(),
        forall|ids: Seq<u64>| #[trigger] combos.contains(ids) <==> combos2.contains(ids),
{
    assert forall|ids: Seq<u64>| #[trigger] combos.contains(ids) <==> combos2.contains(ids) by {
        if combos.contains(ids) {
            let i = choose|i: int| 0 <= i < combos.len() && combos[i] == ids;
            assert(picked(ts, condition, combos[i]));
        }
        if combos2.contains(ids) {
            let i = choose|i: int| 0 <= i < combos2.len() && combos2[i] == ids;
            assert(picked(ts, condition, combos2[i]));
        }
    }
}

/// Two orders of the same things have the same images.
proof fn permuted_map<A, B>(a: Seq<A>, b: Seq<A>, f: spec_fn(A) -> B)
    requires
        a.no_duplicates(),
        b.no_duplicates(),
        forall|x: A| #[trigger] a.contains(x) <==> b.contains(x),
    ensures
        a.map_values(f).to_multiset() == b.map_values(f).to_multiset(),
    decreases a.len(),
{
    broadcast use vstd::seq_lib::group_to_multiset_ensures;

    if a.len() == 0 {
        if b.len() > 0 {
            assert(b.contains(b[0]));
            assert(a.contains(b[0]));
        }
        assert(a.map_values(f) =~= b.map_values(f));
    } else {
        let x = a.last();
        assert(a.contains(x));
        let j = choose|j: int| 0 <= j < b.len() && b[j] == x;
        let a2 = a.drop_last();
        let b2 = b.remove(j);
        assert forall|y: A| #[trigger] a2.contains(y) <==> b2.contains(y) by {
            if a2.contains(y) {
                let p = choose|p: int| 0 <= p < a2.len() && a2[p] == y;
                assert(a[p] == y);
                assert(a[p] != a[a.len() - 1]);
                assert(a.contains(a[p]));
                assert(b.contains(y));
                let q = choose|q: int| 0 <= q < b.len() && b[q] == y;
                assert(b2[if q < j {
                    q
                } else {
                    q - 1
                }] == y);
            }
            if b2.contains(y) {
                let q = choose|q: int| 0 <= q < b2.len() && b2[q] == y;
                let q0 = if q < j {
                    q
                } else {
                    q + 1
                };
                assert(b[q0] == y);
                assert(b[q0] != b[j]);
                assert(a.contains(y));
                let p = choose|p: int| 0 <= p < a.len() && a[p] == y;
                assert(a2[p] == y);
            }
        }
        assert(b2.no_duplicates()) by {
            assert forall|p: int, q: int| 0 <= p < b2.len() && 0 <= q < b2.len() && p != q implies b2[p] != b2[q] by {
                let p0 = if p < j {
                    p
                } else {
                    p + 1
                };
                let q0 = if q < j {
                    q
                } else {
                    q + 1
                };
                assert(b2[p] == b[p0] && b2[q] == b[q0]);
            }
        }
        permuted_map(a2, b2, f);
        assert(a.map_values(f) =~= a2.map_values(f).push(f(x)));
        assert(b2.map_values(f) =~= b.map_values(f).remove(j));
        assert(b.map_values(f)[j] == f(x));
        let mb = b.map_values(f).to_multiset();
        assert(b.map_values(f).contains(f(x)));
        assert(mb.count(f(x)) > 0);
        assert(b2.map_values(f).to_multiset() =~= mb.remove(f(x)));
        assert(mb =~= mb.remove(f(x)).insert(f(x)));
    }
}

/// A database that is put into its file is the one that is found when the files are opened again, by
/// this engine or another; and a file that was not in use is the same, whatever is in it.
pub proof fn reopened_as_saved(e: Engine, files: Seq<(String, PageFile)>, r: Engine, n: Seq<char>)
    requires
        e.wf(),
        saved_in(e, files),
        opened(r, files),
        closed(e@, e.in_use()).dbs.contains_key(n),
    ensures
        r@.dbs.contains_key(n),
        closed(e@, e.in_use()).dbs[n] matches Some(db) ==> r@.dbs[n] == Some(db),
        closed(e@, e.in_use()).dbs[n] is Some && e@.dbs[n] is Some ==> r.left(n) == e.left(n),
        forall|stock: Stock|
            closed(e@, e.in_use()).dbs[n] is Some && e@.dbs[n] is Some && e.within(n, stock) ==> #[trigger] r.within(
                n,
                stock,
            ),
        e@.current != Some(n) ==> r.file_of(n) == e.file_of(n),
{
    let v = closed(e@, e.in_use()).dbs;
    let i = choose|i: int| 0 <= i < files.len() && (#[trigger] files[i]).0@ == n;
    assert(r@.dbs.contains_key(files[i].0@));
    let j = choose|j: int| #[trigger] last_named(files, j, n) && found_in(r, n, files[j].1@);
    if i < j {
        assert(files[i].0@ != files[j].0@);
    }
    if j < i {
        assert(files[j].0@ != files[i].0@);
    }
    if v[n] is Some {
        held_is_found(files[i].1@, v[n]->Some_0);
        assert forall|stock: Stock| e@.dbs[n] is Some && e.within(n, stock) implies #[trigger] r.within(n, stock) by {
            assert(file_holds_within(files[i].1@, v[files[i].0@]->Some_0, stock));
        }
    }
}

/// Of two files with the same name the later one counts, and there is no database without a file.
pub proof fn later_file_counts(e: Engine, files: Seq<(String, PageFile)>, i: int, n: Seq<char>)
    requires
        opened(e, files),
    ensures
        0 <= i < files.len() && files[i].0@ == n && (forall|k: int| i < k < files.len() ==> (#[trigger] files[k]).0@ != n)
            ==> e@.dbs.contains_key(n) && e@.dbs[n] == db_in(files[i].1@) && e.file_of(n) == files[i].1@,
        e@.dbs.contains_key(n) ==> exists|k: int| 0 <= k < files.len() && (#[trigger] files[k]).0@ == n,
        e@.current is None,
{
    if e@.dbs.contains_key(n) {
        let j = choose|j: int| #[trigger] last_named(files, j, n) && found_in(e, n, files[j].1@);
        assert(files[j].0@ == n);
        if 0 <= i < files.len() && files[i].0@ == n && (forall|k: int|
            i < k < files.len() ==> (#[trigger] files[k]).0@ != n) {
            if i < j {
                assert(files[j].0@ != n);
            } else if j < i {
                assert(files[i].0@ != n);
            }
        }
    }
    if 0 <= i < files.len() && files[i].0@ == n {
        assert(e@.dbs.contains_key(files[i].0@));
    }
}

/// No statement touches the file of a database that is neither in use before it nor after it, whether
/// the file holds a database or not.
pub proof fn file_not_in_use_is_kept(
    a: Engine,
    b: Engine,
    stmt: StatementView,
    r: Result<QueryResult, Error>,
    n: Seq<char>,
)
    requires
        a.wf(),
        outcome(a, b, stmt, r),
        a@.dbs.contains_key(n),
        b@.dbs.contains_key(n),
        a@.current != Some(n),
        b@.current != Some(n),
    ensures
        b.file_of(n) == a.file_of(n),
{
}

/// The database in use is kept when it is closed, if all its pages can be written and it has so few
/// tables and indexes that its catalog is a single page.
pub proof fn few_names_are_kept(e: Engine, t: Tables, stock: Stock)
    requires
        e.wf(),
        e.in_use() == Some(t),
        t.wf(),
        t.all_fit(),
        t.holds_in(stock),
        stock.few,
    ensures
        e@.current matches Some(n) && closed(e@, e.in_use()).dbs[n] == Some(t@),
{
    e.current_known();
    t.few_rooted_first(stock);
}

/// A database that was left for another one is as it was when it is used again.
pub proof fn used_again_as_left(
    a: Engine,
    b: Engine,
    c: Engine,
    other: Seq<char>,
    name: Seq<char>,
    q: QueryResult,
    q2: QueryResult,
)
    requires
        a.wf(),
        a@.current == Some(uppercased(name)),
        uppercased(other) != uppercased(name),
        use_outcome(a, b, other, Ok(q)),
        use_outcome(b, c, name, Ok(q2)),
    ensures
        closed(a@, a.in_use()).dbs[uppercased(name)] matches Some(db) ==> c.in_use() matches Some(t) && t.wf()
            && t.all_fit() && t@ == db,
{
    a.current_known();
    let n = uppercased(name);
    let m = uppercased(other);
    let v = closed(a@, a.in_use()).dbs;
    if a@.dbs.contains_key(m) {
        assert(b@.dbs.remove(m).contains_key(n) == v.remove(m).contains_key(n));
        assert(v.remove(m).contains_key(n));
        assert(b@.dbs.remove(m)[n] == v.remove(m)[n]);
        assert(b@.dbs[n] == v[n]);
    }
}

} // verus!
