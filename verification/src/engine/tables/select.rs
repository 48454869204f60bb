//! SELECT.
use vstd::prelude::*;

use crate::engine::condition::{meets_opt, row_meets};
use crate::engine::error::{Error, ErrorView};
use crate::engine::join::{
    at_places, cartesian_product, chosen, concat, concat_aligned, first_repeat, locals_of,
    locals_view, meet_locals, merge_schemas, missing, pairings, product, project_rows, rows_fit,
    schemas_view, sets_view, split_conditions,
};
use crate::engine::model::{all_seen, table_facts, DbView, TableView};
use crate::engine::tables::{read_failed, stays, table_key, Tables};
use crate::engine::tables::dml::{comes_before, in_order, way_to};
use crate::sql::ast::{
    condition_view, copy_row, row_view, rows_view, schema_view, texts, BoolExpr, ColumnDef,
    ColumnView, Columns, ColumnsView, ExprView, Value, ValueView,
};
use crate::storage::pager::StorageError;
use crate::text::uppercased;

verus! {

/// The tables of these names.
pub open spec fn tables_of(db: DbView, names: Seq<Seq<char>>) -> Seq<TableView> {
    Seq::new(names.len(), |k: int| db.tables[uppercased(names[k])])
}

/// The columns of each table.
pub open spec fn schemas_of(ts: Seq<TableView>) -> Seq<Seq<ColumnView>> {
    Seq::new(ts.len(), |k: int| ts[k].cols)
}

/// The rows with these numbers, one of each table.
pub open spec fn rows_at(ts: Seq<TableView>, ids: Seq<u64>) -> Seq<Seq<ValueView>> {
    Seq::new(ids.len(), |k: int| ts[k].rows[ids[k]])
}

/// Each table has the row with the number given for it, and the rows joined into one meet the
/// condition.
pub open spec fn picked(ts: Seq<TableView>, condition: Option<ExprView>, ids: Seq<u64>) -> bool {
    &&& ids.len() == ts.len()
    &&& forall|k: int| 0 <= k < ids.len() ==> ts[k].rows.contains_key(#[trigger] ids[k])
    &&& meets_opt(condition, concat(rows_at(ts, ids)), concat(schemas_of(ts)))
}

/// Lists of numbers of rows, one of each table, in the order of the first row that differs.
pub open spec fn ids_before(ts: Seq<TableView>, via: Seq<Option<int>>, a: Seq<u64>, b: Seq<u64>) -> bool {
    exists|k: int|
        0 <= k < a.len() && k < b.len() && a.take(k) == b.take(k) && #[trigger] comes_before(ts[k], via[k], a[k], b[k])
}

/// By which index the rows of each table are found, if by one: one on the column of the only comparison
/// that the condition of the table is.
pub open spec fn ways(db: DbView, names: Seq<Seq<char>>, condition: Option<ExprView>) -> Seq<Option<int>> {
    let locals = locals_of(condition, schemas_of(tables_of(db, names)));
    Seq::new(names.len(), |k: int| way_to(db, names[k], locals[k]))
}

/// The rows are the chosen columns of every combination of rows of the tables that meets the
/// condition, each once; `combos` are the numbers of the rows that were combined. They come in the order
/// of the rows of the first table, then of the second one and so on: in that of the keys of an index where
/// the rows of a table are found by one, and else in that of their numbers.
pub open spec fn selection(
    rows: Seq<Seq<ValueView>>,
    combos: Seq<Seq<u64>>,
    ts: Seq<TableView>,
    columns: ColumnsView,
    condition: Option<ExprView>,
    via: Seq<Option<int>>,
) -> bool {
    &&& rows.len() == combos.len()
    &&& forall|i: int|
        0 <= i < rows.len() ==> {
            &&& picked(ts, condition, #[trigger] combos[i])
            &&& rows[i] == at_places(concat(rows_at(ts, combos[i])), chosen(columns, concat(schemas_of(ts))))
        }
    &&& forall|ids: Seq<u64>| #[trigger] picked(ts, condition, ids) && ts.len() > 0 ==> combos.contains(ids)
    &&& combos.no_duplicates()
    &&& forall|i: int, j: int|
        0 <= i < j < combos.len() ==> ids_before(ts, via, #[trigger] combos[i], #[trigger] combos[j])
}

/// The first table, at or after `i`, that does not exist.
pub open spec fn first_missing(db: DbView, names: Seq<Seq<char>>, i: int) -> Option<Seq<char>>
    decreases names.len() - i,
{
    if i < 0 || i >= names.len() {
        None
    } else if !db.tables.contains_key(uppercased(names[i])) {
        Some(names[i])
    } else {
        first_missing(db, names, i + 1)
    }
}

/// Why a SELECT cannot be answered, if it cannot: a table is missing, a column name occurs twice, or
/// a column is missing.
pub open spec fn select_error(db: DbView, names: Seq<Seq<char>>, columns: ColumnsView) -> Option<ErrorView> {
    match first_missing(db, names, 0) {
        Some(name) => Some(ErrorView::NoTable(name)),
        None => {
            let cols = concat(schemas_of(tables_of(db, names)));
            match first_repeat(cols, 0) {
                Some(name) => Some(ErrorView::DuplicateColumn(name)),
                None => match missing(columns, cols) {
                    Some(name) => Some(ErrorView::NoColumn(name)),
                    None => None,
                },
            }
        },
    }
}

/// A list of the rows of a table that meet a condition, if there is one, each once.
pub open spec fn matches_opt(v: Seq<(u64, Vec<Value>)>, t: TableView, condition: Option<ExprView>) -> bool {
    &&& forall|i: int|
        0 <= i < v.len() ==> {
            &&& t.rows.contains_key((#[trigger] v[i]).0)
            &&& t.rows[v[i].0] == row_view(v[i].1@)
            &&& meets_opt(condition, t.rows[v[i].0], t.cols)
        }
    &&& forall|id: u64| #[trigger]
        t.rows.contains_key(id) && meets_opt(condition, t.rows[id], t.cols) ==> exists|i: int|
            0 <= i < v.len() && (#[trigger] v[i]).0 == id
    &&& forall|i: int, j: int| 0 <= i < j < v.len() ==> (#[trigger] v[i]).0 != (#[trigger] v[j]).0
}

/// Each list of numbers followed by each number.
spec fn pair_ids(a: Seq<Seq<u64>>, b: Seq<u64>) -> Seq<Seq<u64>>
    decreases a.len(),
{
    if a.len() == 0 {
        Seq::empty()
    } else {
        pair_ids(a.drop_last(), b) + Seq::new(b.len(), |j: int| a.last().push(b[j]))
    }
}

/// Every way to take one number from each list.
spec fn tuples(lists: Seq<Seq<u64>>) -> Seq<Seq<u64>>
    decreases lists.len(),
{
    if lists.len() == 0 {
        seq![Seq::empty()]
    } else {
        pair_ids(tuples(lists.drop_last()), lists.last())
    }
}

proof fn pair_contains(a: Seq<Seq<u64>>, b: Seq<u64>, t: Seq<u64>)
    ensures
        pair_ids(a, b).contains(t) <==> t.len() > 0 && a.contains(t.drop_last()) && b.contains(t.last()),
    decreases a.len(),
{
    if a.len() > 0 {
        let front = a.drop_last();
        let x = a.last();
        let more = Seq::new(b.len(), |j: int| x.push(b[j]));
        let all = pair_ids(a, b);
        pair_contains(front, b, t);
        if all.contains(t) {
            let i = choose|i: int| 0 <= i < all.len() && all[i] == t;
            if i < pair_ids(front, b).len() {
                assert(pair_ids(front, b)[i] == t);
                let q = choose|q: int| 0 <= q < front.len() && front[q] == t.drop_last();
                assert(a[q] == t.drop_last());
            } else {
                let j = i - pair_ids(front, b).len();
                assert(more[j] == t);
                assert(t.drop_last() =~= x);
                assert(a[a.len() - 1] == x);
                assert(b[j] == t.last());
            }
        }
        if t.len() > 0 && a.contains(t.drop_last()) && b.contains(t.last()) {
            let q = choose|q: int| 0 <= q < a.len() && a[q] == t.drop_last();
            if q < front.len() {
                assert(front[q] == t.drop_last());
                let i = choose|i: int| 0 <= i < pair_ids(front, b).len() && pair_ids(front, b)[i] == t;
                assert(all[i] == t);
            } else {
                let j = choose|j: int| 0 <= j < b.len() && b[j] == t.last();
                assert(x.push(b[j]) =~= t);
                assert(all[pair_ids(front, b).len() + j] == t);
            }
        }
    }
}

proof fn tuples_contains(lists: Seq<Seq<u64>>, t: Seq<u64>)
    ensures
        tuples(lists).contains(t) <==> t.len() == lists.len() && forall|k: int|
            0 <= k < t.len() ==> lists[k].contains(#[trigger] t[k]),
    decreases lists.len(),
{
    if lists.len() == 0 {
        let e = Seq::<u64>::empty();
        assert(tuples(lists)[0] == e);
        if t.len() == 0 {
            assert(t =~= e);
        }
    } else {
        let front = lists.drop_last();
        pair_contains(tuples(front), lists.last(), t);
        if t.len() > 0 {
            tuples_contains(front, t.drop_last());
            if t.len() == lists.len() && forall|k: int| 0 <= k < t.len() ==> lists[k].contains(#[trigger] t[k]) {
                assert forall|k: int| 0 <= k < t.drop_last().len() implies front[k].contains(
                    #[trigger] t.drop_last()[k],
                ) by {
                    assert(lists[k].contains(t[k]));
                }
                assert(lists[t.len() - 1].contains(t[t.len() - 1]));
            }
            if tuples(lists).contains(t) {
                assert forall|k: int| 0 <= k < t.len() implies lists[k].contains(#[trigger] t[k]) by {
                    if k < t.len() - 1 {
                        assert(front[k].contains(t.drop_last()[k]));
                    }
                }
            }
        }
    }
}

proof fn pair_distinct(a: Seq<Seq<u64>>, b: Seq<u64>)
    requires
        a.no_duplicates(),
        b.no_duplicates(),
    ensures
        pair_ids(a, b).no_duplicates(),
    decreases a.len(),
{
    if a.len() > 0 {
        let front = a.drop_last();
        let x = a.last();
        let p = pair_ids(front, b);
        let more = Seq::new(b.len(), |j: int| x.push(b[j]));
        let all = pair_ids(a, b);
        pair_distinct(front, b);
        assert forall|i: int, j: int| 0 <= i < j < all.len() implies all[i] != all[j] by {
            if j < p.len() {
                assert(p[i] != p[j]);
            } else if i >= p.len() {
                let u = i - p.len();
                let v = j - p.len();
                assert(b[u] != b[v]);
                assert(more[u].last() == b[u]);
                assert(more[v].last() == b[v]);
            } else {
                let t = p[i];
                assert(p.contains(t));
                pair_contains(front, b, t);
                let q = choose|q: int| 0 <= q < front.len() && front[q] == t.drop_last();
                assert(a[q] != a[a.len() - 1]);
                assert(more[j - p.len()].drop_last() =~= x);
            }
        }
    }
}

proof fn tuples_distinct(lists: Seq<Seq<u64>>)
    requires
        forall|k: int| 0 <= k < lists.len() ==> (#[trigger] lists[k]).no_duplicates(),
    ensures
        tuples(lists).no_duplicates(),
    decreases lists.len(),
{
    if lists.len() > 0 {
        let front = lists.drop_last();
        assert forall|k: int| 0 <= k < front.len() implies (#[trigger] front[k]).no_duplicates() by {
            assert(front[k] == lists[k]);
        }
        tuples_distinct(front);
        assert(lists[lists.len() - 1].no_duplicates());
        pair_distinct(tuples(front), lists.last());
    }
}

/// Lists of numbers in order.
spec fn tuples_sorted(ts: Seq<TableView>, via: Seq<Option<int>>, a: Seq<Seq<u64>>) -> bool {
    forall|i: int, j: int| 0 <= i < j < a.len() ==> ids_before(ts, via, #[trigger] a[i], #[trigger] a[j])
}

/// Numbers of rows in the order of the rows.
spec fn ids_sorted(t: TableView, via: Option<int>, ids: Seq<u64>) -> bool {
    forall|i: int, j: int| 0 <= i < j < ids.len() ==> comes_before(t, via, #[trigger] ids[i], #[trigger] ids[j])
}

proof fn pair_sorted(ts: Seq<TableView>, via: Seq<Option<int>>, a: Seq<Seq<u64>>, b: Seq<u64>, k: int)
    requires
        tuples_sorted(ts, via, a),
        ids_sorted(ts[k], via[k], b),
        0 <= k,
        forall|i: int| 0 <= i < a.len() ==> (#[trigger] a[i]).len() == k,
    ensures
        tuples_sorted(ts, via, pair_ids(a, b)),
        forall|i: int| 0 <= i < pair_ids(a, b).len() ==> (#[trigger] pair_ids(a, b)[i]).len() == k + 1,
    decreases a.len(),
{
    if a.len() > 0 {
        let front = a.drop_last();
        let x = a.last();
        let p = pair_ids(front, b);
        let more = Seq::new(b.len(), |j: int| x.push(b[j]));
        let all = pair_ids(a, b);
        assert forall|i: int| 0 <= i < front.len() implies (#[trigger] front[i]).len() == k by {
            assert(front[i] == a[i]);
        }
        assert forall|i: int, j: int| 0 <= i < j < front.len() implies ids_before(ts, via, 
            #[trigger] front[i],
            #[trigger] front[j],
        ) by {
            assert(ids_before(ts, via, a[i], a[j]));
        }
        pair_sorted(ts, via, front, b, k);
        assert(a[a.len() - 1].len() == k);
        assert forall|i: int| 0 <= i < all.len() implies (#[trigger] all[i]).len() == k + 1 by {
            if i < p.len() {
                assert(all[i] == p[i]);
            }
        }
        assert forall|i: int, j: int| 0 <= i < j < all.len() implies ids_before(ts, via, #[trigger] all[i], #[trigger] all[j]) by {
            if j < p.len() {
                assert(all[i] == p[i] && all[j] == p[j]);
            } else if i >= p.len() {
                let u = i - p.len();
                let v = j - p.len();
                assert(comes_before(ts[k], via[k], b[u], b[v]));
                assert(all[i] == x.push(b[u]) && all[j] == x.push(b[v]));
                assert(all[i].take(k) =~= all[j].take(k));
                assert(comes_before(ts[k], via[k], all[i][k], all[j][k]));
            } else {
                let t = p[i];
                assert(p.contains(t));
                pair_contains(front, b, t);
                let q = choose|q: int| 0 <= q < front.len() && front[q] == t.drop_last();
                assert(ids_before(ts, via, a[q], a[a.len() - 1]));
                let c = choose|c: int|
                    0 <= c < a[q].len() && c < x.len() && a[q].take(c) == x.take(c) && #[trigger] comes_before(
                        ts[c],
                        via[c],
                        a[q][c],
                        x[c],
                    );
                let y = all[j];
                assert(y == x.push(b[j - p.len()]));
                assert(t.take(c) =~= a[q].take(c));
                assert(y.take(c) =~= x.take(c));
                assert(t[c] == a[q][c]);
                assert(comes_before(ts[c], via[c], t[c], y[c]));
            }
        }
    }
}

proof fn tuples_in_order(ts: Seq<TableView>, via: Seq<Option<int>>, lists: Seq<Seq<u64>>)
    requires
        forall|k: int| 0 <= k < lists.len() ==> ids_sorted(ts[k], via[k], #[trigger] lists[k]),
    ensures
        tuples_sorted(ts, via, tuples(lists)),
        forall|i: int| 0 <= i < tuples(lists).len() ==> (#[trigger] tuples(lists)[i]).len() == lists.len(),
    decreases lists.len(),
{
    if lists.len() > 0 {
        let front = lists.drop_last();
        assert forall|k: int| 0 <= k < front.len() implies ids_sorted(ts[k], via[k], #[trigger] front[k]) by {
            assert(front[k] == lists[k]);
        }
        tuples_in_order(ts, via, front);
        assert(ids_sorted(ts[lists.len() - 1], via[lists.len() - 1], lists[lists.len() - 1]));
        pair_sorted(ts, via, tuples(front), lists.last(), front.len() as int);
    }
}

/// The rows that lists of numbers stand for.
spec fn set_of(t: TableView, ids: Seq<u64>) -> Seq<Seq<ValueView>> {
    Seq::new(ids.len(), |i: int| t.rows[ids[i]])
}

proof fn concat_push(ss: Seq<Seq<ValueView>>, s: Seq<ValueView>)
    ensures
        concat(ss.push(s)) == concat(ss) + s,
{
    assert(ss.push(s).drop_last() =~= ss);
}

proof fn pair_rows(ts: Seq<TableView>, a: Seq<Seq<u64>>, k: int, ids: Seq<u64>)
    requires
        0 <= k < ts.len(),
        forall|i: int| 0 <= i < a.len() ==> (#[trigger] a[i]).len() == k,
    ensures
        ({
            let pa = Seq::new(a.len(), |i: int| concat(rows_at(ts, a[i])));
            let all = pair_ids(a, ids);
            let rows = pairings(pa, set_of(ts[k], ids));
            &&& rows.len() == all.len()
            &&& forall|i: int|
                0 <= i < all.len() ==> rows[i] == concat(rows_at(ts, #[trigger] all[i])) && all[i].len() == k + 1
        }),
    decreases a.len(),
{
    if a.len() > 0 {
        let front = a.drop_last();
        let x = a.last();
        let pa = Seq::new(a.len(), |i: int| concat(rows_at(ts, a[i])));
        let pf = Seq::new(front.len(), |i: int| concat(rows_at(ts, front[i])));
        assert(pa.drop_last() =~= pf);
        assert forall|i: int| 0 <= i < front.len() implies (#[trigger] front[i]).len() == k by {
            assert(front[i] == a[i]);
        }
        pair_rows(ts, front, k, ids);
        let b = set_of(ts[k], ids);
        let p = pair_ids(front, ids);
        let all = pair_ids(a, ids);
        let rows = pairings(pa, b);
        assert(a[a.len() - 1].len() == k);
        assert forall|i: int| 0 <= i < all.len() implies rows[i] == concat(rows_at(ts, #[trigger] all[i]))
            && all[i].len() == k + 1 by {
            if i < p.len() {
                assert(all[i] == p[i]);
            } else {
                let j = i - p.len();
                assert(all[i] == x.push(ids[j]));
                assert(rows_at(ts, x.push(ids[j])) =~= rows_at(ts, x).push(ts[k].rows[ids[j]]));
                concat_push(rows_at(ts, x), ts[k].rows[ids[j]]);
            }
        }
    }
}

proof fn product_rows(ts: Seq<TableView>, lists: Seq<Seq<u64>>)
    requires
        lists.len() <= ts.len(),
    ensures
        ({
            let sets = Seq::new(lists.len(), |k: int| set_of(ts[k], lists[k]));
            &&& product(sets).len() == tuples(lists).len()
            &&& forall|i: int|
                0 <= i < tuples(lists).len() ==> product(sets)[i] == concat(rows_at(ts, #[trigger] tuples(lists)[i]))
                    && tuples(lists)[i].len() == lists.len()
        }),
    decreases lists.len(),
{
    let sets = Seq::new(lists.len(), |k: int| set_of(ts[k], lists[k]));
    if lists.len() == 0 {
        assert(rows_at(ts, Seq::empty()) =~= Seq::empty());
        assert(tuples(lists) =~= seq![Seq::empty()]);
    } else {
        let front = lists.drop_last();
        let k = front.len() as int;
        product_rows(ts, front);
        let sf = Seq::new(front.len(), |k: int| set_of(ts[k], front[k]));
        assert(sets.drop_last() =~= sf);
        let a = tuples(front);
        pair_rows(ts, a, k, lists.last());
        let pa = Seq::new(a.len(), |i: int| concat(rows_at(ts, a[i])));
        assert(product(sf) =~= pa);
        assert(sets.last() == set_of(ts[k], lists.last()));
    }
}

/// What the list of one table says.
spec fn listed(ids: Seq<u64>, t: TableView, condition: Option<ExprView>) -> bool {
    &&& ids.no_duplicates()
    &&& forall|id: u64| #[trigger]
        ids.contains(id) <==> t.rows.contains_key(id) && meets_opt(condition, t.rows[id], t.cols)
}

proof fn listed_of(v: Seq<(u64, Vec<Value>)>, t: TableView, condition: Option<ExprView>)
    requires
        matches_opt(v, t, condition),
    ensures
        ({
            let ids = Seq::new(v.len(), |i: int| v[i].0);
            &&& listed(ids, t, condition)
            &&& Seq::new(v.len(), |i: int| row_view(v[i].1@)) == set_of(t, ids)
        }),
{
    let ids = Seq::new(v.len(), |i: int| v[i].0);
    assert forall|i: int, j: int| 0 <= i < j < ids.len() implies ids[i] != ids[j] by {
        assert(v[i].0 != v[j].0);
    }
    assert forall|id: u64| #[trigger] ids.contains(id) <==> t.rows.contains_key(id) && meets_opt(
        condition,
        t.rows[id],
        t.cols,
    ) by {
        if ids.contains(id) {
            let i = choose|i: int| 0 <= i < ids.len() && ids[i] == id;
            assert(t.rows.contains_key(v[i].0));
        }
        if t.rows.contains_key(id) && meets_opt(condition, t.rows[id], t.cols) {
            let i = choose|i: int| 0 <= i < v.len() && (#[trigger] v[i]).0 == id;
            assert(ids[i] == id);
        }
    }
    assert forall|i: int| 0 <= i < v.len() implies row_view(v[i].1@) == t.rows[ids[i]] by {
        assert(t.rows[v[i].0] == row_view(v[i].1@));
    }
    assert(Seq::new(v.len(), |i: int| row_view(v[i].1@)) =~= set_of(t, ids));
}

/// The rows of a numbered list without the numbers.
fn without_numbers(v: Vec<(u64, Vec<Value>)>) -> (r: Vec<Vec<Value>>)
    ensures
        rows_view(r@) == Seq::new(v@.len(), |i: int| row_view(v@[i].1@)),
{
    let mut r: Vec<Vec<Value>> = Vec::new();
    let mut i: usize = 0;
    while i < v.len()
        invariant
            i <= v@.len(),
            r@.len() == i,
            forall|j: int| 0 <= j < i ==> row_view((#[trigger] r@[j])@) == row_view(v@[j].1@),
        decreases v@.len() - i,
    {
        r.push(copy_row(&v[i].1));
        i += 1;
    }
    assert(rows_view(r@) =~= Seq::new(v@.len(), |i: int| row_view(v@[i].1@)));
    r
}

impl Tables {
    /// The rows of a table that meet a condition, if there is one.
    fn filter_table_rows(
        &mut self,
        table: &str,
        condition: &Option<BoolExpr>,
        schema: &Vec<ColumnDef>,
    ) -> (r: Result<Vec<(u64, Vec<Value>)>, Error>)
        ensures
            ({
                let n = uppercased(table@);
                old(self).wf() && old(self)@.tables.contains_key(n) && schema_view(schema@) == old(
                    self,
                )@.tables[n].cols ==> {
                    &&& stays(*old(self), *final(self))
                    &&& match r {
                        Ok(v) => matches_opt(v@, old(self)@.tables[n], condition_view(*condition)) && in_order(
                            v@,
                            old(self)@.tables[n],
                            way_to(old(self)@, table@, condition_view(*condition)),
                        ),
                        Err(e) => read_failed(*old(self), e@),
                    }
                }
            }),
    {
        let ghost good = self.wf();
        let ghost n = uppercased(table@);
        let key = table_key(table);
        match condition {
            None => self.read_all_rows(&key, schema, Ghost(n)),
            Some(expr) => {
                let indexes = match self.list_indexes(table) {
                    Err(e) => {
                        return Err(e);
                    },
                    Ok(v) => v,
                };
                proof {
                    if good && indexes@.len() > 0 {
                        assert(self@.indexes.contains_key(indexes@[0].0@));
                    }
                }
                self.matching_rows(&key, expr, schema, &indexes, Ghost(table@))
            },
        }
    }

    /// The schemas of tables.
    fn get_schemas(&mut self, tables: &Vec<String>) -> (r: Result<Vec<Vec<ColumnDef>>, Error>)
        ensures
            old(self).wf() ==> {
                let names = texts(tables@);
                &&& stays(*old(self), *final(self))
                &&& match r {
                    Ok(v) => {
                        &&& first_missing(old(self)@, names, 0) is None
                        &&& schemas_view(v@) == schemas_of(tables_of(old(self)@, names))
                        &&& forall|k: int|
                            0 <= k < names.len() ==> old(self)@.tables.contains_key(uppercased(#[trigger] names[k]))
                    },
                    Err(e) => {
                        ||| first_missing(old(self)@, names, 0) is Some && e@ == ErrorView::NoTable(
                            first_missing(old(self)@, names, 0)->Some_0,
                        )
                        ||| read_failed(*old(self), e@)
                    },
                }
            },
    {
        let ghost was = *self;
        let ghost good = self.wf();
        let ghost db = self.db@;
        let ghost names = texts(tables@);
        let mut v: Vec<Vec<ColumnDef>> = Vec::new();
        let mut i: usize = 0;
        while i < tables.len()
            invariant
                i <= tables@.len(),
                was == *old(self),
                good == was.wf(),
                db == was.db@,
                names == texts(tables@),
                v@.len() == i,
                good ==> {
                    &&& stays(was, *self)
                    &&& first_missing(db, names, 0) == first_missing(db, names, i as int)
                    &&& forall|k: int|
                        0 <= k < i ==> db.tables.contains_key(uppercased(#[trigger] names[k])) && schema_view(v@[k]@)
                            == db.tables[uppercased(names[k])].cols
                },
            decreases tables@.len() - i,
        {
            assert(names[i as int] == tables@[i as int]@);
            match self.get_table(tables[i].as_str()) {
                Err(e) => {
                    return Err(e);
                },
                Ok((_, schema)) => {
                    v.push(schema);
                },
            }
            i += 1;
        }
        proof {
            if good {
                assert(schemas_view(v@) =~= schemas_of(tables_of(db, names))) by {
                    assert forall|k: int| 0 <= k < v@.len() implies schemas_view(v@)[k] == schemas_of(
                        tables_of(db, names),
                    )[k] by {
                        assert(db.tables.contains_key(uppercased(names[k])));
                    }
                }
            }
        }
        Ok(v)
    }

    /// The rows of each table that meet the condition of the table.
    fn get_sets(
        &mut self,
        tables: &Vec<String>,
        locals: &Vec<Option<BoolExpr>>,
        schemas: &Vec<Vec<ColumnDef>>,
    ) -> (r: Result<(Vec<Vec<Vec<Value>>>, Ghost<Seq<Seq<u64>>>), Error>)
        requires
            locals@.len() == tables@.len(),
            schemas@.len() == tables@.len(),
        ensures
            ({
                let names = texts(tables@);
                let ts = tables_of(old(self)@, names);
                old(self).wf() && schemas_view(schemas@) == schemas_of(ts) && (forall|k: int|
                    0 <= k < names.len() ==> old(self)@.tables.contains_key(uppercased(#[trigger] names[k]))) ==> {
                    &&& stays(*old(self), *final(self))
                    &&& match r {
                        Ok((sets, lists)) => {
                            &&& lists@.len() == ts.len()
                            &&& sets_view(sets@) == Seq::new(ts.len(), |k: int| set_of(ts[k], lists@[k]))
                            &&& forall|k: int|
                                0 <= k < ts.len() ==> listed(
                                    #[trigger] lists@[k],
                                    ts[k],
                                    locals_view(locals@)[k],
                                ) && ids_sorted(
                                    ts[k],
                                    way_to(old(self)@, names[k], locals_view(locals@)[k]),
                                    lists@[k],
                                )
                        },
                        Err(e) => read_failed(*old(self), e@),
                    }
                }
            }),
    {
        let ghost was = *self;
        let ghost db = self.db@;
        let ghost names = texts(tables@);
        let ghost ts = tables_of(db, names);
        let ghost lv = locals_view(locals@);
        let ghost good = self.wf() && schemas_view(schemas@) == schemas_of(ts) && (forall|k: int|
            0 <= k < names.len() ==> db.tables.contains_key(uppercased(#[trigger] names[k])));
        let mut sets: Vec<Vec<Vec<Value>>> = Vec::new();
        let ghost mut lists: Seq<Seq<u64>> = Seq::empty();
        let mut i: usize = 0;
        while i < tables.len()
            invariant
                i <= tables@.len() == locals@.len(),
                schemas@.len() == tables@.len(),
                was == *old(self),
                db == was.db@,
                names == texts(tables@),
                ts == tables_of(db, names),
                lv == locals_view(locals@),
                good == (was.wf() && schemas_view(schemas@) == schemas_of(ts) && (forall|k: int|
                    0 <= k < names.len() ==> db.tables.contains_key(uppercased(#[trigger] names[k])))),
                sets@.len() == i,
                good ==> {
                    &&& stays(was, *self)
                    &&& lists.len() == i
                    &&& forall|k: int|
                        0 <= k < i ==> listed(#[trigger] lists[k], ts[k], lv[k]) && rows_view(sets@[k]@) == set_of(
                            ts[k],
                            lists[k],
                        ) && ids_sorted(ts[k], way_to(db, names[k], lv[k]), lists[k])
                },
            decreases tables@.len() - i,
        {
            proof {
                assert(names[i as int] == tables@[i as int]@);
                if good {
                    assert(db.tables.contains_key(uppercased(names[i as int])));
                    assert(schemas_view(schemas@)[i as int] == schema_view(schemas@[i as int]@));
                    assert(schemas_of(ts)[i as int] == ts[i as int].cols);
                }
            }
            match self.filter_table_rows(tables[i].as_str(), &locals[i], &schemas[i]) {
                Err(e) => {
                    return Err(e);
                },
                Ok(v) => {
                    proof {
                        if good {
                            listed_of(v@, ts[i as int], lv[i as int]);
                            let ids = Seq::new(v@.len(), |j: int| v@[j].0);
                            let way = way_to(db, names[i as int], lv[i as int]);
                            assert forall|p: int, q: int| 0 <= p < q < ids.len() implies comes_before(
                                ts[i as int],
                                way,
                                #[trigger] ids[p],
                                #[trigger] ids[q],
                            ) by {
                                assert(comes_before(ts[i as int], way, v@[p].0, v@[q].0));
                            }
                            lists = lists.push(ids);
                        }
                    }
                    sets.push(without_numbers(v));
                },
            }
            i += 1;
        }
        proof {
            if good {
                assert(sets_view(sets@) =~= Seq::new(ts.len(), |k: int| set_of(ts[k], lists[k]))) by {
                    assert forall|k: int| 0 <= k < sets@.len() implies sets_view(sets@)[k] == set_of(
                        ts[k],
                        lists[k],
                    ) by {
                        assert(listed(lists[k], ts[k], lv[k]));
                    }
                }
            }
        }
        Ok((sets, Ghost(lists)))
    }

    /// `SELECT cols FROM t1 [, t2, ...] [WHERE condition]`
    pub fn exec_select(&mut self, columns: &Columns, tables: &Vec<String>, condition: &Option<BoolExpr>) -> (r: Result<
        Vec<Vec<Value>>,
        Error,
    >)
        ensures
            old(self).wf() ==> {
                let names = texts(tables@);
                &&& stays(*old(self), *final(self))
                &&& match r {
                    Ok(v) => {
                        &&& select_error(old(self)@, names, columns@) is None
                        &&& exists|combos: Seq<Seq<u64>>| #[trigger]
                            selection(
                                rows_view(v@),
                                combos,
                                tables_of(old(self)@, names),
                                columns@,
                                condition_view(*condition),
                                ways(old(self)@, names, condition_view(*condition)),
                            )
                    },
                    Err(e) => {
                        ||| select_error(old(self)@, names, columns@) == Some(e@)
                        ||| read_failed(*old(self), e@)
                    },
                }
            },
    {
        let ghost was = *self;
        let ghost good = self.wf();
        let ghost db = self.db@;
        let ghost names = texts(tables@);
        let ghost ts = tables_of(db, names);
        let ghost cond = condition_view(*condition);
        let schemas = match self.get_schemas(tables) {
            Err(e) => {
                return Err(e);
            },
            Ok(v) => v,
        };
        let merged = match merge_schemas(&schemas) {
            Err(e) => {
                return Err(e);
            },
            Ok(m) => m,
        };
        let (locals, cross) = split_conditions(condition, &schemas);
        if schemas.len() != tables.len() {
            proof {
                if good {
                    assert(schemas_view(schemas@).len() == schemas_of(ts).len());
                }
            }
            return Err(Error::Storage(StorageError::Corrupt));
        }
        let (sets, lists) = match self.get_sets(tables, &locals, &schemas) {
            Err(e) => {
                return Err(e);
            },
            Ok(x) => x,
        };
        let combined = cartesian_product(&sets);
        let ghost tup = if sets@.len() == 0 {
            Seq::empty()
        } else {
            tuples(lists@)
        };
        proof {
            if good {
                product_rows(ts, lists@);
                assert(sets_view(sets@).len() == ts.len());
            }
        }
        let (filtered, keep) = keep_rows(combined, &cross, &merged);
        let ghost combos = Seq::new(keep@.len(), |j: int| tup[keep@[j]]);
        proof {
            if good {
                select_lengths(was, names, combos, cond);
                select_combos(
                    ts,
                    lists@,
                    locals_view(locals@),
                    condition_view(cross),
                    cond,
                    tup,
                    rows_view(combined@),
                    rows_view(filtered@),
                    keep@,
                );
                assert forall|i: int| 0 <= i < filtered@.len() implies (#[trigger] filtered@[i])@.len()
                    >= merged@.len() by {
                    assert(rows_view(filtered@)[i] == row_view(filtered@[i]@));
                    assert(row_view(filtered@[i]@).len() == filtered@[i]@.len());
                    assert(picked(ts, cond, combos[i]));
                    assert(schema_view(merged@).len() == merged@.len());
                }
            }
        }
        let mut short: bool = false;
        let mut i: usize = 0;
        while i < filtered.len()
            invariant
                i <= filtered@.len(),
                !short ==> forall|j: int| 0 <= j < i ==> (#[trigger] filtered@[j])@.len() >= merged@.len(),
                good ==> !short,
                good ==> forall|j: int| 0 <= j < filtered@.len() ==> (#[trigger] filtered@[j])@.len() >= merged@.len(),
            decreases filtered@.len() - i,
        {
            if filtered[i].len() < merged.len() {
                short = true;
            }
            i += 1;
        }
        if short {
            return Err(Error::Storage(StorageError::Corrupt));
        }
        match project_rows(&filtered, &merged, columns) {
            Err(e) => Err(e),
            Ok(rows) => {
                proof {
                    if good {
                        let via = ways(db, names, cond);
                        assert(selection(rows_view(rows@), combos, ts, columns@, cond, via)) by {
                            let cols = concat(schemas_of(ts));
                            assert forall|i: int| 0 <= i < combos.len() implies rows_view(rows@)[i] == at_places(
                                concat(rows_at(ts, #[trigger] combos[i])),
                                chosen(columns@, cols),
                            ) by {
                                assert(rows_view(filtered@)[i] == concat(rows_at(ts, combos[i])));
                            }
                            assert forall|k: int| 0 <= k < lists@.len() implies ids_sorted(
                                ts[k],
                                via[k],
                                #[trigger] lists@[k],
                            ) by {
                                assert(listed(lists@[k], ts[k], locals_view(locals@)[k]));
                            }
                            tuples_in_order(ts, via, lists@);
                            assert forall|i: int, j: int| 0 <= i < j < combos.len() implies ids_before(
                                ts,
                                via,
                                #[trigger] combos[i],
                                #[trigger] combos[j],
                            ) by {
                                assert(keep@[i] < keep@[j]);
                                assert(ids_before(ts, via, tup[keep@[i]], tup[keep@[j]]));
                            }
                        }
                    }
                }
                Ok(rows)
            },
        }
    }
}

/// The rows that meet a condition, if there is one, and their places.
fn keep_rows(rows: Vec<Vec<Value>>, condition: &Option<BoolExpr>, schema: &Vec<ColumnDef>) -> (r: (
    Vec<Vec<Value>>,
    Ghost<Seq<int>>,
))
    ensures
        ({
            let all = rows_view(rows@);
            let cond = condition_view(*condition);
            let cols = schema_view(schema@);
            let keep = r.1@;
            &&& keep.len() == r.0@.len()
            &&& forall|j: int|
                0 <= j < keep.len() ==> {
                    &&& 0 <= #[trigger] keep[j] < all.len()
                    &&& rows_view(r.0@)[j] == all[keep[j]]
                    &&& meets_opt(cond, all[keep[j]], cols)
                }
            &&& forall|i: int, j: int| 0 <= i < j < keep.len() ==> #[trigger] keep[i] < #[trigger] keep[j]
            &&& forall|i: int|
                0 <= i < all.len() && meets_opt(cond, #[trigger] all[i], cols) ==> keep.contains(i)
        }),
{
    let ghost all = rows_view(rows@);
    let ghost cond = condition_view(*condition);
    let ghost cols = schema_view(schema@);
    let mut result: Vec<Vec<Value>> = Vec::new();
    let ghost mut keep: Seq<int> = Seq::empty();
    let mut i: usize = 0;
    while i < rows.len()
        invariant
            i <= rows@.len(),
            all == rows_view(rows@),
            cond == condition_view(*condition),
            cols == schema_view(schema@),
            keep.len() == result@.len(),
            forall|j: int|
                0 <= j < keep.len() ==> {
                    &&& 0 <= #[trigger] keep[j] < i
                    &&& rows_view(result@)[j] == all[keep[j]]
                    &&& meets_opt(cond, all[keep[j]], cols)
                },
            forall|p: int, j: int| 0 <= p < j < keep.len() ==> #[trigger] keep[p] < #[trigger] keep[j],
            forall|p: int| 0 <= p < i && meets_opt(cond, #[trigger] all[p], cols) ==> keep.contains(p),
        decreases rows@.len() - i,
    {
        assert(all[i as int] == row_view(rows@[i as int]@));
        let met = match condition {
            None => true,
            Some(expr) => row_meets(expr, &rows[i], schema),
        };
        if met {
            let ghost before = rows_view(result@);
            let ghost keep0 = keep;
            result.push(copy_row(&rows[i]));
            proof {
                keep = keep.push(i as int);
                assert(rows_view(result@) =~= before.push(all[i as int]));
                assert forall|p: int| 0 <= p < i + 1 && meets_opt(cond, #[trigger] all[p], cols) implies keep.contains(
                    p,
                ) by {
                    if p < i {
                        let q = choose|q: int| 0 <= q < keep0.len() && keep0[q] == p;
                        assert(keep[q] == p);
                    } else {
                        assert(keep[keep0.len() as int] == p);
                    }
                }
            }
        }
        i += 1;
    }
    (result, Ghost(keep))
}

/// The combinations that are kept are those that meet the condition.
proof fn select_combos(
    ts: Seq<TableView>,
    lists: Seq<Seq<u64>>,
    locals: Seq<Option<ExprView>>,
    cross: Option<ExprView>,
    cond: Option<ExprView>,
    tup: Seq<Seq<u64>>,
    all: Seq<Seq<ValueView>>,
    rows: Seq<Seq<ValueView>>,
    keep: Seq<int>,
)
    requires
        lists.len() == ts.len(),
        locals.len() == ts.len(),
        tup == if ts.len() == 0 {
            Seq::empty()
        } else {
            tuples(lists)
        },
        all.len() == tup.len(),
        forall|i: int| 0 <= i < tup.len() ==> all[i] == concat(rows_at(ts, #[trigger] tup[i])),
        forall|k: int| 0 <= k < ts.len() ==> listed(#[trigger] lists[k], ts[k], locals[k]),
        forall|k: int| 0 <= k < ts.len() ==> rows_sized(#[trigger] ts[k]),
        forall|rs: Seq<Seq<ValueView>>| #[trigger]
            rows_fit(rs, schemas_of(ts)) ==> (meets_opt(cond, concat(rs), concat(schemas_of(ts))) <==> (meet_locals(
                locals,
                rs,
                schemas_of(ts),
            ) && meets_opt(cross, concat(rs), concat(schemas_of(ts))))),
        keep.len() == rows.len(),
        forall|j: int|
            0 <= j < keep.len() ==> {
                &&& 0 <= #[trigger] keep[j] < all.len()
                &&& rows[j] == all[keep[j]]
                &&& meets_opt(cross, all[keep[j]], concat(schemas_of(ts)))
            },
        forall|i: int, j: int| 0 <= i < j < keep.len() ==> #[trigger] keep[i] < #[trigger] keep[j],
        forall|i: int|
            0 <= i < all.len() && meets_opt(cross, #[trigger] all[i], concat(schemas_of(ts))) ==> keep.contains(i),
    ensures
        ({
            let combos = Seq::new(keep.len(), |j: int| tup[keep[j]]);
            &&& forall|i: int|
                0 <= i < combos.len() ==> picked(ts, cond, #[trigger] combos[i]) && rows[i] == concat(
                    rows_at(ts, combos[i]),
                )
            &&& forall|ids: Seq<u64>| #[trigger] picked(ts, cond, ids) && ts.len() > 0 ==> combos.contains(ids)
            &&& combos.no_duplicates()
        }),
{
    let combos = Seq::new(keep.len(), |j: int| tup[keep[j]]);
    let schemas = schemas_of(ts);
    if ts.len() > 0 {
        assert forall|k: int| 0 <= k < lists.len() implies (#[trigger] lists[k]).no_duplicates() by {
            assert(listed(lists[k], ts[k], locals[k]));
        }
        tuples_distinct(lists);
    }
    assert forall|i: int| 0 <= i < combos.len() implies picked(ts, cond, #[trigger] combos[i]) && rows[i] == concat(
        rows_at(ts, combos[i]),
    ) by {
        let j = keep[i];
        let ids = tup[j];
        assert(tup.contains(ids));
        tuples_contains(lists, ids);
        tuple_parts(ts, lists, locals, ids);
        let rs = rows_at(ts, ids);
        assert(rows_fit(rs, schemas));
        assert(meets_opt(cross, all[keep[i]], concat(schemas)));
    }
    assert forall|ids: Seq<u64>| #[trigger] picked(ts, cond, ids) && ts.len() > 0 implies combos.contains(ids) by {
        let rs = rows_at(ts, ids);
        assert forall|k: int| 0 <= k < rs.len() implies (#[trigger] rs[k]).len() == schemas[k].len() by {
            assert(ts[k].rows.contains_key(ids[k]));
            assert(rows_sized(ts[k]));
        }
        assert(rows_fit(rs, schemas));
        assert forall|k: int| 0 <= k < ids.len() implies lists[k].contains(#[trigger] ids[k]) by {
            assert(listed(lists[k], ts[k], locals[k]));
            assert(meets_opt(locals[k], rs[k], schemas[k]));
            assert(ts[k].rows.contains_key(ids[k]));
        }
        tuples_contains(lists, ids);
        let i = choose|i: int| 0 <= i < tup.len() && tup[i] == ids;
        assert(meets_opt(cross, all[i], concat(schemas)));
        let j = choose|j: int| 0 <= j < keep.len() && keep[j] == i;
        assert(combos[j] == ids);
    }
    assert forall|i: int, j: int| 0 <= i < j < combos.len() implies combos[i] != combos[j] by {
        assert(keep[i] < keep[j]);
    }
}

/// Every row of a table has a value for each column.
pub open spec fn rows_sized(t: TableView) -> bool {
    forall|id: u64| #[trigger] t.rows.contains_key(id) ==> t.rows[id].len() == t.cols.len()
}

proof fn tuple_parts(ts: Seq<TableView>, lists: Seq<Seq<u64>>, locals: Seq<Option<ExprView>>, ids: Seq<u64>)
    requires
        lists.len() == ts.len(),
        locals.len() == ts.len(),
        ids.len() == lists.len(),
        forall|k: int| 0 <= k < ids.len() ==> lists[k].contains(#[trigger] ids[k]),
        forall|k: int| 0 <= k < ts.len() ==> listed(#[trigger] lists[k], ts[k], locals[k]),
        forall|k: int| 0 <= k < ts.len() ==> rows_sized(#[trigger] ts[k]),
    ensures
        forall|k: int| 0 <= k < ids.len() ==> ts[k].rows.contains_key(#[trigger] ids[k]),
        meet_locals(locals, rows_at(ts, ids), schemas_of(ts)),
        rows_fit(rows_at(ts, ids), schemas_of(ts)),
{
    let rs = rows_at(ts, ids);
    assert forall|k: int| 0 <= k < ids.len() implies ts[k].rows.contains_key(#[trigger] ids[k]) && meets_opt(
        locals[k],
        ts[k].rows[ids[k]],
        ts[k].cols,
    ) by {
        assert(listed(lists[k], ts[k], locals[k]));
        assert(lists[k].contains(ids[k]));
    }
    assert forall|k: int| 0 <= k < locals.len() implies meets_opt(#[trigger] locals[k], rs[k], schemas_of(ts)[k]) by {
        assert(ts[k].rows.contains_key(ids[k]));
    }
    assert forall|k: int| 0 <= k < rs.len() implies (#[trigger] rs[k]).len() == schemas_of(ts)[k].len() by {
        assert(ts[k].rows.contains_key(ids[k]));
        assert(rows_sized(ts[k]));
    }
}

/// A combined row has a value for each column of the merged schema.
proof fn select_lengths(was: Tables, names: Seq<Seq<char>>, combos: Seq<Seq<u64>>, cond: Option<ExprView>)
    requires
        was.wf(),
        forall|k: int| 0 <= k < names.len() ==> was@.tables.contains_key(uppercased(#[trigger] names[k])),
    ensures
        ({
            let ts = tables_of(was@, names);
            &&& forall|k: int| 0 <= k < ts.len() ==> rows_sized(#[trigger] ts[k])
            &&& forall|ids: Seq<u64>| #[trigger]
                picked(ts, cond, ids) ==> concat(rows_at(ts, ids)).len() == concat(schemas_of(ts)).len()
        }),
{
    let ts = tables_of(was@, names);
    assert forall|k: int| 0 <= k < ts.len() implies rows_sized(#[trigger] ts[k]) by {
        let n = uppercased(names[k]);
        assert(was@.tables.contains_key(uppercased(names[k])));
        table_facts(was.catalog@, was@, all_seen(was@), n);
    }
    assert forall|ids: Seq<u64>| #[trigger] picked(ts, cond, ids) implies concat(rows_at(ts, ids)).len() == concat(
        schemas_of(ts),
    ).len() by {
        let rs = rows_at(ts, ids);
        let ss = schemas_of(ts);
        assert forall|k: int| 0 <= k < rs.len() implies (#[trigger] rs[k]).len() == ss[k].len() by {
            assert(ts[k].rows.contains_key(ids[k]));
            assert(rows_sized(ts[k]));
        }
        concat_aligned(rs, ss, rs.len() as int);
        assert(rs.take(rs.len() as int) =~= rs);
        assert(ss.take(ss.len() as int) =~= ss);
    }
}

} // verus!
