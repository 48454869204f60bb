//! INSERT, UPDATE and DELETE, and finding the rows that meet a condition.
use vstd::prelude::*;

use crate::bytes::lt;
use crate::engine::catalog::{failure, written_in};
use crate::engine::condition::{column_found, column_of, evaluate_condition, meets, row_meets};
use crate::engine::error::{Error, ErrorView};
use crate::engine::index::{
    as_single_comparison, can_use_index, find_index, index_from, index_range, range_holds_matches,
    row_key, upper_view, usable,
};
use crate::engine::meta::encode_schema;
use crate::engine::model::{
    all_seen, covers, entry_id, entry_id_of, ikey, index_col, index_data, index_entry, index_facts,
    index_ok, rows_data_key, table_facts, table_meta, table_ok, tkey, DbView, TableView,
};
use crate::engine::row::{
    deserialize_row, deserialize_row_undoes_serialize_row, row_bytes, row_storable, serialize_row,
    value_storable, RowError,
};
use crate::engine::semantics::{
    accepts, assigned, assigned_same_error, build_row, kept_row, matching, new_row_length, nulls,
    row_inserted, rows_deleted, rows_updated, update_row, updated_row, updated_rows,
};
use crate::engine::tables::{
    all_rows, index_list, index_list_len, indexes_on, insert_pages, read_failed, rows_with,
    spacious, spacious_more, stays, table_changed, table_key, update_pages, upper_index_key,
    with_row, with_table, within_stock, Tables,
};
use crate::engine::tables::ddl::{done, read_spacious};
use crate::ints::{be64, from_le64};
use crate::sql::ast::{
    assignments_view, copy_row, row_view, schema_view, texts, Assignment, AssignmentView, BoolExpr,
    ColumnDef, ColumnView, DataType, ExprView, Operator, Value, ValueView,
};
use crate::storage::btree::pairs_view;
use crate::storage::page::PageError;
use crate::storage::pager::StorageError;
use crate::storage::store::{admits_entry, lists, PUT_PAGES};
use crate::storage::tree::{roomy, Stock};
use crate::text::uppercased;

verus! {

/// A list of the rows of a table that meet a condition, each once.
pub open spec fn matches_listed(v: Seq<(u64, Vec<Value>)>, t: TableView, condition: ExprView) -> bool {
    &&& forall|i: int|
        0 <= i < v.len() ==> {
            &&& t.rows.contains_key((#[trigger] v[i]).0)
            &&& t.rows[v[i].0] == row_view(v[i].1@)
            &&& meets(condition, t.rows[v[i].0], t.cols)
        }
    &&& forall|id: u64| #[trigger]
        t.rows.contains_key(id) && meets(condition, t.rows[id], t.cols) ==> exists|i: int|
            0 <= i < v.len() && (#[trigger] v[i]).0 == id
    &&& forall|i: int, j: int| 0 <= i < j < v.len() ==> (#[trigger] v[i]).0 != (#[trigger] v[j]).0
}

/// One row of a table comes before another: by the keys of an index on a column, if there is one to go
/// by, and else by their numbers.
pub open spec fn comes_before(t: TableView, via: Option<int>, a: u64, b: u64) -> bool {
    match via {
        None => a < b,
        Some(col) => lt(index_entry(t.rows[a][col], a), index_entry(t.rows[b][col], b)),
    }
}

/// Rows in their order.
pub open spec fn in_order(v: Seq<(u64, Vec<Value>)>, t: TableView, via: Option<int>) -> bool {
    forall|i: int, j: int| 0 <= i < j < v.len() ==> comes_before(t, via, (#[trigger] v[i]).0, (#[trigger] v[j]).0)
}

/// An index on the table can serve the comparison: there is one on the column, which holds integers or
/// text, and the comparison is not for inequality.
pub open spec fn serves(db: DbView, table: Seq<char>, column: Seq<char>, op: Operator) -> bool {
    let cols = db.tables[uppercased(table)].cols;
    &&& op != Operator::Ne
    &&& column_of(cols, column) matches Some(p)
    &&& cols[p].data_type == DataType::Integer || cols[p].data_type == DataType::Text
    &&& exists|n: Seq<char>| #[trigger] indexes_on(db, table).contains(n) && db.indexes[n].column == column
}

/// The column by whose index the rows of a table that meet a condition are found, if there is one.
pub open spec fn way_to(db: DbView, table: Seq<char>, condition: Option<ExprView>) -> Option<int> {
    match condition {
        Some(ExprView::Comparison { column, op, .. }) => if serves(db, table, column, op) {
            column_of(db.tables[uppercased(table)].cols, column)
        } else {
            None
        },
        _ => None,
    }
}

proof fn first_index(column: Seq<char>, v: Seq<(String, String)>, i: int)
    requires
        0 <= i <= v.len(),
    ensures
        index_from(column, v, i) is Some <==> exists|j: int| i <= j < v.len() && (#[trigger] v[j]).1@ == column,
    decreases v.len() - i,
{
    if i < v.len() {
        first_index(column, v, i + 1);
        if v[i].1@ != column {
            if exists|j: int| i <= j < v.len() && (#[trigger] v[j]).1@ == column {
                let j = choose|j: int| i <= j < v.len() && (#[trigger] v[j]).1@ == column;
                assert(v[j].1@ == column);
            }
        }
    }
}

/// A list of the indexes on a table has one that can serve exactly if there is one.
proof fn usable_serves(v: Seq<(String, String)>, db: DbView, table: Seq<char>, column: Seq<char>, op: Operator)
    requires
        index_list(v, db, table),
    ensures
        usable(column, op, db.tables[uppercased(table)].cols, v) == serves(db, table, column, op),
{
    first_index(column, v, 0);
    if exists|j: int| 0 <= j < v.len() && (#[trigger] v[j]).1@ == column {
        let j = choose|j: int| 0 <= j < v.len() && (#[trigger] v[j]).1@ == column;
        assert(indexes_on(db, table).contains(v[j].0@));
    }
    if exists|n: Seq<char>| #[trigger] indexes_on(db, table).contains(n) && db.indexes[n].column == column {
        let n = choose|n: Seq<char>| #[trigger] indexes_on(db, table).contains(n) && db.indexes[n].column == column;
        assert(db.indexes.contains_key(n));
        let j = choose|j: int| 0 <= j < v.len() && (#[trigger] v[j]).0@ == n;
        assert(v[j].1@ == column);
    }
}

/// The table has a row with this number, and it meets the condition.
#[verifier::opaque]
pub open spec fn hit(t: TableView, condition: ExprView, id: u64) -> bool {
    t.rows.contains_key(id) && meets(condition, t.rows[id], t.cols)
}

/// Of the rows with the first `i` of these numbers, those that meet a condition have been listed; `at`
/// are their places.
spec fn scanned(
    v: Seq<(u64, Vec<Value>)>,
    t: TableView,
    condition: ExprView,
    ids: Seq<u64>,
    i: int,
    at: Seq<int>,
) -> bool {
    &&& at.len() == v.len()
    &&& forall|p: int|
        0 <= p < v.len() ==> {
            &&& 0 <= #[trigger] at[p] < i
            &&& ids[at[p]] == v[p].0
            &&& hit(t, condition, v[p].0)
            &&& t.rows[v[p].0] == row_view(v[p].1@)
        }
    &&& forall|p: int, q: int| 0 <= p < q < at.len() ==> #[trigger] at[p] < #[trigger] at[q]
    &&& forall|q: int| 0 <= q < i && hit(t, condition, #[trigger] ids[q]) ==> at.contains(q)
}

proof fn scanned_step(
    v: Seq<(u64, Vec<Value>)>,
    t: TableView,
    condition: ExprView,
    ids: Seq<u64>,
    i: int,
    at: Seq<int>,
    row: Vec<Value>,
)
    requires
        scanned(v, t, condition, ids, i, at),
        0 <= i < ids.len(),
        hit(t, condition, ids[i]),
        t.rows[ids[i]] == row_view(row@),
    ensures
        scanned(v.push((ids[i], row)), t, condition, ids, i + 1, at.push(i)),
{
    let v2 = v.push((ids[i], row));
    let at2 = at.push(i);
    assert forall|p: int| 0 <= p < v2.len() implies {
        &&& 0 <= #[trigger] at2[p] < i + 1
        &&& ids[at2[p]] == v2[p].0
        &&& hit(t, condition, v2[p].0)
        &&& t.rows[v2[p].0] == row_view(v2[p].1@)
    } by {
        if p < v.len() {
            assert(at2[p] == at[p]);
            assert(v2[p] == v[p]);
        }
    }
    assert forall|q: int| 0 <= q < i + 1 && hit(t, condition, #[trigger] ids[q]) implies at2.contains(q) by {
        if q < i {
            let p = choose|p: int| 0 <= p < at.len() && at[p] == q;
            assert(at2[p] == q);
        } else {
            assert(at2[at.len() as int] == q);
        }
    }
}

/// The list is one of all rows that meet the condition.
proof fn scanned_all(
    v: Seq<(u64, Vec<Value>)>,
    t: TableView,
    condition: ExprView,
    ids: Seq<u64>,
    at: Seq<int>,
)
    requires
        scanned(v, t, condition, ids, ids.len() as int, at),
        ids.no_duplicates(),
        forall|id: u64| #[trigger] hit(t, condition, id) ==> ids.contains(id),
    ensures
        matches_listed(v, t, condition),
        (forall|i: int, j: int| 0 <= i < j < ids.len() ==> #[trigger] ids[i] < #[trigger] ids[j]) ==> forall|
            i: int,
            j: int,
        | 0 <= i < j < v.len() ==> (#[trigger] v[i]).0 < (#[trigger] v[j]).0,
{
    reveal(hit);
    assert forall|i: int| 0 <= i < v.len() implies {
        &&& t.rows.contains_key((#[trigger] v[i]).0)
        &&& t.rows[v[i].0] == row_view(v[i].1@)
        &&& meets(condition, t.rows[v[i].0], t.cols)
    } by {
        assert(0 <= at[i]);
    }
    assert forall|id: u64| #[trigger]
        t.rows.contains_key(id) && meets(condition, t.rows[id], t.cols) implies exists|i: int|
        0 <= i < v.len() && (#[trigger] v[i]).0 == id by {
        assert(hit(t, condition, id));
        let q = choose|q: int| 0 <= q < ids.len() && ids[q] == id;
        assert(at.contains(q));
        let p = choose|p: int| 0 <= p < at.len() && at[p] == q;
        assert(v[p].0 == id);
    }
    assert forall|i: int, j: int| 0 <= i < j < v.len() implies (#[trigger] v[i]).0 != (#[trigger] v[j]).0 by {
        assert(at[i] < at[j]);
    }
    if forall|i: int, j: int| 0 <= i < j < ids.len() ==> #[trigger] ids[i] < #[trigger] ids[j] {
        assert forall|i: int, j: int| 0 <= i < j < v.len() implies (#[trigger] v[i]).0 < (#[trigger] v[j]).0 by {
            assert(at[i] < at[j]);
            assert(ids[at[i]] < ids[at[j]]);
        }
    }
}

/// The rows that keys of an index are for.
spec fn entry_ids(keys: Seq<(Seq<u8>, Seq<u8>)>) -> Seq<u64> {
    Seq::new(keys.len(), |i: int| entry_id(keys[i].0))
}

/// What a key of an index stands for.
proof fn index_key_stands(
    keys: Seq<(Seq<u8>, Seq<u8>)>,
    rows: Map<u64, Seq<ValueView>>,
    col: int,
    lo: Seq<u8>,
    hi: Option<Seq<u8>>,
    i: int,
)
    requires
        lists(keys, index_data(rows, col), lo, hi),
        0 <= i < keys.len(),
    ensures
        keys[i].0.len() >= 8,
        rows.contains_key(entry_id(keys[i].0)),
        keys[i].0 == index_entry(rows[entry_id(keys[i].0)][col], entry_id(keys[i].0)),
        forall|q: int| 0 <= q < i ==> entry_id((#[trigger] keys[q]).0) != entry_id(keys[i].0),
{
    assert(keys.contains((keys[i].0, keys[i].1)));
    assert forall|q: int| 0 <= q < i implies entry_id((#[trigger] keys[q]).0) != entry_id(keys[i].0) by {
        assert(keys.contains((keys[q].0, keys[q].1)));
        assert(crate::bytes::lt(keys[q].0, keys[i].0));
        crate::bytes::lt_irreflexive(keys[i].0);
    }
}

/// The table and the index that a scan goes through: the index is one on the column of the table.
pub open spec fn scan_ready(
    now: Tables,
    tk: Seq<u8>,
    ik: Seq<u8>,
    n: Seq<char>,
    m: Seq<char>,
    column: Seq<char>,
    cols: Seq<ColumnView>,
) -> bool {
    let db = now@;
    &&& now.wf()
    &&& db.tables.contains_key(n)
    &&& tk == tkey(n)
    &&& cols == db.tables[n].cols
    &&& db.indexes.contains_key(m)
    &&& ik == ikey(m)
    &&& uppercased(db.indexes[m].table) == n
    &&& db.indexes[m].column == column
}

impl Tables {
    /// The row with a number, if there is one.
    fn read_row(&mut self, key: &Vec<u8>, id: u64, schema: &Vec<ColumnDef>, Ghost(n): Ghost<Seq<char>>) -> (r: Result<
        Option<Vec<Value>>,
        Error,
    >)
        ensures
            old(self).wf() && old(self)@.tables.contains_key(n) && key@ == tkey(n) && schema_view(schema@) == old(
                self,
            )@.tables[n].cols ==> {
                let rows = old(self)@.tables[n].rows;
                &&& stays(*old(self), *final(self))
                &&& match r {
                    Ok(Some(row)) => rows.contains_key(id) && rows[id] == row_view(row@),
                    Ok(None) => !rows.contains_key(id),
                    Err(e) => read_failed(*old(self), e@),
                }
            },
    {
        let ghost good = self.wf() && self@.tables.contains_key(n) && key@ == tkey(n) && schema_view(schema@)
            == self@.tables[n].cols;
        let ghost rows = self.db@.tables[n].rows;
        proof {
            if good {
                table_facts(self.catalog@, self.db@, all_seen(self.db@), n);
                rows_data_key(rows, id);
                if rows.contains_key(id) {
                    deserialize_row_undoes_serialize_row(rows[id]);
                }
            }
        }
        let rk = row_key(id);
        match self.catalog.get_in(key.as_slice(), rk.as_slice()) {
            Err(e) => Err(Error::Storage(e)),
            Ok(None) => Ok(None),
            Ok(Some(bytes)) => match deserialize_row(bytes.as_slice(), schema.len()) {
                Err(e) => Err(Error::Row(e)),
                Ok(row) => Ok(Some(row)),
            },
        }
    }

    /// The rows that meet a comparison, found through an index on its column.
    pub fn index_scan(
        &mut self,
        tk: &Vec<u8>,
        ik: &Vec<u8>,
        column: &str,
        op: &Operator,
        value: &Value,
        schema: &Vec<ColumnDef>,
        Ghost(n): Ghost<Seq<char>>,
        Ghost(m): Ghost<Seq<char>>,
    ) -> (r: Result<Vec<(u64, Vec<Value>)>, Error>)
        ensures
            scan_ready(*old(self), tk@, ik@, n, m, column@, schema_view(schema@)) ==> {
                &&& stays(*old(self), *final(self))
                &&& match r {
                    Ok(v) => matches_listed(
                        v@,
                        old(self)@.tables[n],
                        (ExprView::Comparison { column: column@, op: *op, value: value@ }),
                    ) && in_order(v@, old(self)@.tables[n], column_of(old(self)@.tables[n].cols, column@)),
                    Err(e) => read_failed(*old(self), e@),
                }
            },
    {
        let ghost was = *self;
        let ghost good = scan_ready(*self, tk@, ik@, n, m, column@, schema_view(schema@));
        let ghost t = self.db@.tables[n];
        let ghost col = index_col(self.db@, self.db@.indexes[m]);
        let ghost cond = ExprView::Comparison { column: column@, op: *op, value: value@ };
        let (start, end) = index_range(op, value);
        proof {
            if good {
                table_facts(self.catalog@, self.db@, all_seen(self.db@), n);
                index_facts(self.catalog@, self.db@, all_seen(self.db@), m);
            }
        }
        let upper: Option<&[u8]> = match &end {
            None => None,
            Some(e) => Some(e.as_slice()),
        };
        let entries = match self.catalog.range_in(ik.as_slice(), start.as_slice(), upper) {
            Err(e) => {
                return Err(Error::Storage(e));
            },
            Ok(v) => v,
        };
        let ghost keys = pairs_view(entries@);
        let ghost lo = start@;
        let ghost hi = upper_view(end);
        let mut result: Vec<(u64, Vec<Value>)> = Vec::new();
        let ghost mut at: Seq<int> = Seq::empty();
        let mut i: usize = 0;
        while i < entries.len()
            invariant
                i <= entries@.len(),
                keys == pairs_view(entries@),
                was == *old(self),
                good == scan_ready(was, tk@, ik@, n, m, column@, schema_view(schema@)),
                t == was.db@.tables[n],
                col == index_col(was.db@, was.db@.indexes[m]),
                cond == (ExprView::Comparison { column: column@, op: *op, value: value@ }),
                good ==> {
                    &&& stays(was, *self)
                    &&& table_ok(t)
                    &&& column_of(t.cols, column@) == Some(col)
                    &&& lists(keys, index_data(t.rows, col), lo, hi)
                    &&& scanned(result@, t, cond, entry_ids(keys), i as int, at)
                },
            decreases entries@.len() - i,
        {
            let ghost k = entries@[i as int].0@;
            proof {
                assert(keys[i as int] == (k, entries@[i as int].1@));
                if good {
                    index_key_stands(keys, t.rows, col, lo, hi, i as int);
                }
            }
            let len: usize = entries[i].0.len();
            if len < 8 {
                return Err(Error::Row(RowError::End));
            }
            let rowid: u64 = from_le64(vstd::slice::slice_subrange(entries[i].0.as_slice(), len - 8, len));
            match self.read_row(tk, rowid, schema, Ghost(n)) {
                Err(e) => {
                    return Err(e);
                },
                Ok(None) => {},
                Ok(Some(row)) => {
                    let met = evaluate_condition(column, op, value, &row, schema);
                    proof {
                        reveal(hit);
                    }
                    match met {
                        Some(true) => {
                            proof {
                                if good {
                                    scanned_step(result@, t, cond, entry_ids(keys), i as int, at, row);
                                    at = at.push(i as int);
                                }
                            }
                            result.push((rowid, row));
                        },
                        _ => {},
                    }
                },
            }
            i += 1;
        }
        proof {
            if good {
                let ids = entry_ids(keys);
                assert forall|id: u64| #[trigger] hit(t, cond, id) implies ids.contains(id) by {
                    reveal(hit);
                    column_found(t.cols, column@, 0);
                    let v = t.rows[id][col];
                    range_holds_matches(*op, value@, v, id);
                    entry_id_of(v, id);
                    let k = index_entry(v, id);
                    assert(index_data(t.rows, col).contains_key(k));
                    assert(keys.contains((k, Seq::empty())));
                    let q = choose|q: int| 0 <= q < keys.len() && keys[q] == (k, Seq::<u8>::empty());
                    assert(ids[q] == id);
                }
                assert forall|p: int, q: int| 0 <= p < q < ids.len() implies ids[p] != ids[q] by {
                    index_key_stands(keys, t.rows, col, lo, hi, q);
                    assert(entry_id(keys[p].0) != entry_id(keys[q].0));
                }
                scanned_all(result@, t, cond, ids, at);
                assert(in_order(result@, t, Some(col))) by {
                    assert forall|p: int, q: int| 0 <= p < q < result@.len() implies comes_before(
                        t,
                        Some(col),
                        (#[trigger] result@[p]).0,
                        (#[trigger] result@[q]).0,
                    ) by {
                        assert(at[p] < at[q]);
                        index_key_stands(keys, t.rows, col, lo, hi, at[p]);
                        index_key_stands(keys, t.rows, col, lo, hi, at[q]);
                        assert(lt(keys[at[p]].0, keys[at[q]].0));
                    }
                }
            }
        }
        Ok(result)
    }

    /// The rows of a table that meet a condition, found through an index if one can serve.
    pub(crate) fn matching_rows(
        &mut self,
        tk: &Vec<u8>,
        condition: &BoolExpr,
        schema: &Vec<ColumnDef>,
        indexes: &Vec<(String, String)>,
        Ghost(table): Ghost<Seq<char>>,
    ) -> (r: Result<Vec<(u64, Vec<Value>)>, Error>)
        ensures
            ({
                let n = uppercased(table);
                old(self).wf() && old(self)@.tables.contains_key(n) && tk@ == tkey(n) && schema_view(schema@) == old(
                    self,
                )@.tables[n].cols && index_list(indexes@, old(self)@, table) ==> {
                    &&& stays(*old(self), *final(self))
                    &&& match r {
                        Ok(v) => matches_listed(v@, old(self)@.tables[n], condition@) && in_order(
                            v@,
                            old(self)@.tables[n],
                            way_to(old(self)@, table, Some(condition@)),
                        ),
                        Err(e) => read_failed(*old(self), e@),
                    }
                }
            }),
    {
        let ghost was = *self;
        let ghost n = uppercased(table);
        let ghost good = self.wf() && self@.tables.contains_key(n) && tk@ == tkey(n) && schema_view(schema@)
            == self@.tables[n].cols && index_list(indexes@, self@, table);
        let ghost t = self.db@.tables[n];
        match as_single_comparison(condition) {
            Some((column, op, value)) => {
                proof {
                    if good {
                        usable_serves(indexes@, self@, table, column@, *op);
                    }
                }
                if can_use_index(column, op, schema, indexes) {
                    match find_index(column, indexes) {
                        Some(p) => {
                            let ik = upper_index_key(indexes[p].0.as_str());
                            return self.index_scan(
                                tk,
                                &ik,
                                column,
                                op,
                                value,
                                schema,
                                Ghost(n),
                                Ghost(indexes@[p as int].0@),
                            );
                        },
                        None => {},
                    }
                }
            },
            None => {},
        }
        let rows = match self.read_all_rows(tk, schema, Ghost(n)) {
            Err(e) => {
                return Err(e);
            },
            Ok(v) => v,
        };
        let ghost ids = Seq::new(rows@.len(), |i: int| rows@[i].0);
        let ghost mut at: Seq<int> = Seq::empty();
        let mut result: Vec<(u64, Vec<Value>)> = Vec::new();
        let mut i: usize = 0;
        while i < rows.len()
            invariant
                i <= rows@.len(),
                ids == Seq::new(rows@.len(), |i: int| rows@[i].0),
                good ==> schema_view(schema@) == t.cols && all_rows(rows@, t.rows) && scanned(
                    result@,
                    t,
                    condition@,
                    ids,
                    i as int,
                    at,
                ),
            decreases rows@.len() - i,
        {
            let met = row_meets(condition, &rows[i].1, schema);
            proof {
                reveal(hit);
                assert(ids[i as int] == rows@[i as int].0);
            }
            if met {
                let row = copy_row(&rows[i].1);
                proof {
                    if good {
                        scanned_step(result@, t, condition@, ids, i as int, at, row);
                        at = at.push(i as int);
                    }
                }
                result.push((rows[i].0, row));
            }
            i += 1;
        }
        proof {
            if good {
                assert forall|id: u64| #[trigger] hit(t, condition@, id) implies ids.contains(id) by {
                    reveal(hit);
                    let q = choose|q: int| 0 <= q < rows@.len() && (#[trigger] rows@[q]).0 == id;
                    assert(ids[q] == id);
                }
                assert forall|p: int, q: int| 0 <= p < q < ids.len() implies ids[p] < ids[q] by {
                    assert(rows@[p].0 < rows@[q].0);
                }
                scanned_all(result@, t, condition@, ids, at);
            }
        }
        Ok(result)
    }
}

/// A database on the way from one to another: each table has the columns of both, the next number of
/// one of them, and each row from one of them.
pub open spec fn between(a: DbView, b: DbView, c: DbView) -> bool {
    &&& c.indexes == a.indexes
    &&& c.indexes == b.indexes
    &&& c.tables.dom() == a.tables.dom()
    &&& c.tables.dom() == b.tables.dom()
    &&& forall|n: Seq<char>| #[trigger]
        c.tables.contains_key(n) ==> {
            &&& c.tables[n].cols == a.tables[n].cols
            &&& c.tables[n].cols == b.tables[n].cols
            &&& c.tables[n].next == a.tables[n].next || c.tables[n].next == b.tables[n].next
            &&& forall|id: u64| #[trigger]
                c.tables[n].rows.contains_key(id) ==> {
                    ||| a.tables[n].rows.contains_key(id) && c.tables[n].rows[id] == a.tables[n].rows[id]
                    ||| b.tables[n].rows.contains_key(id) && c.tables[n].rows[id] == b.tables[n].rows[id]
                }
        }
}

/// What has room for both ends has room for what is between.
proof fn covers_between(stock: Stock, a: DbView, b: DbView, c: DbView)
    requires
        covers(stock, a),
        covers(stock, b),
        between(a, b, c),
        forall|n: Seq<char>| #[trigger] c.indexes.contains_key(n) ==> index_ok(c, c.indexes[n]),
    ensures
        covers(stock, c),
{
    assert forall|n: Seq<char>| #[trigger] c.tables.contains_key(n) implies admits_entry(
        stock,
        tkey(n),
        table_meta(c.tables[n].next, c.tables[n].cols),
    ) by {
        assert(a.tables.contains_key(n));
        assert(b.tables.contains_key(n));
    }
    assert forall|n: Seq<char>, id: u64| #[trigger]
        c.tables[n].rows.contains_key(id) && c.tables.contains_key(n) implies {
        &&& stock.keys.contains(be64(id))
        &&& stock.pairs.contains((be64(id), row_bytes(c.tables[n].rows[id])))
    } by {
        assert(a.tables.contains_key(n));
        assert(b.tables.contains_key(n));
        if a.tables[n].rows.contains_key(id) && c.tables[n].rows[id] == a.tables[n].rows[id] {
        } else {
            assert(b.tables[n].rows.contains_key(id));
        }
    }
    assert forall|n: Seq<char>, id: u64| #[trigger]
        c.tables[uppercased(c.indexes[n].table)].rows.contains_key(id) && c.indexes.contains_key(n) implies {
        let e = index_entry(c.tables[uppercased(c.indexes[n].table)].rows[id][index_col(c, c.indexes[n])], id);
        &&& stock.keys.contains(e)
        &&& stock.pairs.contains((e, Seq::empty()))
    } by {
        let m = uppercased(c.indexes[n].table);
        assert(index_ok(c, c.indexes[n]));
        assert(c.tables.contains_key(m));
        assert(a.tables.contains_key(m));
        if a.tables[m].rows.contains_key(id) && c.tables[m].rows[id] == a.tables[m].rows[id] {
            assert(a.tables[uppercased(a.indexes[n].table)].rows.contains_key(id));
        } else {
            assert(b.tables[uppercased(b.indexes[n].table)].rows.contains_key(id));
        }
    }
}

/// The indexes of an open database are on columns of its tables.
proof fn indexes_ok(now: Tables)
    requires
        now.wf(),
    ensures
        forall|n: Seq<char>| #[trigger] now@.indexes.contains_key(n) ==> index_ok(now@, now@.indexes[n]),
{
    assert forall|n: Seq<char>| #[trigger] now@.indexes.contains_key(n) implies index_ok(now@, now@.indexes[n]) by {
        index_facts(now.catalog@, now@, all_seen(now@), n);
    }
}

/// One more step on the way to a database keeps within the stock.
proof fn stock_step(
    was: Tables,
    cur: Tables,
    now: Tables,
    to: DbView,
    step: DbView,
    spent: nat,
    more: nat,
    failed: Option<ErrorView>,
)
    requires
        was.wf(),
        within_stock(was, cur, to, spent),
        between(was@, to, cur@),
        between(was@, to, step),
        spacious(cur, now, step, more, failed),
    ensures
        failed is None ==> within_stock(was, now, to, spent + more),
        failed matches Some(e) ==> spacious(was, now, to, spent + more, failed),
{
    indexes_ok(was);
    assert forall|stock: Stock| #[trigger]
        was.holds_in(stock) && covers(stock, was@) && covers(stock, to) implies now.holds_in(stock) && (failed is None
        ==> now.pages_left() + spent + more >= was.pages_left()) && (roomy(stock) && was.all_fit() ==> match failed {
        None => now.all_fit(),
        Some(e) => e == ErrorView::Storage(StorageError::Full) && was.pages_left() < spent + more,
    }) by {
        assert forall|n: Seq<char>| #[trigger] cur@.indexes.contains_key(n) implies index_ok(
            cur@,
            cur@.indexes[n],
        ) by {
            assert(was@.indexes.contains_key(n));
            assert(index_ok(was@, was@.indexes[n]));
            assert(cur@.tables.contains_key(uppercased(was@.indexes[n].table)));
        }
        assert forall|n: Seq<char>| #[trigger] step.indexes.contains_key(n) implies index_ok(
            step,
            step.indexes[n],
        ) by {
            assert(was@.indexes.contains_key(n));
            assert(index_ok(was@, was@.indexes[n]));
            assert(step.tables.contains_key(uppercased(was@.indexes[n].table)));
        }
        covers_between(stock, was@, to, cur@);
        covers_between(stock, was@, to, step);
        assert(cur.holds_in(stock));
    }
}

/// Lists of indexes depend on the indexes alone.
proof fn index_list_same(v: Seq<(String, String)>, a: DbView, b: DbView, table: Seq<char>)
    requires
        index_list(v, a, table),
        a.indexes == b.indexes,
    ensures
        index_list(v, b, table),
{
}

/// Reading keeps within every stock.
proof fn stays_within(was: Tables, now: Tables, to: DbView)
    requires
        stays(was, now),
    ensures
        within_stock(was, now, to, 0),
{
}

impl Tables {
    /// Give out the number of the next row.
    fn increment_next_id(&mut self, key: &Vec<u8>, next: u64, schema: &Vec<ColumnDef>, Ghost(n): Ghost<Seq<char>>) -> (r: Result<
        (),
        Error,
    >)
        requires
            next < u64::MAX,
        ensures
            old(self).wf() && old(self)@.tables.contains_key(n) && key@ == tkey(n) && schema_view(schema@) == old(
                self,
            )@.tables[n].cols && next == old(self)@.tables[n].next ==> {
                let t = old(self)@.tables[n];
                let to = with_table(old(self)@, n, TableView { cols: t.cols, next: (next + 1) as u64, rows: t.rows });
                match r {
                    Ok(_) => final(self).wf() && final(self)@ == to && spacious(*old(self), *final(self), to, 0, None),
                    Err(e) => e@ is Storage && spacious(*old(self), *final(self), to, 0, Some(e@)),
                }
            },
    {
        let ghost was = *self;
        let ghost db = self.db@;
        let ghost t = db.tables[n];
        let ghost t2 = TableView { cols: t.cols, next: (next + 1) as u64, rows: t.rows };
        let ghost to = with_table(db, n, t2);
        let ghost good = self.wf() && self@.tables.contains_key(n) && key@ == tkey(n) && schema_view(schema@)
            == self@.tables[n].cols && next == self@.tables[n].next;
        proof {
            if good {
                table_facts(self.catalog@, db, all_seen(db), n);
                table_changed(self.catalog@, db, all_seen(db), n, t2);
                assert(all_seen(to) =~= all_seen(db));
            }
        }
        let meta = match encode_schema(next + 1, schema) {
            None => {
                return Err(Error::Storage(StorageError::Page(PageError::Overflow)));
            },
            Some(m) => m,
        };
        let r = self.catalog.set_meta(key.as_slice(), meta.as_slice());
        self.db = Ghost(to);
        proof {
            if good {
                assert forall|stock: Stock| #[trigger]
                    was.holds_in(stock) && covers(stock, db) && covers(stock, to) implies written_in(
                    was.catalog,
                    self.catalog,
                    stock,
                    0,
                    failure(r),
                ) by {
                    assert(was.catalog.holds_in(stock));
                    assert(to.tables.contains_key(n));
                }
            }
        }
        match r {
            Err(e) => Err(Error::Storage(e)),
            Ok(_) => Ok(()),
        }
    }

    /// `INSERT INTO table [(col, ...)] VALUES (val, ...)`
    pub fn exec_insert(&mut self, table: &str, columns: &Option<Vec<String>>, values: &Vec<Value>) -> (r: Result<
        (),
        Error,
    >)
        ensures
            old(self).wf() ==> done(
                *old(self),
                *final(self),
                row_inserted(old(self)@, table@, names_view(*columns), row_view(values@)),
                insert_pages(old(self)@, table@),
                r,
            ),
    {
        let ghost was = *self;
        let ghost good = self.wf();
        let ghost db = self.db@;
        let ghost n = uppercased(table@);
        let ghost t = db.tables[n];
        let ghost to = row_inserted(db, table@, names_view(*columns), row_view(values@))->Ok_0;
        let (next, schema) = match self.get_table(table) {
            Err(e) => {
                proof {
                    if good && read_failed(was, e@) {
                        read_spacious(was, *self, to, e@);
                    }
                }
                return Err(e);
            },
            Ok(x) => x,
        };
        let row = match build_row(columns, values, &schema, table) {
            Err(e) => {
                return Err(e);
            },
            Ok(row) => row,
        };
        let ghost rv = row_view(row@);
        proof {
            new_row_length(names_view(*columns), row_view(values@), schema_view(schema@), table@);
        }
        if serialize_row(&row).is_none() {
            return Err(Error::Storage(StorageError::Page(PageError::Overflow)));
        }
        if next == u64::MAX {
            return Err(Error::Storage(StorageError::Full));
        }
        let indexes = match self.list_indexes(table) {
            Err(e) => {
                proof {
                    if good {
                        read_spacious(was, *self, to, e@);
                    }
                }
                return Err(e);
            },
            Ok(v) => v,
        };
        let key = table_key(table);
        let ghost mid = *self;
        let ghost db1 = with_table(db, n, TableView { cols: t.cols, next: (next + 1) as u64, rows: t.rows });
        proof {
            if good {
                assert(row_inserted(db, table@, names_view(*columns), row_view(values@)) == Ok::<DbView, ErrorView>(
                    to,
                ));
                table_facts(self.catalog@, db, all_seen(db), n);
                assert(with_row(db1, n, next, Some(rv)).tables =~= to.tables);
                assert(with_row(db1, n, next, Some(rv)) == to);
                assert(db1.tables.dom() =~= db.tables.dom());
                assert(to.tables.dom() =~= db.tables.dom());
                stays_within(was, mid, to);
                index_list_len(indexes@, db, table@);
            }
        }
        let ghost most = insert_pages(db, table@);
        match self.increment_next_id(&key, next, &schema, Ghost(n)) {
            Err(e) => {
                proof {
                    if good {
                        stock_step(was, mid, *self, to, db1, 0, 0, Some(e@));
                        spacious_more(was, *self, to, 0, most, Some(e@));
                    }
                }
                return Err(e);
            },
            Ok(_) => {},
        }
        let ghost mid2 = *self;
        proof {
            if good {
                stock_step(was, mid, mid2, to, db1, 0, 0, None);
                index_list_same(indexes@, db, db1, table@);
            }
        }
        let none: Option<Vec<Value>> = None;
        let some: Option<Vec<Value>> = Some(row);
        match self.set_row(&key, next, &none, &some, &schema, &indexes, Ghost(table@)) {
            Err(e) => {
                proof {
                    if good {
                        stock_step(was, mid2, *self, to, to, 0, most, Some(e@));
                    }
                }
                Err(e)
            },
            Ok(_) => {
                proof {
                    if good {
                        stock_step(was, mid2, *self, to, to, 0, most, None);
                    }
                }
                Ok(())
            },
        }
    }
}

/// Names that may be missing, by their views.
pub open spec fn names_view(columns: Option<Vec<String>>) -> Option<Seq<Seq<char>>> {
    match columns {
        None => None,
        Some(n) => Some(texts(n@)),
    }
}

/// The number is among the first `k` of a list.
pub open spec fn in_first(v: Seq<(u64, Vec<Value>)>, k: int, id: u64) -> bool {
    exists|p: int| 0 <= p < k && (#[trigger] v[p]).0 == id
}

proof fn in_first_next(v: Seq<(u64, Vec<Value>)>, k: int, id: u64)
    requires
        0 <= k < v.len(),
    ensures
        in_first(v, k + 1, id) <==> in_first(v, k, id) || id == v[k].0,
{
    if in_first(v, k, id) {
        let p = choose|p: int| 0 <= p < k && (#[trigger] v[p]).0 == id;
        assert(v[p].0 == id);
    }
    if id == v[k].0 {
        assert(v[k].0 == id);
    }
}

/// The rows after the first `k` of a list have been updated.
spec fn updated_upto(
    t: TableView,
    assignments: Seq<AssignmentView>,
    v: Seq<(u64, Vec<Value>)>,
    k: int,
) -> Map<u64, Seq<ValueView>> {
    Map::new(
        |id: u64| t.rows.contains_key(id),
        |id: u64| if in_first(v, k, id) {
            updated_row(t.rows[id], assignments, t.cols)->Ok_0
        } else {
            t.rows[id]
        },
    )
}

/// The rows after the first `k` of a list have been deleted.
spec fn deleted_upto(t: TableView, v: Seq<(u64, Vec<Value>)>, k: int) -> Map<u64, Seq<ValueView>> {
    Map::new(|id: u64| t.rows.contains_key(id) && !in_first(v, k, id), |id: u64| t.rows[id])
}

/// A list of the rows that meet a condition is as long as there are such rows.
proof fn matches_counted(v: Seq<(u64, Vec<Value>)>, t: TableView, condition: ExprView)
    requires
        matches_listed(v, t, condition),
    ensures
        matching(t, condition).len() == v.len(),
        matching(t, condition).finite(),
        v.len() == 0 <==> matching(t, condition) == Set::<u64>::empty(),
{
    let ids = Seq::new(v.len(), |i: int| v[i].0);
    let m = matching(t, condition);
    assert(ids.no_duplicates()) by {
        assert forall|i: int, j: int| 0 <= i < j < ids.len() implies ids[i] != ids[j] by {
            assert(v[i].0 != v[j].0);
        }
    }
    assert(ids.to_set() =~= m) by {
        assert forall|id: u64| ids.to_set().contains(id) <==> m.contains(id) by {
            if ids.to_set().contains(id) {
                let i = choose|i: int| 0 <= i < ids.len() && ids[i] == id;
                assert(v[i].0 == id);
            }
            if m.contains(id) {
                assert(t.rows.contains_key(id) && meets(condition, t.rows[id], t.cols));
                let i = choose|i: int| 0 <= i < v.len() && (#[trigger] v[i]).0 == id;
                assert(ids[i] == id);
            }
        }
    }
    ids.unique_seq_to_set();
    vstd::seq_lib::seq_to_set_is_finite(ids);
    if v.len() > 0 {
        assert(m.contains(v[0].0));
    } else {
        assert(m =~= Set::empty());
    }
}

/// Assignments set the same values in any row, or leave them.
proof fn assigned_agree(
    a: Seq<ValueView>,
    b: Seq<ValueView>,
    assignments: Seq<AssignmentView>,
    cols: Seq<ColumnView>,
    i: int,
    c: int,
)
    requires
        0 <= i,
        a.len() == cols.len(),
        b.len() == cols.len(),
        0 <= c < cols.len(),
        assigned(a, assignments, cols, i) is Ok,
    ensures
        ({
            let x = assigned(a, assignments, cols, i)->Ok_0;
            let y = assigned(b, assignments, cols, i)->Ok_0;
            &&& assigned(b, assignments, cols, i) is Ok
            &&& x.len() == cols.len()
            &&& y.len() == cols.len()
            &&& (x[c] == a[c] && y[c] == b[c]) || x[c] == y[c]
        }),
    decreases assignments.len() - i,
{
    if i < assignments.len() {
        column_found(cols, assignments[i].column, 0);
        match column_of(cols, assignments[i].column) {
            None => {},
            Some(p) => {
                if accepts(cols[p].data_type, assignments[i].value) {
                    assigned_agree(
                        a.update(p, assignments[i].value),
                        b.update(p, assignments[i].value),
                        assignments,
                        cols,
                        i + 1,
                        c,
                    );
                }
            },
        }
    }
}

/// What the assignments make of one row that can be stored can be stored, if what they make of a
/// sample can be.
proof fn updated_like_sample(
    row: Seq<ValueView>,
    sample: Seq<ValueView>,
    assignments: Seq<AssignmentView>,
    cols: Seq<ColumnView>,
)
    requires
        row.len() == cols.len(),
        sample.len() == cols.len(),
        row_storable(row),
        row_storable(sample),
    ensures
        match updated_row(sample, assignments, cols) {
            Err(e) => updated_row(row, assignments, cols) == Err::<Seq<ValueView>, ErrorView>(e),
            Ok(s) => {
                &&& updated_row(row, assignments, cols) matches Ok(r)
                &&& r.len() == cols.len()
                &&& row_storable(r) <==> row_storable(s)
            },
        },
{
    assigned_same_error(sample, row, assignments, cols, 0);
    if assigned(sample, assignments, cols, 0) is Ok {
        let x = assigned(sample, assignments, cols, 0)->Ok_0;
        let y = assigned(row, assignments, cols, 0)->Ok_0;
        let s = kept_row(x, cols);
        let r = kept_row(y, cols);
        assert forall|c: int| 0 <= c < cols.len() implies x.len() == cols.len() && y.len() == cols.len()
            && #[trigger] value_storable(s[c]) == value_storable(r[c]) by {
            assigned_agree(sample, row, assignments, cols, 0, c);
            assert(value_storable(sample[c]));
            assert(value_storable(row[c]));
        }
        if cols.len() == 0 {
            assigned_len(sample, assignments, cols, 0);
            assigned_len(row, assignments, cols, 0);
        } else {
            assigned_agree(sample, row, assignments, cols, 0, 0);
        }
        if row_storable(s) {
            assert forall|c: int| 0 <= c < r.len() implies value_storable(#[trigger] r[c]) by {
                assert(value_storable(s[c]));
            }
        }
        if row_storable(r) {
            assert forall|c: int| 0 <= c < s.len() implies value_storable(#[trigger] s[c]) by {
                assert(value_storable(r[c]));
            }
        }
    }
}

proof fn assigned_len(row: Seq<ValueView>, assignments: Seq<AssignmentView>, cols: Seq<ColumnView>, i: int)
    requires
        0 <= i,
        row.len() == cols.len(),
    ensures
        assigned(row, assignments, cols, i) matches Ok(r) ==> r.len() == cols.len(),
    decreases assignments.len() - i,
{
    if i < assignments.len() {
        column_found(cols, assignments[i].column, 0);
        match column_of(cols, assignments[i].column) {
            None => {},
            Some(p) => {
                assigned_len(row.update(p, assignments[i].value), assignments, cols, i + 1);
            },
        }
    }
}

/// The table with other rows.
spec fn with_rows(db: DbView, n: Seq<char>, rows: Map<u64, Seq<ValueView>>) -> DbView {
    with_table(db, n, TableView { cols: db.tables[n].cols, next: db.tables[n].next, rows })
}

proof fn with_rows_row(db: DbView, n: Seq<char>, rows: Map<u64, Seq<ValueView>>, id: u64, new: Option<Seq<ValueView>>)
    requires
        db.tables.contains_key(n),
    ensures
        with_row(with_rows(db, n, rows), n, id, new) == with_rows(db, n, rows_with(rows, id, new)),
        with_rows(db, n, rows).tables.dom() == db.tables.dom(),
        with_rows(db, n, rows).indexes == db.indexes,
{
    let a = with_row(with_rows(db, n, rows), n, id, new);
    let b = with_rows(db, n, rows_with(rows, id, new));
    assert(a.tables =~= b.tables);
    assert(with_rows(db, n, rows).tables.dom() =~= db.tables.dom());
}

/// Rows of one table, each from one of two ends, make a database between them.
proof fn rows_between(
    db: DbView,
    n: Seq<char>,
    to_rows: Map<u64, Seq<ValueView>>,
    rows: Map<u64, Seq<ValueView>>,
)
    requires
        db.tables.contains_key(n),
        forall|id: u64| #[trigger]
            rows.contains_key(id) ==> (db.tables[n].rows.contains_key(id) && rows[id] == db.tables[n].rows[id]) || (
            to_rows.contains_key(id) && rows[id] == to_rows[id]),
    ensures
        between(db, with_rows(db, n, to_rows), with_rows(db, n, rows)),
{
    with_rows_row(db, n, to_rows, 0, None);
    with_rows_row(db, n, rows, 0, None);
}

impl Tables {
    /// `UPDATE table SET col = val, ... WHERE condition`
    pub fn exec_update(&mut self, table: &str, assignments: &Vec<Assignment>, condition: &BoolExpr) -> (r: Result<
        usize,
        Error,
    >)
        ensures
            old(self).wf() ==> counted(
                *old(self),
                *final(self),
                rows_updated(old(self)@, table@, assignments_view(assignments@), condition@),
                update_pages(old(self)@, table@, condition@),
                r,
            ),
    {
        let ghost was = *self;
        let ghost good = self.wf();
        let ghost db = self.db@;
        let ghost n = uppercased(table@);
        let ghost t = db.tables[n];
        let ghost av = assignments_view(assignments@);
        let ghost to_rows = updated_rows(t, av, condition@);
        let ghost to = with_rows(db, n, to_rows);
        let ghost most = update_pages(db, table@, condition@);
        let schema = match self.get_table(table) {
            Err(e) => {
                proof {
                    if good && read_failed(was, e@) {
                        read_counted(was, *self, e);
                    }
                }
                return Err(e);
            },
            Ok((_, schema)) => schema,
        };
        let indexes = match self.list_indexes(table) {
            Err(e) => {
                proof {
                    if good {
                        read_counted(was, *self, e);
                    }
                }
                return Err(e);
            },
            Ok(v) => v,
        };
        let key = table_key(table);
        let rows = match self.matching_rows(&key, condition, &schema, &indexes, Ghost(table@)) {
            Err(e) => {
                proof {
                    if good {
                        read_counted(was, *self, e);
                    }
                }
                return Err(e);
            },
            Ok(v) => v,
        };
        proof {
            if good {
                matches_counted(rows@, t, condition@);
                table_facts(self.catalog@, db, all_seen(db), n);
                stays_within(was, *self, db);
                index_list_len(indexes@, db, table@);
                stays_spacious(was, *self, db);
            }
        }
        if rows.len() == 0 {
            return Ok(0);
        }
        let ghost sample = nulls(t.cols.len());
        proof {
            if good {
                assert(t.rows.contains_key(rows@[0].0));
                updated_like_sample(t.rows[rows@[0].0], sample, av, t.cols);
            }
        }
        if rows[0].1.len() != schema.len() {
            return Err(Error::Storage(StorageError::Corrupt));
        }
        let first = match update_row(&rows[0].1, assignments, &schema) {
            Err(e) => {
                return Err(e);
            },
            Ok(row) => row,
        };
        if serialize_row(&first).is_none() {
            return Err(Error::Storage(StorageError::Page(PageError::Overflow)));
        }
        proof {
            if good {
                assert(rows_updated(db, table@, av, condition@) == Ok::<(DbView, nat), ErrorView>((to, rows@.len())));
                assert(updated_upto(t, av, rows@, 0) =~= t.rows);
                assert(with_rows(db, n, t.rows).tables =~= db.tables);
                stays_within(was, *self, to);
            }
        }
        let ghost each = PUT_PAGES as nat * indexes@.len();
        let mut i: usize = 0;
        assert(0nat * each == 0) by (nonlinear_arith);
        while i < rows.len()
            invariant
                i <= rows@.len(),
                was == *old(self),
                good == was.wf(),
                db == was.db@,
                n == uppercased(table@),
                t == db.tables[n],
                av == assignments_view(assignments@),
                to_rows == updated_rows(t, av, condition@),
                to == with_rows(db, n, to_rows),
                sample == nulls(t.cols.len()),
                key@ == tkey(n),
                good ==> {
                    &&& db.tables.contains_key(n)
                    &&& schema_view(schema@) == t.cols
                    &&& table_ok(t)
                    &&& index_list(indexes@, db, table@)
                    &&& matches_listed(rows@, t, condition@)
                    &&& updated_row(sample, av, t.cols) is Ok
                    &&& row_storable(updated_row(sample, av, t.cols)->Ok_0)
                    &&& rows_updated(db, table@, av, condition@) == Ok::<(DbView, nat), ErrorView>((to, rows@.len()))
                    &&& self.wf()
                    &&& self@ == with_rows(db, n, updated_upto(t, av, rows@, i as int))
                    &&& within_stock(was, *self, to, (i as nat * each) as nat)
                    &&& most == rows@.len() * each
                    &&& most == update_pages(db, table@, condition@)
                    &&& each == PUT_PAGES as nat * indexes@.len()
                },
            decreases rows@.len() - i,
        {
            let ghost cur = *self;
            let rowid: u64 = rows[i].0;
            let ghost rv = row_view(rows@[i as int].1@);
            let ghost cur_rows = updated_upto(t, av, rows@, i as int);
            let ghost next_rows = updated_upto(t, av, rows@, i + 1);
            proof {
                if good {
                    assert(t.rows.contains_key(rows@[i as int].0));
                    updated_like_sample(rv, sample, av, t.cols);
                    update_step(t, av, condition@, rows@, i as int);
                    with_rows_row(db, n, cur_rows, rowid, Some(updated_row(rv, av, t.cols)->Ok_0));
                    index_list_same(indexes@, db, cur@, table@);
                    rows_between(db, n, to_rows, cur_rows);
                    rows_between(db, n, to_rows, next_rows);
                    assert((i + 1) * each == i * each + each) by (nonlinear_arith);
                    assert((i + 1) * each <= rows@.len() * each) by (nonlinear_arith)
                        requires
                            i + 1 <= rows@.len(),
                    ;
                }
            }
            if rows[i].1.len() != schema.len() {
                return Err(Error::Storage(StorageError::Corrupt));
            }
            let new_row = match update_row(&rows[i].1, assignments, &schema) {
                Err(e) => {
                    return Err(e);
                },
                Ok(row) => row,
            };
            let old_opt: Option<Vec<Value>> = Some(copy_row(&rows[i].1));
            let new_opt: Option<Vec<Value>> = Some(new_row);
            match self.set_row(&key, rowid, &old_opt, &new_opt, &schema, &indexes, Ghost(table@)) {
                Err(e) => {
                    proof {
                        if good {
                            stock_step(
                                was,
                                cur,
                                *self,
                                to,
                                with_rows(db, n, next_rows),
                                (i as nat * each) as nat,
                                each,
                                Some(e@),
                            );
                            spacious_more(was, *self, to, (i as nat * each + each) as nat, most, Some(e@));
                        }
                    }
                    return Err(e);
                },
                Ok(_) => {
                    proof {
                        if good {
                            stock_step(
                                was,
                                cur,
                                *self,
                                to,
                                with_rows(db, n, next_rows),
                                (i as nat * each) as nat,
                                each,
                                None,
                            );
                        }
                    }
                },
            }
            i += 1;
        }
        proof {
            if good {
                assert(updated_upto(t, av, rows@, i as int) =~= to_rows) by {
                    assert forall|id: u64| #[trigger] t.rows.contains_key(id) implies (in_first(rows@, i as int, id)
                        <==> meets(condition@, t.rows[id], t.cols)) by {
                        if meets(condition@, t.rows[id], t.cols) {
                            let p = choose|p: int| 0 <= p < rows@.len() && (#[trigger] rows@[p]).0 == id;
                            assert(rows@[p].0 == id);
                        }
                        if in_first(rows@, i as int, id) {
                            let p = choose|p: int| 0 <= p < i && (#[trigger] rows@[p]).0 == id;
                            assert(meets(condition@, t.rows[rows@[p].0], t.cols));
                        }
                    }
                }
            }
        }
        Ok(rows.len())
    }

    /// `DELETE FROM table WHERE condition`
    pub fn exec_delete(&mut self, table: &str, condition: &BoolExpr) -> (r: Result<usize, Error>)
        ensures
            old(self).wf() ==> counted(
                *old(self),
                *final(self),
                rows_deleted(old(self)@, table@, condition@),
                0,
                r,
            ),
    {
        let ghost was = *self;
        let ghost good = self.wf();
        let ghost db = self.db@;
        let ghost n = uppercased(table@);
        let ghost t = db.tables[n];
        let ghost to_rows = t.rows.remove_keys(matching(t, condition@));
        let ghost to = with_rows(db, n, to_rows);
        let schema = match self.get_table(table) {
            Err(e) => {
                proof {
                    if good && read_failed(was, e@) {
                        read_counted(was, *self, e);
                    }
                }
                return Err(e);
            },
            Ok((_, schema)) => schema,
        };
        let indexes = match self.list_indexes(table) {
            Err(e) => {
                proof {
                    if good {
                        read_counted(was, *self, e);
                    }
                }
                return Err(e);
            },
            Ok(v) => v,
        };
        let key = table_key(table);
        let rows = match self.matching_rows(&key, condition, &schema, &indexes, Ghost(table@)) {
            Err(e) => {
                proof {
                    if good {
                        read_counted(was, *self, e);
                    }
                }
                return Err(e);
            },
            Ok(v) => v,
        };
        proof {
            if good {
                matches_counted(rows@, t, condition@);
                table_facts(self.catalog@, db, all_seen(db), n);
                assert(rows_deleted(db, table@, condition@) == Ok::<(DbView, nat), ErrorView>((to, rows@.len())));
                assert(deleted_upto(t, rows@, 0) =~= t.rows);
                assert(with_rows(db, n, t.rows).tables =~= db.tables);
                stays_within(was, *self, to);
            }
        }
        let mut i: usize = 0;
        while i < rows.len()
            invariant
                i <= rows@.len(),
                was == *old(self),
                good == was.wf(),
                db == was.db@,
                n == uppercased(table@),
                t == db.tables[n],
                to_rows == t.rows.remove_keys(matching(t, condition@)),
                to == with_rows(db, n, to_rows),
                key@ == tkey(n),
                good ==> {
                    &&& db.tables.contains_key(n)
                    &&& schema_view(schema@) == t.cols
                    &&& table_ok(t)
                    &&& index_list(indexes@, db, table@)
                    &&& matches_listed(rows@, t, condition@)
                    &&& rows_deleted(db, table@, condition@) == Ok::<(DbView, nat), ErrorView>((to, rows@.len()))
                    &&& self.wf()
                    &&& self@ == with_rows(db, n, deleted_upto(t, rows@, i as int))
                    &&& within_stock(was, *self, to, 0)
                },
            decreases rows@.len() - i,
        {
            let ghost cur = *self;
            let rowid: u64 = rows[i].0;
            let ghost cur_rows = deleted_upto(t, rows@, i as int);
            let ghost next_rows = deleted_upto(t, rows@, i + 1);
            proof {
                if good {
                    assert(t.rows.contains_key(rows@[i as int].0));
                    delete_step(t, condition@, rows@, i as int);
                    with_rows_row(db, n, cur_rows, rowid, None);
                    index_list_same(indexes@, db, cur@, table@);
                    rows_between(db, n, to_rows, cur_rows);
                    rows_between(db, n, to_rows, next_rows);
                }
            }
            let old_opt: Option<Vec<Value>> = Some(copy_row(&rows[i].1));
            let new_opt: Option<Vec<Value>> = None;
            match self.set_row(&key, rowid, &old_opt, &new_opt, &schema, &indexes, Ghost(table@)) {
                Err(e) => {
                    proof {
                        if good {
                            stock_step(was, cur, *self, to, with_rows(db, n, next_rows), 0, 0, Some(e@));
                        }
                    }
                    return Err(e);
                },
                Ok(_) => {
                    proof {
                        if good {
                            stock_step(was, cur, *self, to, with_rows(db, n, next_rows), 0, 0, None);
                        }
                    }
                },
            }
            i += 1;
        }
        proof {
            if good {
                assert(deleted_upto(t, rows@, i as int) =~= to_rows) by {
                    assert forall|id: u64| #[trigger] t.rows.contains_key(id) implies (in_first(rows@, i as int, id)
                        <==> meets(condition@, t.rows[id], t.cols)) by {
                        if meets(condition@, t.rows[id], t.cols) {
                            let p = choose|p: int| 0 <= p < rows@.len() && (#[trigger] rows@[p]).0 == id;
                            assert(rows@[p].0 == id);
                        }
                        if in_first(rows@, i as int, id) {
                            let p = choose|p: int| 0 <= p < i && (#[trigger] rows@[p]).0 == id;
                            assert(meets(condition@, t.rows[rows@[p].0], t.cols));
                        }
                    }
                }
            }
        }
        Ok(rows.len())
    }
}

proof fn update_step(
    t: TableView,
    assignments: Seq<AssignmentView>,
    condition: ExprView,
    v: Seq<(u64, Vec<Value>)>,
    i: int,
)
    requires
        matches_listed(v, t, condition),
        0 <= i < v.len(),
    ensures
        ({
            let cur = updated_upto(t, assignments, v, i);
            let next = updated_upto(t, assignments, v, i + 1);
            let id = v[i].0;
            let to = updated_rows(t, assignments, condition);
            &&& cur.contains_key(id)
            &&& cur[id] == t.rows[id]
            &&& next == rows_with(cur, id, Some(updated_row(t.rows[id], assignments, t.cols)->Ok_0))
            &&& forall|x: u64| #[trigger]
                cur.contains_key(x) ==> (t.rows.contains_key(x) && cur[x] == t.rows[x]) || (to.contains_key(x)
                    && cur[x] == to[x])
            &&& forall|x: u64| #[trigger]
                next.contains_key(x) ==> (t.rows.contains_key(x) && next[x] == t.rows[x]) || (to.contains_key(x)
                    && next[x] == to[x])
        }),
{
    let cur = updated_upto(t, assignments, v, i);
    let next = updated_upto(t, assignments, v, i + 1);
    let id = v[i].0;
    assert(t.rows.contains_key(v[i].0));
    if in_first(v, i, id) {
        let p = choose|p: int| 0 <= p < i && (#[trigger] v[p]).0 == id;
        assert(v[p].0 != v[i].0);
    }
    assert forall|x: u64| in_first(v, i + 1, x) <==> in_first(v, i, x) || x == id by {
        in_first_next(v, i, x);
    }
    assert(next =~= rows_with(cur, id, Some(updated_row(t.rows[id], assignments, t.cols)->Ok_0)));
    assert forall|x: u64| in_first(v, i + 1, x) && t.rows.contains_key(x) implies meets(
        condition,
        t.rows[x],
        t.cols,
    ) by {
        let p = choose|p: int| 0 <= p < i + 1 && (#[trigger] v[p]).0 == x;
        assert(meets(condition, t.rows[v[p].0], t.cols));
    }
}

proof fn delete_step(t: TableView, condition: ExprView, v: Seq<(u64, Vec<Value>)>, i: int)
    requires
        matches_listed(v, t, condition),
        0 <= i < v.len(),
    ensures
        ({
            let cur = deleted_upto(t, v, i);
            let next = deleted_upto(t, v, i + 1);
            let id = v[i].0;
            &&& cur.contains_key(id)
            &&& cur[id] == t.rows[id]
            &&& next == rows_with(cur, id, None)
        }),
{
    let cur = deleted_upto(t, v, i);
    let next = deleted_upto(t, v, i + 1);
    let id = v[i].0;
    assert(t.rows.contains_key(v[i].0));
    if in_first(v, i, id) {
        let p = choose|p: int| 0 <= p < i && (#[trigger] v[p]).0 == id;
        assert(v[p].0 != v[i].0);
    }
    assert forall|x: u64| in_first(v, i + 1, x) <==> in_first(v, i, x) || x == id by {
        in_first_next(v, i, x);
    }
    assert(next =~= rows_with(cur, id, None));
}

/// The outcome of a statement that changes the database as `to` says, takes at most so many pages, and
/// counts rows.
pub open spec fn counted(
    a: Tables,
    b: Tables,
    to: Result<(DbView, nat), ErrorView>,
    most: nat,
    r: Result<usize, Error>,
) -> bool {
    match to {
        Err(e) => match r {
            Ok(_) => false,
            Err(x) => stays(a, b) && (x@ == e || read_failed(a, x@)),
        },
        Ok((db, count)) => match r {
            Ok(k) => k == count && b.wf() && b@ == db && spacious(a, b, db, most, None),
            Err(x) => x@ is Storage && spacious(a, b, db, most, Some(x@)),
        },
    }
}

/// A failure to read takes a page that cannot be written.
proof fn read_counted(was: Tables, now: Tables, e: Error)
    requires
        stays(was, now),
        read_failed(was, e@),
    ensures
        forall|to: Result<(DbView, nat), ErrorView>, most: nat| #[trigger]
            counted(was, now, to, most, Err::<usize, Error>(e)),
{
    assert forall|to: Result<(DbView, nat), ErrorView>, most: nat| #[trigger]
        counted(was, now, to, most, Err::<usize, Error>(e)) by {
        if to is Ok {
            read_spacious(was, now, to->Ok_0.0, e@);
        }
    }
}

/// Doing nothing takes no room.
proof fn stays_spacious(was: Tables, now: Tables, to: DbView)
    requires
        stays(was, now),
    ensures
        forall|most: nat| #[trigger] spacious(was, now, to, most, None),
{
}

} // verus!
