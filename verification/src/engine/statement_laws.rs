//! What each statement does to the tables of the database in use, said of single rows and columns.
use vstd::prelude::*;

use crate::bytes::{extension_keeps_order, lt, lt_asymmetric};
use crate::engine::condition::{column_found, column_of, compares, meets};
use crate::engine::error::{Error, ErrorView};
use crate::engine::executor::{outcome, Engine, QueryResult};
use crate::engine::index::integer_keys_keep_order;
use crate::engine::join::{
    at_places, chosen, comparison_local, concat, concat_aligned, first_repeat, first_unknown,
    locals_of, no_locals, owner_found, owner_of, split_locals,
};
use crate::engine::model::{
    covers, encode, ikey, index_col, index_entry, index_meta, table_meta, table_ok, tkey, DbView,
    IndexView,
};
use crate::engine::row::{row_bytes, row_storable, value_storable};
use crate::engine::row_laws::{
    insert_fills_the_named_columns, insert_refuses_the_first_misfit,
    insert_takes_the_columns_in_order, is_of, misassigned, misassigned_as, misplaced, misplaced_as,
    place_of_name, put_in, stands_at, stands_nowhere, update_makes_every_assignment,
    update_refuses_the_first_misfit,
};
use crate::engine::semantics::{
    assigned, assigned_same_error, filled, index_created, index_dropped, is_indexed, kept_row,
    matching, new_row, new_row_length, nulls, row_inserted, rows_deleted, rows_updated,
    table_created, table_dropped, updated_row,
};
use crate::engine::tables::{
    create_index_pages, create_table_pages, indexes_on, insert_pages, update_pages, Tables,
};
use crate::engine::tables::ddl::name_in;
use crate::engine::tables::dml::{comes_before, serves};
use crate::engine::tables::select::{
    first_missing, ids_before, picked, rows_at, schemas_of, select_error, selection, tables_of,
    ways,
};
use crate::engine::value_laws::string_in;
use crate::ints::le64;
use crate::sql::ast::{
    rows_view, AssignmentView, ColumnView, ColumnsView, DataType, ExprView, Operator, StatementView,
    ValueView,
};
use crate::storage::laws::short_entries_are_roomy;
use crate::storage::store::admits_entry;
use crate::storage::tree::{roomy, Stock};
use crate::text::{text_bytes, uppercased};

verus! {

/// A statement has been run on a database in use, whose tables were `t` and are `t2`.
pub open spec fn ran(
    a: Engine,
    b: Engine,
    stmt: StatementView,
    r: Result<QueryResult, Error>,
    t: Tables,
    t2: Tables,
) -> bool {
    &&& a.wf()
    &&& outcome(a, b, stmt, r)
    &&& a.in_use() == Some(t)
    &&& t.wf()
    &&& b.in_use() == Some(t2)
}

/// The statement has done what it should, or storage has failed.
pub open spec fn done_or_storage(r: Result<QueryResult, Error>) -> bool {
    r matches Err(e) ==> e@ is Storage
}

/// The statement has been refused with this error, unless a page in use could not be written.
pub open spec fn refused(r: Result<QueryResult, Error>, with: ErrorView, t: Tables) -> bool {
    r matches Err(e) && (e@ == with || unreadable(t, e@))
}

/// Storage has failed while nothing was to be changed, which takes a page in use that cannot be written.
pub open spec fn unreadable(t: Tables, e: ErrorView) -> bool {
    e is Storage && !t.all_fit()
}

/// Nothing but one table is different.
pub open spec fn but_one_table(db: DbView, to: DbView, n: Seq<char>) -> bool {
    &&& to.indexes == db.indexes
    &&& forall|m: Seq<char>| m != n ==> (#[trigger] to.tables.contains_key(m) <==> db.tables.contains_key(m))
    &&& forall|m: Seq<char>| m != n && #[trigger] to.tables.contains_key(m) ==> to.tables[m] == db.tables[m]
}

/// UPDATE: in the rows that met the condition, each column that is assigned to has the value of the last
/// assignment to it, and each other column what it had; all other rows, and all else, is as it was. The
/// number of rows that met the condition is given back.
#[verifier::spinoff_prover]
#[verifier::rlimit(50)]
pub proof fn update_statement(
    a: Engine,
    b: Engine,
    table: Seq<char>,
    assignments: Seq<AssignmentView>,
    condition: ExprView,
    q: QueryResult,
    t: Tables,
    t2: Tables,
)
    requires
        ran(a, b, StatementView::Update { table, assignments, condition }, Ok(q), t, t2),
    ensures
        t@.tables.contains_key(uppercased(table)),
        t2@.tables.contains_key(uppercased(table)),
        but_one_table(t@, t2@, uppercased(table)),
        q is RowsAffected,
        ({
            let was = t@.tables[uppercased(table)];
            let now = t2@.tables[uppercased(table)];
            &&& now.cols == was.cols
            &&& now.next == was.next
            &&& q->RowsAffected_0 == Set::new(
                |id: u64| was.rows.contains_key(id) && meets(condition, was.rows[id], was.cols),
            ).len()
            &&& forall|id: u64| #[trigger] now.rows.contains_key(id) <==> was.rows.contains_key(id)
            &&& forall|id: u64| #[trigger]
                now.rows.contains_key(id) && !meets(condition, was.rows[id], was.cols) ==> now.rows[id] == was.rows[id]
            &&& forall|id: u64| #[trigger]
                now.rows.contains_key(id) && meets(condition, was.rows[id], was.cols) ==> assigned_to(
                    was.rows[id],
                    now.rows[id],
                    assignments,
                    was.cols,
                )
        }),
{
    let n = uppercased(table);
    let was = t@.tables[n];
    let now = t2@.tables[n];
    let count = Set::new(|id: u64| was.rows.contains_key(id) && meets(condition, was.rows[id], was.cols));
    t.all_in_order();
    assert(matching(was, condition) =~= count);
    assert forall|id: u64| #[trigger]
        now.rows.contains_key(id) && !meets(condition, was.rows[id], was.cols) implies now.rows[id] == was.rows[id] by {}
    assert forall|id: u64| #[trigger]
        now.rows.contains_key(id) && meets(condition, was.rows[id], was.cols) implies assigned_to(
        was.rows[id],
        now.rows[id],
        assignments,
        was.cols,
    ) by {
        assert(matching(was, condition).contains(id));
        let row = was.rows[id];
        let sample = nulls(was.cols.len());
        assigned_same_error(sample, row, assignments, was.cols, 0);
        let made = updated_row(row, assignments, was.cols)->Ok_0;
        assert(now.rows[id] == made);
        update_refuses_the_first_misfit(row, assignments, was.cols);
        assert forall|c: int| 0 <= c < was.cols.len() implies #[trigger] column_assigned(
            row,
            made,
            assignments,
            was.cols,
            c,
        ) by {
            update_makes_every_assignment(row, assignments, was.cols, made, c);
        }
        if was.cols.len() == 0 {
            assigned_length(row, assignments, was.cols, 0);
        } else {
            update_makes_every_assignment(row, assignments, was.cols, made, 0);
        }
    }
    if matching(was, condition) == Set::<u64>::empty() {
        assert forall|id: u64| was.rows.contains_key(id) implies !meets(condition, #[trigger] was.rows[id], was.cols) by {
            assert(!matching(was, condition).contains(id));
        }
    }
}

proof fn assigned_length(row: Seq<ValueView>, assignments: Seq<AssignmentView>, cols: Seq<ColumnView>, i: int)
    requires
        row.len() == cols.len(),
    ensures
        assigned(row, assignments, cols, i) matches Ok(r) ==> r.len() == row.len(),
    decreases assignments.len() - i,
{
    if 0 <= i < assignments.len() && assigned(row, assignments, cols, i) is Ok {
        place_of_name(cols, assignments[i].column);
        let p = column_of(cols, assignments[i].column)->Some_0;
        assert(stands_at(cols, assignments[i].column, p));
        assigned_length(row.update(p, assignments[i].value), assignments, cols, i + 1);
    }
}

/// A column of a row has the value of the last assignment to it, or what it had.
pub open spec fn column_assigned(
    row: Seq<ValueView>,
    r: Seq<ValueView>,
    assignments: Seq<AssignmentView>,
    cols: Seq<ColumnView>,
    c: int,
) -> bool {
    &&& forall|k: int|
        0 <= k < assignments.len() && stands_at(cols, (#[trigger] assignments[k]).column, c) && (forall|j: int|
            k < j < assignments.len() ==> !stands_at(cols, (#[trigger] assignments[j]).column, c)) ==> r[c] == put_in(
            assignments[k].value,
            cols[c].data_type,
        )
    &&& (forall|k: int| 0 <= k < assignments.len() ==> !stands_at(cols, (#[trigger] assignments[k]).column, c))
        ==> r[c] == put_in(row[c], cols[c].data_type)
}

/// A row is another with the assignments made: each names a column and has a value of its type.
pub open spec fn assigned_to(
    row: Seq<ValueView>,
    r: Seq<ValueView>,
    assignments: Seq<AssignmentView>,
    cols: Seq<ColumnView>,
) -> bool {
    &&& r.len() == row.len()
    &&& forall|c: int| 0 <= c < cols.len() ==> #[trigger] column_assigned(row, r, assignments, cols, c)
    &&& forall|k: int| 0 <= k < assignments.len() ==> !misassigned(#[trigger] assignments[k], cols)
}

/// The error for the first assignment that cannot be made.
pub open spec fn first_misassigned(assignments: Seq<AssignmentView>, cols: Seq<ColumnView>, e: ErrorView) -> bool {
    exists|k: int|
        0 <= k < assignments.len() && misassigned_as(#[trigger] assignments[k], cols, e) && misassigned(
            assignments[k],
            cols,
        ) && forall|j: int| 0 <= j < k ==> !misassigned(#[trigger] assignments[j], cols)
}

/// UPDATE is refused if there is no such table, or if a row meets the condition and an assignment cannot
/// be made; the first such assignment gives the error. Otherwise it is done unless storage fails, which is
/// so also where the new values are too long to be stored.
pub proof fn update_is_refused(
    a: Engine,
    b: Engine,
    table: Seq<char>,
    assignments: Seq<AssignmentView>,
    condition: ExprView,
    r: Result<QueryResult, Error>,
    t: Tables,
    t2: Tables,
    id: u64,
)
    requires
        ran(a, b, StatementView::Update { table, assignments, condition }, r, t, t2),
    ensures
        ({
            let n = uppercased(table);
            let was = t@.tables[n];
            let met = was.rows.contains_key(id) && meets(condition, was.rows[id], was.cols);
            let bad = exists|k: int| 0 <= k < assignments.len() && misassigned(#[trigger] assignments[k], was.cols);
            &&& !t@.tables.contains_key(n) ==> refused(r, ErrorView::NoTable(table), t)
            &&& t@.tables.contains_key(n) && met && bad ==> (r matches Err(e) && (unreadable(t, e@)
                || first_misassigned(assignments, was.cols, e@)))
            &&& t@.tables.contains_key(n) && !bad ==> done_or_storage(r)
            &&& t@.tables.contains_key(n) && (forall|x: u64| #[trigger]
                was.rows.contains_key(x) ==> !meets(condition, was.rows[x], was.cols)) ==> done_or_storage(r)
            &&& r matches Err(e) ==> e@ is Storage || t2@ == t@
        }),
{
    let n = uppercased(table);
    if t@.tables.contains_key(n) {
        let was = t@.tables[n];
        if forall|x: u64| #[trigger] was.rows.contains_key(x) ==> !meets(condition, was.rows[x], was.cols) {
            assert(matching(was, condition) =~= Set::<u64>::empty());
        }
        update_refuses_the_first_misfit(nulls(was.cols.len()), assignments, was.cols);
        if was.rows.contains_key(id) && meets(condition, was.rows[id], was.cols) {
            assert(matching(was, condition).contains(id));
        }
    }
}

/// The row that an INSERT adds: the values in the columns of the names at their places, and NULL in the
/// others; or without names, the values in the order of the columns.
pub open spec fn filled_with(
    columns: Option<Seq<Seq<char>>>,
    values: Seq<ValueView>,
    cols: Seq<ColumnView>,
    r: Seq<ValueView>,
) -> bool {
    &&& r.len() == cols.len()
    &&& match columns {
        None => {
            &&& values.len() == cols.len()
            &&& forall|c: int|
                0 <= c < cols.len() ==> is_of(#[trigger] values[c], cols[c].data_type) && r[c] == put_in(
                    values[c],
                    cols[c].data_type,
                )
        },
        Some(names) => {
            &&& names.len() == values.len()
            &&& forall|k: int| 0 <= k < names.len() ==> !misplaced(#[trigger] names[k], values[k], cols)
            &&& forall|c: int| 0 <= c < cols.len() ==> #[trigger] column_filled(names, values, cols, r, c)
        },
    }
}

/// A column of a new row has the value for the last of its names in the list, or NULL.
pub open spec fn column_filled(
    names: Seq<Seq<char>>,
    values: Seq<ValueView>,
    cols: Seq<ColumnView>,
    r: Seq<ValueView>,
    c: int,
) -> bool {
    &&& forall|k: int|
        0 <= k < names.len() && stands_at(cols, #[trigger] names[k], c) && (forall|j: int|
            k < j < names.len() ==> !stands_at(cols, #[trigger] names[j], c)) ==> r[c] == put_in(
            values[k],
            cols[c].data_type,
        )
    &&& (forall|k: int| 0 <= k < names.len() ==> !stands_at(cols, #[trigger] names[k], c)) ==> r[c] == ValueView::Null
}

/// INSERT: the table has one row more, with a number that was not in use, made of the values; all else is
/// as it was.
#[verifier::spinoff_prover]
#[verifier::rlimit(50)]
pub proof fn insert_statement(
    a: Engine,
    b: Engine,
    table: Seq<char>,
    columns: Option<Seq<Seq<char>>>,
    values: Seq<ValueView>,
    q: QueryResult,
    t: Tables,
    t2: Tables,
)
    requires
        ran(a, b, StatementView::Insert { table, columns, values }, Ok(q), t, t2),
    ensures
        t@.tables.contains_key(uppercased(table)),
        t2@.tables.contains_key(uppercased(table)),
        but_one_table(t@, t2@, uppercased(table)),
        q is Success,
        ({
            let was = t@.tables[uppercased(table)];
            let now = t2@.tables[uppercased(table)];
            &&& now.cols == was.cols
            &&& !was.rows.contains_key(was.next)
            &&& now.next == was.next + 1
            &&& forall|id: u64| #[trigger] now.rows.contains_key(id) <==> was.rows.contains_key(id) || id == was.next
            &&& forall|id: u64| #[trigger] was.rows.contains_key(id) ==> now.rows[id] == was.rows[id]
            &&& filled_with(columns, values, was.cols, now.rows[was.next])
        }),
{
    let was = t@.tables[uppercased(table)];
    let row = t2@.tables[uppercased(table)].rows[was.next];
    t.all_in_order();
    new_row_length(columns, values, was.cols, table);
    match columns {
        None => {
            insert_takes_the_columns_in_order(values, was.cols, table);
        },
        Some(names) => {
            insert_refuses_the_first_misfit(names, values, was.cols, table);
            assert forall|c: int| 0 <= c < was.cols.len() implies #[trigger] column_filled(
                names,
                values,
                was.cols,
                row,
                c,
            ) by {
                insert_fills_the_named_columns(names, values, was.cols, table, row, c);
            }
        },
    }
}

/// The values cannot be a row: their number is wrong, a name is not that of a column, or a value is of
/// another type than its column.
pub open spec fn no_row(columns: Option<Seq<Seq<char>>>, values: Seq<ValueView>, cols: Seq<ColumnView>) -> bool {
    match columns {
        None => values.len() != cols.len() || exists|c: int|
            0 <= c < cols.len() && !is_of(#[trigger] values[c], cols[c].data_type),
        Some(names) => values.len() != names.len() || exists|k: int|
            0 <= k < names.len() && misplaced(#[trigger] names[k], values[k], cols),
    }
}

/// The error for values that cannot be a row: that for their number, or for the first that does not fit.
pub open spec fn row_error(
    columns: Option<Seq<Seq<char>>>,
    values: Seq<ValueView>,
    cols: Seq<ColumnView>,
    table: Seq<char>,
    e: ErrorView,
) -> bool {
    match columns {
        None => if values.len() != cols.len() {
            e == (ErrorView::ColumnCount { expected: cols.len(), got: values.len() })
        } else {
            exists|c: int|
                0 <= c < cols.len() && !is_of(#[trigger] values[c], cols[c].data_type) && e == (ErrorView::TypeMismatch {
                    value: values[c],
                    data_type: cols[c].data_type,
                }) && forall|j: int| 0 <= j < c ==> is_of(#[trigger] values[j], cols[j].data_type)
        },
        Some(names) => if values.len() != names.len() {
            e == (ErrorView::ColumnCount { expected: names.len(), got: values.len() })
        } else {
            exists|k: int|
                0 <= k < names.len() && misplaced_as(#[trigger] names[k], values[k], cols, table, e) && misplaced(
                    names[k],
                    values[k],
                    cols,
                ) && forall|j: int| 0 <= j < k ==> !misplaced(#[trigger] names[j], values[j], cols)
        },
    }
}

/// INSERT is refused if there is no such table, or if the values cannot be a row of it; the first that
/// does not fit gives the error. Otherwise it is done unless storage fails.
pub proof fn insert_is_refused(
    a: Engine,
    b: Engine,
    table: Seq<char>,
    columns: Option<Seq<Seq<char>>>,
    values: Seq<ValueView>,
    r: Result<QueryResult, Error>,
    t: Tables,
    t2: Tables,
)
    requires
        ran(a, b, StatementView::Insert { table, columns, values }, r, t, t2),
    ensures
        ({
            let n = uppercased(table);
            let cols = t@.tables[n].cols;
            &&& !t@.tables.contains_key(n) ==> refused(r, ErrorView::NoTable(table), t)
            &&& t@.tables.contains_key(n) && no_row(columns, values, cols) ==> (r matches Err(e) && (unreadable(t, e@)
                || row_error(columns, values, cols, table, e@)))
            &&& t@.tables.contains_key(n) && !no_row(columns, values, cols) ==> done_or_storage(r)
            &&& r matches Err(e) ==> e@ is Storage || t2@ == t@
        }),
{
    let n = uppercased(table);
    if t@.tables.contains_key(n) {
        let cols = t@.tables[n].cols;
        match columns {
            None => insert_takes_the_columns_in_order(values, cols, table),
            Some(names) => insert_refuses_the_first_misfit(names, values, cols, table),
        }
    }
}

/// DELETE: the rows that met the condition are gone, and all else is as it was. Their number is given
/// back.
pub proof fn delete_statement(
    a: Engine,
    b: Engine,
    table: Seq<char>,
    condition: ExprView,
    r: Result<QueryResult, Error>,
    t: Tables,
    t2: Tables,
)
    requires
        ran(a, b, StatementView::Delete { table, condition }, r, t, t2),
    ensures
        !t@.tables.contains_key(uppercased(table)) ==> refused(r, ErrorView::NoTable(table), t),
        t@.tables.contains_key(uppercased(table)) ==> done_or_storage(r),
        r matches Ok(q) ==> {
            let was = t@.tables[uppercased(table)];
            let now = t2@.tables[uppercased(table)];
            &&& t2@.tables.contains_key(uppercased(table))
            &&& but_one_table(t@, t2@, uppercased(table))
            &&& now.cols == was.cols
            &&& now.next == was.next
            &&& q is RowsAffected
            &&& q->RowsAffected_0 == Set::new(
                |id: u64| was.rows.contains_key(id) && meets(condition, was.rows[id], was.cols),
            ).len()
            &&& forall|id: u64| #[trigger]
                now.rows.contains_key(id) <==> was.rows.contains_key(id) && !meets(condition, was.rows[id], was.cols)
            &&& forall|id: u64| #[trigger] now.rows.contains_key(id) ==> now.rows[id] == was.rows[id]
        },
        r matches Err(e) ==> e@ is Storage || t2@ == t@,
{
    let was = t@.tables[uppercased(table)];
    assert(matching(was, condition) =~= Set::new(
        |id: u64| was.rows.contains_key(id) && meets(condition, was.rows[id], was.cols),
    ));
}

/// CREATE TABLE: there is a new table with these columns and without rows, and all else is as it was. A
/// name that is taken is refused. Of the width of a column two bytes are kept.
pub proof fn create_table_statement(
    a: Engine,
    b: Engine,
    name: Seq<char>,
    columns: Seq<ColumnView>,
    r: Result<QueryResult, Error>,
    t: Tables,
    t2: Tables,
)
    requires
        ran(a, b, StatementView::CreateTable { name, columns }, r, t, t2),
    ensures
        t@.tables.contains_key(uppercased(name)) ==> refused(r, ErrorView::TableExists(name), t),
        !t@.tables.contains_key(uppercased(name)) ==> done_or_storage(r),
        r matches Ok(q) ==> {
            let now = t2@.tables[uppercased(name)];
            &&& q is Success
            &&& t2@.tables.contains_key(uppercased(name))
            &&& but_one_table(t@, t2@, uppercased(name))
            &&& now.rows == Map::<u64, Seq<ValueView>>::empty()
            &&& now.next == 1
            &&& now.cols.len() == columns.len()
            &&& forall|c: int|
                0 <= c < columns.len() ==> {
                    &&& (#[trigger] now.cols[c]).name == columns[c].name
                    &&& match columns[c].data_type {
                        DataType::Char(w) => now.cols[c].data_type is Char && (w <= u16::MAX
                            ==> now.cols[c].data_type == DataType::Char(w)),
                        other => now.cols[c].data_type == other,
                    }
                }
        },
        r matches Err(e) ==> e@ is Storage || t2@ == t@,
{
}

/// DROP TABLE: the table is gone, and all else is as it was. It is refused while there is an index on the
/// table, and if there is no such table.
pub proof fn drop_table_statement(
    a: Engine,
    b: Engine,
    name: Seq<char>,
    r: Result<QueryResult, Error>,
    t: Tables,
    t2: Tables,
)
    requires
        ran(a, b, StatementView::DropTable { name }, r, t, t2),
    ensures
        ({
            let n = uppercased(name);
            let indexed = exists|m: Seq<char>| #[trigger]
                t@.indexes.contains_key(m) && uppercased(t@.indexes[m].table) == n;
            &&& indexed ==> refused(r, ErrorView::IndexesExist(name), t)
            &&& !indexed && !t@.tables.contains_key(n) ==> refused(r, ErrorView::NoTable(name), t)
            &&& !indexed && t@.tables.contains_key(n) ==> done_or_storage(r)
            &&& r matches Ok(q) ==> q is Success && !t2@.tables.contains_key(n) && but_one_table(t@, t2@, n)
            &&& r matches Err(e) ==> e@ is Storage || t2@ == t@
        }),
{
    let n = uppercased(name);
    if exists|m: Seq<char>| #[trigger] t@.indexes.contains_key(m) && uppercased(t@.indexes[m].table) == n {
        let m = choose|m: Seq<char>| #[trigger] t@.indexes.contains_key(m) && uppercased(t@.indexes[m].table) == n;
        assert(is_indexed(t@, name));
    }
}

/// CREATE INDEX: on a column that holds integers or strings, with a width or without, there is an index of
/// this name afterwards; on one that holds numbers with a decimal point or booleans it is refused. No table
/// is touched, and no other index.
#[verifier::spinoff_prover]
#[verifier::rlimit(50)]
pub proof fn create_index_statement(
    a: Engine,
    b: Engine,
    name: Seq<char>,
    table: Seq<char>,
    column: Seq<char>,
    r: Result<QueryResult, Error>,
    t: Tables,
    t2: Tables,
    c: int,
)
    requires
        ran(a, b, StatementView::CreateIndex { name, table, column }, r, t, t2),
    ensures
        ({
            let n = uppercased(table);
            let cols = t@.tables[n].cols;
            &&& !t@.tables.contains_key(n) ==> refused(r, ErrorView::NoTable(table), t)
            &&& t@.tables.contains_key(n) && stands_nowhere(cols, column) ==> refused(
                r,
                ErrorView::NoColumnInTable { column, table },
                t,
            )
            &&& t@.tables.contains_key(n) && stands_at(cols, column, c) ==> match cols[c].data_type {
                DataType::Integer => done_or_storage(r),
                DataType::Text => done_or_storage(r),
                DataType::Char(_) => done_or_storage(r),
                DataType::Float => refused(r, ErrorView::NotIndexable { column, data_type: DataType::Float }, t),
                DataType::Boolean => refused(r, ErrorView::NotIndexable { column, data_type: DataType::Boolean }, t),
            }
            &&& r matches Ok(q) ==> {
                &&& q is Success
                &&& t2@.tables == t@.tables
                &&& t2@.indexes.contains_key(uppercased(name))
                &&& t2@.indexes[uppercased(name)] == IndexView { table, column }
                &&& forall|m: Seq<char>|
                    m != uppercased(name) ==> (#[trigger] t2@.indexes.contains_key(m) <==> t@.indexes.contains_key(m))
                &&& forall|m: Seq<char>|
                    m != uppercased(name) && #[trigger] t2@.indexes.contains_key(m) ==> t2@.indexes[m] == t@.indexes[m]
            }
            &&& r matches Err(e) ==> e@ is Storage || t2@ == t@
        }),
{
    let n = uppercased(table);
    if t@.tables.contains_key(n) {
        place_of_name(t@.tables[n].cols, column);
    }
}

/// DROP INDEX: the index is gone, and all else is as it was. It is refused if there is no such index.
pub proof fn drop_index_statement(
    a: Engine,
    b: Engine,
    name: Seq<char>,
    r: Result<QueryResult, Error>,
    t: Tables,
    t2: Tables,
)
    requires
        ran(a, b, StatementView::DropIndex { name }, r, t, t2),
    ensures
        !t@.indexes.contains_key(uppercased(name)) ==> refused(r, ErrorView::NoIndex(name), t),
        t@.indexes.contains_key(uppercased(name)) ==> done_or_storage(r),
        r matches Ok(q) ==> {
            &&& q is Success
            &&& t2@.tables == t@.tables
            &&& !t2@.indexes.contains_key(uppercased(name))
            &&& forall|m: Seq<char>|
                m != uppercased(name) ==> (#[trigger] t2@.indexes.contains_key(m) <==> t@.indexes.contains_key(m))
            &&& forall|m: Seq<char>| #[trigger] t2@.indexes.contains_key(m) ==> t2@.indexes[m] == t@.indexes[m]
        },
        r matches Err(e) ==> e@ is Storage || t2@ == t@,
{
}

/// SHOW TABLES: a row with the name of each table, each once, in ascending order of their bytes. Nothing
/// is changed.
pub proof fn show_tables_statement(
    a: Engine,
    b: Engine,
    r: Result<QueryResult, Error>,
    t: Tables,
    t2: Tables,
    n: Seq<char>,
)
    requires
        ran(a, b, StatementView::ShowTables, r, t, t2),
    ensures
        t2@ == t@,
        done_or_storage(r),
        r matches Ok(q) ==> {
            let rows = rows_view(q->Rows_0@);
            &&& q is Rows
            &&& t@.tables.contains_key(n) <==> rows.contains(seq![ValueView::Text(n)])
            &&& forall|i: int| 0 <= i < rows.len() ==> (#[trigger] rows[i]).len() == 1 && rows[i][0] is Text
            &&& forall|i: int, j: int|
                0 <= i < j < rows.len() ==> lt(
                    text_bytes((#[trigger] rows[i])[0]->Text_0),
                    text_bytes((#[trigger] rows[j])[0]->Text_0),
                )
        },
{
    if r is Ok {
        let rows = rows_view(r->Ok_0->Rows_0@);
        assert forall|i: int| 0 <= i < rows.len() implies (#[trigger] rows[i]).len() == 1 && rows[i][0] is Text by {
            assert(rows[i] == seq![ValueView::Text(name_in(rows[i]))]);
        }
        assert forall|i: int, j: int| 0 <= i < j < rows.len() implies lt(
            text_bytes((#[trigger] rows[i])[0]->Text_0),
            text_bytes((#[trigger] rows[j])[0]->Text_0),
        ) by {
            assert(lt(text_bytes(name_in(rows[i])), text_bytes(name_in(rows[j]))));
        }
        if rows.contains(seq![ValueView::Text(n)]) {
            let i = choose|i: int| 0 <= i < rows.len() && rows[i] == seq![ValueView::Text(n)];
            assert(rows[i][0] == ValueView::Text(n));
            assert(rows[i] == seq![ValueView::Text(name_in(rows[i]))]);
        }
        if t@.tables.contains_key(n) {
            let i = choose|i: int| 0 <= i < rows.len() && name_in(#[trigger] rows[i]) == n;
            assert(rows[i] == seq![ValueView::Text(name_in(rows[i]))]);
        }
    }
}

/// The columns of the tables of these names, one table after the other.
pub open spec fn joined_cols(db: DbView, tables: Seq<Seq<char>>) -> Seq<ColumnView> {
    Seq::new(tables.len(), |k: int| db.tables[uppercased(tables[k])].cols).flatten()
}

/// The rows with these numbers of the tables of these names, one after the other.
pub open spec fn joined_row(db: DbView, tables: Seq<Seq<char>>, ids: Seq<u64>) -> Seq<ValueView> {
    Seq::new(tables.len(), |k: int| db.tables[uppercased(tables[k])].rows[ids[k]]).flatten()
}

/// Each table has a row with the number given for it, and the rows joined into one meet the condition.
pub open spec fn joins(db: DbView, tables: Seq<Seq<char>>, condition: Option<ExprView>, ids: Seq<u64>) -> bool {
    &&& ids.len() == tables.len()
    &&& forall|k: int|
        0 <= k < tables.len() ==> db.tables[uppercased(#[trigger] tables[k])].rows.contains_key(ids[k])
    &&& condition matches Some(e) ==> meets(e, joined_row(db, tables, ids), joined_cols(db, tables))
}

/// A row has these columns of another: all of them, or those of the names, in the order of the names.
pub open spec fn shows(out: Seq<ValueView>, columns: ColumnsView, row: Seq<ValueView>, cols: Seq<ColumnView>) -> bool {
    match columns {
        ColumnsView::Star => out == row,
        ColumnsView::List(names) => {
            &&& out.len() == names.len()
            &&& forall|j: int, c: int| #![trigger stands_at(cols, names[j], c)]
                0 <= j < names.len() && stands_at(cols, names[j], c) ==> out[j] == row[c]
        },
    }
}

/// Numbers of rows, one of each table, come before others: at the first table where they differ the
/// number is smaller.
pub open spec fn smaller(a: Seq<u64>, b: Seq<u64>) -> bool {
    exists|k: int| 0 <= k < a.len() && k < b.len() && a.take(k) == b.take(k) && #[trigger] a[k] < b[k]
}

/// The rows of a SELECT: one for each way to take a row of each table so that the joined rows meet the
/// condition, and no other; of it the columns that are asked for. Where no table has an index they come in
/// the order of the numbers of the rows, those of the first table first.
pub open spec fn answers(
    rows: Seq<Seq<ValueView>>,
    db: DbView,
    tables: Seq<Seq<char>>,
    columns: ColumnsView,
    condition: Option<ExprView>,
    combos: Seq<Seq<u64>>,
) -> bool {
    &&& rows.len() == combos.len()
    &&& combos.no_duplicates()
    &&& forall|ids: Seq<u64>| #[trigger]
        combos.contains(ids) ==> joins(db, tables, condition, ids)
    &&& forall|ids: Seq<u64>| #[trigger]
        joins(db, tables, condition, ids) && tables.len() > 0 ==> combos.contains(ids)
    &&& forall|i: int|
        0 <= i < rows.len() ==> shows(
            #[trigger] rows[i],
            columns,
            joined_row(db, tables, combos[i]),
            joined_cols(db, tables),
        )
    &&& db.indexes == Map::<Seq<char>, IndexView>::empty() ==> forall|i: int, j: int|
        0 <= i < j < combos.len() ==> smaller(#[trigger] combos[i], #[trigger] combos[j])
}

/// A column of this name is among the columns.
pub open spec fn stands(cols: Seq<ColumnView>, name: Seq<char>) -> bool {
    exists|c: int| 0 <= c < cols.len() && (#[trigger] cols[c]).name == name
}

/// Why a SELECT is refused: a table does not exist, a name of a column occurs twice, or a column that is
/// asked for does not exist; in this order, and the first of its kind.
pub open spec fn select_refused(
    db: DbView,
    tables: Seq<Seq<char>>,
    columns: ColumnsView,
    e: ErrorView,
) -> bool {
    let cols = joined_cols(db, tables);
    ||| exists|k: int|
        0 <= k < tables.len() && !db.tables.contains_key(uppercased(#[trigger] tables[k])) && e == ErrorView::NoTable(
            tables[k],
        ) && forall|j: int| 0 <= j < k ==> db.tables.contains_key(uppercased(#[trigger] tables[j]))
    ||| {
        &&& forall|k: int| 0 <= k < tables.len() ==> db.tables.contains_key(uppercased(#[trigger] tables[k]))
        &&& exists|c: int|
            0 <= c < cols.len() && stands(cols.take(c), (#[trigger] cols[c]).name) && e == ErrorView::DuplicateColumn(
                cols[c].name,
            ) && forall|d: int| 0 <= d < c ==> !stands(cols.take(d), (#[trigger] cols[d]).name)
    }
    ||| {
        &&& forall|k: int| 0 <= k < tables.len() ==> db.tables.contains_key(uppercased(#[trigger] tables[k]))
        &&& forall|c: int| 0 <= c < cols.len() ==> !stands(cols.take(c), (#[trigger] cols[c]).name)
        &&& columns matches ColumnsView::List(names) && exists|k: int|
            0 <= k < names.len() && stands_nowhere(cols, #[trigger] names[k]) && e == ErrorView::NoColumn(names[k])
                && forall|j: int| 0 <= j < k ==> !stands_nowhere(cols, #[trigger] names[j])
    }
}

/// A SELECT can be answered: every table exists, no name of a column occurs twice, and every column that
/// is asked for exists.
pub open spec fn answerable(db: DbView, tables: Seq<Seq<char>>, columns: ColumnsView) -> bool {
    let cols = joined_cols(db, tables);
    &&& forall|k: int| 0 <= k < tables.len() ==> db.tables.contains_key(uppercased(#[trigger] tables[k]))
    &&& forall|c: int| 0 <= c < cols.len() ==> !stands(cols.take(c), (#[trigger] cols[c]).name)
    &&& columns matches ColumnsView::List(names) ==> forall|k: int|
        0 <= k < names.len() ==> !stands_nowhere(cols, #[trigger] names[k])
}

/// SELECT: the columns that are asked for, of every combination of rows of the tables that meets the
/// condition, each once. It is refused exactly if it cannot be answered. Nothing is changed.
#[verifier::spinoff_prover]
#[verifier::rlimit(50)]
pub proof fn select_statement(
    a: Engine,
    b: Engine,
    columns: ColumnsView,
    tables: Seq<Seq<char>>,
    condition: Option<ExprView>,
    r: Result<QueryResult, Error>,
    t: Tables,
    t2: Tables,
)
    requires
        ran(a, b, StatementView::Select { columns, tables, condition }, r, t, t2),
    ensures
        t2@ == t@,
        match r {
            Ok(q) => {
                &&& q is Rows
                &&& answerable(t@, tables, columns)
                &&& exists|combos: Seq<Seq<u64>>| #[trigger]
                    answers(rows_view(q->Rows_0@), t@, tables, columns, condition, combos)
            },
            Err(e) => unreadable(t, e@) || (select_refused(t@, tables, columns, e@) && !answerable(t@, tables, columns)),
        },
{
    let db = t@;
    t.all_in_order();
    why_refused(db, tables, columns);
    if r is Ok {
        let rows = rows_view(r->Ok_0->Rows_0@);
        let ts = tables_of(db, tables);
        let via = ways(db, tables, condition);
        let combos = choose|combos: Seq<Seq<u64>>| #[trigger]
            selection(rows, combos, ts, columns, condition, via);
        select_answers(db, tables, columns, condition, rows, combos);
        assert(answers(rows, db, tables, columns, condition, combos));
    }
}

proof fn glued<A>(ss: Seq<Seq<A>>)
    ensures
        concat(ss) == ss.flatten(),
    decreases ss.len(),
{
    ss.lemma_flatten_and_flatten_alt_are_equivalent();
    if ss.len() > 0 {
        glued(ss.drop_last());
        ss.drop_last().lemma_flatten_and_flatten_alt_are_equivalent();
    }
}

proof fn glued_cols(db: DbView, tables: Seq<Seq<char>>)
    ensures
        concat(schemas_of(tables_of(db, tables))) == joined_cols(db, tables),
{
    let ss = Seq::new(tables.len(), |k: int| db.tables[uppercased(tables[k])].cols);
    assert(schemas_of(tables_of(db, tables)) =~= ss);
    glued(ss);
}

proof fn joins_picked(db: DbView, tables: Seq<Seq<char>>, condition: Option<ExprView>, ids: Seq<u64>)
    ensures
        picked(tables_of(db, tables), condition, ids) <==> joins(db, tables, condition, ids),
        ids.len() == tables.len() ==> concat(rows_at(tables_of(db, tables), ids)) == joined_row(db, tables, ids),
{
    let ts = tables_of(db, tables);
    glued_cols(db, tables);
    if ids.len() == tables.len() {
        let ss = Seq::new(tables.len(), |k: int| db.tables[uppercased(tables[k])].rows[ids[k]]);
        assert(rows_at(ts, ids) =~= ss);
        glued(ss);
        if joins(db, tables, condition, ids) {
            assert forall|k: int| 0 <= k < ids.len() implies ts[k].rows.contains_key(#[trigger] ids[k]) by {
                assert(db.tables[uppercased(tables[k])].rows.contains_key(ids[k]));
            }
        }
        if picked(ts, condition, ids) {
            assert forall|k: int| 0 <= k < tables.len() implies db.tables[uppercased(
                #[trigger] tables[k],
            )].rows.contains_key(ids[k]) by {
                assert(ts[k].rows.contains_key(ids[k]));
            }
        }
    }
}

#[verifier::spinoff_prover]
#[verifier::rlimit(50)]
proof fn select_answers(
    db: DbView,
    tables: Seq<Seq<char>>,
    columns: ColumnsView,
    condition: Option<ExprView>,
    rows: Seq<Seq<ValueView>>,
    combos: Seq<Seq<u64>>,
)
    requires
        selection(rows, combos, tables_of(db, tables), columns, condition, ways(db, tables, condition)),
        forall|k: int| 0 <= k < tables.len() ==> db.tables.contains_key(uppercased(#[trigger] tables[k])),
        forall|n: Seq<char>| #[trigger] db.tables.contains_key(n) ==> table_ok(db.tables[n]),
    ensures
        answers(rows, db, tables, columns, condition, combos),
{
    let ts = tables_of(db, tables);
    let via = ways(db, tables, condition);
    let cols = joined_cols(db, tables);
    glued_cols(db, tables);
    assert forall|ids: Seq<u64>| #[trigger] combos.contains(ids) implies joins(db, tables, condition, ids) by {
        let i = choose|i: int| 0 <= i < combos.len() && combos[i] == ids;
        assert(picked(ts, condition, combos[i]));
        joins_picked(db, tables, condition, ids);
    }
    assert forall|ids: Seq<u64>| #[trigger]
        joins(db, tables, condition, ids) && tables.len() > 0 implies combos.contains(ids) by {
        joins_picked(db, tables, condition, ids);
    }
    assert forall|i: int| 0 <= i < rows.len() implies shows(
        #[trigger] rows[i],
        columns,
        joined_row(db, tables, combos[i]),
        cols,
    ) by {
        let ids = combos[i];
        assert(picked(ts, condition, combos[i]));
        joins_picked(db, tables, condition, ids);
        let row = joined_row(db, tables, ids);
        assert(rows[i] == at_places(row, chosen(columns, cols)));
        match columns {
            ColumnsView::Star => {
                let rs = rows_at(ts, ids);
                let ss = schemas_of(ts);
                assert forall|k: int| 0 <= k < rs.len() implies (#[trigger] rs[k]).len() == ss[k].len() by {
                    assert(ts[k].rows.contains_key(ids[k]));
                    assert(db.tables.contains_key(uppercased(tables[k])));
                }
                concat_aligned(rs, ss, rs.len() as int);
                assert(rs.take(rs.len() as int) =~= rs);
                assert(ss.take(rs.len() as int) =~= ss);
                assert(rows[i] =~= row);
            },
            ColumnsView::List(names) => {
                assert forall|j: int, c: int| #![trigger stands_at(cols, names[j], c)]
                    0 <= j < names.len() && stands_at(cols, names[j], c) implies rows[i][j] == row[c] by {
                    place_of_name(cols, names[j]);
                }
            },
        }
    }
    if db.indexes == Map::<Seq<char>, IndexView>::empty() {
        assert forall|i: int, j: int| 0 <= i < j < combos.len() implies smaller(
            #[trigger] combos[i],
            #[trigger] combos[j],
        ) by {
            assert(ids_before(ts, via, combos[i], combos[j]));
            let x = combos[i];
            let y = combos[j];
            assert(picked(ts, condition, combos[i]));
            let k = choose|k: int|
                0 <= k < x.len() && k < y.len() && x.take(k) == y.take(k) && #[trigger] comes_before(
                    ts[k],
                    via[k],
                    x[k],
                    y[k],
                );
            assert(via[k] is None);
            assert(x[k] < y[k]);
        }
    }
}

proof fn why_refused(db: DbView, tables: Seq<Seq<char>>, columns: ColumnsView)
    ensures
        match select_error(db, tables, columns) {
            None => answerable(db, tables, columns),
            Some(e) => select_refused(db, tables, columns, e) && !answerable(db, tables, columns),
        },
{
    let cols = joined_cols(db, tables);
    glued_cols(db, tables);
    which_missing(db, tables, 0);
    if first_missing(db, tables, 0) is None {
        which_repeat(cols, 0);
        match columns {
            ColumnsView::List(names) => {
                which_unknown(names, cols, 0);
            },
            ColumnsView::Star => {},
        }
    }
}

proof fn which_missing(db: DbView, names: Seq<Seq<char>>, i: int)
    requires
        0 <= i <= names.len(),
    ensures
        match first_missing(db, names, i) {
            None => forall|k: int| i <= k < names.len() ==> db.tables.contains_key(uppercased(#[trigger] names[k])),
            Some(n) => exists|k: int|
                i <= k < names.len() && !db.tables.contains_key(uppercased(#[trigger] names[k])) && n == names[k]
                    && forall|j: int| i <= j < k ==> db.tables.contains_key(uppercased(#[trigger] names[j])),
        },
    decreases names.len() - i,
{
    if i < names.len() && db.tables.contains_key(uppercased(names[i])) {
        which_missing(db, names, i + 1);
        if first_missing(db, names, i) is Some {
            let n = first_missing(db, names, i)->Some_0;
            let k = choose|k: int|
                i + 1 <= k < names.len() && !db.tables.contains_key(uppercased(#[trigger] names[k])) && n == names[k]
                    && forall|j: int| i + 1 <= j < k ==> db.tables.contains_key(uppercased(#[trigger] names[j]));
            assert(!db.tables.contains_key(uppercased(names[k])));
        }
    } else if i < names.len() {
        assert(!db.tables.contains_key(uppercased(names[i])));
    }
}

proof fn which_repeat(cols: Seq<ColumnView>, i: int)
    requires
        0 <= i <= cols.len(),
    ensures
        match first_repeat(cols, i) {
            None => forall|c: int| i <= c < cols.len() ==> !stands(cols.take(c), (#[trigger] cols[c]).name),
            Some(n) => exists|c: int|
                i <= c < cols.len() && stands(cols.take(c), (#[trigger] cols[c]).name) && n == cols[c].name
                    && forall|d: int| i <= d < c ==> !stands(cols.take(d), (#[trigger] cols[d]).name),
        },
    decreases cols.len() - i,
{
    if i < cols.len() {
        let before = cols.take(i);
        column_found(before, cols[i].name, 0);
        assert(stands(before, cols[i].name) <==> column_of(before, cols[i].name) is Some) by {
            if column_of(before, cols[i].name) is Some {
                let p = column_of(before, cols[i].name)->Some_0;
                assert(before[p].name == cols[i].name);
            }
        }
        if column_of(before, cols[i].name) is None {
            which_repeat(cols, i + 1);
            if first_repeat(cols, i) is Some {
                let n = first_repeat(cols, i)->Some_0;
                let c = choose|c: int|
                    i + 1 <= c < cols.len() && stands(cols.take(c), (#[trigger] cols[c]).name) && n == cols[c].name
                        && forall|d: int| i + 1 <= d < c ==> !stands(cols.take(d), (#[trigger] cols[d]).name);
                assert(stands(cols.take(c), cols[c].name));
            }
        }
    }
}

proof fn which_unknown(names: Seq<Seq<char>>, cols: Seq<ColumnView>, i: int)
    requires
        0 <= i <= names.len(),
    ensures
        match first_unknown(names, cols, i) {
            None => forall|k: int| i <= k < names.len() ==> !stands_nowhere(cols, #[trigger] names[k]),
            Some(n) => exists|k: int|
                i <= k < names.len() && stands_nowhere(cols, #[trigger] names[k]) && n == names[k] && forall|j: int|
                    i <= j < k ==> !stands_nowhere(cols, #[trigger] names[j]),
        },
    decreases names.len() - i,
{
    if i < names.len() {
        place_of_name(cols, names[i]);
        if column_of(cols, names[i]) is Some {
            which_unknown(names, cols, i + 1);
            if first_unknown(names, cols, i) is Some {
                let n = first_unknown(names, cols, i)->Some_0;
                let k = choose|k: int|
                    i + 1 <= k < names.len() && stands_nowhere(cols, #[trigger] names[k]) && n == names[k]
                        && forall|j: int| i + 1 <= j < k ==> !stands_nowhere(cols, #[trigger] names[j]);
                assert(stands_nowhere(cols, names[k]));
            }
        } else {
            assert(stands_nowhere(cols, names[i]));
        }
    }
}

/// The tables of a database after a statement that succeeds.
pub open spec fn leads_to(db: DbView, stmt: StatementView, to: DbView) -> bool {
    match stmt {
        StatementView::CreateTable { name, columns } => table_created(db, name, columns) == Ok::<DbView, ErrorView>(to),
        StatementView::DropTable { name } => table_dropped(db, name) == Ok::<DbView, ErrorView>(to),
        StatementView::CreateIndex { name, table, column } => index_created(db, name, table, column) == Ok::<
            DbView,
            ErrorView,
        >(to),
        StatementView::DropIndex { name } => index_dropped(db, name) == Ok::<DbView, ErrorView>(to),
        StatementView::Insert { table, columns, values } => row_inserted(db, table, columns, values) == Ok::<
            DbView,
            ErrorView,
        >(to),
        StatementView::Update { table, assignments, condition } => rows_updated(db, table, assignments, condition)
            matches Ok((x, _)) && x == to,
        StatementView::Delete { table, condition } => rows_deleted(db, table, condition) matches Ok((x, _)) && x == to,
        _ => false,
    }
}

/// How many pages a statement takes at most: a whole path of a tree for each entry that is written, and
/// none where nothing is added.
pub open spec fn pages_for(db: DbView, stmt: StatementView) -> nat {
    match stmt {
        StatementView::CreateTable { .. } => create_table_pages(),
        StatementView::CreateIndex { table, .. } => create_index_pages(db, table),
        StatementView::Insert { table, .. } => insert_pages(db, table),
        StatementView::Update { table, condition, .. } => update_pages(db, table, condition),
        _ => 0,
    }
}

/// A statement that can be done is done where all that the database holds before and after fits into
/// pages, and enough pages are left. What it gives is then in the database, which still fits.
#[verifier::spinoff_prover]
#[verifier::rlimit(50)]
pub proof fn with_room_it_is_done(
    a: Engine,
    b: Engine,
    stmt: StatementView,
    r: Result<QueryResult, Error>,
    t: Tables,
    t2: Tables,
    to: DbView,
    stock: Stock,
)
    requires
        ran(a, b, stmt, r, t, t2),
        leads_to(t@, stmt, to),
        t.all_fit(),
        t.holds_in(stock),
        covers(stock, t@),
        covers(stock, to),
        roomy(stock),
        t.pages_left() >= pages_for(t@, stmt),
    ensures
        r is Ok,
        t2.wf(),
        t2@ == to,
        t2.all_fit(),
        t2.holds_in(stock),
        t2.pages_left() + pages_for(t@, stmt) >= t.pages_left(),
{
}

/// A SELECT or a listing is answered where all pages fit, whatever else is the case.
pub proof fn reading_needs_no_room(
    a: Engine,
    b: Engine,
    stmt: StatementView,
    r: Result<QueryResult, Error>,
    t: Tables,
    t2: Tables,
)
    requires
        ran(a, b, stmt, r, t, t2),
        t.all_fit(),
        stmt is Select || stmt is ShowTables,
    ensures
        stmt is ShowTables ==> r is Ok,
        stmt matches StatementView::Select { columns, tables, .. } ==> (r is Ok <==> answerable(t@, tables, columns)),
        t2@ == t@,
        t2.all_fit(),
{
    if stmt is Select {
        why_refused(t@, stmt->tables, stmt->Select_columns);
    }
}

/// Statements on tables need a database in use, and change nothing without one.
pub proof fn tables_need_a_database(a: Engine, b: Engine, stmt: StatementView, r: Result<QueryResult, Error>)
    requires
        outcome(a, b, stmt, r),
        a.in_use() is None,
        !(stmt is CreateDatabase || stmt is DropDatabase || stmt is ShowDatabases || stmt is UseDatabase),
    ensures
        r matches Err(e) && e@ == ErrorView::NoDatabase,
        b == a,
{
}

/// A statement on tables touches no other database, and leaves the same one in use.
pub proof fn other_databases_are_left_alone(
    a: Engine,
    b: Engine,
    stmt: StatementView,
    r: Result<QueryResult, Error>,
    n: Seq<char>,
)
    requires
        outcome(a, b, stmt, r),
        !(stmt is CreateDatabase || stmt is DropDatabase || stmt is UseDatabase),
        a@.current != Some(n),
        a.wf(),
    ensures
        b@.current == a@.current,
        b@.dbs.contains_key(n) <==> a@.dbs.contains_key(n),
        a@.dbs.contains_key(n) ==> b@.dbs[n] == a@.dbs[n],
        b.dropped() == a.dropped(),
{
    a.current_known();
    if a.in_use() is Some && !(stmt is ShowDatabases) {
        let c = a@.current->Some_0;
        assert(b@.dbs.remove(c).contains_key(n) == a@.dbs.remove(c).contains_key(n));
        if a@.dbs.contains_key(n) {
            assert(b@.dbs.remove(c)[n] == a@.dbs.remove(c)[n]);
        }
    }
}

/// CREATE DATABASE: there is a database of this name, empty, with room for what there is room for, and all others are as they were; which one is
/// in use is the same. A name that is taken is refused, and nothing is changed.
pub proof fn create_database_statement(
    a: Engine,
    b: Engine,
    name: Seq<char>,
    r: Result<QueryResult, Error>,
    m: Seq<char>,
)
    requires
        a.wf(),
        outcome(a, b, StatementView::CreateDatabase { name }, r),
    ensures
        r is Ok <==> !a@.dbs.contains_key(uppercased(name)),
        r matches Ok(q) ==> {
            &&& q is Success
            &&& b@.dbs.contains_key(uppercased(name))
            &&& (b@.dbs[uppercased(name)] matches Some(db) && db.tables.dom() == Set::<Seq<char>>::empty()
                && db.indexes.dom() == Set::<Seq<char>>::empty())
            &&& m != uppercased(name) ==> (b@.dbs.contains_key(m) <==> a@.dbs.contains_key(m))
            &&& m != uppercased(name) && a@.dbs.contains_key(m) ==> b@.dbs[m] == a@.dbs[m]
            &&& b.left(uppercased(name)) == u32::MAX - 2
            &&& forall|stock: Stock| #[trigger] b.within(uppercased(name), stock)
        },
        r matches Err(e) ==> e@ == ErrorView::DatabaseExists(name) && b == a,
        b@.current == a@.current,
        b.in_use() == a.in_use(),
        b.dropped() == a.dropped(),
{
}

/// DROP DATABASE: the database is gone, and its name is added to those of the dropped ones; it is no longer
/// in use if it was. All others are as they were. An unknown name is refused, and nothing is changed.
pub proof fn drop_database_statement(
    a: Engine,
    b: Engine,
    name: Seq<char>,
    r: Result<QueryResult, Error>,
    m: Seq<char>,
)
    requires
        a.wf(),
        outcome(a, b, StatementView::DropDatabase { name }, r),
    ensures
        r is Ok <==> a@.dbs.contains_key(uppercased(name)),
        r matches Ok(q) ==> {
            &&& q is Success
            &&& !b@.dbs.contains_key(uppercased(name))
            &&& m != uppercased(name) ==> (b@.dbs.contains_key(m) <==> a@.dbs.contains_key(m))
            &&& m != uppercased(name) && a@.dbs.contains_key(m) ==> b@.dbs[m] == a@.dbs[m]
            &&& b.dropped() == a.dropped().push(uppercased(name))
            &&& a@.current == Some(uppercased(name)) ==> b@.current is None && b.in_use() is None
            &&& a@.current != Some(uppercased(name)) ==> b@.current == a@.current && b.in_use() == a.in_use()
        },
        r matches Err(e) ==> e@ == ErrorView::NoSuchDatabase(name) && b == a,
{
}

/// SHOW DATABASES: a row with the name of each database, each once, in ascending order of their bytes.
/// Nothing is changed.
pub proof fn show_databases_statement(
    a: Engine,
    b: Engine,
    r: Result<QueryResult, Error>,
    n: Seq<char>,
)
    requires
        a.wf(),
        outcome(a, b, StatementView::ShowDatabases, r),
    ensures
        b == a,
        r matches Ok(q) && q is Rows && {
            let rows = rows_view(q->Rows_0@);
            &&& a@.dbs.contains_key(n) <==> rows.contains(seq![ValueView::Text(n)])
            &&& forall|i: int| 0 <= i < rows.len() ==> (#[trigger] rows[i]).len() == 1 && rows[i][0] is Text
            &&& forall|i: int, j: int|
                0 <= i < j < rows.len() ==> lt(
                    text_bytes((#[trigger] rows[i])[0]->Text_0),
                    text_bytes((#[trigger] rows[j])[0]->Text_0),
                )
        },
{
    let rows = rows_view(r->Ok_0->Rows_0@);
    assert forall|i: int| 0 <= i < rows.len() implies (#[trigger] rows[i]).len() == 1 && rows[i][0] is Text by {
        assert(rows[i] == seq![ValueView::Text(name_in(rows[i]))]);
    }
    assert forall|i: int, j: int| 0 <= i < j < rows.len() implies lt(
        text_bytes((#[trigger] rows[i])[0]->Text_0),
        text_bytes((#[trigger] rows[j])[0]->Text_0),
    ) by {
        assert(lt(text_bytes(name_in(rows[i])), text_bytes(name_in(rows[j]))));
    }
    if rows.contains(seq![ValueView::Text(n)]) {
        let i = choose|i: int| 0 <= i < rows.len() && rows[i] == seq![ValueView::Text(n)];
        assert(rows[i][0] == ValueView::Text(n));
        assert(rows[i] == seq![ValueView::Text(name_in(rows[i]))]);
    }
    if a@.dbs.contains_key(n) {
        let i = choose|i: int| 0 <= i < rows.len() && name_in(#[trigger] rows[i]) == n;
        assert(rows[i] == seq![ValueView::Text(name_in(rows[i]))]);
    }
}

/// USE: the database of this name is the one in use, with what it is known to hold. An unknown name is
/// refused, and nothing is changed. A database that is known can be used.
pub proof fn use_statement(a: Engine, b: Engine, name: Seq<char>, r: Result<QueryResult, Error>)
    requires
        a.wf(),
        outcome(a, b, StatementView::UseDatabase { name }, r),
    ensures
        !a@.dbs.contains_key(uppercased(name)) ==> (r matches Err(e) && e@ == ErrorView::NoSuchDatabase(name)),
        a@.dbs.contains_key(uppercased(name)) && a@.dbs[uppercased(name)] is Some ==> r is Ok,
        a@.dbs.contains_key(uppercased(name)) ==> done_or_storage(r),
        r is Err ==> b == a,
        r matches Ok(q) ==> {
            &&& q is Success
            &&& b@.current == Some(uppercased(name))
            &&& b.in_use() is Some
            &&& a@.dbs[uppercased(name)] matches Some(db) ==> b.in_use()->Some_0.wf() && b.in_use()->Some_0@ == db
        },
        b.dropped() == a.dropped(),
{
    a.current_known();
}

/// A SELECT of one table by a single comparison of a column of integers that has an index gives the rows in
/// the order of these integers.
#[verifier::spinoff_prover]
#[verifier::rlimit(50)]
pub proof fn indexed_rows_come_in_order(
    a: Engine,
    b: Engine,
    table: Seq<char>,
    column: Seq<char>,
    op: Operator,
    value: ValueView,
    q: QueryResult,
    t: Tables,
    t2: Tables,
    m: Seq<char>,
    c: int,
    i: int,
    j: int,
)
    requires
        ran(
            a,
            b,
            StatementView::Select {
                columns: ColumnsView::Star,
                tables: seq![table],
                condition: Some(ExprView::Comparison { column, op, value }),
            },
            Ok(q),
            t,
            t2,
        ),
        op != Operator::Ne,
        t@.indexes.contains_key(m),
        uppercased(t@.indexes[m].table) == uppercased(table),
        t@.indexes[m].column == column,
        stands_at(t@.tables[uppercased(table)].cols, column, c),
        t@.tables[uppercased(table)].cols[c].data_type == DataType::Integer,
        0 <= i < j < q->Rows_0@.len(),
    ensures
        (rows_view(q->Rows_0@)[i][c] matches ValueView::Integer(x) && rows_view(q->Rows_0@)[j][c]
            matches ValueView::Integer(y)) ==> rows_view(q->Rows_0@)[i][c]->Integer_0 <= rows_view(
            q->Rows_0@,
        )[j][c]->Integer_0,
{
    let db = t@;
    let names = seq![table];
    let rows = rows_view(q->Rows_0@);
    let ts = tables_of(db, names);
    let cond = ExprView::Comparison { column, op, value };
    let via = ways(db, names, Some(cond));
    let combos = choose|combos: Seq<Seq<u64>>| #[trigger]
        selection(rows, combos, ts, ColumnsView::Star, Some(cond), via);
    let cols = db.tables[uppercased(table)].cols;
    t.all_in_order();
    why_refused(db, names, ColumnsView::Star);
    assert(db.tables.contains_key(uppercased(names[0])));
    place_of_name(cols, column);
    select_answers(db, names, ColumnsView::Star, Some(cond), rows, combos);
    assert(picked(ts, Some(cond), combos[i]));
    assert(picked(ts, Some(cond), combos[j]));
    let x = combos[i];
    let y = combos[j];
    joins_picked(db, names, Some(cond), x);
    joins_picked(db, names, Some(cond), y);
    let p = db.tables[uppercased(table)].rows[x[0]];
    let r = db.tables[uppercased(table)].rows[y[0]];
    assert(joined_row(db, names, x) == p) by {
        let ss = Seq::new(names.len(), |k: int| db.tables[uppercased(names[k])].rows[x[k]]);
        ss.lemma_flatten_one_element();
    }
    assert(joined_row(db, names, y) == r) by {
        let ss = Seq::new(names.len(), |k: int| db.tables[uppercased(names[k])].rows[y[k]]);
        ss.lemma_flatten_one_element();
    }
    assert(rows[i] == p && rows[j] == r);
    let schemas = schemas_of(ts);
    assert(schemas[0] == cols);
    assert(owner_of(schemas, column) == Some(0int));
    let locals = locals_of(Some(cond), schemas);
    assert(locals[0] == Some(cond));
    assert(indexes_on(db, table).contains(m));
    assert(serves(db, table, column, op));
    assert(via[0] == Some(c));
    assert(ids_before(ts, via, x, y));
    let k = choose|k: int|
        0 <= k < x.len() && k < y.len() && x.take(k) == y.take(k) && #[trigger] comes_before(ts[k], via[k], x[k], y[k]);
    assert(k == 0);
    assert(lt(index_entry(p[c], x[0]), index_entry(r[c], y[0])));
    if p[c] is Integer && r[c] is Integer {
        entries_of_integers_in_order(p[c]->Integer_0, x[0], r[c]->Integer_0, y[0]);
    }
}

proof fn entries_of_integers_in_order(x: i64, a: u64, y: i64, b: u64)
    requires
        lt(index_entry(ValueView::Integer(x), a), index_entry(ValueView::Integer(y), b)),
    ensures
        x <= y,
{
    let p = ValueView::Integer(x);
    let r = ValueView::Integer(y);
    if x > y {
        integer_keys_keep_order(y, x);
        extension_keeps_order(encode(r), encode(p), le64(b), le64(a));
        lt_asymmetric(index_entry(p, a), index_entry(r, b));
    }
}

/// In a join a comparison is of the row of the first table that has the column.
#[verifier::spinoff_prover]
#[verifier::rlimit(50)]
pub proof fn comparison_in_a_join_is_of_its_table(
    db: DbView,
    tables: Seq<Seq<char>>,
    ids: Seq<u64>,
    column: Seq<char>,
    op: Operator,
    value: ValueView,
    k: int,
    c: int,
)
    requires
        ids.len() == tables.len(),
        forall|n: Seq<char>| #[trigger] db.tables.contains_key(n) ==> table_ok(db.tables[n]),
        forall|j: int|
            0 <= j < tables.len() ==> db.tables.contains_key(uppercased(#[trigger] tables[j]))
                && db.tables[uppercased(tables[j])].rows.contains_key(ids[j]),
        0 <= k < tables.len(),
        stands_at(db.tables[uppercased(tables[k])].cols, column, c),
        forall|j: int| 0 <= j < k ==> stands_nowhere(db.tables[uppercased(#[trigger] tables[j])].cols, column),
    ensures
        meets(
            ExprView::Comparison { column, op, value },
            joined_row(db, tables, ids),
            joined_cols(db, tables),
        ) <==> compares(op, db.tables[uppercased(tables[k])].rows[ids[k]][c], value) == Some(true),
{
    let ts = tables_of(db, tables);
    let rs = rows_at(ts, ids);
    let ss = schemas_of(ts);
    glued_cols(db, tables);
    joins_picked(db, tables, None, ids);
    assert forall|j: int| 0 <= j < rs.len() implies (#[trigger] rs[j]).len() == ss[j].len() by {
        assert(db.tables.contains_key(uppercased(tables[j])));
    }
    assert forall|j: int| 0 <= j < k implies column_of(#[trigger] ss[j], column) is None by {
        assert(stands_nowhere(db.tables[uppercased(tables[j])].cols, column));
        place_of_name(ss[j], column);
    }
    place_of_name(ss[k], column);
    assert(ss[k] == db.tables[uppercased(tables[k])].cols);
    assert(rs[k] == db.tables[uppercased(tables[k])].rows[ids[k]]);
    comparison_local(rs, ss, column, op, value);
    owner_found(ss, column, 0);
    assert(owner_of(ss, column) == Some(k));
}

/// The strings among values are so short that their lengths can be written in four bytes.
pub open spec fn all_short(values: Seq<ValueView>) -> bool {
    forall|i: int| 0 <= i < values.len() ==> text_bytes(string_in(#[trigger] values[i])).len() <= u32::MAX
}

/// CREATE TABLE can be done exactly if the name is free, and the number of columns and the lengths of their
/// names can be written in two bytes.
pub proof fn tables_that_can_be_created(db: DbView, name: Seq<char>, columns: Seq<ColumnView>)
    ensures
        table_created(db, name, columns) is Ok <==> !db.tables.contains_key(uppercased(name)) && columns.len() <= 65535
            && forall|i: int| 0 <= i < columns.len() ==> text_bytes((#[trigger] columns[i]).name).len() <= 65535,
{
}

/// CREATE INDEX can be done exactly if the table and the column exist, the column holds integers or
/// strings, and the names can be written.
pub proof fn indexes_that_can_be_created(db: DbView, name: Seq<char>, table: Seq<char>, column: Seq<char>)
    ensures
        index_created(db, name, table, column) is Ok <==> {
            let cols = db.tables[uppercased(table)].cols;
            &&& db.tables.contains_key(uppercased(table))
            &&& text_bytes(table).len() <= u32::MAX
            &&& text_bytes(column).len() <= u32::MAX
            &&& exists|c: int| #[trigger]
                stands_at(cols, column, c) && !(cols[c].data_type is Float) && !(cols[c].data_type is Boolean)
        },
{
    let cols = db.tables[uppercased(table)].cols;
    place_of_name(cols, column);
    if column_of(cols, column) is Some {
        assert(stands_at(cols, column, column_of(cols, column)->Some_0));
    }
}

/// DROP TABLE, DROP INDEX and DELETE can be done exactly if what they name exists, and no index is left on
/// the table.
pub proof fn what_can_be_dropped(db: DbView, name: Seq<char>, condition: ExprView)
    ensures
        table_dropped(db, name) is Ok <==> db.tables.contains_key(uppercased(name)) && forall|m: Seq<char>| #[trigger]
            db.indexes.contains_key(m) ==> uppercased(db.indexes[m].table) != uppercased(name),
        index_dropped(db, name) is Ok <==> db.indexes.contains_key(uppercased(name)),
        rows_deleted(db, name, condition) is Ok <==> db.tables.contains_key(uppercased(name)),
{
    if is_indexed(db, name) {
        let m = choose|m: Seq<char>| #[trigger]
            db.indexes.contains_key(m) && uppercased(db.indexes[m].table) == uppercased(name);
        assert(db.indexes.contains_key(m));
    }
}

/// INSERT can be done if the table exists, the values can be a row of it, and their strings are not too
/// long; until all numbers of rows have been given out.
pub proof fn rows_that_can_be_inserted(
    db: DbView,
    table: Seq<char>,
    columns: Option<Seq<Seq<char>>>,
    values: Seq<ValueView>,
)
    ensures
        db.tables.contains_key(uppercased(table)) && db.tables[uppercased(table)].next < u64::MAX && all_short(values)
            && !no_row(columns, values, db.tables[uppercased(table)].cols) ==> row_inserted(db, table, columns, values)
            is Ok,
{
    let cols = db.tables[uppercased(table)].cols;
    match columns {
        None => {
            insert_takes_the_columns_in_order(values, cols, table);
            if new_row(columns, values, cols, table) is Ok && all_short(values) {
                kept_short(values, cols);
            }
        },
        Some(names) => {
            insert_refuses_the_first_misfit(names, values, cols, table);
            if new_row(columns, values, cols, table) is Ok && all_short(values) {
                filled_short(nulls(cols.len()), names, values, cols, table, 0);
                kept_short(filled(nulls(cols.len()), names, values, cols, table, 0)->Ok_0, cols);
            }
        },
    }
}

proof fn kept_short(row: Seq<ValueView>, cols: Seq<ColumnView>)
    requires
        all_short(row),
    ensures
        row_storable(kept_row(row, cols)),
{
    assert forall|i: int| 0 <= i < kept_row(row, cols).len() implies value_storable(#[trigger] kept_row(row, cols)[i]) by {
        assert(text_bytes(string_in(row[i])).len() <= u32::MAX);
    }
}

proof fn filled_short(
    row: Seq<ValueView>,
    names: Seq<Seq<char>>,
    values: Seq<ValueView>,
    cols: Seq<ColumnView>,
    table: Seq<char>,
    i: int,
)
    requires
        i == 0 ==> row == nulls(cols.len()),
        i != 0 ==> all_short(row),
        row.len() == cols.len(),
        all_short(values),
    ensures
        filled(row, names, values, cols, table, i) matches Ok(r) ==> all_short(r),
    decreases names.len() - i,
{
    if i == 0 {
        nothing_short(row);
    }
    if 0 <= i < names.len() && i < values.len() && filled(row, names, values, cols, table, i) is Ok {
        place_of_name(cols, names[i]);
        let p = column_of(cols, names[i])->Some_0;
        assert(stands_at(cols, names[i], p));
        let next = row.update(p, values[i]);
        assert forall|k: int| 0 <= k < next.len() implies text_bytes(string_in(#[trigger] next[k])).len() <= u32::MAX by {
            if k == p {
                assert(next[k] == values[i]);
            } else {
                assert(next[k] == row[k]);
            }
        }
        filled_short(next, names, values, cols, table, i + 1);
    }
}

proof fn nothing_short(row: Seq<ValueView>)
    requires
        row == nulls(row.len()),
    ensures
        all_short(row),
{
    assert forall|k: int| 0 <= k < row.len() implies text_bytes(string_in(#[trigger] row[k])).len() <= u32::MAX by {
        assert(nulls(row.len())[k] == ValueView::Null);
        assert(string_in(row[k]) =~= Seq::empty());
        assert(text_bytes(Seq::empty()).len() == 0);
    }
}

/// UPDATE can be done if the table exists, every assignment can be made, and their strings are not too
/// long; or if no row meets the condition.
pub proof fn rows_that_can_be_updated(
    db: DbView,
    table: Seq<char>,
    assignments: Seq<AssignmentView>,
    condition: ExprView,
)
    ensures
        ({
            let t = db.tables[uppercased(table)];
            &&& db.tables.contains_key(uppercased(table)) && (forall|k: int|
                0 <= k < assignments.len() ==> !misassigned(#[trigger] assignments[k], t.cols) && text_bytes(
                    string_in(assignments[k].value),
                ).len() <= u32::MAX) ==> rows_updated(db, table, assignments, condition) is Ok
            &&& db.tables.contains_key(uppercased(table)) && (forall|id: u64| #[trigger]
                t.rows.contains_key(id) ==> !meets(condition, t.rows[id], t.cols)) ==> rows_updated(
                db,
                table,
                assignments,
                condition,
            ) is Ok
        }),
{
    let t = db.tables[uppercased(table)];
    let row = nulls(t.cols.len());
    if forall|id: u64| #[trigger] t.rows.contains_key(id) ==> !meets(condition, t.rows[id], t.cols) {
        assert(matching(t, condition) =~= Set::<u64>::empty());
    }
    if forall|k: int|
        0 <= k < assignments.len() ==> !misassigned(#[trigger] assignments[k], t.cols) && text_bytes(
            string_in(assignments[k].value),
        ).len() <= u32::MAX {
        update_refuses_the_first_misfit(row, assignments, t.cols);
        nothing_short(row);
        assigned_short(row, assignments, t.cols, 0);
        kept_short(assigned(row, assignments, t.cols, 0)->Ok_0, t.cols);
    }
}

proof fn assigned_short(row: Seq<ValueView>, assignments: Seq<AssignmentView>, cols: Seq<ColumnView>, i: int)
    requires
        all_short(row),
        row.len() == cols.len(),
        forall|k: int|
            0 <= k < assignments.len() ==> text_bytes(string_in((#[trigger] assignments[k]).value)).len() <= u32::MAX,
    ensures
        assigned(row, assignments, cols, i) matches Ok(r) ==> all_short(r),
    decreases assignments.len() - i,
{
    if 0 <= i < assignments.len() && assigned(row, assignments, cols, i) is Ok {
        place_of_name(cols, assignments[i].column);
        let p = column_of(cols, assignments[i].column)->Some_0;
        assert(stands_at(cols, assignments[i].column, p));
        let next = row.update(p, assignments[i].value);
        assert forall|k: int| 0 <= k < next.len() implies text_bytes(string_in(#[trigger] next[k])).len() <= u32::MAX by {
            if k == p {
                assert(next[k] == assignments[i].value);
            } else {
                assert(next[k] == row[k]);
            }
        }
        assigned_short(next, assignments, cols, i + 1);
    }
}

/// A stock of short keys and entries, of which a page has room for as many as it takes.
pub open spec fn short_stock() -> Stock {
    Stock {
        keys: Set::new(|k: Seq<u8>| k.len() <= 12),
        pairs: Set::new(|p: (Seq<u8>, Seq<u8>)| p.0.len() + p.1.len() <= 32),
        few: false,
    }
}

/// What a database holds is short: the names and descriptions of its tables and indexes, its rows, and the
/// keys of its indexes.
pub open spec fn is_short(db: DbView) -> bool {
    &&& forall|n: Seq<char>| #[trigger]
        db.tables.contains_key(n) ==> text_bytes(n).len() <= 6 && text_bytes(n).len() + table_meta(
            db.tables[n].next,
            db.tables[n].cols,
        ).len() <= 22
    &&& forall|n: Seq<char>, id: u64| #[trigger]
        db.tables[n].rows.contains_key(id) && db.tables.contains_key(n) ==> row_bytes(db.tables[n].rows[id]).len() <= 24
    &&& forall|n: Seq<char>| #[trigger]
        db.indexes.contains_key(n) ==> text_bytes(n).len() <= 6 && text_bytes(n).len() + index_meta(
            db.indexes[n],
        ).len() <= 22
    &&& forall|n: Seq<char>, id: u64| #[trigger]
        db.tables[uppercased(db.indexes[n].table)].rows.contains_key(id) && db.indexes.contains_key(n) ==> encode(
            db.tables[uppercased(db.indexes[n].table)].rows[id][index_col(db, db.indexes[n])],
        ).len() <= 4
}

/// A database that holds short things only has room for them.
pub proof fn short_databases_have_room(db: DbView)
    requires
        is_short(db),
    ensures
        covers(short_stock(), db),
        roomy(short_stock()),
{
    let stock = short_stock();
    short_entries_are_roomy(stock);
    assert forall|n: Seq<char>| #[trigger] db.tables.contains_key(n) implies admits_entry(
        stock,
        tkey(n),
        table_meta(db.tables[n].next, db.tables[n].cols),
    ) by {}
    assert forall|n: Seq<char>| #[trigger] db.indexes.contains_key(n) implies admits_entry(
        stock,
        ikey(n),
        index_meta(db.indexes[n]),
    ) by {}
}

/// A statement that leads from a short database to a short one is done while pages are left.
pub proof fn short_statements_are_done(
    a: Engine,
    b: Engine,
    stmt: StatementView,
    r: Result<QueryResult, Error>,
    t: Tables,
    t2: Tables,
    to: DbView,
)
    requires
        ran(a, b, stmt, r, t, t2),
        leads_to(t@, stmt, to),
        t.all_fit(),
        t.holds_in(short_stock()),
        is_short(t@),
        is_short(to),
        t.pages_left() >= pages_for(t@, stmt),
    ensures
        r is Ok,
        t2@ == to,
        t2.all_fit(),
        t2.holds_in(short_stock()),
        t2.pages_left() + pages_for(t@, stmt) >= t.pages_left(),
{
    short_databases_have_room(t@);
    short_databases_have_room(to);
    with_room_it_is_done(a, b, stmt, r, t, t2, to, short_stock());
}

/// How many pages a statement takes at most: seven for each entry that is written, and one more for a tree
/// that is made.
pub proof fn seven_pages_for_an_entry(db: DbView, stmt: StatementView)
    ensures
        match stmt {
            StatementView::CreateTable { .. } => pages_for(db, stmt) == 8,
            StatementView::CreateIndex { table, .. } => pages_for(db, stmt) == 8 + 7
                * db.tables[uppercased(table)].rows.dom().len(),
            StatementView::Insert { table, .. } => pages_for(db, stmt) == 7 + 7 * Set::new(
                |n: Seq<char>| db.indexes.contains_key(n) && uppercased(db.indexes[n].table) == uppercased(table),
            ).len(),
            StatementView::Update { table, condition, .. } => pages_for(db, stmt) == Set::new(
                |id: u64|
                    db.tables[uppercased(table)].rows.contains_key(id) && meets(
                        condition,
                        db.tables[uppercased(table)].rows[id],
                        db.tables[uppercased(table)].cols,
                    ),
            ).len() * (7 * Set::new(
                |n: Seq<char>| db.indexes.contains_key(n) && uppercased(db.indexes[n].table) == uppercased(table),
            ).len()),
            _ => pages_for(db, stmt) == 0,
        },
{
    match stmt {
        StatementView::Insert { table, .. } => {
            assert(indexes_on(db, table) =~= Set::new(
                |n: Seq<char>| db.indexes.contains_key(n) && uppercased(db.indexes[n].table) == uppercased(table),
            ));
        },
        StatementView::Update { table, condition, .. } => {
            assert(indexes_on(db, table) =~= Set::new(
                |n: Seq<char>| db.indexes.contains_key(n) && uppercased(db.indexes[n].table) == uppercased(table),
            ));
            assert(matching(db.tables[uppercased(table)], condition) =~= Set::new(
                |id: u64|
                    db.tables[uppercased(table)].rows.contains_key(id) && meets(
                        condition,
                        db.tables[uppercased(table)].rows[id],
                        db.tables[uppercased(table)].cols,
                    ),
            ));
        },
        _ => {},
    }
}

/// A SELECT of one table without a condition, or with one of parts joined by OR, or of two comparisons of
/// its columns joined by AND, gives the rows in the order of their numbers. So does one with a single
/// comparison that is for inequality, or whose column has no index or holds strings with a width.
#[verifier::spinoff_prover]
#[verifier::rlimit(50)]
pub proof fn other_rows_come_by_number(
    a: Engine,
    b: Engine,
    columns: ColumnsView,
    table: Seq<char>,
    condition: Option<ExprView>,
    q: QueryResult,
    t: Tables,
    t2: Tables,
)
    requires
        ran(a, b, StatementView::Select { columns, tables: seq![table], condition }, Ok(q), t, t2),
        match condition {
            Some(ExprView::Comparison { column, op, .. }) => {
                ||| op == Operator::Ne
                ||| forall|m: Seq<char>| #[trigger]
                    t@.indexes.contains_key(m) && uppercased(t@.indexes[m].table) == uppercased(table)
                        ==> t@.indexes[m].column != column
                ||| exists|c: int| #[trigger]
                    stands_at(t@.tables[uppercased(table)].cols, column, c)
                        && t@.tables[uppercased(table)].cols[c].data_type is Char
            },
            Some(ExprView::And(x, y)) => {
                &&& *x is Comparison
                &&& *y is Comparison
                &&& !stands_nowhere(t@.tables[uppercased(table)].cols, x->column)
                &&& !stands_nowhere(t@.tables[uppercased(table)].cols, y->column)
            },
            _ => true,
        },
    ensures
        exists|combos: Seq<Seq<u64>>| #[trigger]
            answers(rows_view(q->Rows_0@), t@, seq![table], columns, condition, combos) && forall|i: int, j: int|
                0 <= i < j < combos.len() ==> (#[trigger] combos[i])[0] < (#[trigger] combos[j])[0],
{
    let db = t@;
    let names = seq![table];
    let rows = rows_view(q->Rows_0@);
    let ts = tables_of(db, names);
    let via = ways(db, names, condition);
    let combos = choose|combos: Seq<Seq<u64>>| #[trigger] selection(rows, combos, ts, columns, condition, via);
    t.all_in_order();
    why_refused(db, names, columns);
    assert(db.tables.contains_key(uppercased(names[0])));
    select_answers(db, names, columns, condition, rows, combos);
    let cols = db.tables[uppercased(table)].cols;
    let schemas = schemas_of(ts);
    assert(schemas =~= seq![cols]);
    assert(via[0] is None) by {
        match condition {
            None => {},
            Some(e) => {
                single_local(e, cols);
                match e {
                    ExprView::Comparison { column, op, .. } => {
                        place_of_name(cols, column);
                        if serves(db, table, column, op) {
                            let m = choose|m: Seq<char>| #[trigger]
                                indexes_on(db, table).contains(m) && db.indexes[m].column == column;
                            assert(db.indexes.contains_key(m));
                        }
                    },
                    ExprView::And(x, y) => {
                        place_of_name(cols, x->column);
                        place_of_name(cols, y->column);
                        owner_found(schemas, x->column, 0);
                        owner_found(schemas, y->column, 0);
                        assert(owner_of(schemas, x->column) == Some(0int)) by {
                            assert(column_of(schemas[0], x->column) is Some);
                        }
                        assert(owner_of(schemas, y->column) == Some(0int)) by {
                            assert(column_of(schemas[0], y->column) is Some);
                        }
                        let first = split_locals(*x, schemas, no_locals(1));
                        assert(first[0] == Some(*x));
                        assert(split_locals(e, schemas, no_locals(1)) == split_locals(*y, schemas, first));
                        assert(split_locals(*y, schemas, first)[0] == Some(
                            ExprView::And(Box::new(*x), Box::new(*y)),
                        ));
                    },
                    ExprView::Or(_, _) => {},
                }
            },
        }
    }
    assert forall|i: int, j: int| 0 <= i < j < combos.len() implies (#[trigger] combos[i])[0] < (#[trigger] combos[j])[0] by {
        let x = combos[i];
        let y = combos[j];
        assert(picked(ts, condition, combos[i]));
        assert(picked(ts, condition, combos[j]));
        assert(ids_before(ts, via, x, y));
        let k = choose|k: int|
            0 <= k < x.len() && k < y.len() && x.take(k) == y.take(k) && #[trigger] comes_before(ts[k], via[k], x[k], y[k]);
        assert(k == 0);
    }
    assert(answers(rows, db, names, columns, condition, combos));
}

/// A single comparison is the condition of the only table, or there is none.
proof fn single_local(e: ExprView, cols: Seq<ColumnView>)
    ensures
        ({
            let locals = split_locals(e, seq![cols], no_locals(1));
            &&& locals.len() == 1
            &&& e is Comparison ==> locals[0] == Some(e) || locals[0] is None
        }),
{
    assert(owner_of(seq![cols], e->column) is Some ==> owner_of(seq![cols], e->column) == Some(0int)) by {
        owner_found(seq![cols], e->column, 0);
    }
    locals_keep_length(e, seq![cols], no_locals(1));
}

proof fn locals_keep_length(e: ExprView, schemas: Seq<Seq<ColumnView>>, locals: Seq<Option<ExprView>>)
    requires
        locals.len() == schemas.len(),
    ensures
        split_locals(e, schemas, locals).len() == locals.len(),
    decreases e,
{
    match e {
        ExprView::Comparison { column, .. } => {
            owner_found(schemas, column, 0);
        },
        ExprView::And(a, b) => {
            locals_keep_length(*a, schemas, locals);
            locals_keep_length(*b, schemas, split_locals(*a, schemas, locals));
        },
        ExprView::Or(_, _) => {},
    }
}

} // verus!
