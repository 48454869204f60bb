//! What statements do to a database, and the parts of that which concern single rows.
use vstd::prelude::*;

use crate::engine::condition::{column_found, column_of, find_column, meets};
use crate::engine::error::{Error, ErrorView};
use crate::engine::model::{schema_storable, stored_cols, DbView, IndexView, TableView};
use crate::engine::row::row_storable;
use crate::sql::ast::{
    assignments_view, copy_row, row_view, schema_view, texts, Assignment, AssignmentView, ColumnDef,
    ColumnView, DataType, ExprView, Value, ValueView,
};
use crate::storage::page::PageError;
use crate::storage::pager::StorageError;
use crate::text::{text_bytes, uppercased};

verus! {

/// What does not fit into a page does not fit into the database.
pub open spec fn too_large() -> ErrorView {
    ErrorView::Storage(StorageError::Page(PageError::Overflow))
}

/// The value can be stored in a column of this type.
pub open spec fn accepts(t: DataType, v: ValueView) -> bool {
    match (v, t) {
        (ValueView::Null, _) => true,
        (ValueView::Integer(_), DataType::Integer) => true,
        (ValueView::Float(_), DataType::Float) => true,
        (ValueView::Text(_), DataType::Text) => true,
        (ValueView::Boolean(_), DataType::Boolean) => true,
        (ValueView::Char(_), DataType::Char(_)) => true,
        (ValueView::Text(_), DataType::Char(_)) => true,
        _ => false,
    }
}

/// A value as a column of this type keeps it.
pub open spec fn kept_as(t: DataType, v: ValueView) -> ValueView {
    match (v, t) {
        (ValueView::Text(s), DataType::Char(_)) => ValueView::Char(s),
        _ => v,
    }
}

/// A row as a table with these columns keeps it.
pub open spec fn kept_row(row: Seq<ValueView>, cols: Seq<ColumnView>) -> Seq<ValueView> {
    Seq::new(row.len(), |i: int| if i < cols.len() {
        kept_as(cols[i].data_type, row[i])
    } else {
        row[i]
    })
}

/// The error for the first value, at or after `i`, that its column does not accept.
pub open spec fn first_misfit(values: Seq<ValueView>, cols: Seq<ColumnView>, i: int) -> Option<ErrorView>
    decreases values.len() - i,
{
    if i < 0 || i >= values.len() || i >= cols.len() {
        None
    } else if !accepts(cols[i].data_type, values[i]) {
        Some(ErrorView::TypeMismatch { value: values[i], data_type: cols[i].data_type })
    } else {
        first_misfit(values, cols, i + 1)
    }
}

/// A row with the values set in the columns of these names, from the `i`-th on.
pub open spec fn filled(
    row: Seq<ValueView>,
    names: Seq<Seq<char>>,
    values: Seq<ValueView>,
    cols: Seq<ColumnView>,
    table: Seq<char>,
    i: int,
) -> Result<Seq<ValueView>, ErrorView>
    decreases names.len() - i,
{
    if i < 0 || i >= names.len() || i >= values.len() {
        Ok(row)
    } else {
        match column_of(cols, names[i]) {
            None => Err(ErrorView::NoColumnInTable { column: names[i], table }),
            Some(p) => if !accepts(cols[p].data_type, values[i]) {
                Err(ErrorView::TypeMismatch { value: values[i], data_type: cols[p].data_type })
            } else {
                filled(row.update(p, values[i]), names, values, cols, table, i + 1)
            },
        }
    }
}

/// A row of nulls.
pub open spec fn nulls(n: nat) -> Seq<ValueView> {
    Seq::new(n, |i: int| ValueView::Null)
}

/// The row that an INSERT makes.
pub open spec fn new_row(
    columns: Option<Seq<Seq<char>>>,
    values: Seq<ValueView>,
    cols: Seq<ColumnView>,
    table: Seq<char>,
) -> Result<Seq<ValueView>, ErrorView> {
    match columns {
        Some(names) => if values.len() != names.len() {
            Err(ErrorView::ColumnCount { expected: names.len(), got: values.len() })
        } else {
            match filled(nulls(cols.len()), names, values, cols, table, 0) {
                Err(e) => Err(e),
                Ok(row) => Ok(kept_row(row, cols)),
            }
        },
        None => if values.len() != cols.len() {
            Err(ErrorView::ColumnCount { expected: cols.len(), got: values.len() })
        } else {
            match first_misfit(values, cols, 0) {
                Some(e) => Err(e),
                None => Ok(kept_row(values, cols)),
            }
        },
    }
}

/// A row with the assignments made, from the `i`-th on.
pub open spec fn assigned(
    row: Seq<ValueView>,
    assignments: Seq<AssignmentView>,
    cols: Seq<ColumnView>,
    i: int,
) -> Result<Seq<ValueView>, ErrorView>
    decreases assignments.len() - i,
{
    if i < 0 || i >= assignments.len() {
        Ok(row)
    } else {
        match column_of(cols, assignments[i].column) {
            None => Err(ErrorView::NoColumn(assignments[i].column)),
            Some(p) => if !accepts(cols[p].data_type, assignments[i].value) {
                Err(ErrorView::TypeMismatch { value: assignments[i].value, data_type: cols[p].data_type })
            } else {
                assigned(row.update(p, assignments[i].value), assignments, cols, i + 1)
            },
        }
    }
}

/// The row that an UPDATE makes of a row.
pub open spec fn updated_row(
    row: Seq<ValueView>,
    assignments: Seq<AssignmentView>,
    cols: Seq<ColumnView>,
) -> Result<Seq<ValueView>, ErrorView> {
    match assigned(row, assignments, cols, 0) {
        Err(e) => Err(e),
        Ok(r) => Ok(kept_row(r, cols)),
    }
}

/// The database after CREATE TABLE.
pub open spec fn table_created(db: DbView, name: Seq<char>, cols: Seq<ColumnView>) -> Result<DbView, ErrorView> {
    let n = uppercased(name);
    if db.tables.contains_key(n) {
        Err(ErrorView::TableExists(name))
    } else if !schema_storable(cols) {
        Err(too_large())
    } else {
        Ok(
            DbView {
                tables: db.tables.insert(n, TableView { cols: stored_cols(cols), next: 1, rows: Map::empty() }),
                indexes: db.indexes,
            },
        )
    }
}

/// There is an index on the table.
pub open spec fn is_indexed(db: DbView, table: Seq<char>) -> bool {
    exists|n: Seq<char>| #[trigger]
        db.indexes.contains_key(n) && uppercased(db.indexes[n].table) == uppercased(table)
}

/// The database after DROP TABLE.
pub open spec fn table_dropped(db: DbView, name: Seq<char>) -> Result<DbView, ErrorView> {
    if is_indexed(db, name) {
        Err(ErrorView::IndexesExist(name))
    } else if !db.tables.contains_key(uppercased(name)) {
        Err(ErrorView::NoTable(name))
    } else {
        Ok(DbView { tables: db.tables.remove(uppercased(name)), indexes: db.indexes })
    }
}

/// An index can be made on a column of this type.
pub open spec fn indexable(t: DataType) -> bool {
    t is Integer || t is Text || t is Char
}

/// The database after CREATE INDEX. An index of the same name is replaced.
pub open spec fn index_created(db: DbView, name: Seq<char>, table: Seq<char>, column: Seq<char>) -> Result<
    DbView,
    ErrorView,
> {
    let n = uppercased(table);
    if !db.tables.contains_key(n) {
        Err(ErrorView::NoTable(table))
    } else {
        match column_of(db.tables[n].cols, column) {
            None => Err(ErrorView::NoColumnInTable { column, table }),
            Some(p) => if !indexable(db.tables[n].cols[p].data_type) {
                Err(ErrorView::NotIndexable { column, data_type: db.tables[n].cols[p].data_type })
            } else if text_bytes(table).len() > u32::MAX || text_bytes(column).len() > u32::MAX {
                Err(too_large())
            } else {
                Ok(
                    DbView {
                        tables: db.tables,
                        indexes: db.indexes.insert(uppercased(name), IndexView { table, column }),
                    },
                )
            },
        }
    }
}

/// The database after DROP INDEX.
pub open spec fn index_dropped(db: DbView, name: Seq<char>) -> Result<DbView, ErrorView> {
    if !db.indexes.contains_key(uppercased(name)) {
        Err(ErrorView::NoIndex(name))
    } else {
        Ok(DbView { tables: db.tables, indexes: db.indexes.remove(uppercased(name)) })
    }
}

/// The database after INSERT: the new row gets the next number.
pub open spec fn row_inserted(
    db: DbView,
    table: Seq<char>,
    columns: Option<Seq<Seq<char>>>,
    values: Seq<ValueView>,
) -> Result<DbView, ErrorView> {
    let n = uppercased(table);
    if !db.tables.contains_key(n) {
        Err(ErrorView::NoTable(table))
    } else {
        let t = db.tables[n];
        match new_row(columns, values, t.cols, table) {
            Err(e) => Err(e),
            Ok(row) => if !row_storable(row) {
                Err(too_large())
            } else if t.next == u64::MAX {
                Err(ErrorView::Storage(StorageError::Full))
            } else {
                Ok(
                    DbView {
                        tables: db.tables.insert(
                            n,
                            TableView { cols: t.cols, next: (t.next + 1) as u64, rows: t.rows.insert(t.next, row) },
                        ),
                        indexes: db.indexes,
                    },
                )
            },
        }
    }
}

/// The numbers of the rows that meet a condition.
pub open spec fn matching(t: TableView, condition: ExprView) -> Set<u64> {
    Set::new(|id: u64| t.rows.contains_key(id) && meets(condition, t.rows[id], t.cols))
}

/// The rows after UPDATE.
pub open spec fn updated_rows(t: TableView, assignments: Seq<AssignmentView>, condition: ExprView) -> Map<
    u64,
    Seq<ValueView>,
> {
    Map::new(
        |id: u64| t.rows.contains_key(id),
        |id: u64| if meets(condition, t.rows[id], t.cols) {
            updated_row(t.rows[id], assignments, t.cols)->Ok_0
        } else {
            t.rows[id]
        },
    )
}

/// The database after UPDATE, and the number of rows that met the condition. Whether the assignments
/// can be made is asked only if some row meets it.
pub open spec fn rows_updated(
    db: DbView,
    table: Seq<char>,
    assignments: Seq<AssignmentView>,
    condition: ExprView,
) -> Result<(DbView, nat), ErrorView> {
    let n = uppercased(table);
    if !db.tables.contains_key(n) {
        Err(ErrorView::NoTable(table))
    } else {
        let t = db.tables[n];
        if matching(t, condition) == Set::<u64>::empty() {
            Ok((db, 0))
        } else {
            match updated_row(nulls(t.cols.len()), assignments, t.cols) {
                Err(e) => Err(e),
                Ok(sample) => if !row_storable(sample) {
                    Err(too_large())
                } else {
                    Ok(
                        (
                            DbView {
                                tables: db.tables.insert(
                                    n,
                                    TableView {
                                        cols: t.cols,
                                        next: t.next,
                                        rows: updated_rows(t, assignments, condition),
                                    },
                                ),
                                indexes: db.indexes,
                            },
                            matching(t, condition).len(),
                        ),
                    )
                },
            }
        }
    }
}

/// The database after DELETE, and the number of rows that met the condition.
pub open spec fn rows_deleted(db: DbView, table: Seq<char>, condition: ExprView) -> Result<(DbView, nat), ErrorView> {
    let n = uppercased(table);
    if !db.tables.contains_key(n) {
        Err(ErrorView::NoTable(table))
    } else {
        let t = db.tables[n];
        Ok(
            (
                DbView {
                    tables: db.tables.insert(
                        n,
                        TableView { cols: t.cols, next: t.next, rows: t.rows.remove_keys(matching(t, condition)) },
                    ),
                    indexes: db.indexes,
                },
                matching(t, condition).len(),
            ),
        )
    }
}

/// Whether a value can be stored in a column of a type.
pub fn validate_value(value: &Value, data_type: &DataType) -> (r: Result<(), Error>)
    ensures
        match r {
            Ok(_) => accepts(*data_type, value@),
            Err(e) => !accepts(*data_type, value@) && e@ == (ErrorView::TypeMismatch {
                value: value@,
                data_type: *data_type,
            }),
        },
{
    match (value, data_type) {
        (Value::Null, _) => Ok(()),
        (Value::Integer(_), DataType::Integer) => Ok(()),
        (Value::Float(_), DataType::Float) => Ok(()),
        (Value::Text(_), DataType::Text) => Ok(()),
        (Value::Boolean(_), DataType::Boolean) => Ok(()),
        (Value::Char(_), DataType::Char(_)) => Ok(()),
        (Value::Text(_), DataType::Char(_)) => Ok(()),
        _ => Err(Error::TypeMismatch { value: value.duplicate(), data_type: *data_type }),
    }
}

/// Whether each value can be stored in its column.
pub fn validate_values(values: &Vec<Value>, schema: &Vec<ColumnDef>) -> (r: Result<(), Error>)
    ensures
        match r {
            Ok(_) => first_misfit(row_view(values@), schema_view(schema@), 0) is None,
            Err(e) => first_misfit(row_view(values@), schema_view(schema@), 0) == Some(e@),
        },
{
    let ghost row = row_view(values@);
    let ghost cols = schema_view(schema@);
    let mut i: usize = 0;
    while i < values.len() && i < schema.len()
        invariant
            i <= values@.len(),
            i <= schema@.len(),
            row == row_view(values@),
            cols == schema_view(schema@),
            first_misfit(row, cols, 0) == first_misfit(row, cols, i as int),
        decreases values@.len() - i,
    {
        assert(row[i as int] == values@[i as int]@);
        assert(cols[i as int] == schema@[i as int]@);
        match validate_value(&values[i], &schema[i].data_type) {
            Err(e) => {
                return Err(e);
            },
            Ok(_) => {},
        }
        i += 1;
    }
    Ok(())
}

/// Strings in columns with a width are kept as such.
fn keep_row(row: &mut Vec<Value>, schema: &Vec<ColumnDef>)
    ensures
        row_view(final(row)@) == kept_row(row_view(old(row)@), schema_view(schema@)),
{
    let ghost was = row_view(row@);
    let ghost cols = schema_view(schema@);
    let mut i: usize = 0;
    while i < row.len() && i < schema.len()
        invariant
            i <= row@.len() == was.len(),
            i <= schema@.len(),
            cols == schema_view(schema@),
            was == row_view(old(row)@),
            forall|j: int| 0 <= j < i ==> (#[trigger] row@[j])@ == kept_as(cols[j].data_type, was[j]),
            forall|j: int| i <= j < row@.len() ==> (#[trigger] row@[j])@ == was[j],
        decreases row@.len() - i,
    {
        assert(cols[i as int] == schema@[i as int]@);
        let kept = match (&row[i], &schema[i].data_type) {
            (Value::Text(s), DataType::Char(_)) => Some(Value::Char(s.clone())),
            _ => None,
        };
        match kept {
            Some(v) => {
                row.set(i, v);
            },
            None => {},
        }
        i += 1;
    }
    assert(row_view(row@) =~= kept_row(was, cols));
}

/// The row that an INSERT makes.
pub fn build_row(columns: &Option<Vec<String>>, values: &Vec<Value>, schema: &Vec<ColumnDef>, table: &str) -> (r: Result<
    Vec<Value>,
    Error,
>)
    ensures
        ({
            let names = match *columns {
                None => None,
                Some(n) => Some(texts(n@)),
            };
            let made = new_row(names, row_view(values@), schema_view(schema@), table@);
            match r {
                Ok(row) => made == Ok::<Seq<ValueView>, ErrorView>(row_view(row@)),
                Err(e) => made == Err::<Seq<ValueView>, ErrorView>(e@),
            }
        }),
{
    let ghost cols = schema_view(schema@);
    let ghost vals = row_view(values@);
    match columns {
        Some(names) => {
            if values.len() != names.len() {
                return Err(Error::ColumnCount { expected: names.len(), got: values.len() });
            }
            let ghost nv = texts(names@);
            let mut full: Vec<Value> = Vec::new();
            let mut i: usize = 0;
            while i < schema.len()
                invariant
                    i <= schema@.len(),
                    full@.len() == i,
                    forall|j: int| 0 <= j < i ==> (#[trigger] full@[j])@ == ValueView::Null,
                decreases schema@.len() - i,
            {
                full.push(Value::Null);
                i += 1;
            }
            assert(row_view(full@) =~= nulls(cols.len()));
            i = 0;
            while i < names.len()
                invariant
                    i <= names@.len() == values@.len(),
                    columns@ == Some(*names),
                    cols == schema_view(schema@),
                    vals == row_view(values@),
                    nv == texts(names@),
                    full@.len() == schema@.len(),
                    filled(nulls(cols.len()), nv, vals, cols, table@, 0) == filled(
                        row_view(full@),
                        nv,
                        vals,
                        cols,
                        table@,
                        i as int,
                    ),
                decreases names@.len() - i,
            {
                proof {
                    assert(nv[i as int] == names@[i as int]@);
                    assert(vals[i as int] == values@[i as int]@);
                }
                match find_column(schema, names[i].as_str()) {
                    None => {
                        return Err(
                            Error::NoColumnInTable {
                                column: names[i].clone(),
                                table: table.to_owned(),
                            },
                        );
                    },
                    Some(p) => {
                        assert(cols[p as int] == schema@[p as int]@);
                        match validate_value(&values[i], &schema[p].data_type) {
                            Err(e) => {
                                return Err(e);
                            },
                            Ok(_) => {},
                        }
                        let ghost before = row_view(full@);
                        full.set(p, values[i].duplicate());
                        assert(row_view(full@) =~= before.update(p as int, vals[i as int]));
                    },
                }
                i += 1;
            }
            keep_row(&mut full, schema);
            Ok(full)
        },
        None => {
            if values.len() != schema.len() {
                return Err(Error::ColumnCount { expected: schema.len(), got: values.len() });
            }
            match validate_values(values, schema) {
                Err(e) => {
                    return Err(e);
                },
                Ok(_) => {},
            }
            let mut row = copy_row(values);
            keep_row(&mut row, schema);
            Ok(row)
        },
    }
}

/// The row that an UPDATE makes of a row.
pub fn update_row(row: &Vec<Value>, assignments: &Vec<Assignment>, schema: &Vec<ColumnDef>) -> (r: Result<
    Vec<Value>,
    Error,
>)
    requires
        row@.len() == schema@.len(),
    ensures
        ({
            let made = updated_row(row_view(row@), assignments_view(assignments@), schema_view(schema@));
            match r {
                Ok(row) => made == Ok::<Seq<ValueView>, ErrorView>(row_view(row@)),
                Err(e) => made == Err::<Seq<ValueView>, ErrorView>(e@),
            }
        }),
{
    let ghost cols = schema_view(schema@);
    let ghost av = assignments_view(assignments@);
    let mut full = copy_row(row);
    let ghost was = row_view(row@);
    let mut i: usize = 0;
    assert(row_view(full@).len() == full@.len());
    assert(row_view(row@).len() == row@.len());
    while i < assignments.len()
        invariant
            i <= assignments@.len(),
            cols == schema_view(schema@),
            av == assignments_view(assignments@),
            was == row_view(row@),
            full@.len() == schema@.len(),
            assigned(was, av, cols, 0) == assigned(row_view(full@), av, cols, i as int),
        decreases assignments@.len() - i,
    {
        assert(av[i as int] == assignments@[i as int]@);
        match find_column(schema, assignments[i].column.as_str()) {
            None => {
                return Err(Error::NoColumn(assignments[i].column.clone()));
            },
            Some(p) => {
                assert(cols[p as int] == schema@[p as int]@);
                match validate_value(&assignments[i].value, &schema[p].data_type) {
                    Err(e) => {
                        return Err(e);
                    },
                    Ok(_) => {},
                }
                let ghost before = row_view(full@);
                full.set(p, assignments[i].value.duplicate());
                assert(row_view(full@) =~= before.update(p as int, av[i as int].value));
            },
        }
        i += 1;
    }
    keep_row(&mut full, schema);
    Ok(full)
}

/// Whether the assignments can be made does not depend on the row.
pub proof fn assigned_same_error(
    a: Seq<ValueView>,
    b: Seq<ValueView>,
    assignments: Seq<AssignmentView>,
    cols: Seq<ColumnView>,
    i: int,
)
    ensures
        assigned(a, assignments, cols, i) is Ok <==> assigned(b, assignments, cols, i) is Ok,
        assigned(a, assignments, cols, i) matches Err(e) ==> assigned(b, assignments, cols, i) == Err::<
            Seq<ValueView>,
            ErrorView,
        >(e),
    decreases assignments.len() - i,
{
    if 0 <= i < assignments.len() {
        match column_of(cols, assignments[i].column) {
            None => {},
            Some(p) => {
                if accepts(cols[p].data_type, assignments[i].value) {
                    assigned_same_error(
                        a.update(p, assignments[i].value),
                        b.update(p, assignments[i].value),
                        assignments,
                        cols,
                        i + 1,
                    );
                }
            },
        }
    }
}

/// The row that an INSERT makes has a value for each column.
pub proof fn new_row_length(
    columns: Option<Seq<Seq<char>>>,
    values: Seq<ValueView>,
    cols: Seq<ColumnView>,
    table: Seq<char>,
)
    ensures
        new_row(columns, values, cols, table) matches Ok(r) ==> r.len() == cols.len(),
{
    if columns is Some {
        filled_length(nulls(cols.len()), columns->Some_0, values, cols, table, 0);
    }
}

proof fn filled_length(
    row: Seq<ValueView>,
    names: Seq<Seq<char>>,
    values: Seq<ValueView>,
    cols: Seq<ColumnView>,
    table: Seq<char>,
    i: int,
)
    requires
        row.len() == cols.len(),
    ensures
        filled(row, names, values, cols, table, i) matches Ok(r) ==> r.len() == row.len(),
    decreases names.len() - i,
{
    if 0 <= i < names.len() && i < values.len() {
        column_found(cols, names[i], 0);
        match column_of(cols, names[i]) {
            None => {},
            Some(p) => {
                if accepts(cols[p].data_type, values[i]) {
                    filled_length(row.update(p, values[i]), names, values, cols, table, i + 1);
                }
            },
        }
    }
}

/// Every value of a row that an INSERT makes is accepted by its column.
pub proof fn new_row_is_accepted(
    columns: Option<Seq<Seq<char>>>,
    values: Seq<ValueView>,
    cols: Seq<ColumnView>,
    table: Seq<char>,
    c: int,
)
    requires
        0 <= c < cols.len(),
    ensures
        new_row(columns, values, cols, table) matches Ok(r) ==> accepts(cols[c].data_type, r[c]),
{
    match columns {
        Some(names) => {
            filled_accepted(nulls(cols.len()), names, values, cols, table, 0, c);
            filled_length(nulls(cols.len()), names, values, cols, table, 0);
        },
        None => {
            if values.len() == cols.len() {
                misfit_accepted(values, cols, 0, c);
            }
        },
    }
}

proof fn misfit_accepted(values: Seq<ValueView>, cols: Seq<ColumnView>, i: int, c: int)
    requires
        0 <= i <= c < cols.len(),
        values.len() == cols.len(),
    ensures
        first_misfit(values, cols, i) is None ==> accepts(cols[c].data_type, values[c]),
    decreases values.len() - i,
{
    if i < c {
        misfit_accepted(values, cols, i + 1, c);
    }
}

proof fn filled_accepted(
    row: Seq<ValueView>,
    names: Seq<Seq<char>>,
    values: Seq<ValueView>,
    cols: Seq<ColumnView>,
    table: Seq<char>,
    i: int,
    c: int,
)
    requires
        0 <= c < cols.len(),
        row.len() == cols.len(),
        accepts(cols[c].data_type, row[c]),
    ensures
        filled(row, names, values, cols, table, i) matches Ok(r) ==> accepts(cols[c].data_type, r[c]),
    decreases names.len() - i,
{
    if 0 <= i < names.len() && i < values.len() {
        column_found(cols, names[i], 0);
        match column_of(cols, names[i]) {
            None => {},
            Some(p) => {
                if accepts(cols[p].data_type, values[i]) {
                    filled_accepted(row.update(p, values[i]), names, values, cols, table, i + 1, c);
                }
            },
        }
    }
}

} // verus!
