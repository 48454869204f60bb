//! What holds of the rows that INSERT and UPDATE make.
use vstd::prelude::*;

use crate::engine::condition::{column_found, column_is, column_of};
use crate::engine::error::ErrorView;
use crate::engine::semantics::{
    accepts, assigned, filled, first_misfit, kept_as, new_row, nulls, updated_row,
};
use crate::sql::ast::{AssignmentView, ColumnView, DataType, ValueView};

verus! {

/// The column at this place is the first one of the name.
pub open spec fn stands_at(cols: Seq<ColumnView>, name: Seq<char>, c: int) -> bool {
    &&& 0 <= c < cols.len()
    &&& cols[c].name == name
    &&& forall|j: int| 0 <= j < c ==> (#[trigger] cols[j]).name != name
}

/// No column has this name.
pub open spec fn stands_nowhere(cols: Seq<ColumnView>, name: Seq<char>) -> bool {
    forall|j: int| 0 <= j < cols.len() ==> (#[trigger] cols[j]).name != name
}

/// The value is of the type, or NULL; a text is of every type with a width.
pub open spec fn is_of(v: ValueView, t: DataType) -> bool {
    ||| v is Null
    ||| t is Integer && v is Integer
    ||| t is Float && v is Float
    ||| t is Boolean && v is Boolean
    ||| t is Text && v is Text
    ||| t is Char && (v is Char || v is Text)
}

/// What a column of the type holds once the value has been put there: a text becomes one with a width
/// where the column has one.
pub open spec fn put_in(v: ValueView, t: DataType) -> ValueView {
    if t is Char && v is Text {
        ValueView::Char(v->Text_0)
    } else {
        v
    }
}

/// A column accepts the values of its type, and NULL, and keeps them as they are; a text in a column with
/// a width becomes a string with a width.
pub proof fn columns_accept_their_type(v: ValueView, t: DataType)
    ensures
        accepts(t, v) <==> is_of(v, t),
        kept_as(t, v) == put_in(v, t),
        accepts(t, v) ==> accepts(t, kept_as(t, v)),
{
}

/// There is one place for a name at most, and it is the one that is found.
pub proof fn place_of_name(cols: Seq<ColumnView>, name: Seq<char>)
    ensures
        forall|c: int| #[trigger] stands_at(cols, name, c) <==> column_of(cols, name) == Some(c),
        stands_nowhere(cols, name) <==> column_of(cols, name) is None,
{
    column_found(cols, name, 0);
    assert forall|c: int| #[trigger] stands_at(cols, name, c) <==> column_of(cols, name) == Some(c) by {
        if stands_at(cols, name, c) {
            column_is(cols, name, 0, c);
        }
    }
    if column_of(cols, name) is Some {
        let c = column_of(cols, name)->Some_0;
        assert(cols[c].name == name);
    }
}

/// An assignment that cannot be made: there is no such column, or the value is of another type.
pub open spec fn misassigned(a: AssignmentView, cols: Seq<ColumnView>) -> bool {
    forall|c: int| #[trigger] stands_at(cols, a.column, c) ==> !is_of(a.value, cols[c].data_type)
}

/// The error for an assignment that cannot be made.
pub open spec fn misassigned_as(a: AssignmentView, cols: Seq<ColumnView>, e: ErrorView) -> bool {
    if stands_nowhere(cols, a.column) {
        e == ErrorView::NoColumn(a.column)
    } else {
        exists|c: int| #[trigger]
            stands_at(cols, a.column, c) && e == (ErrorView::TypeMismatch {
                value: a.value,
                data_type: cols[c].data_type,
            })
    }
}

/// The row that UPDATE makes has, in each column that is assigned to, the value of the last assignment to
/// it, and in each other column what it had.
pub proof fn update_makes_every_assignment(
    row: Seq<ValueView>,
    assignments: Seq<AssignmentView>,
    cols: Seq<ColumnView>,
    r: Seq<ValueView>,
    c: int,
)
    requires
        row.len() == cols.len(),
        0 <= c < cols.len(),
        updated_row(row, assignments, cols) == Ok::<Seq<ValueView>, ErrorView>(r),
    ensures
        r.len() == row.len(),
        forall|k: int|
            0 <= k < assignments.len() && stands_at(cols, (#[trigger] assignments[k]).column, c) && (forall|j: int|
                k < j < assignments.len() ==> !stands_at(cols, (#[trigger] assignments[j]).column, c)) ==> r[c]
                == put_in(assignments[k].value, cols[c].data_type),
        (forall|k: int| 0 <= k < assignments.len() ==> !stands_at(cols, (#[trigger] assignments[k]).column, c))
            ==> r[c] == put_in(row[c], cols[c].data_type),
{
    assigned_in(row, assignments, cols, 0, c);
}

proof fn assigned_in(row: Seq<ValueView>, assignments: Seq<AssignmentView>, cols: Seq<ColumnView>, i: int, c: int)
    requires
        row.len() == cols.len(),
        0 <= c < cols.len(),
        0 <= i <= assignments.len(),
    ensures
        assigned(row, assignments, cols, i) matches Ok(r) ==> {
            &&& r.len() == row.len()
            &&& forall|k: int|
                i <= k < assignments.len() && stands_at(cols, (#[trigger] assignments[k]).column, c) && (forall|j: int|
                    k < j < assignments.len() ==> !stands_at(cols, (#[trigger] assignments[j]).column, c)) ==> r[c]
                    == assignments[k].value
            &&& (forall|k: int| i <= k < assignments.len() ==> !stands_at(cols, (#[trigger] assignments[k]).column, c))
                ==> r[c] == row[c]
        },
    decreases assignments.len() - i,
{
    if i < assignments.len() && assigned(row, assignments, cols, i) is Ok {
        place_of_name(cols, assignments[i].column);
        let p = column_of(cols, assignments[i].column)->Some_0;
        assert(stands_at(cols, assignments[i].column, p));
        let next = row.update(p, assignments[i].value);
        assigned_in(next, assignments, cols, i + 1, c);
        let r = assigned(row, assignments, cols, i)->Ok_0;
        assert forall|k: int|
            i <= k < assignments.len() && stands_at(cols, (#[trigger] assignments[k]).column, c) && (forall|j: int|
                k < j < assignments.len() ==> !stands_at(cols, (#[trigger] assignments[j]).column, c)) implies r[c]
            == assignments[k].value by {
            if k == i {
                assert(p == c);
                assert(next[c] == assignments[k].value);
            }
        }
        if forall|k: int| i <= k < assignments.len() ==> !stands_at(cols, (#[trigger] assignments[k]).column, c) {
            assert(!stands_at(cols, assignments[i].column, c));
            assert(p != c);
            assert(next[c] == row[c]);
        }
    }
}

/// The assignments of UPDATE can be made exactly if each names a column and has a value of its type; the
/// first that cannot be made gives the error.
pub proof fn update_refuses_the_first_misfit(row: Seq<ValueView>, assignments: Seq<AssignmentView>, cols: Seq<ColumnView>)
    ensures
        updated_row(row, assignments, cols) is Ok <==> forall|k: int|
            0 <= k < assignments.len() ==> !misassigned(#[trigger] assignments[k], cols),
        updated_row(row, assignments, cols) matches Err(e) ==> exists|k: int|
            0 <= k < assignments.len() && misassigned_as(#[trigger] assignments[k], cols, e) && misassigned(
                assignments[k],
                cols,
            ) && forall|j: int| 0 <= j < k ==> !misassigned(#[trigger] assignments[j], cols),
{
    assigned_or_not(row, assignments, cols, 0);
}

proof fn assigned_or_not(row: Seq<ValueView>, assignments: Seq<AssignmentView>, cols: Seq<ColumnView>, i: int)
    requires
        0 <= i <= assignments.len(),
    ensures
        assigned(row, assignments, cols, i) is Ok <==> forall|k: int|
            i <= k < assignments.len() ==> !misassigned(#[trigger] assignments[k], cols),
        assigned(row, assignments, cols, i) matches Err(e) ==> exists|k: int|
            i <= k < assignments.len() && misassigned_as(#[trigger] assignments[k], cols, e) && misassigned(
                assignments[k],
                cols,
            ) && forall|j: int| i <= j < k ==> !misassigned(#[trigger] assignments[j], cols),
    decreases assignments.len() - i,
{
    if i < assignments.len() {
        let a = assignments[i];
        place_of_name(cols, a.column);
        match column_of(cols, a.column) {
            None => {
                assert(misassigned(assignments[i], cols));
                assert(misassigned_as(assignments[i], cols, ErrorView::NoColumn(a.column)));
            },
            Some(p) => {
                assert(stands_at(cols, a.column, p));
                assert(accepts(cols[p].data_type, a.value) == is_of(a.value, cols[p].data_type));
                if accepts(cols[p].data_type, a.value) {
                    assert(!misassigned(assignments[i], cols));
                    let next = row.update(p, a.value);
                    assigned_or_not(next, assignments, cols, i + 1);
                    if assigned(row, assignments, cols, i) is Err {
                        let e = assigned(row, assignments, cols, i)->Err_0;
                        let k = choose|k: int|
                            i + 1 <= k < assignments.len() && misassigned_as(#[trigger] assignments[k], cols, e)
                                && misassigned(assignments[k], cols) && forall|j: int|
                                i + 1 <= j < k ==> !misassigned(#[trigger] assignments[j], cols);
                        assert(misassigned_as(assignments[k], cols, e));
                    }
                } else {
                    assert(misassigned(assignments[i], cols));
                    let e = ErrorView::TypeMismatch { value: a.value, data_type: cols[p].data_type };
                    assert(misassigned_as(assignments[i], cols, e));
                }
            },
        }
    }
}

/// A value of an INSERT that cannot be put into the column of this name: there is no such column, or the
/// value is of another type.
pub open spec fn misplaced(name: Seq<char>, v: ValueView, cols: Seq<ColumnView>) -> bool {
    forall|c: int| #[trigger] stands_at(cols, name, c) ==> !is_of(v, cols[c].data_type)
}

/// The error for a value that cannot be put into the column of this name.
pub open spec fn misplaced_as(
    name: Seq<char>,
    v: ValueView,
    cols: Seq<ColumnView>,
    table: Seq<char>,
    e: ErrorView,
) -> bool {
    if stands_nowhere(cols, name) {
        e == (ErrorView::NoColumnInTable { column: name, table })
    } else {
        exists|c: int| #[trigger]
            stands_at(cols, name, c) && e == (ErrorView::TypeMismatch { value: v, data_type: cols[c].data_type })
    }
}

/// The row of an INSERT with a list of columns has each value in the column that stands at its place in
/// the list, the last one where a column is named twice, and NULL in the columns that are not named.
pub proof fn insert_fills_the_named_columns(
    names: Seq<Seq<char>>,
    values: Seq<ValueView>,
    cols: Seq<ColumnView>,
    table: Seq<char>,
    r: Seq<ValueView>,
    c: int,
)
    requires
        0 <= c < cols.len(),
        new_row(Some(names), values, cols, table) == Ok::<Seq<ValueView>, ErrorView>(r),
    ensures
        r.len() == cols.len(),
        names.len() == values.len(),
        forall|k: int|
            0 <= k < names.len() && stands_at(cols, #[trigger] names[k], c) && (forall|j: int|
                k < j < names.len() ==> !stands_at(cols, #[trigger] names[j], c)) ==> r[c] == put_in(
                values[k],
                cols[c].data_type,
            ),
        (forall|k: int| 0 <= k < names.len() ==> !stands_at(cols, #[trigger] names[k], c)) ==> r[c]
            == ValueView::Null,
{
    filled_in(nulls(cols.len()), names, values, cols, table, 0, c);
}

proof fn filled_in(
    row: Seq<ValueView>,
    names: Seq<Seq<char>>,
    values: Seq<ValueView>,
    cols: Seq<ColumnView>,
    table: Seq<char>,
    i: int,
    c: int,
)
    requires
        row.len() == cols.len(),
        names.len() == values.len(),
        0 <= c < cols.len(),
        0 <= i <= names.len(),
    ensures
        filled(row, names, values, cols, table, i) matches Ok(r) ==> {
            &&& r.len() == row.len()
            &&& forall|k: int|
                i <= k < names.len() && stands_at(cols, #[trigger] names[k], c) && (forall|j: int|
                    k < j < names.len() ==> !stands_at(cols, #[trigger] names[j], c)) ==> r[c] == values[k]
            &&& (forall|k: int| i <= k < names.len() ==> !stands_at(cols, #[trigger] names[k], c)) ==> r[c] == row[c]
        },
    decreases names.len() - i,
{
    if i < names.len() && filled(row, names, values, cols, table, i) is Ok {
        place_of_name(cols, names[i]);
        let p = column_of(cols, names[i])->Some_0;
        assert(stands_at(cols, names[i], p));
        let next = row.update(p, values[i]);
        filled_in(next, names, values, cols, table, i + 1, c);
        let r = filled(row, names, values, cols, table, i)->Ok_0;
        assert forall|k: int|
            i <= k < names.len() && stands_at(cols, #[trigger] names[k], c) && (forall|j: int|
                k < j < names.len() ==> !stands_at(cols, #[trigger] names[j], c)) implies r[c] == values[k] by {
            if k == i {
                assert(p == c);
                assert(next[c] == values[k]);
            }
        }
        if forall|k: int| i <= k < names.len() ==> !stands_at(cols, #[trigger] names[k], c) {
            assert(!stands_at(cols, names[i], c));
            assert(p != c);
            assert(next[c] == row[c]);
        }
    }
}

/// An INSERT with a list of columns needs a value for each name; each name must be that of a column, and
/// its value of the type of the column. The first that is not gives the error.
pub proof fn insert_refuses_the_first_misfit(
    names: Seq<Seq<char>>,
    values: Seq<ValueView>,
    cols: Seq<ColumnView>,
    table: Seq<char>,
)
    ensures
        new_row(Some(names), values, cols, table) is Ok <==> names.len() == values.len() && forall|k: int|
            0 <= k < names.len() ==> !misplaced(#[trigger] names[k], values[k], cols),
        names.len() != values.len() ==> new_row(Some(names), values, cols, table) == Err::<Seq<ValueView>, ErrorView>(
            ErrorView::ColumnCount { expected: names.len(), got: values.len() },
        ),
        names.len() == values.len() ==> (new_row(Some(names), values, cols, table) matches Err(e) ==> exists|k: int|
            0 <= k < names.len() && misplaced_as(#[trigger] names[k], values[k], cols, table, e) && misplaced(
                names[k],
                values[k],
                cols,
            ) && forall|j: int| 0 <= j < k ==> !misplaced(#[trigger] names[j], values[j], cols)),
{
    if names.len() == values.len() {
        filled_or_not(nulls(cols.len()), names, values, cols, table, 0);
    }
}

proof fn filled_or_not(
    row: Seq<ValueView>,
    names: Seq<Seq<char>>,
    values: Seq<ValueView>,
    cols: Seq<ColumnView>,
    table: Seq<char>,
    i: int,
)
    requires
        names.len() == values.len(),
        0 <= i <= names.len(),
    ensures
        filled(row, names, values, cols, table, i) is Ok <==> forall|k: int|
            i <= k < names.len() ==> !misplaced(#[trigger] names[k], values[k], cols),
        filled(row, names, values, cols, table, i) matches Err(e) ==> exists|k: int|
            i <= k < names.len() && misplaced_as(#[trigger] names[k], values[k], cols, table, e) && misplaced(
                names[k],
                values[k],
                cols,
            ) && forall|j: int| i <= j < k ==> !misplaced(#[trigger] names[j], values[j], cols),
    decreases names.len() - i,
{
    if i < names.len() {
        place_of_name(cols, names[i]);
        match column_of(cols, names[i]) {
            None => {
                assert(misplaced(names[i], values[i], cols));
                let e = ErrorView::NoColumnInTable { column: names[i], table };
                assert(misplaced_as(names[i], values[i], cols, table, e));
            },
            Some(p) => {
                assert(stands_at(cols, names[i], p));
                assert(accepts(cols[p].data_type, values[i]) == is_of(values[i], cols[p].data_type));
                if accepts(cols[p].data_type, values[i]) {
                    assert(!misplaced(names[i], values[i], cols));
                    let next = row.update(p, values[i]);
                    filled_or_not(next, names, values, cols, table, i + 1);
                    if filled(row, names, values, cols, table, i) is Err {
                        let e = filled(row, names, values, cols, table, i)->Err_0;
                        let k = choose|k: int|
                            i + 1 <= k < names.len() && misplaced_as(#[trigger] names[k], values[k], cols, table, e)
                                && misplaced(names[k], values[k], cols) && forall|j: int|
                                i + 1 <= j < k ==> !misplaced(#[trigger] names[j], values[j], cols);
                        assert(misplaced_as(names[k], values[k], cols, table, e));
                    }
                } else {
                    assert(misplaced(names[i], values[i], cols));
                    let e = ErrorView::TypeMismatch { value: values[i], data_type: cols[p].data_type };
                    assert(misplaced_as(names[i], values[i], cols, table, e));
                }
            },
        }
    }
}

/// An INSERT without a list of columns takes a value of its type for each column, in the order of the
/// columns. Another number of values is refused, and so is the first value of another type.
pub proof fn insert_takes_the_columns_in_order(values: Seq<ValueView>, cols: Seq<ColumnView>, table: Seq<char>)
    ensures
        values.len() != cols.len() ==> new_row(None, values, cols, table) == Err::<Seq<ValueView>, ErrorView>(
            ErrorView::ColumnCount { expected: cols.len(), got: values.len() },
        ),
        values.len() == cols.len() ==> match new_row(None, values, cols, table) {
            Ok(r) => {
                &&& r.len() == cols.len()
                &&& forall|c: int|
                    0 <= c < cols.len() ==> is_of(#[trigger] values[c], cols[c].data_type) && r[c] == put_in(
                        values[c],
                        cols[c].data_type,
                    )
            },
            Err(e) => exists|c: int|
                0 <= c < cols.len() && !is_of(#[trigger] values[c], cols[c].data_type) && e == (ErrorView::TypeMismatch {
                    value: values[c],
                    data_type: cols[c].data_type,
                }) && forall|j: int| 0 <= j < c ==> is_of(#[trigger] values[j], cols[j].data_type),
        },
{
    if values.len() == cols.len() {
        misfit_or_not(values, cols, 0);
    }
}

proof fn misfit_or_not(values: Seq<ValueView>, cols: Seq<ColumnView>, i: int)
    requires
        values.len() == cols.len(),
        0 <= i <= cols.len(),
    ensures
        match first_misfit(values, cols, i) {
            None => forall|c: int| i <= c < cols.len() ==> is_of(#[trigger] values[c], cols[c].data_type),
            Some(e) => exists|c: int|
                i <= c < cols.len() && !is_of(#[trigger] values[c], cols[c].data_type) && e == (ErrorView::TypeMismatch {
                    value: values[c],
                    data_type: cols[c].data_type,
                }) && forall|j: int| i <= j < c ==> is_of(#[trigger] values[j], cols[j].data_type),
        },
    decreases cols.len() - i,
{
    if i < cols.len() {
        assert(accepts(cols[i].data_type, values[i]) == is_of(values[i], cols[i].data_type));
        if accepts(cols[i].data_type, values[i]) {
            misfit_or_not(values, cols, i + 1);
            if first_misfit(values, cols, i) is Some {
                let e = first_misfit(values, cols, i)->Some_0;
                let c = choose|c: int|
                    i + 1 <= c < cols.len() && !is_of(#[trigger] values[c], cols[c].data_type) && e == (
                    ErrorView::TypeMismatch { value: values[c], data_type: cols[c].data_type }) && forall|j: int|
                        i + 1 <= j < c ==> is_of(#[trigger] values[j], cols[j].data_type);
                assert(!is_of(values[c], cols[c].data_type));
            }
        } else {
            assert(!is_of(values[i], cols[i].data_type));
        }
    }
}

} // verus!
