//! Queries on several tables: merging schemas, pushing conditions down, combining and projecting
//! rows.
use vstd::prelude::*;

use crate::engine::condition::{
    column_found, column_is, column_of, condition_value, find_column, meets, meets_opt,
};
use crate::engine::error::{Error, ErrorView};
use crate::sql::ast::{
    condition_view, copy_row, row_view, rows_view, schema_view, texts, BoolExpr, ColumnDef,
    ColumnView, Columns, ColumnsView, ExprView, Operator, Value, ValueView,
};

verus! {

/// Sequences one after the other.
pub open spec fn concat<A>(ss: Seq<Seq<A>>) -> Seq<A>
    decreases ss.len(),
{
    if ss.len() == 0 {
        Seq::empty()
    } else {
        concat(ss.drop_last()) + ss.last()
    }
}

/// Schemas by their views.
pub open spec fn schemas_view(v: Seq<Vec<ColumnDef>>) -> Seq<Seq<ColumnView>> {
    Seq::new(v.len(), |i: int| schema_view(v[i]@))
}

/// Conditions that may be missing, by their views.
pub open spec fn locals_view(v: Seq<Option<BoolExpr>>) -> Seq<Option<ExprView>> {
    Seq::new(v.len(), |i: int| condition_view(v[i]))
}

/// Sets of rows by their views.
pub open spec fn sets_view(v: Seq<Vec<Vec<Value>>>) -> Seq<Seq<Seq<ValueView>>> {
    Seq::new(v.len(), |i: int| rows_view(v[i]@))
}

/// The first column whose name an earlier one has too.
pub open spec fn first_repeat(cols: Seq<ColumnView>, i: int) -> Option<Seq<char>>
    decreases cols.len() - i,
{
    if i < 0 || i >= cols.len() {
        None
    } else if column_of(cols.take(i), cols[i].name) is Some {
        Some(cols[i].name)
    } else {
        first_repeat(cols, i + 1)
    }
}

proof fn concat_extend<A>(ss: Seq<Seq<A>>, i: int)
    requires
        0 <= i < ss.len(),
    ensures
        concat(ss.take(i + 1)) == concat(ss.take(i)) + ss[i],
{
    assert(ss.take(i + 1).drop_last() =~= ss.take(i));
}

proof fn concat_prefix<A>(ss: Seq<Seq<A>>, i: int)
    requires
        0 <= i <= ss.len(),
    ensures
        concat(ss.take(i)).len() <= concat(ss).len(),
        concat(ss).take(concat(ss.take(i)).len() as int) == concat(ss.take(i)),
    decreases ss.len() - i,
{
    if i == ss.len() {
        assert(ss.take(i) =~= ss);
        assert(concat(ss).take(concat(ss).len() as int) =~= concat(ss));
    } else {
        concat_extend(ss, i);
        concat_prefix(ss, i + 1);
        let a = concat(ss.take(i));
        let b = concat(ss.take(i + 1));
        assert(concat(ss).take(a.len() as int) =~= concat(ss).take(b.len() as int).take(a.len() as int));
        assert(b.take(a.len() as int) =~= a);
    }
}

/// Merge the schemas of tables into one, in which no name may occur twice.
pub fn merge_schemas(schemas: &Vec<Vec<ColumnDef>>) -> (r: Result<Vec<ColumnDef>, Error>)
    ensures
        ({
            let all = concat(schemas_view(schemas@));
            match r {
                Ok(merged) => first_repeat(all, 0) is None && schema_view(merged@) == all,
                Err(e) => first_repeat(all, 0) is Some && e@ == ErrorView::DuplicateColumn(
                    first_repeat(all, 0)->Some_0,
                ),
            }
        }),
{
    let ghost views = schemas_view(schemas@);
    let ghost all = concat(views);
    let mut merged: Vec<ColumnDef> = Vec::new();
    let mut i: usize = 0;
    proof {
        assert(views.take(0) =~= Seq::empty());
        assert(schema_view(merged@) =~= concat(views.take(0)));
    }
    while i < schemas.len()
        invariant
            i <= schemas@.len(),
            views == schemas_view(schemas@),
            all == concat(views),
            schema_view(merged@) == concat(views.take(i as int)),
            first_repeat(all, 0) == first_repeat(all, merged@.len() as int),
        decreases schemas@.len() - i,
    {
        let schema = &schemas[i];
        let ghost base = concat(views.take(i as int));
        proof {
            assert(views[i as int] == schema_view(schema@));
            concat_extend(views, i as int);
            concat_prefix(views, i + 1);
        }
        let mut j: usize = 0;
        assert(schema_view(merged@) =~= base + schema_view(schema@).take(0));
        while j < schema.len()
            invariant
                j <= schema@.len(),
                views == schemas_view(schemas@),
                all == concat(views),
                0 <= i < views.len(),
                views[i as int] == schema_view(schema@),
                base == concat(views.take(i as int)),
                concat(views.take(i + 1)) == base + schema_view(schema@),
                concat(views.take(i + 1)).len() <= all.len(),
                all.take(concat(views.take(i + 1)).len() as int) == concat(views.take(i + 1)),
                schema_view(merged@) == base + schema_view(schema@).take(j as int),
                first_repeat(all, 0) == first_repeat(all, merged@.len() as int),
            decreases schema@.len() - j,
        {
            let ghost before = schema_view(merged@);
            proof {
                let cut = concat(views.take(i + 1));
                let n = merged@.len() as int;
                assert(before.len() == n);
                assert(all.take(n) =~= all.take(cut.len() as int).take(n));
                assert(cut.take(n) =~= before);
                assert(all[n] == all.take(cut.len() as int)[n]);
                assert(cut[n] == schema_view(schema@)[j as int]);
            }
            if find_column(&merged, schema[j].name.as_str()).is_some() {
                return Err(Error::DuplicateColumn(schema[j].name.clone()));
            }
            merged.push(schema[j].duplicate());
            proof {
                assert(schema_view(merged@) =~= before.push(schema@[j as int]@));
                assert(before.push(schema@[j as int]@) =~= base + schema_view(schema@).take(j + 1));
            }
            j += 1;
        }
        assert(schema_view(schema@).take(j as int) =~= schema_view(schema@));
        i += 1;
    }
    assert(views.take(i as int) =~= views);
    Ok(merged)
}

/// The first table, at or after `i`, that has a column of this name.
pub open spec fn owner_from(schemas: Seq<Seq<ColumnView>>, name: Seq<char>, i: int) -> Option<int>
    decreases schemas.len() - i,
{
    if i < 0 || i >= schemas.len() {
        None
    } else if column_of(schemas[i], name) is Some {
        Some(i)
    } else {
        owner_from(schemas, name, i + 1)
    }
}

/// The first table that has a column of this name.
pub open spec fn owner_of(schemas: Seq<Seq<ColumnView>>, name: Seq<char>) -> Option<int> {
    owner_from(schemas, name, 0)
}

/// The first table that has a column of this name.
pub fn find_table(column: &str, schemas: &Vec<Vec<ColumnDef>>) -> (r: Option<usize>)
    ensures
        match r {
            Some(i) => owner_of(schemas_view(schemas@), column@) == Some(i as int) && i < schemas@.len(),
            None => owner_of(schemas_view(schemas@), column@) is None,
        },
{
    let ghost views = schemas_view(schemas@);
    let mut i: usize = 0;
    while i < schemas.len()
        invariant
            i <= schemas@.len(),
            views == schemas_view(schemas@),
            owner_of(views, column@) == owner_from(views, column@, i as int),
        decreases schemas@.len() - i,
    {
        assert(views[i as int] == schema_view(schemas@[i as int]@));
        if find_column(&schemas[i], column).is_some() {
            return Some(i);
        }
        i += 1;
    }
    None
}

/// What a found table is, and what a missing one means.
pub proof fn owner_found(schemas: Seq<Seq<ColumnView>>, name: Seq<char>, i: int)
    requires
        0 <= i,
    ensures
        match owner_from(schemas, name, i) {
            Some(p) => {
                &&& i <= p < schemas.len()
                &&& column_of(schemas[p], name) is Some
                &&& forall|j: int| i <= j < p ==> column_of(#[trigger] schemas[j], name) is None
            },
            None => forall|j: int| i <= j < schemas.len() ==> column_of(#[trigger] schemas[j], name) is None,
        },
    decreases schemas.len() - i,
{
    if i < schemas.len() && column_of(schemas[i], name) is None {
        owner_found(schemas, name, i + 1);
    }
}

/// A row of each table fits the schema of the table.
pub open spec fn rows_fit(rows: Seq<Seq<ValueView>>, schemas: Seq<Seq<ColumnView>>) -> bool {
    &&& rows.len() == schemas.len()
    &&& forall|i: int| 0 <= i < rows.len() ==> (#[trigger] rows[i]).len() == schemas[i].len()
}

pub proof fn concat_aligned(rows: Seq<Seq<ValueView>>, schemas: Seq<Seq<ColumnView>>, n: int)
    requires
        rows_fit(rows, schemas),
        0 <= n <= rows.len(),
    ensures
        concat(rows.take(n)).len() == concat(schemas.take(n)).len(),
    decreases n,
{
    if n == 0 {
        assert(rows.take(0) =~= Seq::empty());
        assert(schemas.take(0) =~= Seq::empty());
    } else {
        concat_extend(rows, n - 1);
        concat_extend(schemas, n - 1);
        concat_aligned(rows, schemas, n - 1);
        assert(rows[n - 1].len() == schemas[n - 1].len());
    }
}

proof fn no_column_before(schemas: Seq<Seq<ColumnView>>, name: Seq<char>, n: int)
    requires
        0 <= n <= schemas.len(),
        forall|j: int| 0 <= j < n ==> column_of(#[trigger] schemas[j], name) is None,
    ensures
        forall|p: int| 0 <= p < concat(schemas.take(n)).len() ==> (#[trigger] concat(schemas.take(n))[p]).name != name,
    decreases n,
{
    if n == 0 {
        assert(schemas.take(0) =~= Seq::empty());
    } else {
        no_column_before(schemas, name, n - 1);
        concat_extend(schemas, n - 1);
        column_found(schemas[n - 1], name, 0);
        let a = concat(schemas.take(n - 1));
        let all = concat(schemas.take(n));
        assert forall|p: int| 0 <= p < all.len() implies (#[trigger] all[p]).name != name by {
            if p < a.len() {
                assert(all[p] == a[p]);
            } else {
                assert(all[p] == schemas[n - 1][p - a.len()]);
            }
        }
    }
}

/// A comparison has the same value on the row of the table that owns the column and on the row that
/// is combined of all tables.
pub proof fn comparison_local(
    rows: Seq<Seq<ValueView>>,
    schemas: Seq<Seq<ColumnView>>,
    column: Seq<char>,
    op: Operator,
    value: ValueView,
)
    requires
        rows_fit(rows, schemas),
    ensures
        match owner_of(schemas, column) {
            Some(i) => condition_value(column, op, value, concat(rows), concat(schemas)) == condition_value(
                column,
                op,
                value,
                rows[i],
                schemas[i],
            ),
            None => condition_value(column, op, value, concat(rows), concat(schemas)) is None,
        },
{
    owner_found(schemas, column, 0);
    match owner_of(schemas, column) {
        Some(i) => {
            column_found(schemas[i], column, 0);
            let p = column_of(schemas[i], column)->Some_0;
            no_column_before(schemas, column, i);
            concat_extend(schemas, i);
            concat_prefix(schemas, i + 1);
            concat_extend(rows, i);
            concat_prefix(rows, i + 1);
            concat_aligned(rows, schemas, i);
            let base = concat(schemas.take(i)).len() as int;
            let all = concat(schemas);
            let cut = concat(schemas.take(i + 1));
            let rcut = concat(rows.take(i + 1));
            assert(all.take(cut.len() as int) == cut);
            assert(rows[i].len() == schemas[i].len());
            assert forall|j: int| 0 <= j < base + p implies (#[trigger] all[j]).name != column by {
                assert(all[j] == all.take(cut.len() as int)[j]);
                if j < base {
                    assert(cut[j] == concat(schemas.take(i))[j]);
                } else {
                    assert(cut[j] == schemas[i][j - base]);
                }
            }
            assert(all[base + p] == all.take(cut.len() as int)[base + p]);
            assert(cut[base + p] == schemas[i][p]);
            column_is(all, column, 0, base + p);
            assert(concat(rows)[base + p] == concat(rows).take(rcut.len() as int)[base + p]);
            assert(rcut[base + p] == rows[i][p]);
        },
        None => {
            no_column_before(schemas, column, schemas.len() as int);
            assert(schemas.take(schemas.len() as int) =~= schemas);
            column_found(concat(schemas), column, 0);
        },
    }
}

/// The rows of the tables meet the conditions of the tables.
pub open spec fn meet_locals(
    locals: Seq<Option<ExprView>>,
    rows: Seq<Seq<ValueView>>,
    schemas: Seq<Seq<ColumnView>>,
) -> bool {
    forall|i: int| 0 <= i < locals.len() ==> meets_opt(#[trigger] locals[i], rows[i], schemas[i])
}

/// Conditions on single tables and one on the combined row say the same as others do.
pub open spec fn same_rows(
    locals: Seq<Option<ExprView>>,
    cross: Option<ExprView>,
    locals2: Seq<Option<ExprView>>,
    cross2: Option<ExprView>,
    schemas: Seq<Seq<ColumnView>>,
) -> bool {
    forall|rows: Seq<Seq<ValueView>>| #[trigger]
        rows_fit(rows, schemas) ==> ((meet_locals(locals, rows, schemas) && meets_opt(
            cross,
            concat(rows),
            concat(schemas),
        )) <==> (meet_locals(locals2, rows, schemas) && meets_opt(cross2, concat(rows), concat(schemas))))
}

/// Only comparisons of columns of this table, joined by AND.
pub open spec fn is_local(e: ExprView, schemas: Seq<Seq<ColumnView>>, table: int) -> bool
    decreases e,
{
    match e {
        ExprView::Comparison { column, .. } => owner_of(schemas, column) == Some(table),
        ExprView::And(a, b) => is_local(*a, schemas, table) && is_local(*b, schemas, table),
        ExprView::Or(_, _) => false,
    }
}

/// Nothing that could be decided on the row of one table alone: parts joined by AND that are
/// comparisons of unknown columns, or joined by OR.
pub open spec fn is_cross(e: ExprView, schemas: Seq<Seq<ColumnView>>) -> bool
    decreases e,
{
    match e {
        ExprView::Comparison { column, .. } => owner_of(schemas, column) is None,
        ExprView::And(a, b) => is_cross(*a, schemas) && is_cross(*b, schemas),
        ExprView::Or(_, _) => true,
    }
}

/// Each table has only conditions on its own columns.
pub open spec fn all_local(locals: Seq<Option<ExprView>>, schemas: Seq<Seq<ColumnView>>) -> bool {
    forall|i: int|
        0 <= i < locals.len() ==> ((#[trigger] locals[i]) matches Some(e) ==> is_local(e, schemas, i))
}

/// The conditions of the tables with one more for a table.
pub open spec fn with_local(locals: Seq<Option<ExprView>>, i: int, cond: ExprView) -> Seq<Option<ExprView>> {
    locals.update(
        i,
        Some(
            match locals[i] {
                None => cond,
                Some(e) => ExprView::And(Box::new(e), Box::new(cond)),
            },
        ),
    )
}

/// The conditions of the tables after a condition has been distributed: a comparison goes to the table
/// that has its column, and so do those on both sides of AND; what is joined by OR goes to none.
pub open spec fn split_locals(
    e: ExprView,
    schemas: Seq<Seq<ColumnView>>,
    locals: Seq<Option<ExprView>>,
) -> Seq<Option<ExprView>>
    decreases e,
{
    match e {
        ExprView::Comparison { column, .. } => match owner_of(schemas, column) {
            Some(i) => with_local(locals, i, e),
            None => locals,
        },
        ExprView::And(a, b) => split_locals(*b, schemas, split_locals(*a, schemas, locals)),
        ExprView::Or(_, _) => locals,
    }
}

/// What remains of a condition that is distributed over tables: comparisons of unknown columns, and what
/// is joined by OR as it is.
pub open spec fn split_rest(e: ExprView, schemas: Seq<Seq<ColumnView>>) -> Option<ExprView>
    decreases e,
{
    match e {
        ExprView::Comparison { column, .. } => match owner_of(schemas, column) {
            Some(_) => None,
            None => Some(e),
        },
        ExprView::And(a, b) => match (split_rest(*a, schemas), split_rest(*b, schemas)) {
            (Some(x), Some(y)) => Some(ExprView::And(Box::new(x), Box::new(y))),
            (Some(x), None) => Some(x),
            (None, y) => y,
        },
        ExprView::Or(_, _) => Some(e),
    }
}

/// No condition for any of so many tables.
pub open spec fn no_locals(n: nat) -> Seq<Option<ExprView>> {
    Seq::new(n, |i: int| None)
}

/// The condition of each table after a condition, if there is one, has been distributed.
pub open spec fn locals_of(condition: Option<ExprView>, schemas: Seq<Seq<ColumnView>>) -> Seq<Option<ExprView>> {
    match condition {
        None => no_locals(schemas.len()),
        Some(e) => split_locals(e, schemas, no_locals(schemas.len())),
    }
}

/// Add a condition to those of a table.
fn add_local(locals: &mut Vec<Option<BoolExpr>>, idx: usize, cond: BoolExpr)
    requires
        idx < old(locals)@.len(),
    ensures
        locals_view(final(locals)@) == locals_view(old(locals)@).update(
            idx as int,
            Some(
                match locals_view(old(locals)@)[idx as int] {
                    None => cond@,
                    Some(e) => ExprView::And(Box::new(e), Box::new(cond@)),
                },
            ),
        ),
{
    let ghost before = locals_view(locals@);
    let mut slot: Option<BoolExpr> = None;
    std::mem::swap(&mut slot, &mut locals[idx]);
    let joined = match slot {
        None => cond,
        Some(e) => BoolExpr::And(Box::new(e), Box::new(cond)),
    };
    locals.set(idx, Some(joined));
    assert(locals_view(locals@) =~= before.update(
        idx as int,
        Some(
            match before[idx as int] {
                None => cond@,
                Some(e) => ExprView::And(Box::new(e), Box::new(cond@)),
            },
        ),
    ));
}

proof fn pushed_down(
    locals: Seq<Option<ExprView>>,
    schemas: Seq<Seq<ColumnView>>,
    column: Seq<char>,
    op: Operator,
    value: ValueView,
    i: int,
)
    requires
        locals.len() == schemas.len(),
        all_local(locals, schemas),
        owner_of(schemas, column) == Some(i),
    ensures
        ({
            let cond = ExprView::Comparison { column, op, value };
            let joined = match locals[i] {
                None => cond,
                Some(e) => ExprView::And(Box::new(e), Box::new(cond)),
            };
            let locals2 = locals.update(i, Some(joined));
            &&& same_rows(locals, Some(cond), locals2, None, schemas)
            &&& all_local(locals2, schemas)
        }),
{
    owner_found(schemas, column, 0);
    let cond = ExprView::Comparison { column, op, value };
    let joined = match locals[i] {
        None => cond,
        Some(e) => ExprView::And(Box::new(e), Box::new(cond)),
    };
    let locals2 = locals.update(i, Some(joined));
    assert forall|rows: Seq<Seq<ValueView>>| #[trigger] rows_fit(rows, schemas) implies ((meet_locals(
        locals,
        rows,
        schemas,
    ) && meets_opt(Some(cond), concat(rows), concat(schemas))) <==> (meet_locals(locals2, rows, schemas) && meets_opt(
        None,
        concat(rows),
        concat(schemas),
    ))) by {
        comparison_local(rows, schemas, column, op, value);
        assert(meets(cond, concat(rows), concat(schemas)) == meets(cond, rows[i], schemas[i]));
        assert(meets(joined, rows[i], schemas[i]) <==> meets_opt(locals[i], rows[i], schemas[i]) && meets(
            cond,
            rows[i],
            schemas[i],
        ));
        if meet_locals(locals2, rows, schemas) {
            assert forall|j: int| 0 <= j < locals.len() implies meets_opt(
                #[trigger] locals[j],
                rows[j],
                schemas[j],
            ) by {
                assert(meets_opt(locals2[j], rows[j], schemas[j]));
                assert(meets_opt(locals2[i], rows[i], schemas[i]));
            }
            assert(meets_opt(locals2[i], rows[i], schemas[i]));
        }
    }
    assert forall|j: int| 0 <= j < locals2.len() implies ((#[trigger] locals2[j]) matches Some(e) ==> is_local(
        e,
        schemas,
        j,
    )) by {
        if j == i {
            assert(is_local(cond, schemas, i));
            if locals[i] is Some {
                let e = locals[i]->Some_0;
                assert(is_local(e, schemas, i));
                assert(is_local(ExprView::And(Box::new(e), Box::new(cond)), schemas, i));
            }
        } else {
            assert(locals[j] matches Some(e) ==> is_local(e, schemas, j));
        }
    }
}

/// Distribute a condition: what can be decided on one table goes to the conditions of that table,
/// and the result is what remains. Where the conditions of the tables are on their own columns alone,
/// they stay so, and what is asked of the rows is the same before and after.
pub fn split_expr(expr: &BoolExpr, schemas: &Vec<Vec<ColumnDef>>, locals: &mut Vec<Option<BoolExpr>>) -> (r: Option<
    BoolExpr,
>)
    requires
        old(locals)@.len() == schemas@.len(),
    ensures
        final(locals)@.len() == schemas@.len(),
        locals_view(final(locals)@) == split_locals(expr@, schemas_view(schemas@), locals_view(old(locals)@)),
        condition_view(r) == split_rest(expr@, schemas_view(schemas@)),
        r matches Some(e) ==> is_cross(e@, schemas_view(schemas@)),
        all_local(locals_view(old(locals)@), schemas_view(schemas@)) ==> {
            &&& all_local(locals_view(final(locals)@), schemas_view(schemas@))
            &&& same_rows(
                locals_view(old(locals)@),
                Some(expr@),
                locals_view(final(locals)@),
                condition_view(r),
                schemas_view(schemas@),
            )
        },
    decreases expr,
{
    let ghost views = schemas_view(schemas@);
    let ghost good = all_local(locals_view(locals@), views);
    match expr {
        BoolExpr::Comparison { column, op, value } => {
            match find_table(column.as_str(), schemas) {
                Some(idx) => {
                    let ghost before = locals_view(locals@);
                    let cond = BoolExpr::Comparison {
                        column: column.clone(),
                        op: *op,
                        value: value.duplicate(),
                    };
                    add_local(locals, idx, cond);
                    proof {
                        assert(locals_view(locals@).len() == before.len());
                        if good {
                            pushed_down(before, views, column@, *op, value@, idx as int);
                        }
                    }
                    None
                },
                None => Some(expr.duplicate()),
            }
        },
        BoolExpr::And(left, right) => {
            let ghost l0 = locals_view(locals@);
            let l = split_expr(left, schemas, locals);
            let ghost l1 = locals_view(locals@);
            let r = split_expr(right, schemas, locals);
            let ghost l2 = locals_view(locals@);
            let ghost lv = condition_view(l);
            let ghost rv = condition_view(r);
            let joined = match (l, r) {
                (Some(a), Some(b)) => Some(BoolExpr::And(Box::new(a), Box::new(b))),
                (Some(a), None) => Some(a),
                (None, Some(b)) => Some(b),
                (None, None) => None,
            };
            proof {
                let jv = condition_view(joined);
                assert forall|rows: Seq<Seq<ValueView>>| good && #[trigger] rows_fit(rows, views) implies ((meet_locals(
                    l0,
                    rows,
                    views,
                ) && meets_opt(Some(expr@), concat(rows), concat(views))) <==> (meet_locals(l2, rows, views)
                    && meets_opt(jv, concat(rows), concat(views)))) by {
                    let row = concat(rows);
                    let cols = concat(views);
                    assert(meets(expr@, row, cols) <==> meets(left@, row, cols) && meets(right@, row, cols));
                    assert((meet_locals(l0, rows, views) && meets_opt(Some(left@), row, cols)) <==> (meet_locals(
                        l1,
                        rows,
                        views,
                    ) && meets_opt(lv, row, cols)));
                    assert((meet_locals(l1, rows, views) && meets_opt(Some(right@), row, cols)) <==> (meet_locals(
                        l2,
                        rows,
                        views,
                    ) && meets_opt(rv, row, cols)));
                    assert(meets_opt(jv, row, cols) <==> meets_opt(lv, row, cols) && meets_opt(rv, row, cols));
                }
            }
            joined
        },
        BoolExpr::Or(_, _) => Some(expr.duplicate()),
    }
}

/// Distribute a condition over tables. The first result has a condition for each table, on its own
/// columns alone; the second is what can be decided on the combined row only. A combined row meets
/// the whole condition exactly if its parts meet those of the tables, and it meets the rest.
pub fn split_conditions(condition: &Option<BoolExpr>, schemas: &Vec<Vec<ColumnDef>>) -> (r: (
    Vec<Option<BoolExpr>>,
    Option<BoolExpr>,
))
    ensures
        r.0@.len() == schemas@.len(),
        all_local(locals_view(r.0@), schemas_view(schemas@)),
        locals_view(r.0@) == locals_of(condition_view(*condition), schemas_view(schemas@)),
        condition_view(r.1) == match condition_view(*condition) {
            None => None,
            Some(e) => split_rest(e, schemas_view(schemas@)),
        },
        r.1 matches Some(e) ==> is_cross(e@, schemas_view(schemas@)),
        forall|rows: Seq<Seq<ValueView>>| #[trigger]
            rows_fit(rows, schemas_view(schemas@)) ==> (meets_opt(
                condition_view(*condition),
                concat(rows),
                concat(schemas_view(schemas@)),
            ) <==> (meet_locals(locals_view(r.0@), rows, schemas_view(schemas@)) && meets_opt(
                condition_view(r.1),
                concat(rows),
                concat(schemas_view(schemas@)),
            ))),
{
    let mut locals: Vec<Option<BoolExpr>> = Vec::new();
    let mut i: usize = 0;
    while i < schemas.len()
        invariant
            i <= schemas@.len(),
            locals@.len() == i,
            forall|j: int| 0 <= j < i ==> (#[trigger] locals@[j]) is None,
        decreases schemas@.len() - i,
    {
        locals.push(None);
        i += 1;
    }
    assert(locals_view(locals@) =~= no_locals(schemas_view(schemas@).len()));
    match condition {
        None => (locals, None),
        Some(expr) => {
            let cross = split_expr(expr, schemas, &mut locals);
            (locals, cross)
        },
    }
}

/// Each of the first rows followed by each of the second ones.
pub open spec fn pairings(a: Seq<Seq<ValueView>>, b: Seq<Seq<ValueView>>) -> Seq<Seq<ValueView>>
    decreases a.len(),
{
    if a.len() == 0 {
        Seq::empty()
    } else {
        pairings(a.drop_last(), b) + Seq::new(b.len(), |j: int| a.last() + b[j])
    }
}

/// Every way to take one row from each set, the rows joined into one.
pub open spec fn product(sets: Seq<Seq<Seq<ValueView>>>) -> Seq<Seq<ValueView>>
    decreases sets.len(),
{
    if sets.len() == 0 {
        seq![Seq::empty()]
    } else {
        pairings(product(sets.drop_last()), sets.last())
    }
}

/// A row with another one behind it.
fn join_rows(a: &Vec<Value>, b: &Vec<Value>) -> (r: Vec<Value>)
    ensures
        row_view(r@) == row_view(a@) + row_view(b@),
{
    let mut r = copy_row(a);
    let mut tail = copy_row(b);
    let ghost r0 = row_view(r@);
    let ghost t0 = row_view(tail@);
    r.append(&mut tail);
    assert(row_view(r@) =~= r0 + t0);
    r
}

/// Combine the rows of tables: every way to take one row from each.
pub fn cartesian_product(rows_sets: &Vec<Vec<Vec<Value>>>) -> (r: Vec<Vec<Value>>)
    ensures
        rows_view(r@) == if rows_sets@.len() == 0 {
            Seq::empty()
        } else {
            product(sets_view(rows_sets@))
        },
{
    if rows_sets.len() == 0 {
        let r: Vec<Vec<Value>> = Vec::new();
        assert(rows_view(r@) =~= Seq::empty());
        return r;
    }
    let ghost sets = sets_view(rows_sets@);
    let mut result: Vec<Vec<Value>> = Vec::new();
    result.push(Vec::new());
    proof {
        assert(row_view(result@[0]@) =~= Seq::empty());
        assert(rows_view(result@) =~= seq![Seq::empty()]);
        assert(sets.take(0) =~= Seq::empty());
    }
    let mut i: usize = 0;
    while i < rows_sets.len()
        invariant
            i <= rows_sets@.len(),
            sets == sets_view(rows_sets@),
            rows_view(result@) == product(sets.take(i as int)),
        decreases rows_sets@.len() - i,
    {
        let rows = &rows_sets[i];
        let ghost a = rows_view(result@);
        let ghost b = rows_view(rows@);
        proof {
            assert(sets[i as int] == b);
            assert(sets.take(i + 1).drop_last() =~= sets.take(i as int));
        }
        let mut next: Vec<Vec<Value>> = Vec::new();
        let mut p: usize = 0;
        assert(a.take(0) =~= Seq::empty());
        assert(rows_view(next@) =~= pairings(a.take(0), b));
        while p < result.len()
            invariant
                p <= result@.len(),
                a == rows_view(result@),
                b == rows_view(rows@),
                rows_view(next@) == pairings(a.take(p as int), b),
            decreases result@.len() - p,
        {
            let ghost done = pairings(a.take(p as int), b);
            let ghost more = Seq::new(b.len(), |j: int| a[p as int] + b[j]);
            let mut q: usize = 0;
            assert(rows_view(next@) =~= done + more.take(0));
            while q < rows.len()
                invariant
                    q <= rows@.len(),
                    p < result@.len(),
                    a == rows_view(result@),
                    b == rows_view(rows@),
                    more == Seq::new(b.len(), |j: int| a[p as int] + b[j]),
                    rows_view(next@) == done + more.take(q as int),
                decreases rows@.len() - q,
            {
                let ghost before = rows_view(next@);
                let row = join_rows(&result[p], &rows[q]);
                proof {
                    assert(a[p as int] == row_view(result@[p as int]@));
                    assert(b[q as int] == row_view(rows@[q as int]@));
                }
                next.push(row);
                proof {
                    assert(rows_view(next@) =~= before.push(more[q as int]));
                    assert(done + more.take(q + 1) =~= (done + more.take(q as int)).push(more[q as int]));
                }
                q += 1;
            }
            proof {
                assert(more.take(q as int) =~= more);
                assert(a.take(p + 1).drop_last() =~= a.take(p as int));
                assert(a.take(p + 1).last() == a[p as int]);
            }
            p += 1;
        }
        assert(a.take(p as int) =~= a);
        result = next;
        i += 1;
    }
    assert(sets.take(i as int) =~= sets);
    result
}

/// The first name, at or after `i`, that is not the name of a column.
pub open spec fn first_unknown(names: Seq<Seq<char>>, cols: Seq<ColumnView>, i: int) -> Option<Seq<char>>
    decreases names.len() - i,
{
    if i < 0 || i >= names.len() {
        None
    } else if column_of(cols, names[i]) is None {
        Some(names[i])
    } else {
        first_unknown(names, cols, i + 1)
    }
}

/// The places of the columns that are asked for.
pub open spec fn chosen(columns: ColumnsView, cols: Seq<ColumnView>) -> Seq<int> {
    match columns {
        ColumnsView::Star => Seq::new(cols.len(), |i: int| i),
        ColumnsView::List(names) => Seq::new(names.len(), |i: int| column_of(cols, names[i])->Some_0),
    }
}

/// The first of the columns that are asked for that does not exist.
pub open spec fn missing(columns: ColumnsView, cols: Seq<ColumnView>) -> Option<Seq<char>> {
    match columns {
        ColumnsView::Star => None,
        ColumnsView::List(names) => first_unknown(names, cols, 0),
    }
}

/// The values of a row at these places.
pub open spec fn at_places(row: Seq<ValueView>, places: Seq<int>) -> Seq<ValueView> {
    Seq::new(places.len(), |i: int| row[places[i]])
}

/// The columns that are asked for, of each row.
pub open spec fn projected(
    rows: Seq<Seq<ValueView>>,
    columns: ColumnsView,
    cols: Seq<ColumnView>,
) -> Seq<Seq<ValueView>> {
    Seq::new(rows.len(), |i: int| at_places(rows[i], chosen(columns, cols)))
}

/// The places of the columns that are asked for.
fn column_places(schema: &Vec<ColumnDef>, columns: &Columns) -> (r: Result<Vec<usize>, Error>)
    ensures
        match r {
            Ok(v) => {
                &&& missing(columns@, schema_view(schema@)) is None
                &&& v@.len() == chosen(columns@, schema_view(schema@)).len()
                &&& forall|i: int|
                    0 <= i < v@.len() ==> (#[trigger] v@[i]) == chosen(columns@, schema_view(schema@))[i] && v@[i]
                        < schema@.len()
            },
            Err(e) => {
                &&& missing(columns@, schema_view(schema@)) is Some
                &&& e@ == ErrorView::NoColumn(missing(columns@, schema_view(schema@))->Some_0)
            },
        },
{
    let mut v: Vec<usize> = Vec::new();
    let mut i: usize = 0;
    match columns {
        Columns::Star => {
            while i < schema.len()
                invariant
                    i <= schema@.len(),
                    v@.len() == i,
                    forall|j: int| 0 <= j < i ==> #[trigger] v@[j] == j,
                decreases schema@.len() - i,
            {
                v.push(i);
                i += 1;
            }
            Ok(v)
        },
        Columns::List(names) => {
            let ghost cols = schema_view(schema@);
            let ghost views = texts(names@);
            while i < names.len()
                invariant
                    i <= names@.len(),
                    columns@ == ColumnsView::List(views),
                    views == texts(names@),
                    cols == schema_view(schema@),
                    v@.len() == i,
                    forall|j: int|
                        0 <= j < i ==> Some((#[trigger] v@[j]) as int) == column_of(cols, views[j]) && v@[j]
                            < schema@.len(),
                    first_unknown(views, cols, 0) == first_unknown(views, cols, i as int),
                decreases names@.len() - i,
            {
                assert(views[i as int] == names@[i as int]@);
                match find_column(schema, names[i].as_str()) {
                    None => {
                        return Err(Error::NoColumn(names[i].clone()));
                    },
                    Some(p) => {
                        v.push(p);
                    },
                }
                i += 1;
            }
            Ok(v)
        },
    }
}

/// Pick the columns that are asked for out of each row.
pub fn project_rows(rows: &Vec<Vec<Value>>, schema: &Vec<ColumnDef>, columns: &Columns) -> (r: Result<
    Vec<Vec<Value>>,
    Error,
>)
    requires
        forall|i: int| 0 <= i < rows@.len() ==> (#[trigger] rows@[i])@.len() >= schema@.len(),
    ensures
        match r {
            Ok(v) => {
                &&& missing(columns@, schema_view(schema@)) is None
                &&& rows_view(v@) == projected(rows_view(rows@), columns@, schema_view(schema@))
            },
            Err(e) => {
                &&& missing(columns@, schema_view(schema@)) is Some
                &&& e@ == ErrorView::NoColumn(missing(columns@, schema_view(schema@))->Some_0)
            },
        },
{
    let places = match column_places(schema, columns) {
        Err(e) => {
            return Err(e);
        },
        Ok(v) => v,
    };
    let ghost want = chosen(columns@, schema_view(schema@));
    let mut result: Vec<Vec<Value>> = Vec::new();
    let mut i: usize = 0;
    while i < rows.len()
        invariant
            i <= rows@.len(),
            forall|j: int| 0 <= j < rows@.len() ==> (#[trigger] rows@[j])@.len() >= schema@.len(),
            places@.len() == want.len(),
            forall|j: int| 0 <= j < places@.len() ==> (#[trigger] places@[j]) == want[j] && places@[j] < schema@.len(),
            result@.len() == i,
            forall|j: int| 0 <= j < i ==> row_view((#[trigger] result@[j])@) == at_places(row_view(rows@[j]@), want),
        decreases rows@.len() - i,
    {
        let mut row: Vec<Value> = Vec::new();
        let mut j: usize = 0;
        while j < places.len()
            invariant
                i < rows@.len(),
                j <= places@.len() == want.len(),
                rows@[i as int]@.len() >= schema@.len(),
                forall|l: int|
                    0 <= l < places@.len() ==> (#[trigger] places@[l]) == want[l] && places@[l] < schema@.len(),
                row@.len() == j,
                forall|l: int| 0 <= l < j ==> (#[trigger] row@[l])@ == rows@[i as int]@[want[l]]@,
            decreases places@.len() - j,
        {
            row.push(rows[i][places[j]].duplicate());
            j += 1;
        }
        assert(row_view(row@) =~= at_places(row_view(rows@[i as int]@), want)) by {
            assert forall|l: int| 0 <= l < row@.len() implies row_view(row@)[l] == row_view(
                rows@[i as int]@,
            )[want[l]] by {
                assert(places@[l] == want[l]);
                assert(row@[l]@ == rows@[i as int]@[want[l]]@);
            }
        }
        result.push(row);
        i += 1;
    }
    assert(rows_view(result@) =~= projected(rows_view(rows@), columns@, schema_view(schema@)));
    Ok(result)
}

} // verus!
