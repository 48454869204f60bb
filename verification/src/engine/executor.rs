//! The query engine: databases, and the execution of statements.
use vstd::prelude::*;

use crate::bytes::{group_order, lt, Standing};
use crate::engine::catalog::{catalog_file, file_within};
use crate::engine::error::{Error, ErrorView};
use crate::engine::model::{ikey, represents, tkey, DbView};
use crate::engine::reopening::{db_in, file_holds, file_holds_within, trees_found, trees_in};
use crate::engine::semantics::{
    index_created, index_dropped, row_inserted, rows_deleted, rows_updated, table_created,
    table_dropped,
};
use crate::engine::tables::{
    create_index_pages, create_table_pages, db_file, empty_db, insert_pages, read_failed, stays,
    tree_freed, update_pages, Tables,
};
use crate::engine::tables::ddl::{done, name_in, table_names};
use crate::engine::tables::dml::counted;
use crate::engine::tables::select::{select_error, selection, tables_of, ways};
use crate::sql::ast::{
    condition_view, row_view, rows_view, texts, Statement, StatementView, Value, ValueView,
};
use crate::storage::page::decode;
use crate::storage::pager::{left_in, sound, PageFile, Pager, StorageError};
use crate::storage::store::Shelf;
use crate::storage::tree::{Stock, Tree};
use crate::text::{
    compare_texts, same_text, text_bytes, text_bytes_injective, uppercase, uppercased,
};

verus! {

/// The result of a statement.
#[derive(Debug)]
pub enum QueryResult {
    /// The statement was executed.
    Success,
    /// The rows of a query.
    Rows(Vec<Vec<Value>>),
    /// The number of rows that were changed.
    RowsAffected(usize),
}

/// A database file by the name of its database in upper case.
struct Slot {
    name: String,
    /// The file, unless the database is in use.
    file: Option<PageFile>,
    trees: Ghost<Map<u32, Tree>>,
    db: Ghost<Option<DbView>>,
}

/// The query engine: the database files, and the database in use.
pub struct Engine {
    slots: Vec<Slot>,
    open: Option<(usize, Tables)>,
    removed: Vec<String>,
}

/// Databases by their names in upper case, as far as they are known, and the one in use.
pub ghost struct EngineView {
    pub dbs: Map<Seq<char>, Option<DbView>>,
    pub current: Option<Seq<char>>,
}

impl Engine {
    /// The names of the databases in the order in which they were made known.
    spec fn names(&self) -> Seq<Seq<char>> {
        Seq::new(self.slots@.len(), |i: int| self.slots@[i].name@)
    }

    /// What is known of a database.
    spec fn known(&self, i: int) -> Option<DbView> {
        match self.open {
            Some((k, t)) => if i == k {
                if t.wf() {
                    Some(t@)
                } else {
                    None
                }
            } else {
                self.slots@[i].db@
            },
            None => self.slots@[i].db@,
        }
    }

    /// The place of a database.
    spec fn place(&self, n: Seq<char>) -> int {
        choose|i: int| 0 <= i < self.slots@.len() && (#[trigger] self.slots@[i]).name@ == n
    }

    /// No name occurs twice, and the files hold the databases that they are known to hold.
    pub closed spec fn wf(&self) -> bool {
        &&& self.names().no_duplicates()
        &&& forall|i: int|
            0 <= i < self.slots@.len() && !(self.open matches Some((k, _)) && k == i) ==> {
                &&& (#[trigger] self.slots@[i]).file is Some
                &&& self.slots@[i].db@ matches Some(db) ==> db_file(
                    self.slots@[i].file->Some_0@,
                    self.slots@[i].trees@,
                    db,
                )
            }
        &&& self.open matches Some((k, _)) ==> k < self.slots@.len()
    }

    /// What a known database holds comes from this stock.
    pub closed spec fn within(&self, n: Seq<char>, stock: Stock) -> bool {
        let i = self.place(n);
        match self.open {
            Some((k, t)) => if i == k {
                t.holds_in(stock)
            } else {
                self.slots@[i].db@ is Some && file_within(self.slots@[i].trees@, stock)
            },
            None => self.slots@[i].db@ is Some && file_within(self.slots@[i].trees@, stock),
        }
    }

    /// How many pages a known database can take into use.
    pub closed spec fn left(&self, n: Seq<char>) -> nat {
        let i = self.place(n);
        match self.open {
            Some((k, t)) => if i == k {
                t.pages_left()
            } else {
                left_in(self.slots@[i].file->Some_0@)
            },
            None => left_in(self.slots@[i].file->Some_0@),
        }
    }

    /// The pages in the file of a database that is not in use.
    pub closed spec fn file_of(&self, n: Seq<char>) -> Map<u32, Seq<u8>> {
        self.slots@[self.place(n)].file->Some_0@
    }

    /// The names of the databases that were dropped.
    pub closed spec fn dropped(&self) -> Seq<Seq<char>> {
        texts(self.removed@)
    }

    /// The tables of the database in use.
    pub closed spec fn in_use(&self) -> Option<Tables> {
        match self.open {
            Some((_, t)) => Some(t),
            None => None,
        }
    }
}

impl View for Engine {
    type V = EngineView;

    closed spec fn view(&self) -> EngineView {
        EngineView {
            dbs: Map::new(|n: Seq<char>| self.names().contains(n), |n: Seq<char>| self.known(self.place(n))),
            current: match self.open {
                Some((k, _)) => Some(self.slots@[k as int].name@),
                None => None,
            },
        }
    }
}

/// The outcome of a statement on the tables of a database.
pub open spec fn table_outcome(a: Tables, b: Tables, stmt: StatementView, r: Result<QueryResult, Error>) -> bool {
    match stmt {
        StatementView::CreateTable { name, columns } => succeeded(
            a,
            b,
            table_created(a@, name, columns),
            create_table_pages(),
            r,
        ),
        StatementView::DropTable { name } => {
            &&& succeeded(a, b, table_dropped(a@, name), 0, r)
            &&& r is Ok ==> tree_freed(a, b, tkey(uppercased(name)))
        },
        StatementView::CreateIndex { name, table, column } => succeeded(
            a,
            b,
            index_created(a@, name, table, column),
            create_index_pages(a@, table),
            r,
        ),
        StatementView::DropIndex { name } => {
            &&& succeeded(a, b, index_dropped(a@, name), 0, r)
            &&& r is Ok ==> tree_freed(a, b, ikey(uppercased(name)))
        },
        StatementView::Insert { table, columns, values } => succeeded(
            a,
            b,
            row_inserted(a@, table, columns, values),
            insert_pages(a@, table),
            r,
        ),
        StatementView::Select { columns, tables, condition } => {
            &&& stays(a, b)
            &&& match r {
                Ok(q) => {
                    &&& q is Rows
                    &&& select_error(a@, tables, columns) is None
                    &&& exists|combos: Seq<Seq<u64>>| #[trigger]
                        selection(
                            rows_view(q->Rows_0@),
                            combos,
                            tables_of(a@, tables),
                            columns,
                            condition,
                            ways(a@, tables, condition),
                        )
                },
                Err(e) => select_error(a@, tables, columns) == Some(e@) || read_failed(a, e@),
            }
        },
        StatementView::Update { table, assignments, condition } => affected(
            a,
            b,
            rows_updated(a@, table, assignments, condition),
            update_pages(a@, table, condition),
            r,
        ),
        StatementView::Delete { table, condition } => affected(a, b, rows_deleted(a@, table, condition), 0, r),
        StatementView::ShowTables => {
            &&& stays(a, b)
            &&& match r {
                Ok(q) => q is Rows && table_names(rows_view(q->Rows_0@), a@),
                Err(e) => read_failed(a, e@),
            }
        },
        _ => true,
    }
}

/// The outcome of a statement that changes the database as `to` says.
pub open spec fn succeeded(
    a: Tables,
    b: Tables,
    to: Result<DbView, ErrorView>,
    most: nat,
    r: Result<QueryResult, Error>,
) -> bool {
    &&& r matches Ok(q) ==> q is Success
    &&& done(a, b, to, most, unit(r))
}

/// The result without what a success holds.
pub open spec fn unit(r: Result<QueryResult, Error>) -> Result<(), Error> {
    match r {
        Ok(_) => Ok(()),
        Err(e) => Err(e),
    }
}

/// The result of a statement that gives nothing back.
fn plain(r: Result<(), Error>) -> (q: Result<QueryResult, Error>)
    ensures
        match q {
            Ok(x) => x is Success && r is Ok,
            Err(e) => r == Err::<(), Error>(e),
        },
{
    match r {
        Ok(()) => Ok(QueryResult::Success),
        Err(e) => Err(e),
    }
}

/// The outcome of a statement that changes the database as `to` says, and counts rows.
pub open spec fn affected(
    a: Tables,
    b: Tables,
    to: Result<(DbView, nat), ErrorView>,
    most: nat,
    r: Result<QueryResult, Error>,
) -> bool {
    &&& r matches Ok(q) ==> q is RowsAffected
    &&& counted(
        a,
        b,
        to,
        most,
        match r {
            Ok(q) => Ok(q->RowsAffected_0),
            Err(e) => Err(e),
        },
    )
}

/// Execute a statement on the tables of a database.
fn run(t: &mut Tables, stmt: &Statement) -> (r: Result<QueryResult, Error>)
    ensures
        old(t).wf() ==> table_outcome(*old(t), *final(t), stmt@, r),
{
    let ghost was = *t;
    let ghost good = t.wf();
    match stmt {
        Statement::CreateTable { name, columns } => plain(t.exec_create_table(name.as_str(), columns)),
        Statement::DropTable { name } => plain(t.exec_drop_table(name.as_str())),
        Statement::CreateIndex { name, table, column } => plain(t.exec_create_index(
            name.as_str(),
            table.as_str(),
            column.as_str(),
        )),
        Statement::DropIndex { name } => plain(t.exec_drop_index(name.as_str())),
        Statement::Insert { table, columns, values } => plain(t.exec_insert(table.as_str(), columns, values)),
        Statement::Select { columns, tables, condition } => match t.exec_select(columns, tables, condition) {
            Err(e) => Err(e),
            Ok(rows) => {
                let r: Result<QueryResult, Error> = Ok(QueryResult::Rows(rows));
                proof {
                    if good {
                        let names = texts(tables@);
                        let combos = choose|combos: Seq<Seq<u64>>| #[trigger]
                            selection(
                                rows_view(rows@),
                                combos,
                                tables_of(was@, names),
                                columns@,
                                condition_view(*condition),
                                ways(was@, names, condition_view(*condition)),
                            );
                        assert(selection(
                            rows_view(r->Ok_0->Rows_0@),
                            combos,
                            tables_of(was@, names),
                            columns@,
                            condition_view(*condition),
                            ways(was@, names, condition_view(*condition)),
                        ));
                    }
                }
                r
            },
        },
        Statement::Update { table, assignments, condition } => match t.exec_update(
            table.as_str(),
            assignments,
            condition,
        ) {
            Err(e) => Err(e),
            Ok(n) => Ok(QueryResult::RowsAffected(n)),
        },
        Statement::Delete { table, condition } => match t.exec_delete(table.as_str(), condition) {
            Err(e) => Err(e),
            Ok(n) => Ok(QueryResult::RowsAffected(n)),
        },
        Statement::ShowTables => match t.exec_show_tables() {
            Err(e) => Err(e),
            Ok(rows) => Ok(QueryResult::Rows(rows)),
        },
        _ => Err(Error::NoDatabase),
    }
}

/// Rows with these names in ascending order of their bytes.
pub open spec fn database_names(rows: Seq<Seq<ValueView>>, dbs: Map<Seq<char>, Option<DbView>>) -> bool {
    &&& forall|i: int|
        0 <= i < rows.len() ==> (#[trigger] rows[i]) == seq![ValueView::Text(name_in(rows[i]))] && dbs.contains_key(
            name_in(rows[i]),
        )
    &&& forall|n: Seq<char>| #[trigger]
        dbs.contains_key(n) ==> exists|i: int| 0 <= i < rows.len() && name_in(#[trigger] rows[i]) == n
    &&& forall|i: int, j: int|
        0 <= i < j < rows.len() ==> lt(
            text_bytes(name_in(#[trigger] rows[i])),
            text_bytes(name_in(#[trigger] rows[j])),
        )
}

impl Engine {
    proof fn place_of(&self, i: int)
        requires
            self.names().no_duplicates(),
            0 <= i < self.slots@.len(),
        ensures
            self.place(self.slots@[i].name@) == i,
            self.names().contains(self.slots@[i].name@),
            self@.dbs.contains_key(self.slots@[i].name@),
            self@.dbs[self.slots@[i].name@] == self.known(i),
    {
        let n = self.slots@[i].name@;
        assert(self.slots@[i].name@ == n);
        let p = self.place(n);
        assert(0 <= p < self.slots@.len() && self.slots@[p].name@ == n);
        assert(self.names()[p] == self.names()[i]);
        assert(self.names()[i] == n);
    }

    /// The database in use is one of the databases, and is known if its tables are in order.
    pub proof fn current_known(&self)
        requires
            self.wf(),
        ensures
            self@.current is Some == self.in_use() is Some,
            self.in_use() matches Some(t) ==> {
                let n = self@.current->Some_0;
                &&& self@.dbs.contains_key(n)
                &&& self@.dbs[n] == if t.wf() {
                    Some(t@)
                } else {
                    None
                }
                &&& forall|stock: Stock| #[trigger] self.within(n, stock) == t.holds_in(stock)
                &&& self.left(n) == t.pages_left()
            },
    {
        if self.open is Some {
            self.place_of(self.open->Some_0.0 as int);
        }
    }

    /// The databases of these files by their names. Of two files with the same name the later one counts.
    pub fn open(files: Vec<(String, PageFile)>) -> (r: Engine)
        ensures
            opened(r, files@),
    {
        let ghost all = files@;
        let mut files = files;
        let mut e = Engine { slots: Vec::new(), open: None, removed: Vec::new() };
        while files.len() > 0
            invariant
                e.wf(),
                e.open is None,
                e.removed@.len() == 0,
                files@.len() <= all.len(),
                files@ == all.take(files@.len() as int),
                forall|i: int| files@.len() <= i < all.len() ==> e.names().contains((#[trigger] all[i]).0@),
                forall|q: int| #![trigger e.slots@[q]]
                    0 <= q < e.slots@.len() ==> exists|i: int|
                        files@.len() <= i && #[trigger] last_named(all, i, e.slots@[q].name@) && e.slots@[q].db@ == db_in(
                            all[i].1@,
                        ) && e.slots@[q].trees@ == trees_in(all[i].1@) && e.slots@[q].file == Some(all[i].1),
            decreases files@.len(),
        {
            let ghost before = files@;
            let ghost e0 = e;
            match files.pop() {
                None => {},
                Some((name, file)) => {
                    let ghost n = name@;
                    let ghost m = files@.len() as int;
                    proof {
                        assert(all[m] == before[m]);
                        assert(files@ =~= all.take(m));
                    }
                    match e.find(name.as_str()) {
                        Some(p) => {
                            proof {
                                assert(e.names()[p as int] == n);
                                assert forall|q: int| #![trigger e.slots@[q]]
                                    0 <= q < e.slots@.len() implies exists|i: int|
                                        m <= i && #[trigger] last_named(all, i, e.slots@[q].name@) && e.slots@[q].db@
                                            == db_in(all[i].1@) && e.slots@[q].trees@ == trees_in(all[i].1@) && e.slots@[q].file == Some(all[i].1) by {
                                    let i = choose|i: int|
                                        m + 1 <= i && #[trigger] last_named(all, i, e0.slots@[q].name@) && e0.slots@[q].db@
                                            == db_in(all[i].1@) && e0.slots@[q].trees@ == trees_in(all[i].1@) && e0.slots@[q].file == Some(all[i].1);
                                    assert(last_named(all, i, e.slots@[q].name@));
                                }
                            }
                        },
                        None => {
                            e.slots.push(
                                Slot { name, file: Some(file), trees: Ghost(trees_in(file@)), db: Ghost(db_in(file@)) },
                            );
                            proof {
                                assert(e.slots@.drop_last() =~= e0.slots@);
                                if db_in(file@) is Some {
                                    trees_found(file@);
                                }
                                slot_pushed(e0, e);
                                assert(e.names() =~= e0.names().push(n));
                                assert(e.names()[e0.names().len() as int] == n);
                                assert forall|i: int| m <= i < all.len() implies e.names().contains(
                                    (#[trigger] all[i]).0@,
                                ) by {
                                    if i > m {
                                        assert(e0.names().contains(all[i].0@));
                                        let q = choose|q: int| 0 <= q < e0.names().len() && e0.names()[q] == all[i].0@;
                                        assert(e.names()[q] == all[i].0@);
                                    }
                                }
                                assert forall|q: int| #![trigger e.slots@[q]]
                                    0 <= q < e.slots@.len() implies exists|i: int|
                                        m <= i && #[trigger] last_named(all, i, e.slots@[q].name@) && e.slots@[q].db@
                                            == db_in(all[i].1@) && e.slots@[q].trees@ == trees_in(all[i].1@) && e.slots@[q].file == Some(all[i].1) by {
                                    if q < e0.slots@.len() {
                                        assert(e0.slots@[q] == e.slots@[q]);
                                        let i = choose|i: int|
                                            m + 1 <= i && #[trigger] last_named(all, i, e0.slots@[q].name@)
                                                && e0.slots@[q].db@ == db_in(all[i].1@) && e0.slots@[q].trees@
                                                == trees_in(all[i].1@) && e0.slots@[q].file == Some(all[i].1);
                                        assert(last_named(all, i, e.slots@[q].name@));
                                    } else {
                                        assert forall|k: int| m < k < all.len() implies (#[trigger] all[k]).0@ != n by {
                                            assert(e0.names().contains(all[k].0@));
                                        }
                                        assert(last_named(all, m, n));
                                    }
                                }
                            }
                        },
                    }
                },
            }
        }
        proof {
            assert(e.dropped() =~= Seq::<Seq<char>>::empty());
            assert forall|n: Seq<char>| #[trigger] e@.dbs.contains_key(n) implies exists|i: int| #[trigger]
                last_named(all, i, n) && found_in(e, n, all[i].1@) by {
                let q = choose|q: int| 0 <= q < e.names().len() && e.names()[q] == n;
                e.place_of(q);
                assert(e.slots@[q].name@ == n);
                let i = choose|i: int| #[trigger]
                    last_named(all, i, e.slots@[q].name@) && e.slots@[q].db@ == db_in(all[i].1@) && e.slots@[q].trees@
                        == trees_in(all[i].1@) && e.slots@[q].file == Some(all[i].1);
                assert(last_named(all, i, n));
                if db_in(all[i].1@) is Some {
                    trees_found(all[i].1@);
                }
            }
        }
        e
    }

    /// The place of a database.
    fn find(&self, name: &str) -> (r: Option<usize>)
        ensures
            match r {
                Some(i) => i < self.slots@.len() && self.slots@[i as int].name@ == name@,
                None => !self.names().contains(name@),
            },
    {
        let mut i: usize = 0;
        while i < self.slots.len()
            invariant
                i <= self.slots@.len(),
                forall|j: int| 0 <= j < i ==> (#[trigger] self.slots@[j]).name@ != name@,
            decreases self.slots@.len() - i,
        {
            if same_text(self.slots[i].name.as_str(), name) {
                return Some(i);
            }
            i += 1;
        }
        proof {
            if self.names().contains(name@) {
                let q = choose|q: int| 0 <= q < self.names().len() && self.names()[q] == name@;
                assert(self.slots@[q].name@ == name@);
            }
        }
        None
    }

    /// `CREATE DATABASE name`
    fn exec_create_database(&mut self, name: &str) -> (r: Result<QueryResult, Error>)
        ensures
            final(self).removed == old(self).removed,
            old(self).wf() ==> {
                let n = uppercased(name@);
                &&& final(self).wf()
                &&& final(self).in_use() == old(self).in_use()
                &&& if old(self)@.dbs.contains_key(n) {
                    &&& r matches Err(e)
                    &&& e@ == ErrorView::DatabaseExists(name@)
                    &&& *final(self) == *old(self)
                } else {
                    &&& r matches Ok(q)
                    &&& q is Success
                    &&& final(self)@ == EngineView {
                        dbs: old(self)@.dbs.insert(n, Some(empty_db())),
                        current: old(self)@.current,
                    }
                    &&& carried_but(*old(self), *final(self), None)
                    &&& forall|stock: Stock| #[trigger] final(self).within(n, stock)
                    &&& final(self).left(n) == u32::MAX - 2
                }
            },
    {
        let ghost was = *self;
        let ghost good = self.wf();
        let upper = uppercase(name);
        let ghost n = upper@;
        match self.find(upper.as_str()) {
            Some(i) => {
                proof {
                    if good {
                        self.place_of(i as int);
                    }
                }
                return Err(Error::DatabaseExists(name.to_owned()));
            },
            None => {},
        }
        match Tables::create() {
            Err(e) => Err(e),
            Ok(t) => {
                assert(forall|stock: Stock| #[trigger] t.holds_in(stock));
                let (file, trees) = t.close();
                assert forall|stock: Stock| #[trigger] file_within(trees@, stock) by {
                    assert(t.holds_in(stock));
                }
                self.slots.push(
                    Slot { name: upper, file: Some(file), trees: Ghost(trees@), db: Ghost(Some(empty_db())) },
                );
                proof {
                    assert(self.slots@.drop_last() =~= was.slots@);
                    if good {
                        slot_added(was, *self, n);
                    }
                }
                Ok(QueryResult::Success)
            },
        }
    }

    /// `DROP DATABASE name`
    fn exec_drop_database(&mut self, name: &str) -> (r: Result<QueryResult, Error>)
        ensures
            final(self).dropped() == if r is Ok {
                old(self).dropped().push(uppercased(name@))
            } else {
                old(self).dropped()
            },
            old(self).wf() ==> {
                let n = uppercased(name@);
                &&& final(self).wf()
                &&& if !old(self)@.dbs.contains_key(n) {
                    &&& r matches Err(e)
                    &&& e@ == ErrorView::NoSuchDatabase(name@)
                    &&& *final(self) == *old(self)
                } else {
                    &&& r matches Ok(q)
                    &&& q is Success
                    &&& final(self)@.dbs == old(self)@.dbs.remove(n)
                    &&& carried_but(*old(self), *final(self), None)
                    &&& if old(self)@.current == Some(n) {
                        final(self)@.current is None && final(self).in_use() is None
                    } else {
                        final(self)@.current == old(self)@.current && final(self).in_use() == old(self).in_use()
                    }
                }
            },
    {
        let ghost was = *self;
        let ghost good = self.wf();
        let upper = uppercase(name);
        let ghost n = upper@;
        let idx = match self.find(upper.as_str()) {
            None => {
                return Err(Error::NoSuchDatabase(name.to_owned()));
            },
            Some(i) => i,
        };
        self.slots.remove(idx);
        let mut open: Option<(usize, Tables)> = None;
        std::mem::swap(&mut open, &mut self.open);
        match open {
            None => {},
            Some((k, t)) => {
                if k < idx {
                    self.open = Some((k, t));
                } else if k > idx {
                    self.open = Some((k - 1, t));
                }
            },
        }
        self.removed.push(upper);
        proof {
            assert(self.dropped() =~= was.dropped().push(n));
            if good {
                slot_removed(was, *self, idx as int);
            }
        }
        Ok(QueryResult::Success)
    }

    /// `SHOW DATABASES`
    fn exec_show_databases(&self) -> (r: Result<QueryResult, Error>)
        ensures
            self.wf() ==> {
                &&& r matches Ok(q)
                &&& q is Rows
                &&& database_names(rows_view(q->Rows_0@), self@.dbs)
            },
    {
        let mut names: Vec<String> = Vec::new();
        let mut i: usize = 0;
        proof {
            assert(texts(names@) =~= Seq::empty());
        }
        while i < self.slots.len()
            invariant
                i <= self.slots@.len(),
                self.wf() ==> {
                    &&& texts_sorted(texts(names@))
                    &&& forall|n: Seq<char>| #[trigger]
                        texts(names@).contains(n) <==> exists|j: int| 0 <= j < i && (#[trigger] self.slots@[j]).name@ == n
                },
            decreases self.slots@.len() - i,
        {
            let name = self.slots[i].name.clone();
            let ghost n = name@;
            let ghost before = texts(names@);
            proof {
                if self.wf() {
                    if before.contains(n) {
                        let j = choose|j: int| 0 <= j < i && (#[trigger] self.slots@[j]).name@ == n;
                        assert(self.names()[j] == self.names()[i as int]);
                    }
                }
            }
            insert_sorted(&mut names, name);
            proof {
                if self.wf() {
                    assert forall|x: Seq<char>| #[trigger] texts(names@).contains(x) <==> exists|j: int|
                        0 <= j < i + 1 && (#[trigger] self.slots@[j]).name@ == x by {
                        if texts(names@).contains(x) && x != n {
                            let j = choose|j: int| 0 <= j < i && (#[trigger] self.slots@[j]).name@ == x;
                            assert(self.slots@[j].name@ == x);
                        }
                        if x == n {
                            assert(self.slots@[i as int].name@ == x);
                        }
                    }
                }
            }
            i += 1;
        }
        let mut rows: Vec<Vec<Value>> = Vec::new();
        let mut j: usize = 0;
        while j < names.len()
            invariant
                j <= names@.len(),
                rows@.len() == j,
                forall|p: int| 0 <= p < j ==> row_view((#[trigger] rows@[p])@) == seq![ValueView::Text(names@[p]@)],
            decreases names@.len() - j,
        {
            let row: Vec<Value> = vec![Value::Text(names[j].clone())];
            assert(row_view(row@) =~= seq![ValueView::Text(names@[j as int]@)]);
            rows.push(row);
            j += 1;
        }
        proof {
            if self.wf() {
                names_shown(*self, texts(names@), rows_view(rows@));
            }
        }
        Ok(QueryResult::Rows(rows))
    }

    /// The files of the databases, and the names of the databases that were dropped, in the order in
    /// which they were.
    pub fn into_files(self) -> (r: (Vec<(String, PageFile)>, Vec<String>))
        ensures
            self.wf() ==> saved_in(self, r.0@),
            texts(r.1@) == self.dropped(),
    {
        let mut this = self;
        this.close_current();
        let ghost e = this;
        let ghost good = self.wf();
        let mut slots: Vec<Slot> = Vec::new();
        std::mem::swap(&mut slots, &mut this.slots);
        let mut files: Vec<(String, PageFile)> = Vec::new();
        while slots.len() > 0
            invariant
                slots@.len() <= e.slots@.len(),
                slots@ == e.slots@.take(slots@.len() as int),
                good ==> e.wf() && e.open is None,
                good ==> {
                    &&& files@.len() == e.slots@.len() - slots@.len()
                    &&& forall|i: int| #![trigger files@[i]]
                        0 <= i < files@.len() ==> {
                            let slot = e.slots@[e.slots@.len() - 1 - i];
                            &&& files@[i].0@ == slot.name@
                            &&& slot.file == Some(files@[i].1)
                            &&& slot.db@ matches Some(db) ==> db_file(files@[i].1@, slot.trees@, db)
                        }
                },
            decreases slots@.len(),
        {
            let ghost before = slots@;
            let ghost files0 = files@;
            match slots.pop() {
                None => {},
                Some(slot) => {
                    let ghost m = slots@.len() as int;
                    proof {
                        assert(slots@ =~= e.slots@.take(m));
                        assert(e.slots@[m] == before[m]);
                        if good {
                            assert(e.slots@[m].file is Some);
                            if slot.db@ is Some {
                                assert(db_file(slot.file->Some_0@, slot.trees@, slot.db@->Some_0));
                            }
                        }
                    }
                    match slot.file {
                        None => {},
                        Some(file) => {
                            files.push((slot.name, file));
                            proof {
                                if good {
                                    assert forall|i: int| #![trigger files@[i]]
                                        0 <= i < files@.len() implies {
                                        let slot = e.slots@[e.slots@.len() - 1 - i];
                                        &&& files@[i].0@ == slot.name@
                                        &&& slot.file == Some(files@[i].1)
                            &&& slot.db@ matches Some(db) ==> db_file(files@[i].1@, slot.trees@, db)
                                    } by {
                                        if i < files0.len() {
                                            assert(files@[i] == files0[i]);
                                        }
                                    }
                                }
                            }
                        },
                    }
                },
            }
        }
        proof {
            if good {
                files_listed(self, e, files@);
            }
        }
        (files, this.removed)
    }

    /// Put the file of the database in use back to the others.
    fn close_current(&mut self)
        ensures
            final(self).removed == old(self).removed,
            old(self).wf() ==> {
                &&& final(self).wf()
                &&& final(self).in_use() is None
                &&& final(self)@ == closed(old(self)@, old(self).in_use())
                &&& carried_but(*old(self), *final(self), None)
                &&& final(self).slots@.len() == old(self).slots@.len()
                &&& forall|i: int|
                    0 <= i < old(self).slots@.len() ==> (#[trigger] final(self).slots@[i]).name@ == old(
                        self,
                    ).slots@[i].name@
                &&& forall|i: int|
                    0 <= i < old(self).slots@.len() && !(old(self).open matches Some((k, _)) && k == i) ==> (
                    #[trigger] final(self).slots@[i]) == old(self).slots@[i]
            },
    {
        let ghost was = *self;
        let ghost good = self.wf();
        let mut open: Option<(usize, Tables)> = None;
        std::mem::swap(&mut open, &mut self.open);
        match open {
            None => {
                proof {
                    if good {
                        assert(self@.dbs =~= was@.dbs);
                    }
                }
            },
            Some((k, t)) => {
                let ghost kept = t.wf() && t.all_fit() && t.rooted_first();
                let ghost db = t@;
                let (file, trees) = t.close();
                if k < self.slots.len() {
                    let name = self.slots[k].name.clone();
                    self.slots.set(
                        k,
                        Slot {
                            name,
                            file: Some(file),
                            trees: Ghost(trees@),
                            db: Ghost(
                                if kept {
                                    Some(db)
                                } else {
                                    None
                                },
                            ),
                        },
                    );
                }
                proof {
                    if good {
                        slot_closed(was, *self, k as int, t);
                    }
                }
            },
        }
    }

    /// `USE name`
    fn exec_use_database(&mut self, name: &str) -> (r: Result<QueryResult, Error>)
        ensures
            final(self).removed == old(self).removed,
            old(self).wf() ==> use_outcome(*old(self), *final(self), name@, r),
    {
        let ghost was = *self;
        let ghost good = self.wf();
        let upper = uppercase(name);
        let ghost n = upper@;
        let idx = match self.find(upper.as_str()) {
            None => {
                return Err(Error::NoSuchDatabase(name.to_owned()));
            },
            Some(i) => i,
        };
        proof {
            if good {
                self.place_of(idx as int);
            }
        }
        let same: bool = match &self.open {
            Some((k, _)) => *k == idx,
            None => false,
        };
        if same {
            match &mut self.open {
                Some(p) => {
                    p.1.flush();
                },
                None => {},
            }
            proof {
                if good {
                    slot_flushed(was, *self, idx as int);
                }
            }
            return Ok(QueryResult::Success);
        }
        match &self.slots[idx].file {
            None => {
                return Err(Error::Storage(StorageError::Corrupt));
            },
            Some(f) => match Pager::check(f) {
                Err(e) => {
                    proof {
                        if good {
                            let slot = self.slots@[idx as int];
                            if slot.db@ is Some {
                                db_file_opens(f@, slot.trees@, slot.db@->Some_0);
                            }
                            assert(was@.dbs[n] is None);
                        }
                    }
                    return Err(Error::Storage(e));
                },
                Ok(_) => {},
            },
        }
        proof {
            if good {
                assert(self.slots@[idx as int].file is Some);
            }
        }
        self.close_current();
        let ghost mid = *self;
        if idx >= self.slots.len() {
            return Err(Error::Storage(StorageError::Corrupt));
        }
        let ghost slot = self.slots@[idx as int];
        let mut file: Option<PageFile> = None;
        std::mem::swap(&mut file, &mut self.slots[idx].file);
        match file {
            None => Err(Error::Storage(StorageError::Corrupt)),
            Some(f) => {
                let ghost db = match slot.db@ {
                    Some(d) => d,
                    None => empty_db(),
                };
                match Tables::reopen(f, Ghost(slot.trees@), Ghost(db)) {
                    Err(e) => Err(Error::Storage(e)),
                    Ok(t) => {
                        self.open = Some((idx, t));
                        proof {
                            if good {
                                slot_opened(was, mid, *self, idx as int, n);
                                if was.open is Some {
                                    let k = was.open->Some_0.0 as int;
                                    assert(was.names()[k] != was.names()[idx as int]);
                                }
                            }
                        }
                        Ok(QueryResult::Success)
                    },
                }
            },
        }
    }

    /// Whether the database in use has a table of this name.
    pub fn table_exists(&mut self, name: &str) -> (r: Result<bool, Error>)
        ensures
            old(self).wf() ==> {
                &&& final(self).wf()
                &&& final(self).dropped() == old(self).dropped()
                &&& final(self)@.current == old(self)@.current
                &&& match old(self).in_use() {
                    None => {
                        &&& r matches Err(e)
                        &&& e@ == ErrorView::NoDatabase
                        &&& *final(self) == *old(self)
                    },
                    Some(t) => {
                        &&& final(self).in_use() matches Some(t2)
                        &&& t.wf() ==> stays(t, t2) && match r {
                            Ok(b) => b == t@.tables.contains_key(uppercased(name@)),
                            Err(e) => read_failed(t, e@),
                        }
                        &&& final(self)@.dbs.remove(old(self)@.current->Some_0) == old(self)@.dbs.remove(
                            old(self)@.current->Some_0,
                        )
                        &&& final(self)@.dbs.contains_key(old(self)@.current->Some_0)
                        &&& carried_but(*old(self), *final(self), old(self)@.current)
                    },
                }
            },
    {
        let ghost was = *self;
        let ghost good = self.wf();
        let r = match &mut self.open {
            None => Err(Error::NoDatabase),
            Some(p) => p.1.table_exists(name),
        };
        proof {
            if good {
                statement_run(was, *self);
            }
        }
        r
    }

    /// Execute a statement.
    pub fn execute(&mut self, stmt: Statement) -> (r: Result<QueryResult, Error>)
        ensures
            old(self).wf() ==> outcome(*old(self), *final(self), stmt@, r),
    {
        let ghost was = *self;
        let ghost good = self.wf();
        match &stmt {
            Statement::CreateDatabase { name } => self.exec_create_database(name.as_str()),
            Statement::DropDatabase { name } => self.exec_drop_database(name.as_str()),
            Statement::ShowDatabases => self.exec_show_databases(),
            Statement::UseDatabase { name } => self.exec_use_database(name.as_str()),
            _ => {
                let r = match &mut self.open {
                    None => Err(Error::NoDatabase),
                    Some(p) => run(&mut p.1, &stmt),
                };
                proof {
                    if good {
                        statement_run(was, *self);
                    }
                }
                r
            },
        }
    }
}

/// What is known of the databases once the one in use has been closed: a database whose pages can all
/// be written, and whose catalog is where it is looked for, is kept.
pub open spec fn closed(v: EngineView, t: Option<Tables>) -> EngineView {
    match (v.current, t) {
        (Some(n), Some(t)) => EngineView {
            dbs: v.dbs.insert(
                n,
                if t.wf() && t.all_fit() && t.rooted_first() {
                    Some(t@)
                } else {
                    None
                },
            ),
            current: None,
        },
        _ => EngineView { dbs: v.dbs, current: None },
    }
}

/// What the known databases hold, except for one, comes from the stocks that it came from before, and
/// they have as many pages left. The files of the databases that were not in use and are not, known or
/// not, are as they were.
pub open spec fn carried_but(a: Engine, b: Engine, except: Option<Seq<char>>) -> bool {
    &&& forall|m: Seq<char>, stock: Stock|
        a@.dbs.contains_key(m) && a@.dbs[m] is Some && b@.dbs.contains_key(m) && b@.dbs[m] is Some && except != Some(m)
            && a.within(m, stock) ==> #[trigger] b.within(m, stock)
    &&& forall|m: Seq<char>|
        a@.dbs.contains_key(m) && a@.dbs[m] is Some && b@.dbs.contains_key(m) && b@.dbs[m] is Some && except != Some(m)
            ==> #[trigger] b.left(m) == a.left(m)
    &&& forall|m: Seq<char>|
        a@.dbs.contains_key(m) && b@.dbs.contains_key(m) && a@.current != Some(m) && b@.current != Some(m)
            ==> #[trigger] b.file_of(m) == a.file_of(m)
}

/// The outcome of `USE name`.
pub open spec fn use_outcome(a: Engine, b: Engine, name: Seq<char>, r: Result<QueryResult, Error>) -> bool {
    let n = uppercased(name);
    &&& b.wf()
    &&& if !a@.dbs.contains_key(n) {
        &&& r matches Err(e)
        &&& e@ == ErrorView::NoSuchDatabase(name)
        &&& b == a
    } else {
        match r {
            Ok(q) => {
                &&& q is Success
                &&& b@.current == Some(n)
                &&& b.in_use() is Some
                &&& carried_but(a, b, None)
                &&& if a@.current == Some(n) {
                    a.in_use()->Some_0.wf() ==> stays(a.in_use()->Some_0, b.in_use()->Some_0)
                } else {
                    a@.dbs[n] matches Some(db) ==> {
                        &&& b.in_use()->Some_0.wf()
                        &&& b.in_use()->Some_0.all_fit()
                        &&& b.in_use()->Some_0.rooted_first()
                        &&& b.in_use()->Some_0@ == db
                    }
                }
                &&& a@.current != Some(n) ==> b@.dbs.remove(n) == closed(a@, a.in_use()).dbs.remove(n)
                &&& a@.current == Some(n) ==> b@.dbs.remove(n) == a@.dbs.remove(n)
                &&& b@.dbs.contains_key(n)
            },
            Err(e) => {
                &&& e@ is Storage
                &&& a@.dbs[n] is None
                &&& b == a
            },
        }
    }
}

/// The outcome of a statement.
pub open spec fn outcome(a: Engine, b: Engine, stmt: StatementView, r: Result<QueryResult, Error>) -> bool {
    &&& b.wf()
    &&& b.dropped() == match (stmt, r) {
        (StatementView::DropDatabase { name }, Ok(_)) => a.dropped().push(uppercased(name)),
        _ => a.dropped(),
    }
    &&& match stmt {
        StatementView::CreateDatabase { name } => {
            let n = uppercased(name);
            &&& b.in_use() == a.in_use()
            &&& if a@.dbs.contains_key(n) {
                &&& r matches Err(e)
                &&& e@ == ErrorView::DatabaseExists(name)
                &&& b == a
            } else {
                &&& r matches Ok(q)
                &&& q is Success
                &&& b@ == EngineView { dbs: a@.dbs.insert(n, Some(empty_db())), current: a@.current }
                &&& carried_but(a, b, None)
                &&& forall|stock: Stock| #[trigger] b.within(n, stock)
                &&& b.left(n) == u32::MAX - 2
            }
        },
        StatementView::DropDatabase { name } => {
            let n = uppercased(name);
            if !a@.dbs.contains_key(n) {
                &&& r matches Err(e)
                &&& e@ == ErrorView::NoSuchDatabase(name)
                &&& b == a
            } else {
                &&& r matches Ok(q)
                &&& q is Success
                &&& b@.dbs == a@.dbs.remove(n)
                &&& carried_but(a, b, None)
                &&& if a@.current == Some(n) {
                    b@.current is None && b.in_use() is None
                } else {
                    b@.current == a@.current && b.in_use() == a.in_use()
                }
            }
        },
        StatementView::ShowDatabases => {
            &&& b == a
            &&& r matches Ok(q)
            &&& q is Rows
            &&& database_names(rows_view(q->Rows_0@), a@.dbs)
        },
        StatementView::UseDatabase { name } => use_outcome(a, b, name, r),
        _ => match a.in_use() {
            None => {
                &&& r matches Err(e)
                &&& e@ == ErrorView::NoDatabase
                &&& b == a
            },
            Some(t) => {
                &&& b.in_use() matches Some(t2)
                &&& t.wf() ==> table_outcome(t, t2, stmt, r)
                &&& b@.current == a@.current
                &&& carried_but(a, b, a@.current)
                &&& b@.dbs.remove(a@.current->Some_0) == a@.dbs.remove(a@.current->Some_0)
                &&& b@.dbs.contains_key(a@.current->Some_0)
            },
        },
    }
}

/// Strings in ascending order of their bytes.
pub open spec fn texts_sorted(v: Seq<Seq<char>>) -> bool {
    forall|i: int, j: int| 0 <= i < j < v.len() ==> lt(text_bytes(#[trigger] v[i]), text_bytes(#[trigger] v[j]))
}

/// Put a string in its place among others.
fn insert_sorted(names: &mut Vec<String>, name: String)
    ensures
        texts_sorted(texts(old(names)@)) && !texts(old(names)@).contains(name@) ==> {
            &&& texts_sorted(texts(final(names)@))
            &&& forall|x: Seq<char>| #[trigger]
                texts(final(names)@).contains(x) <==> texts(old(names)@).contains(x) || x == name@
        },
{
    let ghost before = texts(names@);
    let ghost n = name@;
    let mut i: usize = 0;
    while i < names.len()
        invariant
            i <= names@.len(),
            before == texts(names@),
            n == name@,
            texts_sorted(before) ==> forall|j: int|
                0 <= j < i ==> lt(text_bytes(#[trigger] before[j]), text_bytes(n)),
        ensures
            i <= names@.len(),
            before == texts(names@),
            texts_sorted(before) && !before.contains(n) ==> {
                &&& forall|j: int| 0 <= j < i ==> lt(text_bytes(#[trigger] before[j]), text_bytes(n))
                &&& i < names@.len() ==> lt(text_bytes(n), text_bytes(before[i as int]))
            },
        decreases names@.len() - i,
    {
        assert(before[i as int] == names@[i as int]@);
        match compare_texts(names[i].as_str(), name.as_str()) {
            Standing::Before => {
                i += 1;
            },
            _ => {
                proof {
                    broadcast use group_order;

                    if texts_sorted(before) && !before.contains(n) {
                        if text_bytes(before[i as int]) == text_bytes(n) {
                            text_bytes_injective(before[i as int], n);
                            assert(before.contains(before[i as int]));
                        }
                    }
                }
                break ;
            },
        }
    }
    names.insert(i, name);
    proof {
        broadcast use group_order;

        let after = texts(names@);
        assert(after =~= before.insert(i as int, n));
        if texts_sorted(before) && !before.contains(n) {
            assert forall|p: int, q: int| 0 <= p < q < after.len() implies lt(
                text_bytes(#[trigger] after[p]),
                text_bytes(#[trigger] after[q]),
            ) by {
                let p0 = if p < i {
                    p
                } else {
                    p - 1
                };
                let q0 = if q < i {
                    q
                } else {
                    q - 1
                };
                if p == i {
                    assert(after[q] == before[q0]);
                    if q0 > i {
                        assert(lt(text_bytes(before[i as int]), text_bytes(before[q0])));
                    }
                } else if q == i {
                    assert(after[p] == before[p0]);
                } else {
                    assert(after[p] == before[p0] && after[q] == before[q0]);
                    assert(lt(text_bytes(before[p0]), text_bytes(before[q0])));
                }
            }
            assert forall|x: Seq<char>| #[trigger] after.contains(x) <==> before.contains(x) || x == n by {
                if before.contains(x) {
                    let p = choose|p: int| 0 <= p < before.len() && before[p] == x;
                    if p < i {
                        assert(after[p] == x);
                    } else {
                        assert(after[p + 1] == x);
                    }
                }
                if x == n {
                    assert(after[i as int] == x);
                }
                if after.contains(x) && x != n {
                    let p = choose|p: int| 0 <= p < after.len() && after[p] == x;
                    if p < i {
                        assert(before[p] == x);
                    } else {
                        assert(before[p - 1] == x);
                    }
                }
            }
        }
    }
}

proof fn names_shown(e: Engine, names: Seq<Seq<char>>, rows: Seq<Seq<ValueView>>)
    requires
        e.wf(),
        texts_sorted(names),
        forall|n: Seq<char>| #[trigger]
            names.contains(n) <==> exists|j: int| 0 <= j < e.slots@.len() && (#[trigger] e.slots@[j]).name@ == n,
        rows.len() == names.len(),
        forall|p: int| 0 <= p < rows.len() ==> (#[trigger] rows[p]) == seq![ValueView::Text(names[p])],
    ensures
        database_names(rows, e@.dbs),
{
    assert forall|i: int| 0 <= i < rows.len() implies (#[trigger] rows[i]) == seq![ValueView::Text(name_in(rows[i]))]
        && e@.dbs.contains_key(name_in(rows[i])) by {
        assert(names.contains(names[i]));
        let j = choose|j: int| 0 <= j < e.slots@.len() && (#[trigger] e.slots@[j]).name@ == names[i];
        assert(e.names()[j] == names[i]);
    }
    assert forall|n: Seq<char>| #[trigger] e@.dbs.contains_key(n) implies exists|i: int|
        0 <= i < rows.len() && name_in(#[trigger] rows[i]) == n by {
        let j = choose|j: int| 0 <= j < e.names().len() && e.names()[j] == n;
        assert(e.slots@[j].name@ == n);
        assert(names.contains(n));
        let i = choose|i: int| 0 <= i < names.len() && names[i] == n;
        assert(name_in(rows[i]) == n);
    }
    assert forall|i: int, j: int| 0 <= i < j < rows.len() implies lt(
        text_bytes(name_in(#[trigger] rows[i])),
        text_bytes(name_in(#[trigger] rows[j])),
    ) by {
        assert(lt(text_bytes(names[i]), text_bytes(names[j])));
    }
}

/// A database is the one that a file holds, and comes from the stocks that the file says; and the file
/// is kept as it is.
pub open spec fn found_in(e: Engine, n: Seq<char>, m: Map<u32, Seq<u8>>) -> bool {
    &&& e@.dbs[n] == db_in(m)
    &&& forall|stock: Stock|
        db_in(m) is Some && file_holds_within(m, db_in(m)->Some_0, stock) ==> #[trigger] e.within(n, stock)
    &&& e.left(n) == left_in(m)
    &&& e.file_of(n) == m
}

/// The databases of these files, with none in use.
pub open spec fn opened(e: Engine, files: Seq<(String, PageFile)>) -> bool {
    &&& e.wf()
    &&& e@.current is None
    &&& e.in_use() is None
    &&& e.dropped() == Seq::<Seq<char>>::empty()
    &&& forall|i: int| 0 <= i < files.len() ==> e@.dbs.contains_key((#[trigger] files[i]).0@)
    &&& forall|n: Seq<char>| #[trigger]
        e@.dbs.contains_key(n) ==> exists|i: int| #[trigger] last_named(files, i, n) && found_in(e, n, files[i].1@)
}

/// The files hold the databases of the engine, one for each name, once the one in use is closed; and
/// what they hold comes from the stocks that it came from before. The file of a database that is not in
/// use, known or not, is as it was.
pub open spec fn saved_in(e: Engine, files: Seq<(String, PageFile)>) -> bool {
    let v = closed(e@, e.in_use()).dbs;
    &&& forall|i: int| 0 <= i < files.len() ==> v.contains_key((#[trigger] files[i]).0@)
    &&& forall|i: int, j: int| 0 <= i < j < files.len() ==> (#[trigger] files[i]).0@ != (#[trigger] files[j]).0@
    &&& forall|n: Seq<char>| #[trigger]
        v.contains_key(n) ==> exists|i: int| 0 <= i < files.len() && (#[trigger] files[i]).0@ == n
    &&& forall|i: int|
        0 <= i < files.len() ==> (v[(#[trigger] files[i]).0@] matches Some(db) ==> file_holds(files[i].1@, db))
    &&& forall|i: int, stock: Stock|
        0 <= i < files.len() && v[files[i].0@] is Some && e@.dbs[files[i].0@] is Some && e.within(files[i].0@, stock)
            ==> #[trigger] file_holds_within(files[i].1@, v[files[i].0@]->Some_0, stock)
    &&& forall|i: int|
        0 <= i < files.len() && v[files[i].0@] is Some && e@.dbs[files[i].0@] is Some ==> left_in(
            (#[trigger] files[i]).1@,
        ) == e.left(files[i].0@)
    &&& forall|i: int|
        0 <= i < files.len() && e@.current != Some(files[i].0@) ==> (#[trigger] files[i]).1@ == e.file_of(files[i].0@)
}

/// The file with a name that counts: the last one.
pub open spec fn last_named(files: Seq<(String, PageFile)>, i: int, n: Seq<char>) -> bool {
    &&& 0 <= i < files.len()
    &&& files[i].0@ == n
    &&& forall|k: int| i < k < files.len() ==> (#[trigger] files[k]).0@ != n
}

/// A database has been added at the end, and nothing else has changed.
proof fn slot_pushed(was: Engine, now: Engine)
    requires
        was.wf(),
        now.open == was.open,
        now.slots@.len() == was.slots@.len() + 1,
        now.slots@.drop_last() == was.slots@,
        !was.names().contains(now.slots@.last().name@),
        now.slots@.last().file is Some,
        now.slots@.last().db@ matches Some(db) ==> db_file(
            now.slots@.last().file->Some_0@,
            now.slots@.last().trees@,
            db,
        ),
    ensures
        now.wf(),
        now.names() == was.names().push(now.slots@.last().name@),
{
    let m = was.slots@.len() as int;
    let n = now.slots@.last().name@;
    assert(now.names() =~= was.names().push(n));
    assert forall|i: int| 0 <= i < m implies now.slots@[i] == was.slots@[i] by {
        assert(now.slots@.drop_last()[i] == was.slots@[i]);
    }
    assert forall|i: int|
        0 <= i < now.slots@.len() && !(now.open matches Some((k, _)) && k == i) implies {
        &&& (#[trigger] now.slots@[i]).file is Some
        &&& now.slots@[i].db@ matches Some(db) ==> db_file(
            now.slots@[i].file->Some_0@,
            now.slots@[i].trees@,
            db,
        )
    } by {
        if i < m {
            assert(now.slots@[i] == was.slots@[i]);
        }
    }
    assert forall|i: int, j: int| 0 <= i < j < now.names().len() implies now.names()[i] != now.names()[j] by {
        if j == m {
            assert(was.names().contains(was.names()[i]));
        } else {
            assert(was.names()[i] != was.names()[j]);
        }
    }
}

#[verifier::spinoff_prover]
#[verifier::rlimit(40)]
proof fn files_listed(was: Engine, e: Engine, files: Seq<(String, PageFile)>)
    requires
        was.wf(),
        e.wf(),
        e.open is None,
        e@ == closed(was@, was.in_use()),
        carried_but(was, e, None),
        files.len() == e.slots@.len(),
        forall|i: int| #![trigger files[i]]
            0 <= i < files.len() ==> {
                let slot = e.slots@[e.slots@.len() - 1 - i];
                &&& files[i].0@ == slot.name@
                &&& slot.file == Some(files[i].1)
                &&& slot.db@ matches Some(db) ==> db_file(files[i].1@, slot.trees@, db)
            },
    ensures
        saved_in(was, files),
{
    let m = e.slots@.len() as int;
    let v = closed(was@, was.in_use()).dbs;
    assert forall|i: int| 0 <= i < files.len() implies e@.dbs.contains_key((#[trigger] files[i]).0@) && (
    e@.dbs[files[i].0@] matches Some(db) ==> file_holds(files[i].1@, db)) by {
        e.place_of(m - 1 - i);
    }
    assert forall|i: int, j: int| 0 <= i < j < files.len() implies (#[trigger] files[i]).0@ != (#[trigger] files[j]).0@ by {
        assert(e.names()[m - 1 - i] != e.names()[m - 1 - j]);
    }
    assert forall|n: Seq<char>| #[trigger] e@.dbs.contains_key(n) implies exists|i: int|
        0 <= i < files.len() && (#[trigger] files[i]).0@ == n by {
        let q = choose|q: int| 0 <= q < e.names().len() && e.names()[q] == n;
        assert(files[m - 1 - q].0@ == n);
    }
    assert forall|i: int, stock: Stock|
        0 <= i < files.len() && v[files[i].0@] is Some && was@.dbs[files[i].0@] is Some && was.within(
            files[i].0@,
            stock,
        ) implies #[trigger] file_holds_within(files[i].1@, v[files[i].0@]->Some_0, stock) by {
        let n = files[i].0@;
        e.place_of(m - 1 - i);
        was.current_known();
        assert(was@.dbs.contains_key(n));
        assert(e.within(n, stock));
        assert(db_file(files[i].1@, e.slots@[m - 1 - i].trees@, e.slots@[m - 1 - i].db@->Some_0));
    }
    assert forall|i: int|
        0 <= i < files.len() && v[files[i].0@] is Some && was@.dbs[files[i].0@] is Some implies left_in(
        (#[trigger] files[i]).1@,
    ) == was.left(files[i].0@) by {
        let n = files[i].0@;
        e.place_of(m - 1 - i);
        was.current_known();
        assert(was@.dbs.contains_key(n));
        assert(e.left(n) == was.left(n));
    }
    assert forall|i: int|
        0 <= i < files.len() && was@.current != Some(files[i].0@) implies (#[trigger] files[i]).1@ == was.file_of(
        files[i].0@,
    ) by {
        let n = files[i].0@;
        e.place_of(m - 1 - i);
        was.current_known();
        assert(was@.dbs.contains_key(n));
        assert(e.file_of(n) == was.file_of(n));
    }
}

/// A database has been added at the end.
proof fn slot_added(was: Engine, now: Engine, n: Seq<char>)
    requires
        was.wf(),
        !was.names().contains(n),
        now.open == was.open,
        now.slots@.len() == was.slots@.len() + 1,
        now.slots@.drop_last() == was.slots@,
        now.slots@.last().name@ == n,
        now.slots@.last().file is Some,
        now.slots@.last().db@ == Some(empty_db()),
        forall|stock: Stock| #[trigger] file_within(now.slots@.last().trees@, stock),
        left_in(now.slots@.last().file->Some_0@) == u32::MAX - 2,
        db_file(now.slots@.last().file->Some_0@, now.slots@.last().trees@, empty_db()),
    ensures
        now.wf(),
        now@ == (EngineView { dbs: was@.dbs.insert(n, Some(empty_db())), current: was@.current }),
        now.in_use() == was.in_use(),
        !was@.dbs.contains_key(n),
        carried_but(was, now, None),
        forall|stock: Stock| #[trigger] now.within(n, stock),
        now.left(n) == u32::MAX - 2,
{
    let m = was.slots@.len() as int;
    slot_pushed(was, now);
    assert forall|i: int| 0 <= i < m implies now.slots@[i] == was.slots@[i] by {
        assert(now.slots@.drop_last()[i] == was.slots@[i]);
    }
    let dbs = was@.dbs.insert(n, Some(empty_db()));
    assert forall|x: Seq<char>| now@.dbs.contains_key(x) <==> dbs.contains_key(x) by {
        if was.names().contains(x) {
            let i = choose|i: int| 0 <= i < was.names().len() && was.names()[i] == x;
            assert(now.names()[i] == x);
        }
        if x == n {
            assert(now.names()[m] == x);
        }
    }
    assert forall|x: Seq<char>| now@.dbs.contains_key(x) implies now@.dbs[x] == dbs[x] by {
        let i = choose|i: int| 0 <= i < now.names().len() && now.names()[i] == x;
        now.place_of(i);
        if i < m {
            was.place_of(i);
            assert(was.names().contains(x));
        }
    }
    assert(now@.dbs =~= dbs);
    now.place_of(m);
    assert forall|x: Seq<char>, stock: Stock|
        was@.dbs.contains_key(x) && was@.dbs[x] is Some && now@.dbs.contains_key(x) && now@.dbs[x] is Some && was.within(
            x,
            stock,
        ) implies #[trigger] now.within(x, stock) by {
        let i = choose|i: int| 0 <= i < was.names().len() && was.names()[i] == x;
        was.place_of(i);
        now.place_of(i);
    }
    assert forall|x: Seq<char>| was@.dbs.contains_key(x) implies #[trigger] now.left(x) == was.left(x) by {
        let i = choose|i: int| 0 <= i < was.names().len() && was.names()[i] == x;
        was.place_of(i);
        now.place_of(i);
    }
    assert forall|x: Seq<char>| was@.dbs.contains_key(x) implies #[trigger] now.file_of(x) == was.file_of(x) by {
        let i = choose|i: int| 0 <= i < was.names().len() && was.names()[i] == x;
        was.place_of(i);
        now.place_of(i);
    }
}

/// A database has been removed.
proof fn slot_removed(was: Engine, now: Engine, idx: int)
    requires
        was.wf(),
        0 <= idx < was.slots@.len(),
        now.slots@ == was.slots@.remove(idx),
        match was.open {
            None => now.open is None,
            Some((k, t)) => if k < idx {
                now.open == Some((k, t))
            } else if k > idx {
                now.open == Some(((k - 1) as usize, t))
            } else {
                now.open is None
            },
        },
    ensures
        now.wf(),
        was@.dbs.contains_key(was.slots@[idx].name@),
        now@.dbs == was@.dbs.remove(was.slots@[idx].name@),
        carried_but(was, now, None),
        if was@.current == Some(was.slots@[idx].name@) {
            now@.current is None && now.in_use() is None
        } else {
            now@.current == was@.current && now.in_use() == was.in_use()
        },
{
    let n = was.slots@[idx].name@;
    was.place_of(idx);
    assert(now.names() =~= was.names().remove(idx));
    assert forall|i: int| 0 <= i < now.slots@.len() implies now.slots@[i] == was.slots@[if i < idx {
        i
    } else {
        i + 1
    }] by {}
    assert forall|i: int, j: int| 0 <= i < j < now.names().len() implies now.names()[i] != now.names()[j] by {
        let i0 = if i < idx {
            i
        } else {
            i + 1
        };
        let j0 = if j < idx {
            j
        } else {
            j + 1
        };
        assert(was.names()[i0] != was.names()[j0]);
    }
    assert forall|i: int|
        0 <= i < now.slots@.len() && !(now.open matches Some((k, _)) && k == i) implies {
        &&& (#[trigger] now.slots@[i]).file is Some
        &&& now.slots@[i].db@ matches Some(db) ==> db_file(
            now.slots@[i].file->Some_0@,
            now.slots@[i].trees@,
            db,
        )
    } by {
        let i0 = if i < idx {
            i
        } else {
            i + 1
        };
        assert(was.slots@[i0].file is Some);
    }
    assert forall|x: Seq<char>| now@.dbs.contains_key(x) <==> was@.dbs.remove(n).contains_key(x) by {
        if now.names().contains(x) {
            let i = choose|i: int| 0 <= i < now.names().len() && now.names()[i] == x;
            let i0 = if i < idx {
                i
            } else {
                i + 1
            };
            assert(was.names()[i0] == x);
            assert(was.names()[idx] == n);
        }
        if was.names().contains(x) && x != n {
            let i = choose|i: int| 0 <= i < was.names().len() && was.names()[i] == x;
            let i1 = if i < idx {
                i
            } else {
                i - 1
            };
            assert(now.names()[i1] == x);
        }
    }
    assert forall|x: Seq<char>| now@.dbs.contains_key(x) implies now@.dbs[x] == was@.dbs[x] by {
        let i = choose|i: int| 0 <= i < now.names().len() && now.names()[i] == x;
        let i0 = if i < idx {
            i
        } else {
            i + 1
        };
        now.place_of(i);
        was.place_of(i0);
        assert(now.slots@[i] == was.slots@[i0]);
    }
    assert(now@.dbs =~= was@.dbs.remove(n));
    assert forall|x: Seq<char>, stock: Stock|
        was@.dbs.contains_key(x) && was@.dbs[x] is Some && now@.dbs.contains_key(x) && now@.dbs[x] is Some && was.within(
            x,
            stock,
        ) implies #[trigger] now.within(x, stock) by {
        let i = choose|i: int| 0 <= i < now.names().len() && now.names()[i] == x;
        let i0 = if i < idx {
            i
        } else {
            i + 1
        };
        now.place_of(i);
        was.place_of(i0);
        assert(now.slots@[i] == was.slots@[i0]);
    }
    assert forall|x: Seq<char>| was@.dbs.contains_key(x) && now@.dbs.contains_key(x) implies #[trigger] now.left(x)
        == was.left(x) by {
        let i = choose|i: int| 0 <= i < now.names().len() && now.names()[i] == x;
        let i0 = if i < idx {
            i
        } else {
            i + 1
        };
        now.place_of(i);
        was.place_of(i0);
        assert(now.slots@[i] == was.slots@[i0]);
    }
    assert forall|x: Seq<char>| was@.dbs.contains_key(x) && now@.dbs.contains_key(x) implies #[trigger] now.file_of(x)
        == was.file_of(x) by {
        let i = choose|i: int| 0 <= i < now.names().len() && now.names()[i] == x;
        let i0 = if i < idx {
            i
        } else {
            i + 1
        };
        now.place_of(i);
        was.place_of(i0);
        assert(now.slots@[i] == was.slots@[i0]);
    }
    match was.open {
        Some((k, t)) => {
            if k != idx {
                assert(was.names()[k as int] != was.names()[idx]);
            }
        },
        None => {},
    }
}

/// The files are as they were but for one.
proof fn slots_carried(was: Engine, now: Engine, k: int)
    requires
        was.names().no_duplicates(),
        0 <= k < was.slots@.len(),
        now.slots@.len() == was.slots@.len(),
        forall|i: int| 0 <= i < was.slots@.len() && i != k ==> #[trigger] now.slots@[i] == was.slots@[i],
        now.slots@[k].name@ == was.slots@[k].name@,
        was.open matches Some((j, _)) ==> j == k,
        now.open matches Some((j, _)) ==> j == k,
        was.open is Some || now.open is Some,
    ensures
        carried_but(was, now, Some(was.slots@[k].name@)),
{
    assert(now.names() =~= was.names()) by {
        assert forall|i: int| 0 <= i < was.slots@.len() implies now.names()[i] == was.names()[i] by {
            if i != k {
                assert(now.slots@[i] == was.slots@[i]);
            }
        }
    }
    assert forall|m: Seq<char>, stock: Stock|
        was@.dbs.contains_key(m) && was@.dbs[m] is Some && now@.dbs.contains_key(m) && now@.dbs[m] is Some && m
            != was.slots@[k].name@ && was.within(m, stock) implies #[trigger] now.within(m, stock) by {
        let i = choose|i: int| 0 <= i < was.names().len() && was.names()[i] == m;
        was.place_of(i);
        now.place_of(i);
        assert(now.slots@[i] == was.slots@[i]);
    }
    assert forall|m: Seq<char>|
        was@.dbs.contains_key(m) && now@.dbs.contains_key(m) && m != was.slots@[k].name@ implies #[trigger] now.left(m)
        == was.left(m) by {
        let i = choose|i: int| 0 <= i < was.names().len() && was.names()[i] == m;
        was.place_of(i);
        now.place_of(i);
        assert(now.slots@[i] == was.slots@[i]);
    }
    assert forall|m: Seq<char>|
        was@.dbs.contains_key(m) && now@.dbs.contains_key(m) && was@.current != Some(m) && now@.current != Some(
            m,
        ) implies #[trigger] now.file_of(m) == was.file_of(m) by {
        let i = choose|i: int| 0 <= i < was.names().len() && was.names()[i] == m;
        was.place_of(i);
        now.place_of(i);
        assert(i != k);
        assert(now.slots@[i] == was.slots@[i]);
    }
}

/// The names and files are as they were but for one slot, and the view follows.
proof fn slot_changed(was: Engine, now: Engine, k: int)
    requires
        was.names().no_duplicates(),
        0 <= k < was.slots@.len(),
        now.slots@.len() == was.slots@.len(),
        forall|i: int| 0 <= i < was.slots@.len() ==> (#[trigger] now.slots@[i]).name@ == was.slots@[i].name@,
        forall|i: int| 0 <= i < was.slots@.len() && i != k ==> #[trigger] now.known(i) == was.known(i),
    ensures
        now.names() == was.names(),
        now@.dbs == was@.dbs.insert(was.slots@[k].name@, now.known(k)),
        was@.dbs.contains_key(was.slots@[k].name@),
{
    let n = was.slots@[k].name@;
    assert(now.names() =~= was.names());
    was.place_of(k);
    let dbs = was@.dbs.insert(n, now.known(k));
    assert forall|x: Seq<char>| now@.dbs.contains_key(x) implies now@.dbs[x] == dbs[x] by {
        let i = choose|i: int| 0 <= i < now.names().len() && now.names()[i] == x;
        now.place_of(i);
        was.place_of(i);
        if i != k {
            assert(was.names()[i] != was.names()[k]);
            assert(now.known(i) == was.known(i));
        }
    }
    assert(now@.dbs =~= dbs);
}

/// The database in use has been closed.
proof fn slot_closed(was: Engine, now: Engine, k: int, t: Tables)
    requires
        was.wf(),
        was.open matches Some((j, u)) && j == k && u == t,
        0 <= k < was.slots@.len(),
        now.open is None,
        now.slots@.len() == was.slots@.len(),
        forall|i: int| 0 <= i < was.slots@.len() && i != k ==> #[trigger] now.slots@[i] == was.slots@[i],
        now.slots@[k].name@ == was.slots@[k].name@,
        now.slots@[k].file is Some,
        now.slots@[k].db@ == if t.wf() && t.all_fit() && t.rooted_first() {
            Some(t@)
        } else {
            None
        },
        t.wf() && t.all_fit() && t.rooted_first() ==> db_file(
            now.slots@[k].file->Some_0@,
            now.slots@[k].trees@,
            t@,
        ) && left_in(now.slots@[k].file->Some_0@) == t.pages_left() && forall|stock: Stock| #[trigger]
            t.holds_in(stock) ==> file_within(now.slots@[k].trees@, stock),
    ensures
        now.wf(),
        now.in_use() is None,
        carried_but(was, now, None),
        now@ == closed(was@, was.in_use()),
{
    assert forall|i: int| 0 <= i < was.slots@.len() && i != k implies #[trigger] now.known(i) == was.known(i) by {
        assert(now.slots@[i] == was.slots@[i]);
    }
    assert forall|i: int| 0 <= i < was.slots@.len() implies (#[trigger] now.slots@[i]).name@ == was.slots@[i].name@ by {
        if i != k {
            assert(now.slots@[i] == was.slots@[i]);
        }
    }
    slot_changed(was, now, k);
    slots_carried(was, now, k);
    was.place_of(k);
    now.place_of(k);
    assert(now@.dbs =~= closed(was@, was.in_use()).dbs);
}

/// The database in use has been flushed.
proof fn slot_flushed(was: Engine, now: Engine, k: int)
    requires
        was.wf(),
        0 <= k < was.slots@.len(),
        now.slots@ == was.slots@,
        was.open matches Some((j, _)) && j == k,
        now.open matches Some((j, _)) && j == k,
        was.open->Some_0.1.wf() ==> stays(was.open->Some_0.1, now.open->Some_0.1),
    ensures
        now.wf(),
        carried_but(was, now, None),
        now@.current == Some(was.slots@[k].name@),
        was@.current == Some(was.slots@[k].name@),
        now@.dbs.remove(was.slots@[k].name@) == was@.dbs.remove(was.slots@[k].name@),
        now@.dbs.contains_key(was.slots@[k].name@),
{
    slot_changed(was, now, k);
    slots_carried(was, now, k);
    was.place_of(k);
    now.place_of(k);
    assert(now@.dbs.remove(was.slots@[k].name@) =~= was@.dbs.remove(was.slots@[k].name@));
}

/// A file that holds a database can be opened.
proof fn db_file_opens(m: Map<u32, Seq<u8>>, trees: Map<u32, Tree>, db: DbView)
    requires
        db_file(m, trees, db),
    ensures
        m.contains_key(0),
        decode(m[0]) is Ok,
        decode(m[0])->Ok_0 is Header,
{
    let shelf = choose|shelf: Map<Seq<u8>, Shelf>| #[trigger] catalog_file(m, trees, shelf) && represents(shelf, db);
    assert(sound(m));
}

/// A database has been opened.
proof fn slot_opened(was: Engine, mid: Engine, now: Engine, k: int, n: Seq<char>)
    requires
        was.wf(),
        mid.wf(),
        mid.open is None,
        mid@ == closed(was@, was.in_use()),
        0 <= k < mid.slots@.len(),
        mid.slots@[k].name@ == n,
        now.slots@.len() == mid.slots@.len(),
        forall|i: int| 0 <= i < mid.slots@.len() && i != k ==> #[trigger] now.slots@[i] == mid.slots@[i],
        now.slots@[k].name@ == n,
        now.open matches Some((j, _)) && j == k,
        carried_but(was, mid, None),
        !(was.open matches Some((j, _)) && j == k),
        was.slots@.len() == mid.slots@.len(),
        was.slots@[k].name@ == n,
        forall|stock: Stock|
            mid.slots@[k].db@ is Some && file_within(mid.slots@[k].trees@, stock) ==> #[trigger] now.open->Some_0.1.holds_in(
                stock,
            ),
        mid.slots@[k].db@ is Some ==> now.open->Some_0.1.pages_left() == left_in(mid.slots@[k].file->Some_0@),
    ensures
        now.wf(),
        carried_but(was, now, None),
        now@.current == Some(n),
        now.in_use() is Some,
        now@.dbs.remove(n) == closed(was@, was.in_use()).dbs.remove(n),
        now@.dbs.contains_key(n),
{
    slot_changed(mid, now, k);
    assert(now@.dbs.remove(n) =~= mid@.dbs.remove(n));
    slots_carried(mid, now, k);
    mid.place_of(k);
    now.place_of(k);
    was.place_of(k);
    if was.open is Some {
        let j = was.open->Some_0.0 as int;
        assert(was.names()[j] != was.names()[k]);
    }
    assert forall|m: Seq<char>, stock: Stock|
        was@.dbs.contains_key(m) && was@.dbs[m] is Some && now@.dbs.contains_key(m) && now@.dbs[m] is Some && was.within(
            m,
            stock,
        ) implies #[trigger] now.within(m, stock) by {
        assert(mid@.dbs.contains_key(m) && mid@.dbs[m] is Some) by {
            if m != n {
                assert(now@.dbs.remove(n).contains_key(m));
                assert(now@.dbs.remove(n)[m] == mid@.dbs.remove(n)[m]);
            }
        }
        assert(mid.within(m, stock));
    }
    assert forall|m: Seq<char>|
        was@.dbs.contains_key(m) && was@.dbs[m] is Some && now@.dbs.contains_key(m)
            && now@.dbs[m] is Some implies #[trigger] now.left(m) == was.left(m) by {
        assert(mid@.dbs.contains_key(m) && mid@.dbs[m] is Some) by {
            if m != n {
                assert(now@.dbs.remove(n).contains_key(m));
                assert(now@.dbs.remove(n)[m] == mid@.dbs.remove(n)[m]);
            }
        }
        assert(mid.left(m) == was.left(m));
        if m != n {
            assert(now.left(m) == mid.left(m));
        }
    }
    assert forall|m: Seq<char>|
        was@.dbs.contains_key(m) && now@.dbs.contains_key(m) && was@.current != Some(m) && now@.current != Some(
            m,
        ) implies #[trigger] now.file_of(m) == was.file_of(m) by {
        assert(now@.dbs.remove(n).contains_key(m));
        assert(mid@.dbs.contains_key(m));
        assert(mid.file_of(m) == was.file_of(m));
        assert(now.file_of(m) == mid.file_of(m));
    }
}

/// A statement has been run on the tables of the database in use.
proof fn statement_run(was: Engine, now: Engine)
    requires
        was.wf(),
        now.slots@ == was.slots@,
        now.removed@ == was.removed@,
        match was.open {
            None => now.open is None,
            Some((k, _)) => now.open matches Some((j, _)) && j == k,
        },
    ensures
        now.wf(),
        was.open is Some ==> {
            &&& now@.current == was@.current
            &&& now@.dbs.remove(was@.current->Some_0) == was@.dbs.remove(was@.current->Some_0)
            &&& now@.dbs.contains_key(was@.current->Some_0)
            &&& carried_but(was, now, was@.current)
        },
{
    if was.open is Some {
        let k = was.open->Some_0.0 as int;
        slot_changed(was, now, k);
        slots_carried(was, now, k);
        assert(now@.dbs.remove(was@.current->Some_0) =~= was@.dbs.remove(was@.current->Some_0));
    }
}

} // verus!
