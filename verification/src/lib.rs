//! An embedded SQL database.
//!
//! A [`Database`] executes SQL statements on the pages of database files. It does no input or output of
//! its own: the files are handed over when it is made, and handed back at the end.
use vstd::prelude::*;

use crate::engine::error::Error;
use crate::engine::executor::{opened, outcome, saved_in, Engine, QueryResult};
use crate::sql::ast::texts;
use crate::sql::parser::{floats_view, SyntaxError};
use crate::sql::{parsed, parser};
use crate::storage::pager::PageFile;

pub mod bytes;
pub mod engine;
pub mod ints;
pub mod render;
pub mod script;
pub mod sql;
pub mod storage;
pub mod text;

verus! {

/// Why a SQL string could not be executed.
#[derive(Debug)]
pub enum DatabaseError {
    /// It is no statement.
    Syntax(SyntaxError),
    /// The statement failed.
    Engine(Error),
}

/// What the engine has to say of a statement.
pub open spec fn engine_result(r: Result<QueryResult, DatabaseError>) -> Result<QueryResult, Error> {
    match r {
        Ok(q) => Ok(q),
        Err(e) => Err(e->Engine_0),
    }
}

/// Databases, of which one may be in use.
pub struct Database {
    engine: Engine,
}

impl Database {
    /// The query engine.
    pub closed spec fn engine(&self) -> Engine {
        self.engine
    }

    /// The databases of these files by their names, with none in use. Of two files with the same name
    /// the later one counts.
    pub fn new(files: Vec<(String, PageFile)>) -> (r: Database)
        ensures
            opened(r.engine(), files@),
    {
        Database { engine: Engine::open(files) }
    }

    /// Parse and execute a SQL string. `floats` has the bits of the numbers with a decimal point that
    /// occur in it, by how they are written.
    pub fn execute(&mut self, sql: &str, floats: Vec<(String, u64)>) -> (r: Result<QueryResult, DatabaseError>)
        ensures
            match parsed(sql@, floats_view(floats@)) {
                Err(e) => {
                    &&& r matches Err(DatabaseError::Syntax(x))
                    &&& x@ == e
                    &&& final(self).engine() == old(self).engine()
                },
                Ok(stmt) => {
                    &&& r is Err ==> r->Err_0 is Engine
                    &&& old(self).engine().wf() ==> outcome(
                        old(self).engine(),
                        final(self).engine(),
                        stmt,
                        engine_result(r),
                    )
                },
            },
    {
        match parser(sql, floats) {
            Err(e) => Err(DatabaseError::Syntax(e)),
            Ok(stmt) => match self.engine.execute(stmt) {
                Err(e) => Err(DatabaseError::Engine(e)),
                Ok(q) => Ok(q),
            },
        }
    }

    /// The files of the databases, and the names of the databases that were dropped, in the order in
    /// which they were.
    pub fn into_files(self) -> (r: (Vec<(String, PageFile)>, Vec<String>))
        ensures
            self.engine().wf() ==> saved_in(self.engine(), r.0@),
            texts(r.1@) == self.engine().dropped(),
    {
        self.engine.into_files()
    }
}

} // verus!
