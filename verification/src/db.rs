//! Tables and the database: rows and keyed values in memory, each behind a log that the storage
//! driver writes before the memory changes.

use vstd::prelude::*;
use crate::arith::yields;
use crate::bridge::same_text;
use crate::disk::{
    asks, extends, file_in, follows, heard, join_path, lemma_follows_part, ready, with_ending,
    Action, Disk, Driver, Step,
};
use crate::error::{ends_as, Error, Res};
use crate::eval::{answer_to, direct, eval_json_cmd, quiet, settled, sure};
use crate::fpu::{computes, total, Calc, Unit};
use crate::json::{parse_json_str, request_of};
use crate::laws::{law_delete_forgets, law_insert_makes_or_grows, lemma_some_table};
use crate::log::{config_line, dir_file, load_steps, loaded, removal, rows_of, DbConfig, ReplayLog};
use crate::query::Query;
use crate::replay::{record_line, Entry};
use crate::value::{
    bind, distinct_keys, lemma_bind_same, lemma_unbind_same, lookup, row_views, unbind, Fields,
    JsonVal, Row,
};

verus! {

/// The mathematical value of a table: its name, the file of its log, and its rows in the order
/// in which they were written.
pub struct TableModel {
    pub name: Seq<char>,
    pub path: Seq<char>,
    pub rows: Seq<Fields>,
}

/// A named sequence of rows with the log that records them.
#[derive(Debug, PartialEq)]
pub struct Table {
    name: String,
    rows: Vec<Row>,
    log: ReplayLog,
}

impl View for Table {
    type V = TableModel;

    closed spec fn view(&self) -> TableModel {
        TableModel { name: self.name@, path: self.log.path(), rows: row_views(self.rows@) }
    }
}

/// The views of a sequence of tables, one for one.
pub open spec fn table_views(s: Seq<Table>) -> Seq<TableModel> {
    Seq::new(s.len(), |i: int| s[i]@)
}

/// The name of the file of a table's log.
pub open spec fn table_file(root: Seq<char>, name: Seq<char>) -> Seq<char> {
    file_in(root, name + ".table"@)
}

/// What opening a table gives of what the driver read of its log.
pub open spec fn opened(name: Seq<char>, path: Seq<char>, reply: Option<Seq<Seq<char>>>) -> Result<
    TableModel,
    Error,
> {
    match reply {
        Some(lines) => match rows_of(lines) {
            Ok(rows) => Ok(TableModel { name, path, rows }),
            Err(e) => Err(e),
        },
        None => Err(Error::BadIo),
    }
}

impl Table {
    /// Makes a table in the directory `path`: writes `rows` to the log of the new table and
    /// holds them.
    pub fn new<D: Fn(Action) -> Option<Vec<String>>>(
        name: String,
        path: &str,
        rows: Vec<Row>,
        io: &mut Driver<D>,
    ) -> (r: Res<Table>)
        requires
            ready(*old(io)),
        ensures
            heard(
                *old(io),
                *final(io),
                ReplayLog::step(table_file(path@, name@), row_views(rows@)),
            ),
            r is Ok <==> final(io).said().last() is Some,
            r matches Ok(t) ==> t@ == (TableModel {
                name: name@,
                path: table_file(path@, name@),
                rows: row_views(rows@),
            }),
            r matches Err(e) ==> e == Error::BadWrite,
    {
        let file = join_path(path, with_ending(name.as_str(), ".table").as_str());
        match ReplayLog::new(file, &rows, io) {
            Ok(log) => Ok(Table { name, rows, log }),
            Err(e) => Err(e),
        }
    }

    /// Opens a table: reads the log in the file at `path` and holds the rows that it records.
    pub fn open<D: Fn(Action) -> Option<Vec<String>>>(
        name: String,
        path: String,
        io: &mut Driver<D>,
    ) -> (r: Res<Table>)
        requires
            ready(*old(io)),
        ensures
            heard(*old(io), *final(io), Step::Read(path@)),
            match r {
                Ok(t) => opened(name@, path@, final(io).said().last()) == Ok::<TableModel, Error>(
                    t@,
                ),
                Err(e) => opened(name@, path@, final(io).said().last()) == Err::<
                    TableModel,
                    Error,
                >(e),
            },
    {
        let log = ReplayLog::open(path);
        match log.replay(io) {
            Ok(rows) => Ok(Table { name, rows, log }),
            Err(e) => Err(e),
        }
    }

    /// A table of its parts.
    pub fn from(name: String, rows: Vec<Row>, log: ReplayLog) -> (t: Table)
        ensures
            t@ == (TableModel { name: name@, path: log.path(), rows: row_views(rows@) }),
    {
        Table { name, rows, log }
    }

    /// Adds rows at the end of the table, once its log has taken them.
    pub fn insert<D: Fn(Action) -> Option<Vec<String>>>(
        &mut self,
        rows: Vec<Row>,
        io: &mut Driver<D>,
    ) -> (r: Res<()>)
        requires
            ready(*old(io)),
        ensures
            heard(*old(io), *final(io), ReplayLog::step(old(self)@.path, row_views(rows@))),
            r is Ok <==> final(io).said().last() is Some,
            final(self)@.name == old(self)@.name,
            final(self)@.path == old(self)@.path,
            match r {
                Ok(()) => final(self)@.rows == old(self)@.rows + row_views(rows@),
                Err(e) => e == Error::BadWrite && final(self)@.rows == old(self)@.rows,
            },
    {
        match self.log.insert(&rows, io) {
            Ok(()) => {
                let ghost before = self.rows@;
                let ghost added = rows@;
                let mut rows = rows;
                self.rows.append(&mut rows);
                assert(row_views(self.rows@) =~= row_views(before) + row_views(added));
                Ok(())
            },
            Err(e) => Err(e),
        }
    }

    /// The name of the table.
    pub fn name(&self) -> (s: &str)
        ensures
            s@ == self@.name,
    {
        self.name.as_str()
    }

    /// The number of rows.
    pub fn len(&self) -> (n: usize)
        ensures
            n == self@.rows.len(),
    {
        self.rows.len()
    }

    /// The rows, in the order in which they were written.
    pub fn rows(&self) -> (rows: &Vec<Row>)
        ensures
            row_views(rows@) == self@.rows,
    {
        &self.rows
    }

    /// The file of the table's log.
    pub fn path(&self) -> (p: &String)
        ensures
            p@ == self@.path,
    {
        self.log.file()
    }
}

/// A request on the tables of a database.
#[derive(Debug, PartialEq)]
pub enum Cmd {
    /// Add rows to a table, which is made where there is none of the name.
    Insert(String, Vec<Row>),
    /// Delete a table.
    Delete(String),
    /// Select from a table.
    Query(Query),
}

/// Whether `i` is the place of the first table named `name`.
pub open spec fn named_at(tables: Seq<TableModel>, name: Seq<char>, i: int) -> bool {
    &&& 0 <= i < tables.len()
    &&& tables[i].name == name
    &&& forall|j: int| 0 <= j < i ==> tables[j].name != name
}

/// Whether there is a table named `name`.
pub open spec fn has_table(tables: Seq<TableModel>, name: Seq<char>) -> bool {
    exists|i: int| named_at(tables, name, i)
}

/// The place of the first table named `name`.
pub open spec fn table_at(tables: Seq<TableModel>, name: Seq<char>) -> int {
    choose|i: int| named_at(tables, name, i)
}

/// No two tables have one name.
pub open spec fn distinct_names(tables: Seq<TableModel>) -> bool {
    forall|i: int, j: int| 0 <= i < j < tables.len() ==> tables[i].name != tables[j].name
}

/// A first table of a name is the only first one.
pub proof fn lemma_table_unique(tables: Seq<TableModel>, name: Seq<char>, i: int)
    requires
        named_at(tables, name, i),
    ensures
        has_table(tables, name),
        table_at(tables, name) == i,
{
    let k = table_at(tables, name);
    assert(named_at(tables, name, k));
    if k < i {
        assert(tables[k].name != name);
    }
    if i < k {
        assert(tables[i].name != name);
    }
}

/// The mathematical value of a database: where its files are, its tables in the order in
/// which they were made, and the values that are stored under keys.
pub struct DatabaseModel {
    pub root: Seq<char>,
    pub name: Seq<char>,
    pub tables: Seq<TableModel>,
    pub cache: Fields,
}

/// The name of the file of the journal of keys.
pub open spec fn journal_file(root: Seq<char>, name: Seq<char>) -> Seq<char> {
    file_in(root, name + ".log"@)
}

/// The step that records an entry in the journal of keys.
pub open spec fn journal_step(m: DatabaseModel, entry: Entry) -> Step {
    Step::Append(journal_file(m.root, m.name), seq![record_line(entry.0, entry.1)])
}

/// The step that records a table in the directory.
pub open spec fn directory_step(m: DatabaseModel, table: Seq<char>) -> Step {
    Step::Append(
        dir_file(m.root, m.name),
        seq![config_line(table, table_file(m.root, table))],
    )
}

/// The database that opening gives: the tables that the directory records, each rebuilt from
/// its log, and the keys rebuilt from their journal. A directory that records two tables of one
/// name is a bad line.
pub open spec fn booted(root: Seq<char>, name: Seq<char>, disk: Disk) -> Result<
    DatabaseModel,
    Error,
> {
    match loaded(dir_file(root, name), disk) {
        Ok(tables) => if !distinct_names(tables) {
            Err(Error::BadLine)
        } else {
            match crate::replay::ReplayLog::replay_of(disk(Step::Read(journal_file(root, name)))) {
                Ok(cache) => Ok(DatabaseModel { root, name, tables, cache }),
                Err(e) => Err(e),
            }
        },
        Err(e) => Err(e),
    }
}

/// The steps that opening asks for, in their order: those of loading the directory, and where
/// that gave tables with their names to themselves, the step that reads the journal.
pub open spec fn boot_steps(root: Seq<char>, name: Seq<char>, disk: Disk) -> Seq<Step> {
    let first = load_steps(dir_file(root, name), disk);
    match loaded(dir_file(root, name), disk) {
        Ok(tables) => if !distinct_names(tables) {
            first
        } else {
            first.push(Step::Read(journal_file(root, name)))
        },
        Err(_) => first,
    }
}

/// The tables with rows added to the table `name`: at the end of the table where it is there,
/// else in a new table behind the others.
pub open spec fn with_rows(m: DatabaseModel, name: Seq<char>, rows: Seq<Fields>) -> Seq<
    TableModel,
> {
    if has_table(m.tables, name) {
        let i = table_at(m.tables, name);
        let t = m.tables[i];
        m.tables.update(i, TableModel { rows: t.rows + rows, ..t })
    } else {
        m.tables.push(TableModel { name, path: table_file(m.root, name), rows })
    }
}

/// The tables without the first table named `name`.
pub open spec fn without(tables: Seq<TableModel>, name: Seq<char>) -> Seq<TableModel> {
    if has_table(tables, name) {
        tables.remove(table_at(tables, name))
    } else {
        tables
    }
}

/// Whether the driver takes the steps of adding rows to the table `name`. Where the table is
/// there, its log takes the rows. Where it is not, the log of a new table takes the rows, and
/// then the directory takes the table.
pub open spec fn insert_taken(
    m: DatabaseModel,
    name: Seq<char>,
    rows: Seq<Fields>,
    disk: Disk,
) -> bool {
    if has_table(m.tables, name) {
        disk(ReplayLog::step(m.tables[table_at(m.tables, name)].path, rows)) is Some
    } else {
        disk(ReplayLog::step(table_file(m.root, name), rows)) is Some && disk(
            directory_step(m, name),
        ) is Some
    }
}

/// The steps that adding rows to the table `name` asks for, in their order. Where the table is
/// there, the one step that writes the rows to its log. Where it is not, the step that writes
/// the rows to the log of a new table, and where the driver took that, the step that records
/// the table in the directory.
pub open spec fn insert_steps(
    m: DatabaseModel,
    name: Seq<char>,
    rows: Seq<Fields>,
    disk: Disk,
) -> Seq<Step> {
    if has_table(m.tables, name) {
        seq![ReplayLog::step(m.tables[table_at(m.tables, name)].path, rows)]
    } else if disk(ReplayLog::step(table_file(m.root, name), rows)) is Some {
        seq![ReplayLog::step(table_file(m.root, name), rows), directory_step(m, name)]
    } else {
        seq![ReplayLog::step(table_file(m.root, name), rows)]
    }
}

/// What deleting the table `name` returns: once the directory has let go of the table, whether
/// the table was there.
pub open spec fn deleted(m: DatabaseModel, name: Seq<char>, disk: Disk) -> Result<bool, Error> {
    match removal(m.root, dir_file(m.root, m.name), name, disk).0 {
        Ok(_) => Ok(has_table(m.tables, name)),
        Err(e) => Err(e),
    }
}

/// The steps that deleting the table `name` asks for, in their order: those of taking the
/// table out of the directory.
pub open spec fn delete_steps(m: DatabaseModel, name: Seq<char>, disk: Disk) -> Seq<Step> {
    removal(m.root, dir_file(m.root, m.name), name, disk).1
}

/// The in-memory database: tables and keyed values, each behind a log that takes a change
/// before the memory does.
#[derive(Debug, PartialEq)]
pub struct Database {
    root_path: String,
    tables: Vec<Table>,
    log: DbConfig,
    cache: Row,
    journal: crate::replay::ReplayLog,
}

impl View for Database {
    type V = DatabaseModel;

    closed spec fn view(&self) -> DatabaseModel {
        DatabaseModel {
            root: self.root_path@,
            name: self.log.name(),
            tables: table_views(self.tables@),
            cache: self.cache@,
        }
    }
}

impl Database {
    /// The logs of the database are the files that are named after it.
    pub closed spec fn in_place(&self) -> bool {
        &&& self.log.wf()
        &&& self.log.root() == self.root_path@
        &&& self.journal.path() == journal_file(self.root_path@, self.log.name())
    }

    /// The database is well formed: its logs are the files that are named after it, no key is
    /// stored twice, and no two tables have one name.
    pub open spec fn wf(&self) -> bool {
        &&& self.in_place()
        &&& distinct_keys(self@.cache)
        &&& distinct_names(self@.tables)
    }

    /// Whether no two of the tables have one name.
    pub fn names_apart(tables: &Vec<Table>) -> (b: bool)
        ensures
            b == distinct_names(table_views(tables@)),
    {
        let mut j: usize = 0;
        while j < tables.len()
            invariant
                j <= tables.len(),
                forall|a: int, b: int|
                    0 <= a < b < j ==> table_views(tables@)[a].name != table_views(
                        tables@,
                    )[b].name,
            decreases tables.len() - j,
        {
            let mut i: usize = 0;
            while i < j
                invariant
                    i <= j < tables.len(),
                    forall|a: int|
                        0 <= a < i ==> table_views(tables@)[a].name != table_views(
                            tables@,
                        )[j as int].name,
                decreases j - i,
            {
                if same_text(tables[i].name(), tables[j].name()) {
                    assert(table_views(tables@)[i as int].name == table_views(
                        tables@,
                    )[j as int].name);
                    return false;
                }
                i += 1;
            }
            j += 1;
        }
        true
    }

    /// Opens the database `name` in the directory `path`: reads its directory, rebuilds every
    /// table from its log, and the keys from their journal.
    pub fn open<D: Fn(Action) -> Option<Vec<String>>>(
        path: &str,
        name: &str,
        io: &mut Driver<D>,
    ) -> (r: Res<Database>)
        requires
            ready(*old(io)),
        ensures
            extends(*old(io), *final(io)),
            r matches Ok(db) ==> db.wf() && db@.root == path@ && db@.name == name@,
            forall|disk: Disk| #[trigger] follows(disk, *old(io), *final(io)) ==> asks(
                *old(io),
                *final(io),
                boot_steps(path@, name@, disk),
            ) && match r {
                Ok(db) => booted(path@, name@, disk) == Ok::<DatabaseModel, Error>(db@),
                Err(e) => booted(path@, name@, disk) == Err::<DatabaseModel, Error>(e),
            },
    {
        let log = DbConfig::open(path, name);
        let tables = log.load(io)?;
        if !Self::names_apart(&tables) {
            return Err(Error::BadLine);
        }
        let journal = crate::replay::ReplayLog::open(
            join_path(path, with_ending(name, ".log").as_str()),
        );
        let ghost loaded_io = *io;
        let read = journal.replay(io);
        proof {
            assert forall|disk: Disk| #[trigger] follows(disk, *old(io), *io) implies follows(
                disk,
                *old(io),
                loaded_io,
            ) && follows(disk, loaded_io, *io) && asks(
                *old(io),
                *io,
                boot_steps(path@, name@, disk),
            ) by {
                lemma_follows_part(disk, *old(io), *old(io), loaded_io, *io);
                lemma_follows_part(disk, *old(io), loaded_io, *io, *io);
                let first = load_steps(dir_file(path@, name@), disk);
                assert(old(io).asked() + first + seq![Step::Read(journal_file(path@, name@))]
                    =~= old(io).asked() + first.push(Step::Read(journal_file(path@, name@))));
            }
        }
        let cache = read?;
        Ok(Database { root_path: path.to_owned(), tables, log, cache, journal })
    }

    /// The tables, in the order in which they were made.
    pub fn tables(&self) -> (tables: &Vec<Table>)
        ensures
            table_views(tables@) == self@.tables,
    {
        &self.tables
    }

    /// The directory that holds the files of the database.
    pub fn root_path(&self) -> (p: &str)
        ensures
            p@ == self@.root,
    {
        self.root_path.as_str()
    }

    /// The place of the first table named `name`.
    pub fn table_exits(&self, name: &str) -> (r: Option<usize>)
        ensures
            match r {
                Some(i) => named_at(self@.tables, name@, i as int),
                None => !has_table(self@.tables, name@),
            },
    {
        let mut i: usize = 0;
        while i < self.tables.len()
            invariant
                i <= self.tables.len(),
                forall|j: int| 0 <= j < i ==> self@.tables[j].name != name@,
            decreases self.tables.len() - i,
        {
            if same_text(self.tables[i].name(), name) {
                return Some(i);
            }
            i += 1;
        }
        None
    }

    /// The first table named `name`.
    pub fn find_table(&self, name: &str) -> (r: Option<&Table>)
        ensures
            match r {
                Some(t) => has_table(self@.tables, name@) && t@ == self@.tables[table_at(
                    self@.tables,
                    name@,
                )],
                None => !has_table(self@.tables, name@),
            },
    {
        match self.table_exits(name) {
            Some(i) => {
                proof {
                    lemma_table_unique(self@.tables, name@, i as int);
                }
                Some(&self.tables[i])
            },
            None => None,
        }
    }

    /// The first table named `name`, to change it in its place.
    pub fn find_table_mut(&mut self, name: &str) -> (r: Option<&mut Table>)
        ensures
            match r {
                Some(t) => {
                    &&& has_table(old(self)@.tables, name@)
                    &&& t@ == old(self)@.tables[table_at(old(self)@.tables, name@)]
                    &&& final(self)@.tables =~= old(self)@.tables.update(
                        table_at(old(self)@.tables, name@),
                        final(t)@,
                    )
                    &&& final(self)@.root == old(self)@.root
                    &&& final(self)@.name == old(self)@.name
                    &&& final(self)@.cache == old(self)@.cache
                    &&& final(self).in_place() == old(self).in_place()
                },
                None => !has_table(old(self)@.tables, name@) && *final(self) == *old(self),
            },
    {
        match self.table_exits(name) {
            Some(i) => {
                proof {
                    lemma_table_unique(self@.tables, name@, i as int);
                }
                Some(&mut self.tables[i])
            },
            None => None,
        }
    }

    /// Takes a table that was made elsewhere: the directory records it, and then it stands
    /// behind the others. A table whose name another table has is refused, and nothing is asked
    /// of the driver.
    pub fn insert<D: Fn(Action) -> Option<Vec<String>>>(
        &mut self,
        table: Table,
        io: &mut Driver<D>,
    ) -> (r: Res<()>)
        requires
            old(self).wf(),
            ready(*old(io)),
        ensures
            final(self).wf(),
            final(self)@.root == old(self)@.root,
            final(self)@.name == old(self)@.name,
            final(self)@.cache == old(self)@.cache,
            r is Err ==> final(self)@.tables == old(self)@.tables,
            r is Ok ==> final(self)@.tables == old(self)@.tables.push(table@),
            if has_table(old(self)@.tables, table@.name) {
                r == Err::<(), Error>(Error::BadRequest) && asks(*old(io), *final(io), Seq::empty())
            } else {
                &&& heard(*old(io), *final(io), directory_step(old(self)@, table@.name))
                &&& r is Ok <==> final(io).said().last() is Some
                &&& r matches Err(e) ==> e == Error::BadWrite
            },
    {
        if self.table_exits(table.name()).is_some() {
            return Err(Error::BadRequest);
        }
        match self.log.insert(table.name(), io) {
            Ok(()) => {
                let ghost before = table_views(self.tables@);
                proof {
                    assert forall|j: int| 0 <= j < before.len() implies before[j].name
                        != table@.name by {
                        if before[j].name == table@.name {
                            lemma_some_table(before, table@.name, j);
                        }
                    }
                }
                self.tables.push(table);
                assert(table_views(self.tables@) =~= before.push(table@));
                Ok(())
            },
            Err(e) => Err(e),
        }
    }

    /// Adds rows to the table `name`, which is made where there is none of the name.
    pub fn insert_table<D: Fn(Action) -> Option<Vec<String>>>(
        &mut self,
        name: String,
        rows: Vec<Row>,
        io: &mut Driver<D>,
    ) -> (r: Res<()>)
        requires
            old(self).wf(),
            ready(*old(io)),
        ensures
            final(self).wf(),
            final(self)@.root == old(self)@.root,
            final(self)@.name == old(self)@.name,
            final(self)@.cache == old(self)@.cache,
            extends(*old(io), *final(io)),
            match r {
                Ok(()) => final(self)@.tables == with_rows(old(self)@, name@, row_views(rows@)),
                Err(e) => e == Error::BadWrite && final(self)@.tables == old(self)@.tables,
            },
            has_table(old(self)@.tables, name@) ==> heard(
                *old(io),
                *final(io),
                ReplayLog::step(
                    old(self)@.tables[table_at(old(self)@.tables, name@)].path,
                    row_views(rows@),
                ),
            ) && (r is Ok <==> final(io).said().last() is Some),
            forall|disk: Disk|
                #[trigger] follows(disk, *old(io), *final(io)) ==> (r is Ok <==> insert_taken(
                old(self)@,
                name@,
                row_views(rows@),
                disk,
            )) && asks(
                *old(io),
                *final(io),
                insert_steps(old(self)@, name@, row_views(rows@), disk),
            ),
    {
        proof {
            law_insert_makes_or_grows(self@, name@, row_views(rows@));
        }
        match self.table_exits(name.as_str()) {
            Some(i) => {
                proof {
                    lemma_table_unique(self@.tables, name@, i as int);
                }
                let ghost before = table_views(self.tables@);
                let ghost added = row_views(rows@);
                let mut table = self.tables.remove(i);
                let ghost found = table@;
                let r = table.insert(rows, io);
                self.tables.insert(i, table);
                assert(table_views(self.tables@) =~= before.update(i as int, table@));
                proof {
                    if r is Ok {
                        assert(table@ == (TableModel { rows: found.rows + added, ..found }));
                    } else {
                        assert(table@ == found);
                        assert(before.update(i as int, found) =~= before);
                    }
                }
                r
            },
            None => {
                let table = Table::new(name, self.root_path.as_str(), rows, io)?;
                let ghost made = *io;
                let r = self.insert(table, io);
                proof {
                    assert forall|disk: Disk| #[trigger]
                        follows(disk, *old(io), *io) implies follows(
                        disk,
                        *old(io),
                        made,
                    ) && follows(disk, made, *io) by {
                        lemma_follows_part(disk, *old(io), *old(io), made, *io);
                        lemma_follows_part(disk, *old(io), made, *io, *io);
                    }
                }
                r
            },
        }
    }

    /// Deletes the table `name`: the directory lets go of it, the file of its log is deleted,
    /// and then the table leaves. Returns whether the table was there.
    pub fn delete_table<D: Fn(Action) -> Option<Vec<String>>>(
        &mut self,
        tbl_name: &str,
        io: &mut Driver<D>,
    ) -> (r: Res<bool>)
        requires
            old(self).wf(),
            ready(*old(io)),
        ensures
            final(self).wf(),
            final(self)@.root == old(self)@.root,
            final(self)@.name == old(self)@.name,
            final(self)@.cache == old(self)@.cache,
            extends(*old(io), *final(io)),
            match r {
                Ok(found) => found == has_table(old(self)@.tables, tbl_name@)
                    && final(self)@.tables == without(old(self)@.tables, tbl_name@)
                    && !has_table(final(self)@.tables, tbl_name@),
                Err(_) => final(self)@.tables == old(self)@.tables,
            },
            forall|disk: Disk| #[trigger] follows(disk, *old(io), *final(io)) ==> r == deleted(
                old(self)@,
                tbl_name@,
                disk,
            ) && asks(*old(io), *final(io), delete_steps(old(self)@, tbl_name@, disk)),
    {
        proof {
            law_delete_forgets(self@.tables, tbl_name@);
        }
        self.log.remove_table(tbl_name, io)?;
        match self.table_exits(tbl_name) {
            Some(index) => {
                proof {
                    lemma_table_unique(self@.tables, tbl_name@, index as int);
                }
                let ghost before = table_views(self.tables@);
                self.tables.remove(index);
                assert(table_views(self.tables@) =~= before.remove(index as int));
                Ok(true)
            },
            None => Ok(false),
        }
    }

    /// Runs a request on the tables. A query gives rows, which this entry cannot hand back: it
    /// is a bad request here, and nothing is asked of the driver.
    pub fn eval_cmd<D: Fn(Action) -> Option<Vec<String>>>(
        &mut self,
        cmd: Cmd,
        io: &mut Driver<D>,
    ) -> (r: Res<()>)
        requires
            old(self).wf(),
            ready(*old(io)),
        ensures
            final(self).wf(),
            final(self)@.root == old(self)@.root,
            final(self)@.name == old(self)@.name,
            final(self)@.cache == old(self)@.cache,
            extends(*old(io), *final(io)),
            r is Err ==> final(self)@.tables == old(self)@.tables,
            r is Ok ==> final(self)@.tables == match cmd {
                Cmd::Insert(name, rows) => with_rows(old(self)@, name@, row_views(rows@)),
                Cmd::Delete(name) => without(old(self)@.tables, name@),
                Cmd::Query(_) => old(self)@.tables,
            },
            forall|disk: Disk| #[trigger] follows(disk, *old(io), *final(io)) ==> match cmd {
                Cmd::Insert(name, rows) => (r is Ok <==> insert_taken(
                    old(self)@,
                    name@,
                    row_views(rows@),
                    disk,
                )) && asks(
                    *old(io),
                    *final(io),
                    insert_steps(old(self)@, name@, row_views(rows@), disk),
                ),
                Cmd::Delete(name) => ends_as(r, deleted(old(self)@, name@, disk)) && asks(
                    *old(io),
                    *final(io),
                    delete_steps(old(self)@, name@, disk),
                ),
                Cmd::Query(_) => true,
            },
            cmd is Insert ==> (r matches Err(e) ==> e == Error::BadWrite),
            cmd is Query ==> r == Err::<(), Error>(Error::BadRequest) && asks(
                *old(io),
                *final(io),
                Seq::empty(),
            ),
    {
        match cmd {
            Cmd::Insert(name, rows) => self.insert_table(name, rows, io),
            Cmd::Delete(name) => match self.delete_table(name.as_str(), io) {
                Ok(_) => Ok(()),
                Err(e) => Err(e),
            },
            Cmd::Query(_) => Err(Error::BadRequest),
        }
    }

    /// Parses the text of a request and runs it on the stored values. A text that is no
    /// request fails, changes nothing and asks nothing of the driver.
    pub fn eval<F: Fn(Calc) -> Option<serde_json::Number>, D: Fn(Action) -> Option<Vec<String>>>(
        &mut self,
        line: &str,
        fpu: &F,
        io: &mut Driver<D>,
    ) -> (r: Res<JsonVal>)
        requires
            old(self).wf(),
            total(fpu),
            ready(*old(io)),
        ensures
            final(self).wf(),
            final(self)@ == (DatabaseModel { cache: final(self)@.cache, ..old(self)@ }),
            extends(*old(io), *final(io)),
            match request_of(line@) {
                Ok(cmd) => direct(cmd, old(self)@, final(self)@.cache, r, *old(io), *final(io))
                    && (quiet(cmd) ==> final(self)@.cache == old(self)@.cache && asks(
                    *old(io),
                    *final(io),
                    Seq::empty(),
                )) && (sure(cmd, old(self)@.cache) matches Some(v) ==> settled(
                    v,
                    r,
                    old(self)@,
                    final(self)@.cache,
                    *old(io),
                    *final(io),
                )),
                Err(e) => r == Err::<JsonVal, Error>(e) && final(self)@.cache == old(self)@.cache
                    && asks(*old(io), *final(io), Seq::empty()),
            },
            forall|unit: Unit, disk: Disk|
                #![trigger computes(fpu, unit), follows(disk, *old(io), *final(io))]
                computes(fpu, unit) && follows(disk, *old(io), *final(io)) ==> yields(
                    r,
                    answer_to(line@, old(self)@, unit, disk).0,
                ) && final(self)@.cache == answer_to(line@, old(self)@, unit, disk).1 && asks(
                    *old(io),
                    *final(io),
                    answer_to(line@, old(self)@, unit, disk).2,
                ),
    {
        match parse_json_str(line) {
            Ok(cmd) => eval_json_cmd(cmd, self, fpu, io),
            Err(e) => Err(e),
        }
    }

    /// The value that is stored under `key`.
    pub fn get(&self, key: &str) -> (r: Option<&JsonVal>)
        ensures
            match r {
                Some(v) => lookup(self@.cache, key@) == Some(v@),
                None => lookup(self@.cache, key@) is None,
            },
    {
        self.cache.get(key)
    }

    /// Stores `val` under `key`, once the journal has taken the entry, and returns the value
    /// that the key had. The driver is asked for the one step that writes the entry; where it
    /// does not take it, the store stays as it was.
    pub fn set<D: Fn(Action) -> Option<Vec<String>>>(
        &mut self,
        key: String,
        val: JsonVal,
        io: &mut Driver<D>,
    ) -> (r: Res<Option<JsonVal>>)
        requires
            old(self).wf(),
            ready(*old(io)),
        ensures
            final(self).wf(),
            heard(*old(io), *final(io), journal_step(old(self)@, (key@, Some(val@)))),
            r is Ok <==> final(io).said().last() is Some,
            match r {
                Ok(prev) => {
                    &&& final(self)@ == (DatabaseModel {
                        cache: bind(old(self)@.cache, key@, val@),
                        ..old(self)@
                    })
                    &&& lookup(final(self)@.cache, key@) == Some(val@)
                    &&& match prev {
                        Some(v) => lookup(old(self)@.cache, key@) == Some(v@),
                        None => lookup(old(self)@.cache, key@) is None,
                    }
                },
                Err(e) => e == Error::BadWrite && final(self)@ == old(self)@,
            },
    {
        proof {
            lemma_bind_same(self@.cache, key@, val@);
        }
        match self.journal.write(key.as_str(), &val, io) {
            Ok(()) => Ok(self.cache.insert(key, val)),
            Err(e) => Err(e),
        }
    }

    /// Deletes `key`, once the journal has taken the entry, and returns the value that the key
    /// had. The driver is asked for the one step that writes the entry; where it does not take
    /// it, the store stays as it was.
    pub fn del<D: Fn(Action) -> Option<Vec<String>>>(
        &mut self,
        key: &str,
        io: &mut Driver<D>,
    ) -> (r: Res<Option<JsonVal>>)
        requires
            old(self).wf(),
            ready(*old(io)),
        ensures
            final(self).wf(),
            heard(*old(io), *final(io), journal_step(old(self)@, (key@, None))),
            r is Ok <==> final(io).said().last() is Some,
            match r {
                Ok(prev) => {
                    &&& final(self)@ == (DatabaseModel {
                        cache: unbind(old(self)@.cache, key@),
                        ..old(self)@
                    })
                    &&& lookup(final(self)@.cache, key@) is None
                    &&& match prev {
                        Some(v) => lookup(old(self)@.cache, key@) == Some(v@),
                        None => lookup(old(self)@.cache, key@) is None,
                    }
                },
                Err(e) => e == Error::BadIo && final(self)@ == old(self)@,
            },
    {
        proof {
            lemma_unbind_same(self@.cache, key@);
        }
        match self.journal.erase(key, io) {
            Ok(()) => Ok(self.cache.remove(key)),
            Err(e) => Err(e),
        }
    }
}

} // verus!
