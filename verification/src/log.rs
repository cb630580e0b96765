//! The log of a table and the directory of tables.

use vstd::prelude::*;
use crate::bridge::{parsed, printed, same_text};
use crate::db::{opened, table_file, table_views, Table, TableModel};
use crate::disk::{
    asks, done, extends, file_in, follows, heard, join_path, lemma_follows_part, ready, texts,
    with_ending, Action, Disk, Driver, Step,
};
use crate::error::{Error, Res};
use crate::value::{lookup, row_views, same_json, Fields, Json, JsonVal, Row};

verus! {

/// The line that records a row: its JSON text.
pub open spec fn row_line(row: Fields) -> Seq<char> {
    printed(Json::Object(row))
}

/// The lines that record rows, one for one.
pub open spec fn row_lines(rows: Seq<Fields>) -> Seq<Seq<char>> {
    Seq::new(rows.len(), |i: int| row_line(rows[i]))
}

/// Whether the line of a row reads back as a document that is equal, as JSON, to the row.
pub open spec fn row_reads(row: Fields) -> bool {
    match parsed(row_line(row)) {
        Some(back) => same_json(back, Json::Object(row)),
        None => false,
    }
}

/// The row that a line records: the line is the JSON text of an object.
pub open spec fn line_row(line: Seq<char>) -> Result<Fields, Error> {
    match parsed(line) {
        Some(Json::Object(m)) => Ok(m),
        _ => Err(Error::BadJson),
    }
}

/// The rows that the first `n` lines record, in their order, or the error of the first line
/// that records none.
pub open spec fn rows_upto(lines: Seq<Seq<char>>, n: nat) -> Result<Seq<Fields>, Error>
    decreases n,
{
    if n == 0 || n > lines.len() {
        Ok(Seq::empty())
    } else {
        match rows_upto(lines, (n - 1) as nat) {
            Ok(rows) => match line_row(lines[n - 1]) {
                Ok(row) => Ok(rows.push(row)),
                Err(e) => Err(e),
            },
            Err(e) => Err(e),
        }
    }
}

/// The rows that the lines of a table's log record.
pub open spec fn rows_of(lines: Seq<Seq<char>>) -> Result<Seq<Fields>, Error> {
    rows_upto(lines, lines.len())
}

/// An error among the first `n` lines is the error of every longer run.
pub proof fn lemma_rows_fail(lines: Seq<Seq<char>>, n: nat, m: nat)
    requires
        rows_upto(lines, n) is Err,
        n <= m <= lines.len(),
    ensures
        rows_upto(lines, m) == rows_upto(lines, n),
    decreases m - n,
{
    if n < m {
        lemma_rows_fail(lines, n, (m - 1) as nat);
    }
}

/// The row that a line of a table's log records.
pub fn parse_row(line: &str) -> (r: Res<Row>)
    ensures
        match r {
            Ok(row) => line_row(line@) == Ok::<Fields, Error>(row@),
            Err(e) => line_row(line@) == Err::<Fields, Error>(e),
        },
{
    match JsonVal::parse(line) {
        Ok(JsonVal::Object(row)) => Ok(row),
        _ => Err(Error::BadJson),
    }
}

/// The rows that the lines of a table's log record, in their order.
pub fn replay_rows(lines: &Vec<String>) -> (r: Res<Vec<Row>>)
    ensures
        match r {
            Ok(rows) => rows_of(texts(lines@)) == Ok::<Seq<Fields>, Error>(row_views(rows@)),
            Err(e) => rows_of(texts(lines@)) == Err::<Seq<Fields>, Error>(e),
        },
{
    let mut rows: Vec<Row> = Vec::new();
    let mut i: usize = 0;
    assert(row_views(rows@) =~= Seq::<Fields>::empty());
    while i < lines.len()
        invariant
            i <= lines.len(),
            rows_upto(texts(lines@), i as nat) == Ok::<Seq<Fields>, Error>(row_views(rows@)),
        decreases lines.len() - i,
    {
        let ghost before = row_views(rows@);
        match parse_row(lines[i].as_str()) {
            Ok(row) => {
                rows.push(row);
                assert(row_views(rows@) =~= before.push(row@));
            },
            Err(e) => {
                proof {
                    lemma_rows_fail(texts(lines@), (i + 1) as nat, lines@.len());
                }
                return Err(e);
            },
        }
        i += 1;
    }
    Ok(rows)
}

/// The lines that record rows, one for one.
pub fn print_rows(rows: &Vec<Row>) -> (lines: Vec<String>)
    ensures
        texts(lines@) == row_lines(row_views(rows@)),
{
    let mut lines: Vec<String> = Vec::new();
    let mut i: usize = 0;
    while i < rows.len()
        invariant
            i <= rows.len(),
            lines@.len() == i,
            forall|k: int| 0 <= k < i ==> lines@[k]@ == row_line(rows@[k]@),
        decreases rows.len() - i,
    {
        lines.push(rows[i].to_string());
        i += 1;
    }
    assert(texts(lines@) =~= row_lines(row_views(rows@)));
    lines
}

/// The log of a table: every row is written to it before the table takes it, and the table is
/// rebuilt from it.
#[derive(Debug, PartialEq)]
pub struct ReplayLog {
    path: String,
}

impl ReplayLog {
    /// The file of the log.
    pub closed spec fn path(&self) -> Seq<char> {
        self.path@
    }

    /// The step that writes rows to a log.
    pub open spec fn step(path: Seq<char>, rows: Seq<Fields>) -> Step {
        Step::Append(path, row_lines(rows))
    }

    /// The file of the log.
    pub fn file(&self) -> (p: &String)
        ensures
            p@ == self.path(),
    {
        &self.path
    }

    /// Starts the log of a new table in the file at `path` and writes the table's first rows
    /// to it.
    pub fn new<D: Fn(Action) -> Option<Vec<String>>>(
        path: String,
        rows: &Vec<Row>,
        io: &mut Driver<D>,
    ) -> (r: Res<ReplayLog>)
        requires
            ready(*old(io)),
        ensures
            heard(*old(io), *final(io), Self::step(path@, row_views(rows@))),
            r is Ok <==> final(io).said().last() is Some,
            r matches Ok(log) ==> log.path() == path@,
            r matches Err(e) ==> e == Error::BadWrite,
    {
        let log = Self::open(path);
        match log.insert(rows, io) {
            Ok(()) => Ok(log),
            Err(e) => Err(e),
        }
    }

    /// The log in the file at `path`.
    pub fn open(path: String) -> (log: ReplayLog)
        ensures
            log.path() == path@,
    {
        ReplayLog { path }
    }

    /// Writes rows to the log, in one step.
    pub fn insert<D: Fn(Action) -> Option<Vec<String>>>(
        &self,
        vals: &Vec<Row>,
        io: &mut Driver<D>,
    ) -> (r: Res<()>)
        requires
            ready(*old(io)),
        ensures
            heard(*old(io), *final(io), Self::step(self.path(), row_views(vals@))),
            r is Ok <==> final(io).said().last() is Some,
            r matches Err(e) ==> e == Error::BadWrite,
    {
        let lines = print_rows(vals);
        if done(&io.take(Action::Append(self.path.clone(), lines))) {
            Ok(())
        } else {
            Err(Error::BadWrite)
        }
    }

    /// Writes one row to the log.
    pub fn write<D: Fn(Action) -> Option<Vec<String>>>(
        &self,
        val: &Row,
        io: &mut Driver<D>,
    ) -> (r: Res<()>)
        requires
            ready(*old(io)),
        ensures
            heard(*old(io), *final(io), Self::step(self.path(), seq![val@])),
            r is Ok <==> final(io).said().last() is Some,
            r matches Err(e) ==> e == Error::BadWrite,
    {
        let mut lines: Vec<String> = Vec::new();
        lines.push(val.to_string());
        assert(texts(lines@) =~= row_lines(seq![val@]));
        if done(&io.take(Action::Append(self.path.clone(), lines))) {
            Ok(())
        } else {
            Err(Error::BadWrite)
        }
    }

    /// What a replay gives of what the driver read.
    pub open spec fn replay_of(reply: Option<Seq<Seq<char>>>) -> Result<Seq<Fields>, Error> {
        match reply {
            Some(lines) => rows_of(lines),
            None => Err(Error::BadIo),
        }
    }

    /// Reads the log and rebuilds the rows from it: asks the driver for the one step that
    /// reads the file, and replays what the driver said.
    pub fn replay<D: Fn(Action) -> Option<Vec<String>>>(&self, io: &mut Driver<D>) -> (r: Res<
        Vec<Row>,
    >)
        requires
            ready(*old(io)),
        ensures
            heard(*old(io), *final(io), Step::Read(self.path())),
            match r {
                Ok(rows) => Self::replay_of(final(io).said().last()) == Ok::<Seq<Fields>, Error>(
                    row_views(rows@),
                ),
                Err(e) => Self::replay_of(final(io).said().last()) == Err::<Seq<Fields>, Error>(e),
            },
    {
        match io.take(Action::Read(self.path.clone())) {
            Some(lines) => replay_rows(&lines),
            None => Err(Error::BadIo),
        }
    }
}

/// The members of a record of the directory: the name of a table and the file of its log.
pub open spec fn config_fields(table: Seq<char>, path: Seq<char>) -> Fields {
    seq![("table"@, Json::String(table)), ("path"@, Json::String(path))]
}

/// The line that records a table in the directory.
pub open spec fn config_line(table: Seq<char>, path: Seq<char>) -> Seq<char> {
    printed(Json::Object(config_fields(table, path)))
}

/// Whether the line of a table in the directory reads back as a document in which every
/// member of the record stands, with an equal value.
#[verifier::opaque]
pub open spec fn config_reads(table: Seq<char>, path: Seq<char>) -> bool {
    match parsed(config_line(table, path)) {
        Some(back) => same_json(Json::Object(config_fields(table, path)), back),
        None => false,
    }
}

/// The table that a line of the directory records: the line is the JSON text of an object
/// whose members `table` and `path` are strings.
pub open spec fn line_config(line: Seq<char>) -> Result<(Seq<char>, Seq<char>), Error> {
    match parsed(line) {
        Some(Json::Object(m)) => match (lookup(m, "table"@), lookup(m, "path"@)) {
            (Some(Json::String(t)), Some(Json::String(p))) => Ok((t, p)),
            _ => Err(Error::BadJson),
        },
        _ => Err(Error::BadJson),
    }
}

/// The name of the file of a directory.
pub open spec fn dir_file(root: Seq<char>, name: Seq<char>) -> Seq<char> {
    file_in(root, name + ".db"@)
}

/// The tables that the first `n` lines of a directory record, each opened from its own log,
/// or the first error.
pub open spec fn tables_upto(lines: Seq<Seq<char>>, disk: Disk, n: nat) -> Result<
    Seq<TableModel>,
    Error,
>
    decreases n,
{
    if n == 0 || n > lines.len() {
        Ok(Seq::empty())
    } else {
        match tables_upto(lines, disk, (n - 1) as nat) {
            Ok(tables) => match line_config(lines[n - 1]) {
                Ok((table, path)) => match opened(table, path, disk(Step::Read(path))) {
                    Ok(t) => Ok(tables.push(t)),
                    Err(e) => Err(e),
                },
                Err(e) => Err(e),
            },
            Err(e) => Err(e),
        }
    }
}

/// The tables of the directory in the file at `path`.
pub open spec fn loaded(path: Seq<char>, disk: Disk) -> Result<Seq<TableModel>, Error> {
    match disk(Step::Read(path)) {
        Some(lines) => tables_upto(lines, disk, lines.len()),
        None => Err(Error::BadIo),
    }
}

/// The first `n` lines of a directory without the records of the table `name`, or the error
/// of the first line that records no table.
pub open spec fn kept_upto(lines: Seq<Seq<char>>, name: Seq<char>, n: nat) -> Result<
    Seq<Seq<char>>,
    Error,
>
    decreases n,
{
    if n == 0 || n > lines.len() {
        Ok(Seq::empty())
    } else {
        match kept_upto(lines, name, (n - 1) as nat) {
            Ok(kept) => match line_config(lines[n - 1]) {
                Ok((table, path)) => if table == name {
                    Ok(kept)
                } else {
                    Ok(kept.push(config_line(table, path)))
                },
                Err(e) => Err(e),
            },
            Err(e) => Err(e),
        }
    }
}

/// The steps that reading the first `n` lines of a directory asks for: the log of each table
/// that a line records is read, as long as every line before recorded a table that opened.
pub open spec fn reads_upto(lines: Seq<Seq<char>>, disk: Disk, n: nat) -> Seq<Step>
    decreases n,
{
    if n == 0 || n > lines.len() {
        Seq::empty()
    } else {
        let before = reads_upto(lines, disk, (n - 1) as nat);
        match (tables_upto(lines, disk, (n - 1) as nat), line_config(lines[n - 1])) {
            (Ok(_), Ok((_, path))) => before.push(Step::Read(path)),
            _ => before,
        }
    }
}

/// The steps that loading a directory asks for, in their order: the directory is read, and
/// then the log of each table that it records, up to the first that does not open.
pub open spec fn load_steps(path: Seq<char>, disk: Disk) -> Seq<Step> {
    match disk(Step::Read(path)) {
        Some(lines) => seq![Step::Read(path)] + reads_upto(lines, disk, lines.len()),
        None => seq![Step::Read(path)],
    }
}

/// What taking a table out of a directory gives, and the steps that it asks for, in their
/// order. The directory is read. Where no line records the table, nothing else is asked for
/// and the result is `false`. Else the directory is written anew without the records of the
/// table and put in the place of the old one, then the file of the table's log is deleted,
/// and the result is `true`. A step that fails is an I/O error, and no step follows it.
pub open spec fn removal(root: Seq<char>, path: Seq<char>, name: Seq<char>, disk: Disk) -> (
    Result<bool, Error>,
    Seq<Step>,
) {
    let read = Step::Read(path);
    match disk(read) {
        Some(lines) => match kept_upto(lines, name, lines.len()) {
            Ok(kept) => {
                let swap = Step::Replace(path, kept);
                let drop = Step::Remove(table_file(root, name));
                if kept.len() >= lines.len() {
                    (Ok(false), seq![read])
                } else if disk(swap) is None {
                    (Err(Error::BadIo), seq![read, swap])
                } else if disk(drop) is None {
                    (Err(Error::BadIo), seq![read, swap, drop])
                } else {
                    (Ok(true), seq![read, swap, drop])
                }
            },
            Err(e) => (Err(e), seq![read]),
        },
        None => (Err(Error::BadIo), seq![read]),
    }
}

/// Once a line of a directory has failed, no further step is asked for.
pub proof fn lemma_reads_stop(lines: Seq<Seq<char>>, disk: Disk, n: nat, m: nat)
    requires
        tables_upto(lines, disk, n) is Err,
        n <= m <= lines.len(),
    ensures
        reads_upto(lines, disk, m) == reads_upto(lines, disk, n),
    decreases m - n,
{
    if n < m {
        lemma_reads_stop(lines, disk, n, (m - 1) as nat);
        lemma_tables_fail(lines, disk, n, (m - 1) as nat);
    }
}

/// An error among the first `n` lines is the error of every longer run.
pub proof fn lemma_tables_fail(lines: Seq<Seq<char>>, disk: Disk, n: nat, m: nat)
    requires
        tables_upto(lines, disk, n) is Err,
        n <= m <= lines.len(),
    ensures
        tables_upto(lines, disk, m) == tables_upto(lines, disk, n),
    decreases m - n,
{
    if n < m {
        lemma_tables_fail(lines, disk, n, (m - 1) as nat);
    }
}

/// An error among the first `n` lines is the error of every longer run.
pub proof fn lemma_kept_fails(lines: Seq<Seq<char>>, name: Seq<char>, n: nat, m: nat)
    requires
        kept_upto(lines, name, n) is Err,
        n <= m <= lines.len(),
    ensures
        kept_upto(lines, name, m) == kept_upto(lines, name, n),
    decreases m - n,
{
    if n < m {
        lemma_kept_fails(lines, name, n, (m - 1) as nat);
    }
}

/// One record of the directory: a table and the file of its log.
#[derive(Debug, PartialEq)]
pub struct TableConfig {
    pub table: String,
    pub path: String,
}

impl TableConfig {
    /// The line that records the table.
    pub fn line(&self) -> (s: String)
        ensures
            s@ == config_line(self.table@, self.path@),
    {
        let mut row = Row::new();
        row.insert("table".to_owned(), JsonVal::String(self.table.clone()));
        proof {
            reveal_strlit("table");
            reveal_strlit("path");
            assert("table"@[0] != "path"@[0]);
            assert forall|j: int| 0 <= j < row@.len() implies row@[j].0 != "path"@ by {}
        }
        row.insert("path".to_owned(), JsonVal::String(self.path.clone()));
        assert(row@ =~= config_fields(self.table@, self.path@));
        row.to_string()
    }

    /// Whether the line of the table reads back as a document in which every member of the
    /// record stands, with an equal value.
    pub fn comes_back(&self) -> (b: bool)
        ensures
            b == config_reads(self.table@, self.path@),
    {
        let mut row = Row::new();
        row.insert("table".to_owned(), JsonVal::String(self.table.clone()));
        proof {
            reveal_strlit("table");
            reveal_strlit("path");
            assert("table"@[0] != "path"@[0]);
            assert forall|j: int| 0 <= j < row@.len() implies row@[j].0 != "path"@ by {}
        }
        row.insert("path".to_owned(), JsonVal::String(self.path.clone()));
        assert(row@ =~= config_fields(self.table@, self.path@));
        proof {
            reveal(config_reads);
        }
        let doc = JsonVal::Object(row);
        match JsonVal::parse(doc.to_string().as_str()) {
            Ok(back) => doc == back,
            Err(_) => false,
        }
    }

    /// The table that a line records.
    pub fn parse(line: &str) -> (r: Res<TableConfig>)
        ensures
            match r {
                Ok(c) => line_config(line@) == Ok::<(Seq<char>, Seq<char>), Error>(
                    (c.table@, c.path@),
                ),
                Err(e) => line_config(line@) == Err::<(Seq<char>, Seq<char>), Error>(e),
            },
    {
        match JsonVal::parse(line) {
            Ok(JsonVal::Object(row)) => match (row.get("table"), row.get("path")) {
                (Some(JsonVal::String(t)), Some(JsonVal::String(p))) => Ok(
                    TableConfig { table: t.clone(), path: p.clone() },
                ),
                _ => Err(Error::BadJson),
            },
            _ => Err(Error::BadJson),
        }
    }
}

/// The directory of a database: the log that records which tables there are and where the log
/// of each is.
#[derive(Debug, PartialEq)]
pub struct DbConfig {
    name: String,
    root_path: String,
    path: String,
}

impl DbConfig {
    /// The name of the database.
    pub closed spec fn name(&self) -> Seq<char> {
        self.name@
    }

    /// The directory that holds the files of the database.
    pub closed spec fn root(&self) -> Seq<char> {
        self.root_path@
    }

    /// The file of the directory.
    pub closed spec fn path(&self) -> Seq<char> {
        self.path@
    }

    /// The file of the directory is the one that is named after the database.
    pub open spec fn wf(&self) -> bool {
        self.path() == dir_file(self.root(), self.name())
    }

    /// The directory of the database `name` under `root`.
    pub fn open(root: &str, name: &str) -> (log: DbConfig)
        ensures
            log.name() == name@,
            log.root() == root@,
            log.wf(),
    {
        let path = join_path(root, with_ending(name, ".db").as_str());
        DbConfig { name: name.to_owned(), root_path: root.to_owned(), path }
    }

    /// The directory that holds the files of the database.
    pub fn root_path(&self) -> (p: &str)
        ensures
            p@ == self.root(),
    {
        self.root_path.as_str()
    }

    /// The step that records a table in the directory.
    pub open spec fn step(&self, table: Seq<char>) -> Step {
        Step::Append(self.path(), seq![config_line(table, table_file(self.root(), table))])
    }

    /// Records a table in the directory.
    pub fn insert<D: Fn(Action) -> Option<Vec<String>>>(
        &self,
        table: &str,
        io: &mut Driver<D>,
    ) -> (r: Res<()>)
        requires
            ready(*old(io)),
        ensures
            heard(*old(io), *final(io), self.step(table@)),
            r is Ok <==> final(io).said().last() is Some,
            r matches Err(e) ==> e == Error::BadWrite,
    {
        let path = join_path(self.root_path.as_str(), with_ending(table, ".table").as_str());
        let config = TableConfig { table: table.to_owned(), path };
        let mut lines: Vec<String> = Vec::new();
        lines.push(config.line());
        assert(texts(lines@) =~= seq![config_line(table@, table_file(self.root(), table@))]);
        if done(&io.take(Action::Append(self.path.clone(), lines))) {
            Ok(())
        } else {
            Err(Error::BadWrite)
        }
    }

    /// Reads the directory and opens every table that it records, each from its own log.
    pub fn load<D: Fn(Action) -> Option<Vec<String>>>(&self, io: &mut Driver<D>) -> (r: Res<
        Vec<Table>,
    >)
        requires
            ready(*old(io)),
        ensures
            extends(*old(io), *final(io)),
            forall|disk: Disk| #[trigger] follows(disk, *old(io), *final(io)) ==> asks(
                *old(io),
                *final(io),
                load_steps(self.path(), disk),
            ) && match r {
                Ok(tables) => loaded(self.path(), disk) == Ok::<Seq<TableModel>, Error>(
                    table_views(tables@),
                ),
                Err(e) => loaded(self.path(), disk) == Err::<Seq<TableModel>, Error>(e),
            },
    {
        let ghost read = Step::Read(self.path());
        let lines = match io.take(Action::Read(self.path.clone())) {
            Some(lines) => lines,
            None => {
                return Err(Error::BadIo);
            },
        };
        let ghost first = *io;
        let mut tables: Vec<Table> = Vec::new();
        let mut i: usize = 0;
        assert(table_views(tables@) =~= Seq::<TableModel>::empty());
        assert(old(io).asked() + seq![read] =~= old(io).asked() + (seq![read]
            + Seq::<Step>::empty()));
        while i < lines.len()
            invariant
                extends(*old(io), first),
                extends(first, *io),
                extends(*old(io), *io),
                ready(*old(io)),
                heard(*old(io), first, read),
                first.said().last() == Some(texts(lines@)),
                read == Step::Read(self.path()),
                i <= lines.len(),
                forall|disk: Disk| #[trigger] follows(disk, *old(io), *io) ==> {
                    &&& tables_upto(texts(lines@), disk, i as nat) == Ok::<
                        Seq<TableModel>,
                        Error,
                    >(table_views(tables@))
                    &&& io.asked() == old(io).asked() + (seq![read] + reads_upto(
                        texts(lines@),
                        disk,
                        i as nat,
                    ))
                },
            decreases lines.len() - i,
        {
            let ghost before = table_views(tables@);
            let ghost was_io = *io;
            let next = match TableConfig::parse(lines[i].as_str()) {
                Ok(config) => Table::open(config.table, config.path, io),
                Err(e) => Err(e),
            };
            proof {
                assert forall|disk: Disk| #[trigger] follows(disk, *old(io), *io) implies {
                    &&& follows(disk, *old(io), was_io)
                    &&& follows(disk, was_io, *io)
                    &&& io.asked() == old(io).asked() + (seq![read] + reads_upto(
                        texts(lines@),
                        disk,
                        (i + 1) as nat,
                    ))
                } by {
                    lemma_follows_part(disk, *old(io), *old(io), was_io, *io);
                    lemma_follows_part(disk, *old(io), was_io, *io, *io);
                    let was = reads_upto(texts(lines@), disk, i as nat);
                    match line_config(texts(lines@)[i as int]) {
                        Ok((_, path)) => {
                            assert(io.asked() =~= was_io.asked() + seq![Step::Read(path)]);
                            assert(old(io).asked() + (seq![read] + was) + seq![Step::Read(path)]
                                =~= old(io).asked() + (seq![read] + was.push(Step::Read(path))));
                        },
                        Err(_) => {},
                    }
                }
            }
            match next {
                Ok(table) => {
                    tables.push(table);
                    assert(table_views(tables@) =~= before.push(table@));
                },
                Err(e) => {
                    proof {
                        assert forall|disk: Disk| #[trigger]
                            follows(disk, *old(io), *io) implies follows(disk, *old(io), first)
                            && tables_upto(texts(lines@), disk, lines@.len()) == Err::<
                            Seq<TableModel>,
                            Error,
                        >(e) && reads_upto(texts(lines@), disk, lines@.len()) == reads_upto(
                            texts(lines@),
                            disk,
                            (i + 1) as nat,
                        ) by {
                            lemma_follows_part(disk, *old(io), *old(io), first, *io);
                            lemma_tables_fail(
                                texts(lines@),
                                disk,
                                (i + 1) as nat,
                                lines@.len(),
                            );
                            lemma_reads_stop(texts(lines@), disk, (i + 1) as nat, lines@.len());
                        }
                    }
                    return Err(e);
                },
            }
            i += 1;
        }
        proof {
            assert forall|disk: Disk| #[trigger] follows(disk, *old(io), *io) implies follows(
                disk,
                *old(io),
                first,
            ) by {
                lemma_follows_part(disk, *old(io), *old(io), first, *io);
            }
        }
        Ok(tables)
    }

    /// The lines of a directory without the records of the table `tbl_name`, each written
    /// anew from what it records.
    pub fn compact(lines: &Vec<String>, tbl_name: &str) -> (r: Res<Vec<String>>)
        ensures
            match r {
                Ok(kept) => kept_upto(texts(lines@), tbl_name@, lines@.len()) == Ok::<
                    Seq<Seq<char>>,
                    Error,
                >(texts(kept@)) && kept@.len() <= lines@.len(),
                Err(e) => kept_upto(texts(lines@), tbl_name@, lines@.len()) == Err::<
                    Seq<Seq<char>>,
                    Error,
                >(e),
            },
    {
        let mut kept: Vec<String> = Vec::new();
        let mut i: usize = 0;
        assert(texts(kept@) =~= Seq::<Seq<char>>::empty());
        while i < lines.len()
            invariant
                i <= lines.len(),
                kept@.len() <= i,
                kept_upto(texts(lines@), tbl_name@, i as nat) == Ok::<Seq<Seq<char>>, Error>(
                    texts(kept@),
                ),
            decreases lines.len() - i,
        {
            let ghost before = texts(kept@);
            match TableConfig::parse(lines[i].as_str()) {
                Ok(config) => {
                    if !same_text(config.table.as_str(), tbl_name) {
                        let line = config.line();
                        kept.push(line);
                        assert(texts(kept@) =~= before.push(line@));
                    }
                },
                Err(e) => {
                    proof {
                        lemma_kept_fails(texts(lines@), tbl_name@, (i + 1) as nat, lines@.len());
                    }
                    return Err(e);
                },
            }
            i += 1;
        }
        Ok(kept)
    }

    /// Takes a table out of the directory. Where the directory records the table, it is
    /// written anew without the records of the table and put in the place of the old one, and
    /// the file of the table's log is deleted; where it does not, nothing is written. Returns
    /// whether the directory had the table.
    pub fn remove_table<D: Fn(Action) -> Option<Vec<String>>>(
        &self,
        tbl_name: &str,
        io: &mut Driver<D>,
    ) -> (r: Res<bool>)
        requires
            ready(*old(io)),
        ensures
            extends(*old(io), *final(io)),
            r == Ok::<bool, Error>(false) ==> heard(
                *old(io),
                *final(io),
                Step::Read(self.path()),
            ) && match final(io).said().last() {
                Some(lines) => kept_upto(lines, tbl_name@, lines.len()) matches Ok(kept)
                    && kept.len() >= lines.len(),
                None => false,
            },
            forall|disk: Disk| #[trigger] follows(disk, *old(io), *final(io)) ==> r == removal(
                self.root(),
                self.path(),
                tbl_name@,
                disk,
            ).0 && asks(
                *old(io),
                *final(io),
                removal(self.root(), self.path(), tbl_name@, disk).1,
            ),
    {
        let ghost read = Step::Read(self.path());
        let read_lines = io.take(Action::Read(self.path.clone()));
        let ghost io1 = *io;
        proof {
            assert forall|disk: Disk| #[trigger] follows(disk, *old(io), *io) implies follows(
                disk,
                *old(io),
                io1,
            ) by {
                lemma_follows_part(disk, *old(io), *old(io), io1, *io);
            }
        }
        let lines = match read_lines {
            Some(lines) => lines,
            None => {
                return Err(Error::BadIo);
            },
        };
        let kept = Self::compact(&lines, tbl_name)?;
        if kept.len() >= lines.len() {
            return Ok(false);
        }
        let ghost swap = Step::Replace(self.path(), texts(kept@));
        let swapped = done(&io.take(Action::Replace(self.path.clone(), kept)));
        let ghost io2 = *io;
        proof {
            assert(io.asked() =~= old(io).asked() + seq![read, swap]);
            assert forall|disk: Disk| #[trigger] follows(disk, *old(io), *io) implies follows(
                disk,
                *old(io),
                io1,
            ) && follows(disk, io1, io2) by {
                lemma_follows_part(disk, *old(io), *old(io), io1, *io);
                lemma_follows_part(disk, *old(io), io1, io2, *io);
            }
        }
        if !swapped {
            return Err(Error::BadIo);
        }
        let file = join_path(self.root_path.as_str(), with_ending(tbl_name, ".table").as_str());
        let ghost drop = Step::Remove(file@);
        let gone = done(&io.take(Action::Remove(file)));
        proof {
            assert(io.asked() =~= old(io).asked() + seq![read, swap, drop]);
            assert forall|disk: Disk| #[trigger] follows(disk, *old(io), *io) implies follows(
                disk,
                *old(io),
                io1,
            ) && follows(disk, io1, io2) && follows(disk, io2, *io) by {
                lemma_follows_part(disk, *old(io), *old(io), io1, *io);
                lemma_follows_part(disk, *old(io), io1, io2, *io);
                lemma_follows_part(disk, *old(io), io2, *io, *io);
            }
        }
        if !gone {
            return Err(Error::BadIo);
        }
        Ok(true)
    }
}

} // verus!
