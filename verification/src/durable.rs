//! What holds of the store and its files together: a change that the driver took is still
//! there when the store is opened again.

use vstd::prelude::*;
use crate::db::{
    booted, delete_steps, deleted, directory_step, distinct_names, has_table, insert_steps,
    insert_taken, journal_file, journal_step, lemma_table_unique, named_at, opened, table_at,
    table_file, with_rows, without, DatabaseModel, TableModel,
};
use crate::disk::{file_in, Disk, Step};
use crate::error::Error;
use crate::eval::run;
use crate::fpu::Unit;
use crate::laws::{
    alike, law_config_round_trip, law_delete_forgets, law_insert_makes_or_grows,
    law_record_reads_back, lemma_apply_alike, lemma_replay_one_more, lemma_rows_appended,
    lemma_rows_back_alike, lemma_some_table, rows_alike, rows_back, taken, write_of,
};
use crate::log::{
    config_line, config_reads, dir_file, kept_upto, line_config, line_row, row_line, row_lines,
    row_reads, tables_upto, ReplayLog,
};
use crate::replay::{apply, line_record, reads_alike, record_line, Entry};
use crate::value::Fields;

verus! {

/// The files of a directory: the lines of each file that is there.
pub type Files = Map<Seq<char>, Seq<Seq<char>>>;

/// The lines of a file; a file that is not there has none.
pub open spec fn content(f: Files, path: Seq<char>) -> Seq<Seq<char>> {
    if f.dom().contains(path) {
        f[path]
    } else {
        Seq::empty()
    }
}

/// What a driver answers that takes every step on the files as they are.
pub open spec fn reads(f: Files) -> Disk {
    |s: Step|
        match s {
            Step::Read(p) => Some(content(f, p)),
            _ => Some(Seq::empty()),
        }
}

/// The files after a step. A read leaves the lines of every file as they are: a file that it
/// makes has no lines, as one that is not there.
pub open spec fn written(f: Files, s: Step) -> Files {
    match s {
        Step::Read(p) => f,
        Step::Append(p, lines) => f.insert(p, content(f, p) + lines),
        Step::Replace(p, lines) => f.insert(p, lines),
        Step::Remove(p) => f.remove(p),
    }
}

/// The files after steps, in their order.
pub open spec fn written_all(f: Files, steps: Seq<Step>) -> Files
    decreases steps.len(),
{
    if steps.len() == 0 {
        f
    } else {
        written(written_all(f, steps.drop_last()), steps.last())
    }
}

/// The files after one, two and three steps.
pub proof fn lemma_written_few(f: Files, a: Step, b: Step, c: Step)
    ensures
        written_all(f, seq![a]) == written(f, a),
        written_all(f, seq![a, b]) == written(written(f, a), b),
        written_all(f, seq![a, b, c]) == written(written(written(f, a), b), c),
{
    assert(seq![a].drop_last() =~= Seq::<Step>::empty());
    assert(seq![a, b].drop_last() =~= seq![a]);
    assert(seq![a, b, c].drop_last() =~= seq![a, b]);
    assert(written_all(f, Seq::<Step>::empty()) == f);
    assert(written_all(f, seq![a]) == written(written_all(f, seq![a].drop_last()), a));
    assert(written_all(f, seq![a, b]) == written(written_all(f, seq![a, b].drop_last()), b));
    assert(written_all(f, seq![a, b, c]) == written(
        written_all(f, seq![a, b, c].drop_last()),
        c,
    ));
}

/// The logs of the tables are the files that are named after them, and no two tables have one
/// name.
pub open spec fn placed(m: DatabaseModel) -> bool {
    &&& distinct_names(m.tables)
    &&& forall|i: int|
        0 <= i < m.tables.len() ==> (#[trigger] m.tables[i]).path == table_file(
            m.root,
            m.tables[i].name,
        )
}

/// The database is what opening it from the files gives.
pub open spec fn read_from(m: DatabaseModel, f: Files) -> bool {
    booted(m.root, m.name, reads(f)) == Ok::<DatabaseModel, Error>(m)
}

/// Whether two runs of tables are as long, each table with the name and the file of the
/// other and with rows like the other's.
pub open spec fn tables_alike(a: Seq<TableModel>, b: Seq<TableModel>) -> bool {
    &&& a.len() == b.len()
    &&& forall|i: int|
        0 <= i < a.len() ==> (#[trigger] a[i]).name == b[i].name && a[i].path == b[i].path
            && rows_alike(a[i].rows, b[i].rows)
}

/// Whether two databases are in one place and hold tables and keys that are alike: the same
/// tables with the same number of rows and the same keys, in the same order, and each row and
/// each value of the one is that of the other, or equal to it as JSON.
pub open spec fn like(d: DatabaseModel, m: DatabaseModel) -> bool {
    &&& d.root == m.root
    &&& d.name == m.name
    &&& tables_alike(d.tables, m.tables)
    &&& alike(d.cache, m.cache)
}

/// The database and its files are in step: opening the database from the files gives a
/// database like it.
pub open spec fn in_step(m: DatabaseModel, f: Files) -> bool {
    match booted(m.root, m.name, reads(f)) {
        Ok(d) => like(d, m),
        Err(_) => false,
    }
}

/// A database that is what opening it from the files gives is in step with the files.
pub proof fn law_opened_is_in_step(m: DatabaseModel, f: Files)
    requires
        read_from(m, f),
    ensures
        in_step(m, f),
{
}

/// Tables that are alike have a table of a name at the same place, or both have none, and
/// the names of the ones are apart where those of the others are.
pub proof fn lemma_tables_alike_named(a: Seq<TableModel>, b: Seq<TableModel>, name: Seq<char>)
    requires
        tables_alike(a, b),
    ensures
        has_table(a, name) == has_table(b, name),
        has_table(a, name) ==> table_at(a, name) == table_at(b, name),
        distinct_names(b) ==> distinct_names(a),
{
    if has_table(a, name) {
        let i = table_at(a, name);
        assert(named_at(a, name, i));
        assert(a[i].name == b[i].name);
        assert forall|j: int| 0 <= j < i implies b[j].name != name by {
            assert(a[j].name == b[j].name);
        }
        assert(named_at(b, name, i));
        lemma_table_unique(b, name, i);
    } else if has_table(b, name) {
        let i = table_at(b, name);
        assert(named_at(b, name, i));
        assert(a[i].name == b[i].name);
        assert forall|j: int| 0 <= j < i implies a[j].name != name by {
            assert(a[j].name == b[j].name);
        }
        assert(named_at(a, name, i));
    }
    if distinct_names(b) {
        assert forall|i: int, j: int| 0 <= i < j < a.len() implies a[i].name != a[j].name by {
            assert(a[i].name == b[i].name && a[j].name == b[j].name);
        }
    }
}

/// A database like one whose tables are in their places has its tables in their places.
pub proof fn lemma_like_placed(d: DatabaseModel, m: DatabaseModel)
    requires
        like(d, m),
        placed(m),
    ensures
        placed(d),
{
    lemma_tables_alike_named(d.tables, m.tables, Seq::empty());
    assert forall|i: int| 0 <= i < d.tables.len() implies (#[trigger] d.tables[i]).path
        == table_file(d.root, d.tables[i].name) by {
        assert(d.tables[i].name == m.tables[i].name && d.tables[i].path == m.tables[i].path);
    }
}

/// Two names in one directory are one file only where they are one name.
pub proof fn lemma_file_in_injective(root: Seq<char>, a: Seq<char>, b: Seq<char>)
    requires
        file_in(root, a) == file_in(root, b),
    ensures
        a == b,
{
    let p = if root.len() == 0 || root.last() == '/' {
        root
    } else {
        root + seq!['/']
    };
    assert(file_in(root, a) =~= p + a);
    assert(file_in(root, b) =~= p + b);
    assert((p + a).subrange(p.len() as int, (p + a).len() as int) =~= a);
    assert((p + b).subrange(p.len() as int, (p + b).len() as int) =~= b);
}

/// The files of the directory, of the journal and of the tables are all different, and two
/// tables have one file only where they have one name.
pub proof fn lemma_files_apart(root: Seq<char>, name: Seq<char>, t: Seq<char>, u: Seq<char>)
    ensures
        journal_file(root, name) != table_file(root, t),
        journal_file(root, name) != dir_file(root, name),
        dir_file(root, name) != table_file(root, t),
        table_file(root, t) == table_file(root, u) ==> t == u,
{
    reveal_strlit(".log");
    reveal_strlit(".table");
    reveal_strlit(".db");
    let log = name + ".log"@;
    let db = name + ".db"@;
    let table = t + ".table"@;
    let other = u + ".table"@;
    assert(log.last() == 'g');
    assert(db.last() == 'b');
    assert(table.last() == 'e');
    if journal_file(root, name) == table_file(root, t) {
        lemma_file_in_injective(root, log, table);
    }
    if journal_file(root, name) == dir_file(root, name) {
        lemma_file_in_injective(root, log, db);
    }
    if dir_file(root, name) == table_file(root, t) {
        lemma_file_in_injective(root, db, table);
    }
    if table_file(root, t) == table_file(root, u) {
        lemma_file_in_injective(root, table, other);
        assert(table.subrange(0, t.len() as int) =~= t);
        assert(other.subrange(0, u.len() as int) =~= u);
    }
}

/// Whether the first `n` lines of a directory record the tables `ts`, each as its log gives
/// it.
pub open spec fn records(lines: Seq<Seq<char>>, disk: Disk, ts: Seq<TableModel>, n: nat) -> bool {
    &&& ts.len() == n <= lines.len()
    &&& forall|i: int|
        0 <= i < n ==> line_config(#[trigger] lines[i]) == Ok::<(Seq<char>, Seq<char>), Error>(
            (ts[i].name, ts[i].path),
        )
    &&& forall|i: int|
        0 <= i < n ==> opened(
            (#[trigger] ts[i]).name,
            ts[i].path,
            disk(Step::Read(ts[i].path)),
        ) == Ok::<TableModel, Error>(ts[i])
}

/// The tables that a directory gives are the tables that its lines record.
pub proof fn lemma_tables_are_recorded(lines: Seq<Seq<char>>, disk: Disk, n: nat)
    requires
        n <= lines.len(),
        tables_upto(lines, disk, n) is Ok,
    ensures
        records(lines, disk, tables_upto(lines, disk, n)->Ok_0, n),
    decreases n,
{
    if n > 0 {
        lemma_tables_are_recorded(lines, disk, (n - 1) as nat);
    }
}

/// The tables that the lines of a directory record are the tables that the directory gives.
pub proof fn lemma_recorded_are_tables(
    lines: Seq<Seq<char>>,
    disk: Disk,
    ts: Seq<TableModel>,
    n: nat,
)
    requires
        records(lines, disk, ts, n),
    ensures
        tables_upto(lines, disk, n) == Ok::<Seq<TableModel>, Error>(ts),
    decreases n,
{
    if n == 0 {
        assert(ts =~= Seq::<TableModel>::empty());
    } else {
        let rest = ts.drop_last();
        assert forall|i: int| 0 <= i < n - 1 implies opened(
            (#[trigger] rest[i]).name,
            rest[i].path,
            disk(Step::Read(rest[i].path)),
        ) == Ok::<TableModel, Error>(rest[i]) by {
            assert(rest[i] == ts[i]);
        }
        assert forall|i: int| 0 <= i < n - 1 implies line_config(#[trigger] lines[i]) == Ok::<
            (Seq<char>, Seq<char>),
            Error,
        >((rest[i].name, rest[i].path)) by {
            assert(rest[i] == ts[i]);
        }
        lemma_recorded_are_tables(lines, disk, rest, (n - 1) as nat);
        assert(line_config(lines[n - 1]) == Ok::<(Seq<char>, Seq<char>), Error>(
            (ts[n - 1].name, ts[n - 1].path),
        ));
        assert(opened(ts[n - 1].name, ts[n - 1].path, disk(Step::Read(ts[n - 1].path)))
            == Ok::<TableModel, Error>(ts[n - 1]));
        assert(rest.push(ts[n - 1]) =~= ts);
    }
}

/// A line that the journal took is there when the database is opened again: a database that
/// was what its files give is, with the entry of the line applied, what its files give with
/// the line at the end of the journal.
pub proof fn lemma_write_files(d: DatabaseModel, f: Files, entry: Entry, back: Entry)
    requires
        read_from(d, f),
        placed(d),
        line_record(record_line(entry.0, entry.1)) == Ok::<Entry, Error>(back),
    ensures
        read_from(
            DatabaseModel { cache: apply(d.cache, back), ..d },
            written(f, journal_step(d, entry)),
        ),
{
    let m = d;
    let journal = journal_file(m.root, m.name);
    let dir = dir_file(m.root, m.name);
    let after = written(f, journal_step(m, entry));
    lemma_files_apart(m.root, m.name, Seq::empty(), Seq::empty());
    let lines = content(f, dir);
    assert(content(after, dir) == lines);
    lemma_tables_are_recorded(lines, reads(f), lines.len());
    assert forall|i: int| 0 <= i < m.tables.len() implies opened(
        (#[trigger] m.tables[i]).name,
        m.tables[i].path,
        reads(after)(Step::Read(m.tables[i].path)),
    ) == Ok::<TableModel, Error>(m.tables[i]) by {
        lemma_files_apart(m.root, m.name, m.tables[i].name, Seq::empty());
        assert(content(after, m.tables[i].path) == content(f, m.tables[i].path));
    }
    lemma_recorded_are_tables(lines, reads(after), m.tables, lines.len());
    let line = record_line(entry.0, entry.1);
    lemma_replay_one_more(content(f, journal), line, back);
    assert(content(after, journal) =~= content(f, journal).push(line));
}

/// The files after rows were added to the table `name`: the log of the table has the lines of
/// the rows; for a new table, the directory has its line too.
pub open spec fn after_insert(
    m: DatabaseModel,
    f: Files,
    name: Seq<char>,
    rows: Seq<Fields>,
) -> Files {
    if has_table(m.tables, name) {
        written(f, ReplayLog::step(m.tables[table_at(m.tables, name)].path, rows))
    } else {
        written(
            written(f, ReplayLog::step(table_file(m.root, name), rows)),
            directory_step(m, name),
        )
    }
}

/// Lines of rows that the log of a table took are there when the database is opened again:
/// a database that was what its files give is, with the rows that the lines record added to
/// the table, what its files give with the new lines. For a new table no file stood in the
/// place of its log, and the line of the directory reads as the table.
pub proof fn lemma_insert_files(m: DatabaseModel, f: Files, name: Seq<char>, rows: Seq<Fields>)
    requires
        read_from(m, f),
        placed(m),
        forall|i: int| 0 <= i < rows.len() ==> line_row(row_line(#[trigger] rows[i])) is Ok,
        !has_table(m.tables, name) ==> content(f, table_file(m.root, name)).len() == 0
            && config_reads(name, table_file(m.root, name)),
    ensures
        read_from(
            DatabaseModel { tables: with_rows(m, name, rows_back(rows)), ..m },
            after_insert(m, f, name, rows),
        ),
        placed(DatabaseModel { tables: with_rows(m, name, rows_back(rows)), ..m }),
{
    let journal = journal_file(m.root, m.name);
    let dir = dir_file(m.root, m.name);
    let after = after_insert(m, f, name, rows);
    let tables = with_rows(m, name, rows_back(rows));
    let lines = content(f, dir);
    lemma_tables_are_recorded(lines, reads(f), lines.len());
    law_insert_makes_or_grows(m, name, rows_back(rows));
    if has_table(m.tables, name) {
        let k = table_at(m.tables, name);
        assert(named_at(m.tables, name, k));
        let t = m.tables[k];
        lemma_files_apart(m.root, m.name, t.name, Seq::empty());
        assert(content(after, dir) == lines);
        assert(content(after, journal) == content(f, journal));
        assert forall|i: int| 0 <= i < tables.len() implies opened(
            (#[trigger] tables[i]).name,
            tables[i].path,
            reads(after)(Step::Read(tables[i].path)),
        ) == Ok::<TableModel, Error>(tables[i]) by {
            if i == k {
                assert(opened(t.name, t.path, reads(f)(Step::Read(t.path))) == Ok::<
                    TableModel,
                    Error,
                >(t));
                lemma_rows_appended(content(f, t.path), rows);
                assert(content(after, t.path) == content(f, t.path) + row_lines(rows));
            } else {
                lemma_files_apart(m.root, m.name, t.name, m.tables[i].name);
                assert(tables[i] == m.tables[i]);
                assert(content(after, m.tables[i].path) == content(f, m.tables[i].path));
            }
        }
        assert forall|i: int| 0 <= i < tables.len() implies line_config(#[trigger] lines[i])
            == Ok::<(Seq<char>, Seq<char>), Error>((tables[i].name, tables[i].path)) by {
            assert(tables[i].name == m.tables[i].name && tables[i].path == m.tables[i].path);
        }
        lemma_recorded_are_tables(lines, reads(after), tables, lines.len());
        assert forall|i: int| 0 <= i < tables.len() implies (#[trigger] tables[i]).path
            == table_file(m.root, tables[i].name) by {
            assert(tables[i].name == m.tables[i].name && tables[i].path == m.tables[i].path);
        }
    } else {
        let path = table_file(m.root, name);
        let made = TableModel { name, path, rows: rows_back(rows) };
        lemma_files_apart(m.root, m.name, name, Seq::empty());
        let line = config_line(name, path);
        let longer = lines.push(line);
        assert(content(after, dir) =~= longer);
        assert(content(after, journal) == content(f, journal));
        assert(content(after, path) =~= row_lines(rows));
        assert(tables == m.tables.push(made));
        assert forall|i: int| 0 <= i < tables.len() implies opened(
            (#[trigger] tables[i]).name,
            tables[i].path,
            reads(after)(Step::Read(tables[i].path)),
        ) == Ok::<TableModel, Error>(tables[i]) by {
            if i < m.tables.len() {
                assert(tables[i] == m.tables[i]);
                if m.tables[i].name == name {
                    lemma_some_table(m.tables, name, i);
                }
                lemma_files_apart(m.root, m.name, name, m.tables[i].name);
                lemma_files_apart(m.root, m.name, m.tables[i].name, Seq::empty());
                assert(content(after, m.tables[i].path) == content(f, m.tables[i].path));
            } else {
                lemma_rows_appended(Seq::empty(), rows);
                assert(Seq::<Seq<char>>::empty() + row_lines(rows) =~= row_lines(rows));
                assert(Seq::<Fields>::empty() + rows_back(rows) =~= rows_back(rows));
            }
        }
        assert forall|i: int| 0 <= i < tables.len() implies line_config(#[trigger] longer[i])
            == Ok::<(Seq<char>, Seq<char>), Error>((tables[i].name, tables[i].path)) by {
            if i < m.tables.len() {
                assert(longer[i] == lines[i]);
                assert(tables[i] == m.tables[i]);
            } else {
                law_config_round_trip(name, path);
            }
        }
        lemma_recorded_are_tables(longer, reads(after), tables, longer.len());
        assert forall|i: int| 0 <= i < tables.len() implies (#[trigger] tables[i]).path
            == table_file(m.root, tables[i].name) by {
            if i < m.tables.len() {
                assert(tables[i] == m.tables[i]);
            }
        }
    }
}

/// The tables among the first `n` that are not named `name`, in their order.
pub open spec fn others(ts: Seq<TableModel>, name: Seq<char>, n: nat) -> Seq<TableModel>
    decreases n,
{
    if n == 0 || n > ts.len() {
        Seq::empty()
    } else if ts[n - 1].name == name {
        others(ts, name, (n - 1) as nat)
    } else {
        others(ts, name, (n - 1) as nat).push(ts[n - 1])
    }
}

/// Where no two tables have one name, the tables that are not named `name` are all tables
/// but the one of that name.
pub proof fn lemma_others(ts: Seq<TableModel>, name: Seq<char>, n: nat)
    requires
        distinct_names(ts),
        n <= ts.len(),
    ensures
        others(ts, name, n).len() <= n,
        has_table(ts.take(n as int), name) ==> others(ts, name, n) == ts.take(n as int).remove(
            table_at(ts.take(n as int), name),
        ) && others(ts, name, n).len() < n,
        !has_table(ts.take(n as int), name) ==> others(ts, name, n) == ts.take(n as int),
    decreases n,
{
    let now = ts.take(n as int);
    if n == 0 {
        assert(now =~= Seq::<TableModel>::empty());
        if has_table(now, name) {
            assert(named_at(now, name, table_at(now, name)));
        }
    } else {
        let before = ts.take(n - 1);
        lemma_others(ts, name, (n - 1) as nat);
        assert(now =~= before.push(ts[n - 1]));
        if has_table(before, name) {
            let k = table_at(before, name);
            assert(named_at(before, name, k));
            assert(before[k] == ts[k]);
            assert(ts[n - 1].name != name);
            assert(named_at(now, name, k));
            lemma_table_unique(now, name, k);
            assert(before.remove(k).push(ts[n - 1]) =~= now.remove(k));
        } else {
            assert forall|j: int| 0 <= j < n - 1 implies now[j].name != name by {
                if now[j].name == name {
                    assert(before[j] == now[j]);
                    lemma_some_table(before, name, j);
                }
            }
            if ts[n - 1].name == name {
                assert(named_at(now, name, n - 1));
                lemma_table_unique(now, name, n - 1);
                assert(now.remove(n - 1) =~= before);
            } else {
                if has_table(now, name) {
                    assert(named_at(now, name, table_at(now, name)));
                }
            }
        }
    }
}

/// The lines that are kept of a directory record the tables that are not named `name`.
pub proof fn lemma_kept_records_others(
    lines: Seq<Seq<char>>,
    ts: Seq<TableModel>,
    name: Seq<char>,
    n: nat,
)
    requires
        n <= ts.len(),
        ts.len() <= lines.len(),
        forall|i: int|
            0 <= i < ts.len() ==> line_config(#[trigger] lines[i]) == Ok::<
                (Seq<char>, Seq<char>),
                Error,
            >((ts[i].name, ts[i].path)),
        forall|i: int|
            0 <= i < ts.len() ==> config_reads(
                (#[trigger] ts[i]).name,
                ts[i].path,
            ),
    ensures
        kept_upto(lines, name, n) is Ok,
        kept_upto(lines, name, n)->Ok_0.len() == others(ts, name, n).len(),
        forall|i: int|
            0 <= i < others(ts, name, n).len() ==> line_config(
                #[trigger] kept_upto(lines, name, n)->Ok_0[i],
            ) == Ok::<(Seq<char>, Seq<char>), Error>(
                (others(ts, name, n)[i].name, others(ts, name, n)[i].path),
            ),
        forall|i: int|
            0 <= i < others(ts, name, n).len() ==> exists|j: int|
                0 <= j < n && ts[j] == #[trigger] others(ts, name, n)[i],
    decreases n,
{
    if n > 0 {
        lemma_kept_records_others(lines, ts, name, (n - 1) as nat);
        let t = ts[n - 1];
        assert(line_config(lines[n - 1]) == Ok::<(Seq<char>, Seq<char>), Error>((t.name, t.path)));
        let kept = kept_upto(lines, name, n)->Ok_0;
        let rest = kept_upto(lines, name, (n - 1) as nat)->Ok_0;
        let now = others(ts, name, n);
        let was = others(ts, name, (n - 1) as nat);
        if t.name != name {
            assert(config_reads(t.name, t.path));
            law_config_round_trip(t.name, t.path);
            assert forall|i: int| 0 <= i < now.len() implies line_config(#[trigger] kept[i])
                == Ok::<(Seq<char>, Seq<char>), Error>((now[i].name, now[i].path)) by {
                if i < was.len() {
                    assert(kept[i] == rest[i]);
                    assert(now[i] == was[i]);
                }
            }
            assert forall|i: int| 0 <= i < now.len() implies exists|j: int|
                0 <= j < n && ts[j] == #[trigger] now[i] by {
                if i < was.len() {
                    assert(now[i] == was[i]);
                    let j = choose|j: int| 0 <= j < n - 1 && ts[j] == was[i];
                    assert(0 <= j < n && ts[j] == now[i]);
                } else {
                    assert(ts[n - 1] == now[i]);
                }
            }
        } else {
            assert forall|i: int| 0 <= i < now.len() implies exists|j: int|
                0 <= j < n && ts[j] == #[trigger] now[i] by {
                let j = choose|j: int| 0 <= j < n - 1 && ts[j] == was[i];
                assert(0 <= j < n && ts[j] == now[i]);
            }
        }
    }
}

/// The files after the table `name` was deleted: the directory holds the lines that are kept,
/// and where it had recorded the table, the file of the table's log is gone.
pub open spec fn after_delete(m: DatabaseModel, f: Files, name: Seq<char>) -> Files {
    let dir = dir_file(m.root, m.name);
    let lines = content(f, dir);
    let kept = kept_upto(lines, name, lines.len())->Ok_0;
    let swapped = written(f, Step::Replace(dir, kept));
    if kept.len() < lines.len() {
        written(swapped, Step::Remove(table_file(m.root, name)))
    } else {
        swapped
    }
}

/// A table that was deleted stays deleted: a database that was what its files give is,
/// without the table, what its files give with the directory written anew and the log of the
/// table gone, where every line of the directory reads as the table that it records.
pub proof fn lemma_delete_files(m: DatabaseModel, f: Files, name: Seq<char>)
    requires
        read_from(m, f),
        placed(m),
        forall|i: int|
            0 <= i < m.tables.len() ==> config_reads(
                (#[trigger] m.tables[i]).name,
                m.tables[i].path,
            ),
    ensures
        read_from(
            DatabaseModel { tables: without(m.tables, name), ..m },
            after_delete(m, f, name),
        ),
        placed(DatabaseModel { tables: without(m.tables, name), ..m }),
{
    let journal = journal_file(m.root, m.name);
    let dir = dir_file(m.root, m.name);
    let lines = content(f, dir);
    let after = after_delete(m, f, name);
    let tables = without(m.tables, name);
    let n = m.tables.len();
    lemma_tables_are_recorded(lines, reads(f), lines.len());
    lemma_kept_records_others(lines, m.tables, name, n);
    lemma_others(m.tables, name, n);
    assert(m.tables.take(n as int) =~= m.tables);
    let kept = kept_upto(lines, name, lines.len())->Ok_0;
    let left = others(m.tables, name, n);
    assert(tables == left);
    law_delete_forgets(m.tables, name);
    lemma_files_apart(m.root, m.name, name, Seq::empty());
    assert(content(after, dir) == kept);
    assert(content(after, journal) == content(f, journal));
    assert forall|i: int| 0 <= i < left.len() implies opened(
        (#[trigger] left[i]).name,
        left[i].path,
        reads(after)(Step::Read(left[i].path)),
    ) == Ok::<TableModel, Error>(left[i]) && left[i].path == table_file(m.root, left[i].name) by {
        let j = choose|j: int| 0 <= j < n && m.tables[j] == left[i];
        assert(m.tables[j] == left[i]);
        if left[i].name == name {
            lemma_some_table(left, name, i);
        }
        lemma_files_apart(m.root, m.name, left[i].name, name);
        lemma_files_apart(m.root, m.name, left[i].name, Seq::empty());
        assert(content(after, left[i].path) == content(f, left[i].path));
    }
    lemma_recorded_are_tables(kept, reads(after), left, kept.len());
}

/// Tables that are alike are alike after rows that are alike were added to the table `name`.
pub proof fn lemma_with_rows_alike(
    d: DatabaseModel,
    m: DatabaseModel,
    name: Seq<char>,
    backs: Seq<Fields>,
    rows: Seq<Fields>,
)
    requires
        like(d, m),
        forall|had: Seq<Fields>, held: Seq<Fields>|
            rows_alike(had, held) ==> #[trigger] rows_alike(had + backs, held + rows),
    ensures
        tables_alike(with_rows(d, name, backs), with_rows(m, name, rows)),
{
    lemma_tables_alike_named(d.tables, m.tables, name);
    let a = with_rows(d, name, backs);
    let b = with_rows(m, name, rows);
    if has_table(m.tables, name) {
        let k = table_at(m.tables, name);
        assert(named_at(m.tables, name, k));
        assert forall|i: int| 0 <= i < a.len() implies (#[trigger] a[i]).name == b[i].name
            && a[i].path == b[i].path && rows_alike(a[i].rows, b[i].rows) by {
            assert(d.tables[i].name == m.tables[i].name && d.tables[i].path == m.tables[i].path
                && rows_alike(d.tables[i].rows, m.tables[i].rows));
            if i == k {
                assert(rows_alike(d.tables[i].rows + backs, m.tables[i].rows + rows));
            }
        }
    } else {
        assert(rows_alike(Seq::<Fields>::empty(), Seq::<Fields>::empty()));
        assert(rows_alike(Seq::<Fields>::empty() + backs, Seq::<Fields>::empty() + rows));
        assert(Seq::<Fields>::empty() + backs =~= backs);
        assert(Seq::<Fields>::empty() + rows =~= rows);
        assert forall|i: int| 0 <= i < a.len() implies (#[trigger] a[i]).name == b[i].name
            && a[i].path == b[i].path && rows_alike(a[i].rows, b[i].rows) by {
            if i < d.tables.len() {
                assert(d.tables[i].name == m.tables[i].name && d.tables[i].path
                    == m.tables[i].path && rows_alike(d.tables[i].rows, m.tables[i].rows));
            }
        }
    }
}

/// Tables that are alike are alike without the table `name`.
pub proof fn lemma_without_alike(a: Seq<TableModel>, b: Seq<TableModel>, name: Seq<char>)
    requires
        tables_alike(a, b),
    ensures
        tables_alike(without(a, name), without(b, name)),
{
    lemma_tables_alike_named(a, b, name);
    if has_table(a, name) {
        let k = table_at(a, name);
        assert(named_at(a, name, k));
        let x = without(a, name);
        let y = without(b, name);
        assert forall|i: int| 0 <= i < x.len() implies (#[trigger] x[i]).name == y[i].name
            && x[i].path == y[i].path && rows_alike(x[i].rows, y[i].rows) by {
            let j = if i < k {
                i
            } else {
                i + 1
            };
            assert(x[i] == a[j] && y[i] == b[j]);
            assert(a[j].name == b[j].name && a[j].path == b[j].path && rows_alike(
                a[j].rows,
                b[j].rows,
            ));
        }
    }
}

/// A `set` or a `del` that the journal took is durable. The request asks the driver for the
/// steps that its contract names; where the database was in step with its files, it is, after
/// the request, in step with the files once those steps are taken on them. Opened again from
/// those files, it holds what it held, each value as it was or equal to that as JSON. The
/// entry has to read back alike.
pub proof fn law_write_is_durable(m: DatabaseModel, f: Files, entry: Entry, unit: Unit, disk: Disk)
    requires
        in_step(m, f),
        placed(m),
        reads_alike(entry),
        taken(m, entry, disk),
    ensures
        in_step(
            DatabaseModel { cache: run(write_of(entry), m, unit, disk).1, ..m },
            written_all(f, run(write_of(entry), m, unit, disk).2),
        ),
        placed(DatabaseModel { cache: run(write_of(entry), m, unit, disk).1, ..m }),
{
    let d = booted(m.root, m.name, reads(f))->Ok_0;
    lemma_like_placed(d, m);
    law_record_reads_back(entry);
    let back = line_record(record_line(entry.0, entry.1))->Ok_0;
    lemma_write_files(d, f, entry, back);
    lemma_apply_alike(d.cache, m.cache, back, entry);
    let step = journal_step(m, entry);
    assert(step == journal_step(d, entry));
    lemma_written_few(f, step, step, step);
    assert(run(write_of(entry), m, unit, disk).2 == seq![step]);
}

/// Rows that were added to a table are durable. The request asks the driver for the steps
/// that its contract names; where the driver took them and the database was in step with its
/// files, it is, after the request, in step with the files once those steps are taken on
/// them. A new table is durable where no file stood in the place of its log and the line of
/// the directory reads as the table. Every row has to read back alike.
pub proof fn law_insert_is_durable(
    m: DatabaseModel,
    f: Files,
    name: Seq<char>,
    rows: Seq<Fields>,
    disk: Disk,
)
    requires
        in_step(m, f),
        placed(m),
        insert_taken(m, name, rows, disk),
        forall|i: int| 0 <= i < rows.len() ==> row_reads(#[trigger] rows[i]),
        !has_table(m.tables, name) ==> content(f, table_file(m.root, name)).len() == 0
            && config_reads(name, table_file(m.root, name)),
    ensures
        in_step(
            DatabaseModel { tables: with_rows(m, name, rows), ..m },
            written_all(f, insert_steps(m, name, rows, disk)),
        ),
        placed(DatabaseModel { tables: with_rows(m, name, rows), ..m }),
{
    let d = booted(m.root, m.name, reads(f))->Ok_0;
    lemma_like_placed(d, m);
    lemma_tables_alike_named(d.tables, m.tables, name);
    lemma_rows_back_alike(Seq::empty(), Seq::empty(), rows);
    lemma_insert_files(d, f, name, rows);
    assert forall|had: Seq<Fields>, held: Seq<Fields>| rows_alike(had, held) implies
        #[trigger] rows_alike(had + rows_back(rows), held + rows) by {
        lemma_rows_back_alike(had, held, rows);
    }
    lemma_with_rows_alike(d, m, name, rows_back(rows), rows);
    law_insert_makes_or_grows(m, name, rows);
    let first = ReplayLog::step(table_file(m.root, name), rows);
    lemma_written_few(f, first, directory_step(m, name), first);
    assert(directory_step(m, name) == directory_step(d, name));
    if has_table(m.tables, name) {
        let k = table_at(m.tables, name);
        assert(named_at(m.tables, name, k));
        assert(d.tables[k].path == m.tables[k].path);
        let step = ReplayLog::step(m.tables[k].path, rows);
        lemma_written_few(f, step, step, step);
        let after = with_rows(m, name, rows);
        assert forall|i: int| 0 <= i < after.len() implies (#[trigger] after[i]).path
            == table_file(m.root, after[i].name) by {
            assert(after[i].name == m.tables[i].name && after[i].path == m.tables[i].path);
        }
    } else {
        let after = with_rows(m, name, rows);
        assert forall|i: int| 0 <= i < after.len() implies (#[trigger] after[i]).path
            == table_file(m.root, after[i].name) by {
            if i < m.tables.len() {
                assert(after[i] == m.tables[i]);
            }
        }
    }
}

/// A table that was deleted stays deleted. The request asks the driver for the steps that its
/// contract names; where the driver read the directory as it is and took the steps, and the
/// database was in step with its files, it is, after the request, in step with the files once
/// those steps are taken on them: the directory is without the table and the log of the table
/// is gone. Where the table was not there, the files are as they were. Every line of the
/// directory has to read as the table that it records.
pub proof fn law_delete_is_durable(m: DatabaseModel, f: Files, name: Seq<char>, disk: Disk)
    requires
        in_step(m, f),
        placed(m),
        disk(Step::Read(dir_file(m.root, m.name))) == Some(content(f, dir_file(m.root, m.name))),
        deleted(m, name, disk) is Ok,
        forall|i: int|
            0 <= i < m.tables.len() ==> config_reads(
                (#[trigger] m.tables[i]).name,
                m.tables[i].path,
            ),
    ensures
        in_step(
            DatabaseModel { tables: without(m.tables, name), ..m },
            written_all(f, delete_steps(m, name, disk)),
        ),
        placed(DatabaseModel { tables: without(m.tables, name), ..m }),
        !has_table(m.tables, name) ==> written_all(f, delete_steps(m, name, disk)) == f,
{
    let d = booted(m.root, m.name, reads(f))->Ok_0;
    lemma_like_placed(d, m);
    lemma_tables_alike_named(d.tables, m.tables, name);
    assert forall|i: int| 0 <= i < d.tables.len() implies config_reads(
        (#[trigger] d.tables[i]).name,
        d.tables[i].path,
    ) by {
        assert(d.tables[i].name == m.tables[i].name && d.tables[i].path == m.tables[i].path);
        assert(config_reads(m.tables[i].name, m.tables[i].path));
    }
    lemma_delete_files(d, f, name);
    lemma_without_alike(d.tables, m.tables, name);
    law_delete_forgets(m.tables, name);
    let left = without(m.tables, name);
    assert forall|i: int| 0 <= i < left.len() implies (#[trigger] left[i]).path == table_file(
        m.root,
        left[i].name,
    ) by {
        if has_table(m.tables, name) {
            let k = table_at(m.tables, name);
            assert(named_at(m.tables, name, k));
            let j = if i < k {
                i
            } else {
                i + 1
            };
            assert(left[i] == m.tables[j]);
        }
    }
    let dir = dir_file(m.root, m.name);
    let lines = content(f, dir);
    let n = d.tables.len();
    lemma_tables_are_recorded(lines, reads(f), lines.len());
    lemma_kept_records_others(lines, d.tables, name, n);
    lemma_others(d.tables, name, n);
    assert(d.tables.take(n as int) =~= d.tables);
    let kept = kept_upto(lines, name, lines.len())->Ok_0;
    let read = Step::Read(dir);
    let swap = Step::Replace(dir, kept);
    let drop = Step::Remove(table_file(m.root, name));
    lemma_written_few(f, read, swap, drop);
}

} // verus!
