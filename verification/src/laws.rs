//! What holds of the store over runs of requests: reads after writes, replays, and the life
//! of a table.

use vstd::prelude::*;
use crate::bridge::parsed;
use crate::db::{
    distinct_names, has_table, journal_step, lemma_table_unique, named_at, table_at, table_file,
    with_rows, without, DatabaseModel, TableModel,
};
use crate::disk::{Disk, Step};
use crate::error::{Error, Res};
use crate::eval::run;
use crate::fpu::Unit;
use crate::json::Command;
use crate::log::{
    config_fields, config_line, config_reads, line_config, line_row, removal, replay_rows, row_line,
    row_lines, row_reads, rows_of, rows_upto,
};
use crate::replay::{
    apply, line_record, reads_alike, record_doc, record_line, replay_lines, replay_upto, replayed,
    Entry,
};
use crate::value::{
    distinct_keys, has_key, index_of, is_first, lemma_bind_distinct, lemma_bind_other,
    lemma_bind_same, lemma_first_unique, lemma_unbind_other, lemma_unbind_same, lookup, row_views,
    same_fields, same_json, Fields, Json, Row,
};

verus! {

/// The request that writes an entry: a `set` of a key and a value, or a `del` of a key.
pub open spec fn write_of(entry: Entry) -> Command {
    match entry.1 {
        Some(v) => Command::Put(entry.0, v),
        None => Command::Del(entry.0),
    }
}

/// The stored values after a run of `set` and `del` requests, in their order.
pub open spec fn after_writes(
    m: DatabaseModel,
    writes: Seq<Entry>,
    unit: Unit,
    disk: Disk,
) -> Fields
    decreases writes.len(),
{
    if writes.len() == 0 {
        m.cache
    } else {
        run(
            write_of(writes.last()),
            DatabaseModel { cache: after_writes(m, writes.drop_last(), unit, disk), ..m },
            unit,
            disk,
        ).1
    }
}

/// Whether the journal takes the entry of a request.
pub open spec fn taken(m: DatabaseModel, write: Entry, disk: Disk) -> bool {
    disk(journal_step(m, write)) is Some
}

/// A store in which no key occurs twice keeps that through every run of requests.
pub proof fn lemma_writes_keep_keys_distinct(
    m: DatabaseModel,
    writes: Seq<Entry>,
    unit: Unit,
    disk: Disk,
)
    requires
        distinct_keys(m.cache),
    ensures
        distinct_keys(after_writes(m, writes, unit, disk)),
    decreases writes.len(),
{
    if writes.len() > 0 {
        let before = after_writes(m, writes.drop_last(), unit, disk);
        lemma_writes_keep_keys_distinct(m, writes.drop_last(), unit, disk);
        match writes.last().1 {
            Some(v) => lemma_bind_distinct(before, writes.last().0, v),
            None => lemma_unbind_same(before, writes.last().0),
        }
    }
}

/// A `get` after any run of `set` and `del` requests gives what the last request on the key
/// that the journal took has left: the value of a `set`, or no value after a `del`.
pub proof fn law_get_gives_last_write(
    m: DatabaseModel,
    writes: Seq<Entry>,
    i: int,
    unit: Unit,
    disk: Disk,
)
    requires
        distinct_keys(m.cache),
        0 <= i < writes.len(),
        taken(m, writes[i], disk),
        forall|j: int|
            i < j < writes.len() && writes[j].0 == writes[i].0 ==> !taken(
                m,
                #[trigger] writes[j],
                disk,
            ),
    ensures
        run(
            Command::Get(writes[i].0),
            DatabaseModel { cache: after_writes(m, writes, unit, disk), ..m },
            unit,
            disk,
        ).0 == match writes[i].1 {
            Some(v) => Ok::<Json, Error>(v),
            None => Err::<Json, Error>(Error::BadKey),
        },
    decreases writes.len(),
{
    let key = writes[i].0;
    let last = writes.last();
    let rest = writes.drop_last();
    let before = after_writes(m, rest, unit, disk);
    lemma_writes_keep_keys_distinct(m, rest, unit, disk);
    if i == writes.len() - 1 {
        match last.1 {
            Some(v) => lemma_bind_same(before, key, v),
            None => lemma_unbind_same(before, key),
        }
    } else {
        assert(rest[i] == writes[i]);
        assert forall|j: int| i < j < rest.len() && rest[j].0 == rest[i].0 implies !taken(
            m,
            #[trigger] rest[j],
            disk,
        ) by {
            assert(rest[j] == writes[j]);
        }
        law_get_gives_last_write(m, rest, i, unit, disk);
        if taken(m, last, disk) {
            match last.1 {
                Some(v) => lemma_bind_other(before, last.0, v, key),
                None => lemma_unbind_other(before, last.0, key),
            }
        }
    }
}

/// Two `set` requests on one key, one after the other: whenever the store is looked at, the
/// key holds the whole value of the last request that the journal took, and a request that
/// the journal did not take has changed nothing.
pub proof fn law_sets_are_whole(
    m: DatabaseModel,
    key: Seq<char>,
    first: Json,
    second: Json,
    unit: Unit,
    disk: Disk,
)
    ensures
        ({
            let (r1, c1, _) = run(Command::Put(key, first), m, unit, disk);
            let (r2, c2, _) = run(
                Command::Put(key, second),
                DatabaseModel { cache: c1, ..m },
                unit,
                disk,
            );
            &&& r1 is Ok ==> lookup(c1, key) == Some(first)
            &&& r1 is Err ==> c1 == m.cache
            &&& r2 is Ok ==> lookup(c2, key) == Some(second)
            &&& r2 is Err ==> c2 == c1
        }),
{
    lemma_bind_same(m.cache, key, first);
    let c1 = run(Command::Put(key, first), m, unit, disk).1;
    lemma_bind_same(c1, key, second);
}

/// Whether `a` is `b`, or equal to it as JSON.
pub open spec fn near(a: Json, b: Json) -> bool {
    a == b || same_json(a, b)
}

/// Whether two stores hold the same keys in the same order, each with a value that is the
/// other's or equal to it as JSON.
pub open spec fn alike(c: Fields, s: Fields) -> bool {
    &&& c.len() == s.len()
    &&& forall|i: int|
        0 <= i < c.len() ==> (#[trigger] c[i]).0 == s[i].0 && near(c[i].1, s[i].1)
}

/// Whether two entries have one key, and both a value, the one near the other, or both none.
pub open spec fn entry_near(back: Entry, entry: Entry) -> bool {
    back.0 == entry.0 && match (back.1, entry.1) {
        (Some(v), Some(w)) => near(v, w),
        (None, None) => true,
        _ => false,
    }
}

/// Stores that are alike hold a key at the same place, or both do not hold it.
pub proof fn lemma_alike_keys(c: Fields, s: Fields, key: Seq<char>)
    requires
        alike(c, s),
    ensures
        has_key(c, key) == has_key(s, key),
        has_key(c, key) ==> index_of(c, key) == index_of(s, key),
{
    if has_key(c, key) {
        let i = index_of(c, key);
        assert(is_first(c, key, i));
        assert(c[i].0 == s[i].0);
        assert forall|j: int| 0 <= j < i implies s[j].0 != key by {
            assert(c[j].0 == s[j].0);
        }
        assert(is_first(s, key, i));
        lemma_first_unique(s, key, i);
    } else if has_key(s, key) {
        let i = index_of(s, key);
        assert(is_first(s, key, i));
        assert(c[i].0 == s[i].0);
        assert forall|j: int| 0 <= j < i implies c[j].0 != key by {
            assert(c[j].0 == s[j].0);
        }
        assert(is_first(c, key, i));
    }
}

/// Stores that are alike give for a key values of which each is the other or equal to it as
/// JSON, or both give none.
pub proof fn law_alike_stores_read_alike(c: Fields, s: Fields, key: Seq<char>)
    requires
        alike(c, s),
    ensures
        match (lookup(c, key), lookup(s, key)) {
            (Some(v), Some(w)) => near(v, w),
            (None, None) => true,
            _ => false,
        },
{
    lemma_alike_keys(c, s, key);
    if has_key(c, key) {
        let i = index_of(c, key);
        assert(is_first(c, key, i));
        assert(near(c[i].1, s[i].1));
    }
}

/// Stores that are alike are alike after entries that are near each other.
pub proof fn lemma_apply_alike(c: Fields, s: Fields, back: Entry, entry: Entry)
    requires
        alike(c, s),
        entry_near(back, entry),
    ensures
        alike(apply(c, back), apply(s, entry)),
{
    let key = entry.0;
    lemma_alike_keys(c, s, key);
    let a = apply(c, back);
    let b = apply(s, entry);
    if has_key(c, key) {
        let i = index_of(c, key);
        assert(is_first(c, key, i));
        assert forall|j: int| 0 <= j < a.len() implies (#[trigger] a[j]).0 == b[j].0 && near(
            a[j].1,
            b[j].1,
        ) by {
            if entry.1 is Some {
                assert(c[j].0 == s[j].0 && near(c[j].1, s[j].1));
            } else {
                let k = if j < i {
                    j
                } else {
                    j + 1
                };
                assert(a[j] == c[k] && b[j] == s[k]);
                assert(c[k].0 == s[k].0 && near(c[k].1, s[k].1));
            }
        }
    } else {
        assert forall|j: int| 0 <= j < a.len() implies (#[trigger] a[j]).0 == b[j].0 && near(
            a[j].1,
            b[j].1,
        ) by {
            if j < c.len() {
                assert(c[j].0 == s[j].0 && near(c[j].1, s[j].1));
            }
        }
    }
}

/// The line of an entry that reads back alike records an entry of the same key, whatever the
/// key holds, with a value where the entry has one, and that value is the value of the entry
/// or equal to it as JSON.
pub proof fn law_record_reads_back(entry: Entry)
    requires
        reads_alike(entry),
    ensures
        line_record(record_line(entry.0, entry.1)) matches Ok(back) && entry_near(back, entry),
{
    let doc = record_doc(entry.0, entry.1);
    let back = parsed(record_line(entry.0, entry.1))->Some_0;
    assert(same_json(back, doc));
    let a = back->Array_0;
    let b = doc->Array_0;
    assert(same_json(a[0], b[0]));
    if entry.1 is Some {
        assert(same_json(a[1], b[1]));
    }
}

/// The lines of entries, one for one.
pub open spec fn entry_lines(entries: Seq<Entry>) -> Seq<Seq<char>> {
    Seq::new(entries.len(), |i: int| record_line(entries[i].0, entries[i].1))
}

/// A store after entries, in their order.
pub open spec fn apply_all(store: Fields, entries: Seq<Entry>) -> Fields
    decreases entries.len(),
{
    if entries.len() == 0 {
        store
    } else {
        apply(apply_all(store, entries.drop_last()), entries.last())
    }
}

/// The replay of the first lines of a journal does not depend on the lines behind them.
pub proof fn lemma_replay_prefix(lines: Seq<Seq<char>>, more: Seq<Seq<char>>, n: nat)
    requires
        n <= lines.len(),
    ensures
        replay_upto(lines + more, n) == replay_upto(lines, n),
    decreases n,
{
    if n > 0 {
        lemma_replay_prefix(lines, more, (n - 1) as nat);
        assert((lines + more)[n - 1] == lines[n - 1]);
    }
}

/// A journal with one more line replays to the store with the entry of that line applied.
pub proof fn lemma_replay_one_more(lines: Seq<Seq<char>>, line: Seq<char>, back: Entry)
    requires
        replayed(lines) is Ok,
        line_record(line) == Ok::<Entry, Error>(back),
    ensures
        replayed(lines.push(line)) == Ok::<Fields, Error>(apply(replayed(lines)->Ok_0, back)),
{
    lemma_replay_prefix(lines, seq![line], lines.len());
    assert(lines + seq![line] =~= lines.push(line));
}

/// A journal that has taken further entries replays to the store with those entries applied:
/// a database that is opened again from its journal holds what it held when it was closed,
/// key for key, each with the value it had or one equal to it as JSON. The journal replayed
/// to a store like `store` before; every entry reads back alike.
pub proof fn law_replay_follows_journal(lines: Seq<Seq<char>>, store: Fields, entries: Seq<Entry>)
    requires
        replayed(lines) matches Ok(c) && alike(c, store),
        forall|i: int| 0 <= i < entries.len() ==> reads_alike(#[trigger] entries[i]),
    ensures
        replayed(lines + entry_lines(entries)) matches Ok(c) && alike(
            c,
            apply_all(store, entries),
        ),
    decreases entries.len(),
{
    let all = lines + entry_lines(entries);
    if entries.len() == 0 {
        assert(all =~= lines);
    } else {
        let rest = entries.drop_last();
        let last = entries.last();
        assert forall|i: int| 0 <= i < rest.len() implies reads_alike(#[trigger] rest[i]) by {
            assert(rest[i] == entries[i]);
        }
        law_replay_follows_journal(lines, store, rest);
        let shorter = lines + entry_lines(rest);
        let line = record_line(last.0, last.1);
        assert(all =~= shorter.push(line));
        law_record_reads_back(last);
        let back = line_record(line)->Ok_0;
        lemma_replay_one_more(shorter, line, back);
        lemma_apply_alike(replayed(shorter)->Ok_0, apply_all(store, rest), back, last);
    }
}

/// A `set` or a `del` that the journal took leaves the journal and the store in step: where
/// the journal replayed to a store like the one before the request, the journal with the
/// request's line replays to a store like the one after it.
pub proof fn law_request_keeps_journal_in_step(
    m: DatabaseModel,
    lines: Seq<Seq<char>>,
    entry: Entry,
    unit: Unit,
    disk: Disk,
)
    requires
        replayed(lines) matches Ok(c) && alike(c, m.cache),
        reads_alike(entry),
        disk(journal_step(m, entry)) is Some,
    ensures
        replayed(lines.push(record_line(entry.0, entry.1))) matches Ok(c) && alike(
            c,
            run(write_of(entry), m, unit, disk).1,
        ),
{
    law_replay_follows_journal(lines, m.cache, seq![entry]);
    assert(lines + entry_lines(seq![entry]) =~= lines.push(record_line(entry.0, entry.1)));
    assert(seq![entry].drop_last() =~= Seq::<Entry>::empty());
    assert(apply_all(m.cache, seq![entry]) == apply(
        apply_all(m.cache, Seq::<Entry>::empty()),
        entry,
    ));
}

/// Whether two runs of rows are as long, each row the other's or equal to it as JSON.
pub open spec fn rows_alike(a: Seq<Fields>, b: Seq<Fields>) -> bool {
    &&& a.len() == b.len()
    &&& forall|i: int| 0 <= i < a.len() ==> near(Json::Object(#[trigger] a[i]), Json::Object(b[i]))
}

/// The line of a row that reads back alike records a row that is that row, or equal to it as
/// JSON.
pub proof fn law_row_reads_back(row: Fields)
    requires
        row_reads(row),
    ensures
        line_row(row_line(row)) matches Ok(back) && near(Json::Object(back), Json::Object(row)),
{
    let back = parsed(row_line(row))->Some_0;
    assert(same_json(back, Json::Object(row)));
}

/// The rows that the lines of rows record, one for one.
pub open spec fn rows_back(rows: Seq<Fields>) -> Seq<Fields> {
    Seq::new(rows.len(), |i: int| line_row(row_line(rows[i]))->Ok_0)
}

/// The rows of the first lines of a log do not depend on the lines behind them.
pub proof fn lemma_rows_prefix(lines: Seq<Seq<char>>, more: Seq<Seq<char>>, n: nat)
    requires
        n <= lines.len(),
    ensures
        rows_upto(lines + more, n) == rows_upto(lines, n),
    decreases n,
{
    if n > 0 {
        lemma_rows_prefix(lines, more, (n - 1) as nat);
        assert((lines + more)[n - 1] == lines[n - 1]);
    }
}

/// A log with the lines of further rows records the rows it recorded before, followed by the
/// rows that those lines record.
pub proof fn lemma_rows_appended(lines: Seq<Seq<char>>, rows: Seq<Fields>)
    requires
        rows_of(lines) is Ok,
        forall|i: int| 0 <= i < rows.len() ==> line_row(row_line(#[trigger] rows[i])) is Ok,
    ensures
        rows_of(lines + row_lines(rows)) == Ok::<Seq<Fields>, Error>(
            rows_of(lines)->Ok_0 + rows_back(rows),
        ),
    decreases rows.len(),
{
    let all = lines + row_lines(rows);
    if rows.len() == 0 {
        assert(all =~= lines);
        assert(rows_of(lines)->Ok_0 + rows_back(rows) =~= rows_of(lines)->Ok_0);
    } else {
        let rest = rows.drop_last();
        let last = rows.last();
        assert forall|i: int| 0 <= i < rest.len() implies line_row(
            row_line(#[trigger] rest[i]),
        ) is Ok by {
            assert(rest[i] == rows[i]);
        }
        lemma_rows_appended(lines, rest);
        let shorter = lines + row_lines(rest);
        assert(all =~= shorter.push(row_line(last)));
        lemma_rows_prefix(shorter, seq![row_line(last)], shorter.len());
        assert(shorter + seq![row_line(last)] =~= all);
        assert(line_row(row_line(last)) is Ok);
        assert((rows_of(lines)->Ok_0 + rows_back(rest)).push(line_row(row_line(last))->Ok_0)
            =~= rows_of(lines)->Ok_0 + rows_back(rows));
    }
}

/// Rows that read back alike are recorded by their lines as rows like them.
pub proof fn lemma_rows_back_alike(had: Seq<Fields>, held: Seq<Fields>, rows: Seq<Fields>)
    requires
        rows_alike(had, held),
        forall|i: int| 0 <= i < rows.len() ==> row_reads(#[trigger] rows[i]),
    ensures
        forall|i: int| 0 <= i < rows.len() ==> line_row(row_line(#[trigger] rows[i])) is Ok,
        rows_alike(had + rows_back(rows), held + rows),
{
    assert forall|i: int| 0 <= i < rows.len() implies line_row(row_line(#[trigger] rows[i])) is Ok
        && near(Json::Object(rows_back(rows)[i]), Json::Object(rows[i])) by {
        law_row_reads_back(rows[i]);
    }
    let a = had + rows_back(rows);
    let b = held + rows;
    assert forall|i: int| 0 <= i < a.len() implies near(
        Json::Object(#[trigger] a[i]),
        Json::Object(b[i]),
    ) by {
        if i < had.len() {
            assert(a[i] == had[i]);
            assert(near(Json::Object(had[i]), Json::Object(held[i])));
        } else {
            let k = i - had.len();
            assert(a[i] == rows_back(rows)[k] && b[i] == rows[k]);
            assert(line_row(row_line(rows[k])) is Ok);
        }
    }
}

/// The log of a table that has taken further rows replays to the rows it recorded before,
/// followed by those rows: the rows of a table are the rows that its log has taken, in their
/// order, each as it was written or equal to that as JSON. The log replayed to rows like
/// `held` before; every row reads back alike.
pub proof fn law_log_follows_table(lines: Seq<Seq<char>>, held: Seq<Fields>, rows: Seq<Fields>)
    requires
        rows_of(lines) matches Ok(had) && rows_alike(had, held),
        forall|i: int| 0 <= i < rows.len() ==> row_reads(#[trigger] rows[i]),
    ensures
        rows_of(lines + row_lines(rows)) matches Ok(now) && rows_alike(now, held + rows),
{
    lemma_rows_back_alike(rows_of(lines)->Ok_0, held, rows);
    lemma_rows_appended(lines, rows);
}

/// The line of a table in the directory records that table, where the line reads back as a
/// document in which the name and the file stand.
pub proof fn law_config_round_trip(table: Seq<char>, path: Seq<char>)
    requires
        config_reads(table, path),
    ensures
        line_config(config_line(table, path)) == Ok::<(Seq<char>, Seq<char>), Error>((table, path)),
{
    reveal(config_reads);
    reveal_with_fuel(same_json, 3);
    let m = config_fields(table, path);
    let back = parsed(config_line(table, path))->Some_0;
    assert(same_json(Json::Object(m), back));
    let n = back->Object_0;
    assert(same_fields(m, n));
    assert(m[0] == ("table"@, Json::String(table)));
    assert(m[1] == ("path"@, Json::String(path)));
    assert(lookup(n, m[0].0) matches Some(v) && same_json(m[0].1, v));
    assert(lookup(n, m[1].0) matches Some(v) && same_json(m[1].1, v));
}

/// Two replays of the same lines of a journal give the same store, or the same error.
pub proof fn law_replay_repeats(lines: Vec<String>, r1: Res<Row>, r2: Res<Row>)
    requires
        call_ensures(replay_lines, (&lines,), r1),
        call_ensures(replay_lines, (&lines,), r2),
    ensures
        match (r1, r2) {
            (Ok(a), Ok(b)) => a@ == b@,
            (Err(a), Err(b)) => a == b,
            _ => false,
        },
{
}

/// Two replays of the same lines of a table's log give the same rows in the same order, or
/// the same error.
pub proof fn law_rows_replay_repeats(lines: Vec<String>, r1: Res<Vec<Row>>, r2: Res<Vec<Row>>)
    requires
        call_ensures(replay_rows, (&lines,), r1),
        call_ensures(replay_rows, (&lines,), r2),
    ensures
        match (r1, r2) {
            (Ok(a), Ok(b)) => row_views(a@) == row_views(b@),
            (Err(a), Err(b)) => a == b,
            _ => false,
        },
{
}

/// Rows that are added to a name make the table or make it longer: after the request the
/// table is there, it holds the rows it held followed by the new ones, no other table has
/// changed, and no name occurs twice.
pub proof fn law_insert_makes_or_grows(m: DatabaseModel, name: Seq<char>, rows: Seq<Fields>)
    requires
        distinct_names(m.tables),
    ensures
        ({
            let after = with_rows(m, name, rows);
            &&& has_table(after, name)
            &&& after[table_at(after, name)].rows == if has_table(m.tables, name) {
                m.tables[table_at(m.tables, name)].rows + rows
            } else {
                rows
            }
            &&& after.len() >= m.tables.len()
            &&& forall|i: int|
                0 <= i < m.tables.len() && m.tables[i].name != name ==> after[i] == m.tables[i]
            &&& distinct_names(after)
        }),
{
    let after = with_rows(m, name, rows);
    if has_table(m.tables, name) {
        let i = table_at(m.tables, name);
        assert(named_at(m.tables, name, i));
        assert(named_at(after, name, i));
        lemma_table_unique(after, name, i);
    } else {
        let n = m.tables.len() as int;
        assert forall|j: int| 0 <= j < n implies m.tables[j].name != name by {
            if m.tables[j].name == name {
                lemma_some_table(m.tables, name, j);
            }
        }
        assert(named_at(after, name, n));
        lemma_table_unique(after, name, n);
    }
}

/// Tables that hold the name somewhere have a first table of that name.
pub proof fn lemma_some_table(tables: Seq<TableModel>, name: Seq<char>, j: int)
    requires
        0 <= j < tables.len(),
        tables[j].name == name,
    ensures
        has_table(tables, name),
        table_at(tables, name) <= j,
    decreases j,
{
    if forall|i: int| 0 <= i < j ==> tables[i].name != name {
        lemma_table_unique(tables, name, j);
    } else {
        let i = choose|i: int| 0 <= i < j && tables[i].name == name;
        lemma_some_table(tables, name, i);
    }
}

/// A table that was deleted is no longer found, and the other tables are as they were and
/// have their names to themselves.
pub proof fn law_delete_forgets(tables: Seq<TableModel>, name: Seq<char>)
    requires
        distinct_names(tables),
    ensures
        !has_table(without(tables, name), name),
        distinct_names(without(tables, name)),
        forall|other: Seq<char>|
            other != name && has_table(tables, other) ==> #[trigger] has_table(
                without(tables, name),
                other,
            ),
{
    let after = without(tables, name);
    if has_table(tables, name) {
        let i = table_at(tables, name);
        assert(named_at(tables, name, i));
        assert forall|a: int, b: int| 0 <= a < b < after.len() implies after[a].name
            != after[b].name by {
            let a2 = if a < i { a } else { a + 1 };
            let b2 = if b < i { b } else { b + 1 };
            assert(after[a] == tables[a2] && after[b] == tables[b2]);
        }
        if has_table(after, name) {
            let j = table_at(after, name);
            assert(named_at(after, name, j));
            let j2 = if j < i { j } else { j + 1 };
            assert(after[j] == tables[j2]);
        }
        assert forall|other: Seq<char>| other != name && has_table(tables, other) implies
            #[trigger] has_table(after, other) by {
            let k = table_at(tables, other);
            assert(named_at(tables, other, k));
            let k2 = if k < i { k } else { k - 1 };
            assert(after[k2] == tables[k]);
            lemma_some_table(after, other, k2);
        }
    }
}

/// Where taking a table out of the directory found the table there, the last step that was
/// asked for deleted the file of the table's log, and the driver took it; where it did not
/// find it, the directory was read and nothing else was asked for.
pub proof fn law_delete_removes_log(root: Seq<char>, path: Seq<char>, name: Seq<char>, disk: Disk)
    ensures
        removal(root, path, name, disk).0 == Ok::<bool, Error>(true) ==> removal(
            root,
            path,
            name,
            disk,
        ).1.last() == Step::Remove(table_file(root, name)) && disk(
            Step::Remove(table_file(root, name)),
        ) is Some,
        removal(root, path, name, disk).0 == Ok::<bool, Error>(false) ==> removal(
            root,
            path,
            name,
            disk,
        ).1 == seq![Step::Read(path)],
{
}

} // verus!
