//! The journal of keyed values: one line for every `set` and `del`, and the replay that
//! rebuilds the store from the lines.

use vstd::prelude::*;
use crate::bridge::{parsed, printed};
use crate::disk::{done, heard, ready, texts, Action, Driver, Step};
use crate::error::{Error, Res};
use crate::value::{
    bind, distinct_keys, lemma_array_view, same_json, unbind, views, Fields, Json, JsonVal, Row,
};

verus! {

/// One record of the journal of keys: a key with the value written under it, or a key alone,
/// which records that the key was deleted.
pub type Entry = (Seq<char>, Option<Json>);

/// The document that records an entry: an array of the key and the value, or of the key alone.
pub open spec fn record_doc(key: Seq<char>, val: Option<Json>) -> Json {
    match val {
        Some(v) => Json::Array(seq![Json::String(key), v]),
        None => Json::Array(seq![Json::String(key)]),
    }
}

/// The line that records an entry: the JSON text of its document.
pub open spec fn record_line(key: Seq<char>, val: Option<Json>) -> Seq<char> {
    printed(record_doc(key, val))
}

/// Whether the line of an entry reads back as a document that is equal, as JSON, to the
/// document of the entry.
pub open spec fn reads_alike(entry: Entry) -> bool {
    match parsed(record_line(entry.0, entry.1)) {
        Some(back) => same_json(back, record_doc(entry.0, entry.1)),
        None => false,
    }
}

/// The entry that a document records: an array of a key and a value, or of a key alone.
pub open spec fn doc_record(doc: Json) -> Result<Entry, Error> {
    match doc {
        Json::Array(a) => if a.len() == 2 && a[0] is String {
            Ok((a[0]->String_0, Some(a[1])))
        } else if a.len() == 1 && a[0] is String {
            Ok((a[0]->String_0, None))
        } else {
            Err(Error::BadLine)
        },
        _ => Err(Error::BadLine),
    }
}

/// The entry that a line records. The line is the JSON text of one document, which is read
/// whole; the document is an array of a key and its value, or of a key that was deleted. A
/// line that is not JSON is bad JSON, a document that is no such array is a bad line.
pub open spec fn line_record(line: Seq<char>) -> Result<Entry, Error> {
    match parsed(line) {
        Some(doc) => doc_record(doc),
        None => Err(Error::BadJson),
    }
}

/// A store after an entry: the key bound to the value, or no longer bound.
pub open spec fn apply(store: Fields, entry: Entry) -> Fields {
    match entry.1 {
        Some(v) => bind(store, entry.0, v),
        None => unbind(store, entry.0),
    }
}

/// The store that the first `n` lines of a journal give, entry after entry from an empty
/// store, or the error of the first line that records nothing.
pub open spec fn replay_upto(lines: Seq<Seq<char>>, n: nat) -> Result<Fields, Error>
    decreases n,
{
    if n == 0 || n > lines.len() {
        Ok(Seq::empty())
    } else {
        match replay_upto(lines, (n - 1) as nat) {
            Ok(s) => match line_record(lines[n - 1]) {
                Ok(entry) => Ok(apply(s, entry)),
                Err(e) => Err(e),
            },
            Err(e) => Err(e),
        }
    }
}

/// The store that a journal gives.
pub open spec fn replayed(lines: Seq<Seq<char>>) -> Result<Fields, Error> {
    replay_upto(lines, lines.len())
}

/// An error among the first `n` lines is the error of every longer run.
pub proof fn lemma_replay_fails(lines: Seq<Seq<char>>, n: nat, m: nat)
    requires
        replay_upto(lines, n) is Err,
        n <= m <= lines.len(),
    ensures
        replay_upto(lines, m) == replay_upto(lines, n),
    decreases m - n,
{
    if n < m {
        lemma_replay_fails(lines, n, (m - 1) as nat);
    }
}

/// One record of the journal of keys.
#[derive(Debug, PartialEq)]
pub enum Record {
    /// The key was bound to the value.
    Put(String, JsonVal),
    /// The key was deleted.
    Del(String),
}

impl View for Record {
    type V = Entry;

    open spec fn view(&self) -> Entry {
        match self {
            Record::Put(k, v) => (k@, Some(v@)),
            Record::Del(k) => (k@, None),
        }
    }
}

impl Record {
    /// The line that records the entry.
    pub fn line(&self) -> (s: String)
        ensures
            s@ == record_line(self@.0, self@.1),
    {
        let mut parts: Vec<JsonVal> = Vec::new();
        match self {
            Record::Put(key, val) => {
                parts.push(JsonVal::String(key.clone()));
                parts.push(val.clone());
            },
            Record::Del(key) => {
                parts.push(JsonVal::String(key.clone()));
            },
        }
        proof {
            lemma_array_view(parts);
            assert(views(parts@) =~= record_doc(self@.0, self@.1)->Array_0);
        }
        JsonVal::Array(parts).to_string()
    }

    /// Whether the line of the entry reads back as a document that is equal, as JSON, to the
    /// document of the entry.
    pub fn comes_back(&self) -> (b: bool)
        ensures
            b == reads_alike(self@),
    {
        let mut parts: Vec<JsonVal> = Vec::new();
        match self {
            Record::Put(key, val) => {
                parts.push(JsonVal::String(key.clone()));
                parts.push(val.clone());
            },
            Record::Del(key) => {
                parts.push(JsonVal::String(key.clone()));
            },
        }
        proof {
            lemma_array_view(parts);
            assert(views(parts@) =~= record_doc(self@.0, self@.1)->Array_0);
        }
        JsonVal::Array(parts).reads_back()
    }

    /// The entry that a document records.
    pub fn read(doc: JsonVal) -> (r: Res<Record>)
        ensures
            match r {
                Ok(rec) => doc_record(doc@) == Ok::<Entry, Error>(rec@),
                Err(e) => doc_record(doc@) == Err::<Entry, Error>(e),
            },
    {
        match doc {
            JsonVal::Array(parts) => {
                let mut parts = parts;
                let ghost a = views(parts@);
                proof {
                    lemma_array_view(parts);
                }
                if parts.len() == 2 {
                    let val = parts.pop().unwrap();
                    let key = parts.pop().unwrap();
                    assert(key@ == a[0] && val@ == a[1]);
                    match key {
                        JsonVal::String(key) => Ok(Record::Put(key, val)),
                        _ => Err(Error::BadLine),
                    }
                } else if parts.len() == 1 {
                    let key = parts.pop().unwrap();
                    assert(key@ == a[0]);
                    match key {
                        JsonVal::String(key) => Ok(Record::Del(key)),
                        _ => Err(Error::BadLine),
                    }
                } else {
                    Err(Error::BadLine)
                }
            },
            _ => Err(Error::BadLine),
        }
    }

    /// The entry that a line records.
    pub fn parse(line: &str) -> (r: Res<Record>)
        ensures
            match r {
                Ok(rec) => line_record(line@) == Ok::<Entry, Error>(rec@),
                Err(e) => line_record(line@) == Err::<Entry, Error>(e),
            },
    {
        match JsonVal::parse(line) {
            Ok(doc) => Self::read(doc),
            Err(e) => Err(e),
        }
    }
}

/// Rebuilds a store from the lines of its journal, in their order; the last entry of a key
/// wins.
pub fn replay_lines(lines: &Vec<String>) -> (r: Res<Row>)
    ensures
        r matches Ok(store) ==> distinct_keys(store@),
        match r {
            Ok(store) => replayed(texts(lines@)) == Ok::<Fields, Error>(store@),
            Err(e) => replayed(texts(lines@)) == Err::<Fields, Error>(e),
        },
{
    let mut store = Row::new();
    let mut i: usize = 0;
    while i < lines.len()
        invariant
            i <= lines.len(),
            distinct_keys(store@),
            replay_upto(texts(lines@), i as nat) == Ok::<Fields, Error>(store@),
        decreases lines.len() - i,
    {
        match Record::parse(lines[i].as_str()) {
            Ok(Record::Put(key, val)) => {
                store.insert(key, val);
            },
            Ok(Record::Del(key)) => {
                store.remove(key.as_str());
            },
            Err(e) => {
                proof {
                    lemma_replay_fails(texts(lines@), (i + 1) as nat, lines@.len());
                }
                return Err(e);
            },
        }
        i += 1;
    }
    Ok(store)
}

/// The journal of a store of keys: every `set` and `del` is written to it before the store
/// changes, and the store is rebuilt from it.
#[derive(Debug, PartialEq)]
pub struct ReplayLog {
    path: String,
}

impl ReplayLog {
    /// The journal in the file at `path`.
    pub fn open(path: String) -> (log: ReplayLog)
        ensures
            log.path() == path@,
    {
        ReplayLog { path }
    }

    /// The file of the journal.
    pub closed spec fn path(&self) -> Seq<char> {
        self.path@
    }

    /// The step that writes an entry to the journal.
    pub open spec fn step(&self, key: Seq<char>, val: Option<Json>) -> Step {
        Step::Append(self.path(), seq![record_line(key, val)])
    }

    /// Hands one record to the driver.
    pub fn append<D: Fn(Action) -> Option<Vec<String>>>(
        &self,
        record: &Record,
        io: &mut Driver<D>,
    ) -> (r: bool)
        requires
            ready(*old(io)),
        ensures
            heard(*old(io), *final(io), self.step(record@.0, record@.1)),
            r == (final(io).said().last() is Some),
    {
        let mut lines: Vec<String> = Vec::new();
        lines.push(record.line());
        assert(texts(lines@) =~= seq![record_line(record@.0, record@.1)]);
        done(&io.take(Action::Append(self.path.clone(), lines)))
    }

    /// Records that `key` is bound to `val`: asks the driver for the one step that writes the
    /// entry, and succeeds where the driver took it.
    pub fn write<D: Fn(Action) -> Option<Vec<String>>>(
        &self,
        key: &str,
        val: &JsonVal,
        io: &mut Driver<D>,
    ) -> (r: Res<()>)
        requires
            ready(*old(io)),
        ensures
            heard(*old(io), *final(io), self.step(key@, Some(val@))),
            r is Ok <==> final(io).said().last() is Some,
            r matches Err(e) ==> e == Error::BadWrite,
    {
        if self.append(&Record::Put(key.to_owned(), val.clone()), io) {
            Ok(())
        } else {
            Err(Error::BadWrite)
        }
    }

    /// Records that `key` is deleted: asks the driver for the one step that writes the entry,
    /// and succeeds where the driver took it.
    pub fn erase<D: Fn(Action) -> Option<Vec<String>>>(&self, key: &str, io: &mut Driver<D>) -> (r:
        Res<()>)
        requires
            ready(*old(io)),
        ensures
            heard(*old(io), *final(io), self.step(key@, None)),
            r is Ok <==> final(io).said().last() is Some,
            r matches Err(e) ==> e == Error::BadIo,
    {
        if self.append(&Record::Del(key.to_owned()), io) {
            Ok(())
        } else {
            Err(Error::BadIo)
        }
    }

    /// What a replay gives of what the driver read.
    pub open spec fn replay_of(reply: Option<Seq<Seq<char>>>) -> Result<Fields, Error> {
        match reply {
            Some(lines) => replayed(lines),
            None => Err(Error::BadIo),
        }
    }

    /// Reads the journal and rebuilds the store from it: asks the driver for the one step
    /// that reads the file, and replays what the driver said.
    pub fn replay<D: Fn(Action) -> Option<Vec<String>>>(&self, io: &mut Driver<D>) -> (r: Res<Row>)
        requires
            ready(*old(io)),
        ensures
            heard(*old(io), *final(io), Step::Read(self.path())),
            r matches Ok(store) ==> distinct_keys(store@),
            match r {
                Ok(store) => Self::replay_of(final(io).said().last()) == Ok::<Fields, Error>(
                    store@,
                ),
                Err(e) => Self::replay_of(final(io).said().last()) == Err::<Fields, Error>(e),
            },
    {
        match io.take(Action::Read(self.path.clone())) {
            Some(lines) => replay_lines(&lines),
            None => Err(Error::BadIo),
        }
    }
}

} // verus!
