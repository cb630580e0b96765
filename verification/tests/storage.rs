use memson::db::{Cmd, Database, Table};
use memson::disk::{join_path, with_ending, Action, Driver};
use memson::error::Error;
use memson::fpu::Calc;
use memson::log::{parse_row, print_rows, replay_rows, DbConfig, ReplayLog, TableConfig};
use memson::query::{eval_row, eval_rows, eval_sum, Expr, Query};
use memson::replay::{replay_lines, Record};
use memson::value::{JsonVal, Row};
use serde_json::Number;
use std::cell::{Cell, RefCell};
use std::collections::BTreeMap;

fn float(n: &Number) -> f64 {
    n.as_f64().unwrap()
}

fn fpu(c: Calc) -> Option<Number> {
    let x = match c {
        Calc::Float(a) => float(&a),
        Calc::Add(a, b) => float(&a) + float(&b),
        Calc::Sub(a, b) => float(&a) - float(&b),
        Calc::Mul(a, b) => float(&a) * float(&b),
        Calc::Div(a, b) => float(&a) / float(&b),
        Calc::Max(a, b) => {
            if float(&b) > float(&a) {
                float(&b)
            } else {
                float(&a)
            }
        }
        Calc::Min(a, b) => {
            if float(&b) < float(&a) {
                float(&b)
            } else {
                float(&a)
            }
        }
        Calc::Sqrt(a) => float(&a).sqrt(),
    };
    Number::from_f64(x)
}

/// Files in memory; `room` is the number of writing steps that still go through, `asked` the
/// steps that were asked for.
struct Files {
    files: RefCell<BTreeMap<String, Vec<String>>>,
    room: Cell<usize>,
    asked: RefCell<Vec<String>>,
}

impl Files {
    fn new() -> Files {
        Files {
            files: RefCell::new(BTreeMap::new()),
            room: Cell::new(usize::MAX),
            asked: RefCell::new(Vec::new()),
        }
    }

    fn take(&self, action: Action) -> Option<Vec<String>> {
        self.asked.borrow_mut().push(match &action {
            Action::Read(path) => format!("read {}", path),
            Action::Append(path, lines) => format!("append {} {}", path, lines.len()),
            Action::Replace(path, lines) => format!("replace {} {}", path, lines.len()),
            Action::Remove(path) => format!("remove {}", path),
        });
        let mut files = self.files.borrow_mut();
        if let Action::Read(path) = action {
            return Some(files.entry(path).or_default().clone());
        }
        if self.room.get() == 0 {
            return None;
        }
        self.room.set(self.room.get() - 1);
        match action {
            Action::Append(path, lines) => files.entry(path).or_default().extend(lines),
            Action::Replace(path, lines) => {
                files.insert(path, lines);
            }
            Action::Remove(path) => {
                files.remove(&path)?;
            }
            Action::Read(_) => unreachable!(),
        }
        Some(Vec::new())
    }

    fn has(&self, path: &str) -> bool {
        self.files.borrow().contains_key(path)
    }

    fn asked(&self) -> Vec<String> {
        self.asked.replace(Vec::new())
    }

    fn lines(&self, path: &str) -> Vec<String> {
        self.files.borrow().get(path).cloned().unwrap_or_default()
    }

    fn put(&self, path: &str, lines: &[&str]) {
        let lines = lines.iter().map(|l| l.to_string()).collect();
        self.files.borrow_mut().insert(path.to_string(), lines);
    }
}

fn json(text: &str) -> JsonVal {
    JsonVal::parse(text).unwrap()
}

fn whole(n: i64) -> JsonVal {
    JsonVal::Number(Number::from(n))
}

fn frac(x: f64) -> JsonVal {
    JsonVal::Number(Number::from_f64(x).unwrap())
}

fn text(s: &str) -> JsonVal {
    JsonVal::String(s.to_string())
}

fn obj(key: &str, val: JsonVal) -> Row {
    let mut row = Row::new();
    row.insert(key.to_string(), val);
    row
}

fn strings(lines: &[&str]) -> Vec<String> {
    lines.iter().map(|l| l.to_string()).collect()
}

#[test]
fn insert_new_table_ok() {
    let files = Files::new();
    let mut io = Driver::new(|a: Action| files.take(a));
    let mut db = Database::open("./", "test", &mut io).unwrap();
    let cmd = Cmd::Insert(
        "t".to_string(),
        vec![obj("x", whole(1)), obj("x", frac(2.1)), obj("x", text("s"))],
    );
    db.eval_cmd(cmd, &mut io).unwrap();
    assert_eq!(db.tables().len(), 1);
    let tbl = &db.tables()[0];
    assert_eq!(tbl.name(), "t");
    assert_eq!(tbl.len(), 3);
    assert_eq!(tbl.rows()[0], obj("x", whole(1)));
    assert_eq!(tbl.rows()[1], obj("x", frac(2.1)));
    assert_eq!(tbl.rows()[2], obj("x", text("s")));

    assert!(files.has("./test.db"));
    assert!(files.has("./t.table"));
}

#[test]
fn delete_table_ok() {
    let files = Files::new();
    let mut io = Driver::new(|a: Action| files.take(a));
    // populate db with test table
    let mut db = Database::open("./", "test3", &mut io).unwrap();
    db.eval_cmd(
        Cmd::Insert(
            "foo".to_string(),
            vec![obj("x", whole(1)), obj("x", frac(2.1)), obj("x", text("s"))],
        ),
        &mut io,
    )
    .unwrap();

    assert_eq!(db.tables().len(), 1);
    // delete table
    db.eval_cmd(Cmd::Delete("foo".to_string()), &mut io).unwrap();
    // assert state
    assert_eq!(db.tables().len(), 0);
    assert!(files.has("./test3.db"));
}

#[test]
fn append_to_table_ok() {
    let files = Files::new();
    let mut io = Driver::new(|a: Action| files.take(a));
    let mut db = Database::open("./", "append", &mut io).unwrap();
    // create table
    let cmd = Cmd::Insert(
        "append".to_string(),
        vec![obj("x", whole(1)), obj("x", frac(2.1)), obj("x", text("s"))],
    );
    db.eval_cmd(cmd, &mut io).unwrap();
    // append data to table
    let cmd = Cmd::Insert(
        "append".to_string(),
        vec![obj("x", whole(2)), obj("x", frac(3.1)), obj("x", text("t"))],
    );
    db.eval_cmd(cmd, &mut io).unwrap();
    assert_eq!(db.tables().len(), 1);
    let tbl = &db.tables()[0];
    assert_eq!(tbl.name(), "append");
    assert_eq!(tbl.len(), 6);
    assert_eq!(tbl.rows()[0], obj("x", whole(1)));
    assert_eq!(tbl.rows()[1], obj("x", frac(2.1)));
    assert_eq!(tbl.rows()[2], obj("x", text("s")));
    assert_eq!(tbl.rows()[3], obj("x", whole(2)));
    assert_eq!(tbl.rows()[4], obj("x", frac(3.1)));
    assert_eq!(tbl.rows()[5], obj("x", text("t")));

    assert!(files.has("./append.db"));
    assert!(files.has("./append.table"));
}

#[test]
fn dbconfig_load() {
    let files = Files::new();
    let mut io = Driver::new(|a: Action| files.take(a));
    let log = DbConfig::open("./", "test2");
    log.insert("a", &mut io).unwrap();
    log.insert("b", &mut io).unwrap();
    let tables = log.load(&mut io).unwrap();
    assert_eq!(tables.len(), 2);
    assert_eq!(tables[0].name(), "a");
    assert_eq!(tables[0].len(), 0);
    assert_eq!(tables[1].name(), "b");
    assert_eq!(tables[1].len(), 0);
    assert!(files.has("./test2.db"));
    assert!(files.has("./a.table"));
    assert!(files.has("./b.table"));
}

#[test]
fn replaylog_load() {
    let files = Files::new();
    let mut io = Driver::new(|a: Action| files.take(a));
    let log = ReplayLog::open("./c.table".to_string());
    log.insert(&vec![obj("x", whole(1)), obj("x", text("a"))], &mut io).unwrap();
    log.insert(&vec![obj("x", whole(2)), obj("x", text("b"))], &mut io).unwrap();

    assert_eq!(
        log.replay(&mut io).unwrap(),
        vec![obj("x", whole(1)), obj("x", text("a")), obj("x", whole(2)), obj("x", text("b"))]
    );

    assert!(files.has("./c.table"));
}

#[test]
fn select_sum_ok() {
    let files = Files::new();
    let mut io = Driver::new(|a: Action| files.take(a));
    let mut db = Database::open("./", "t5", &mut io).unwrap();
    // create table
    let cmd = Cmd::Insert(
        "p".to_string(),
        vec![obj("price", whole(1)), obj("price", whole(2)), obj("price", whole(3))],
    );
    db.eval_cmd(cmd, &mut io).unwrap();
    let expr = Expr::Sum(Box::new(Expr::Get("price".to_string())));
    let qry = Query::from(vec![expr], "p".to_string());
    let res = qry.exec(&db, &fpu).unwrap();
    assert_eq!(res.len(), 1);
    assert_eq!(res[0], obj("sum(price)", frac(6.0)));

    assert!(files.has("./t5.db"));
    assert!(files.has("./p.table"));
}

#[test]
fn select_get_ok() {
    let files = Files::new();
    let mut io = Driver::new(|a: Action| files.take(a));
    let mut db = Database::open("./", "t6", &mut io).unwrap();
    // create table
    let cmd = Cmd::Insert(
        "prices".to_string(),
        vec![obj("price", whole(1)), obj("price", whole(2)), obj("price", whole(3))],
    );
    db.eval_cmd(cmd, &mut io).unwrap();
    let expr = Expr::Get("price".to_string());
    let qry = Query::from(vec![expr], "prices".to_string());
    let res = qry.exec(&db, &fpu).unwrap();
    assert_eq!(res.len(), 3);
    assert_eq!(res[0], obj("price", whole(1)));
    assert_eq!(res[1], obj("price", whole(2)));
    assert_eq!(res[2], obj("price", whole(3)));

    assert!(files.has("./t6.db"));
    assert!(files.has("./prices.table"));
}

#[test]
fn a_table_is_made_then_grows_then_leaves() {
    let files = Files::new();
    let mut io = Driver::new(|a: Action| files.take(a));
    let mut db = Database::open("data", "life", &mut io).unwrap();
    assert!(db.find_table("t").is_none());
    assert_eq!(db.table_exits("t"), None);
    db.insert_table("t".to_string(), vec![obj("a", whole(1))], &mut io).unwrap();
    assert_eq!(db.find_table("t").unwrap().len(), 1);
    db.insert_table("u".to_string(), vec![], &mut io).unwrap();
    db.insert_table("t".to_string(), vec![obj("a", whole(2)), obj("b", whole(3))], &mut io)
        .unwrap();
    assert_eq!(db.find_table("t").unwrap().len(), 3);
    assert_eq!(db.table_exits("t"), Some(0));
    assert_eq!(db.table_exits("u"), Some(1));
    assert_eq!(db.tables().len(), 2);
    assert_eq!(files.lines("data/t.table"), vec!["{\"a\":1}", "{\"a\":2}", "{\"b\":3}"]);
    assert_eq!(
        files.lines("data/life.db"),
        vec![
            "{\"table\":\"t\",\"path\":\"data/t.table\"}",
            "{\"table\":\"u\",\"path\":\"data/u.table\"}"
        ]
    );
    assert_eq!(db.delete_table("t", &mut io), Ok(true));
    assert!(db.find_table("t").is_none());
    assert!(!files.has("data/t.table"));
    assert_eq!(files.lines("data/life.db"), vec!["{\"table\":\"u\",\"path\":\"data/u.table\"}"]);
    assert_eq!(db.delete_table("t", &mut io), Ok(false));
    assert_eq!(db.table_exits("u"), Some(0));
    assert_eq!(db.root_path(), "data");
}

#[test]
fn a_database_that_is_opened_again_holds_what_it_held() {
    let files = Files::new();
    let mut io = Driver::new(|a: Action| files.take(a));
    let mut db = Database::open("./", "again", &mut io).unwrap();
    db.eval("{\"set\":[\"k\",[1,2.5,\"x\"]]}", &fpu, &mut io).unwrap();
    db.eval("{\"set\":[\"gone\",1]}", &fpu, &mut io).unwrap();
    db.eval("{\"set\":[\"k\",{\"a\":null}]}", &fpu, &mut io).unwrap();
    db.eval("{\"del\":\"gone\"}", &fpu, &mut io).unwrap();
    db.insert_table("t".to_string(), vec![obj("x", whole(1)), obj("y", frac(0.5))], &mut io)
        .unwrap();
    db.insert_table("u".to_string(), vec![obj("x", text("s"))], &mut io).unwrap();
    db.insert_table("t".to_string(), vec![obj("z", json("[true]"))], &mut io).unwrap();
    db.delete_table("u", &mut io).unwrap();
    let again = Database::open("./", "again", &mut io).unwrap();
    assert_eq!(again, db);
    assert_eq!(again.get("k"), Some(&json("{\"a\":null}")));
    assert_eq!(again.get("gone"), None);
    assert_eq!(again.tables().len(), 1);
    assert_eq!(again.tables()[0].rows().len(), 3);
}

#[test]
fn keys_and_values_with_any_characters_come_back() {
    let files = Files::new();
    let mut io = Driver::new(|a: Action| files.take(a));
    let mut db = Database::open("./", "eq", &mut io).unwrap();
    db.eval("{\"set\":[\"a=1\",2]}", &fpu, &mut io).unwrap();
    db.eval("{\"set\":[\"k\",\"a=b=c\"]}", &fpu, &mut io).unwrap();
    db.eval("{\"set\":[\"two\\nlines\",{\"x=y\":[\"=\",\"\\\"\"]}]}", &fpu, &mut io).unwrap();
    db.eval("{\"set\":[\"\",null]}", &fpu, &mut io).unwrap();
    db.eval("{\"set\":[\"gone=\",1]}", &fpu, &mut io).unwrap();
    db.eval("{\"del\":\"gone=\"}", &fpu, &mut io).unwrap();
    assert_eq!(files.lines("./eq.log").len(), 6);
    assert_eq!(files.lines("./eq.log")[0], "[\"a=1\",2]");
    let again = Database::open("./", "eq", &mut io).unwrap();
    assert_eq!(again, db);
    assert_eq!(again.get("a=1"), Some(&json("2")));
    assert_eq!(again.get("a"), None);
    assert_eq!(again.get("k"), Some(&json("\"a=b=c\"")));
    assert_eq!(again.get("two\nlines"), Some(&json("{\"x=y\":[\"=\",\"\\\"\"]}")));
    assert_eq!(again.get(""), Some(&JsonVal::Null));
    assert_eq!(again.get("gone="), None);
}

#[test]
fn replay_gives_the_same_twice() {
    let lines = strings(&[
        "[\"a\",1]",
        "[\"b\",[1,2]]",
        "[\"a\",{\"x\":\"y\"}]",
        "[\"c\",true]",
        "[\"c\"]",
    ]);
    let first = replay_lines(&lines).unwrap();
    let second = replay_lines(&lines).unwrap();
    assert_eq!(first, second);
    let mut expected = Row::new();
    expected.insert("a".to_string(), json("{\"x\":\"y\"}"));
    expected.insert("b".to_string(), json("[1,2]"));
    assert_eq!(first, expected);
    let rows = strings(&["{\"x\":1}", "{\"x\":\"a\"}"]);
    assert_eq!(replay_rows(&rows), replay_rows(&rows));
    assert_eq!(replay_rows(&rows), Ok(vec![obj("x", whole(1)), obj("x", text("a"))]));
    let bad = strings(&["[\"a\",1]", "nothing"]);
    assert_eq!(replay_lines(&bad), replay_lines(&bad));
}

#[test]
fn a_line_records_a_key_with_a_value_or_alone() {
    assert_eq!(Record::Put("k".to_string(), json("[1,\"a\"]")).line(), "[\"k\",[1,\"a\"]]");
    assert_eq!(Record::Del("k".to_string()).line(), "[\"k\"]");
    assert_eq!(Record::Put("a=b".to_string(), text("c=d")).line(), "[\"a=b\",\"c=d\"]");
    assert_eq!(
        Record::parse("[\"k\",[1,\"a\"]]"),
        Ok(Record::Put("k".to_string(), json("[1,\"a\"]")))
    );
    assert_eq!(Record::parse(" [ \"k\" ] "), Ok(Record::Del("k".to_string())));
    assert_eq!(Record::parse("[\"\",1]"), Ok(Record::Put("".to_string(), json("1"))));
    assert_eq!(
        Record::parse("[\"a=b\",\"c=d\"]"),
        Ok(Record::Put("a=b".to_string(), text("c=d")))
    );
    assert_eq!(Record::read(json("[\"k\",null]")), Ok(Record::Put("k".to_string(), JsonVal::Null)));
    assert_eq!(Record::parse("[\"k\",1,2]"), Err(Error::BadLine));
    assert_eq!(Record::parse("[]"), Err(Error::BadLine));
    assert_eq!(Record::parse("[1,2]"), Err(Error::BadLine));
    assert_eq!(Record::parse("[1]"), Err(Error::BadLine));
    assert_eq!(Record::parse("{\"k\":1}"), Err(Error::BadLine));
    assert_eq!(Record::parse("\"k\""), Err(Error::BadLine));
    assert_eq!(Record::parse("k=1"), Err(Error::BadJson));
    assert_eq!(Record::parse(""), Err(Error::BadJson));
    assert_eq!(Record::parse("[\"k\","), Err(Error::BadJson));
    assert_eq!(
        Record::parse("[\"\u{e9}t\u{e9}\",\"\u{e9}\"]"),
        Ok(Record::Put("\u{e9}t\u{e9}".to_string(), text("\u{e9}")))
    );
}

#[test]
fn a_journal_with_a_bad_line_does_not_replay() {
    assert_eq!(replay_lines(&strings(&["[\"a\",1]", "[2]", "[\"c\",2]"])), Err(Error::BadLine));
    assert_eq!(replay_lines(&strings(&["[\"a\",1]", "[\"b\",", "7"])), Err(Error::BadJson));
    assert_eq!(replay_lines(&strings(&[])), Ok(Row::new()));
    assert_eq!(replay_rows(&strings(&["{\"a\":1}", "[1]"])), Err(Error::BadJson));
    assert_eq!(replay_rows(&strings(&["{\"a\":1}", "{"])), Err(Error::BadJson));
    assert_eq!(parse_row("7"), Err(Error::BadJson));
    assert_eq!(parse_row("{\"a\":{\"b\":[1]}}"), Ok(obj("a", json("{\"b\":[1]}"))));
}

#[test]
fn rows_are_written_as_their_json_text() {
    let mut row = obj("b", whole(1));
    row.insert("a".to_string(), frac(1.5));
    assert_eq!(row.to_string(), "{\"b\":1,\"a\":1.5}");
    assert_eq!(print_rows(&vec![row, Row::new()]), vec!["{\"b\":1,\"a\":1.5}", "{}"]);
    assert_eq!(json("{\"b\":1,\"a\":[null,true]}").to_string(), "{\"b\":1,\"a\":[null,true]}");
    assert_eq!(json(" [ 1 , 2 ] "), json("[1,2]"));
}

#[test]
fn a_row_binds_each_name_once() {
    let mut row = Row::new();
    assert!(row.is_empty());
    assert_eq!(row.insert("a".to_string(), whole(1)), None);
    assert_eq!(row.insert("b".to_string(), whole(2)), None);
    assert_eq!(row.insert("a".to_string(), whole(3)), Some(whole(1)));
    assert_eq!(row.len(), 2);
    assert_eq!(row.key_at(0), "a");
    assert_eq!(row.value_at(0), &whole(3));
    assert_eq!(row.key_at(1), "b");
    assert_eq!(row.position("b"), Some(1));
    assert_eq!(row.get("a"), Some(&whole(3)));
    assert_eq!(row.get("c"), None);
    assert_eq!(row.remove("a"), Some(whole(3)));
    assert_eq!(row.remove("a"), None);
    assert_eq!(row.get("a"), None);
    assert_eq!(row.clone(), obj("b", whole(2)));
    assert_eq!(json("{\"a\":{\"b\":[1,\"c\"]}}").clone(), json("{\"a\":{\"b\":[1,\"c\"]}}"));
}

#[test]
fn the_directory_records_tables_by_name_and_file() {
    let config = TableConfig { table: "t".to_string(), path: "./t.table".to_string() };
    assert_eq!(config.line(), "{\"table\":\"t\",\"path\":\"./t.table\"}");
    assert_eq!(TableConfig::parse("{\"path\":\"p\",\"table\":\"t\",\"more\":1}"),
        Ok(TableConfig { table: "t".to_string(), path: "p".to_string() }));
    assert_eq!(TableConfig::parse("{\"table\":\"t\"}"), Err(Error::BadJson));
    assert_eq!(TableConfig::parse("{\"table\":1,\"path\":\"p\"}"), Err(Error::BadJson));
    assert_eq!(TableConfig::parse("[\"t\",\"p\"]"), Err(Error::BadJson));
    assert_eq!(TableConfig::parse("{"), Err(Error::BadJson));
    assert_eq!(join_path("./", "a.db"), "./a.db");
    assert_eq!(join_path("dir", "a.db"), "dir/a.db");
    assert_eq!(join_path("", "a.db"), "a.db");
    assert_eq!(with_ending("a", ".table"), "a.table");
    assert_eq!(DbConfig::open("dir", "d").root_path(), "dir");
}

#[test]
fn taking_a_table_out_writes_the_directory_anew() {
    let files = Files::new();
    let mut io = Driver::new(|a: Action| files.take(a));
    let log = DbConfig::open("./", "d");
    log.insert("a", &mut io).unwrap();
    log.insert("b", &mut io).unwrap();
    log.insert("a", &mut io).unwrap();
    files.put("./a.table", &["{\"x\":1}"]);
    assert_eq!(log.remove_table("a", &mut io), Ok(true));
    assert_eq!(files.lines("./d.db"), vec!["{\"table\":\"b\",\"path\":\"./b.table\"}"]);
    assert!(!files.has("./a.table"));
    assert_eq!(log.remove_table("a", &mut io), Ok(false));
    assert_eq!(log.remove_table("b", &mut io), Err(Error::BadIo));
    files.put("./d.db", &["{\"table\":\"b\",\"path\":\"./b.table\"}", "what"]);
    assert_eq!(log.remove_table("b", &mut io), Err(Error::BadJson));
    assert_eq!(files.lines("./d.db").len(), 2);
    assert_eq!(log.load(&mut io).err(), Some(Error::BadJson));
}

#[test]
fn a_driver_that_fails_stops_the_operation() {
    let files = Files::new();
    let mut io = Driver::new(|a: Action| files.take(a));
    let mut fails = Driver::new(|_a: Action| -> Option<Vec<String>> { None });
    assert_eq!(Database::open("./", "x", &mut fails).err(), Some(Error::BadIo));
    assert_eq!(DbConfig::open("./", "x").load(&mut fails).err(), Some(Error::BadIo));
    assert_eq!(DbConfig::open("./", "x").insert("t", &mut fails), Err(Error::BadWrite));
    assert_eq!(DbConfig::open("./", "x").remove_table("t", &mut fails), Err(Error::BadIo));
    assert_eq!(ReplayLog::open("f".to_string()).replay(&mut fails), Err(Error::BadIo));
    assert_eq!(
        ReplayLog::open("f".to_string()).write(&Row::new(), &mut fails),
        Err(Error::BadWrite)
    );
    assert_eq!(ReplayLog::new("f".to_string(), &vec![], &mut fails).err(), Some(Error::BadWrite));
    assert_eq!(Table::new("t".to_string(), "./", vec![], &mut fails).err(), Some(Error::BadWrite));
    assert_eq!(Table::open("t".to_string(), "f".to_string(), &mut fails).err(), Some(Error::BadIo));
    assert_eq!(
        memson::replay::ReplayLog::open("f".to_string()).replay(&mut fails),
        Err(Error::BadIo)
    );
    assert_eq!(
        memson::replay::ReplayLog::open("f".to_string()).write("k", &whole(1), &mut fails),
        Err(Error::BadWrite)
    );
    assert_eq!(
        memson::replay::ReplayLog::open("f".to_string()).erase("k", &mut fails),
        Err(Error::BadIo)
    );

    let mut db = Database::open("./", "x", &mut io).unwrap();
    db.insert_table("t".to_string(), vec![obj("a", whole(1))], &mut io).unwrap();
    files.room.set(0);
    let more = || vec![obj("a", whole(2))];
    assert_eq!(db.insert_table("t".to_string(), more(), &mut io), Err(Error::BadWrite));
    assert_eq!(db.insert_table("u".to_string(), more(), &mut io), Err(Error::BadWrite));
    assert_eq!(db.delete_table("t", &mut io), Err(Error::BadIo));
    assert_eq!(db.find_table("t").unwrap().len(), 1);
    assert!(db.find_table("u").is_none());
    // the log of the new table takes the rows, the directory refuses the table
    files.room.set(1);
    assert_eq!(db.insert_table("u".to_string(), more(), &mut io), Err(Error::BadWrite));
    assert!(db.find_table("u").is_none());
    assert_eq!(db.tables().len(), 1);
}

#[test]
fn a_table_is_built_of_its_parts_and_changed_in_place() {
    let files = Files::new();
    let mut io = Driver::new(|a: Action| files.take(a));
    let mut db = Database::open("./", "parts", &mut io).unwrap();
    let log = ReplayLog::open("./made.table".to_string());
    assert_eq!(log.file(), "./made.table");
    let table = Table::from("made".to_string(), vec![obj("a", whole(1))], log);
    assert_eq!(table.path(), "./made.table");
    db.insert(table, &mut io).unwrap();
    assert_eq!(files.lines("./parts.db"), vec!["{\"table\":\"made\",\"path\":\"./made.table\"}"]);
    db.find_table_mut("made").unwrap().insert(vec![obj("a", whole(2))], &mut io).unwrap();
    assert!(db.find_table_mut("none").is_none());
    assert_eq!(
        db.find_table("made").unwrap().rows(),
        &vec![obj("a", whole(1)), obj("a", whole(2))]
    );
    assert_eq!(files.lines("./made.table"), vec!["{\"a\":2}"]);
    let query = Query::from(vec![], "made".to_string());
    assert_eq!(db.eval_cmd(Cmd::Query(query), &mut io), Err(Error::BadRequest));
}

#[test]
fn a_query_selects_members_and_sums() {
    let files = Files::new();
    let mut io = Driver::new(|a: Action| files.take(a));
    let mut db = Database::open("./", "q", &mut io).unwrap();
    let mut both = obj("price", whole(2));
    both.insert("name".to_string(), text("b"));
    let rows = vec![obj("price", whole(1)), both, obj("other", whole(9)), obj("price", text("x"))];
    db.insert_table("p".to_string(), rows, &mut io).unwrap();
    let price = || Expr::Get("price".to_string());
    let name = || Expr::Get("name".to_string());
    let sum = || Expr::Sum(Box::new(Expr::Get("price".to_string())));

    let res = Query::from(vec![name(), price(), sum()], "p".to_string()).exec(&db, &fpu).unwrap();
    let mut first = obj("price", whole(1));
    first.insert("sum(price)".to_string(), frac(3.0));
    let mut second = obj("name", text("b"));
    second.insert("price".to_string(), whole(2));
    assert_eq!(res, vec![first, second, obj("price", text("x"))]);

    let none = Query::from(vec![Expr::Get("nope".to_string())], "p".to_string());
    assert_eq!(none.exec(&db, &fpu), Ok(vec![Row::new()]));
    let missing = Query::from(vec![price()], "nope".to_string());
    assert_eq!(missing.exec(&db, &fpu), Err(Error::TableNotFound));
    let nested = Expr::Sum(Box::new(sum()));
    assert_eq!(
        Query::from(vec![nested], "p".to_string()).exec(&db, &fpu),
        Ok(vec![Row::new()])
    );

    let table = db.find_table("p").unwrap();
    assert_eq!(eval_sum(table.rows(), "price", &fpu), frac(3.0));
    assert_eq!(eval_sum(table.rows(), "nope", &fpu), frac(0.0));
    assert_eq!(eval_row(&vec![price(), name()], &table.rows()[2]), Ok(Row::new()));
    assert_eq!(eval_rows(&vec![name()], table), Ok(vec![obj("name", text("b"))]));
}

#[test]
fn a_selection_is_named_by_its_text() {
    let price = Expr::Get("price".to_string());
    assert_eq!(price.to_string(), "price");
    let sum = Expr::Sum(Box::new(price));
    assert_eq!(sum.to_string(), "sum(price)");
    let max = Expr::Max(Box::new(sum));
    assert_eq!(max.to_string(), "max(sum(price))");
    assert_eq!(Expr::Min(Box::new(max)).to_string(), "min(max(sum(price)))");
}

#[test]
fn objects_are_equal_whatever_the_order_of_their_members() {
    assert_eq!(
        json("{\"a\":1,\"b\":[2,{\"c\":3,\"d\":4}]}"),
        json("{\"b\":[2,{\"d\":4,\"c\":3}],\"a\":1}")
    );
    assert_ne!(json("{\"a\":1,\"b\":2}"), json("{\"a\":1,\"b\":3}"));
    assert_ne!(json("{\"a\":1,\"b\":2}"), json("{\"a\":1,\"c\":2}"));
    assert_ne!(json("{\"a\":1}"), json("{\"a\":1,\"b\":2}"));
    assert_ne!(json("[1,2]"), json("[2,1]"));
    assert_ne!(json("[1,2]"), json("[1,2,3]"));
    assert_ne!(json("1"), json("1.0"));
    assert_eq!(json("1.5"), json("1.50"));
    assert_ne!(json("\"a\""), json("\"b\""));
    assert_ne!(json("null"), json("false"));
    assert_eq!(json("true"), json("true"));
    let mut ab = obj("a", whole(1));
    ab.insert("b".to_string(), whole(2));
    let mut ba = obj("b", whole(2));
    ba.insert("a".to_string(), whole(1));
    assert_eq!(ab, ba);
    assert_ne!(ab, obj("a", whole(1)));
}

#[test]
fn a_table_of_a_taken_name_is_refused() {
    let files = Files::new();
    let mut io = Driver::new(|a: Action| files.take(a));
    let mut db = Database::open("./", "twice", &mut io).unwrap();
    db.insert_table("t".to_string(), vec![obj("a", whole(1))], &mut io).unwrap();
    files.asked();
    let log = ReplayLog::open("./other.table".to_string());
    let table = Table::from("t".to_string(), vec![obj("a", whole(2))], log);
    assert_eq!(db.insert(table, &mut io), Err(Error::BadRequest));
    assert_eq!(files.asked(), Vec::<String>::new());
    assert_eq!(db.tables().len(), 1);
    assert_eq!(db.find_table("t").unwrap().rows(), &vec![obj("a", whole(1))]);
    assert_eq!(db.delete_table("t", &mut io), Ok(true));
    assert!(db.find_table("t").is_none());
}

#[test]
fn a_directory_that_names_a_table_twice_does_not_open() {
    let files = Files::new();
    let mut io = Driver::new(|a: Action| files.take(a));
    let line = "{\"table\":\"t\",\"path\":\"./t.table\"}";
    files.put("./dup.db", &[line, "{\"table\":\"u\",\"path\":\"./u.table\"}", line]);
    assert_eq!(Database::open("./", "dup", &mut io).err(), Some(Error::BadLine));
    assert_eq!(
        files.asked(),
        vec!["read ./dup.db", "read ./t.table", "read ./u.table", "read ./t.table"]
    );
}

#[test]
fn the_logs_take_every_row_once_and_in_order() {
    let files = Files::new();
    let mut io = Driver::new(|a: Action| files.take(a));
    let mut db = Database::open("./", "once", &mut io).unwrap();
    files.asked();
    db.insert_table("t".to_string(), vec![obj("a", whole(1)), obj("a", whole(2))], &mut io)
        .unwrap();
    assert_eq!(files.asked(), vec!["append ./t.table 2", "append ./once.db 1"]);
    db.insert_table("t".to_string(), vec![obj("a", whole(3))], &mut io).unwrap();
    assert_eq!(files.asked(), vec!["append ./t.table 1"]);
    assert_eq!(files.lines("./t.table"), vec!["{\"a\":1}", "{\"a\":2}", "{\"a\":3}"]);
    let table = Table::open("t".to_string(), "./t.table".to_string(), &mut io).unwrap();
    assert_eq!(table.rows(), db.find_table("t").unwrap().rows());
    assert_eq!(files.asked(), vec!["read ./t.table"]);
}

#[test]
fn deleting_a_table_that_is_not_there_leaves_the_files_alone() {
    let files = Files::new();
    let mut io = Driver::new(|a: Action| files.take(a));
    let mut db = Database::open("./", "keep", &mut io).unwrap();
    db.insert_table("t".to_string(), vec![obj("a", whole(1))], &mut io).unwrap();
    let before = files.files.borrow().clone();
    files.asked();
    assert_eq!(db.delete_table("none", &mut io), Ok(false));
    assert_eq!(files.asked(), vec!["read ./keep.db"]);
    assert_eq!(*files.files.borrow(), before);
    assert_eq!(db.tables().len(), 1);
    assert_eq!(db.delete_table("t", &mut io), Ok(true));
    assert_eq!(files.asked(), vec!["read ./keep.db", "replace ./keep.db 0", "remove ./t.table"]);
    assert_eq!(files.lines("./keep.db"), Vec::<String>::new());
    assert!(!files.has("./t.table"));
}

#[test]
fn a_text_reads_back_as_an_equal_value() {
    assert!(json("{\"a\":[1,2.5,\"x=y\",null,{\"b\":true}]}").reads_back());
    assert!(json("\"two\\nlines\"").reads_back());
    assert!(Record::Put("a=b".to_string(), json("[\"=\",1e300]")).comes_back());
    assert!(Record::Del("".to_string()).comes_back());
    let config = TableConfig { table: "t=\"1\"".to_string(), path: "./t.table".to_string() };
    assert!(config.comes_back());
    assert_eq!(TableConfig::parse(&config.line()), Ok(config));
}

#[test]
fn a_row_reads_back_as_an_equal_row() {
    let row = parse_row("{\"name\":\"a=b\",\"n\":[1,2.5,-0.0],\"in\":{\"k\":null}}").unwrap();
    assert!(row.reads_back());
    assert_eq!(parse_row(&row.to_string()), Ok(row));
    assert!(Row::new().reads_back());
}
