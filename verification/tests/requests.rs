use memson::db::Database;
use memson::disk::{Action, Driver};
use memson::error::Error;
use memson::eval::{db_write, eval_json_cmd};
use memson::fpu::Calc;
use memson::json::{parse_json_str, parse_json_val, parse_obj, Cmd};
use memson::value::{JsonVal, Row};
use serde_json::Number;
use std::cell::{Cell, RefCell};
use std::collections::BTreeMap;

fn float(n: &Number) -> f64 {
    n.as_f64().unwrap()
}

fn fpu(c: Calc) -> Option<Number> {
    let x = match c {
        Calc::Float(a) => float(&a),
        Calc::Add(a, b) => float(&a) + float(&b),
        Calc::Sub(a, b) => float(&a) - float(&b),
        Calc::Mul(a, b) => float(&a) * float(&b),
        Calc::Div(a, b) => float(&a) / float(&b),
        Calc::Max(a, b) => {
            if float(&b) > float(&a) {
                float(&b)
            } else {
                float(&a)
            }
        }
        Calc::Min(a, b) => {
            if float(&b) < float(&a) {
                float(&b)
            } else {
                float(&a)
            }
        }
        Calc::Sqrt(a) => float(&a).sqrt(),
    };
    Number::from_f64(x)
}

/// Files in memory; `room` is the number of writing steps that still go through, `asked` the
/// steps that were asked for.
struct Files {
    files: RefCell<BTreeMap<String, Vec<String>>>,
    room: Cell<usize>,
    asked: RefCell<Vec<String>>,
}

impl Files {
    fn new() -> Files {
        Files {
            files: RefCell::new(BTreeMap::new()),
            room: Cell::new(usize::MAX),
            asked: RefCell::new(Vec::new()),
        }
    }

    fn take(&self, action: Action) -> Option<Vec<String>> {
        self.asked.borrow_mut().push(match &action {
            Action::Read(path) => format!("read {}", path),
            Action::Append(path, lines) => format!("append {} {}", path, lines.len()),
            Action::Replace(path, lines) => format!("replace {} {}", path, lines.len()),
            Action::Remove(path) => format!("remove {}", path),
        });
        let mut files = self.files.borrow_mut();
        if let Action::Read(path) = action {
            return Some(files.entry(path).or_default().clone());
        }
        if self.room.get() == 0 {
            return None;
        }
        self.room.set(self.room.get() - 1);
        match action {
            Action::Append(path, lines) => files.entry(path).or_default().extend(lines),
            Action::Replace(path, lines) => {
                files.insert(path, lines);
            }
            Action::Remove(path) => {
                files.remove(&path)?;
            }
            Action::Read(_) => unreachable!(),
        }
        Some(Vec::new())
    }

    fn asked(&self) -> Vec<String> {
        self.asked.replace(Vec::new())
    }

    fn lines(&self, path: &str) -> Vec<String> {
        self.files.borrow().get(path).cloned().unwrap_or_default()
    }
}

fn json(text: &str) -> JsonVal {
    JsonVal::parse(text).unwrap()
}

fn get(key: &str) -> Cmd {
    Cmd::Get(key.to_string())
}

fn val(text: &str) -> Cmd {
    Cmd::Val(json(text))
}

fn boxed(cmd: Cmd) -> Box<Cmd> {
    Box::new(cmd)
}

#[test]
fn a_value_that_is_no_object_is_a_literal() {
    assert_eq!(parse_json_str("\"k\""), Ok(val("\"k\"")));
    assert_ne!(parse_json_str("\"k\""), Ok(get("k")));
    assert_eq!(parse_json_str("42"), Ok(val("42")));
    assert_eq!(parse_json_str("[1,2]"), Ok(val("[1,2]")));
    assert_eq!(parse_json_str("null"), Ok(Cmd::Val(JsonVal::Null)));
    assert_eq!(parse_json_val(JsonVal::Bool(true)), Ok(Cmd::Val(JsonVal::Bool(true))));
}

#[test]
fn get_and_del_take_a_key() {
    assert_eq!(parse_json_str("{\"get\":\"k\"}"), Ok(get("k")));
    assert_eq!(parse_json_str("{\"del\":\"k\"}"), Ok(Cmd::Del("k".to_string())));
    assert_eq!(parse_json_str("{\"get\":5}"), Err(Error::BadRequest));
    assert_eq!(parse_json_str("{\"del\":[\"k\"]}"), Err(Error::BadRequest));
}

#[test]
fn set_takes_a_key_and_a_value() {
    assert_eq!(parse_json_str("{\"set\":[\"k\", 42]}"), Ok(Cmd::Put("k".to_string(), json("42"))));
    assert_eq!(
        parse_json_str("{\"set\":[\"k\", {\"get\":\"x\"}]}"),
        Ok(Cmd::Put("k".to_string(), json("{\"get\":\"x\"}")))
    );
    assert_eq!(parse_json_str("{\"set\":[\"k\"]}"), Err(Error::BadRequest));
    assert_eq!(parse_json_str("{\"set\":[\"k\",1,2]}"), Err(Error::BadRequest));
    assert_eq!(parse_json_str("{\"set\":[1,2]}"), Err(Error::BadRequest));
    assert_eq!(parse_json_str("{\"set\":\"k\"}"), Err(Error::BadRequest));
    assert_eq!(parse_json_str("{\"set\":{\"k\":1}}"), Err(Error::BadRequest));
}

#[test]
fn an_aggregate_takes_a_key_an_operation_or_a_literal() {
    assert_eq!(parse_json_str("{\"sum\":\"k\"}"), Ok(Cmd::Sum(boxed(get("k")))));
    assert_eq!(parse_json_str("{\"sum\": {\"get\":\"k\"}}"), Ok(Cmd::Sum(boxed(get("k")))));
    assert_eq!(parse_json_str("{\"sum\":[1,2]}"), Ok(Cmd::Sum(boxed(val("[1,2]")))));
    assert_eq!(parse_json_str("{\"min\":\"k\"}"), Ok(Cmd::Min(boxed(get("k")))));
    assert_eq!(parse_json_str("{\"max\":\"k\"}"), Ok(Cmd::Max(boxed(get("k")))));
    assert_eq!(parse_json_str("{\"avg\":[1]}"), Ok(Cmd::Avg(boxed(val("[1]")))));
    assert_eq!(parse_json_str("{\"var\":[1]}"), Ok(Cmd::Var(boxed(val("[1]")))));
    assert_eq!(parse_json_str("{\"dev\":[1]}"), Ok(Cmd::Dev(boxed(val("[1]")))));
    assert_eq!(parse_json_str("{\"first\":\"k\"}"), Ok(Cmd::First(boxed(get("k")))));
    assert_eq!(parse_json_str("{\"last\":\"k\"}"), Ok(Cmd::Last(boxed(get("k")))));
    assert_eq!(
        parse_json_str("{\"max\":{\"sum\":\"k\"}}"),
        Ok(Cmd::Max(boxed(Cmd::Sum(boxed(get("k"))))))
    );
    assert_eq!(parse_json_str("{\"max\":{\"nope\":1}}"), Err(Error::BadRequest));
}

#[test]
fn an_operator_takes_two_requests() {
    assert_eq!(
        parse_json_str("{\"+\": [{\"get\":\"x\"}, {\"get\":\"y\"}]}"),
        Ok(Cmd::Add(boxed(get("x")), boxed(get("y"))))
    );
    assert_eq!(
        parse_json_str("{\"-\":[1,\"k\"]}"),
        Ok(Cmd::Sub(boxed(val("1")), boxed(val("\"k\""))))
    );
    assert_eq!(
        parse_json_str("{\"*\":[[1],2]}"),
        Ok(Cmd::Mul(boxed(val("[1]")), boxed(val("2"))))
    );
    assert_eq!(
        parse_json_str("{\"/\":[{\"sum\":\"k\"},2]}"),
        Ok(Cmd::Div(boxed(Cmd::Sum(boxed(get("k")))), boxed(val("2"))))
    );
    assert_eq!(parse_json_str("{\"+\":[1]}"), Err(Error::BadRequest));
    assert_eq!(parse_json_str("{\"+\":[1,2,3]}"), Err(Error::BadRequest));
    assert_eq!(parse_json_str("{\"+\":7}"), Err(Error::BadRequest));
    assert_eq!(parse_json_str("{\"+\":[1,{\"get\":2}]}"), Err(Error::BadRequest));
    assert_eq!(parse_json_str("{\"+\":[{\"a\":1,\"b\":2},1]}"), Err(Error::BadRequest));
}

#[test]
fn an_object_is_one_operation_of_the_vocabulary() {
    assert_eq!(parse_json_str("{}"), Err(Error::BadRequest));
    assert_eq!(parse_json_str("{\"get\":\"a\",\"del\":\"b\"}"), Err(Error::BadRequest));
    assert_eq!(parse_json_str("{\"fetch\":\"a\"}"), Err(Error::BadRequest));
    assert_eq!(parse_obj(Row::new()), Err(Error::BadRequest));
    let mut one = Row::new();
    one.insert("get".to_string(), json("\"k\""));
    assert_eq!(parse_obj(one), Ok(get("k")));
}

#[test]
fn a_text_that_is_not_json_is_bad_json() {
    assert_eq!(parse_json_str("{\"get\":"), Err(Error::BadJson));
    assert_eq!(parse_json_str(""), Err(Error::BadJson));
    assert_eq!(parse_json_str("get k"), Err(Error::BadJson));
}

#[test]
fn get_gives_the_last_value_that_was_set() {
    let files = Files::new();
    let mut io = Driver::new(|a: Action| files.take(a));
    let mut db = Database::open("./", "kv", &mut io).unwrap();
    assert_eq!(db.eval("{\"get\":\"k\"}", &fpu, &mut io), Err(Error::BadKey));
    assert_eq!(db.eval("{\"set\":[\"k\",1]}", &fpu, &mut io), Ok(JsonVal::Null));
    assert_eq!(db.eval("{\"set\":[\"j\",[1,2]]}", &fpu, &mut io), Ok(JsonVal::Null));
    assert_eq!(db.eval("{\"set\":[\"k\",\"two\"]}", &fpu, &mut io), Ok(json("1")));
    assert_eq!(db.eval("{\"set\":[\"k\",{\"a\":3}]}", &fpu, &mut io), Ok(json("\"two\"")));
    assert_eq!(db.eval("{\"get\":\"k\"}", &fpu, &mut io), Ok(json("{\"a\":3}")));
    assert_eq!(db.eval("{\"get\":\"j\"}", &fpu, &mut io), Ok(json("[1,2]")));
    assert_eq!(db.get("k"), Some(&json("{\"a\":3}")));
}

#[test]
fn del_takes_the_value_out_and_hands_it_back() {
    let files = Files::new();
    let mut io = Driver::new(|a: Action| files.take(a));
    let mut db = Database::open("./", "kv", &mut io).unwrap();
    db.eval("{\"set\":[\"k\",1]}", &fpu, &mut io).unwrap();
    assert_eq!(db.eval("{\"del\":\"k\"}", &fpu, &mut io), Ok(json("1")));
    assert_eq!(db.eval("{\"get\":\"k\"}", &fpu, &mut io), Err(Error::BadKey));
    assert_eq!(db.eval("{\"del\":\"k\"}", &fpu, &mut io), Ok(JsonVal::Null));
    assert_eq!(files.lines("./kv.log"), vec!["[\"k\",1]", "[\"k\"]", "[\"k\"]"]);
}

#[test]
fn a_write_that_the_journal_refuses_leaves_the_store_as_it_was() {
    let files = Files::new();
    let mut io = Driver::new(|a: Action| files.take(a));
    let mut db = Database::open("./", "kv", &mut io).unwrap();
    db.eval("{\"set\":[\"k\",1]}", &fpu, &mut io).unwrap();
    files.room.set(0);
    assert_eq!(db.eval("{\"set\":[\"k\",2]}", &fpu, &mut io), Err(Error::BadWrite));
    assert_eq!(db.eval("{\"set\":[\"n\",2]}", &fpu, &mut io), Err(Error::BadWrite));
    assert_eq!(db.eval("{\"del\":\"k\"}", &fpu, &mut io), Err(Error::BadIo));
    assert_eq!(db_write(&mut db, "k".to_string(), json("3"), &mut io), Err(Error::BadWrite));
    assert_eq!(db.set("k".to_string(), json("3"), &mut io), Err(Error::BadWrite));
    assert_eq!(db.del("k", &mut io), Err(Error::BadIo));
    assert_eq!(db.eval("{\"get\":\"k\"}", &fpu, &mut io), Ok(json("1")));
    assert_eq!(db.eval("{\"get\":\"n\"}", &fpu, &mut io), Err(Error::BadKey));
    assert_eq!(files.lines("./kv.log"), vec!["[\"k\",1]"]);
    files.room.set(1);
    assert_eq!(db.eval("{\"set\":[\"k\",2]}", &fpu, &mut io), Ok(json("1")));
    assert_eq!(db.eval("{\"get\":\"k\"}", &fpu, &mut io), Ok(json("2")));
}

#[test]
fn two_sets_of_one_key_leave_one_whole_value() {
    let files = Files::new();
    let mut io = Driver::new(|a: Action| files.take(a));
    let mut db = Database::open("./", "kv", &mut io).unwrap();
    db.eval("{\"set\":[\"k\",{\"a\":[1,2],\"b\":\"x\"}]}", &fpu, &mut io).unwrap();
    assert_eq!(db.eval("{\"get\":\"k\"}", &fpu, &mut io), Ok(json("{\"a\":[1,2],\"b\":\"x\"}")));
    db.eval("{\"set\":[\"k\",{\"c\":true}]}", &fpu, &mut io).unwrap();
    assert_eq!(db.eval("{\"get\":\"k\"}", &fpu, &mut io), Ok(json("{\"c\":true}")));
}

#[test]
fn aggregates_and_operators_run_their_operands() {
    let files = Files::new();
    let mut io = Driver::new(|a: Action| files.take(a));
    let mut db = Database::open("./", "kv", &mut io).unwrap();
    db.eval("{\"set\":[\"x\",[1,2,3]]}", &fpu, &mut io).unwrap();
    db.eval("{\"set\":[\"y\",10]}", &fpu, &mut io).unwrap();
    assert_eq!(db.eval("{\"sum\": {\"get\":\"x\"}}", &fpu, &mut io), Ok(json("6.0")));
    assert_eq!(db.eval("{\"sum\":\"x\"}", &fpu, &mut io), Ok(json("6.0")));
    assert_eq!(db.eval("{\"avg\":\"x\"}", &fpu, &mut io), Ok(json("2.0")));
    assert_eq!(db.eval("{\"max\":\"x\"}", &fpu, &mut io), Ok(json("3.0")));
    assert_eq!(db.eval("{\"min\":\"x\"}", &fpu, &mut io), Ok(json("1.0")));
    assert_eq!(db.eval("{\"first\":\"x\"}", &fpu, &mut io), Ok(json("1")));
    assert_eq!(db.eval("{\"last\":\"x\"}", &fpu, &mut io), Ok(json("3")));
    assert_eq!(db.eval("{\"dev\":[1,1]}", &fpu, &mut io), Ok(json("0.0")));
    assert_eq!(db.eval("{\"var\":[2,4]}", &fpu, &mut io), Ok(json("10.0")));
    assert_eq!(
        db.eval("{\"+\": [{\"get\":\"x\"}, {\"get\":\"y\"}]}", &fpu, &mut io),
        Ok(json("[11.0,12.0,13.0]"))
    );
    assert_eq!(db.eval("{\"-\":[{\"get\":\"y\"},1]}", &fpu, &mut io), Ok(json("9.0")));
    assert_eq!(db.eval("{\"*\":[{\"get\":\"y\"},2]}", &fpu, &mut io), Ok(json("20.0")));
    assert_eq!(db.eval("{\"/\":[{\"get\":\"y\"},4]}", &fpu, &mut io), Ok(json("2.5")));
    assert_eq!(
        db.eval("{\"+\":[\"a\",[\"x\",\"y\"]]}", &fpu, &mut io),
        Ok(json("[\"ax\",\"ay\"]"))
    );
    assert_eq!(db.eval("{\"+\":[5,\"s\"]}", &fpu, &mut io), Err(Error::BadType));
    assert_eq!(db.eval("{\"sum\":\"nope\"}", &fpu, &mut io), Err(Error::BadKey));
    assert_eq!(db.eval("{\"+\":[{\"get\":\"nope\"},1]}", &fpu, &mut io), Err(Error::BadKey));
    assert_eq!(db.eval("{\"+\":[1,{\"get\":\"nope\"}]}", &fpu, &mut io), Err(Error::BadKey));
    assert_eq!(db.eval("{\"first\":[]}", &fpu, &mut io), Err(Error::EmptyArray));
    assert_eq!(db.eval("{\"sum\":[\"a\"]}", &fpu, &mut io), Err(Error::BadNumber));
    assert_eq!(db.eval("{\"nope\":1}", &fpu, &mut io), Err(Error::BadRequest));
    assert_eq!(db.eval("{", &fpu, &mut io), Err(Error::BadJson));
    assert_eq!(db.eval("7", &fpu, &mut io), Ok(json("7")));
}

#[test]
fn the_left_operand_runs_before_the_right_one() {
    let files = Files::new();
    let mut io = Driver::new(|a: Action| files.take(a));
    let mut db = Database::open("./", "kv", &mut io).unwrap();
    db.eval("{\"set\":[\"k\",1]}", &fpu, &mut io).unwrap();
    let cmd = Cmd::Add(
        boxed(Cmd::Put("k".to_string(), json("5"))),
        boxed(Cmd::Put("k".to_string(), json("7"))),
    );
    // the first write hands back 1, the second one 5
    assert_eq!(eval_json_cmd(cmd, &mut db, &fpu, &mut io), Ok(json("6.0")));
    assert_eq!(db.get("k"), Some(&json("7")));
    assert_eq!(files.lines("./kv.log"), vec!["[\"k\",1]", "[\"k\",5]", "[\"k\",7]"]);
    files.room.set(1);
    let cmd = Cmd::Add(
        boxed(Cmd::Put("k".to_string(), json("8"))),
        boxed(Cmd::Put("k".to_string(), json("9"))),
    );
    assert_eq!(eval_json_cmd(cmd, &mut db, &fpu, &mut io), Err(Error::BadWrite));
    assert_eq!(db.get("k"), Some(&json("8")));
    let cmd = Cmd::Sum(boxed(Cmd::Put("k".to_string(), json("[1,2]"))));
    files.room.set(1);
    assert_eq!(eval_json_cmd(cmd, &mut db, &fpu, &mut io), Ok(json("8")));
    assert_eq!(db.get("k"), Some(&json("[1,2]")));
}

#[test]
fn every_error_has_its_text() {
    assert_eq!(Error::BadJson.message(), "bad json");
    assert_eq!(Error::BadRequest.message(), "bad request");
    assert_eq!(Error::BadKey.message(), "bad key");
    assert_eq!(Error::BadType.message(), "bad type");
    assert_eq!(Error::BadNumber.message(), "bad number");
    assert_eq!(Error::EmptyArray.message(), "empty array");
    assert_eq!(Error::BadWrite.message(), "bad write");
    assert_eq!(Error::BadIo.message(), "bad io");
    assert_eq!(Error::BadLine.message(), "bad line");
    assert_eq!(Error::TableNotFound.message(), "cannot find table");
}

#[test]
fn a_request_asks_the_driver_for_its_writes_and_for_nothing_else() {
    let files = Files::new();
    let mut io = Driver::new(|a: Action| files.take(a));
    let mut db = Database::open("./", "kv", &mut io).unwrap();
    assert_eq!(files.asked(), vec!["read ./kv.db", "read ./kv.log"]);
    db.eval("{\"set\":[\"k\",[1,2]]}", &fpu, &mut io).unwrap();
    assert_eq!(files.asked(), vec!["append ./kv.log 1"]);
    assert_eq!(db.eval("{\"get\":\"k\"}", &fpu, &mut io), Ok(json("[1,2]")));
    assert_eq!(db.eval("{\"get\":\"none\"}", &fpu, &mut io), Err(Error::BadKey));
    assert_eq!(db.eval("{\"sum\":\"k\"}", &fpu, &mut io), Ok(json("3.0")));
    assert_eq!(db.eval("{\"+\":[{\"get\":\"k\"},1]}", &fpu, &mut io), Ok(json("[2.0,3.0]")));
    assert_eq!(db.eval("[1,2]", &fpu, &mut io), Ok(json("[1,2]")));
    assert_eq!(db.eval("{\"nope\":1}", &fpu, &mut io), Err(Error::BadRequest));
    assert_eq!(db.eval("{", &fpu, &mut io), Err(Error::BadJson));
    assert_eq!(files.asked(), Vec::<String>::new());
    assert_eq!(files.lines("./kv.log"), vec!["[\"k\",[1,2]]"]);
    db.eval("{\"del\":\"k\"}", &fpu, &mut io).unwrap();
    assert_eq!(files.asked(), vec!["append ./kv.log 1"]);
    assert_eq!(db.eval("{\"get\":\"k\"}", &fpu, &mut io), Err(Error::BadKey));
}

#[test]
fn an_operand_that_fails_keeps_the_one_behind_it_from_writing() {
    let files = Files::new();
    let mut io = Driver::new(|a: Action| files.take(a));
    let mut db = Database::open("./", "kv", &mut io).unwrap();
    files.asked();
    let cmd = Cmd::Add(boxed(get("none")), boxed(Cmd::Put("k".to_string(), json("7"))));
    assert_eq!(eval_json_cmd(cmd, &mut db, &fpu, &mut io), Err(Error::BadKey));
    assert_eq!(db.get("k"), None);
    assert_eq!(files.asked(), Vec::<String>::new());
    assert_eq!(files.lines("./kv.log"), Vec::<String>::new());
    files.room.set(0);
    let cmd = Cmd::Mul(
        boxed(Cmd::Put("a".to_string(), json("1"))),
        boxed(Cmd::Put("b".to_string(), json("2"))),
    );
    assert_eq!(eval_json_cmd(cmd, &mut db, &fpu, &mut io), Err(Error::BadWrite));
    assert_eq!(files.asked(), vec!["append ./kv.log 1"]);
    assert_eq!(db.get("a"), None);
    assert_eq!(db.get("b"), None);
}
