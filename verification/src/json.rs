//! Requests and their parser.

use vstd::prelude::*;
use crate::bridge::{parsed, same_text};
use crate::error::{Error, Res};
use crate::value::{lemma_array_view, views, Fields, Json, JsonVal, Row};

pub use crate::arith::{json_add, json_div, json_mul, json_sub};
pub use crate::eval::eval_json_cmd;
pub use crate::stats::{
    json_avg, json_dev, json_first, json_last, json_max, json_min, json_sum, json_var,
};

verus! {

/// An aggregate or statistic of one operand.
#[derive(Clone, Copy, Debug, PartialEq, Eq, Structural)]
pub enum Stat {
    Sum,
    Min,
    Max,
    Avg,
    Var,
    Dev,
    First,
    Last,
}

/// An arithmetic operator of two operands.
#[derive(Clone, Copy, Debug, PartialEq, Eq, Structural)]
pub enum Op {
    Add,
    Sub,
    Mul,
    Div,
}

/// A request: one read, write, aggregate or arithmetic operation, with its operands.
#[derive(Debug, PartialEq)]
pub enum Cmd {
    Get(String),
    Put(String, JsonVal),
    Sum(Box<Cmd>),
    Max(Box<Cmd>),
    Min(Box<Cmd>),
    Avg(Box<Cmd>),
    Dev(Box<Cmd>),
    Var(Box<Cmd>),
    First(Box<Cmd>),
    Last(Box<Cmd>),
    Del(String),
    Val(JsonVal),
    Add(Box<Cmd>, Box<Cmd>),
    Sub(Box<Cmd>, Box<Cmd>),
    Mul(Box<Cmd>, Box<Cmd>),
    Div(Box<Cmd>, Box<Cmd>),
}

/// The mathematical value of a request.
pub enum Command {
    Get(Seq<char>),
    Put(Seq<char>, Json),
    Del(Seq<char>),
    Val(Json),
    Fold(Stat, Box<Command>),
    Arith(Op, Box<Command>, Box<Command>),
}

impl View for Cmd {
    type V = Command;

    open spec fn view(&self) -> Command
        decreases self,
    {
        match self {
            Cmd::Get(k) => Command::Get(k@),
            Cmd::Put(k, v) => Command::Put(k@, v@),
            Cmd::Del(k) => Command::Del(k@),
            Cmd::Val(v) => Command::Val(v@),
            Cmd::Sum(c) => Command::Fold(Stat::Sum, Box::new((**c).view())),
            Cmd::Max(c) => Command::Fold(Stat::Max, Box::new((**c).view())),
            Cmd::Min(c) => Command::Fold(Stat::Min, Box::new((**c).view())),
            Cmd::Avg(c) => Command::Fold(Stat::Avg, Box::new((**c).view())),
            Cmd::Dev(c) => Command::Fold(Stat::Dev, Box::new((**c).view())),
            Cmd::Var(c) => Command::Fold(Stat::Var, Box::new((**c).view())),
            Cmd::First(c) => Command::Fold(Stat::First, Box::new((**c).view())),
            Cmd::Last(c) => Command::Fold(Stat::Last, Box::new((**c).view())),
            Cmd::Add(
                l, r,
            ) => Command::Arith(Op::Add, Box::new((**l).view()), Box::new((**r).view())),
            Cmd::Sub(
                l, r,
            ) => Command::Arith(Op::Sub, Box::new((**l).view()), Box::new((**r).view())),
            Cmd::Mul(
                l, r,
            ) => Command::Arith(Op::Mul, Box::new((**l).view()), Box::new((**r).view())),
            Cmd::Div(
                l, r,
            ) => Command::Arith(Op::Div, Box::new((**l).view()), Box::new((**r).view())),
        }
    }
}

/// The aggregate that a request names by `key`.
pub open spec fn stat_named(key: Seq<char>) -> Option<Stat> {
    if key == "min"@ {
        Some(Stat::Min)
    } else if key == "max"@ {
        Some(Stat::Max)
    } else if key == "sum"@ {
        Some(Stat::Sum)
    } else if key == "avg"@ {
        Some(Stat::Avg)
    } else if key == "var"@ {
        Some(Stat::Var)
    } else if key == "dev"@ {
        Some(Stat::Dev)
    } else if key == "first"@ {
        Some(Stat::First)
    } else if key == "last"@ {
        Some(Stat::Last)
    } else {
        None
    }
}

/// The operator that a request names by `key`.
pub open spec fn op_named(key: Seq<char>) -> Option<Op> {
    if key == "+"@ {
        Some(Op::Add)
    } else if key == "-"@ {
        Some(Op::Sub)
    } else if key == "*"@ {
        Some(Op::Mul)
    } else if key == "/"@ {
        Some(Op::Div)
    } else {
        None
    }
}

/// The request `{"get": arg}`: `arg` is the key.
pub open spec fn get_command(arg: Json) -> Result<Command, Error> {
    match arg {
        Json::String(k) => Ok(Command::Get(k)),
        _ => Err(Error::BadRequest),
    }
}

/// The request `{"del": arg}`: `arg` is the key.
pub open spec fn del_command(arg: Json) -> Result<Command, Error> {
    match arg {
        Json::String(k) => Ok(Command::Del(k)),
        _ => Err(Error::BadRequest),
    }
}

/// The request `{"set": arg}`: `arg` is an array of a key and a value.
pub open spec fn set_command(arg: Json) -> Result<Command, Error> {
    match arg {
        Json::Array(a) => if a.len() == 2 && a[0] is String {
            Ok(Command::Put(a[0]->String_0, a[1]))
        } else {
            Err(Error::BadRequest)
        },
        _ => Err(Error::BadRequest),
    }
}

/// The request that a JSON value stands for: an object is an operation, anything else is a
/// literal. A string is a literal too: a key is read by `{"get": key}` alone.
pub open spec fn command_of(j: Json) -> Result<Command, Error>
    decreases j, 1int,
{
    match j {
        Json::Object(m) => object_command(m),
        _ => Ok(Command::Val(j)),
    }
}

/// The operation that an object stands for: its one member names the operation and holds the
/// operands.
pub open spec fn object_command(m: Fields) -> Result<Command, Error>
    decreases m, 2int,
{
    if m.len() != 1 {
        Err(Error::BadRequest)
    } else {
        let key = m[0].0;
        let arg = m[0].1;
        if key == "get"@ {
            get_command(arg)
        } else if key == "del"@ {
            del_command(arg)
        } else if key == "set"@ {
            set_command(arg)
        } else if stat_named(key) is Some {
            stat_command(stat_named(key)->Some_0, arg)
        } else if op_named(key) is Some {
            op_command(op_named(key)->Some_0, arg)
        } else {
            Err(Error::BadRequest)
        }
    }
}

/// An aggregate of `arg`: a string names the key to get, an object is an operation, anything
/// else is a literal.
pub open spec fn stat_command(stat: Stat, arg: Json) -> Result<Command, Error>
    decreases arg, 0int,
{
    match arg {
        Json::String(k) => Ok(Command::Fold(stat, Box::new(Command::Get(k)))),
        Json::Object(m) => match object_command(m) {
            Ok(c) => Ok(Command::Fold(stat, Box::new(c))),
            Err(e) => Err(e),
        },
        _ => Ok(Command::Fold(stat, Box::new(Command::Val(arg)))),
    }
}

/// An operator on `arg`: an array of two operands, each a request of its own.
pub open spec fn op_command(op: Op, arg: Json) -> Result<Command, Error>
    decreases arg, 0int,
{
    match arg {
        Json::Array(a) => if a.len() == 2 {
            match (command_of(a[0]), command_of(a[1])) {
                (Ok(l), Ok(r)) => Ok(Command::Arith(op, Box::new(l), Box::new(r))),
                _ => Err(Error::BadRequest),
            }
        } else {
            Err(Error::BadRequest)
        },
        _ => Err(Error::BadRequest),
    }
}

/// The request that a text stands for.
pub open spec fn request_of(text: Seq<char>) -> Result<Command, Error> {
    match parsed(text) {
        Some(j) => command_of(j),
        None => Err(Error::BadJson),
    }
}

/// Whether a parser's result is the request, or the error, that the model gives.
pub open spec fn renders(r: Res<Cmd>, model: Result<Command, Error>) -> bool {
    match r {
        Ok(c) => model == Ok::<Command, Error>(c@),
        Err(e) => model == Err::<Command, Error>(e),
    }
}

/// Parses the text of a request.
pub fn parse_json_str(s: &str) -> (r: Res<Cmd>)
    ensures
        renders(r, request_of(s@)),
{
    match JsonVal::parse(s) {
        Ok(val) => parse_json_val(val),
        Err(_) => Err(Error::BadJson),
    }
}

/// Parses a request that has been read as JSON: an object is an operation, anything else
/// stands for itself, a string too.
pub fn parse_json_val(val: JsonVal) -> (r: Res<Cmd>)
    ensures
        renders(r, command_of(val@)),
    decreases val, 1int,
{
    match val {
        JsonVal::Object(obj) => parse_obj(obj),
        val => Ok(Cmd::Val(val)),
    }
}

/// Parses an operation: the one member of the object names it and holds its operands.
pub fn parse_obj(obj: Row) -> (r: Res<Cmd>)
    ensures
        renders(r, object_command(obj@)),
    decreases obj, 2int,
{
    if obj.len() != 1 {
        return Err(Error::BadRequest);
    }
    let ghost m = obj@;
    let ghost whole = obj;
    let mut entries = obj.into_entries();
    let (key, arg) = entries.pop().unwrap();
    assert(key@ == m[0].0 && arg@ == m[0].1);
    assert(decreases_to!(whole => whole.entries@[0].1));
    if same_text(key.as_str(), "get") {
        parse_get(arg)
    } else if same_text(key.as_str(), "del") {
        parse_del(arg)
    } else if same_text(key.as_str(), "set") {
        parse_set(arg)
    } else if same_text(key.as_str(), "min") {
        parse_stat(Stat::Min, arg)
    } else if same_text(key.as_str(), "max") {
        parse_stat(Stat::Max, arg)
    } else if same_text(key.as_str(), "sum") {
        parse_stat(Stat::Sum, arg)
    } else if same_text(key.as_str(), "avg") {
        parse_stat(Stat::Avg, arg)
    } else if same_text(key.as_str(), "var") {
        parse_stat(Stat::Var, arg)
    } else if same_text(key.as_str(), "dev") {
        parse_stat(Stat::Dev, arg)
    } else if same_text(key.as_str(), "first") {
        parse_stat(Stat::First, arg)
    } else if same_text(key.as_str(), "last") {
        parse_stat(Stat::Last, arg)
    } else if same_text(key.as_str(), "+") {
        parse_arith(Op::Add, arg)
    } else if same_text(key.as_str(), "-") {
        parse_arith(Op::Sub, arg)
    } else if same_text(key.as_str(), "*") {
        parse_arith(Op::Mul, arg)
    } else if same_text(key.as_str(), "/") {
        parse_arith(Op::Div, arg)
    } else {
        Err(Error::BadRequest)
    }
}

/// Parses the operand of `get`: the key.
pub fn parse_get(val: JsonVal) -> (r: Res<Cmd>)
    ensures
        renders(r, get_command(val@)),
{
    match val {
        JsonVal::String(key) => Ok(Cmd::Get(key)),
        _ => Err(Error::BadRequest),
    }
}

/// Parses the operand of `del`: the key.
pub fn parse_del(val: JsonVal) -> (r: Res<Cmd>)
    ensures
        renders(r, del_command(val@)),
{
    match val {
        JsonVal::String(key) => Ok(Cmd::Del(key)),
        _ => Err(Error::BadRequest),
    }
}

/// Parses the operand of `set`: an array of the key and the value.
pub fn parse_set(val: JsonVal) -> (r: Res<Cmd>)
    ensures
        renders(r, set_command(val@)),
{
    match val {
        JsonVal::Array(arr) => {
            let mut arr = arr;
            if arr.len() != 2 {
                return Err(Error::BadRequest);
            }
            let ghost a = views(arr@);
            proof {
                lemma_array_view(arr);
            }
            let val = arr.pop().unwrap();
            let key = arr.pop().unwrap();
            assert(key@ == a[0] && val@ == a[1]);
            match key {
                JsonVal::String(key) => Ok(Cmd::Put(key, val)),
                _ => Err(Error::BadRequest),
            }
        },
        _ => Err(Error::BadRequest),
    }
}

/// The request for an aggregate of what `arg` gives.
pub fn fold_cmd(stat: Stat, arg: Cmd) -> (r: Cmd)
    ensures
        r@ == Command::Fold(stat, Box::new(arg@)),
{
    match stat {
        Stat::Sum => Cmd::Sum(Box::new(arg)),
        Stat::Min => Cmd::Min(Box::new(arg)),
        Stat::Max => Cmd::Max(Box::new(arg)),
        Stat::Avg => Cmd::Avg(Box::new(arg)),
        Stat::Var => Cmd::Var(Box::new(arg)),
        Stat::Dev => Cmd::Dev(Box::new(arg)),
        Stat::First => Cmd::First(Box::new(arg)),
        Stat::Last => Cmd::Last(Box::new(arg)),
    }
}

/// The request for an operator on what `lhs` and `rhs` give.
pub fn arith_cmd(op: Op, lhs: Cmd, rhs: Cmd) -> (r: Cmd)
    ensures
        r@ == Command::Arith(op, Box::new(lhs@), Box::new(rhs@)),
{
    match op {
        Op::Add => Cmd::Add(Box::new(lhs), Box::new(rhs)),
        Op::Sub => Cmd::Sub(Box::new(lhs), Box::new(rhs)),
        Op::Mul => Cmd::Mul(Box::new(lhs), Box::new(rhs)),
        Op::Div => Cmd::Div(Box::new(lhs), Box::new(rhs)),
    }
}

/// Parses the operand of an aggregate: a string names the key to get, an object is an
/// operation, anything else stands for itself.
pub fn parse_stat(stat: Stat, val: JsonVal) -> (r: Res<Cmd>)
    ensures
        renders(r, stat_command(stat, val@)),
    decreases val, 0int,
{
    match val {
        JsonVal::String(key) => Ok(fold_cmd(stat, Cmd::Get(key))),
        JsonVal::Object(obj) => match parse_obj(obj) {
            Ok(c) => Ok(fold_cmd(stat, c)),
            Err(e) => Err(e),
        },
        val => Ok(fold_cmd(stat, Cmd::Val(val))),
    }
}

/// Parses the operands of an operator: an array of two requests.
pub fn parse_arith(op: Op, val: JsonVal) -> (r: Res<Cmd>)
    ensures
        renders(r, op_command(op, val@)),
    decreases val, 0int,
{
    match val {
        JsonVal::Array(arr) => {
            let mut arr = arr;
            if arr.len() != 2 {
                return Err(Error::BadRequest);
            }
            let ghost whole = arr;
            let ghost a = views(arr@);
            proof {
                lemma_array_view(arr);
            }
            let second = arr.pop().unwrap();
            let first = arr.pop().unwrap();
            assert(first@ == a[0] && second@ == a[1]);
            assert(decreases_to!(whole => whole@[0]));
            assert(decreases_to!(whole => whole@[1]));
            let rhs = match parse_json_val(second) {
                Ok(c) => c,
                Err(_) => {
                    return Err(Error::BadRequest);
                },
            };
            let lhs = match parse_json_val(first) {
                Ok(c) => c,
                Err(_) => {
                    return Err(Error::BadRequest);
                },
            };
            Ok(arith_cmd(op, lhs, rhs))
        },
        _ => Err(Error::BadRequest),
    }
}

} // verus!
