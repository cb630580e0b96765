//! The evaluation of requests against the stored values.

use vstd::prelude::*;
use crate::arith::{arith, json_arith, sure_arith, yields};
use crate::db::{journal_step, Database, DatabaseModel};
use crate::disk::{
    asks, extends, follows, heard, lemma_follows_part, ready, Action, Disk, Driver, Step,
};
use crate::error::{Error, Res};
use crate::fpu::{computes, total, Calc, Unit};
use crate::json::{request_of, Cmd, Command, Op, Stat};
use crate::stats::{json_stat, stat_of, sure_stat};
use crate::value::{bind, lookup, unbind, Fields, Json, JsonVal};

verus! {

/// The value that a key had before a write: `Null` where it had none.
pub open spec fn previous(cache: Fields, key: Seq<char>) -> Json {
    match lookup(cache, key) {
        Some(v) => v,
        None => Json::Null,
    }
}

/// What a request gives, the stored values after it, and the steps that it asks of the
/// driver, in their order.
///
/// A `get` gives the value under the key and asks for nothing. A `set` and a `del` ask for
/// the one step that hands their entry to the journal; where the journal takes it, the store
/// changes and the request gives the value that the key had; where it does not, the store
/// stays as it was and the request fails. An aggregate and an operator first run their
/// operands, the left one before the right one, and the first failure ends the request: an
/// operand behind it is not run and asks for nothing; what the operands wrote by then stays
/// written.
pub open spec fn run(cmd: Command, m: DatabaseModel, unit: Unit, disk: Disk) -> (
    Result<Json, Error>,
    Fields,
    Seq<Step>,
)
    decreases cmd, 0int,
{
    match cmd {
        Command::Get(k) => (
            match lookup(m.cache, k) {
                Some(v) => Ok(v),
                None => Err(Error::BadKey),
            },
            m.cache,
            Seq::empty(),
        ),
        Command::Put(k, v) => {
            let step = journal_step(m, (k, Some(v)));
            if disk(step) is Some {
                (Ok(previous(m.cache, k)), bind(m.cache, k, v), seq![step])
            } else {
                (Err(Error::BadWrite), m.cache, seq![step])
            }
        },
        Command::Del(k) => {
            let step = journal_step(m, (k, None));
            if disk(step) is Some {
                (Ok(previous(m.cache, k)), unbind(m.cache, k), seq![step])
            } else {
                (Err(Error::BadIo), m.cache, seq![step])
            }
        },
        Command::Val(v) => (Ok(v), m.cache, Seq::empty()),
        Command::Fold(stat, c) => {
            let (r, cache, steps) = run(*c, m, unit, disk);
            (
                match r {
                    Ok(v) => stat_of(stat, v, unit),
                    Err(e) => Err(e),
                },
                cache,
                steps,
            )
        },
        Command::Arith(op, l, r) => {
            let (x, c1, s1) = run(*l, m, unit, disk);
            let (y, c2, s2) = finish(op, x, *r, DatabaseModel { cache: c1, ..m }, unit, disk);
            (y, c2, s1 + s2)
        },
    }
}

/// What an operator gives of what its left operand gave and its right operand, the stored
/// values after it, and the steps that the right operand asks for: a left operand that failed
/// ends the request, and the right one is not run.
pub open spec fn finish(
    op: Op,
    x: Result<Json, Error>,
    rhs: Command,
    m: DatabaseModel,
    unit: Unit,
    disk: Disk,
) -> (Result<Json, Error>, Fields, Seq<Step>)
    decreases rhs, 1int,
{
    match x {
        Ok(a) => {
            let (y, cache, steps) = run(rhs, m, unit, disk);
            match y {
                Ok(b) => (arith(op, a, b, unit), cache, steps),
                Err(e) => (Err(e), cache, steps),
            }
        },
        Err(e) => (Err(e), m.cache, Seq::empty()),
    }
}

/// Whether a request holds no `set` and no `del`.
pub open spec fn quiet(cmd: Command) -> bool
    decreases cmd,
{
    match cmd {
        Command::Get(_) => true,
        Command::Val(_) => true,
        Command::Put(_, _) => false,
        Command::Del(_) => false,
        Command::Fold(_, c) => quiet(*c),
        Command::Arith(_, l, r) => quiet(*l) && quiet(*r),
    }
}

/// What a request gives whatever the unit and the driver are, where that is settled without
/// them: the value of a `get` and of a literal, and what aggregates and operators make of such
/// values without a computation, among them every failure of an operand and every type
/// error. `None` for a `set` and a `del`, and where the unit has its say. A request of which
/// this gives the result writes nothing and asks the driver for nothing.
pub open spec fn sure(cmd: Command, cache: Fields) -> Option<Result<Json, Error>>
    decreases cmd,
{
    match cmd {
        Command::Get(k) => Some(
            match lookup(cache, k) {
                Some(v) => Ok(v),
                None => Err(Error::BadKey),
            },
        ),
        Command::Val(v) => Some(Ok(v)),
        Command::Put(_, _) => None,
        Command::Del(_) => None,
        Command::Fold(stat, c) => match sure(*c, cache) {
            Some(Ok(v)) => sure_stat(stat, v),
            Some(Err(e)) => Some(Err(e)),
            None => None,
        },
        Command::Arith(op, l, r) => match sure(*l, cache) {
            Some(Ok(a)) => match sure(*r, cache) {
                Some(Ok(b)) => sure_arith(op, a, b),
                Some(Err(e)) => Some(Err(e)),
                None => None,
            },
            Some(Err(e)) => Some(Err(e)),
            None => None,
        },
    }
}

/// What an operator gives whatever the unit and the driver are, of what its left operand
/// gave and its right operand: a left operand that failed ends the request.
pub open spec fn sure_finish(op: Op, x: Result<Json, Error>, rhs: Command, cache: Fields) -> Option<
    Result<Json, Error>,
> {
    match x {
        Ok(a) => match sure(rhs, cache) {
            Some(Ok(b)) => sure_arith(op, a, b),
            Some(Err(e)) => Some(Err(e)),
            None => None,
        },
        Err(e) => Some(Err(e)),
    }
}

/// Whether a request has given `v`, written nothing and asked the driver for nothing.
pub open spec fn settled<D: Fn(Action) -> Option<Vec<String>>>(
    v: Result<Json, Error>,
    r: Res<JsonVal>,
    m: DatabaseModel,
    cache: Fields,
    old: Driver<D>,
    now: Driver<D>,
) -> bool {
    yields(r, v) && cache == m.cache && asks(old, now, Seq::empty())
}

/// What holds of a `get`, a literal, a `set` and a `del`, whatever the driver is.
///
/// A `get` and a literal give their value, leave the store as it was and ask for nothing. A
/// `set` and a `del` ask for the one step that writes their entry and succeed where the driver
/// took it; then the key holds the new value, or none, and the request gives the value that
/// the key had; else the store is as it was.
pub open spec fn direct<D: Fn(Action) -> Option<Vec<String>>>(
    cmd: Command,
    m: DatabaseModel,
    cache: Fields,
    r: Res<JsonVal>,
    old: Driver<D>,
    now: Driver<D>,
) -> bool {
    match cmd {
        Command::Get(k) => yields(
            r,
            match lookup(m.cache, k) {
                Some(v) => Ok(v),
                None => Err(Error::BadKey),
            },
        ) && cache == m.cache && asks(old, now, Seq::empty()),
        Command::Val(v) => yields(r, Ok(v)) && cache == m.cache && asks(old, now, Seq::empty()),
        Command::Put(k, v) => {
            &&& heard(old, now, journal_step(m, (k, Some(v))))
            &&& r is Ok <==> now.said().last() is Some
            &&& match r {
                Ok(prev) => prev@ == previous(m.cache, k) && cache == bind(m.cache, k, v) && lookup(
                    cache,
                    k,
                ) == Some(v),
                Err(e) => e == Error::BadWrite && cache == m.cache,
            }
        },
        Command::Del(k) => {
            &&& heard(old, now, journal_step(m, (k, None)))
            &&& r is Ok <==> now.said().last() is Some
            &&& match r {
                Ok(prev) => prev@ == previous(m.cache, k) && cache == unbind(m.cache, k) && lookup(
                    cache,
                    k,
                ) is None,
                Err(e) => e == Error::BadIo && cache == m.cache,
            }
        },
        _ => true,
    }
}

/// What the text of a request gives, the stored values after it, and the steps that it asks
/// of the driver: a text that is no request fails, changes nothing and asks for nothing.
pub open spec fn answer_to(text: Seq<char>, m: DatabaseModel, unit: Unit, disk: Disk) -> (
    Result<Json, Error>,
    Fields,
    Seq<Step>,
) {
    match request_of(text) {
        Ok(cmd) => run(cmd, m, unit, disk),
        Err(e) => (Err(e), m.cache, Seq::empty()),
    }
}

/// Runs a request on a database.
pub fn eval_json_cmd<
    F: Fn(Calc) -> Option<serde_json::Number>,
    D: Fn(Action) -> Option<Vec<String>>,
>(cmd: Cmd, db: &mut Database, fpu: &F, io: &mut Driver<D>) -> (r: Res<JsonVal>)
    requires
        old(db).wf(),
        total(fpu),
        ready(*old(io)),
    ensures
        final(db).wf(),
        final(db)@ == (DatabaseModel { cache: final(db)@.cache, ..old(db)@ }),
        extends(*old(io), *final(io)),
        direct(cmd@, old(db)@, final(db)@.cache, r, *old(io), *final(io)),
        quiet(cmd@) ==> final(db)@.cache == old(db)@.cache && asks(
            *old(io),
            *final(io),
            Seq::empty(),
        ),
        sure(cmd@, old(db)@.cache) matches Some(v) ==> settled(
            v,
            r,
            old(db)@,
            final(db)@.cache,
            *old(io),
            *final(io),
        ),
        forall|unit: Unit, disk: Disk|
            #![trigger computes(fpu, unit), follows(disk, *old(io), *final(io))]
            computes(fpu, unit) && follows(disk, *old(io), *final(io)) ==> yields(
                r,
                run(cmd@, old(db)@, unit, disk).0,
            ) && final(db)@.cache == run(cmd@, old(db)@, unit, disk).1 && asks(
                *old(io),
                *final(io),
                run(cmd@, old(db)@, unit, disk).2,
            ),
    decreases cmd, 0int,
{
    let ghost whole = cmd@;
    let (op, lhs, rhs) = match cmd {
        Cmd::Get(key) => {
            return match db.get(key.as_str()) {
                Some(val) => Ok(val.clone()),
                None => Err(Error::BadKey),
            };
        },
        Cmd::Del(key) => {
            return match db.del(key.as_str(), io) {
                Ok(Some(val)) => Ok(val),
                Ok(None) => Ok(JsonVal::Null),
                Err(_) => Err(Error::BadIo),
            };
        },
        Cmd::Put(key, val) => {
            return db_write(db, key, val, io);
        },
        Cmd::Val(val) => {
            return Ok(val);
        },
        Cmd::Sum(arg) => {
            return eval_stat(Stat::Sum, *arg, db, fpu, io);
        },
        Cmd::Min(arg) => {
            return eval_stat(Stat::Min, *arg, db, fpu, io);
        },
        Cmd::Max(arg) => {
            return eval_stat(Stat::Max, *arg, db, fpu, io);
        },
        Cmd::Avg(arg) => {
            return eval_stat(Stat::Avg, *arg, db, fpu, io);
        },
        Cmd::Dev(arg) => {
            return eval_stat(Stat::Dev, *arg, db, fpu, io);
        },
        Cmd::Var(arg) => {
            return eval_stat(Stat::Var, *arg, db, fpu, io);
        },
        Cmd::First(arg) => {
            return eval_stat(Stat::First, *arg, db, fpu, io);
        },
        Cmd::Last(arg) => {
            return eval_stat(Stat::Last, *arg, db, fpu, io);
        },
        Cmd::Add(lhs, rhs) => (Op::Add, lhs, rhs),
        Cmd::Sub(lhs, rhs) => (Op::Sub, lhs, rhs),
        Cmd::Mul(lhs, rhs) => (Op::Mul, lhs, rhs),
        Cmd::Div(lhs, rhs) => (Op::Div, lhs, rhs),
    };
    assert(whole == Command::Arith(op, Box::new((*lhs)@), Box::new((*rhs)@)));
    let ghost left = (*lhs)@;
    let ghost right = (*rhs)@;
    let x = eval_json_cmd(*lhs, db, fpu, io);
    let ghost mid = db@;
    let ghost mid_io = *io;
    let r = eval_arith(op, x, *rhs, db, fpu, io);
    proof {
        if sure(whole, old(db)@.cache) is Some {
            let first = sure(left, old(db)@.cache)->Some_0;
            assert(settled(first, x, old(db)@, mid.cache, *old(io), mid_io));
            assert(sure_finish(op, first, right, mid.cache) == sure(whole, old(db)@.cache));
            let v = sure(whole, old(db)@.cache)->Some_0;
            assert(settled(v, r, mid, db@.cache, mid_io, *io));
            assert(io.asked() =~= old(io).asked() + Seq::<Step>::empty());
        }
        assert forall|unit: Unit, disk: Disk|
            #![trigger computes(fpu, unit), follows(disk, *old(io), *io)]
            computes(fpu, unit) && follows(disk, *old(io), *io) implies yields(
            r,
            run(whole, old(db)@, unit, disk).0,
        ) && db@.cache == run(whole, old(db)@, unit, disk).1 && asks(
            *old(io),
            *io,
            run(whole, old(db)@, unit, disk).2,
        ) by {
            lemma_follows_part(disk, *old(io), *old(io), mid_io, *io);
            lemma_follows_part(disk, *old(io), mid_io, *io, *io);
            let first = run(left, old(db)@, unit, disk);
            assert(yields(x, first.0));
            assert(mid == (DatabaseModel { cache: first.1, ..old(db)@ }));
            let rest = finish(op, first.0, right, mid, unit, disk);
            assert(yields(r, rest.0));
        }
    }
    r
}

/// Stores a value under a key and gives the value that the key had, `Null` where it had none.
/// The driver is asked for the one step that writes the entry.
pub fn db_write<D: Fn(Action) -> Option<Vec<String>>>(
    db: &mut Database,
    key: String,
    val: JsonVal,
    io: &mut Driver<D>,
) -> (r: Res<JsonVal>)
    requires
        old(db).wf(),
        ready(*old(io)),
    ensures
        final(db).wf(),
        final(db)@ == (DatabaseModel { cache: final(db)@.cache, ..old(db)@ }),
        direct(Command::Put(key@, val@), old(db)@, final(db)@.cache, r, *old(io), *final(io)),
{
    match db.set(key, val, io) {
        Ok(Some(val)) => Ok(val),
        Ok(None) => Ok(JsonVal::Null),
        Err(_) => Err(Error::BadWrite),
    }
}

/// Runs the operand of an aggregate and aggregates what it gives.
pub fn eval_stat<
    F: Fn(Calc) -> Option<serde_json::Number>,
    D: Fn(Action) -> Option<Vec<String>>,
>(stat: Stat, arg: Cmd, db: &mut Database, fpu: &F, io: &mut Driver<D>) -> (r: Res<JsonVal>)
    requires
        old(db).wf(),
        total(fpu),
        ready(*old(io)),
    ensures
        final(db).wf(),
        final(db)@ == (DatabaseModel { cache: final(db)@.cache, ..old(db)@ }),
        extends(*old(io), *final(io)),
        quiet(arg@) ==> final(db)@.cache == old(db)@.cache && asks(
            *old(io),
            *final(io),
            Seq::empty(),
        ),
        sure(Command::Fold(stat, Box::new(arg@)), old(db)@.cache) matches Some(v) ==> settled(
            v,
            r,
            old(db)@,
            final(db)@.cache,
            *old(io),
            *final(io),
        ),
        forall|unit: Unit, disk: Disk|
            #![trigger computes(fpu, unit), follows(disk, *old(io), *final(io))]
            computes(fpu, unit) && follows(disk, *old(io), *final(io)) ==> yields(
                r,
                run(Command::Fold(stat, Box::new(arg@)), old(db)@, unit, disk).0,
            ) && final(db)@.cache == run(
                Command::Fold(stat, Box::new(arg@)),
                old(db)@,
                unit,
                disk,
            ).1 && asks(
                *old(io),
                *final(io),
                run(Command::Fold(stat, Box::new(arg@)), old(db)@, unit, disk).2,
            ),
    decreases arg, 1int,
{
    match eval_json_cmd(arg, db, fpu, io) {
        Ok(val) => json_stat(stat, &val, fpu),
        Err(err) => Err(err),
    }
}

/// Takes what the left operand of an operator gave; where it gave a value, runs the right
/// operand and applies the operator; where it failed, hands the failure on and leaves the
/// right operand alone.
pub fn eval_arith<
    F: Fn(Calc) -> Option<serde_json::Number>,
    D: Fn(Action) -> Option<Vec<String>>,
>(op: Op, x: Res<JsonVal>, rhs: Cmd, db: &mut Database, fpu: &F, io: &mut Driver<D>) -> (r: Res<
    JsonVal,
>)
    requires
        old(db).wf(),
        total(fpu),
        ready(*old(io)),
    ensures
        final(db).wf(),
        final(db)@ == (DatabaseModel { cache: final(db)@.cache, ..old(db)@ }),
        extends(*old(io), *final(io)),
        x matches Err(e) ==> r == Err::<JsonVal, Error>(e) && final(db)@.cache == old(db)@.cache
            && asks(*old(io), *final(io), Seq::empty()),
        quiet(rhs@) ==> final(db)@.cache == old(db)@.cache && asks(
            *old(io),
            *final(io),
            Seq::empty(),
        ),
        forall|model: Result<Json, Error>|
            yields(x, model) ==> (#[trigger] sure_finish(
                op,
                model,
                rhs@,
                old(db)@.cache,
            ) matches Some(v) ==> settled(
                v,
                r,
                old(db)@,
                final(db)@.cache,
                *old(io),
                *final(io),
            )),
        forall|unit: Unit, disk: Disk|
            #![trigger computes(fpu, unit), follows(disk, *old(io), *final(io))]
            computes(fpu, unit) && follows(disk, *old(io), *final(io)) ==> forall|
                model: Result<Json, Error>,
            |
                yields(x, model) ==> yields(
                    r,
                    #[trigger] finish(op, model, rhs@, old(db)@, unit, disk).0,
                ) && final(db)@.cache == finish(op, model, rhs@, old(db)@, unit, disk).1 && asks(
                    *old(io),
                    *final(io),
                    finish(op, model, rhs@, old(db)@, unit, disk).2,
                ),
    decreases rhs, 1int,
{
    let x = x?;
    let y = eval_json_cmd(rhs, db, fpu, io)?;
    json_arith(op, &x, &y, fpu)
}

} // verus!
