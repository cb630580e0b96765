//! Aggregates of values: sums, means, variances, extremes, and the ends of an array.

use vstd::prelude::*;
use crate::arith::{number_or_null, number_value, yields};
use crate::bridge::{count, counted};
use crate::error::{Error, Res};
use crate::fpu::{ask, computes, total, Calc, Unit};
use crate::json::Stat;
use crate::value::{lemma_array_view, views, Json, JsonVal};

verus! {

/// A result of the unit that an aggregate goes on with: no finite number is a bad number.
pub open spec fn finite(x: Option<serde_json::Number>) -> Result<serde_json::Number, Error> {
    match x {
        Some(n) => Ok(n),
        None => Err(Error::BadNumber),
    }
}

/// Zero as a float: what every sum starts from.
pub open spec fn zero(unit: Unit) -> Result<serde_json::Number, Error> {
    finite(unit(Calc::Float(counted(0))))
}

/// The sum of the first `n` elements, added one by one from zero. An element that is no number
/// is a bad number, and so is a sum that is not finite.
pub open spec fn total_upto(a: Seq<Json>, unit: Unit, n: nat) -> Result<serde_json::Number, Error>
    decreases n,
{
    if n == 0 || n > a.len() {
        zero(unit)
    } else {
        match total_upto(a, unit, (n - 1) as nat) {
            Ok(t) => match a[n - 1] {
                Json::Number(x) => finite(unit(Calc::Add(t, x))),
                _ => Err(Error::BadNumber),
            },
            Err(e) => Err(e),
        }
    }
}

/// The square of the distance of `x` from `mean`.
pub open spec fn square(x: serde_json::Number, mean: serde_json::Number, unit: Unit) -> Result<
    serde_json::Number,
    Error,
> {
    match finite(unit(Calc::Sub(x, mean))) {
        Ok(d) => finite(unit(Calc::Mul(d, d))),
        Err(e) => Err(e),
    }
}

/// The sum of the squares of the distances of the first `n` elements from `mean`.
pub open spec fn squares_upto(a: Seq<Json>, mean: serde_json::Number, unit: Unit, n: nat) -> Result<
    serde_json::Number,
    Error,
>
    decreases n,
{
    if n == 0 || n > a.len() {
        zero(unit)
    } else {
        match squares_upto(a, mean, unit, (n - 1) as nat) {
            Ok(t) => match a[n - 1] {
                Json::Number(x) => match square(x, mean, unit) {
                    Ok(q) => finite(unit(Calc::Add(t, q))),
                    Err(e) => Err(e),
                },
                _ => Err(Error::BadNumber),
            },
            Err(e) => Err(e),
        }
    }
}

/// The sum of the squares of the distances of all elements from their sum divided by `by`,
/// divided by their count.
pub open spec fn spread(a: Seq<Json>, by: usize, unit: Unit) -> Result<serde_json::Number, Error> {
    match total_upto(a, unit, a.len()) {
        Ok(t) => match finite(unit(Calc::Div(t, counted(by)))) {
            Ok(mean) => match squares_upto(a, mean, unit, a.len()) {
                Ok(s) => finite(unit(Calc::Div(s, counted(a.len() as usize)))),
                Err(e) => Err(e),
            },
            Err(e) => Err(e),
        },
        Err(e) => Err(e),
    }
}

/// The greatest (or, with `greatest` false, the least) of the first `n` elements, as a float:
/// the unit is asked for one comparison after the other, from the first element on. An element
/// that is no number is a type error; `None` where there is no element or the unit gave no
/// number.
pub open spec fn extreme_upto(a: Seq<Json>, greatest: bool, unit: Unit, n: nat) -> Result<
    Option<serde_json::Number>,
    Error,
>
    decreases n,
{
    if n == 0 || n > a.len() {
        Ok(None)
    } else {
        match extreme_upto(a, greatest, unit, (n - 1) as nat) {
            Ok(m) => match a[n - 1] {
                Json::Number(x) => if n == 1 {
                    Ok(unit(Calc::Float(x)))
                } else {
                    match m {
                        Some(m) => Ok(
                            unit(
                                if greatest {
                                    Calc::Max(m, x)
                                } else {
                                    Calc::Min(m, x)
                                },
                            ),
                        ),
                        None => Ok(None),
                    }
                },
                _ => Err(Error::BadType),
            },
            Err(e) => Err(e),
        }
    }
}

/// The greatest or the least element of an array, as a float; `None` of an array without
/// elements.
pub open spec fn extreme(a: Seq<Json>, greatest: bool, unit: Unit) -> Result<Option<Json>, Error> {
    if a.len() == 0 {
        Ok(None)
    } else {
        match extreme_upto(a, greatest, unit, a.len()) {
            Ok(m) => Ok(Some(number_or_null(m))),
            Err(e) => Err(e),
        }
    }
}

/// Whether a result is the value, the absence of one, or the error, that the model gives.
pub open spec fn picks(r: Res<Option<JsonVal>>, model: Result<Option<Json>, Error>) -> bool {
    match r {
        Ok(Some(v)) => model == Ok::<Option<Json>, Error>(Some(v@)),
        Ok(None) => model == Ok::<Option<Json>, Error>(None),
        Err(e) => model == Err::<Option<Json>, Error>(e),
    }
}

/// A number as the value that an aggregate returns.
pub open spec fn as_value(x: Result<serde_json::Number, Error>) -> Result<Json, Error> {
    match x {
        Ok(n) => Ok(Json::Number(n)),
        Err(e) => Err(e),
    }
}

/// What an aggregate makes of the elements of an array.
pub open spec fn array_stat(stat: Stat, a: Seq<Json>, unit: Unit) -> Result<Json, Error> {
    match stat {
        Stat::Sum => as_value(total_upto(a, unit, a.len())),
        Stat::Avg => as_value(
            match total_upto(a, unit, a.len()) {
                Ok(t) => finite(unit(Calc::Div(t, counted(a.len() as usize)))),
                Err(e) => Err(e),
            },
        ),
        Stat::Var => if a.len() == 0 {
            Err(Error::BadNumber)
        } else {
            as_value(spread(a, (a.len() - 1) as usize, unit))
        },
        Stat::Dev => as_value(
            match spread(a, a.len() as usize, unit) {
                Ok(v) => finite(unit(Calc::Sqrt(v))),
                Err(e) => Err(e),
            },
        ),
        Stat::Max => match extreme_upto(a, true, unit, a.len()) {
            Ok(m) => Ok(number_or_null(m)),
            Err(e) => Err(e),
        },
        Stat::Min => match extreme_upto(a, false, unit, a.len()) {
            Ok(m) => Ok(number_or_null(m)),
            Err(e) => Err(e),
        },
        Stat::First => first_in(a),
        Stat::Last => last_in(a),
    }
}

/// The first element of an array; an array without elements has none.
pub open spec fn first_in(a: Seq<Json>) -> Result<Json, Error> {
    if a.len() == 0 {
        Err(Error::EmptyArray)
    } else {
        Ok(a[0])
    }
}

/// The last element of an array; an array without elements has none.
pub open spec fn last_in(a: Seq<Json>) -> Result<Json, Error> {
    if a.len() == 0 {
        Err(Error::EmptyArray)
    } else {
        Ok(a[a.len() - 1])
    }
}

/// The first element of an array, or the number itself.
pub open spec fn first_of(j: Json) -> Result<Json, Error> {
    match j {
        Json::Number(n) => Ok(Json::Number(n)),
        Json::Array(a) => first_in(a),
        _ => Err(Error::BadType),
    }
}

/// The last element of an array, or the number itself.
pub open spec fn last_of(j: Json) -> Result<Json, Error> {
    match j {
        Json::Number(n) => Ok(Json::Number(n)),
        Json::Array(a) => last_in(a),
        _ => Err(Error::BadType),
    }
}

/// Whether every element is a number.
pub open spec fn all_numbers(a: Seq<Json>) -> bool {
    forall|i: int| 0 <= i < a.len() ==> (#[trigger] a[i]) is Number
}

/// What an aggregate makes of a value whatever the unit is, where that is settled without a
/// computation: a number is its own aggregate; the ends of an array are its elements; an
/// array without elements has `Null` for its extremes and no variance; an element that is no
/// number spoils the sum, the mean, the variance and the deviation as a bad number and the
/// extremes as a type error; and nothing but a number and an array has an aggregate. `None`
/// where the elements are numbers and the unit has its say.
pub open spec fn sure_stat(stat: Stat, j: Json) -> Option<Result<Json, Error>> {
    match j {
        Json::Number(n) => Some(Ok(Json::Number(n))),
        Json::Array(a) => match stat {
            Stat::First => Some(first_in(a)),
            Stat::Last => Some(last_in(a)),
            Stat::Max | Stat::Min => if a.len() == 0 {
                Some(Ok(Json::Null))
            } else if !all_numbers(a) {
                Some(Err(Error::BadType))
            } else {
                None
            },
            Stat::Var => if a.len() == 0 || !all_numbers(a) {
                Some(Err(Error::BadNumber))
            } else {
                None
            },
            Stat::Sum | Stat::Avg | Stat::Dev => if !all_numbers(a) {
                Some(Err(Error::BadNumber))
            } else {
                None
            },
        },
        _ => Some(Err(Error::BadType)),
    }
}

/// What an aggregate makes of a value: a number is its own aggregate, an array is aggregated
/// over its elements, and nothing else has an aggregate.
pub open spec fn stat_of(stat: Stat, j: Json, unit: Unit) -> Result<Json, Error> {
    match j {
        Json::Number(n) => Ok(Json::Number(n)),
        Json::Array(a) => array_stat(stat, a, unit),
        _ => Err(Error::BadType),
    }
}

/// A failure among the first `n` elements is the failure of every longer run.
pub proof fn lemma_total_fails(a: Seq<Json>, unit: Unit, n: nat, m: nat)
    requires
        total_upto(a, unit, n) is Err,
        n <= m <= a.len(),
    ensures
        total_upto(a, unit, m) == total_upto(a, unit, n),
    decreases m - n,
{
    if n < m {
        lemma_total_fails(a, unit, n, (m - 1) as nat);
    }
}

/// A failure among the first `n` elements is the failure of every longer run.
pub proof fn lemma_squares_fail(a: Seq<Json>, mean: serde_json::Number, unit: Unit, n: nat, m: nat)
    requires
        squares_upto(a, mean, unit, n) is Err,
        n <= m <= a.len(),
    ensures
        squares_upto(a, mean, unit, m) == squares_upto(a, mean, unit, n),
    decreases m - n,
{
    if n < m {
        lemma_squares_fail(a, mean, unit, n, (m - 1) as nat);
    }
}

/// A failure among the first `n` elements is the failure of every longer run.
pub proof fn lemma_extreme_fails(a: Seq<Json>, greatest: bool, unit: Unit, n: nat, m: nat)
    requires
        extreme_upto(a, greatest, unit, n) is Err,
        n <= m <= a.len(),
    ensures
        extreme_upto(a, greatest, unit, m) == extreme_upto(a, greatest, unit, n),
    decreases m - n,
{
    if n < m {
        lemma_extreme_fails(a, greatest, unit, n, (m - 1) as nat);
    }
}

/// The number that a value is, if it is one.
pub fn json_f64(val: &JsonVal) -> (r: Option<&serde_json::Number>)
    ensures
        match r {
            Some(n) => val@ == Json::Number(*n),
            None => !(val@ is Number),
        },
{
    match val {
        JsonVal::Number(num) => Some(num),
        _ => None,
    }
}

/// Asks the unit for an operation whose result has to be a finite number.
fn ask_finite<F: Fn(Calc) -> Option<serde_json::Number>>(fpu: &F, c: Calc) -> (r: Res<
    serde_json::Number,
>)
    requires
        total(fpu),
    ensures
        forall|unit: Unit| #[trigger] computes(fpu, unit) ==> r == finite(unit(c)),
        r matches Err(e) ==> e == Error::BadNumber,
{
    match ask(fpu, c) {
        Some(n) => Ok(n),
        None => Err(Error::BadNumber),
    }
}

/// The sum of the elements of an array, as a number.
fn total_of<F: Fn(Calc) -> Option<serde_json::Number>>(s: &Vec<JsonVal>, fpu: &F) -> (r: Res<
    serde_json::Number,
>)
    requires
        total(fpu),
    ensures
        forall|unit: Unit|
            #[trigger] computes(fpu, unit) ==> r == total_upto(views(s@), unit, s@.len()),
        r matches Err(e) ==> e == Error::BadNumber,
        r is Ok ==> all_numbers(views(s@)),
{
    let mut sum = match ask_finite(fpu, Calc::Float(count(0))) {
        Ok(zero) => zero,
        Err(e) => {
            proof {
                assert forall|unit: Unit| #[trigger] computes(fpu, unit) implies total_upto(
                    views(s@),
                    unit,
                    s@.len(),
                ) == Err::<serde_json::Number, Error>(e) by {
                    lemma_total_fails(views(s@), unit, 0, s@.len());
                }
            }
            return Err(e);
        },
    };
    let mut i: usize = 0;
    while i < s.len()
        invariant
            total(fpu),
            i <= s.len(),
            forall|k: int| 0 <= k < i ==> (#[trigger] views(s@)[k]) is Number,
            forall|unit: Unit|
                #[trigger] computes(fpu, unit) ==> total_upto(views(s@), unit, i as nat) == Ok::<
                    serde_json::Number,
                Error,
            >(sum),
        decreases s.len() - i,
    {
        let next = match json_f64(&s[i]) {
            Some(x) => ask_finite(fpu, Calc::Add(sum.clone(), x.clone())),
            None => Err(Error::BadNumber),
        };
        match next {
            Ok(t) => {
                sum = t;
            },
            Err(e) => {
                proof {
                    assert forall|unit: Unit| #[trigger] computes(fpu, unit) implies total_upto(
                        views(s@),
                        unit,
                        s@.len(),
                    ) == Err::<serde_json::Number, Error>(e) by {
                        lemma_total_fails(views(s@), unit, (i + 1) as nat, s@.len());
                    }
                }
                return Err(e);
            },
        }
        i += 1;
    }
    Ok(sum)
}

/// The sum of the squares of the distances of the elements from `mean`.
fn squares_of<F: Fn(Calc) -> Option<serde_json::Number>>(
    s: &Vec<JsonVal>,
    mean: &serde_json::Number,
    fpu: &F,
) -> (r: Res<serde_json::Number>)
    requires
        total(fpu),
    ensures
        forall|unit: Unit|
            #[trigger] computes(fpu, unit) ==> r == squares_upto(views(s@), *mean, unit, s@.len()),
        r matches Err(e) ==> e == Error::BadNumber,
        r is Ok ==> all_numbers(views(s@)),
{
    let mut sum = match ask_finite(fpu, Calc::Float(count(0))) {
        Ok(zero) => zero,
        Err(e) => {
            proof {
                assert forall|unit: Unit| #[trigger] computes(fpu, unit) implies squares_upto(
                    views(s@),
                    *mean,
                    unit,
                    s@.len(),
                ) == Err::<serde_json::Number, Error>(e) by {
                    lemma_squares_fail(views(s@), *mean, unit, 0, s@.len());
                }
            }
            return Err(e);
        },
    };
    let mut i: usize = 0;
    while i < s.len()
        invariant
            total(fpu),
            i <= s.len(),
            forall|k: int| 0 <= k < i ==> (#[trigger] views(s@)[k]) is Number,
            forall|unit: Unit|
                #[trigger] computes(fpu, unit)
                    ==> squares_upto(views(s@), *mean, unit, i as nat) == Ok::<
                    serde_json::Number,
                Error,
            >(sum),
        decreases s.len() - i,
    {
        let next = match json_f64(&s[i]) {
            Some(x) => match ask_finite(fpu, Calc::Sub(x.clone(), mean.clone())) {
                Ok(d) => match ask_finite(fpu, Calc::Mul(d.clone(), d)) {
                    Ok(q) => ask_finite(fpu, Calc::Add(sum.clone(), q)),
                    Err(e) => Err(e),
                },
                Err(e) => Err(e),
            },
            None => Err(Error::BadNumber),
        };
        match next {
            Ok(t) => {
                sum = t;
            },
            Err(e) => {
                proof {
                    assert forall|unit: Unit| #[trigger] computes(fpu, unit) implies squares_upto(
                        views(s@),
                        *mean,
                        unit,
                        s@.len(),
                    ) == Err::<serde_json::Number, Error>(e) by {
                        lemma_squares_fail(
                            views(s@),
                            *mean,
                            unit,
                            (i + 1) as nat,
                            s@.len(),
                        );
                    }
                }
                return Err(e);
            },
        }
        i += 1;
    }
    Ok(sum)
}

/// The mean of the squares of the distances of the elements from their sum divided by `by`.
fn spread_of<F: Fn(Calc) -> Option<serde_json::Number>>(s: &Vec<JsonVal>, by: usize, fpu: &F) -> (r:
    Res<serde_json::Number>)
    requires
        total(fpu),
    ensures
        forall|unit: Unit| #[trigger] computes(fpu, unit) ==> r == spread(views(s@), by, unit),
        r matches Err(e) ==> e == Error::BadNumber,
        r is Ok ==> all_numbers(views(s@)),
{
    let sum = total_of(s, fpu)?;
    let mean = ask_finite(fpu, Calc::Div(sum, count(by)))?;
    let squares = squares_of(s, &mean, fpu)?;
    ask_finite(fpu, Calc::Div(squares, count(s.len())))
}

/// The sum of the elements of an array.
pub fn json_arr_sum<F: Fn(Calc) -> Option<serde_json::Number>>(s: &Vec<JsonVal>, fpu: &F) -> (r:
    Res<JsonVal>)
    requires
        total(fpu),
    ensures
        forall|unit: Unit|
            #[trigger] computes(fpu, unit) ==> yields(r, array_stat(Stat::Sum, views(s@), unit)),
        sure_stat(Stat::Sum, Json::Array(views(s@))) matches Some(v) ==> yields(r, v),
{
    Ok(JsonVal::Number(total_of(s, fpu)?))
}

/// The first element of an array.
pub fn json_arr_first(s: &Vec<JsonVal>) -> (r: Res<JsonVal>)
    ensures
        yields(r, first_in(views(s@))),
{
    if s.len() == 0 {
        Err(Error::EmptyArray)
    } else {
        Ok(s[0].clone())
    }
}

/// The last element of an array.
pub fn json_arr_last(s: &Vec<JsonVal>) -> (r: Res<JsonVal>)
    ensures
        yields(r, last_in(views(s@))),
{
    if s.len() == 0 {
        Err(Error::EmptyArray)
    } else {
        Ok(s[s.len() - 1].clone())
    }
}

/// The sum of the elements of an array, divided by their count.
pub fn json_arr_avg<F: Fn(Calc) -> Option<serde_json::Number>>(s: &Vec<JsonVal>, fpu: &F) -> (r:
    Res<JsonVal>)
    requires
        total(fpu),
    ensures
        forall|unit: Unit|
            #[trigger] computes(fpu, unit) ==> yields(r, array_stat(Stat::Avg, views(s@), unit)),
        sure_stat(Stat::Avg, Json::Array(views(s@))) matches Some(v) ==> yields(r, v),
{
    let sum = total_of(s, fpu)?;
    let avg = ask_finite(fpu, Calc::Div(sum, count(s.len())))?;
    Ok(JsonVal::Number(avg))
}

/// The variance of the elements of an array: the mean of the squares of their distances from
/// their sum divided by one less than their count.
pub fn json_arr_var<F: Fn(Calc) -> Option<serde_json::Number>>(s: &Vec<JsonVal>, fpu: &F) -> (r:
    Res<JsonVal>)
    requires
        total(fpu),
    ensures
        forall|unit: Unit|
            #[trigger] computes(fpu, unit) ==> yields(r, array_stat(Stat::Var, views(s@), unit)),
        sure_stat(Stat::Var, Json::Array(views(s@))) matches Some(v) ==> yields(r, v),
{
    if s.len() == 0 {
        return Err(Error::BadNumber);
    }
    let var = spread_of(s, s.len() - 1, fpu)?;
    Ok(JsonVal::Number(var))
}

/// The deviation of the elements of an array: the square root of the mean of the squares of
/// their distances from their mean.
pub fn json_arr_dev<F: Fn(Calc) -> Option<serde_json::Number>>(s: &Vec<JsonVal>, fpu: &F) -> (r:
    Res<JsonVal>)
    requires
        total(fpu),
    ensures
        forall|unit: Unit|
            #[trigger] computes(fpu, unit) ==> yields(r, array_stat(Stat::Dev, views(s@), unit)),
        sure_stat(Stat::Dev, Json::Array(views(s@))) matches Some(v) ==> yields(r, v),
{
    let var = spread_of(s, s.len(), fpu)?;
    let dev = ask_finite(fpu, Calc::Sqrt(var))?;
    Ok(JsonVal::Number(dev))
}

/// The greatest or the least element of an array, found by one pass over it.
fn arr_extreme<F: Fn(Calc) -> Option<serde_json::Number>>(
    s: &Vec<JsonVal>,
    greatest: bool,
    fpu: &F,
) -> (r: Res<Option<JsonVal>>)
    requires
        total(fpu),
    ensures
        forall|unit: Unit|
            #[trigger] computes(fpu, unit) ==> picks(r, extreme(views(s@), greatest, unit)),
        r matches Ok(None) <==> s@.len() == 0,
        r is Ok <==> all_numbers(views(s@)),
        r matches Err(e) ==> e == Error::BadType,
{
    if s.len() == 0 {
        return Ok(None);
    }
    let mut best = match json_f64(&s[0]) {
        Some(val) => ask(fpu, Calc::Float(val.clone())),
        None => {
            proof {
                assert forall|unit: Unit| #[trigger] computes(fpu, unit) implies extreme_upto(
                    views(s@),
                    greatest,
                    unit,
                    s@.len(),
                ) == Err::<Option<serde_json::Number>, Error>(Error::BadType) by {
                    assert(extreme_upto(views(s@), greatest, unit, 0) == Ok::<
                        Option<serde_json::Number>,
                        Error,
                    >(None));
                    lemma_extreme_fails(views(s@), greatest, unit, 1, s@.len());
                }
            }
            return Err(Error::BadType);
        },
    };
    proof {
        assert forall|unit: Unit| #[trigger] computes(fpu, unit) implies extreme_upto(
            views(s@),
            greatest,
            unit,
            1,
        ) == Ok::<Option<serde_json::Number>, Error>(best) by {
            assert(extreme_upto(views(s@), greatest, unit, 0) == Ok::<
                Option<serde_json::Number>,
                Error,
            >(None));
        }
    }
    let mut i: usize = 1;
    while i < s.len()
        invariant
            total(fpu),
            1 <= i <= s.len(),
            forall|k: int| 0 <= k < i ==> (#[trigger] views(s@)[k]) is Number,
            forall|unit: Unit|
                #[trigger] computes(fpu, unit)
                    ==> extreme_upto(views(s@), greatest, unit, i as nat) == Ok::<
                    Option<serde_json::Number>,
                Error,
            >(best),
        decreases s.len() - i,
    {
        match json_f64(&s[i]) {
            Some(v) => {
                best = match best {
                    Some(m) => if greatest {
                        ask(fpu, Calc::Max(m, v.clone()))
                    } else {
                        ask(fpu, Calc::Min(m, v.clone()))
                    },
                    None => None,
                };
            },
            None => {
                proof {
                    assert forall|unit: Unit| #[trigger] computes(fpu, unit) implies extreme_upto(
                        views(s@),
                        greatest,
                        unit,
                        s@.len(),
                    ) == Err::<Option<serde_json::Number>, Error>(Error::BadType) by {
                        lemma_extreme_fails(
                            views(s@),
                            greatest,
                            unit,
                            (i + 1) as nat,
                            s@.len(),
                        );
                    }
                }
                return Err(Error::BadType);
            },
        }
        i += 1;
    }
    Ok(Some(number_value(best)))
}

/// The greatest element of an array of numbers, as a float; `None` of an array without
/// elements.
pub fn arr_max<F: Fn(Calc) -> Option<serde_json::Number>>(s: &Vec<JsonVal>, fpu: &F) -> (r: Res<
    Option<JsonVal>,
>)
    requires
        total(fpu),
    ensures
        forall|unit: Unit|
            #[trigger] computes(fpu, unit) ==> picks(r, extreme(views(s@), true, unit)),
        r matches Ok(None) <==> s@.len() == 0,
        r is Ok <==> all_numbers(views(s@)),
        r matches Err(e) ==> e == Error::BadType,
{
    arr_extreme(s, true, fpu)
}

/// The least element of an array of numbers, as a float; `None` of an array without elements.
pub fn arr_min<F: Fn(Calc) -> Option<serde_json::Number>>(s: &Vec<JsonVal>, fpu: &F) -> (r: Res<
    Option<JsonVal>,
>)
    requires
        total(fpu),
    ensures
        forall|unit: Unit|
            #[trigger] computes(fpu, unit) ==> picks(r, extreme(views(s@), false, unit)),
        r matches Ok(None) <==> s@.len() == 0,
        r is Ok <==> all_numbers(views(s@)),
        r matches Err(e) ==> e == Error::BadType,
{
    arr_extreme(s, false, fpu)
}

/// The first element of an array; a number is its own first element.
pub fn json_first(val: &JsonVal) -> (r: Res<JsonVal>)
    ensures
        yields(r, first_of(val@)),
{
    match val {
        JsonVal::Number(val) => Ok(JsonVal::Number(val.clone())),
        JsonVal::Array(arr) => {
            proof {
                lemma_array_view(*arr);
            }
            json_arr_first(arr)
        },
        _ => Err(Error::BadType),
    }
}

/// The last element of an array; a number is its own last element.
pub fn json_last(val: &JsonVal) -> (r: Res<JsonVal>)
    ensures
        yields(r, last_of(val@)),
{
    match val {
        JsonVal::Number(val) => Ok(JsonVal::Number(val.clone())),
        JsonVal::Array(arr) => {
            proof {
                lemma_array_view(*arr);
            }
            json_arr_last(arr)
        },
        _ => Err(Error::BadType),
    }
}

/// The sum of the elements of an array; a number is its own sum.
pub fn json_sum<F: Fn(Calc) -> Option<serde_json::Number>>(val: &JsonVal, fpu: &F) -> (r: Res<
    JsonVal,
>)
    requires
        total(fpu),
    ensures
        forall|unit: Unit|
            #[trigger] computes(fpu, unit) ==> yields(r, stat_of(Stat::Sum, val@, unit)),
        sure_stat(Stat::Sum, val@) matches Some(v) ==> yields(r, v),
{
    match val {
        JsonVal::Number(val) => Ok(JsonVal::Number(val.clone())),
        JsonVal::Array(arr) => {
            proof {
                lemma_array_view(*arr);
            }
            json_arr_sum(arr, fpu)
        },
        _ => Err(Error::BadType),
    }
}

/// The mean of the elements of an array; a number is its own mean.
pub fn json_avg<F: Fn(Calc) -> Option<serde_json::Number>>(val: &JsonVal, fpu: &F) -> (r: Res<
    JsonVal,
>)
    requires
        total(fpu),
    ensures
        forall|unit: Unit|
            #[trigger] computes(fpu, unit) ==> yields(r, stat_of(Stat::Avg, val@, unit)),
        sure_stat(Stat::Avg, val@) matches Some(v) ==> yields(r, v),
{
    match val {
        JsonVal::Number(val) => Ok(JsonVal::Number(val.clone())),
        JsonVal::Array(arr) => {
            proof {
                lemma_array_view(*arr);
            }
            json_arr_avg(arr, fpu)
        },
        _ => Err(Error::BadType),
    }
}

/// The variance of the elements of an array; a number is handed back.
pub fn json_var<F: Fn(Calc) -> Option<serde_json::Number>>(val: &JsonVal, fpu: &F) -> (r: Res<
    JsonVal,
>)
    requires
        total(fpu),
    ensures
        forall|unit: Unit|
            #[trigger] computes(fpu, unit) ==> yields(r, stat_of(Stat::Var, val@, unit)),
        sure_stat(Stat::Var, val@) matches Some(v) ==> yields(r, v),
{
    match val {
        JsonVal::Number(val) => Ok(JsonVal::Number(val.clone())),
        JsonVal::Array(arr) => {
            proof {
                lemma_array_view(*arr);
            }
            json_arr_var(arr, fpu)
        },
        _ => Err(Error::BadType),
    }
}

/// The deviation of the elements of an array; a number is handed back.
pub fn json_dev<F: Fn(Calc) -> Option<serde_json::Number>>(val: &JsonVal, fpu: &F) -> (r: Res<
    JsonVal,
>)
    requires
        total(fpu),
    ensures
        forall|unit: Unit|
            #[trigger] computes(fpu, unit) ==> yields(r, stat_of(Stat::Dev, val@, unit)),
        sure_stat(Stat::Dev, val@) matches Some(v) ==> yields(r, v),
{
    match val {
        JsonVal::Number(val) => Ok(JsonVal::Number(val.clone())),
        JsonVal::Array(arr) => {
            proof {
                lemma_array_view(*arr);
            }
            json_arr_dev(arr, fpu)
        },
        _ => Err(Error::BadType),
    }
}

/// The greatest element of an array, `Null` of an array without elements; a number is its own
/// greatest element.
pub fn json_max<F: Fn(Calc) -> Option<serde_json::Number>>(val: &JsonVal, fpu: &F) -> (r: Res<
    JsonVal,
>)
    requires
        total(fpu),
    ensures
        forall|unit: Unit|
            #[trigger] computes(fpu, unit) ==> yields(r, stat_of(Stat::Max, val@, unit)),
        sure_stat(Stat::Max, val@) matches Some(v) ==> yields(r, v),
{
    match val {
        JsonVal::Number(val) => Ok(JsonVal::Number(val.clone())),
        JsonVal::Array(arr) => {
            proof {
                lemma_array_view(*arr);
            }
            match arr_max(arr, fpu) {
                Ok(Some(val)) => Ok(val),
                Ok(None) => Ok(JsonVal::Null),
                Err(e) => Err(e),
            }
        },
        _ => Err(Error::BadType),
    }
}

/// The least element of an array, `Null` of an array without elements; a number is its own
/// least element.
pub fn json_min<F: Fn(Calc) -> Option<serde_json::Number>>(val: &JsonVal, fpu: &F) -> (r: Res<
    JsonVal,
>)
    requires
        total(fpu),
    ensures
        forall|unit: Unit|
            #[trigger] computes(fpu, unit) ==> yields(r, stat_of(Stat::Min, val@, unit)),
        sure_stat(Stat::Min, val@) matches Some(v) ==> yields(r, v),
{
    match val {
        JsonVal::Number(val) => Ok(JsonVal::Number(val.clone())),
        JsonVal::Array(arr) => {
            proof {
                lemma_array_view(*arr);
            }
            match arr_min(arr, fpu) {
                Ok(Some(val)) => Ok(val),
                Ok(None) => Ok(JsonVal::Null),
                Err(e) => Err(e),
            }
        },
        _ => Err(Error::BadType),
    }
}

/// An aggregate of a value.
pub fn json_stat<F: Fn(Calc) -> Option<serde_json::Number>>(
    stat: Stat,
    val: &JsonVal,
    fpu: &F,
) -> (r: Res<JsonVal>)
    requires
        total(fpu),
    ensures
        forall|unit: Unit| #[trigger] computes(fpu, unit) ==> yields(r, stat_of(stat, val@, unit)),
        sure_stat(stat, val@) matches Some(v) ==> yields(r, v),
{
    match stat {
        Stat::Sum => json_sum(val, fpu),
        Stat::Min => json_min(val, fpu),
        Stat::Max => json_max(val, fpu),
        Stat::Avg => json_avg(val, fpu),
        Stat::Var => json_var(val, fpu),
        Stat::Dev => json_dev(val, fpu),
        Stat::First => json_first(val),
        Stat::Last => json_last(val),
    }
}

} // verus!
