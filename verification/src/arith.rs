//! Operators on values: numbers are handed to the arithmetic unit, arrays are taken element by
//! element, strings are joined.

use vstd::prelude::*;
use vstd::string::*;
use crate::error::{Error, Res};
use crate::fpu::{ask, computes, total, Calc, Unit};
use crate::json::Op;
use crate::value::{lemma_array_view, views, Json, JsonVal};

verus! {

/// The operation that an operator asks of the arithmetic unit.
pub open spec fn calc(op: Op, x: serde_json::Number, y: serde_json::Number) -> Calc {
    match op {
        Op::Add => Calc::Add(x, y),
        Op::Sub => Calc::Sub(x, y),
        Op::Mul => Calc::Mul(x, y),
        Op::Div => Calc::Div(x, y),
    }
}

/// A result of the unit as a value: a result that is no finite number is `Null`.
pub open spec fn number_or_null(x: Option<serde_json::Number>) -> Json {
    match x {
        Some(n) => Json::Number(n),
        None => Json::Null,
    }
}

/// Whether a result is the value, or the error, that the model gives.
pub open spec fn yields(r: Res<JsonVal>, model: Result<Json, Error>) -> bool {
    match r {
        Ok(v) => model == Ok::<Json, Error>(v@),
        Err(e) => model == Err::<Json, Error>(e),
    }
}

/// Whether an operator, spread over an array, goes into the arrays inside it.
pub open spec fn nests(op: Op) -> bool {
    op is Mul || op is Div
}

/// The operator between one element and a number; `num_first` puts the number on the left.
pub open spec fn scaled(
    op: Op,
    elem: Json,
    num: serde_json::Number,
    num_first: bool,
    unit: Unit,
) -> Result<Json, Error>
    decreases elem, 0int,
{
    match elem {
        Json::Number(m) => Ok(
            number_or_null(
                unit(
                    if num_first {
                        calc(op, num, m)
                    } else {
                        calc(op, m, num)
                    },
                ),
            ),
        ),
        Json::Array(a) => if nests(op) {
            match scaled_upto(op, a, num, num_first, unit, a.len()) {
                Ok(s) => Ok(Json::Array(s)),
                Err(e) => Err(e),
            }
        } else {
            Err(Error::BadType)
        },
        _ => Err(Error::BadType),
    }
}

/// The operator between a number and each of the first `n` elements, or the first error.
pub open spec fn scaled_upto(
    op: Op,
    a: Seq<Json>,
    num: serde_json::Number,
    num_first: bool,
    unit: Unit,
    n: nat,
) -> Result<Seq<Json>, Error>
    decreases a, n,
{
    if n == 0 || n > a.len() {
        Ok(Seq::empty())
    } else {
        match scaled_upto(op, a, num, num_first, unit, (n - 1) as nat) {
            Ok(s) => match scaled(op, a[n - 1], num, num_first, unit) {
                Ok(v) => Ok(s.push(v)),
                Err(e) => Err(e),
            },
            Err(e) => Err(e),
        }
    }
}

/// A string joined to one element; `text_first` puts the string on the left.
pub open spec fn joined(elem: Json, text: Seq<char>, text_first: bool) -> Result<Json, Error> {
    match elem {
        Json::String(s) => Ok(
            Json::String(
                if text_first {
                    text + s
                } else {
                    s + text
                },
            ),
        ),
        _ => Err(Error::BadType),
    }
}

/// A string joined to each of the first `n` elements, or the first error.
pub open spec fn joined_upto(a: Seq<Json>, text: Seq<char>, text_first: bool, n: nat) -> Result<
    Seq<Json>,
    Error,
>
    decreases n,
{
    if n == 0 || n > a.len() {
        Ok(Seq::empty())
    } else {
        match joined_upto(a, text, text_first, (n - 1) as nat) {
            Ok(s) => match joined(a[n - 1], text, text_first) {
                Ok(v) => Ok(s.push(v)),
                Err(e) => Err(e),
            },
            Err(e) => Err(e),
        }
    }
}

/// The operator between two elements of arrays that are taken pair by pair: a product takes
/// numbers only, the other operators take whatever they take of two values.
pub open spec fn paired(op: Op, x: Json, y: Json, unit: Unit) -> Result<Json, Error>
    decreases x, 1int,
{
    if op is Mul {
        match (x, y) {
            (Json::Number(a), Json::Number(b)) => Ok(number_or_null(unit(Calc::Mul(a, b)))),
            _ => Err(Error::BadType),
        }
    } else {
        arith(op, x, y, unit)
    }
}

/// The operator between the first `n` pairs of two arrays, or the first error.
pub open spec fn paired_upto(op: Op, a: Seq<Json>, b: Seq<Json>, unit: Unit, n: nat) -> Result<
    Seq<Json>,
    Error,
>
    decreases a, n,
{
    if n == 0 || n > a.len() || n > b.len() {
        Ok(Seq::empty())
    } else {
        match paired_upto(op, a, b, unit, (n - 1) as nat) {
            Ok(s) => match paired(op, a[n - 1], b[n - 1], unit) {
                Ok(v) => Ok(s.push(v)),
                Err(e) => Err(e),
            },
            Err(e) => Err(e),
        }
    }
}

/// The length of the shorter of two sequences.
pub open spec fn shorter(a: Seq<Json>, b: Seq<Json>) -> nat {
    if a.len() <= b.len() {
        a.len()
    } else {
        b.len()
    }
}

/// What an operator makes of two values. Numbers are computed; an array and a number spread
/// the number over the array; two arrays go pair by pair as far as the shorter reaches; `+`
/// also joins strings. Every other pair of types is a type error.
pub open spec fn arith(op: Op, x: Json, y: Json, unit: Unit) -> Result<Json, Error>
    decreases x, 0int,
{
    match (x, y) {
        (Json::Array(a), Json::Array(b)) => match paired_upto(op, a, b, unit, shorter(a, b)) {
            Ok(s) => Ok(Json::Array(s)),
            Err(e) => Err(e),
        },
        (Json::Array(a), Json::Number(n)) => match scaled_upto(op, a, n, false, unit, a.len()) {
            Ok(s) => Ok(Json::Array(s)),
            Err(e) => Err(e),
        },
        (Json::Number(n), Json::Array(a)) => match scaled_upto(
            op,
            a,
            n,
            op is Sub || op is Div,
            unit,
            a.len(),
        ) {
            Ok(s) => Ok(Json::Array(s)),
            Err(e) => Err(e),
        },
        (Json::Number(a), Json::Number(b)) => Ok(number_or_null(unit(calc(op, a, b)))),
        (Json::String(a), Json::String(b)) => if op is Add {
            Ok(Json::String(a + b))
        } else {
            Err(Error::BadType)
        },
        (Json::String(s), Json::Array(a)) => if op is Add {
            match joined_upto(a, s, true, a.len()) {
                Ok(s) => Ok(Json::Array(s)),
                Err(e) => Err(e),
            }
        } else {
            Err(Error::BadType)
        },
        (Json::Array(a), Json::String(s)) => if op is Add {
            match joined_upto(a, s, false, a.len()) {
                Ok(s) => Ok(Json::Array(s)),
                Err(e) => Err(e),
            }
        } else {
            Err(Error::BadType)
        },
        _ => Err(Error::BadType),
    }
}

/// What an operator makes of two values whatever the unit is, where no number is computed:
/// strings are joined by `+`, and a pair of types that no operator takes is a type error.
/// `None` where numbers or arrays meet, and the unit has its say.
pub open spec fn sure_arith(op: Op, x: Json, y: Json) -> Option<Result<Json, Error>> {
    match (x, y) {
        (Json::Array(_), Json::Array(_)) => None,
        (Json::Array(_), Json::Number(_)) => None,
        (Json::Number(_), Json::Array(_)) => None,
        (Json::Number(_), Json::Number(_)) => None,
        (Json::String(a), Json::String(b)) => if op is Add {
            Some(Ok(Json::String(a + b)))
        } else {
            Some(Err(Error::BadType))
        },
        (Json::String(s), Json::Array(a)) => if op is Add {
            Some(
                match joined_upto(a, s, true, a.len()) {
                    Ok(s) => Ok(Json::Array(s)),
                    Err(e) => Err(e),
                },
            )
        } else {
            Some(Err(Error::BadType))
        },
        (Json::Array(a), Json::String(s)) => if op is Add {
            Some(
                match joined_upto(a, s, false, a.len()) {
                    Ok(s) => Ok(Json::Array(s)),
                    Err(e) => Err(e),
                },
            )
        } else {
            Some(Err(Error::BadType))
        },
        _ => Some(Err(Error::BadType)),
    }
}

/// The value that stands for a result of the unit.
pub fn number_value(x: Option<serde_json::Number>) -> (r: JsonVal)
    ensures
        r@ == number_or_null(x),
{
    match x {
        Some(n) => JsonVal::Number(n),
        None => JsonVal::Null,
    }
}

/// Asks the unit for an operator on two numbers.
pub fn arith_nums<F: Fn(Calc) -> Option<serde_json::Number>>(
    op: Op,
    x: &serde_json::Number,
    y: &serde_json::Number,
    fpu: &F,
) -> (r: JsonVal)
    requires
        total(fpu),
    ensures
        forall|unit: Unit|
            #[trigger] computes(fpu, unit) ==> r@ == number_or_null(unit(calc(op, *x, *y))),
{
    let c = match op {
        Op::Add => Calc::Add(x.clone(), y.clone()),
        Op::Sub => Calc::Sub(x.clone(), y.clone()),
        Op::Mul => Calc::Mul(x.clone(), y.clone()),
        Op::Div => Calc::Div(x.clone(), y.clone()),
    };
    number_value(ask(fpu, c))
}

/// The operator between one element and a number.
pub fn scale_val<F: Fn(Calc) -> Option<serde_json::Number>>(
    op: Op,
    elem: &JsonVal,
    num: &serde_json::Number,
    num_first: bool,
    fpu: &F,
) -> (r: Res<JsonVal>)
    requires
        total(fpu),
    ensures
        forall|unit: Unit|
            #[trigger] computes(fpu, unit) ==> yields(r, scaled(op, elem@, *num, num_first, unit)),
    decreases elem, 0int,
{
    match elem {
        JsonVal::Number(m) => {
            if num_first {
                Ok(arith_nums(op, num, m, fpu))
            } else {
                Ok(arith_nums(op, m, num, fpu))
            }
        },
        JsonVal::Array(arr) => {
            match op {
                Op::Mul | Op::Div => {
                    proof {
                        lemma_array_view(*arr);
                    }
                    scale_arr(op, arr, num, num_first, fpu)
                },
                _ => Err(Error::BadType),
            }
        },
        _ => Err(Error::BadType),
    }
}

/// The operator between a number and every element of an array.
pub fn scale_arr<F: Fn(Calc) -> Option<serde_json::Number>>(
    op: Op,
    arr: &Vec<JsonVal>,
    num: &serde_json::Number,
    num_first: bool,
    fpu: &F,
) -> (r: Res<JsonVal>)
    requires
        total(fpu),
    ensures
        forall|unit: Unit| #[trigger] computes(fpu, unit) ==> yields(
            r,
            match scaled_upto(op, views(arr@), *num, num_first, unit, arr@.len()) {
                Ok(s) => Ok(Json::Array(s)),
                Err(e) => Err(e),
            },
        ),
    decreases arr, 1int,
{
    let mut out: Vec<JsonVal> = Vec::new();
    let mut i: usize = 0;
    assert(views(out@) =~= Seq::<Json>::empty());
    while i < arr.len()
        invariant
            total(fpu),
            i <= arr.len(),
            forall|unit: Unit|
                #[trigger] computes(fpu, unit)
                    ==> scaled_upto(op, views(arr@), *num, num_first, unit, i as nat)
                    == Ok::<Seq<Json>, Error>(views(out@)),
        decreases arr.len() - i,
    {
        let ghost before = views(out@);
        match scale_val(op, &arr[i], num, num_first, fpu) {
            Ok(v) => {
                out.push(v);
                assert(views(out@) =~= before.push(v@));
            },
            Err(e) => {
                proof {
                    assert forall|unit: Unit| #[trigger] computes(fpu, unit) implies scaled_upto(
                        op,
                        views(arr@),
                        *num,
                        num_first,
                        unit,
                        arr@.len(),
                    ) == Err::<Seq<Json>, Error>(e) by {
                        lemma_scaled_fails(
                            op,
                            views(arr@),
                            *num,
                            num_first,
                            unit,
                            (i + 1) as nat,
                            arr@.len(),
                            e,
                        );
                    }
                }
                return Err(e);
            },
        }
        i += 1;
    }
    proof {
        lemma_array_view(out);
    }
    Ok(JsonVal::Array(out))
}

/// An error among the first `n` elements is the error of every longer run.
pub proof fn lemma_scaled_fails(
    op: Op,
    a: Seq<Json>,
    num: serde_json::Number,
    num_first: bool,
    unit: Unit,
    n: nat,
    m: nat,
    e: Error,
)
    requires
        scaled_upto(op, a, num, num_first, unit, n) == Err::<Seq<Json>, Error>(e),
        n <= m <= a.len(),
    ensures
        scaled_upto(op, a, num, num_first, unit, m) == Err::<Seq<Json>, Error>(e),
    decreases m - n,
{
    if n < m {
        lemma_scaled_fails(op, a, num, num_first, unit, n, (m - 1) as nat, e);
    }
}

/// An error among the first `n` elements is the error of every longer run.
pub proof fn lemma_joined_fails(
    a: Seq<Json>,
    text: Seq<char>,
    text_first: bool,
    n: nat,
    m: nat,
    e: Error,
)
    requires
        joined_upto(a, text, text_first, n) == Err::<Seq<Json>, Error>(e),
        n <= m <= a.len(),
    ensures
        joined_upto(a, text, text_first, m) == Err::<Seq<Json>, Error>(e),
    decreases m - n,
{
    if n < m {
        lemma_joined_fails(a, text, text_first, n, (m - 1) as nat, e);
    }
}

/// An error among the first `n` pairs is the error of every longer run.
pub proof fn lemma_paired_fails(
    op: Op,
    a: Seq<Json>,
    b: Seq<Json>,
    unit: Unit,
    n: nat,
    m: nat,
    e: Error,
)
    requires
        paired_upto(op, a, b, unit, n) == Err::<Seq<Json>, Error>(e),
        n <= m <= shorter(a, b),
    ensures
        paired_upto(op, a, b, unit, m) == Err::<Seq<Json>, Error>(e),
    decreases m - n,
{
    if n < m {
        lemma_paired_fails(op, a, b, unit, n, (m - 1) as nat, e);
    }
}

/// Two strings, one after the other.
pub fn join_strs(x: &str, y: &str) -> (r: JsonVal)
    ensures
        r@ == Json::String(x@ + y@),
{
    let mut s = x.to_owned();
    s.append(y);
    JsonVal::String(s)
}

/// A string joined to one element, which has to be a string.
pub fn join_val(elem: &JsonVal, text: &str, text_first: bool) -> (r: Res<JsonVal>)
    ensures
        yields(r, joined(elem@, text@, text_first)),
{
    match elem {
        JsonVal::String(s) => {
            if text_first {
                Ok(join_strs(text, s.as_str()))
            } else {
                Ok(join_strs(s.as_str(), text))
            }
        },
        _ => Err(Error::BadType),
    }
}

/// A string joined to every element of an array.
pub fn join_arr(arr: &Vec<JsonVal>, text: &str, text_first: bool) -> (r: Res<JsonVal>)
    ensures
        yields(
            r,
            match joined_upto(views(arr@), text@, text_first, arr@.len()) {
                Ok(s) => Ok(Json::Array(s)),
                Err(e) => Err(e),
            },
        ),
{
    let mut out: Vec<JsonVal> = Vec::with_capacity(arr.len());
    let mut i: usize = 0;
    assert(views(out@) =~= Seq::<Json>::empty());
    while i < arr.len()
        invariant
            i <= arr.len(),
            joined_upto(views(arr@), text@, text_first, i as nat) == Ok::<Seq<Json>, Error>(
                views(out@),
            ),
        decreases arr.len() - i,
    {
        let ghost before = views(out@);
        match join_val(&arr[i], text, text_first) {
            Ok(v) => {
                out.push(v);
                assert(views(out@) =~= before.push(v@));
            },
            Err(e) => {
                proof {
                    lemma_joined_fails(
                        views(arr@),
                        text@,
                        text_first,
                        (i + 1) as nat,
                        arr@.len(),
                        e,
                    );
                }
                return Err(e);
            },
        }
        i += 1;
    }
    proof {
        lemma_array_view(out);
    }
    Ok(JsonVal::Array(out))
}

/// The operator between two elements of arrays that are taken pair by pair.
pub fn pair_vals<F: Fn(Calc) -> Option<serde_json::Number>>(
    op: Op,
    x: &JsonVal,
    y: &JsonVal,
    fpu: &F,
) -> (r: Res<JsonVal>)
    requires
        total(fpu),
    ensures
        forall|unit: Unit| #[trigger] computes(fpu, unit) ==> yields(r, paired(op, x@, y@, unit)),
    decreases x, 1int,
{
    match op {
        Op::Mul => match (x, y) {
            (JsonVal::Number(a), JsonVal::Number(b)) => Ok(arith_nums(Op::Mul, a, b, fpu)),
            _ => Err(Error::BadType),
        },
        _ => json_arith(op, x, y, fpu),
    }
}

/// The operator between two arrays, pair by pair, as far as the shorter one reaches.
pub fn pair_arrs<F: Fn(Calc) -> Option<serde_json::Number>>(
    op: Op,
    lhs: &Vec<JsonVal>,
    rhs: &Vec<JsonVal>,
    fpu: &F,
) -> (r: Res<JsonVal>)
    requires
        total(fpu),
    ensures
        forall|unit: Unit| #[trigger] computes(fpu, unit) ==> yields(
            r,
            match paired_upto(
                op,
                views(lhs@),
                views(rhs@),
                unit,
                shorter(views(lhs@), views(rhs@)),
            ) {
                Ok(s) => Ok(Json::Array(s)),
                Err(e) => Err(e),
            },
        ),
    decreases lhs, 2int,
{
    let n = if lhs.len() <= rhs.len() {
        lhs.len()
    } else {
        rhs.len()
    };
    let mut out: Vec<JsonVal> = Vec::new();
    let mut i: usize = 0;
    assert(views(out@) =~= Seq::<Json>::empty());
    while i < n
        invariant
            total(fpu),
            i <= n,
            n == shorter(views(lhs@), views(rhs@)),
            forall|unit: Unit|
                #[trigger] computes(fpu, unit)
                    ==> paired_upto(op, views(lhs@), views(rhs@), unit, i as nat)
                    == Ok::<Seq<Json>, Error>(views(out@)),
        decreases n - i,
    {
        let ghost before = views(out@);
        match pair_vals(op, &lhs[i], &rhs[i], fpu) {
            Ok(v) => {
                out.push(v);
                assert(views(out@) =~= before.push(v@));
            },
            Err(e) => {
                proof {
                    assert forall|unit: Unit| #[trigger] computes(fpu, unit) implies paired_upto(
                        op,
                        views(lhs@),
                        views(rhs@),
                        unit,
                        n as nat,
                    ) == Err::<Seq<Json>, Error>(e) by {
                        lemma_paired_fails(
                            op,
                            views(lhs@),
                            views(rhs@),
                            unit,
                            (i + 1) as nat,
                            n as nat,
                            e,
                        );
                    }
                }
                return Err(e);
            },
        }
        i += 1;
    }
    proof {
        lemma_array_view(out);
    }
    Ok(JsonVal::Array(out))
}

/// An operator on two values.
pub fn json_arith<F: Fn(Calc) -> Option<serde_json::Number>>(
    op: Op,
    lhs: &JsonVal,
    rhs: &JsonVal,
    fpu: &F,
) -> (r: Res<JsonVal>)
    requires
        total(fpu),
    ensures
        forall|unit: Unit|
            #[trigger] computes(fpu, unit) ==> yields(r, arith(op, lhs@, rhs@, unit)),
        sure_arith(op, lhs@, rhs@) matches Some(v) ==> yields(r, v),
    decreases lhs, 0int,
{
    match (lhs, rhs) {
        (JsonVal::Array(x), JsonVal::Array(y)) => {
            proof {
                lemma_array_view(*x);
                lemma_array_view(*y);
            }
            pair_arrs(op, x, y, fpu)
        },
        (JsonVal::Array(x), JsonVal::Number(y)) => {
            proof {
                lemma_array_view(*x);
            }
            scale_arr(op, x, y, false, fpu)
        },
        (JsonVal::Number(x), JsonVal::Array(y)) => {
            proof {
                lemma_array_view(*y);
            }
            match op {
                Op::Sub | Op::Div => scale_arr(op, y, x, true, fpu),
                _ => scale_arr(op, y, x, false, fpu),
            }
        },
        (JsonVal::Number(x), JsonVal::Number(y)) => Ok(arith_nums(op, x, y, fpu)),
        (JsonVal::String(x), JsonVal::String(y)) => match op {
            Op::Add => Ok(join_strs(x.as_str(), y.as_str())),
            _ => Err(Error::BadType),
        },
        (JsonVal::String(x), JsonVal::Array(y)) => match op {
            Op::Add => {
                proof {
                    lemma_array_view(*y);
                }
                join_arr(y, x.as_str(), true)
            },
            _ => Err(Error::BadType),
        },
        (JsonVal::Array(x), JsonVal::String(y)) => match op {
            Op::Add => {
                proof {
                    lemma_array_view(*x);
                }
                join_arr(x, y.as_str(), false)
            },
            _ => Err(Error::BadType),
        },
        _ => Err(Error::BadType),
    }
}

/// The sum of two values: of numbers, of an array and a number, of two arrays pair by pair; or
/// strings joined, one to one or one to each string of an array.
pub fn json_add<F: Fn(Calc) -> Option<serde_json::Number>>(
    lhs: &JsonVal,
    rhs: &JsonVal,
    fpu: &F,
) -> (r: Res<JsonVal>)
    requires
        total(fpu),
    ensures
        forall|unit: Unit|
            #[trigger] computes(fpu, unit) ==> yields(r, arith(Op::Add, lhs@, rhs@, unit)),
        sure_arith(Op::Add, lhs@, rhs@) matches Some(v) ==> yields(r, v),
{
    json_arith(Op::Add, lhs, rhs, fpu)
}

/// The difference of two values: of numbers, of an array and a number, of two arrays pair by
/// pair.
pub fn json_sub<F: Fn(Calc) -> Option<serde_json::Number>>(
    lhs: &JsonVal,
    rhs: &JsonVal,
    fpu: &F,
) -> (r: Res<JsonVal>)
    requires
        total(fpu),
    ensures
        forall|unit: Unit|
            #[trigger] computes(fpu, unit) ==> yields(r, arith(Op::Sub, lhs@, rhs@, unit)),
        sure_arith(Op::Sub, lhs@, rhs@) matches Some(v) ==> yields(r, v),
{
    json_arith(Op::Sub, lhs, rhs, fpu)
}

/// The product of two values: of numbers, of a number and an array with the arrays inside it,
/// of two arrays of numbers pair by pair.
pub fn json_mul<F: Fn(Calc) -> Option<serde_json::Number>>(
    lhs: &JsonVal,
    rhs: &JsonVal,
    fpu: &F,
) -> (r: Res<JsonVal>)
    requires
        total(fpu),
    ensures
        forall|unit: Unit|
            #[trigger] computes(fpu, unit) ==> yields(r, arith(Op::Mul, lhs@, rhs@, unit)),
        sure_arith(Op::Mul, lhs@, rhs@) matches Some(v) ==> yields(r, v),
{
    json_arith(Op::Mul, lhs, rhs, fpu)
}

/// The quotient of two values: of numbers, of a number and an array with the arrays inside it,
/// of two arrays pair by pair.
pub fn json_div<F: Fn(Calc) -> Option<serde_json::Number>>(
    lhs: &JsonVal,
    rhs: &JsonVal,
    fpu: &F,
) -> (r: Res<JsonVal>)
    requires
        total(fpu),
    ensures
        forall|unit: Unit|
            #[trigger] computes(fpu, unit) ==> yields(r, arith(Op::Div, lhs@, rhs@, unit)),
        sure_arith(Op::Div, lhs@, rhs@) matches Some(v) ==> yields(r, v),
{
    json_arith(Op::Div, lhs, rhs, fpu)
}

} // verus!
