use memson::arith::{json_add, json_div, json_mul, json_sub};
use memson::error::Error;
use memson::fpu::Calc;
use memson::stats::{
    arr_max, arr_min, json_avg, json_dev, json_first, json_last, json_max, json_min, json_sum,
    json_var,
};
use memson::value::JsonVal;
use serde_json::Number;

fn float(n: &Number) -> f64 {
    n.as_f64().unwrap()
}

fn fpu(c: Calc) -> Option<Number> {
    let x = match c {
        Calc::Float(a) => float(&a),
        Calc::Add(a, b) => float(&a) + float(&b),
        Calc::Sub(a, b) => float(&a) - float(&b),
        Calc::Mul(a, b) => float(&a) * float(&b),
        Calc::Div(a, b) => float(&a) / float(&b),
        Calc::Max(a, b) => {
            if float(&b) > float(&a) {
                float(&b)
            } else {
                float(&a)
            }
        }
        Calc::Min(a, b) => {
            if float(&b) < float(&a) {
                float(&b)
            } else {
                float(&a)
            }
        }
        Calc::Sqrt(a) => float(&a).sqrt(),
    };
    Number::from_f64(x)
}

fn json(text: &str) -> JsonVal {
    JsonVal::parse(text).unwrap()
}

#[test]
fn add_spreads_a_number_over_an_array() {
    assert_eq!(json_add(&json("[1,2,3]"), &json("10"), &fpu), Ok(json("[11.0,12.0,13.0]")));
    assert_eq!(json_add(&json("10"), &json("[1,2,3]"), &fpu), Ok(json("[11.0,12.0,13.0]")));
}

#[test]
fn add_joins_a_string_to_each_string_of_an_array() {
    assert_eq!(
        json_add(&json("\"a\""), &json("[\"x\",\"y\"]"), &fpu),
        Ok(json("[\"ax\",\"ay\"]"))
    );
    assert_eq!(
        json_add(&json("[\"x\",\"y\"]"), &json("\"a\""), &fpu),
        Ok(json("[\"xa\",\"ya\"]"))
    );
    assert_eq!(json_add(&json("\"ab\""), &json("\"cd\""), &fpu), Ok(json("\"abcd\"")));
}

#[test]
fn add_of_a_number_and_a_string_is_a_type_error() {
    assert_eq!(json_add(&json("5"), &json("\"s\""), &fpu), Err(Error::BadType));
    assert_eq!(json_add(&json("\"s\""), &json("5"), &fpu), Err(Error::BadType));
    assert_eq!(json_add(&json("\"s\""), &json("[1]"), &fpu), Err(Error::BadType));
    assert_eq!(json_add(&json("[1,\"a\"]"), &json("1"), &fpu), Err(Error::BadType));
    assert_eq!(json_add(&json("[[1]]"), &json("1"), &fpu), Err(Error::BadType));
    assert_eq!(json_add(&json("true"), &json("null"), &fpu), Err(Error::BadType));
}

#[test]
fn numbers_are_computed_as_floats() {
    assert_eq!(json_add(&json("1"), &json("2"), &fpu), Ok(json("3.0")));
    assert_eq!(json_sub(&json("1"), &json("2.5"), &fpu), Ok(json("-1.5")));
    assert_eq!(json_mul(&json("3"), &json("4"), &fpu), Ok(json("12.0")));
    assert_eq!(json_div(&json("1"), &json("4"), &fpu), Ok(json("0.25")));
}

#[test]
fn a_result_that_is_not_finite_is_null() {
    assert_eq!(json_div(&json("1"), &json("0"), &fpu), Ok(JsonVal::Null));
    assert_eq!(json_div(&json("[1,0]"), &json("0"), &fpu), Ok(json("[null,null]")));
    assert_eq!(json_mul(&json("1e308"), &json("10"), &fpu), Ok(JsonVal::Null));
}

#[test]
fn arrays_go_pair_by_pair_as_far_as_the_shorter() {
    assert_eq!(json_add(&json("[1,2,3]"), &json("[10,20]"), &fpu), Ok(json("[11.0,22.0]")));
    assert_eq!(json_sub(&json("[10,20]"), &json("[1,2,3]"), &fpu), Ok(json("[9.0,18.0]")));
    assert_eq!(json_mul(&json("[2,3]"), &json("[4,5]"), &fpu), Ok(json("[8.0,15.0]")));
    assert_eq!(json_div(&json("[8,9]"), &json("[4,3]"), &fpu), Ok(json("[2.0,3.0]")));
    assert_eq!(json_add(&json("[]"), &json("[1]"), &fpu), Ok(json("[]")));
}

#[test]
fn pairs_of_arrays_follow_their_operator() {
    assert_eq!(
        json_add(&json("[[1,2],\"a\"]"), &json("[10,\"b\"]"), &fpu),
        Ok(json("[[11.0,12.0],\"ab\"]"))
    );
    assert_eq!(json_div(&json("[[4,6]]"), &json("[2]"), &fpu), Ok(json("[[2.0,3.0]]")));
    assert_eq!(json_mul(&json("[[1,2]]"), &json("[2]"), &fpu), Err(Error::BadType));
    assert_eq!(json_sub(&json("[1,\"a\"]"), &json("[1,\"b\"]"), &fpu), Err(Error::BadType));
}

#[test]
fn subtraction_and_division_keep_the_side_of_the_number() {
    assert_eq!(json_sub(&json("[1,2,3]"), &json("1"), &fpu), Ok(json("[0.0,1.0,2.0]")));
    assert_eq!(json_sub(&json("1"), &json("[1,2,3]"), &fpu), Ok(json("[0.0,-1.0,-2.0]")));
    assert_eq!(json_div(&json("[2,4]"), &json("2"), &fpu), Ok(json("[1.0,2.0]")));
    assert_eq!(json_div(&json("2"), &json("[2,4]"), &fpu), Ok(json("[1.0,0.5]")));
}

#[test]
fn products_and_quotients_go_into_nested_arrays() {
    assert_eq!(
        json_mul(&json("[1,[2,[3]]]"), &json("2"), &fpu),
        Ok(json("[2.0,[4.0,[6.0]]]"))
    );
    assert_eq!(
        json_mul(&json("2"), &json("[1,[2,[3]]]"), &fpu),
        Ok(json("[2.0,[4.0,[6.0]]]"))
    );
    assert_eq!(json_div(&json("[2,[4]]"), &json("2"), &fpu), Ok(json("[1.0,[2.0]]")));
    assert_eq!(json_div(&json("8"), &json("[2,[4]]"), &fpu), Ok(json("[4.0,[2.0]]")));
    assert_eq!(json_sub(&json("[2,[4]]"), &json("2"), &fpu), Err(Error::BadType));
    assert_eq!(json_mul(&json("[1,\"a\"]"), &json("2"), &fpu), Err(Error::BadType));
}

#[test]
fn operators_other_than_add_take_no_strings() {
    assert_eq!(json_sub(&json("\"a\""), &json("\"b\""), &fpu), Err(Error::BadType));
    assert_eq!(json_mul(&json("\"a\""), &json("[\"b\"]"), &fpu), Err(Error::BadType));
    assert_eq!(json_div(&json("[\"a\"]"), &json("\"b\""), &fpu), Err(Error::BadType));
    assert_eq!(json_mul(&json("{}"), &json("1"), &fpu), Err(Error::BadType));
}

#[test]
fn aggregates_of_five_ones() {
    let ones = json("[1,1,1,1,1]");
    assert_eq!(json_sum(&ones, &fpu), Ok(json("5.0")));
    assert_eq!(json_avg(&ones, &fpu), Ok(json("1.0")));
    assert_eq!(json_first(&ones), Ok(json("1")));
    assert_eq!(json_last(&ones), Ok(json("1")));
    assert_eq!(json_max(&ones, &fpu), Ok(json("1.0")));
    assert_eq!(json_min(&ones, &fpu), Ok(json("1.0")));
}

#[test]
fn aggregates_of_an_empty_array() {
    let empty = json("[]");
    assert_eq!(json_max(&empty, &fpu), Ok(JsonVal::Null));
    assert_eq!(json_min(&empty, &fpu), Ok(JsonVal::Null));
    assert_eq!(json_first(&empty), Err(Error::EmptyArray));
    assert_eq!(json_last(&empty), Err(Error::EmptyArray));
    assert_eq!(json_sum(&empty, &fpu), Ok(json("0.0")));
    assert_eq!(json_avg(&empty, &fpu), Err(Error::BadNumber));
    assert_eq!(json_var(&empty, &fpu), Err(Error::BadNumber));
    assert_eq!(json_dev(&empty, &fpu), Err(Error::BadNumber));
}

#[test]
fn a_number_is_its_own_aggregate() {
    let seven = json("7");
    assert_eq!(json_sum(&seven, &fpu), Ok(json("7")));
    assert_eq!(json_avg(&seven, &fpu), Ok(json("7")));
    assert_eq!(json_var(&seven, &fpu), Ok(json("7")));
    assert_eq!(json_dev(&seven, &fpu), Ok(json("7")));
    assert_eq!(json_max(&seven, &fpu), Ok(json("7")));
    assert_eq!(json_min(&seven, &fpu), Ok(json("7")));
    assert_eq!(json_first(&seven), Ok(json("7")));
    assert_eq!(json_last(&seven), Ok(json("7")));
}

#[test]
fn other_values_have_no_aggregate() {
    for text in ["\"a\"", "true", "null", "{\"a\":1}"] {
        let val = json(text);
        assert_eq!(json_sum(&val, &fpu), Err(Error::BadType));
        assert_eq!(json_avg(&val, &fpu), Err(Error::BadType));
        assert_eq!(json_var(&val, &fpu), Err(Error::BadType));
        assert_eq!(json_dev(&val, &fpu), Err(Error::BadType));
        assert_eq!(json_max(&val, &fpu), Err(Error::BadType));
        assert_eq!(json_min(&val, &fpu), Err(Error::BadType));
        assert_eq!(json_first(&val), Err(Error::BadType));
        assert_eq!(json_last(&val), Err(Error::BadType));
    }
}

#[test]
fn an_element_that_is_no_number_spoils_the_aggregate() {
    let mixed = json("[1,\"a\",3]");
    assert_eq!(json_sum(&mixed, &fpu), Err(Error::BadNumber));
    assert_eq!(json_avg(&mixed, &fpu), Err(Error::BadNumber));
    assert_eq!(json_var(&mixed, &fpu), Err(Error::BadNumber));
    assert_eq!(json_dev(&mixed, &fpu), Err(Error::BadNumber));
    assert_eq!(json_max(&mixed, &fpu), Err(Error::BadType));
    assert_eq!(json_min(&mixed, &fpu), Err(Error::BadType));
    assert_eq!(json_max(&json("[\"a\"]"), &fpu), Err(Error::BadType));
    assert_eq!(json_first(&mixed), Ok(json("1")));
    assert_eq!(json_last(&json("[1,\"a\"]")), Ok(json("\"a\"")));
}

#[test]
fn sum_and_mean_of_numbers() {
    assert_eq!(json_sum(&json("[1,2,3.5]"), &fpu), Ok(json("6.5")));
    assert_eq!(json_avg(&json("[1,2,3,4]"), &fpu), Ok(json("2.5")));
    assert_eq!(json_sum(&json("[1e308,1e308]"), &fpu), Err(Error::BadNumber));
}

#[test]
fn variance_divides_the_sum_by_one_less_than_the_count() {
    // sum 10, divided by 3; squares of the distances from that, divided by 4
    let mean = 10.0f64 / 3.0;
    let mut squares = 0.0f64;
    for x in [1.0f64, 2.0, 3.0, 4.0] {
        squares += (x - mean) * (x - mean);
    }
    let expected = JsonVal::Number(Number::from_f64(squares / 4.0).unwrap());
    assert_eq!(json_var(&json("[1,2,3,4]"), &fpu), Ok(expected));
    assert_eq!(json_var(&json("[2,4]"), &fpu), Ok(json("10.0")));
    assert_eq!(json_var(&json("[5]"), &fpu), Err(Error::BadNumber));
}

#[test]
fn deviation_is_the_root_of_the_mean_square_distance() {
    assert_eq!(json_dev(&json("[2,4,4,4,5,5,7,9]"), &fpu), Ok(json("2.0")));
    assert_eq!(json_dev(&json("[3]"), &fpu), Ok(json("0.0")));
}

#[test]
fn greatest_and_least_are_floats() {
    assert_eq!(json_max(&json("[3,9,2]"), &fpu), Ok(json("9.0")));
    assert_eq!(json_min(&json("[3,9,2]"), &fpu), Ok(json("2.0")));
    assert_eq!(json_max(&json("[-1.5]"), &fpu), Ok(json("-1.5")));
    let arr = match json("[4,8]") {
        JsonVal::Array(a) => a,
        _ => unreachable!(),
    };
    assert_eq!(arr_max(&arr, &fpu), Ok(Some(json("8.0"))));
    assert_eq!(arr_min(&arr, &fpu), Ok(Some(json("4.0"))));
    assert_eq!(arr_max(&Vec::new(), &fpu), Ok(None));
    assert_eq!(arr_min(&Vec::new(), &fpu), Ok(None));
}

#[test]
fn first_and_last_hand_back_the_elements_themselves() {
    assert_eq!(json_first(&json("[\"a\",2,[3]]")), Ok(json("\"a\"")));
    assert_eq!(json_last(&json("[\"a\",2,[3]]")), Ok(json("[3]")));
}

#[test]
fn a_unit_that_gives_no_number_makes_null_or_a_bad_number() {
    let broken = |_c: Calc| -> Option<Number> { None };
    assert_eq!(json_add(&json("1"), &json("2"), &broken), Ok(JsonVal::Null));
    assert_eq!(json_sum(&json("[1]"), &broken), Err(Error::BadNumber));
    assert_eq!(json_max(&json("[1,2]"), &broken), Ok(JsonVal::Null));
}
