use rlox::object::allocateString;
use rlox::object::copyString;
use rlox::object::printObject;
use rlox::object::takeString;
use rlox::object::Obj;
use rlox::object::ObjString;
use rlox::object::ObjTrait;
use rlox::object::AS_STRING;
use rlox::object::AS_STRING_MUT;
use rlox::object::IS_STRING;
use rlox::text::Fragment;
use rlox::value::initValueArray;
use rlox::value::numberGreater;
use rlox::value::numberIsNan;
use rlox::value::numberLess;
use rlox::value::numberNegate;
use rlox::value::numbersEqual;
use rlox::value::printValue;
use rlox::value::valuesEqual;
use rlox::value::writeValueArray;
use rlox::value::Value;
use rlox::value::AS_BOOL;
use rlox::value::AS_NUMBER;
use rlox::value::AS_OBJ;
use rlox::value::IS_NIL;
use rlox::value::IS_NUMBER;
use rlox::value::IS_OBJ;

fn number(n: f64) -> Value {
    Value::NUMBER(n.to_bits())
}

fn string(s: &str) -> Value {
    Obj::VAL(takeString(String::from(s)))
}

fn samples() -> Vec<f64> {
    vec![
        0.0,
        -0.0,
        1.0,
        -1.0,
        1.5,
        -1.5,
        2.0,
        3.0e10,
        -3.0e10,
        5e-324,
        -5e-324,
        2.2250738585072014e-308,
        f64::MIN_POSITIVE / 2.0,
        f64::MAX,
        f64::MIN,
        f64::INFINITY,
        f64::NEG_INFINITY,
        f64::NAN,
        -f64::NAN,
        f64::from_bits(0x7ff0_0000_0000_0001),
        f64::from_bits(0xfff8_0000_0000_0001),
        f64::EPSILON,
        0.1 + 0.2,
        0.3,
    ]
}

#[test]
fn number_comparisons_are_those_of_the_numbers() {
    for a in samples() {
        for b in samples() {
            assert_eq!(numbersEqual(a.to_bits(), b.to_bits()), a == b, "{} == {}", a, b);
            assert_eq!(numberLess(a.to_bits(), b.to_bits()), a < b, "{} < {}", a, b);
            assert_eq!(numberGreater(a.to_bits(), b.to_bits()), a > b, "{} > {}", a, b);
        }
    }
}

#[test]
fn number_negation_is_that_of_the_number() {
    for a in samples() {
        assert_eq!(numberNegate(a.to_bits()), (-a).to_bits(), "-{}", a);
        assert_eq!(numberIsNan(a.to_bits()), a.is_nan(), "{}", a);
    }
}

#[test]
fn nan_equals_nothing() {
    let nan = f64::NAN.to_bits();
    assert!(!numbersEqual(nan, nan));
    assert!(!valuesEqual(&Value::NUMBER(nan), &Value::NUMBER(nan)));
}

#[test]
fn zeros_are_equal() {
    assert!(valuesEqual(&number(0.0), &number(-0.0)));
    assert!(!numberLess((-0.0f64).to_bits(), 0.0f64.to_bits()));
}

#[test]
fn values_of_one_variant_compare_by_payload() {
    assert!(valuesEqual(&Value::NIL, &Value::NIL));
    assert!(valuesEqual(&Value::BOOL(true), &Value::BOOL(true)));
    assert!(!valuesEqual(&Value::BOOL(true), &Value::BOOL(false)));
    assert!(valuesEqual(&number(1.5), &number(1.5)));
    assert!(!valuesEqual(&number(1.5), &number(2.5)));
    assert!(valuesEqual(&string("abc"), &string("abc")));
    assert!(!valuesEqual(&string("abc"), &string("abd")));
    assert!(valuesEqual(&string(""), &string("")));
}

#[test]
fn values_of_different_variants_are_not_equal() {
    assert!(!valuesEqual(&number(1.0), &Value::BOOL(true)));
    assert!(!valuesEqual(&Value::NIL, &Value::BOOL(false)));
    assert!(!valuesEqual(&number(0.0), &Value::NIL));
    assert!(!valuesEqual(&string("1"), &number(1.0)));
    assert!(!valuesEqual(&string("nil"), &Value::NIL));
    assert!(!valuesEqual(&string("true"), &Value::BOOL(true)));
}

#[test]
fn accessors_tell_the_variants_apart() {
    assert_eq!(AS_BOOL(&Value::BOOL(true)), Some(true));
    assert_eq!(AS_BOOL(&Value::NIL), None);
    assert_eq!(AS_BOOL(&number(1.0)), None);
    assert!(IS_NIL(&Value::NIL));
    assert!(!IS_NIL(&Value::BOOL(false)));
    assert_eq!(AS_NUMBER(&number(2.5)), Some(2.5f64.to_bits()));
    assert_eq!(AS_NUMBER(&Value::NIL), None);
    assert!(IS_NUMBER(&number(0.0)));
    assert!(!IS_NUMBER(&string("0")));
    assert!(IS_OBJ(&string("a")));
    assert!(!IS_OBJ(&number(1.0)));
    assert!(AS_OBJ(&Value::NIL).is_none());
    assert!(matches!(AS_OBJ(&string("a")), Some(Obj::STRING(_))));
    assert!(IS_STRING(&string("a")));
    assert!(!IS_STRING(&Value::BOOL(true)));
    assert_eq!(AS_STRING(&string("abc")).unwrap().str(), "abc");
    assert!(AS_STRING(&number(1.0)).is_none());
}

#[test]
fn a_string_is_changed_in_place() {
    let mut value = string("ab");
    AS_STRING_MUT(&mut value).unwrap().s.push('c');
    assert_eq!(AS_STRING(&value).unwrap().str(), "abc");
    *AS_STRING_MUT(&mut value).unwrap() = takeString(String::from("new"));
    assert!(valuesEqual(&value, &string("new")));
    let mut other = number(1.0);
    assert!(AS_STRING_MUT(&mut other).is_none());
    assert!(valuesEqual(&other, &number(1.0)));
    assert!(AS_STRING_MUT(&mut Value::NIL).is_none());
}

#[test]
fn string_objects_hold_their_text() {
    assert_eq!(allocateString(String::from("abc")).str(), "abc");
    assert_eq!(takeString(String::from("")).str(), "");
    assert_eq!(copyString("string", 2).str(), "st");
    assert_eq!(copyString("string", 0).str(), "");
    assert_eq!(copyString("string", 6).str(), "string");
    assert_eq!(copyString("\u{e9}t\u{e9}", 3).str(), "\u{e9}t");
    let object = ObjString { s: String::from("xyz") };
    assert_eq!(object.clone().str(), "xyz");
    assert_eq!(printObject(&Obj::STRING(object)), "xyz");
}

#[test]
fn value_arrays_grow_at_the_end() {
    let mut array = initValueArray();
    assert_eq!(array.count(), 0);
    writeValueArray(&mut array, number(1.0));
    writeValueArray(&mut array, Value::NIL);
    writeValueArray(&mut array, string("s"));
    assert_eq!(array.count(), 3);
    assert!(valuesEqual(&array.values[0], &number(1.0)));
    assert!(valuesEqual(&array.values[1], &Value::NIL));
    assert!(valuesEqual(&array.values[2], &string("s")));
}

fn shown(value: &Value) -> String {
    match printValue(value) {
        Fragment::Text(text) => text,
        Fragment::Number(bits) => format!("{}", f64::from_bits(bits)),
    }
}

#[test]
fn values_print_in_their_natural_form() {
    assert_eq!(shown(&Value::NIL), "nil");
    assert_eq!(shown(&Value::BOOL(true)), "true");
    assert_eq!(shown(&Value::BOOL(false)), "false");
    assert_eq!(shown(&string("raw text")), "raw text");
    assert_eq!(shown(&number(3.0)), "3");
    assert_eq!(shown(&number(2.5)), "2.5");
    assert!(matches!(printValue(&number(2.5)), Fragment::Number(bits) if bits == 2.5f64.to_bits()));
}

#[test]
fn the_equality_operator_is_that_of_the_values() {
    assert!(number(1.0) == number(1.0));
    assert!(number(0.0) == number(-0.0));
    assert!(number(f64::NAN) != number(f64::NAN));
    assert!(number(1.0) != Value::BOOL(true));
    assert!(string("a") == string("a"));
    assert!(string("a") != string("b"));
    assert!(Value::NIL == Value::NIL);
    assert!(Obj::STRING(takeString(String::from("x"))) == Obj::STRING(allocateString(String::from("x"))));
    assert!(takeString(String::from("x")) != takeString(String::from("y")));
}

#[test]
fn clones_are_equal() {
    for value in [Value::NIL, Value::BOOL(false), number(7.25), string("copy")] {
        assert!(valuesEqual(&value.clone(), &value));
    }
}
