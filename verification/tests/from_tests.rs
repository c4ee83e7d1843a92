use core::cmp::Ordering;

use edn::{FloatLit, Value};

#[test]
fn from_bool() {
    assert_eq!(Value::from(true), Value::Boolean(true));
    assert_eq!(Value::from(false), Value::Boolean(false));
}

#[test]
fn from_str() {
    assert_eq!(Value::from(""), Value::String("".to_string()));
    assert_eq!(Value::from("hello"), Value::String("hello".to_string()));
}

#[test]
fn from_string() {
    assert_eq!(Value::from("".to_string()), Value::String("".to_string()));
    assert_eq!(
        Value::from("hello".to_string()),
        Value::String("hello".to_string())
    );
}

#[test]
fn from_char() {
    assert_eq!(Value::from('c'), Value::Char('c'));
}

#[test]
fn from_num() {
    assert_eq!(Value::from(0_i64), Value::Integer(0));
    assert_eq!(Value::from(0), Value::Integer(0));
    assert_eq!(Value::from(-1), Value::Integer(-1));
}

fn float(negative: bool, whole: &str, frac: &str) -> Value {
    Value::Float(FloatLit {
        negative,
        whole: whole.to_string(),
        frac: frac.to_string(),
    })
}

#[test]
fn test_compare_total_order() {
    // Variants rank before payloads: nil < booleans < ... < tagged.
    assert_eq!(Value::Nil.compare(&Value::Boolean(false)), Ordering::Less);
    assert_eq!(
        Value::Boolean(false).compare(&Value::Boolean(true)),
        Ordering::Less
    );
    assert_eq!(
        Value::Keyword("foo".into()).compare(&Value::Integer(1)),
        Ordering::Less
    );
    assert_eq!(
        Value::Integer(2).compare(&Value::Integer(10)),
        Ordering::Less
    );
    assert_eq!(
        Value::Symbol("abc".into()).compare(&Value::Symbol("abd".into())),
        Ordering::Less
    );
    assert_eq!(
        Value::Symbol("ab".into()).compare(&Value::Symbol("ab".into())),
        Ordering::Equal
    );
}

#[test]
fn test_compare_floats() {
    // The float order is sign first, then exact decimal magnitude; the
    // negative zero sorts strictly below the positive one, as in a
    // bit-level total order.
    assert_eq!(
        float(true, "0", "").compare(&float(false, "0", "")),
        Ordering::Less
    );
    assert_eq!(
        float(false, "0", "45").compare(&float(false, "0", "5")),
        Ordering::Less
    );
    assert_eq!(
        float(false, "0", "5").compare(&float(false, "0", "55")),
        Ordering::Less
    );
    assert_eq!(
        float(false, "9", "9").compare(&float(false, "10", "")),
        Ordering::Less
    );
    assert_eq!(
        float(true, "2", "").compare(&float(true, "1", "")),
        Ordering::Less
    );
    assert_eq!(
        float(false, "1", "5").compare(&float(false, "1", "5")),
        Ordering::Equal
    );
}
