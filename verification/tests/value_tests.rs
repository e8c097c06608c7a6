use datamorph::value::Value;
use datamorph::value_ops::{bits_eq, bits_is_nan, bits_is_zero, find_entry, object_insert, text_less, values_equal};

fn keys(m: &Vec<(String, Value)>) -> Vec<&str> {
    m.iter().map(|(k, _)| k.as_str()).collect()
}

fn int_at(m: &Vec<(String, Value)>, key: &str) -> Option<i64> {
    match find_entry(m, &key.to_string()) {
        Some(i) => match m[i].1 {
            Value::Integer(n) => Some(n),
            _ => None,
        },
        None => None,
    }
}

#[test]
fn insert_keeps_keys_ascending() {
    let mut m: Vec<(String, Value)> = Vec::new();
    for k in ["pear", "apple", "zebra", "b", "a", "ab"] {
        object_insert(&mut m, k.to_string(), Value::Null);
    }
    assert_eq!(keys(&m), vec!["a", "ab", "apple", "b", "pear", "zebra"]);
}

#[test]
fn insert_order_does_not_matter() {
    let mut m1: Vec<(String, Value)> = Vec::new();
    object_insert(&mut m1, "x".to_string(), Value::Integer(1));
    object_insert(&mut m1, "y".to_string(), Value::Integer(2));
    let mut m2: Vec<(String, Value)> = Vec::new();
    object_insert(&mut m2, "y".to_string(), Value::Integer(2));
    object_insert(&mut m2, "x".to_string(), Value::Integer(1));
    assert!(values_equal(&Value::Object(m1), &Value::Object(m2)));
}

#[test]
fn insert_twice_keeps_the_later_value() {
    let mut m: Vec<(String, Value)> = Vec::new();
    object_insert(&mut m, "k".to_string(), Value::Integer(1));
    object_insert(&mut m, "k".to_string(), Value::Integer(2));
    assert_eq!(m.len(), 1);
    assert_eq!(int_at(&m, "k"), Some(2));
}

#[test]
fn lookup_after_insert() {
    let mut m: Vec<(String, Value)> = Vec::new();
    object_insert(&mut m, "a".to_string(), Value::Integer(1));
    object_insert(&mut m, "c".to_string(), Value::Integer(3));
    object_insert(&mut m, "b".to_string(), Value::Integer(2));
    assert_eq!(int_at(&m, "b"), Some(2));
    assert_eq!(int_at(&m, "a"), Some(1));
    assert_eq!(int_at(&m, "c"), Some(3));
    assert_eq!(int_at(&m, "d"), None);
}

#[test]
fn code_point_order_of_texts() {
    assert!(text_less("a", "b"));
    assert!(text_less("", "a"));
    assert!(text_less("ab", "abc"));
    assert!(!text_less("abc", "ab"));
    assert!(!text_less("same", "same"));
    assert!(text_less("Z", "a"));
    assert!(text_less("z", "é"));
}

#[test]
fn equality_of_values() {
    let a = Value::Array(vec![Value::Integer(1), Value::String("x".to_string())]);
    let b = Value::Array(vec![Value::Integer(1), Value::String("x".to_string())]);
    let c = Value::Array(vec![Value::Integer(1)]);
    assert!(values_equal(&a, &a));
    assert!(values_equal(&a, &b));
    assert!(values_equal(&b, &a));
    assert!(!values_equal(&a, &c));
    assert!(!values_equal(&c, &a));
    assert!(!values_equal(&Value::Integer(1), &Value::Float(1.0f64.to_bits())));
    let zero = Value::Float(0.0f64.to_bits());
    let neg_zero = Value::Float((-0.0f64).to_bits());
    assert!(values_equal(&zero, &neg_zero));
    let nan = Value::Float(f64::NAN.to_bits());
    assert!(!values_equal(&nan, &nan));
}

#[test]
fn float_bit_tests() {
    assert!(bits_is_nan(f64::NAN.to_bits()));
    assert!(!bits_is_nan(f64::INFINITY.to_bits()));
    assert!(bits_is_zero((-0.0f64).to_bits()));
    assert!(!bits_is_zero(f64::MIN_POSITIVE.to_bits()));
    assert!(bits_eq(2.5f64.to_bits(), 2.5f64.to_bits()));
    assert!(!bits_eq(2.5f64.to_bits(), 3.5f64.to_bits()));
}

#[test]
fn copies_denote_the_same_document() {
    let mut m: Vec<(String, Value)> = Vec::new();
    object_insert(&mut m, "list".to_string(), Value::Array(vec![Value::Bool(true), Value::Null]));
    let v = Value::Object(m);
    let c = v.clone();
    assert!(values_equal(&v, &c));
    let d = v.deep_copy();
    assert!(values_equal(&d, &v));
}
