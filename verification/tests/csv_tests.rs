use datamorph::csv_adapter::{value_to_string, CsvAdapter, CsvProbeResult};
use datamorph::error::DataMorphError;
use datamorph::value::Value;
use datamorph::value_ops::object_insert;

fn read_float(s: &str) -> Option<u64> {
    s.parse::<f64>().ok().map(|f| f.to_bits())
}

fn write_float(b: u64) -> String {
    f64::from_bits(b).to_string()
}

fn s(t: &str) -> Value {
    Value::String(t.to_string())
}

fn object(entries: Vec<(&str, Value)>) -> Value {
    let mut m: Vec<(String, Value)> = Vec::new();
    for (k, v) in entries {
        object_insert(&mut m, k.to_string(), v);
    }
    Value::Object(m)
}

fn entries(v: &Value) -> &Vec<(String, Value)> {
    match v {
        Value::Object(m) => m,
        other => panic!("Expected Object, got {:?}", other),
    }
}

fn items(v: &Value) -> &Vec<Value> {
    match v {
        Value::Array(a) => a,
        other => panic!("Expected Array, got {:?}", other),
    }
}

#[test]
fn new_adapter_defaults() {
    let a = CsvAdapter::new();
    assert_eq!(a.delimiter, b',');
    assert!(a.has_header);
    assert_eq!(a.quote, b'"');
}

#[test]
fn infer_type_of_each_kind() {
    assert!(matches!(CsvAdapter::infer_type("", &read_float), Value::String(t) if t.is_empty()));
    assert!(matches!(CsvAdapter::infer_type("42", &read_float), Value::Integer(42)));
    assert!(matches!(CsvAdapter::infer_type("+7", &read_float), Value::Integer(7)));
    assert!(matches!(CsvAdapter::infer_type("-13", &read_float), Value::Integer(-13)));
    assert!(matches!(CsvAdapter::infer_type("1.5", &read_float), Value::Float(b) if b == 1.5f64.to_bits()));
    assert!(matches!(CsvAdapter::infer_type("1e3", &read_float), Value::Float(b) if b == 1000.0f64.to_bits()));
    assert!(matches!(CsvAdapter::infer_type("true", &read_float), Value::Bool(true)));
    assert!(matches!(CsvAdapter::infer_type("false", &read_float), Value::Bool(false)));
    assert!(matches!(CsvAdapter::infer_type("True", &read_float), Value::String(t) if t == "True"));
    assert!(matches!(CsvAdapter::infer_type("abc", &read_float), Value::String(t) if t == "abc"));
    assert!(matches!(
        CsvAdapter::infer_type("99999999999999999999", &read_float),
        Value::Float(b) if b == 99999999999999999999f64.to_bits()
    ));
}

#[test]
fn parse_rows_into_objects_with_inferred_types() {
    let v = CsvAdapter::new().parse("name,age,score\nAlice,30,9.5\nBob,25,\n", &read_float).unwrap();
    let rows = items(&v);
    assert_eq!(rows.len(), 2);
    let first = entries(&rows[0]);
    let keys: Vec<&str> = first.iter().map(|(k, _)| k.as_str()).collect();
    assert_eq!(keys, vec!["age", "name", "score"]);
    assert!(matches!(first[0].1, Value::Integer(30)));
    assert!(matches!(&first[1].1, Value::String(t) if t == "Alice"));
    assert!(matches!(first[2].1, Value::Float(b) if b == 9.5f64.to_bits()));
    let second = entries(&rows[1]);
    assert!(matches!(&second[2].1, Value::String(t) if t.is_empty()));
}

#[test]
fn parse_without_header_names_columns_by_position() {
    let a = CsvAdapter { delimiter: b';', has_header: false, quote: b'"' };
    let v = a.parse("1;x\n2;y\n", &read_float).unwrap();
    let rows = items(&v);
    assert_eq!(rows.len(), 2);
    let keys: Vec<&str> = entries(&rows[0]).iter().map(|(k, _)| k.as_str()).collect();
    assert_eq!(keys, vec!["column0", "column1"]);
}

#[test]
fn parse_longer_row_than_header_gets_column_keys() {
    let v = CsvAdapter::new().parse("a\n1,2,3\n", &read_float).unwrap();
    let rows = items(&v);
    let keys: Vec<&str> = entries(&rows[0]).iter().map(|(k, _)| k.as_str()).collect();
    assert_eq!(keys, vec!["a", "column1", "column2"]);
}

#[test]
fn parse_repeated_header_keeps_later_field() {
    let v = CsvAdapter::new().parse("a,a\n1,2\n", &read_float).unwrap();
    let row = entries(&items(&v)[0]);
    assert_eq!(row.len(), 1);
    assert!(matches!(row[0].1, Value::Integer(2)));
}

#[test]
fn parse_header_only_gives_empty_array() {
    let v = CsvAdapter::new().parse("a,b\n", &read_float).unwrap();
    assert_eq!(items(&v).len(), 0);
}

#[test]
fn serialize_writes_header_then_rows() {
    let v = Value::Array(vec![
        object(vec![("a", Value::Integer(1)), ("b", s("x"))]),
        object(vec![("a", Value::Integer(2)), ("b", s("y, z"))]),
    ]);
    let out = CsvAdapter::new().serialize(&v, &write_float).unwrap();
    assert_eq!(out, "a,b\n1,x\n2,\"y, z\"\n");
}

#[test]
fn serialize_missing_keys_and_non_objects_give_empty_cells() {
    let v = Value::Array(vec![
        object(vec![("a", Value::Integer(1)), ("b", Value::Bool(true))]),
        object(vec![("b", Value::Float(2.5f64.to_bits()))]),
        Value::Integer(3),
    ]);
    let rows = CsvAdapter::new().table(&v, &write_float).unwrap();
    assert_eq!(
        rows,
        vec![
            vec!["a".to_string(), "b".to_string()],
            vec!["1".to_string(), "true".to_string()],
            vec!["".to_string(), "2.5".to_string()],
            vec!["".to_string(), "".to_string()],
        ]
    );
}

#[test]
fn serialize_empty_array_is_empty_text() {
    let out = CsvAdapter::new().serialize(&Value::Array(vec![]), &write_float).unwrap();
    assert_eq!(out, "");
}

#[test]
fn serialize_errors() {
    match CsvAdapter::new().serialize(&object(vec![]), &write_float) {
        Err(DataMorphError::SerializeError { format, source }) => {
            assert_eq!(format, "CSV");
            assert_eq!(source, "CSV root must be an array");
        }
        _ => panic!("Expected SerializeError"),
    }
    match CsvAdapter::new().serialize(&Value::Array(vec![Value::Integer(1)]), &write_float) {
        Err(DataMorphError::SerializeError { format, source }) => {
            assert_eq!(format, "CSV");
            assert_eq!(source, "CSV array elements must be objects");
        }
        _ => panic!("Expected SerializeError"),
    }
}

#[test]
fn cell_texts() {
    assert_eq!(value_to_string(&Value::Null, &write_float), "");
    assert_eq!(value_to_string(&Value::Bool(false), &write_float), "false");
    assert_eq!(value_to_string(&Value::Integer(-5), &write_float), "-5");
    assert_eq!(value_to_string(&Value::Integer(i64::MIN), &write_float), "-9223372036854775808");
    assert_eq!(value_to_string(&Value::Float(0.25f64.to_bits()), &write_float), "0.25");
    assert_eq!(value_to_string(&s("t"), &write_float), "t");
    assert_eq!(value_to_string(&Value::Array(vec![Value::Null]), &write_float), "[]");
    assert_eq!(value_to_string(&object(vec![("k", Value::Null)]), &write_float), "{}");
}

#[test]
fn integers_round_trip_through_csv() {
    let v = Value::Array(vec![
        object(vec![("n", Value::Integer(i64::MIN))]),
        object(vec![("n", Value::Integer(0))]),
        object(vec![("n", Value::Integer(i64::MAX))]),
    ]);
    let out = CsvAdapter::new().serialize(&v, &write_float).unwrap();
    let back = CsvAdapter::new().parse(&out, &read_float).unwrap();
    let rows = items(&back);
    assert_eq!(rows.len(), 3);
    assert!(matches!(entries(&rows[0])[0].1, Value::Integer(i64::MIN)));
    assert!(matches!(entries(&rows[1])[0].1, Value::Integer(0)));
    assert!(matches!(entries(&rows[2])[0].1, Value::Integer(i64::MAX)));
}

#[test]
fn probe_finds_delimiter_and_header() {
    let r = CsvAdapter::probe("name,age\nAlice,30\n", &read_float);
    assert_eq!(r, CsvProbeResult { delimiter: b',', has_delimiter: true, has_header: true });
    let r = CsvAdapter::probe("1;2;3\n4;5;6\n", &read_float);
    assert_eq!(r, CsvProbeResult { delimiter: b';', has_delimiter: true, has_header: false });
    let r = CsvAdapter::probe("a\tb|c\td\n", &read_float);
    assert_eq!(r.delimiter, b'\t');
    let r = CsvAdapter::probe("First Name|x\n", &read_float);
    assert_eq!(r, CsvProbeResult { delimiter: b'|', has_delimiter: true, has_header: true });
}

#[test]
fn probe_ties_go_to_the_later_delimiter() {
    let r = CsvAdapter::probe("a,b;c\n", &read_float);
    assert_eq!(r.delimiter, b';');
}

#[test]
fn probe_without_delimiter_or_lines() {
    assert_eq!(CsvAdapter::probe("", &read_float), CsvProbeResult::default());
    let r = CsvAdapter::probe("Hello\n", &read_float);
    assert_eq!(r, CsvProbeResult { delimiter: b',', has_delimiter: false, has_header: true });
    let r = CsvAdapter::probe("12\n", &read_float);
    assert_eq!(r, CsvProbeResult { delimiter: b',', has_delimiter: false, has_header: false });
}

#[test]
fn probe_refuses_an_empty_first_field() {
    assert!(CsvAdapter::try_probe("a,,b\n", &read_float).is_none());
    assert!(CsvAdapter::try_probe("a,c,b\n", &read_float).is_some());
}

#[test]
fn probe_default_values() {
    let d = CsvProbeResult::default();
    assert_eq!(d.delimiter, b',');
    assert!(!d.has_delimiter);
    assert!(d.has_header);
}
