use datamorph::adapters::Adapter;
use datamorph::error::DataMorphError;
use datamorph::value::Value;

fn read_float(s: &str) -> Option<u64> {
    s.parse::<f64>().ok().map(|f| f.to_bits())
}

fn write_float(b: u64) -> String {
    f64::from_bits(b).to_string()
}

fn failing_reader(_: Adapter, _: &str) -> Result<Value, String> {
    Err("boom".to_string())
}

fn echo_reader(_: Adapter, input: &str) -> Result<Value, String> {
    Ok(Value::String(input.to_string()))
}

fn failing_writer(_: Adapter, _: &Value) -> Result<String, String> {
    Err("cannot".to_string())
}

fn named_writer(a: Adapter, _: &Value) -> Result<String, String> {
    Ok(a.name().to_lowercase())
}

fn keys_and_ints(v: &Value) -> Vec<Vec<(String, String)>> {
    match v {
        Value::Array(rows) => rows
            .iter()
            .map(|r| match r {
                Value::Object(m) => m
                    .iter()
                    .map(|(k, x)| {
                        let t = match x {
                            Value::Integer(i) => i.to_string(),
                            Value::String(s) => s.clone(),
                            other => format!("{:?}", other),
                        };
                        (k.clone(), t)
                    })
                    .collect(),
                _ => panic!("Expected Object"),
            })
            .collect(),
        _ => panic!("Expected Array"),
    }
}

fn pairs(items: &[(&str, &str)]) -> Vec<(String, String)> {
    items.iter().map(|(a, b)| (a.to_string(), b.to_string())).collect()
}

#[test]
fn csv_is_read_by_the_library_with_a_probed_header() {
    let v = Adapter::Csv.parse("name,id\nAl,1\n", &failing_reader, &read_float).unwrap();
    assert_eq!(keys_and_ints(&v), vec![pairs(&[("id", "1"), ("name", "Al")])]);
}

#[test]
fn csv_delimiter_is_probed() {
    let v = Adapter::Csv.parse("name;age\nAl;3\n", &failing_reader, &read_float).unwrap();
    assert_eq!(keys_and_ints(&v), vec![pairs(&[("age", "3"), ("name", "Al")])]);
    let v = Adapter::Csv.parse("a;b\n1;2\n", &failing_reader, &read_float).unwrap();
    assert_eq!(
        keys_and_ints(&v),
        vec![pairs(&[("column0", "a"), ("column1", "b")]), pairs(&[("column0", "1"), ("column1", "2")])]
    );
}

#[test]
fn csv_numeric_first_row_is_no_header() {
    let v = Adapter::Csv.parse("1,2\n3,4\n", &failing_reader, &read_float).unwrap();
    assert_eq!(
        keys_and_ints(&v),
        vec![pairs(&[("column0", "1"), ("column1", "2")]), pairs(&[("column0", "3"), ("column1", "4")])]
    );
}

#[test]
fn csv_with_an_empty_first_field_is_read_with_defaults() {
    let v = Adapter::Csv.parse("a,,b\n1,2,3\n", &failing_reader, &read_float).unwrap();
    assert_eq!(keys_and_ints(&v).len(), 1);
}

#[test]
fn other_formats_are_read_by_the_reader() {
    assert!(matches!(
        Adapter::Toml.parse("k = 1", &echo_reader, &read_float),
        Ok(Value::String(t)) if t == "k = 1"
    ));
    for (a, name) in [(Adapter::Json, "JSON"), (Adapter::Yaml, "YAML"), (Adapter::Toml, "TOML")] {
        match a.parse("x", &failing_reader, &read_float) {
            Err(DataMorphError::ParseError { format, source }) => {
                assert_eq!(format, name);
                assert_eq!(source, "boom");
            }
            _ => panic!("Expected ParseError"),
        }
    }
}

#[test]
fn csv_is_written_by_the_library() {
    let v = Value::Array(vec![Value::Object(vec![("k".to_string(), Value::Integer(5))])]);
    assert_eq!(Adapter::Csv.serialize(&v, &failing_writer, &write_float).unwrap(), "k\n5\n");
    match Adapter::Csv.serialize(&Value::Null, &named_writer, &write_float) {
        Err(DataMorphError::SerializeError { format, source }) => {
            assert_eq!(format, "CSV");
            assert_eq!(source, "CSV root must be an array");
        }
        _ => panic!("Expected SerializeError"),
    }
}

#[test]
fn other_formats_are_written_by_the_writer() {
    assert_eq!(Adapter::Yaml.serialize(&Value::Null, &named_writer, &write_float).unwrap(), "yaml");
    match Adapter::Json.serialize(&Value::Null, &failing_writer, &write_float) {
        Err(DataMorphError::SerializeError { format, source }) => {
            assert_eq!(format, "JSON");
            assert_eq!(source, "cannot");
        }
        _ => panic!("Expected SerializeError"),
    }
}
