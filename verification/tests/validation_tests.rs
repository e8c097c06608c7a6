use datamorph::error::DataMorphError;
use datamorph::validation::{report_schema_errors, SchemaValidator};
use datamorph::value::Value;
use serde_json::Value as JsonValue;

fn json(text: &str) -> JsonValue {
    serde_json::from_str(text).unwrap()
}

#[test]
fn test_schema_validation_valid() {
    let schema = json(
        r#"{
            "type": "object",
            "properties": {
                "name": { "type": "string" },
                "age": { "type": "integer", "minimum": 0 }
            },
            "required": ["name"]
        }"#,
    );

    let validator = SchemaValidator::from_str(&serde_json::to_string(&schema).unwrap()).unwrap();

    let instance = json(r#"{ "name": "Alice", "age": 30 }"#);

    assert!(validator.validate(&instance).is_ok());
}

#[test]
fn test_schema_validation_invalid() {
    let schema = json(
        r#"{
            "type": "object",
            "properties": {
                "age": { "type": "integer", "minimum": 0 }
            }
        }"#,
    );

    let validator = SchemaValidator::from_str(&serde_json::to_string(&schema).unwrap()).unwrap();

    let instance = json(r#"{ "age": -5 }"#);

    let result = validator.validate(&instance);
    assert!(result.is_err());
    let err_msg = result.err().unwrap().message();
    assert!(err_msg.contains("Schema validation failed"));
    assert!(err_msg.contains("minimum"));
}

#[test]
fn test_schema_missing_required() {
    let schema = json(
        r#"{
            "type": "object",
            "properties": {
                "name": { "type": "string" }
            },
            "required": ["name"]
        }"#,
    );

    let validator = SchemaValidator::from_str(&serde_json::to_string(&schema).unwrap()).unwrap();

    let instance = json("{}");

    let result = validator.validate(&instance);
    assert!(result.is_err());
    let err_msg = result.err().unwrap().message();
    assert!(err_msg.contains("required"));
}

#[test]
fn schema_that_is_no_json_is_a_parse_error() {
    match SchemaValidator::from_str("{ not json") {
        Err(DataMorphError::ParseError { format, source }) => {
            assert_eq!(format, "JSON Schema");
            assert!(!source.is_empty());
        }
        _ => panic!("Expected ParseError"),
    }
}

#[test]
fn schema_that_does_not_compile_is_a_validation_error() {
    match SchemaValidator::from_str(r#"{ "type": 12 }"#) {
        Err(DataMorphError::SchemaValidationError(m)) => assert!(!m.is_empty()),
        Err(e) => panic!("Unexpected error {:?}", e),
        Ok(_) => panic!("Expected an error"),
    }
}

#[test]
fn report_lists_each_error_on_its_own_line() {
    assert!(report_schema_errors(&vec![]).is_ok());
    match report_schema_errors(&vec!["first".to_string(), "second ".to_string()]) {
        Err(DataMorphError::SchemaValidationError(m)) => {
            assert_eq!(m, "Schema validation failed:\n  • first\n  • second");
        }
        _ => panic!("Expected SchemaValidationError"),
    }
}

#[test]
fn error_messages() {
    let e = DataMorphError::SchemaValidationError("bad".to_string());
    assert_eq!(e.message(), "Schema validation error: bad");
    let e = DataMorphError::ParseError { format: "JSON".to_string(), source: "eof".to_string() };
    assert_eq!(e.message(), "Parse error (JSON): eof");
    let e = DataMorphError::SerializeError { format: "CSV".to_string(), source: "x".to_string() };
    assert_eq!(e.message(), "Serialize error (CSV): x");
    assert_eq!(DataMorphError::IoError("gone".to_string()).message(), "IO error: gone");
    assert_eq!(DataMorphError::UnsupportedFormat("xml".to_string()).message(), "Unsupported format: xml");
    assert_eq!(DataMorphError::QueryError("q".to_string()).message(), "Query error: q");
    assert_eq!(DataMorphError::FunctionError("f".to_string()).message(), "Function error: f");
    assert_eq!(DataMorphError::DiffError("d".to_string()).message(), "Diff error: d");
}

fn value_json(v: &Value) -> JsonValue {
    match v {
        Value::Null => JsonValue::Null,
        Value::Bool(b) => JsonValue::Bool(*b),
        Value::Integer(i) => JsonValue::from(*i),
        Value::Float(bits) => JsonValue::from(f64::from_bits(*bits)),
        Value::String(s) => JsonValue::String(s.clone()),
        Value::Array(a) => JsonValue::Array(a.iter().map(value_json).collect()),
        Value::Object(m) => JsonValue::Object(m.iter().map(|(k, x)| (k.clone(), value_json(x))).collect()),
    }
}

#[test]
fn documents_are_validated_as_json() {
    let validator = SchemaValidator::from_str(
        r#"{ "type": "object", "properties": { "n": { "type": "integer", "maximum": 3 } }, "required": ["n"] }"#,
    )
    .unwrap();
    let ok = Value::Object(vec![("n".to_string(), Value::Integer(2))]);
    assert!(validator.validate_ast(&ok, &value_json).is_ok());
    let too_big = Value::Object(vec![("n".to_string(), Value::Integer(9))]);
    let msg = validator.validate_ast(&too_big, &value_json).err().unwrap().message();
    assert!(msg.starts_with("Schema validation error: Schema validation failed:\n  • "));
    assert!(msg.contains("maximum"));
    let missing = Value::Object(vec![]);
    let msg = validator.validate_ast(&missing, &value_json).err().unwrap().message();
    assert!(msg.contains("required"));
}
