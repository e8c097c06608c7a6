use datamorph::adapters::{get_adapter_by_extension, get_adapter_by_name, Adapter};
use datamorph::cli::{
    attempt_repair, count_fields, detect_format, detect_format_from_content, input_format,
    same_format,
};
use datamorph::error::DataMorphError;
use datamorph::value::Value;

fn count(text: &str, c: char) -> usize {
    text.chars().filter(|x| *x == c).count()
}

#[test]
fn adapter_names_and_extensions() {
    assert_eq!(Adapter::Json.name(), "JSON");
    assert_eq!(Adapter::Yaml.name(), "YAML");
    assert_eq!(Adapter::Toml.name(), "TOML");
    assert_eq!(Adapter::Csv.name(), "CSV");
    assert_eq!(Adapter::Json.extensions(), &["json"]);
    assert_eq!(Adapter::Yaml.extensions(), &["yaml", "yml"]);
    assert_eq!(Adapter::Toml.extensions(), &["toml"]);
    assert_eq!(Adapter::Csv.extensions(), &["csv"]);
}

#[test]
fn adapters_by_name_in_any_case() {
    assert_eq!(get_adapter_by_name("json"), Some(Adapter::Json));
    assert_eq!(get_adapter_by_name("JSON"), Some(Adapter::Json));
    assert_eq!(get_adapter_by_name("Yml"), Some(Adapter::Yaml));
    assert_eq!(get_adapter_by_name("yaml"), Some(Adapter::Yaml));
    assert_eq!(get_adapter_by_name("TOML"), Some(Adapter::Toml));
    assert_eq!(get_adapter_by_name("csv"), Some(Adapter::Csv));
    assert_eq!(get_adapter_by_name("xml"), None);
    assert_eq!(get_adapter_by_name(""), None);
}

#[test]
fn every_listed_extension_is_recognized() {
    for a in [Adapter::Json, Adapter::Yaml, Adapter::Toml, Adapter::Csv] {
        for e in a.extensions() {
            assert_eq!(get_adapter_by_extension(e), Some(a));
            assert_eq!(get_adapter_by_extension(&e.to_uppercase()), Some(a));
        }
        assert_eq!(get_adapter_by_name(a.name()), Some(a));
    }
    assert_eq!(get_adapter_by_extension("ini"), None);
}

#[test]
fn format_from_content() {
    assert_eq!(detect_format_from_content("").unwrap(), "json");
    assert_eq!(detect_format_from_content("   \n").unwrap(), "json");
    assert_eq!(detect_format_from_content("  {\"a\": 1}").unwrap(), "json");
    assert_eq!(detect_format_from_content("[1, 2]").unwrap(), "json");
    assert_eq!(detect_format_from_content("= x").unwrap(), "toml");
    assert_eq!(detect_format_from_content("a: 1\nb: 2").unwrap(), "yaml");
    assert_eq!(detect_format_from_content("a,b\n1,2").unwrap(), "csv");
    assert_eq!(detect_format_from_content("a\tb").unwrap(), "csv");
    assert_eq!(detect_format_from_content("a;b").unwrap(), "csv");
    assert_eq!(detect_format_from_content("hello").unwrap(), "json");
    assert_eq!(detect_format_from_content("title = \"x\"\n").unwrap(), "toml");
    assert_eq!(detect_format_from_content("---\na: 1").unwrap(), "yaml");
    assert_eq!(detect_format_from_content("...").unwrap(), "yaml");
    assert_eq!(detect_format_from_content("url: http://x?a=b").unwrap(), "yaml");
    assert_eq!(detect_format_from_content("a: b=c").unwrap(), "yaml");
    assert_eq!(detect_format_from_content("a,{b").unwrap(), "json");
}

#[test]
fn format_from_extension() {
    assert_eq!(detect_format("data.json").as_deref(), Some("json"));
    assert_eq!(detect_format("dir/Config.YML").as_deref(), Some("yaml"));
    assert_eq!(detect_format("a.yaml").as_deref(), Some("yaml"));
    assert_eq!(detect_format("a.toml").as_deref(), Some("toml"));
    assert_eq!(detect_format("a.CSV").as_deref(), Some("csv"));
    assert_eq!(detect_format("a.xml").as_deref(), Some("xml"));
    assert_eq!(detect_format("a.ini").as_deref(), Some("ini"));
    assert_eq!(detect_format("a.txt"), None);
    assert_eq!(detect_format("noext"), None);
    assert_eq!(detect_format(".json"), None);
}

#[test]
fn field_counts() {
    assert_eq!(count_fields(&Value::Integer(3)), 1);
    assert_eq!(count_fields(&Value::Null), 1);
    assert_eq!(count_fields(&Value::Array(vec![Value::Null, Value::Null])), 2);
    let obj = Value::Object(vec![
        ("a".to_string(), Value::Null),
        ("b".to_string(), Value::Null),
        ("c".to_string(), Value::Null),
    ]);
    assert_eq!(count_fields(&obj), 3);
}

#[test]
fn repair_json_trailing_commas_and_missing_closers() {
    let out = attempt_repair("{\"a\": [1, 2,], \"b\": {\"c\": 1,}", "json").unwrap();
    assert_eq!(out, "{\"a\": [1, 2], \"b\": {\"c\": 1}}");
    assert_eq!(count(&out, '{'), count(&out, '}'));
    assert_eq!(count(&out, '['), count(&out, ']'));
    let out = attempt_repair("[{\"a\": 1", "json").unwrap();
    assert_eq!(out, "[{\"a\": 1}]");
}

#[test]
fn repair_leaves_other_formats_alone() {
    assert_eq!(attempt_repair("a: [", "yaml").unwrap(), "a: [");
    assert_eq!(attempt_repair("}}}", "yaml").unwrap(), "}}}");
}

#[test]
fn repair_closes_innermost_first() {
    assert_eq!(attempt_repair(r#"{"a":[1"#, "json").unwrap(), r#"{"a":[1]}"#);
    assert_eq!(attempt_repair("[[{", "json").unwrap(), "[[{}]]");
    let out = attempt_repair(r#"{"a": [{"b": 1,}"#, "json").unwrap();
    assert_eq!(out, r#"{"a": [{"b": 1}]}"#);
    assert!(serde_json::from_str::<serde_json::Value>(&out).is_ok());
}

#[test]
fn repair_passes_over_stray_closers() {
    assert_eq!(attempt_repair("{}}", "json").unwrap(), "{}}");
    assert_eq!(attempt_repair("]", "json").unwrap(), "]");
    assert_eq!(attempt_repair("{,}", "json").unwrap(), "{}");
    assert_eq!(attempt_repair("[{]", "json").unwrap(), "[{]}");
    assert_eq!(attempt_repair("}{", "json").unwrap(), "}{");
    assert_eq!(attempt_repair("[}{]", "json").unwrap(), "[}{]");
}

#[test]
fn format_of_an_input() {
    assert_eq!(input_format(Some("YAML"), Some("x.json"), "{}"), "yaml");
    assert_eq!(input_format(None, Some("-"), "a: 1"), "yaml");
    assert_eq!(input_format(None, None, "[1]"), "json");
    assert_eq!(input_format(None, Some("d.csv"), "{}"), "csv");
    assert_eq!(input_format(None, Some("d.txt"), "a,b"), "csv");
    assert_eq!(input_format(None, Some("d"), "= 1"), "toml");
}

#[test]
fn comparing_needs_the_same_format() {
    assert!(same_format("json", "json").is_ok());
    match same_format("json", "yaml") {
        Err(DataMorphError::DiffError(m)) => assert_eq!(m, "Cannot compare different formats: json vs yaml"),
        _ => panic!("Expected DiffError"),
    }
}
