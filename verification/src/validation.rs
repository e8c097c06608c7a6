use serde_json::Value as JsonValue;
use crate::error::{DataMorphError, ErrorKind};
use crate::text::{chars_of, string_of, trim, trim_chars};
use crate::value::Value;
use vstd::prelude::*;

verus! {

#[verifier::external_type_specification]
#[verifier::external_body]
pub struct ExJsonValue(JsonValue);

#[verifier::external_type_specification]
#[verifier::external_body]
pub struct ExJsonSchema(jsonschema::JSONSchema);

/// Validates JSON values against a compiled JSON Schema (draft 7).
pub struct SchemaValidator {
    schema: jsonschema::JSONSchema,
}

/// The message with which `serde_json::from_str` of serde_json refuses a
/// text, or `None` where it reads a JSON value from it.
pub uninterp spec fn json_text_error(s: Seq<char>) -> Option<Seq<char>>;

/// The message with which jsonschema refuses to compile, for draft 7, the
/// JSON value that serde_json reads from a text, or `None` where it compiles.
pub uninterp spec fn schema_compile_failure(s: Seq<char>) -> Option<Seq<char>>;

/// Why a schema text could not be loaded.
enum SchemaLoadError {
    /// The text is no JSON; the message of serde_json.
    NotJson(String),
    /// The JSON value is no schema jsonschema compiles; its message.
    NotCompiled(String),
}

/// `jsonschema::CompilationOptions::compile` of jsonschema, for draft 7, on
/// the value that `serde_json::from_str` of serde_json reads from the text:
/// the compiled schema, or the message of serde_json's error, or else that
/// of jsonschema's.
#[verifier::external_body]
fn load_schema(s: &str) -> (r: Result<jsonschema::JSONSchema, SchemaLoadError>)
    ensures
        match r {
            Ok(_) => json_text_error(s@) is None && schema_compile_failure(s@) is None,
            Err(SchemaLoadError::NotJson(m)) => json_text_error(s@) == Some(m@),
            Err(SchemaLoadError::NotCompiled(m)) => json_text_error(s@) is None && schema_compile_failure(s@)
                == Some(m@),
        },
{
    let value: JsonValue = serde_json::from_str(s).map_err(|e| SchemaLoadError::NotJson(e.to_string()))?;
    jsonschema::JSONSchema::options().with_draft(jsonschema::Draft::Draft7).compile(&value).map_err(
        |e| SchemaLoadError::NotCompiled(e.to_string()),
    )
}

/// Whether `jsonschema::JSONSchema::validate` of jsonschema finds the
/// instance valid under the compiled schema (it answers `Ok`). With the
/// crate's default features off no reference is fetched from anywhere, so
/// the verdict depends on the schema and the instance alone.
pub uninterp spec fn schema_accepts(schema: jsonschema::JSONSchema, instance: JsonValue) -> bool;

/// `jsonschema::JSONSchema::validate` of jsonschema: the messages of the
/// errors found in the instance, none exactly where it is valid (the crate
/// answers an error only when its error iterator yields one). Which errors
/// are found, and in which order, is not stated here.
#[verifier::external_body]
fn schema_errors(schema: &jsonschema::JSONSchema, instance: &JsonValue) -> (r: Vec<String>)
    ensures
        (r@.len() == 0) == schema_accepts(*schema, *instance),
{
    match schema.validate(instance) {
        Ok(()) => Vec::new(),
        Err(errors) => errors.map(|e| e.to_string()).collect(),
    }
}

/// The lines listing the errors, each `  • ` and the message, each ended
/// by a newline.
pub open spec fn error_lines(errors: Seq<Seq<char>>) -> Seq<char>
    decreases errors.len(),
{
    if errors.len() == 0 {
        Seq::empty()
    } else {
        error_lines(errors.drop_last()) + "  • "@ + errors.last() + "\n"@
    }
}

/// The message that reports the errors: a heading, then a line per error,
/// without the trailing whitespace.
pub open spec fn failure_message(errors: Seq<Seq<char>>) -> Seq<char> {
    trim("Schema validation failed:\n"@ + error_lines(errors))
}

/// The outcome of a validation that found the given errors.
pub fn report_schema_errors(errors: &Vec<String>) -> (r: Result<(), DataMorphError>)
    ensures
        errors.len() == 0 ==> r is Ok,
        errors.len() > 0 ==> (r matches Err(e) && e@ == ErrorKind::SchemaValidationError(
            failure_message(errors.deep_view()),
        )),
{
    if errors.len() == 0 {
        return Ok(());
    }
    let ghost es = errors.deep_view();
    let mut msg = String::from_str("Schema validation failed:\n");
    let ghost head = msg@;
    assert(es.take(0) =~= Seq::<Seq<char>>::empty());
    for i in 0..errors.len()
        invariant
            es == errors.deep_view(),
            msg@ == head + error_lines(es.take(i as int)),
    {
        assert(es.take(i + 1).drop_last() =~= es.take(i as int));
        msg.append("  • ");
        msg.append(errors[i].as_str());
        msg.append("\n");
    }
    assert(es.take(errors.len() as int) =~= es);
    let trimmed = trim_chars(&chars_of(msg.as_str()));
    Err(DataMorphError::SchemaValidationError(string_of(&trimmed)))
}

impl SchemaValidator {
    /// The compiled schema the validator checks against.
    pub closed spec fn compiled(&self) -> jsonschema::JSONSchema {
        self.schema
    }

    /// Loads a schema from a JSON text and compiles it for draft 7: a parse
    /// error where the text is no JSON, a schema validation error where the
    /// value does not compile, each with the message of the crate that
    /// refused it.
    pub fn from_str(schema_str: &str) -> (r: Result<Self, DataMorphError>)
        ensures
            match json_text_error(schema_str@) {
                Some(m) => r matches Err(e) && e@ == ErrorKind::ParseError {
                    format: "JSON Schema"@,
                    source: m,
                },
                None => match schema_compile_failure(schema_str@) {
                    None => r is Ok,
                    Some(m) => r matches Err(e) && e@ == ErrorKind::SchemaValidationError(m),
                },
            },
    {
        match load_schema(schema_str) {
            Ok(compiled) => Ok(SchemaValidator { schema: compiled }),
            Err(SchemaLoadError::NotJson(m)) => Err(
                DataMorphError::ParseError { format: String::from_str("JSON Schema"), source: m },
            ),
            Err(SchemaLoadError::NotCompiled(m)) => Err(DataMorphError::SchemaValidationError(m)),
        }
    }

    /// Validates a JSON value against the schema: `Ok` where it is valid,
    /// else a schema validation error that lists what is wrong, one line per
    /// error that jsonschema reports.
    pub fn validate(&self, instance: &JsonValue) -> (r: Result<(), DataMorphError>)
        ensures
            r is Ok <==> schema_accepts(self.compiled(), *instance),
            match r {
                Ok(()) => true,
                Err(e) => exists|errors: Seq<Seq<char>>|
                    errors.len() > 0 && e@ == ErrorKind::SchemaValidationError(
                        #[trigger] failure_message(errors),
                    ),
            },
    {
        let errors = schema_errors(&self.schema, instance);
        report_schema_errors(&errors)
    }

    /// Validates a document against the schema, as the JSON value that
    /// `to_json` makes of it.
    pub fn validate_ast<J: Fn(&Value) -> JsonValue>(&self, value: &Value, to_json: &J) -> (r: Result<
        (),
        DataMorphError,
    >)
        requires
            call_requires(*to_json, (value,)),
        ensures
            exists|j: JsonValue|
                call_ensures(*to_json, (value,), j) && (r is Ok <==> #[trigger] schema_accepts(
                    self.compiled(),
                    j,
                )),
            match r {
                Ok(()) => true,
                Err(e) => exists|errors: Seq<Seq<char>>|
                    errors.len() > 0 && e@ == ErrorKind::SchemaValidationError(
                        #[trigger] failure_message(errors),
                    ),
            },
    {
        let json = to_json(value);
        self.validate(&json)
    }
}

} // verus!
