use crate::csv_adapter::{
    CsvAdapter, csv_parsed, csv_table, csv_text, float_text, probe_result, writes_floats,
};
use crate::error::{DataMorphError, ErrorKind};
use crate::query::{float_reading, reads_floats};
use crate::text::{ascii_lower, chars_are, chars_of, is_ascii_text, lowercase, to_lowercase};
use crate::value::Value;
use vstd::prelude::*;

verus! {

/// The data formats that can be read and written.
#[derive(Debug, Clone, Copy, PartialEq, Eq, Structural)]
pub enum Adapter {
    Json,
    Yaml,
    Toml,
    Csv,
}

/// The display name of a format.
pub open spec fn adapter_name(a: Adapter) -> Seq<char> {
    match a {
        Adapter::Json => "JSON"@,
        Adapter::Yaml => "YAML"@,
        Adapter::Toml => "TOML"@,
        Adapter::Csv => "CSV"@,
    }
}

/// The file extensions of a format.
pub open spec fn adapter_extensions(a: Adapter) -> Seq<Seq<char>> {
    match a {
        Adapter::Json => seq!["json"@],
        Adapter::Yaml => seq!["yaml"@, "yml"@],
        Adapter::Toml => seq!["toml"@],
        Adapter::Csv => seq!["csv"@],
    }
}

/// The format that a lower-case name or extension stands for.
pub open spec fn format_named(t: Seq<char>) -> Option<Adapter> {
    if t == "json"@ {
        Some(Adapter::Json)
    } else if t == "yaml"@ || t == "yml"@ {
        Some(Adapter::Yaml)
    } else if t == "toml"@ {
        Some(Adapter::Toml)
    } else if t == "csv"@ {
        Some(Adapter::Csv)
    } else {
        None
    }
}

impl Adapter {
    /// The display name of the format.
    pub fn name(&self) -> (r: &'static str)
        ensures
            r@ == adapter_name(*self),
    {
        match self {
            Adapter::Json => "JSON",
            Adapter::Yaml => "YAML",
            Adapter::Toml => "TOML",
            Adapter::Csv => "CSV",
        }
    }

    /// The file extensions of the format.
    pub fn extensions(&self) -> (r: &'static [&'static str])
        ensures
            r@.map_values(|s: &str| s@) == adapter_extensions(*self),
    {
        let r: &'static [&'static str] = match self {
            Adapter::Json => &["json"],
            Adapter::Yaml => &["yaml", "yml"],
            Adapter::Toml => &["toml"],
            Adapter::Csv => &["csv"],
        };
        assert(r@.map_values(|s: &str| s@) =~= adapter_extensions(*self));
        r
    }
}

/// The format a lower-cased text names.
fn format_of_lowercase(lower: &str) -> (r: Option<Adapter>)
    ensures
        r == format_named(lower@),
{
    let t = chars_of(lower);
    if chars_are(&t, "json") {
        Some(Adapter::Json)
    } else if chars_are(&t, "yaml") || chars_are(&t, "yml") {
        Some(Adapter::Yaml)
    } else if chars_are(&t, "toml") {
        Some(Adapter::Toml)
    } else if chars_are(&t, "csv") {
        Some(Adapter::Csv)
    } else {
        None
    }
}

/// The format with the given name, in any case.
pub fn get_adapter_by_name(name: &str) -> (r: Option<Adapter>)
    ensures
        r == format_named(lowercase(name@)),
        is_ascii_text(name@) ==> r == format_named(ascii_lower(name@)),
{
    let lower = to_lowercase(name);
    format_of_lowercase(lower.as_str())
}

/// The format of a file extension, in any case.
pub fn get_adapter_by_extension(ext: &str) -> (r: Option<Adapter>)
    ensures
        r == format_named(lowercase(ext@)),
        is_ascii_text(ext@) ==> r == format_named(ascii_lower(ext@)),
{
    let ext = to_lowercase(ext);
    format_of_lowercase(ext.as_str())
}

} // verus!

verus! {

/// The closure reads a document from the text of a format other than CSV,
/// answering the message of the error where it cannot: it accepts every
/// format and text.
pub open spec fn reads_documents<P: Fn(Adapter, &str) -> Result<Value, String>>(p: P) -> bool {
    forall|a: Adapter, s: &str| #[trigger] call_requires(p, (a, s))
}

/// The closure writes a document as the text of a format other than CSV,
/// answering the message of the error where it cannot: it accepts every
/// format and document.
pub open spec fn writes_documents<Q: Fn(Adapter, &Value) -> Result<String, String>>(q: Q) -> bool {
    forall|a: Adapter, v: &Value| #[trigger] call_requires(q, (a, v))
}

/// The outcome of reading a format's text that the reader answered with:
/// its document, or a parse error of the format with its message.
pub open spec fn read_outcome(a: Adapter, r: Result<Value, DataMorphError>, d: Result<Value, String>) -> bool {
    match (r, d) {
        (Ok(v), Ok(w)) => v@ == w@,
        (Err(e), Err(m)) => e@ == ErrorKind::ParseError { format: adapter_name(a), source: m@ },
        _ => false,
    }
}

/// The outcome of writing a document that the writer answered with: its
/// text, or a serialize error of the format with its message.
pub open spec fn write_outcome(a: Adapter, r: Result<String, DataMorphError>, d: Result<String, String>) -> bool {
    match (r, d) {
        (Ok(t), Ok(u)) => t@ == u@,
        (Err(e), Err(m)) => e@ == ErrorKind::SerializeError { format: adapter_name(a), source: m@ },
        _ => false,
    }
}

/// The delimiter and header setting CSV text is read with: what probing its
/// first lines finds, or `,` and a header row where the first record has an
/// empty field and probing guesses nothing.
pub open spec fn csv_settings(input: Seq<char>, read_float: spec_fn(Seq<char>) -> Option<u64>) -> (
    u8,
    bool,
) {
    match probe_result(input, read_float) {
        Some(p) => (p.delimiter, p.has_header),
        None => (44, true),
    }
}

impl Adapter {
    /// Reads a document from the text of the format. CSV is read here, with
    /// the delimiter and header row that probing its first lines finds; the
    /// other formats are read by `read_doc`, whose errors become parse errors
    /// of the format.
    pub fn parse<P: Fn(Adapter, &str) -> Result<Value, String>, R: Fn(&str) -> Option<u64>>(
        &self,
        input: &str,
        read_doc: &P,
        read_float: &R,
    ) -> (r: Result<Value, DataMorphError>)
        requires
            reads_documents(*read_doc),
            reads_floats(*read_float),
        ensures
            *self == Adapter::Csv ==> match (
                r,
                csv_parsed(
                    input@,
                    csv_settings(input@, float_reading(*read_float)).0,
                    csv_settings(input@, float_reading(*read_float)).1,
                    float_reading(*read_float),
                ),
            ) {
                (Ok(v), Ok(d)) => v@ == d,
                (Err(e), Err(m)) => e@ == ErrorKind::ParseError { format: "CSV"@, source: m },
                _ => false,
            },
            *self != Adapter::Csv ==> exists|d: Result<Value, String>|
                call_ensures(*read_doc, (*self, input), d) && #[trigger] read_outcome(*self, r, d),
    {
        match self {
            Adapter::Csv => {
                let settings = match CsvAdapter::try_probe(input, read_float) {
                    Some(p) => CsvAdapter { delimiter: p.delimiter, has_header: p.has_header, quote: 34 },
                    None => CsvAdapter::new(),
                };
                settings.parse(input, read_float)
            },
            _ => {
                let d = read_doc(*self, input);
                let r = match d {
                    Ok(v) => Ok(v),
                    Err(m) => Err(DataMorphError::ParseError { format: String::from_str(self.name()), source: m }),
                };
                assert(read_outcome(*self, r, d));
                r
            },
        }
    }

    /// Writes a document as the text of the format. CSV is written here (see
    /// `CsvAdapter::serialize`); the other formats are written by `write_doc`,
    /// whose errors become serialize errors of the format.
    pub fn serialize<Q: Fn(Adapter, &Value) -> Result<String, String>, W: Fn(u64) -> String>(
        &self,
        value: &Value,
        write_doc: &Q,
        write_float: &W,
    ) -> (r: Result<String, DataMorphError>)
        requires
            writes_documents(*write_doc),
            writes_floats(*write_float),
        ensures
            *self == Adapter::Csv ==> match csv_table(value@, float_text(*write_float)) {
                Err(m) => r matches Err(e) && e@ == ErrorKind::SerializeError {
                    format: "CSV"@,
                    source: m,
                },
                Ok(t) => if t.len() == 0 {
                    r matches Ok(s) && s@.len() == 0
                } else {
                    r matches Ok(s) && s@ == csv_text(t)
                },
            },
            *self != Adapter::Csv ==> exists|d: Result<String, String>|
                call_ensures(*write_doc, (*self, value), d) && #[trigger] write_outcome(*self, r, d),
    {
        match self {
            Adapter::Csv => CsvAdapter::new().serialize(value, write_float),
            _ => {
                let d = write_doc(*self, value);
                let r = match d {
                    Ok(t) => Ok(t),
                    Err(m) => Err(
                        DataMorphError::SerializeError { format: String::from_str(self.name()), source: m },
                    ),
                };
                assert(write_outcome(*self, r, d));
                r
            },
        }
    }
}

} // verus!
