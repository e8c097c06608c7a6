use crate::text::concat;
use vstd::prelude::*;

verus! {

/// The errors of the library.
#[derive(Debug)]
pub enum DataMorphError {
    IoError(String),
    ParseError { format: String, source: String },
    SerializeError { format: String, source: String },
    UnsupportedFormat(String),
    QueryError(String),
    SchemaValidationError(String),
    FunctionError(String),
    DiffError(String),
}

/// What an error denotes.
pub enum ErrorKind {
    IoError(Seq<char>),
    ParseError { format: Seq<char>, source: Seq<char> },
    SerializeError { format: Seq<char>, source: Seq<char> },
    UnsupportedFormat(Seq<char>),
    QueryError(Seq<char>),
    SchemaValidationError(Seq<char>),
    FunctionError(Seq<char>),
    DiffError(Seq<char>),
}

impl View for DataMorphError {
    type V = ErrorKind;

    open spec fn view(&self) -> ErrorKind {
        match *self {
            DataMorphError::IoError(s) => ErrorKind::IoError(s@),
            DataMorphError::ParseError { format, source } => ErrorKind::ParseError {
                format: format@,
                source: source@,
            },
            DataMorphError::SerializeError { format, source } => ErrorKind::SerializeError {
                format: format@,
                source: source@,
            },
            DataMorphError::UnsupportedFormat(s) => ErrorKind::UnsupportedFormat(s@),
            DataMorphError::QueryError(s) => ErrorKind::QueryError(s@),
            DataMorphError::SchemaValidationError(s) => ErrorKind::SchemaValidationError(s@),
            DataMorphError::FunctionError(s) => ErrorKind::FunctionError(s@),
            DataMorphError::DiffError(s) => ErrorKind::DiffError(s@),
        }
    }
}

/// The message an error is shown with.
pub open spec fn error_message(e: ErrorKind) -> Seq<char> {
    match e {
        ErrorKind::IoError(s) => "IO error: "@ + s,
        ErrorKind::ParseError { format, source } => "Parse error ("@ + format + "): "@ + source,
        ErrorKind::SerializeError { format, source } => "Serialize error ("@ + format + "): "@
            + source,
        ErrorKind::UnsupportedFormat(s) => "Unsupported format: "@ + s,
        ErrorKind::QueryError(s) => "Query error: "@ + s,
        ErrorKind::SchemaValidationError(s) => "Schema validation error: "@ + s,
        ErrorKind::FunctionError(s) => "Function error: "@ + s,
        ErrorKind::DiffError(s) => "Diff error: "@ + s,
    }
}

impl DataMorphError {
    /// The message the error is shown with.
    pub fn message(&self) -> (r: String)
        ensures
            r@ == error_message(self@),
    {
        match self {
            DataMorphError::IoError(s) => concat("IO error: ", s.as_str()),
            DataMorphError::ParseError { format, source } => {
                let a = concat("Parse error (", format.as_str());
                let b = concat(a.as_str(), "): ");
                concat(b.as_str(), source.as_str())
            },
            DataMorphError::SerializeError { format, source } => {
                let a = concat("Serialize error (", format.as_str());
                let b = concat(a.as_str(), "): ");
                concat(b.as_str(), source.as_str())
            },
            DataMorphError::UnsupportedFormat(s) => concat("Unsupported format: ", s.as_str()),
            DataMorphError::QueryError(s) => concat("Query error: ", s.as_str()),
            DataMorphError::SchemaValidationError(s) => concat(
                "Schema validation error: ",
                s.as_str(),
            ),
            DataMorphError::FunctionError(s) => concat("Function error: ", s.as_str()),
            DataMorphError::DiffError(s) => concat("Diff error: ", s.as_str()),
        }
    }
}

} // verus!
