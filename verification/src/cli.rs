use crate::error::{DataMorphError, ErrorKind};
use crate::text::{
    char_count, chars_are, chars_eq, chars_of, concat, count_char, index_of, index_of_char, lowercase, replace_all,
    replace_chars, string_of, to_lowercase, trim, trim_chars,
};
use crate::value::{Data, Value};
use vstd::prelude::*;

verus! {

/// A text begins with the same character three times over.
pub open spec fn starts_thrice(t: Seq<char>, c: char) -> bool {
    t.len() >= 3 && t[0] == c && t[1] == c && t[2] == c
}

/// The format name that a text's content suggests, the first that fits in
/// the order JSON, YAML, TOML, CSV: JSON for nothing or a leading `{` or
/// `[`; YAML for a leading `---` or `...` document marker, or where a `:`
/// occurs; TOML where a `=` occurs; CSV where `,`, tab or `;` occurs and no
/// `{`; else JSON.
pub open spec fn content_format(content: Seq<char>) -> Seq<char> {
    let t = trim(content);
    if t.len() == 0 {
        "json"@
    } else if t[0] == '{' || t[0] == '[' {
        "json"@
    } else if starts_thrice(t, '-') || starts_thrice(t, '.') {
        "yaml"@
    } else if index_of(t, ':') is Some {
        "yaml"@
    } else if index_of(t, '=') is Some {
        "toml"@
    } else if (index_of(t, ',') is Some || index_of(t, '\t') is Some || index_of(t, ';') is Some)
        && index_of(t, '{') is None {
        "csv"@
    } else {
        "json"@
    }
}

/// Detects a format from a text's content.
pub fn detect_format_from_content(content: &str) -> (r: Result<String, DataMorphError>)
    ensures
        r matches Ok(s) && s@ == content_format(content@),
{
    let t = trim_chars(&chars_of(content));
    if t.len() == 0 {
        return Ok(String::from_str("json"));
    }
    let first = t[0];
    let marker = t.len() >= 3 && t[1] == first && t[2] == first && (first == '-' || first == '.');
    if first == '{' || first == '[' {
        Ok(String::from_str("json"))
    } else if marker {
        Ok(String::from_str("yaml"))
    } else if index_of_char(&t, ':', 0).is_some() {
        Ok(String::from_str("yaml"))
    } else if index_of_char(&t, '=', 0).is_some() {
        Ok(String::from_str("toml"))
    } else if (index_of_char(&t, ',', 0).is_some() || index_of_char(&t, '\t', 0).is_some()
        || index_of_char(&t, ';', 0).is_some()) && index_of_char(&t, '{', 0).is_none() {
        Ok(String::from_str("csv"))
    } else {
        Ok(String::from_str("json"))
    }
}

/// The extension of a path, as `Path::extension` of std gives it (as text).
pub uninterp spec fn path_extension(p: Seq<char>) -> Option<Seq<char>>;

/// `std::path::Path::extension` of std, as text: the part of the file name
/// after its last dot, if there is one that is not the name's first
/// character. What it gives is not stated here beyond that it is a function
/// of the path.
#[verifier::external_body]
fn extension_of(path: &str) -> (r: Option<String>)
    ensures
        match r {
            Some(s) => path_extension(path@) == Some(s@),
            None => path_extension(path@) is None,
        },
{
    std::path::Path::new(path).extension().and_then(|s| s.to_str()).map(String::from)
}

/// The format name that a lower-case extension stands for.
pub open spec fn extension_format(ext: Seq<char>) -> Option<Seq<char>> {
    if ext == "json"@ {
        Some("json"@)
    } else if ext == "yaml"@ || ext == "yml"@ {
        Some("yaml"@)
    } else if ext == "toml"@ {
        Some("toml"@)
    } else if ext == "csv"@ {
        Some("csv"@)
    } else if ext == "xml"@ {
        Some("xml"@)
    } else if ext == "ini"@ {
        Some("ini"@)
    } else {
        None
    }
}

/// The format name that a path's extension, in any case, stands for; `None`
/// where it has none that is known, and the content has to tell.
pub fn detect_format(path: &str) -> (r: Option<String>)
    ensures
        match path_extension(path@) {
            Some(e) => match (r, extension_format(lowercase(e))) {
                (Some(s), Some(f)) => s@ == f,
                (None, None) => true,
                _ => false,
            },
            None => r is None,
        },
{
    let ext = match extension_of(path) {
        Some(e) => e,
        None => {
            return None;
        },
    };
    let lower = chars_of(to_lowercase(ext.as_str()).as_str());
    if chars_are(&lower, "json") {
        Some(String::from_str("json"))
    } else if chars_are(&lower, "yaml") || chars_are(&lower, "yml") {
        Some(String::from_str("yaml"))
    } else if chars_are(&lower, "toml") {
        Some(String::from_str("toml"))
    } else if chars_are(&lower, "csv") {
        Some(String::from_str("csv"))
    } else if chars_are(&lower, "xml") {
        Some(String::from_str("xml"))
    } else if chars_are(&lower, "ini") {
        Some(String::from_str("ini"))
    } else {
        None
    }
}

/// The format of an input: the one given, lower-cased; else, for standard
/// input (no path, or `-`), what the content suggests; else the format of the
/// path's extension or, where that tells nothing, what the content suggests.
pub open spec fn chosen_format(from: Option<Seq<char>>, path: Option<Seq<char>>, content: Seq<char>) -> Seq<
    char,
> {
    match from {
        Some(f) => lowercase(f),
        None => match path {
            Some(p) => if p == "-"@ {
                content_format(content)
            } else {
                match path_extension(p) {
                    Some(e) => match extension_format(lowercase(e)) {
                        Some(f) => f,
                        None => content_format(content),
                    },
                    None => content_format(content),
                }
            },
            None => content_format(content),
        },
    }
}

/// The format of an input whose content has been read: the one given, else
/// by the path, else by the content.
pub fn input_format(from: Option<&str>, path: Option<&str>, content: &str) -> (r: String)
    ensures
        r@ == chosen_format(
            match from {
                Some(f) => Some(f@),
                None => None,
            },
            match path {
                Some(p) => Some(p@),
                None => None,
            },
            content@,
        ),
{
    if let Some(f) = from {
        return to_lowercase(f);
    }
    let by_content = match detect_format_from_content(content) {
        Ok(s) => s,
        Err(_) => String::new(),
    };
    match path {
        None => by_content,
        Some(p) => if chars_are(&chars_of(p), "-") {
            by_content
        } else {
            match detect_format(p) {
                Some(f) => f,
                None => by_content,
            }
        },
    }
}

/// Two documents can be compared only in the same format.
pub fn same_format(fmt1: &str, fmt2: &str) -> (r: Result<(), DataMorphError>)
    ensures
        fmt1@ == fmt2@ ==> r is Ok,
        fmt1@ != fmt2@ ==> (r matches Err(e) && e@ == ErrorKind::DiffError(
            "Cannot compare different formats: "@ + fmt1@ + " vs "@ + fmt2@,
        )),
{
    if chars_eq(&chars_of(fmt1), &chars_of(fmt2)) {
        Ok(())
    } else {
        let a = concat("Cannot compare different formats: ", fmt1);
        let b = concat(a.as_str(), " vs ");
        Err(DataMorphError::DiffError(concat(b.as_str(), fmt2)))
    }
}

/// The number of fields a value has: the entries of an object, the
/// elements of an array, one for a scalar.
pub open spec fn field_count(d: Data) -> int {
    match d {
        Data::Object(m) => m.len() as int,
        Data::Array(a) => a.len() as int,
        _ => 1,
    }
}

/// The number of fields a value has.
pub fn count_fields(value: &Value) -> (r: usize)
    ensures
        r == field_count(value@),
{
    broadcast use crate::value::group_value_models;

    match value {
        Value::Object(map) => {
            assert(value@ == Data::Object(crate::value::entry_models(map@)));
            map.len()
        },
        Value::Array(arr) => {
            assert(value@ == Data::Array(crate::value::models_of(arr@)));
            arr.len()
        },
        _ => 1,
    }
}

} // verus!

verus! {

/// A JSON text with `,}` and `,]` replaced by `}` and `]`.
pub open spec fn without_trailing_commas(input: Seq<char>) -> Seq<char> {
    replace_all(replace_all(input, seq![',', '}'], seq!['}']), seq![',', ']'], seq![']'])
}

/// The openers still open after one more character: a `{` or `[` opens; a
/// `}` or `]` closes the innermost opener where it is of its kind, and is
/// passed over otherwise.
pub open spec fn bracket_step(open: Seq<char>, c: char) -> Seq<char> {
    if c == '{' || c == '[' {
        open.push(c)
    } else if open.len() > 0 && ((c == '}' && open.last() == '{') || (c == ']' && open.last()
        == '[')) {
        open.drop_last()
    } else {
        open
    }
}

/// The openers still open after a text, innermost last, starting from those
/// open before it.
pub open spec fn open_after(open: Seq<char>, s: Seq<char>) -> Seq<char>
    decreases s.len(),
{
    if s.len() == 0 {
        open
    } else {
        open_after(bracket_step(open, s[0]), s.drop_first())
    }
}

/// How many more of the opening character than of the closing one a text
/// holds, or none where it holds no more.
pub open spec fn missing(s: Seq<char>, opener: char, closer: char) -> int {
    if char_count(s, opener) > char_count(s, closer) {
        char_count(s, opener) - char_count(s, closer)
    } else {
        0
    }
}

/// The closers for the openers still open, innermost first, at most
/// `braces` of `}` and `brackets` of `]`: an opener past its budget is
/// passed over.
pub open spec fn closers_within(open: Seq<char>, braces: int, brackets: int) -> Seq<char>
    decreases open.len(),
{
    if open.len() == 0 {
        Seq::empty()
    } else if open.last() == '{' && braces > 0 {
        seq!['}'] + closers_within(open.drop_last(), braces - 1, brackets)
    } else if open.last() == '[' && brackets > 0 {
        seq![']'] + closers_within(open.drop_last(), braces, brackets - 1)
    } else {
        closers_within(open.drop_last(), braces, brackets)
    }
}

/// The repair of a text in a format: for JSON, trailing commas removed, and
/// as many `}` and `]` appended as the text lacks by count, each closing an
/// opener still open, innermost first (a closer that matches no open opener
/// is left where it is, and counts); other formats unchanged.
pub open spec fn repaired(input: Seq<char>, format: Seq<char>) -> Seq<char> {
    if format == "json"@ {
        let f = without_trailing_commas(input);
        f + closers_within(open_after(Seq::empty(), f), missing(f, '{', '}'), missing(f, '[', ']'))
    } else {
        input
    }
}

/// A JSON text with `,}` and `,]` replaced by `}` and `]`.
fn drop_trailing_commas(input: &Vec<char>) -> (r: Vec<char>)
    ensures
        r@ == without_trailing_commas(input@),
{
    let brace = vec![',', '}'];
    let brace_to = vec!['}'];
    let bracket = vec![',', ']'];
    let bracket_to = vec![']'];
    assert(brace@ =~= seq![',', '}'] && brace_to@ =~= seq!['}']);
    assert(bracket@ =~= seq![',', ']'] && bracket_to@ =~= seq![']']);
    let f = replace_chars(input, &brace, &brace_to);
    replace_chars(&f, &bracket, &bracket_to)
}

/// Attempts to repair common faults of a text in a format: for JSON,
/// trailing commas before `}` or `]`, and missing closing braces and
/// brackets, appended innermost first.
pub fn attempt_repair(input: &str, format: &str) -> (r: Result<String, DataMorphError>)
    ensures
        r matches Ok(s) && s@ == repaired(input@, format@),
{
    if !chars_are(&chars_of(format), "json") {
        return Ok(String::from_str(input));
    }
    let mut fixed = drop_trailing_commas(&chars_of(input));
    let ghost f = fixed@;
    let mut open: Vec<char> = Vec::new();
    let mut i: usize = 0;
    assert(open@ =~= Seq::<char>::empty());
    assert(f.skip(0) =~= f);
    while i < fixed.len()
        invariant
            i <= fixed.len(),
            fixed@ == f,
            open_after(Seq::empty(), f) == open_after(open@, f.skip(i as int)),
        decreases fixed.len() - i,
    {
        let c = fixed[i];
        let ghost before = open@;
        assert(f.skip(i as int)[0] == c);
        assert(f.skip(i as int).drop_first() =~= f.skip(i + 1));
        if c == '{' || c == '[' {
            open.push(c);
        } else if open.len() > 0 && ((c == '}' && open[open.len() - 1] == '{') || (c == ']'
            && open[open.len() - 1] == '[')) {
            open.pop();
        }
        assert(open@ =~= bracket_step(before, c));
        i = i + 1;
    }
    assert(f.skip(f.len() as int) =~= Seq::<char>::empty());
    let ghost all = open@;
    let open_braces = count_char(&fixed, '{');
    let close_braces = count_char(&fixed, '}');
    let open_brackets = count_char(&fixed, '[');
    let close_brackets = count_char(&fixed, ']');
    let mut braces: usize = if open_braces > close_braces {
        open_braces - close_braces
    } else {
        0
    };
    let mut brackets: usize = if open_brackets > close_brackets {
        open_brackets - close_brackets
    } else {
        0
    };
    assert(braces == missing(f, '{', '}') && brackets == missing(f, '[', ']'));
    let ghost goal = f + closers_within(all, braces as int, brackets as int);
    while open.len() > 0
        invariant
            fixed@ + closers_within(open@, braces as int, brackets as int) == goal,
        decreases open.len(),
    {
        let ghost before = open@;
        let ghost (b0, k0) = (braces as int, brackets as int);
        let c = open.pop().unwrap();
        assert(before.drop_last() =~= open@);
        assert(before.last() == c);
        if c == '{' && braces > 0 {
            fixed.push('}');
            braces = braces - 1;
            assert(closers_within(before, b0, k0) == seq!['}'] + closers_within(open@, b0 - 1, k0));
            assert(fixed@ + closers_within(open@, braces as int, brackets as int) =~= fixed@.drop_last()
                + (seq!['}'] + closers_within(open@, b0 - 1, k0)));
        } else if c == '[' && brackets > 0 {
            fixed.push(']');
            brackets = brackets - 1;
            assert(closers_within(before, b0, k0) == seq![']'] + closers_within(open@, b0, k0 - 1));
            assert(fixed@ + closers_within(open@, braces as int, brackets as int) =~= fixed@.drop_last()
                + (seq![']'] + closers_within(open@, b0, k0 - 1)));
        }
    }
    assert(closers_within(open@, braces as int, brackets as int) =~= Seq::<char>::empty());
    assert(fixed@ + closers_within(open@, braces as int, brackets as int) =~= fixed@);
    Ok(string_of(&fixed))
}

} // verus!
