use crate::error::{DataMorphError, ErrorKind};
use crate::query::{float_reading, read_float_of, reads_floats};
use crate::text::{
    char_count, char_is_uppercase, chars_of, count_char, chars_to_bool, chars_to_i64, concat, decimal, find, find_chars,
    i64_to_text, index_of, index_of_char, int_text, is_upper, lines_of, lowercase, parse_bool,
    parse_i64, text_lines, texts, to_lowercase, usize_to_text, utf8_len, utf8_len_of,
};
use crate::value::{Data, Value, entry_keys, entry_models, insert_entry, lookup, models_of};
use crate::value_ops::{find_entry, object_insert};
use std::collections::VecDeque;
use vstd::prelude::*;

verus! {

broadcast use crate::value::group_value_models;

#[verifier::external_type_specification]
#[verifier::external_body]
#[verifier::reject_recursive_types(R)]
pub struct ExCsvReader<R>(csv::Reader<R>);

/// A csv writer over a growing byte buffer. Verus cannot take the writer's
/// type itself (its parameter is bound by `std::io::Write`), so it is held here.
#[verifier::external_body]
pub struct CsvSink {
    writer: csv::Writer<Vec<u8>>,
}

/// The records that the csv crate yields, one by one, reading a text with the
/// given delimiter (the first row taken as the header row, and not yielded,
/// where `has_headers`; rows of differing lengths accepted where `flexible`):
/// each the fields of a row, or the message of the error met reading it.
pub uninterp spec fn csv_records(
    input: Seq<char>,
    delimiter: u8,
    has_headers: bool,
    flexible: bool,
) -> Seq<Result<Seq<Seq<char>>, Seq<char>>>;

/// The header row that the csv crate reads from a text with the given
/// delimiter: the fields of its first row, or the message of the error met.
pub uninterp spec fn csv_header(input: Seq<char>, delimiter: u8, flexible: bool) -> Result<
    Seq<Seq<char>>,
    Seq<char>,
>;

/// The records that a reader has still to yield.
pub uninterp spec fn reader_pending(r: csv::Reader<VecDeque<u8>>) -> Seq<
    Result<Seq<Seq<char>>, Seq<char>>,
>;

/// The header row of the text that a reader reads.
pub uninterp spec fn reader_header(r: csv::Reader<VecDeque<u8>>) -> Result<
    Seq<Seq<char>>,
    Seq<char>,
>;

/// `csv::ReaderBuilder::from_reader` of the csv crate, over the bytes of a
/// text: a reader whose records to come are those the crate yields for the
/// text, with the given settings.
#[verifier::external_body]
fn csv_reader(input: &str, delimiter: u8, has_headers: bool, flexible: bool) -> (r: csv::Reader<
    VecDeque<u8>,
>)
    ensures
        reader_pending(r) == csv_records(input@, delimiter, has_headers, flexible),
        reader_header(r) == csv_header(input@, delimiter, flexible),
{
    csv::ReaderBuilder::new().delimiter(delimiter).has_headers(has_headers).flexible(
        flexible,
    ).from_reader(VecDeque::from(input.as_bytes().to_vec()))
}

/// `csv::Reader::headers` of the csv crate: the header row of the text, its
/// error as a message; the records still to come are not changed.
#[verifier::external_body]
fn csv_read_headers(r: &mut csv::Reader<VecDeque<u8>>) -> (h: Result<Vec<String>, String>)
    ensures
        reader_pending(*final(r)) == reader_pending(*old(r)),
        reader_header(*final(r)) == reader_header(*old(r)),
        match (h, reader_header(*old(r))) {
            (Ok(v), Ok(w)) => v.deep_view() == w,
            (Err(e), Err(m)) => e@ == m,
            _ => false,
        },
{
    match r.headers() {
        Ok(rec) => Ok(rec.iter().map(String::from).collect()),
        Err(e) => Err(e.to_string()),
    }
}

/// `csv::Reader::read_record` of the csv crate: the next record, or `None`
/// when there is none left.
#[verifier::external_body]
fn csv_next_record(r: &mut csv::Reader<VecDeque<u8>>) -> (n: Option<Result<Vec<String>, String>>)
    ensures
        reader_header(*final(r)) == reader_header(*old(r)),
        reader_pending(*old(r)).len() == 0 ==> n is None && reader_pending(*final(r))
            == reader_pending(*old(r)),
        reader_pending(*old(r)).len() > 0 ==> {
            &&& reader_pending(*final(r)) == reader_pending(*old(r)).drop_first()
            &&& match (n, reader_pending(*old(r))[0]) {
                (Some(Ok(v)), Ok(w)) => v.deep_view() == w,
                (Some(Err(e)), Err(m)) => e@ == m,
                _ => false,
            }
        },
{
    let mut rec = csv::StringRecord::new();
    match r.read_record(&mut rec) {
        Ok(true) => Some(Ok(rec.iter().map(String::from).collect())),
        Ok(false) => None,
        Err(e) => Some(Err(e.to_string())),
    }
}

} // verus!

verus! {

/// The rows written to a sink so far, each a sequence of fields.
pub uninterp spec fn sink_rows(w: CsvSink) -> Seq<Seq<Seq<char>>>;

/// The text that the csv crate's writer, with its default settings (`,`
/// between fields, `"` quoting where needed, `\n` after each row), makes of
/// the given rows.
pub uninterp spec fn csv_text(rows: Seq<Seq<Seq<char>>>) -> Seq<char>;

/// `csv::WriterBuilder::from_writer` of the csv crate, over an empty buffer:
/// nothing written yet.
#[verifier::external_body]
fn csv_sink() -> (w: CsvSink)
    ensures
        sink_rows(w) == Seq::<Seq<Seq<char>>>::empty(),
{
    CsvSink { writer: csv::WriterBuilder::new().has_headers(true).from_writer(Vec::new()) }
}

/// `csv::Writer::write_record` of the csv crate, for a row with as many
/// fields as the first row written (the writer is not flexible, so the field
/// count is its one check; writing into a byte buffer cannot fail): the row
/// is written after the others.
#[verifier::external_body]
fn csv_write_row(w: &mut CsvSink, row: &Vec<String>) -> (r: Result<(), String>)
    requires
        sink_rows(*old(w)).len() == 0 || sink_rows(*old(w))[0].len() == row.len(),
    ensures
        r is Ok,
        sink_rows(*final(w)) == sink_rows(*old(w)).push(row.deep_view()),
{
    w.writer.write_record(row).map_err(|e| e.to_string())
}

/// `csv::Writer::into_inner` of the csv crate, and the bytes as UTF-8 text:
/// the text of the rows written. Flushing into a byte buffer cannot fail, and
/// the bytes are the fields' own UTF-8 with ASCII quotes, delimiters and
/// terminators between them.
#[verifier::external_body]
fn csv_sink_text(w: CsvSink) -> (r: Result<String, String>)
    ensures
        r is Ok,
        r matches Ok(s) ==> s@ == csv_text(sink_rows(w)),
{
    match w.writer.into_inner() {
        Ok(bytes) => String::from_utf8(bytes).map_err(|e| e.to_string()),
        Err(e) => Err(e.to_string()),
    }
}

} // verus!

verus! {

/// CSV adapter: reads rows into objects, inferring the type of each cell,
/// and writes arrays of objects as rows.
pub struct CsvAdapter {
    pub delimiter: u8,
    pub has_header: bool,
    pub quote: u8,
}

/// The texts of an optional header row.
pub open spec fn header_model(h: Option<Vec<String>>) -> Option<Seq<Seq<char>>> {
    match h {
        Some(v) => Some(v.deep_view()),
        None => None,
    }
}

/// The key of the `i`-th column: its header, or `column` and its position
/// where there is no header for it.
pub open spec fn column_key(header: Option<Seq<Seq<char>>>, i: int) -> Seq<char> {
    match header {
        Some(h) => if 0 <= i < h.len() {
            h[i]
        } else {
            "column"@ + decimal(i as nat)
        },
        None => "column"@ + decimal(i as nat),
    }
}

/// The value a cell stands for: empty text stays text; then an integer, a
/// float (as `read_float` reads it), a boolean, or else the text.
pub open spec fn inferred(s: Seq<char>, read_float: spec_fn(Seq<char>) -> Option<u64>) -> Data {
    if s.len() == 0 {
        Data::Str(s)
    } else {
        match parse_i64(s) {
            Some(i) => Data::Integer(i),
            None => match read_float(s) {
                Some(bits) => Data::Float(bits),
                None => match parse_bool(s) {
                    Some(b) => Data::Bool(b),
                    None => Data::Str(s),
                },
            },
        }
    }
}

/// The object a row stands for: each field inserted under its column's key,
/// in order (a later field replaces an earlier one with the same key).
pub open spec fn row_entries(
    header: Option<Seq<Seq<char>>>,
    fields: Seq<Seq<char>>,
    read_float: spec_fn(Seq<char>) -> Option<u64>,
) -> Seq<(Seq<char>, Data)>
    decreases fields.len(),
{
    if fields.len() == 0 {
        Seq::empty()
    } else {
        insert_entry(
            row_entries(header, fields.drop_last(), read_float),
            column_key(header, fields.len() - 1),
            inferred(fields.last(), read_float),
        )
    }
}

/// The objects the records stand for, in order; the first record that is an
/// error stops the whole with its message.
pub open spec fn rows_data(
    header: Option<Seq<Seq<char>>>,
    records: Seq<Result<Seq<Seq<char>>, Seq<char>>>,
    read_float: spec_fn(Seq<char>) -> Option<u64>,
) -> Result<Seq<Data>, Seq<char>>
    decreases records.len(),
{
    if records.len() == 0 {
        Ok(Seq::empty())
    } else {
        match rows_data(header, records.drop_last(), read_float) {
            Ok(acc) => match records.last() {
                Ok(fields) => Ok(acc.push(Data::Object(row_entries(header, fields, read_float)))),
                Err(e) => Err(e),
            },
            Err(e) => Err(e),
        }
    }
}

/// The document a CSV text stands for: an array with an object per row, or
/// the message of the first error the csv crate meets.
pub open spec fn csv_parsed(
    input: Seq<char>,
    delimiter: u8,
    has_header: bool,
    read_float: spec_fn(Seq<char>) -> Option<u64>,
) -> Result<Data, Seq<char>> {
    let header = if has_header {
        match csv_header(input, delimiter, true) {
            Ok(h) => Ok(Some(h)),
            Err(e) => Err(e),
        }
    } else {
        Ok(None)
    };
    match header {
        Err(e) => Err(e),
        Ok(h) => match rows_data(h, csv_records(input, delimiter, has_header, true), read_float) {
            Ok(rows) => Ok(Data::Array(rows)),
            Err(e) => Err(e),
        },
    }
}

/// The records that fail, fail the whole.
proof fn lemma_rows_stop(
    header: Option<Seq<Seq<char>>>,
    records: Seq<Result<Seq<Seq<char>>, Seq<char>>>,
    read_float: spec_fn(Seq<char>) -> Option<u64>,
    k: int,
    n: int,
)
    requires
        0 <= k <= n <= records.len(),
        rows_data(header, records.take(k), read_float) is Err,
    ensures
        rows_data(header, records.take(n), read_float) == rows_data(
            header,
            records.take(k),
            read_float,
        ),
    decreases n - k,
{
    if n > k {
        lemma_rows_stop(header, records, read_float, k, n - 1);
        assert(records.take(n).drop_last() =~= records.take(n - 1));
    }
}

impl CsvAdapter {
    /// An adapter for `,`-separated text with a header row and `"` quotes.
    pub fn new() -> (r: Self)
        ensures
            r.delimiter == 44,
            r.has_header,
            r.quote == 34,
    {
        CsvAdapter { delimiter: 44, has_header: true, quote: 34 }
    }

    /// The value a cell stands for.
    pub fn infer_type<R: Fn(&str) -> Option<u64>>(value: &str, read_float: &R) -> (r: Value)
        requires
            reads_floats(*read_float),
        ensures
            r@ == inferred(value@, float_reading(*read_float)),
    {
        let chars = chars_of(value);
        if chars.len() == 0 {
            return Value::String(String::from_str(value));
        }
        if let Some(i) = chars_to_i64(&chars) {
            return Value::Integer(i);
        }
        if let Some(bits) = read_float_of(&chars, read_float) {
            return Value::Float(bits);
        }
        if let Some(b) = chars_to_bool(&chars) {
            return Value::Bool(b);
        }
        Value::String(String::from_str(value))
    }

    /// The object a row stands for.
    #[verifier::loop_isolation(false)]
    fn row_object<R: Fn(&str) -> Option<u64>>(
        headers: &Option<Vec<String>>,
        fields: &Vec<String>,
        read_float: &R,
    ) -> (r: Value)
        requires
            reads_floats(*read_float),
        ensures
            r@ == Data::Object(
                row_entries(
                    header_model(*headers),
                    fields.deep_view(),
                    float_reading(*read_float),
                ),
            ),
    {
        let ghost hm = header_model(*headers);
        let ghost fm = fields.deep_view();
        let ghost rf = float_reading(*read_float);
        let mut entries: Vec<(String, Value)> = Vec::new();
        assert(fm.take(0) =~= Seq::<Seq<char>>::empty());
        for i in 0..fields.len()
            invariant
                entry_models(entries@) == row_entries(hm, fm.take(i as int), rf),
        {
            let key = match headers {
                Some(h) => if i < h.len() {
                    h[i].clone()
                } else {
                    concat("column", usize_to_text(i).as_str())
                },
                None => concat("column", usize_to_text(i).as_str()),
            };
            let val = Self::infer_type(fields[i].as_str(), read_float);
            assert(fm.take(i + 1).drop_last() =~= fm.take(i as int));
            assert(fm.take(i + 1).last() == fields@[i as int]@);
            object_insert(&mut entries, key, val);
        }
        assert(fm.take(fields.len() as int) =~= fm);
        Value::Object(entries)
    }

    /// Reads CSV text into an array with an object per row.
    #[verifier::loop_isolation(false)]
    pub fn parse<R: Fn(&str) -> Option<u64>>(&self, input: &str, read_float: &R) -> (r: Result<
        Value,
        DataMorphError,
    >)
        requires
            reads_floats(*read_float),
        ensures
            match (r, csv_parsed(input@, self.delimiter, self.has_header, float_reading(*read_float))) {
                (Ok(v), Ok(d)) => v@ == d,
                (Err(e), Err(m)) => e@ == ErrorKind::ParseError { format: "CSV"@, source: m },
                _ => false,
            },
    {
        let ghost rf = float_reading(*read_float);
        let mut rdr = csv_reader(input, self.delimiter, self.has_header, true);
        let ghost all = reader_pending(rdr);
        let headers: Option<Vec<String>> = if self.has_header {
            match csv_read_headers(&mut rdr) {
                Ok(h) => Some(h),
                Err(e) => {
                    return Err(DataMorphError::ParseError { format: String::from_str("CSV"), source: e });
                },
            }
        } else {
            None
        };
        let ghost hm = header_model(headers);
        let mut records: Vec<Value> = Vec::new();
        let ghost mut n: int = 0;
        assert(all.take(0) =~= Seq::<Result<Seq<Seq<char>>, Seq<char>>>::empty());
        loop
            invariant
                0 <= n <= all.len(),
                reader_pending(rdr) == all.skip(n),
                rows_data(hm, all.take(n), rf) == Ok::<Seq<Data>, Seq<char>>(models_of(records@)),
            decreases reader_pending(rdr).len(),
        {
            let ghost before = reader_pending(rdr);
            match csv_next_record(&mut rdr) {
                None => {
                    assert(all.take(n) =~= all);
                    break;
                },
                Some(Err(e)) => {
                    proof {
                        assert(all.skip(n)[0] == all[n]);
                        assert(all.take(n + 1).drop_last() =~= all.take(n));
                        lemma_rows_stop(hm, all, rf, n + 1, all.len() as int);
                        assert(all.take(all.len() as int) =~= all);
                    }
                    return Err(DataMorphError::ParseError { format: String::from_str("CSV"), source: e });
                },
                Some(Ok(fields)) => {
                    let obj = Self::row_object(&headers, &fields, read_float);
                    let ghost prev = records@;
                    let ghost om = obj@;
                    records.push(obj);
                    proof {
                        assert(all.skip(n)[0] == all[n]);
                        assert(all.take(n + 1).drop_last() =~= all.take(n));
                        assert(models_of(records@) =~= models_of(prev).push(om));
                        assert(all.skip(n).drop_first() =~= all.skip(n + 1));
                        n = n + 1;
                    }
                },
            }
        }
        Ok(Value::Array(records))
    }
}

} // verus!

verus! {

/// The closure writes a binary64 number, given by its bit pattern, as text:
/// it accepts every pattern, and answers the same text for the same pattern.
pub open spec fn writes_floats<W: Fn(u64) -> String>(f: W) -> bool {
    &&& forall|b: u64| #[trigger] call_requires(f, (b,))
    &&& forall|b: u64, r1: String, r2: String|
        #![trigger call_ensures(f, (b,), r1), call_ensures(f, (b,), r2)]
        call_ensures(f, (b,), r1) && call_ensures(f, (b,), r2) ==> r1@ == r2@
}

/// The text the closure writes for a bit pattern.
pub open spec fn float_text<W: Fn(u64) -> String>(f: W) -> spec_fn(u64) -> Seq<char> {
    |b: u64| (choose|r: String| #[trigger] call_ensures(f, (b,), r))@
}

/// The text of a cell for a value.
pub open spec fn cell_text(d: Data, write_float: spec_fn(u64) -> Seq<char>) -> Seq<char> {
    match d {
        Data::Null => Seq::empty(),
        Data::Bool(b) => if b {
            "true"@
        } else {
            "false"@
        },
        Data::Integer(i) => int_text(i as int),
        Data::Float(f) => write_float(f),
        Data::Str(s) => s,
        Data::Array(_) => "[]"@,
        Data::Object(_) => "{}"@,
    }
}

/// The cells of a row: for each key, the text of the item's value there, or
/// empty text where it has none (or is no object).
pub open spec fn row_cells(keys: Seq<Seq<char>>, item: Data, write_float: spec_fn(u64) -> Seq<char>) -> Seq<
    Seq<char>,
> {
    Seq::new(
        keys.len(),
        |k: int|
            match item {
                Data::Object(m) => match lookup(m, keys[k]) {
                    Some(x) => cell_text(x, write_float),
                    None => Seq::empty(),
                },
                _ => Seq::empty(),
            },
    )
}

/// The rows a document is written as: the keys of the first object as the
/// header row, then a row per element; or the message of why it cannot be.
pub open spec fn csv_table(v: Data, write_float: spec_fn(u64) -> Seq<char>) -> Result<
    Seq<Seq<Seq<char>>>,
    Seq<char>,
> {
    match v {
        Data::Array(items) => if items.len() == 0 {
            Ok(Seq::empty())
        } else {
            match items[0] {
                Data::Object(first) => {
                    let keys = entry_keys(first);
                    Ok(
                        seq![keys] + Seq::new(
                            items.len(),
                            |i: int| row_cells(keys, items[i], write_float),
                        ),
                    )
                },
                _ => Err("CSV array elements must be objects"@),
            }
        },
        _ => Err("CSV root must be an array"@),
    }
}

/// Writes a float by the closure.
fn write_float_of<W: Fn(u64) -> String>(bits: u64, write_float: &W) -> (r: String)
    requires
        writes_floats(*write_float),
    ensures
        r@ == float_text(*write_float)(bits),
{
    let r = write_float(bits);
    proof {
        let c = choose|x: String| #[trigger] call_ensures(*write_float, (bits,), x);
        assert(call_ensures(*write_float, (bits,), c));
    }
    r
}

/// The text of a cell for a value.
pub fn value_to_string<W: Fn(u64) -> String>(value: &Value, write_float: &W) -> (r: String)
    requires
        writes_floats(*write_float),
    ensures
        r@ == cell_text(value@, float_text(*write_float)),
{
    match value {
        Value::Null => String::new(),
        Value::Bool(b) => if *b {
            String::from_str("true")
        } else {
            String::from_str("false")
        },
        Value::Integer(i) => i64_to_text(*i),
        Value::Float(f) => write_float_of(*f, write_float),
        Value::String(s) => s.clone(),
        Value::Array(_) => String::from_str("[]"),
        Value::Object(_) => String::from_str("{}"),
    }
}

impl CsvAdapter {
    /// The rows a document is written as.
    #[verifier::loop_isolation(false)]
    pub fn table<W: Fn(u64) -> String>(&self, value: &Value, write_float: &W) -> (r: Result<
        Vec<Vec<String>>,
        DataMorphError,
    >)
        requires
            writes_floats(*write_float),
        ensures
            match (r, csv_table(value@, float_text(*write_float))) {
                (Ok(rows), Ok(t)) => rows.deep_view() == t,
                (Err(e), Err(m)) => e@ == ErrorKind::SerializeError { format: "CSV"@, source: m },
                _ => false,
            },
    {
        let ghost wf = float_text(*write_float);
        let array = match value {
            Value::Array(arr) => arr,
            _ => {
                return Err(
                    DataMorphError::SerializeError {
                        format: String::from_str("CSV"),
                        source: String::from_str("CSV root must be an array"),
                    },
                );
            },
        };
        let ghost items = models_of(array@);
        if array.len() == 0 {
            let r: Vec<Vec<String>> = Vec::new();
            assert(r.deep_view() =~= Seq::<Seq<Seq<char>>>::empty());
            return Ok(r);
        }
        let first = match &array[0] {
            Value::Object(map) => map,
            _ => {
                return Err(
                    DataMorphError::SerializeError {
                        format: String::from_str("CSV"),
                        source: String::from_str("CSV array elements must be objects"),
                    },
                );
            },
        };
        let mut headers: Vec<String> = Vec::new();
        for k in 0..first.len()
            invariant
                headers@.len() == k,
                forall|j: int| 0 <= j < k ==> (#[trigger] headers@[j])@ == first@[j].0@,
        {
            headers.push(first[k].0.clone());
        }
        let ghost keys = entry_keys(entry_models(first@));
        assert(headers.deep_view() =~= keys);
        let mut rows: Vec<Vec<String>> = Vec::new();
        rows.push(headers.clone());
        assert(rows.deep_view()[0] =~= keys);
        for i in 0..array.len()
            invariant
                rows@.len() == i + 1,
                rows.deep_view()[0] == keys,
                forall|j: int|
                    0 <= j < i ==> #[trigger] rows.deep_view()[j + 1] == row_cells(
                        keys,
                        items[j],
                        wf,
                    ),
        {
            let mut row: Vec<String> = Vec::new();
            for k in 0..headers.len()
                invariant
                    row@.len() == k,
                    forall|c: int|
                        0 <= c < k ==> (#[trigger] row@[c])@ == row_cells(keys, items[i as int], wf)[c],
            {
                let cell = match &array[i] {
                    Value::Object(obj) => match find_entry(obj, &headers[k]) {
                        Some(p) => value_to_string(&obj[p].1, write_float),
                        None => String::new(),
                    },
                    _ => String::new(),
                };
                row.push(cell);
            }
            assert(row.deep_view() =~= row_cells(keys, items[i as int], wf));
            let ghost before = rows.deep_view();
            rows.push(row);
            assert(rows.deep_view() =~= before.push(row_cells(keys, items[i as int], wf)));
        }
        let ghost target = seq![keys] + Seq::new(
            items.len(),
            |i: int| row_cells(keys, items[i], wf),
        );
        assert forall|j: int| 0 <= j < target.len() implies #[trigger] rows.deep_view()[j]
            == target[j] by {
            if j > 0 {
                assert(rows.deep_view()[(j - 1) + 1] == row_cells(keys, items[j - 1], wf));
            }
        }
        assert(rows.deep_view() =~= seq![keys] + Seq::new(
            items.len(),
            |i: int| row_cells(keys, items[i], wf),
        ));
        Ok(rows)
    }
}

} // verus!

verus! {

impl CsvAdapter {
    /// Writes an array of objects as CSV text: a header row with the keys of
    /// the first object, then a row per element. An empty array is empty text.
    /// A failure of the csv writer is a serialize error with its message.
    #[verifier::loop_isolation(false)]
    pub fn serialize<W: Fn(u64) -> String>(&self, value: &Value, write_float: &W) -> (r: Result<
        String,
        DataMorphError,
    >)
        requires
            writes_floats(*write_float),
        ensures
            match csv_table(value@, float_text(*write_float)) {
                Err(m) => r matches Err(e) && e@ == ErrorKind::SerializeError {
                    format: "CSV"@,
                    source: m,
                },
                Ok(t) => if t.len() == 0 {
                    r matches Ok(s) && s@.len() == 0
                } else {
                    r matches Ok(s) && s@ == csv_text(t)
                },
            },
    {
        let rows = match self.table(value, write_float) {
            Ok(rows) => rows,
            Err(e) => {
                return Err(e);
            },
        };
        if rows.len() == 0 {
            return Ok(String::new());
        }
        let mut sink = csv_sink();
        let ghost t = rows.deep_view();
        let ghost wf = float_text(*write_float);
        proof {
            assert(value@ is Array);
            assert(value@->Array_0.len() > 0);
            crate::laws::law_csv_table_shape(value@->Array_0, wf);
        }
        for i in 0..rows.len()
            invariant
                sink_rows(sink) == rows.deep_view().take(i as int),
                t == rows.deep_view(),
                forall|j: int| 0 <= j < t.len() ==> (#[trigger] t[j]).len() == t[0].len(),
        {
            assert(t[i as int] == rows@[i as int].deep_view());
            if i > 0 {
                assert(sink_rows(sink)[0] == t[0]);
            }
            match csv_write_row(&mut sink, &rows[i]) {
                Ok(()) => {},
                Err(e) => {
                    return Err(DataMorphError::SerializeError { format: String::from_str("CSV"), source: e });
                },
            }
            assert(rows.deep_view().take(i + 1) =~= rows.deep_view().take(i as int).push(
                rows@[i as int].deep_view(),
            ));
        }
        assert(rows.deep_view().take(rows.len() as int) =~= rows.deep_view());
        match csv_sink_text(sink) {
            Ok(s) => Ok(s),
            Err(e) => Err(DataMorphError::SerializeError { format: String::from_str("CSV"), source: e }),
        }
    }
}

} // verus!

verus! {

/// What probing a CSV text found.
#[derive(Debug, Clone, PartialEq, Eq, Structural)]
pub struct CsvProbeResult {
    pub delimiter: u8,
    pub has_delimiter: bool,
    pub has_header: bool,
}

/// The result of probing before anything is found: `,`, no delimiter seen,
/// a header row assumed.
pub open spec fn probe_default() -> CsvProbeResult {
    CsvProbeResult { delimiter: 44, has_delimiter: false, has_header: true }
}

impl Default for CsvProbeResult {
    fn default() -> (r: Self)
        ensures
            r == probe_default(),
    {
        CsvProbeResult { delimiter: 44, has_delimiter: false, has_header: true }
    }
}

/// How often a character occurs in the lines, all together.
pub open spec fn lines_count(lines: Seq<Seq<char>>, c: char) -> int
    decreases lines.len(),
{
    if lines.len() == 0 {
        0
    } else {
        lines_count(lines.drop_last(), c) + char_count(lines.last(), c)
    }
}

/// The delimiters that probing looks for, in order: `,`, tab, `;`, `|`.
pub open spec fn probe_delimiter(k: int) -> u8 {
    if k == 0 {
        44
    } else if k == 1 {
        9
    } else if k == 2 {
        59
    } else {
        124
    }
}

/// How often each delimiter occurs in the lines.
pub open spec fn delimiter_counts(lines: Seq<Seq<char>>) -> Seq<int> {
    Seq::new(4, |k: int| lines_count(lines, probe_delimiter(k) as char))
}

/// The position of the last greatest of the first `k` counts.
pub open spec fn last_max(c: Seq<int>, k: int) -> int
    decreases k,
{
    if k <= 1 {
        0
    } else {
        let p = last_max(c, k - 1);
        if c[k - 1] >= c[p] {
            k - 1
        } else {
            p
        }
    }
}

/// The words that hint that a field is a column name.
pub open spec fn header_word(k: int) -> Seq<char> {
    if k == 0 {
        "id"@
    } else if k == 1 {
        "name"@
    } else if k == 2 {
        "date"@
    } else if k == 3 {
        "created"@
    } else if k == 4 {
        "updated"@
    } else if k == 5 {
        "user"@
    } else {
        "email"@
    }
}

/// The text holds one of the hint words.
pub open spec fn has_header_word(t: Seq<char>) -> bool {
    exists|k: int| 0 <= k < 7 && (#[trigger] find(t, header_word(k))) is Some
}

/// The score of one non-empty field: one for a hint word in its lower-case
/// form; one for a space, or an upper-case first character with more than one
/// byte in all; less one for a number (as `read_float` reads it) of fewer than
/// five bytes.
pub open spec fn field_score(f: Seq<char>, read_float: spec_fn(Seq<char>) -> Option<u64>) -> int {
    (if has_header_word(lowercase(f)) {
        1int
    } else {
        0int
    }) + (if index_of(f, ' ') is Some || (is_upper(f[0]) && utf8_len(f) > 1) {
        1int
    } else {
        0int
    }) - (if read_float(f) is Some && utf8_len(f) < 5 {
        1int
    } else {
        0int
    })
}

/// The score of a row of fields.
pub open spec fn header_score(fields: Seq<Seq<char>>, read_float: spec_fn(Seq<char>) -> Option<u64>) -> int
    decreases fields.len(),
{
    if fields.len() == 0 {
        0
    } else {
        header_score(fields.drop_last(), read_float) + field_score(fields.last(), read_float)
    }
}

/// Whether a first row looks like a header row: its score is positive.
/// `None` where a field is empty: an empty field has no first character
/// to look at, and no guess is made.
pub open spec fn header_guess(fields: Seq<Seq<char>>, read_float: spec_fn(Seq<char>) -> Option<u64>) -> Option<
    bool,
> {
    if exists|i: int| 0 <= i < fields.len() && (#[trigger] fields[i]).len() == 0 {
        None
    } else {
        Some(header_score(fields, read_float) > 0)
    }
}

/// The first `n` lines of a text, or all where there are fewer.
pub open spec fn first_lines(content: Seq<char>, n: int) -> Seq<Seq<char>> {
    let all = text_lines(content);
    if all.len() <= n {
        all
    } else {
        all.take(n)
    }
}

/// What probing finds in a text: from its first ten lines, the delimiter
/// that occurs most (the last of equals), if any occurs; and, from the first
/// record of the first line, whether it looks like a header row. `None`
/// where that record has an empty field, on which no guess is made.
pub open spec fn probe_result(content: Seq<char>, read_float: spec_fn(Seq<char>) -> Option<u64>) -> Option<
    CsvProbeResult,
> {
    let lines = first_lines(content, 10);
    if lines.len() == 0 {
        Some(probe_default())
    } else {
        let counts = delimiter_counts(lines);
        let idx = last_max(counts, 4);
        let found = counts[idx] > 0;
        let delimiter: u8 = if found {
            probe_delimiter(idx)
        } else {
            44
        };
        let records = csv_records(lines[0], delimiter, false, false);
        if records.len() > 0 && records[0] is Ok {
            match header_guess(records[0]->Ok_0, read_float) {
                Some(h) => Some(CsvProbeResult { delimiter, has_delimiter: found, has_header: h }),
                None => None,
            }
        } else {
            Some(CsvProbeResult { delimiter, has_delimiter: found, has_header: true })
        }
    }
}

} // verus!

verus! {

/// How often a character occurs in the lines, all together.
fn count_in_lines(lines: &Vec<Vec<char>>, c: char) -> (n: u128)
    requires
        lines.len() <= 10,
    ensures
        n == lines_count(texts(lines@), c),
{
    let ghost ls = texts(lines@);
    let mut n: u128 = 0;
    for i in 0..lines.len()
        invariant
            lines.len() <= 10,
            ls == texts(lines@),
            n == lines_count(ls.take(i as int), c),
            n <= i * (usize::MAX as int),
    {
        assert(ls.take(i + 1).drop_last() =~= ls.take(i as int));
        let k = count_char(&lines[i], c);
        assert(n + k <= (i + 1) * (usize::MAX as int)) by (nonlinear_arith)
            requires
                n <= i * (usize::MAX as int),
                k <= usize::MAX,
        ;
        n = n + k as u128;
    }
    assert(ls.take(lines.len() as int) =~= ls);
    n
}

/// Whether the text holds one of the hint words.
fn holds_header_word(t: &Vec<char>) -> (r: bool)
    ensures
        r == has_header_word(t@),
{
    let words = ["id", "name", "date", "created", "updated", "user", "email"];
    let mut k: usize = 0;
    while k < 7
        invariant
            k <= 7,
            words@ == seq!["id", "name", "date", "created", "updated", "user", "email"],
            forall|j: int| 0 <= j < k ==> (#[trigger] find(t@, header_word(j))) is None,
        decreases 7 - k,
    {
        let w = chars_of(words[k]);
        assert(w@ == header_word(k as int));
        if find_chars(t, &w).is_some() {
            return true;
        }
        k = k + 1;
    }
    false
}

impl CsvAdapter {
    /// Whether a first row looks like a header row, or `None` where a field
    /// is empty.
    #[verifier::loop_isolation(false)]
    fn guess_header<R: Fn(&str) -> Option<u64>>(record: &Vec<String>, read_float: &R) -> (r: Option<
        bool,
    >)
        requires
            reads_floats(*read_float),
        ensures
            r == header_guess(record.deep_view(), float_reading(*read_float)),
    {
        let ghost fs = record.deep_view();
        let ghost rf = float_reading(*read_float);
        let mut score: i128 = 0;
        for i in 0..record.len()
            invariant
                score == header_score(fs.take(i as int), rf),
                -(i as int) <= score <= 2 * i,
                forall|j: int| 0 <= j < i ==> (#[trigger] fs[j]).len() > 0,
        {
            assert(fs.take(i + 1).drop_last() =~= fs.take(i as int));
            let field = record[i].as_str();
            let chars = chars_of(field);
            assert(fs[i as int] == chars@);
            if chars.len() == 0 {
                assert(fs[i as int].len() == 0);
                return None;
            }
            let lower = to_lowercase(field);
            let worded = holds_header_word(&chars_of(lower.as_str()));
            let spaced = index_of_char(&chars, ' ', 0).is_some();
            let bytes = utf8_len_of(&chars);
            let capital = char_is_uppercase(chars[0]) && bytes > 1;
            let numeric = read_float_of(&chars, read_float).is_some() && bytes < 5;
            proof {
                let f = chars@;
                assert(worded == has_header_word(lowercase(f)));
                assert(spaced == index_of(f, ' ') is Some);
                assert(capital == (is_upper(f[0]) && utf8_len(f) > 1));
                assert(numeric == (rf(f) is Some && utf8_len(f) < 5));
                assert(fs.take(i + 1).last() == f);
            }
            let delta: i128 = (if worded {
                1
            } else {
                0
            }) + (if spaced || capital {
                1
            } else {
                0
            }) - (if numeric {
                1
            } else {
                0
            });
            score = score + delta;
        }
        assert(fs.take(record.len() as int) =~= fs);
        Some(score > 0)
    }

    /// Probes a CSV text for its delimiter and header row, or answers `None`
    /// where a field of the first record is empty.
    #[verifier::loop_isolation(false)]
    pub fn try_probe<R: Fn(&str) -> Option<u64>>(content: &str, read_float: &R) -> (r: Option<
        CsvProbeResult,
    >)
        requires
            reads_floats(*read_float),
        ensures
            r == probe_result(content@, float_reading(*read_float)),
    {
        let ghost rf = float_reading(*read_float);
        let all = lines_of(&chars_of(content));
        let mut lines: Vec<Vec<char>> = Vec::new();
        let mut i: usize = 0;
        while i < all.len() && i < 10
            invariant
                i <= all.len(),
                i <= 10,
                texts(lines@) == texts(all@).take(i as int),
            decreases 10 - i,
        {
            let ghost before = texts(lines@);
            lines.push(slice_line(&all[i]));
            assert(texts(lines@) =~= before.push(all@[i as int]@));
            assert(texts(all@).take(i + 1) =~= texts(all@).take(i as int).push(all@[i as int]@));
            i = i + 1;
        }
        let ghost ls = texts(lines@);
        assert(ls =~= first_lines(content@, 10));
        if lines.len() == 0 {
            return Some(CsvProbeResult::default());
        }
        let delimiters = [',', '\t', ';', '|'];
        let mut counts: Vec<u128> = Vec::new();
        for k in 0..4
            invariant
                counts@.len() == k,
                delimiters@ == seq![',', '\t', ';', '|'],
                forall|j: int| 0 <= j < k ==> (#[trigger] counts@[j]) == delimiter_counts(ls)[j],
        {
            assert(delimiters@[k as int] == probe_delimiter(k as int) as char);
            counts.push(count_in_lines(&lines, delimiters[k]));
        }
        let ghost cm = delimiter_counts(ls);
        let mut idx: usize = 0;
        for k in 1..4
            invariant
                counts@.len() == 4,
                idx < k,
                idx == last_max(cm, k as int),
                forall|j: int| 0 <= j < 4 ==> (#[trigger] counts@[j]) == cm[j],
        {
            if counts[k] >= counts[idx] {
                idx = k;
            }
        }
        let found = counts[idx] > 0;
        let delimiter: u8 = if found {
            if idx == 0 {
                44
            } else if idx == 1 {
                9
            } else if idx == 2 {
                59
            } else {
                124
            }
        } else {
            44
        };
        let first = crate::text::string_of(&lines[0]);
        let mut rdr = csv_reader(first.as_str(), delimiter, false, false);
        match csv_next_record(&mut rdr) {
            Some(Ok(record)) => match Self::guess_header(&record, read_float) {
                Some(h) => Some(CsvProbeResult { delimiter, has_delimiter: found, has_header: h }),
                None => None,
            },
            _ => Some(CsvProbeResult { delimiter, has_delimiter: found, has_header: true }),
        }
    }

    /// Probes a CSV text for its delimiter and whether its first row is a
    /// header row.
    pub fn probe<R: Fn(&str) -> Option<u64>>(content: &str, read_float: &R) -> (r: CsvProbeResult)
        requires
            reads_floats(*read_float),
            probe_result(content@, float_reading(*read_float)) is Some,
        ensures
            Some(r) == probe_result(content@, float_reading(*read_float)),
    {
        match Self::try_probe(content, read_float) {
            Some(r) => r,
            None => CsvProbeResult::default(),
        }
    }
}

/// A copy of a line.
fn slice_line(l: &Vec<char>) -> (r: Vec<char>)
    ensures
        r@ == l@,
{
    crate::text::slice_chars(l, 0, l.len())
}

} // verus!
