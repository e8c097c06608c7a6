use crate::adapters::{Adapter, adapter_extensions, adapter_name, format_named};
use crate::cli::{bracket_step, closers_within, missing, open_after, repaired, without_trailing_commas};
use crate::csv_adapter::{
    field_score, has_header_word, header_guess, header_score, header_word,
    cell_text, column_key, csv_header, csv_parsed, csv_records, csv_table, inferred, row_entries,
    rows_data,
};
use crate::query::{QueryError, answers};
use crate::query_model::{
    condition_op_text, filter_condition, filter_condition_from,
    ExprModel, binop, scan_path, upl_parse, flush, SegmentModel, apply_step, eval, eval_steps, field_or_null, filter_items, items_of,
};
use crate::text::{
    find_from, occurs_at, trim, trim_end, trim_start,
    ascii_lower, ascii_lower_char, char_count, decimal, find, index_of_from, int_text, is_ascii_text, is_digit,
    lemma_char_count_concat, lemma_decimal_spells, parse_i64,
};
use crate::value::{
    Data, Value, data_eq, float_is_nan, entry_keys, entry_values, insert_entry, key_less, keys_ascending,
    lemma_insert_keeps_keys_ascending, lemma_key_less_transitive, lemma_key_less_trichotomy, lookup,
    truthy, well_formed,
};
use vstd::prelude::*;

verus! {

/// Reading a key back after inserting it gives the inserted value; reading
/// any other key gives what it gave before.
pub proof fn law_lookup_after_insert(
    m: Seq<(Seq<char>, Data)>,
    key: Seq<char>,
    val: Data,
    other: Seq<char>,
)
    ensures
        lookup(insert_entry(m, key, val), key) == Some(val),
        other != key ==> lookup(insert_entry(m, key, val), other) == lookup(m, other),
    decreases m.len(),
{
    let r = insert_entry(m, key, val);
    if m.len() == 0 {
        assert(r.drop_first() =~= Seq::<(Seq<char>, Data)>::empty());
        assert(lookup(r.drop_first(), other) == None::<Data>);
    } else if m[0].0 == key {
        assert(r.drop_first() =~= m.drop_first());
        if other != key {
            assert(lookup(r, other) == lookup(r.drop_first(), other));
            assert(lookup(m, other) == lookup(m.drop_first(), other));
        }
    } else if key_less(key, m[0].0) {
        assert(r.drop_first() =~= m);
    } else {
        law_lookup_after_insert(m.drop_first(), key, val, other);
        assert(r.drop_first() =~= insert_entry(m.drop_first(), key, val));
        assert(r[0] == m[0]);
    }
}

/// An object's entries do not depend on the order in which two different
/// keys were inserted: objects compare equal whatever order their fields
/// were read in.
pub proof fn law_insert_order_irrelevant(
    m: Seq<(Seq<char>, Data)>,
    k1: Seq<char>,
    v1: Data,
    k2: Seq<char>,
    v2: Data,
)
    requires
        k1 != k2,
    ensures
        insert_entry(insert_entry(m, k1, v1), k2, v2) == insert_entry(
            insert_entry(m, k2, v2),
            k1,
            v1,
        ),
    decreases m.len(),
{
    lemma_key_less_trichotomy(k1, k2);
    let a = insert_entry(insert_entry(m, k1, v1), k2, v2);
    let b = insert_entry(insert_entry(m, k2, v2), k1, v1);
    if m.len() == 0 {
        assert(insert_entry(m, k1, v1) =~= seq![(k1, v1)]);
        assert(insert_entry(m, k2, v2) =~= seq![(k2, v2)]);
        let e = Seq::<(Seq<char>, Data)>::empty();
        assert(seq![(k1, v1)].drop_first() =~= e);
        assert(seq![(k2, v2)].drop_first() =~= e);
        assert(insert_entry(e, k1, v1) =~= seq![(k1, v1)]);
        assert(insert_entry(e, k2, v2) =~= seq![(k2, v2)]);
        if key_less(k1, k2) {
            assert(a =~= seq![(k1, v1), (k2, v2)]);
            assert(b =~= seq![(k1, v1), (k2, v2)]);
        } else {
            assert(a =~= seq![(k2, v2), (k1, v1)]);
            assert(b =~= seq![(k2, v2), (k1, v1)]);
        }
    } else {
        let h = m[0].0;
        let t = m.drop_first();
        lemma_key_less_trichotomy(k1, h);
        lemma_key_less_trichotomy(k2, h);
        if key_less(k1, h) && key_less(h, k2) {
            lemma_key_less_transitive(k1, h, k2);
        }
        if key_less(k2, h) && key_less(h, k1) {
            lemma_key_less_transitive(k2, h, k1);
        }
        if key_less(h, k1) && key_less(h, k2) {
            law_insert_order_irrelevant(t, k1, v1, k2, v2);
            let i1 = insert_entry(m, k1, v1);
            let i2 = insert_entry(m, k2, v2);
            assert(i1 =~= seq![m[0]] + insert_entry(t, k1, v1));
            assert(i2 =~= seq![m[0]] + insert_entry(t, k2, v2));
            assert(i1.drop_first() =~= insert_entry(t, k1, v1));
            assert(i2.drop_first() =~= insert_entry(t, k2, v2));
            assert(a =~= b);
        } else {
            let i1 = insert_entry(m, k1, v1);
            let i2 = insert_entry(m, k2, v2);
            assert(i1.drop_first() =~= if k1 == h {
                t
            } else if key_less(k1, h) {
                m
            } else {
                insert_entry(t, k1, v1)
            });
            assert(i2.drop_first() =~= if k2 == h {
                t
            } else if key_less(k2, h) {
                m
            } else {
                insert_entry(t, k2, v2)
            });
            if key_less(k1, h) {
                assert(i1 =~= seq![(k1, v1)] + m);
                assert(m.drop_first() =~= t);
            }
            if key_less(k2, h) {
                assert(i2 =~= seq![(k2, v2)] + m);
                assert(m.drop_first() =~= t);
            }
            assert(a =~= b);
        }
    }
}

/// Inserting a key twice keeps only the later value.
pub proof fn law_insert_twice(m: Seq<(Seq<char>, Data)>, k: Seq<char>, v1: Data, v2: Data)
    ensures
        insert_entry(insert_entry(m, k, v1), k, v2) == insert_entry(m, k, v2),
    decreases m.len(),
{
    let i = insert_entry(m, k, v1);
    if m.len() == 0 {
        assert(i.drop_first() =~= m);
    } else if m[0].0 == k {
        assert(i.drop_first() =~= m.drop_first());
    } else if key_less(k, m[0].0) {
        assert(i.drop_first() =~= m);
    } else {
        law_insert_twice(m.drop_first(), k, v1, v2);
        assert(i.drop_first() =~= insert_entry(m.drop_first(), k, v1));
    }
}

/// Whatever is inserted, an object with ascending keys keeps them ascending.
pub proof fn law_insert_keeps_keys_ascending(m: Seq<(Seq<char>, Data)>, k: Seq<char>, v: Data)
    requires
        keys_ascending(m),
    ensures
        keys_ascending(insert_entry(m, k, v)),
{
    lemma_insert_keeps_keys_ascending(m, k, v);
}

/// A wildcard gives an array: the elements of an array, the values of an
/// object, or a scalar on its own.
pub proof fn law_wildcard_gives_array(v: Data, fadd: spec_fn(u64, u64) -> u64)
    ensures
        apply_step(v, SegmentModel::Wildcard, fadd) matches Ok(r) && r is Array,
{
}

/// A path that ends in a filter gives an array whenever it gives anything,
/// even a single match.
pub proof fn law_filter_path_gives_array(
    steps: Seq<SegmentModel>,
    pred: ExprModel,
    v: Data,
    fadd: spec_fn(u64, u64) -> u64,
)
    ensures
        eval_steps(steps.push(SegmentModel::Filter(pred)), v, fadd) matches Ok(r) ==> r is Array,
{
    let p = steps.push(SegmentModel::Filter(pred));
    assert(p.drop_last() =~= steps);
    assert(p.last() == SegmentModel::Filter(pred));
    assert(p.len() > 0);
    if let Ok(cur) = eval_steps(steps, v, fadd) {
        assert(eval_steps(p, v, fadd) == apply_step(cur, SegmentModel::Filter(pred), fadd));
    }
}

/// A filter keeps exactly the items whose predicate is truthy: what it keeps
/// are items with a truthy predicate, at most as many as there were, and
/// each item with a truthy predicate is kept; where it succeeds, the
/// predicate succeeded on every item.
pub proof fn law_filter_keeps_truthy(pred: ExprModel, items: Seq<Data>, fadd: spec_fn(u64, u64) -> u64)
    ensures
        filter_items(pred, items, fadd) matches Ok(r) ==> {
            &&& r.len() <= items.len()
            &&& forall|j: int|
                0 <= j < r.len() ==> items.contains(#[trigger] r[j]) && (eval(pred, r[j], fadd) matches Ok(
                    p,
                ) && truthy(p))
            &&& forall|i: int|
                0 <= i < items.len() ==> (eval(pred, #[trigger] items[i], fadd) matches Ok(p) && (
                truthy(p) ==> r.contains(items[i])))
        },
    decreases items.len(),
{
    if items.len() > 0 {
        let init = items.drop_last();
        law_filter_keeps_truthy(pred, init, fadd);
        if let Ok(r) = filter_items(pred, items, fadd) {
            let acc = filter_items(pred, init, fadd)->Ok_0;
            let x = items.last();
            assert forall|j: int| 0 <= j < acc.len() implies items.contains(#[trigger] acc[j]) by {
                let k = choose|k: int| 0 <= k < init.len() && init[k] == acc[j];
                assert(items[k] == init[k]);
            }
            assert(items[items.len() - 1] == x);
            assert forall|i: int| 0 <= i < items.len() implies (eval(pred, #[trigger] items[i], fadd) matches Ok(
                p,
            ) && (truthy(p) ==> r.contains(items[i]))) by {
                if i < items.len() - 1 {
                    assert(items[i] == init[i]);
                    if truthy(eval(pred, items[i], fadd)->Ok_0) {
                        let k = choose|k: int| 0 <= k < acc.len() && acc[k] == init[i];
                        assert(r[k] == acc[k]);
                    }
                } else if truthy(eval(pred, x, fadd)->Ok_0) {
                    assert(r[r.len() - 1] == x);
                }
            }
        }
    }
}

/// No character occurs a negative number of times.
proof fn lemma_char_count_nonnegative(s: Seq<char>, c: char)
    ensures
        char_count(s, c) >= 0,
    decreases s.len(),
{
    if s.len() > 0 {
        lemma_char_count_nonnegative(s.drop_last(), c);
    }
}

/// A single character occurs once in itself, and no other character does.
proof fn lemma_char_count_single(c: char)
    ensures
        forall|x: char| #[trigger] char_count(seq![c], x) == if c == x {
            1int
        } else {
            0int
        },
{
    assert forall|x: char| #[trigger] char_count(seq![c], x) == if c == x {
        1int
    } else {
        0int
    } by {
        let s = seq![c];
        assert(s.drop_last() =~= Seq::<char>::empty());
        assert(s.last() == c);
        reveal_with_fuel(char_count, 2);
    }
}

/// The closers chosen within budgets are exactly the budgets' numbers of
/// `}` and `]`, and no openers, where enough openers of each kind are open.
proof fn lemma_closers_within_count(open: Seq<char>, braces: int, brackets: int)
    requires
        0 <= braces <= char_count(open, '{'),
        0 <= brackets <= char_count(open, '['),
    ensures
        char_count(closers_within(open, braces, brackets), '}') == braces,
        char_count(closers_within(open, braces, brackets), ']') == brackets,
        char_count(closers_within(open, braces, brackets), '{') == 0,
        char_count(closers_within(open, braces, brackets), '[') == 0,
    decreases open.len(),
{
    if open.len() > 0 {
        let rest = open.drop_last();
        assert(char_count(open, '{') == char_count(rest, '{') + if open.last() == '{' {
            1int
        } else {
            0int
        });
        assert(char_count(open, '[') == char_count(rest, '[') + if open.last() == '[' {
            1int
        } else {
            0int
        });
        lemma_char_count_single('}');
        lemma_char_count_single(']');
        if open.last() == '{' && braces > 0 {
            lemma_closers_within_count(rest, braces - 1, brackets);
            let t = closers_within(rest, braces - 1, brackets);
            lemma_char_count_concat(seq!['}'], t, '}');
            lemma_char_count_concat(seq!['}'], t, ']');
            lemma_char_count_concat(seq!['}'], t, '{');
            lemma_char_count_concat(seq!['}'], t, '[');
            assert(seq!['}'].drop_last() =~= Seq::<char>::empty());
        } else if open.last() == '[' && brackets > 0 {
            lemma_closers_within_count(rest, braces, brackets - 1);
            let t = closers_within(rest, braces, brackets - 1);
            lemma_char_count_concat(seq![']'], t, '}');
            lemma_char_count_concat(seq![']'], t, ']');
            lemma_char_count_concat(seq![']'], t, '{');
            lemma_char_count_concat(seq![']'], t, '[');
            assert(seq![']'].drop_last() =~= Seq::<char>::empty());
        } else {
            lemma_char_count_nonnegative(rest, '{');
            lemma_char_count_nonnegative(rest, '[');
            lemma_closers_within_count(rest, braces, brackets);
        }
    } else {
        assert(closers_within(open, braces, brackets) =~= Seq::<char>::empty());
    }
}

/// What is left open holds at least as many of each opener as the text
/// holds more openers than closers of that kind.
proof fn lemma_open_count(open: Seq<char>, s: Seq<char>)
    ensures
        char_count(open_after(open, s), '{') >= char_count(open, '{') + char_count(s, '{')
            - char_count(s, '}'),
        char_count(open_after(open, s), '[') >= char_count(open, '[') + char_count(s, '[')
            - char_count(s, ']'),
    decreases s.len(),
{
    if s.len() > 0 {
        let c = s[0];
        let next = bracket_step(open, c);
        lemma_open_count(next, s.drop_first());
        assert(s =~= seq![c] + s.drop_first());
        lemma_char_count_concat(seq![c], s.drop_first(), '{');
        lemma_char_count_concat(seq![c], s.drop_first(), '}');
        lemma_char_count_concat(seq![c], s.drop_first(), '[');
        lemma_char_count_concat(seq![c], s.drop_first(), ']');
        assert(seq![c].drop_last() =~= Seq::<char>::empty());
        lemma_char_count_single(c);
        if c == '{' || c == '[' {
            assert(next.drop_last() =~= open);
            assert(next.last() == c);
        } else if open.len() > 0 && ((c == '}' && open.last() == '{') || (c == ']' && open.last()
            == '[')) {
            assert(next == open.drop_last());
            assert(char_count(open, '{') == char_count(next, '{') + if open.last() == '{' {
                1int
            } else {
                0int
            });
            assert(char_count(open, '[') == char_count(next, '[') + if open.last() == '[' {
                1int
            } else {
                0int
            });
        }
    }
}

/// A repaired JSON text that closed no more braces and brackets than it
/// opened holds as many closers as openers of each kind.
pub proof fn law_repair_balances(input: Seq<char>)
    requires
        char_count(without_trailing_commas(input), '}') <= char_count(
            without_trailing_commas(input),
            '{',
        ),
        char_count(without_trailing_commas(input), ']') <= char_count(
            without_trailing_commas(input),
            '[',
        ),
    ensures
        char_count(repaired(input, "json"@), '{') == char_count(repaired(input, "json"@), '}'),
        char_count(repaired(input, "json"@), '[') == char_count(repaired(input, "json"@), ']'),
{
    let f = without_trailing_commas(input);
    let open = open_after(Seq::empty(), f);
    let nb = missing(f, '{', '}');
    let nk = missing(f, '[', ']');
    lemma_open_count(Seq::empty(), f);
    assert(char_count(Seq::<char>::empty(), '{') == 0 && char_count(Seq::<char>::empty(), '[') == 0);
    lemma_closers_within_count(open, nb, nk);
    let out = closers_within(open, nb, nk);
    lemma_char_count_concat(f, out, '{');
    lemma_char_count_concat(f, out, '}');
    lemma_char_count_concat(f, out, '[');
    lemma_char_count_concat(f, out, ']');
}

/// The decimal text of an integer reads back as that integer.
pub proof fn law_integer_text_round_trip(i: i64)
    ensures
        parse_i64(int_text(i as int)) == Some(i),
{
    let t = int_text(i as int);
    if i < 0 {
        let n = (-i) as nat;
        lemma_decimal_spells(n);
        assert(t.drop_first() =~= decimal(n));
    } else {
        lemma_decimal_spells(i as nat);
        assert(is_digit(t[0]));
    }
}

/// An integer written into a CSV cell is read back from it as the same
/// integer, whatever floats are written and read as.
pub proof fn law_integer_cell_round_trip(
    i: i64,
    write_float: spec_fn(u64) -> Seq<char>,
    read_float: spec_fn(Seq<char>) -> Option<u64>,
)
    ensures
        inferred(cell_text(Data::Integer(i), write_float), read_float) == Data::Integer(i),
{
    law_integer_text_round_trip(i);
    lemma_decimal_spells(if i < 0 {
        (-i) as nat
    } else {
        i as nat
    });
}

/// Every entry after an insertion is the inserted one or one from before.
proof fn lemma_insert_entries_from(m: Seq<(Seq<char>, Data)>, k: Seq<char>, v: Data)
    ensures
        forall|i: int|
            0 <= i < insert_entry(m, k, v).len() ==> #[trigger] insert_entry(m, k, v)[i] == (k, v)
                || m.contains(insert_entry(m, k, v)[i]),
    decreases m.len(),
{
    let r = insert_entry(m, k, v);
    if m.len() > 0 {
        let t = m.drop_first();
        lemma_insert_entries_from(t, k, v);
        assert forall|i: int| 0 <= i < r.len() implies #[trigger] r[i] == (k, v) || m.contains(r[i]) by {
            if m[0].0 == k {
                if i > 0 {
                    assert(r[i] == m[i]);
                }
            } else if key_less(k, m[0].0) {
                if i > 0 {
                    assert(r[i] == m[i - 1]);
                }
            } else if i == 0 {
                assert(r[0] == m[0]);
            } else {
                let ti = insert_entry(t, k, v);
                assert(r[i] == ti[i - 1]);
                if ti[i - 1] != (k, v) {
                    let j = choose|j: int| 0 <= j < t.len() && t[j] == ti[i - 1];
                    assert(m[j + 1] == t[j]);
                }
            }
        }
    }
}

/// The object a CSV row stands for has ascending keys and scalar values.
proof fn lemma_row_well_formed(
    header: Option<Seq<Seq<char>>>,
    fields: Seq<Seq<char>>,
    read_float: spec_fn(Seq<char>) -> Option<u64>,
)
    ensures
        keys_ascending(row_entries(header, fields, read_float)),
        forall|i: int|
            0 <= i < row_entries(header, fields, read_float).len() ==> !(#[trigger] row_entries(
                header,
                fields,
                read_float,
            )[i].1 is Array || row_entries(header, fields, read_float)[i].1 is Object),
    decreases fields.len(),
{
    if fields.len() > 0 {
        let prev = row_entries(header, fields.drop_last(), read_float);
        lemma_row_well_formed(header, fields.drop_last(), read_float);
        let k = column_key(header, fields.len() - 1);
        let v = inferred(fields.last(), read_float);
        lemma_insert_keeps_keys_ascending(prev, k, v);
        lemma_insert_entries_from(prev, k, v);
        let r = row_entries(header, fields, read_float);
        assert forall|i: int| 0 <= i < r.len() implies !(#[trigger] r[i].1 is Array || r[i].1 is Object) by {
            if r[i] != (k, v) {
                let j = choose|j: int| 0 <= j < prev.len() && prev[j] == r[i];
                assert(prev[j] == r[i]);
            }
        }
    }
}

/// CSV rows become one object per record, in order, each with ascending
/// keys and scalar values; reading fails exactly where a record fails.
pub proof fn law_csv_one_object_per_record(
    header: Option<Seq<Seq<char>>>,
    records: Seq<Result<Seq<Seq<char>>, Seq<char>>>,
    read_float: spec_fn(Seq<char>) -> Option<u64>,
)
    ensures
        rows_data(header, records, read_float) is Ok <==> forall|j: int|
            0 <= j < records.len() ==> (#[trigger] records[j]) is Ok,
        rows_data(header, records, read_float) matches Ok(rows) ==> {
            &&& rows.len() == records.len()
            &&& forall|j: int|
                0 <= j < rows.len() ==> #[trigger] rows[j] == Data::Object(
                    row_entries(header, records[j]->Ok_0, read_float),
                ) && well_formed(rows[j])
        },
    decreases records.len(),
{
    if records.len() > 0 {
        let init = records.drop_last();
        law_csv_one_object_per_record(header, init, read_float);
        assert forall|j: int| 0 <= j < init.len() implies #[trigger] init[j] == records[j] by {}
        if let Ok(rows) = rows_data(header, records, read_float) {
            let acc = rows_data(header, init, read_float)->Ok_0;
            assert forall|j: int| 0 <= j < rows.len() implies #[trigger] rows[j] == Data::Object(
                row_entries(header, records[j]->Ok_0, read_float),
            ) && well_formed(rows[j]) by {
                let m = row_entries(header, records[j]->Ok_0, read_float);
                lemma_row_well_formed(header, records[j]->Ok_0, read_float);
                if j < acc.len() {
                    assert(rows[j] == acc[j]);
                    assert(init[j] == records[j]);
                }
                assert(forall|i: int| 0 <= i < m.len() ==> well_formed(#[trigger] m[i].1));
            }
        }
        let n = records.len() - 1;
        assert(records[n] == records.last());
        if forall|j: int| 0 <= j < records.len() ==> (#[trigger] records[j]) is Ok {
            assert forall|j: int| 0 <= j < init.len() implies (#[trigger] init[j]) is Ok by {
                assert(init[j] == records[j]);
            }
            assert(records[n] is Ok);
        }
        if rows_data(header, records, read_float) is Ok {
            assert forall|j: int| 0 <= j < records.len() implies (#[trigger] records[j]) is Ok by {
                if j < n {
                    assert(init[j] == records[j]);
                    assert(init[j] is Ok);
                }
            }
        }
    }
}

/// A CSV text reads as an array with one well-formed object per record
/// that the csv crate yields.
pub proof fn law_csv_parse_well_formed(
    input: Seq<char>,
    delimiter: u8,
    has_header: bool,
    read_float: spec_fn(Seq<char>) -> Option<u64>,
)
    ensures
        csv_parsed(input, delimiter, has_header, read_float) matches Ok(d) ==> {
            &&& well_formed(d)
            &&& d matches Data::Array(rows) && rows.len() == csv_records(
                input,
                delimiter,
                has_header,
                true,
            ).len()
        },
{
    let records = csv_records(input, delimiter, has_header, true);
    law_csv_one_object_per_record(None, records, read_float);
    if has_header {
        if let Ok(h) = csv_header(input, delimiter, true) {
            law_csv_one_object_per_record(Some(h), records, read_float);
        }
    }
}

/// A table written for CSV has the keys of the first object as its header
/// row, then one row per element, each with a cell per key.
pub proof fn law_csv_table_shape(items: Seq<Data>, write_float: spec_fn(u64) -> Seq<char>)
    requires
        items.len() > 0,
    ensures
        csv_table(Data::Array(items), write_float) matches Ok(rows) ==> {
            &&& items[0] matches Data::Object(first) && rows[0] == entry_keys(first)
            &&& rows.len() == items.len() + 1
            &&& forall|j: int| 0 <= j < rows.len() ==> (#[trigger] rows[j]).len() == rows[0].len()
        },
{
}

/// Each extension a format lists is recognized as that format.
pub proof fn law_extensions_recognized(a: Adapter, i: int)
    requires
        0 <= i < adapter_extensions(a).len(),
    ensures
        format_named(adapter_extensions(a)[i]) == Some(a),
{
    reveal_strlit("json");
    reveal_strlit("yaml");
    reveal_strlit("yml");
    reveal_strlit("toml");
    reveal_strlit("csv");
    assert("yaml"@[0] != "json"@[0]);
    assert("yml"@.len() != "json"@.len());
    assert("toml"@[0] != "json"@[0] && "toml"@[0] != "yaml"@[0]);
    assert("toml"@.len() != "yml"@.len());
    assert("csv"@.len() != "json"@.len() && "csv"@.len() != "yaml"@.len());
    assert("csv"@.len() != "toml"@.len() && "csv"@[0] != "yml"@[0]);
}

/// Comparing two documents gives the same answer either way round.
pub proof fn law_data_eq_symmetric(a: Data, b: Data)
    ensures
        data_eq(a, b) == data_eq(b, a),
    decreases a,
{
    match (a, b) {
        (Data::Array(x), Data::Array(y)) => {
            if x.len() == y.len() {
                assert forall|i: int| 0 <= i < x.len() implies data_eq(#[trigger] x[i], y[i]) == data_eq(
                    y[i],
                    x[i],
                ) by {
                    law_data_eq_symmetric(x[i], y[i]);
                }
            }
        },
        (Data::Object(x), Data::Object(y)) => {
            if x.len() == y.len() {
                assert forall|i: int| 0 <= i < x.len() implies data_eq((#[trigger] x[i]).1, y[i].1) == data_eq(
                    y[i].1,
                    x[i].1,
                ) by {
                    law_data_eq_symmetric(x[i].1, y[i].1);
                }
            }
        },
        _ => {},
    }
}

/// The document holds no NaN anywhere.
pub open spec fn nan_free(d: Data) -> bool
    decreases d,
{
    match d {
        Data::Float(f) => !float_is_nan(f),
        Data::Array(a) => forall|i: int| 0 <= i < a.len() ==> nan_free(#[trigger] a[i]),
        Data::Object(m) => forall|i: int| 0 <= i < m.len() ==> nan_free((#[trigger] m[i]).1),
        _ => true,
    }
}

/// A document compares equal to itself, unless it holds a NaN, which
/// equals nothing.
pub proof fn law_data_eq_reflexive(a: Data)
    requires
        nan_free(a),
    ensures
        data_eq(a, a),
    decreases a,
{
    match a {
        Data::Array(x) => {
            assert forall|i: int| 0 <= i < x.len() implies data_eq(#[trigger] x[i], x[i]) by {
                law_data_eq_reflexive(x[i]);
            }
        },
        Data::Object(x) => {
            assert forall|i: int| 0 <= i < x.len() implies (#[trigger] x[i]).0 == x[i].0 && data_eq(
                x[i].1,
                x[i].1,
            ) by {
                law_data_eq_reflexive(x[i].1);
            }
        },
        _ => {},
    }
}

/// Evaluating a query gives the same outcome every time: two results that
/// answer the same evaluation denote the same document or the same error.
pub proof fn law_query_deterministic(
    r1: Result<Value, QueryError>,
    r2: Result<Value, QueryError>,
    e: ExprModel,
    v: Data,
    fadd: spec_fn(u64, u64) -> u64,
)
    requires
        answers(r1, eval(e, v, fadd)),
        answers(r2, eval(e, v, fadd)),
    ensures
        match (r1, r2) {
            (Ok(a), Ok(b)) => a@ == b@,
            (Err(x), Err(y)) => x@ == y@,
            _ => false,
        },
{
}

/// What a lookup finds is the value of one of the entries.
proof fn lemma_lookup_finds_entry(m: Seq<(Seq<char>, Data)>, key: Seq<char>)
    ensures
        lookup(m, key) matches Some(x) ==> exists|i: int| 0 <= i < m.len() && (#[trigger] m[i]).1 == x,
    decreases m.len(),
{
    if m.len() > 0 && m[0].0 != key {
        lemma_lookup_finds_entry(m.drop_first(), key);
        if let Some(x) = lookup(m, key) {
            let i = choose|i: int| 0 <= i < m.drop_first().len() && (#[trigger] m.drop_first()[i]).1 == x;
            assert(m[i + 1] == m.drop_first()[i]);
        }
    } else if m.len() > 0 {
        assert(m[0].1 == lookup(m, key)->Some_0);
    }
}

/// One path segment applied to a well-formed document gives a well-formed
/// document.
proof fn lemma_step_keeps_well_formed(v: Data, s: SegmentModel, fadd: spec_fn(u64, u64) -> u64)
    requires
        well_formed(v),
    ensures
        apply_step(v, s, fadd) matches Ok(r) ==> well_formed(r),
{
    match s {
        SegmentModel::Field(name) => match v {
            Data::Object(m) => {
                lemma_lookup_finds_entry(m, name);
                if let Some(x) = lookup(m, name) {
                    let k = choose|k: int| 0 <= k < m.len() && (#[trigger] m[k]).1 == x;
                    assert(well_formed(m[k].1));
                }
            },
            Data::Array(a) => {
                let r = a.map_values(|x: Data| field_or_null(x, name));
                assert forall|i: int| 0 <= i < r.len() implies well_formed(#[trigger] r[i]) by {
                    assert(r[i] == field_or_null(a[i], name));
                    assert(well_formed(a[i]));
                    if let Data::Object(m) = a[i] {
                        lemma_lookup_finds_entry(m, name);
                        if let Some(x) = lookup(m, name) {
                            let k = choose|k: int| 0 <= k < m.len() && (#[trigger] m[k]).1 == x;
                            assert(well_formed(m[k].1));
                        }
                    }
                }
            },
            _ => {},
        },
        SegmentModel::Wildcard => {
            if let Data::Object(m) = v {
                let r = entry_values(m);
                assert forall|i: int| 0 <= i < r.len() implies well_formed(#[trigger] r[i]) by {
                    assert(r[i] == m[i].1);
                }
            }
        },
        SegmentModel::Filter(pred) => {
            if let Some(items) = items_of(v) {
                assert forall|i: int| 0 <= i < items.len() implies well_formed(#[trigger] items[i]) by {
                    if let Data::Object(m) = v {
                        assert(items[i] == m[i].1);
                    }
                }
                law_filter_keeps_truthy(pred, items, fadd);
                if let Ok(r) = filter_items(pred, items, fadd) {
                    assert forall|j: int| 0 <= j < r.len() implies well_formed(#[trigger] r[j]) by {
                        let k = choose|k: int| 0 <= k < items.len() && items[k] == r[j];
                        assert(well_formed(items[k]));
                    }
                }
            }
        },
        _ => {},
    }
}

/// A path applied to a well-formed document gives a well-formed document:
/// query results keep every object's keys ascending.
pub proof fn law_path_keeps_well_formed(steps: Seq<SegmentModel>, v: Data, fadd: spec_fn(u64, u64) -> u64)
    requires
        well_formed(v),
    ensures
        eval_steps(steps, v, fadd) matches Ok(r) ==> well_formed(r),
    decreases steps.len(),
{
    if steps.len() > 0 {
        law_path_keeps_well_formed(steps.drop_last(), v, fadd);
        if let Ok(cur) = eval_steps(steps.drop_last(), v, fadd) {
            lemma_step_keeps_well_formed(cur, steps.last(), fadd);
        }
    }
}

/// Paths compose: the segments of a path apply left to right, so a path
/// made of two gives what the second gives applied to what the first gives,
/// or the first one's failure.
pub proof fn law_path_composition(
    s1: Seq<SegmentModel>,
    s2: Seq<SegmentModel>,
    v: Data,
    fadd: spec_fn(u64, u64) -> u64,
)
    ensures
        eval_steps(s1 + s2, v, fadd) == match eval_steps(s1, v, fadd) {
            Ok(w) => eval_steps(s2, w, fadd),
            Err(a) => Err(a),
        },
    decreases s2.len(),
{
    if s2.len() == 0 {
        assert(s1 + s2 =~= s1);
    } else {
        law_path_composition(s1, s2.drop_last(), v, fadd);
        assert((s1 + s2).drop_last() =~= s1 + s2.drop_last());
        assert((s1 + s2).last() == s2.last());
    }
}

/// A filter segment on an array, or on an object's values in key order,
/// gives, where the predicate succeeds on every item, exactly the items
/// whose predicate is truthy, in order; on a scalar it is a type error.
pub proof fn law_filter_segment(pred: ExprModel, v: Data, fadd: spec_fn(u64, u64) -> u64)
    ensures
        !(v is Array || v is Object) ==> apply_step(v, SegmentModel::Filter(pred), fadd)
            == Err::<Data, crate::query_model::Abort>(
            crate::query_model::type_mismatch("array or object", "scalar"),
        ),
        items_of(v) matches Some(items) ==> ((forall|i: int|
            0 <= i < items.len() ==> eval(pred, #[trigger] items[i], fadd) is Ok) ==> apply_step(
            v,
            SegmentModel::Filter(pred),
            fadd,
        ) == Ok::<Data, crate::query_model::Abort>(
            Data::Array(items.filter(|x: Data| truthy(eval(pred, x, fadd)->Ok_0))),
        )),
{
    if let Some(items) = items_of(v) {
        if forall|i: int| 0 <= i < items.len() ==> eval(pred, #[trigger] items[i], fadd) is Ok {
            lemma_filter_items_exact(pred, items, fadd);
        }
    }
}

/// Where the predicate succeeds on every item, the filter is `Seq::filter`
/// by truthiness.
proof fn lemma_filter_items_exact(pred: ExprModel, items: Seq<Data>, fadd: spec_fn(u64, u64) -> u64)
    requires
        forall|i: int| 0 <= i < items.len() ==> eval(pred, #[trigger] items[i], fadd) is Ok,
    ensures
        filter_items(pred, items, fadd) == Ok::<Seq<Data>, crate::query_model::Abort>(
            items.filter(|x: Data| truthy(eval(pred, x, fadd)->Ok_0)),
        ),
    decreases items.len(),
{
    if items.len() > 0 {
        let init = items.drop_last();
        assert forall|i: int| 0 <= i < init.len() implies eval(pred, #[trigger] init[i], fadd) is Ok by {
            assert(init[i] == items[i]);
        }
        lemma_filter_items_exact(pred, init, fadd);
        assert(items[items.len() - 1] == items.last());
        assert(eval(pred, items[items.len() - 1], fadd) is Ok);
        let f = |x: Data| truthy(eval(pred, x, fadd)->Ok_0);
        reveal(Seq::filter);
        assert(items.filter(f) == if f(items.last()) {
            init.filter(f).push(items.last())
        } else {
            init.filter(f)
        });
    } else {
        let f = |x: Data| truthy(eval(pred, x, fadd)->Ok_0);
        reveal(Seq::filter);
        assert(items.filter(f) =~= Seq::<Data>::empty());
    }
}

/// Each format's display name, lower-cased, names that format again.
pub proof fn law_name_round_trip(a: Adapter)
    ensures
        is_ascii_text(adapter_name(a)),
        format_named(ascii_lower(adapter_name(a))) == Some(a),
{
    reveal_strlit("JSON");
    reveal_strlit("YAML");
    reveal_strlit("TOML");
    reveal_strlit("CSV");
    reveal_strlit("json");
    reveal_strlit("yaml");
    reveal_strlit("yml");
    reveal_strlit("toml");
    reveal_strlit("csv");
    let n = adapter_name(a);
    assert(ascii_lower_char('J') == 'j' && ascii_lower_char('S') == 's' && ascii_lower_char('O') == 'o'
        && ascii_lower_char('N') == 'n');
    assert(ascii_lower_char('Y') == 'y' && ascii_lower_char('A') == 'a' && ascii_lower_char('M')
        == 'm' && ascii_lower_char('L') == 'l');
    assert(ascii_lower_char('T') == 't' && ascii_lower_char('C') == 'c' && ascii_lower_char('V')
        == 'v');
    match a {
        Adapter::Json => assert(ascii_lower(n) =~= "json"@),
        Adapter::Yaml => {
            assert(ascii_lower(n) =~= "yaml"@);
        },
        Adapter::Toml => assert(ascii_lower(n) =~= "toml"@),
        Adapter::Csv => {
            assert(ascii_lower(n) =~= "csv"@);
            assert("csv"@ != "json"@ && "csv"@ != "yaml"@ && "csv"@ != "yml"@ && "csv"@ != "toml"@) by {
                assert("csv"@.len() != "json"@.len() && "csv"@.len() != "yaml"@.len());
                assert("csv"@.len() != "toml"@.len() && "csv"@[0] != "yml"@[0]);
            }
        },
    }
    if a == Adapter::Yaml {
        assert("yaml"@[0] != "json"@[0]);
    }
    if a == Adapter::Toml {
        assert("toml"@[0] != "json"@[0] && "toml"@[0] != "yaml"@[0] && "toml"@.len() != "yml"@.len());
    }
}

/// The texts that name a format are exactly its extensions, and each of
/// them, in lower case already, is kept by lower-casing: so an extension in
/// any ASCII case names its format, and a text that no format lists names
/// none.
pub proof fn law_extensions_are_the_names(t: Seq<char>, a: Adapter)
    ensures
        format_named(t) == Some(a) <==> adapter_extensions(a).contains(t),
        adapter_extensions(a).contains(t) ==> is_ascii_text(t) && ascii_lower(t) == t,
{
    reveal_strlit("json");
    reveal_strlit("yaml");
    reveal_strlit("yml");
    reveal_strlit("toml");
    reveal_strlit("csv");
    assert("yaml"@[0] != "json"@[0]);
    assert("yml"@.len() != "json"@.len());
    assert("toml"@[0] != "json"@[0] && "toml"@[0] != "yaml"@[0]);
    assert("toml"@.len() != "yml"@.len());
    assert("csv"@.len() != "json"@.len() && "csv"@.len() != "yaml"@.len());
    assert("csv"@.len() != "toml"@.len() && "csv"@[0] != "yml"@[0]);
    let es = adapter_extensions(a);
    if es.contains(t) {
        let i = choose|i: int| 0 <= i < es.len() && es[i] == t;
        law_extensions_recognized(a, i);
        assert(ascii_lower(t) =~= t);
    }
    if format_named(t) == Some(a) {
        match a {
            Adapter::Json => assert(es[0] == t),
            Adapter::Yaml => if t == "yaml"@ {
                assert(es[0] == t);
            } else {
                assert(es[1] == t);
            },
            Adapter::Toml => assert(es[0] == t),
            Adapter::Csv => assert(es[0] == t),
        }
    }
}

/// Searching a text placed after another finds what searching it alone
/// finds, shifted by the length of what stands before.
proof fn lemma_index_of_from_shift(x: Seq<char>, s: Seq<char>, c: char, i: int)
    requires
        0 <= i,
    ensures
        index_of_from(x + s, c, x.len() + i) == match index_of_from(s, c, i) {
            Some(j) => Some(x.len() + j),
            None => None::<int>,
        },
    decreases s.len() - i,
{
    if i < s.len() {
        assert((x + s)[x.len() + i] == s[i]);
        if s[i] != c {
            lemma_index_of_from_shift(x, s, c, i + 1);
        }
    }
}

/// Scanning a path placed after another text, from past that text, is
/// scanning the path alone.
proof fn lemma_scan_shift(
    x: Seq<char>,
    s: Seq<char>,
    i: int,
    segs: Seq<SegmentModel>,
    cur: Seq<char>,
    rf: spec_fn(Seq<char>) -> Option<u64>,
)
    requires
        0 <= i,
    ensures
        scan_path(x + s, x.len() + i, segs, cur, rf) == scan_path(s, i, segs, cur, rf),
    decreases s.len() - i,
{
    let p = x + s;
    let k = x.len() + i;
    if i < s.len() {
        assert(p[k] == s[i]);
        if s[i] == '.' {
            lemma_scan_shift(x, s, i + 1, flush(segs, cur), Seq::empty(), rf);
        } else if s[i] == '[' {
            lemma_index_of_from_shift(x, s, ']', i + 1);
            if let Some(j) = index_of_from(s, ']', i + 1) {
                crate::text::lemma_index_of_from(s, ']', i + 1);
                assert(p.subrange(k + 1, x.len() + j) =~= s.subrange(i + 1, j));
                if let Some(Ok(seg)) = crate::query_model::bracket_segment(s.subrange(i + 1, j), rf) {
                    lemma_scan_shift(x, s, j + 1, flush(segs, cur).push(seg), Seq::empty(), rf);
                }
            }
        } else {
            lemma_scan_shift(x, s, i + 1, segs, cur.push(s[i]), rf);
        }
    }
}

/// A leading dot changes nothing: `.name` parses as `name` does.
pub proof fn law_leading_dot_ignored(s: Seq<char>, rf: spec_fn(Seq<char>) -> Option<u64>)
    ensures
        upl_parse(seq!['.'] + s, rf) == upl_parse(s, rf),
{
    let p = seq!['.'] + s;
    assert(p[0] == '.');
    assert(flush(Seq::<SegmentModel>::empty(), Seq::<char>::empty()) == Seq::<SegmentModel>::empty());
    lemma_scan_shift(seq!['.'], s, 0, Seq::empty(), Seq::empty(), rf);
}

/// The equality operators never fail and answer either way round alike;
/// `!=` answers the opposite of `==`. An integer and a float are never
/// equal, even of the same number.
pub proof fn law_equality_operators(l: Data, r: Data, fadd: spec_fn(u64, u64) -> u64)
    ensures
        binop(l, crate::query::BinaryOperator::Eq, r, fadd) == Ok::<Data, crate::query_model::Abort>(
            Data::Bool(data_eq(l, r)),
        ),
        binop(l, crate::query::BinaryOperator::Eq, r, fadd) == binop(
            r,
            crate::query::BinaryOperator::Eq,
            l,
            fadd,
        ),
        binop(l, crate::query::BinaryOperator::Ne, r, fadd) == Ok::<Data, crate::query_model::Abort>(
            Data::Bool(!data_eq(l, r)),
        ),
        !data_eq(Data::Integer(1), Data::Float(0x3ff0_0000_0000_0000)),
{
    law_data_eq_symmetric(l, r);
}

/// Past a field text without brackets, scanning two dots or one dot before
/// the rest comes to the same.
proof fn lemma_scan_double_dot(
    a: Seq<char>,
    b: Seq<char>,
    i: int,
    segs: Seq<SegmentModel>,
    cur: Seq<char>,
    rf: spec_fn(Seq<char>) -> Option<u64>,
)
    requires
        0 <= i <= a.len(),
        forall|k: int| 0 <= k < a.len() ==> #[trigger] a[k] != '[',
    ensures
        scan_path(a + seq!['.', '.'] + b, i, segs, cur, rf) == scan_path(a + seq!['.'] + b, i, segs, cur, rf),
    decreases a.len() - i,
{
    let p2 = a + seq!['.', '.'] + b;
    let p1 = a + seq!['.'] + b;
    if i < a.len() {
        assert(p2[i] == a[i] && p1[i] == a[i]);
        if a[i] == '.' {
            lemma_scan_double_dot(a, b, i + 1, flush(segs, cur), Seq::empty(), rf);
        } else {
            lemma_scan_double_dot(a, b, i + 1, segs, cur.push(a[i]), rf);
        }
    } else {
        let f = flush(segs, cur);
        assert(p2[i] == '.' && p1[i] == '.');
        assert(p2[i + 1] == '.');
        assert(flush(f, Seq::<char>::empty()) == f);
        assert(p2 =~= (a + seq!['.', '.']) + b);
        assert(p1 =~= (a + seq!['.']) + b);
        lemma_scan_shift(a + seq!['.', '.'], b, 0, f, Seq::empty(), rf);
        lemma_scan_shift(a + seq!['.'], b, 0, f, Seq::empty(), rf);
        assert(scan_path(p2, i, segs, cur, rf) == scan_path(p2, i + 1, f, Seq::empty(), rf));
        assert(scan_path(p2, i + 1, f, Seq::empty(), rf) == scan_path(
            p2,
            i + 2,
            flush(f, Seq::empty()),
            Seq::empty(),
            rf,
        ));
        assert(scan_path(p1, i, segs, cur, rf) == scan_path(p1, i + 1, f, Seq::empty(), rf));
    }
}

/// A repeated dot changes nothing: in a path whose part before it has no
/// bracket, `a..b` parses as `a.b` does.
pub proof fn law_repeated_dot_ignored(a: Seq<char>, b: Seq<char>, rf: spec_fn(Seq<char>) -> Option<u64>)
    requires
        forall|k: int| 0 <= k < a.len() ==> #[trigger] a[k] != '[',
    ensures
        upl_parse(a + seq!['.', '.'] + b, rf) == upl_parse(a + seq!['.'] + b, rf),
{
    lemma_scan_double_dot(a, b, 0, Seq::empty(), Seq::empty(), rf);
}

/// The text of a path segment: `.` and a field's name, an index in
/// brackets, or `[*]`; a filter has no text here.
pub open spec fn segment_text(s: SegmentModel) -> Seq<char> {
    match s {
        SegmentModel::Field(f) => seq!['.'] + f,
        SegmentModel::Index(n) => seq!['['] + decimal(n as nat) + seq![']'],
        SegmentModel::Wildcard => seq!['[', '*', ']'],
        SegmentModel::Filter(_) => Seq::empty(),
    }
}

/// The text of a path: its segments' texts one after the other.
pub open spec fn path_text(segs: Seq<SegmentModel>) -> Seq<char>
    decreases segs.len(),
{
    if segs.len() == 0 {
        Seq::empty()
    } else {
        path_text(segs.drop_last()) + segment_text(segs.last())
    }
}

/// A segment that prints: a field with a non-empty name without `.` or
/// `[`, an index, or a wildcard.
pub open spec fn printable(s: SegmentModel) -> bool {
    match s {
        SegmentModel::Field(f) => f.len() > 0 && forall|k: int|
            0 <= k < f.len() ==> #[trigger] f[k] != '.' && f[k] != '[',
        SegmentModel::Index(_) => true,
        SegmentModel::Wildcard => true,
        SegmentModel::Filter(_) => false,
    }
}

/// The scanner's state after the text of a path: a final field is still
/// pending as the name being read.
spec fn scan_state(segs: Seq<SegmentModel>) -> (Seq<SegmentModel>, Seq<char>) {
    if segs.len() > 0 && segs.last() is Field {
        (segs.drop_last(), segs.last()->Field_0)
    } else {
        (segs, Seq::empty())
    }
}

/// Characters that are neither `.` nor `[` are read into the pending name.
proof fn lemma_scan_plain(
    t: Seq<char>,
    i: int,
    n: int,
    segs: Seq<SegmentModel>,
    cur: Seq<char>,
    rf: spec_fn(Seq<char>) -> Option<u64>,
)
    requires
        0 <= i,
        0 <= n,
        i + n <= t.len(),
        forall|k: int| i <= k < i + n ==> #[trigger] t[k] != '.' && t[k] != '[',
    ensures
        scan_path(t, i, segs, cur, rf) == scan_path(t, i + n, segs, cur + t.subrange(i, i + n), rf),
    decreases n,
{
    if n == 0 {
        assert(cur + t.subrange(i, i) =~= cur);
    } else {
        assert(t[i] != '.' && t[i] != '[');
        lemma_scan_plain(t, i + 1, n - 1, segs, cur.push(t[i]), rf);
        assert(cur.push(t[i]) + t.subrange(i + 1, i + n) =~= cur + t.subrange(i, i + n));
    }
}

/// The first `]` after a run without one is where it stands.
proof fn lemma_find_closer(t: Seq<char>, i: int, j: int)
    requires
        0 <= i <= j < t.len(),
        t[j] == ']',
        forall|k: int| i <= k < j ==> #[trigger] t[k] != ']',
    ensures
        index_of_from(t, ']', i) == Some(j),
    decreases j - i,
{
    if i < j {
        lemma_find_closer(t, i + 1, j);
    }
}

/// A bracket holding an index's digits, or `*`, is read as that segment.
proof fn lemma_bracket_printed(s: SegmentModel, rf: spec_fn(Seq<char>) -> Option<u64>)
    requires
        s is Index || s is Wildcard,
    ensures
        crate::query_model::bracket_segment(segment_text(s).subrange(1, segment_text(s).len() - 1), rf)
            == Some(Ok::<SegmentModel, crate::query_model::ErrorModel>(s)),
{
    let t = segment_text(s);
    let c = t.subrange(1, t.len() - 1);
    match s {
        SegmentModel::Index(n) => {
            lemma_decimal_spells(n as nat);
            assert(c =~= decimal(n as nat));
            assert(crate::text::is_digit(c[0]));
            assert(crate::text::is_digit(c.last()));
            assert(crate::text::trim_start(c) == c);
            assert(crate::text::trim_end(c) == c);
            assert(c != seq!['*']) by {
                if c.len() == 1 {
                    assert(c[0] != '*');
                }
            }
        },
        _ => {
            assert(c =~= seq!['*']);
            assert(crate::text::trim_start(c) == c);
            assert(crate::text::trim_end(c) == c);
        },
    }
}

/// Reading the text of one printable segment after segments already read
/// adds that segment.
proof fn lemma_scan_segment(
    t: Seq<char>,
    p: int,
    init: Seq<SegmentModel>,
    x: SegmentModel,
    rf: spec_fn(Seq<char>) -> Option<u64>,
)
    requires
        printable(x),
        0 <= p,
        p + segment_text(x).len() <= t.len(),
        forall|k: int| 0 <= k < segment_text(x).len() ==> t[p + k] == #[trigger] segment_text(x)[k],
        flush(scan_state(init).0, scan_state(init).1) == init,
    ensures
        scan_path(t, p, scan_state(init).0, scan_state(init).1, rf) == scan_path(
            t,
            p + segment_text(x).len(),
            scan_state(init.push(x)).0,
            scan_state(init.push(x)).1,
            rf,
        ),
{
    let st = segment_text(x);
    let (a, c) = scan_state(init);
    let segs = init.push(x);
    assert(segs.drop_last() =~= init);
    assert(segs.last() == x);
    assert(t[p] == st[0]);
    match x {
        SegmentModel::Field(f) => {
            assert(scan_path(t, p, a, c, rf) == scan_path(t, p + 1, init, Seq::empty(), rf));
            assert forall|k: int| p + 1 <= k < p + 1 + f.len() implies #[trigger] t[k] != '.' && t[k]
                != '[' by {
                assert(t[p + (k - p)] == st[k - p]);
                assert(st[k - p] == f[k - p - 1]);
            }
            lemma_scan_plain(t, p + 1, f.len() as int, init, Seq::empty(), rf);
            assert(t.subrange(p + 1, p + 1 + f.len()) =~= f) by {
                assert forall|k: int| 0 <= k < f.len() implies #[trigger] t.subrange(
                    p + 1,
                    p + 1 + f.len(),
                )[k] == f[k] by {
                    assert(t[p + (k + 1)] == st[k + 1]);
                }
            }
            assert(Seq::<char>::empty() + f =~= f);
        },
        _ => {
            let j = p + st.len() - 1;
            assert(t[p + (st.len() - 1)] == st[st.len() - 1]);
            assert forall|k: int| p + 1 <= k < j implies #[trigger] t[k] != ']' by {
                assert(t[p + (k - p)] == st[k - p]);
                if let SegmentModel::Index(n) = x {
                    lemma_decimal_spells(n as nat);
                    assert(st[k - p] == decimal(n as nat)[k - p - 1]);
                    assert(is_digit(decimal(n as nat)[k - p - 1]));
                }
            }
            lemma_find_closer(t, p + 1, j);
            assert(t.subrange(p + 1, j) =~= st.subrange(1, st.len() - 1)) by {
                assert forall|k: int| 0 <= k < j - p - 1 implies #[trigger] t.subrange(p + 1, j)[k]
                    == st.subrange(1, st.len() - 1)[k] by {
                    assert(t[p + (k + 1)] == st[k + 1]);
                }
            }
            lemma_bracket_printed(x, rf);
            assert(flush(a, c).push(x) =~= segs);
        },
    }
}

/// Scanning the text of printable segments, followed by anything, reaches
/// the end of that text with those segments read.
proof fn lemma_scan_printed(segs: Seq<SegmentModel>, rest: Seq<char>, rf: spec_fn(Seq<char>) -> Option<u64>)
    requires
        forall|k: int| 0 <= k < segs.len() ==> printable(#[trigger] segs[k]),
    ensures
        scan_path(path_text(segs) + rest, 0, Seq::empty(), Seq::empty(), rf) == scan_path(
            path_text(segs) + rest,
            path_text(segs).len() as int,
            scan_state(segs).0,
            scan_state(segs).1,
            rf,
        ),
        flush(scan_state(segs).0, scan_state(segs).1) == segs,
    decreases segs.len(),
{
    if segs.len() > 0 {
        let init = segs.drop_last();
        let x = segs.last();
        let pt = path_text(init);
        let st = segment_text(x);
        let t = path_text(segs) + rest;
        assert(path_text(segs) == pt + st);
        assert(t =~= pt + (st + rest));
        assert(printable(segs[segs.len() - 1]));
        assert forall|k: int| 0 <= k < init.len() implies printable(#[trigger] init[k]) by {
            assert(init[k] == segs[k]);
        }
        lemma_scan_printed(init, st + rest, rf);
        assert forall|k: int| 0 <= k < st.len() implies t[pt.len() + k] == #[trigger] st[k] by {
            assert(t[pt.len() + k] == (pt + (st + rest))[pt.len() + k]);
        }
        assert(init.push(x) =~= segs);
        lemma_scan_segment(t, pt.len() as int, init, x, rf);
        if let SegmentModel::Field(f) = x {
            assert(scan_state(segs) == (init, f));
        } else {
            assert(scan_state(segs) == (segs, Seq::<char>::empty()));
        }
    } else {
        assert(path_text(segs) + rest =~= rest);
        assert(flush(Seq::<SegmentModel>::empty(), Seq::<char>::empty()) =~= segs);
    }
}

/// Printing a path of fields (named without `.` or `[`), indexes and
/// wildcards, and parsing the text back, gives the same path.
pub proof fn law_print_then_parse(segs: Seq<SegmentModel>, rf: spec_fn(Seq<char>) -> Option<u64>)
    requires
        forall|k: int| 0 <= k < segs.len() ==> printable(#[trigger] segs[k]),
    ensures
        upl_parse(path_text(segs), rf) == Some(Ok::<ExprModel, crate::query_model::ErrorModel>(
            ExprModel::Path(segs),
        )),
{
    lemma_scan_printed(segs, Seq::empty(), rf);
    let t = path_text(segs);
    assert(t + Seq::<char>::empty() =~= t);
}

/// The document holds no float anywhere.
pub open spec fn float_free(d: Data) -> bool
    decreases d,
{
    match d {
        Data::Float(_) => false,
        Data::Array(a) => forall|i: int| 0 <= i < a.len() ==> float_free(#[trigger] a[i]),
        Data::Object(m) => forall|i: int| 0 <= i < m.len() ==> float_free((#[trigger] m[i]).1),
        _ => true,
    }
}

/// Two texts compare equal exactly when they are the same text.
pub proof fn law_text_equality(x: Seq<char>, y: Seq<char>)
    ensures
        data_eq(Data::Str(x), Data::Str(y)) <==> x == y,
{
}

/// Documents without floats compare equal exactly when they are the same
/// document: equality looks at every key, string, number and element.
pub proof fn law_equal_means_same(a: Data, b: Data)
    requires
        float_free(a),
    ensures
        data_eq(a, b) <==> a == b,
    decreases a,
{
    if a == b {
        lemma_data_eq_reflexive_float_free(a);
    }
    if data_eq(a, b) {
        match (a, b) {
            (Data::Array(x), Data::Array(y)) => {
                assert forall|i: int| 0 <= i < x.len() implies x[i] == y[i] by {
                    assert(data_eq(x[i], y[i]));
                    law_equal_means_same(x[i], y[i]);
                }
                assert(x =~= y);
            },
            (Data::Object(x), Data::Object(y)) => {
                assert forall|i: int| 0 <= i < x.len() implies x[i] == y[i] by {
                    assert(x[i].0 == y[i].0 && data_eq(x[i].1, y[i].1));
                    law_equal_means_same(x[i].1, y[i].1);
                }
                assert(x =~= y);
            },
            _ => {},
        }
    }
}

/// A document without floats compares equal to itself.
proof fn lemma_data_eq_reflexive_float_free(a: Data)
    requires
        float_free(a),
    ensures
        data_eq(a, a),
    decreases a,
{
    match a {
        Data::Array(x) => {
            assert forall|i: int| 0 <= i < x.len() implies data_eq(#[trigger] x[i], x[i]) by {
                lemma_data_eq_reflexive_float_free(x[i]);
            }
        },
        Data::Object(x) => {
            assert forall|i: int| 0 <= i < x.len() implies (#[trigger] x[i]).0 == x[i].0 && data_eq(
                x[i].1,
                x[i].1,
            ) by {
                lemma_data_eq_reflexive_float_free(x[i].1);
            }
        },
        _ => {},
    }
}

/// An index inside an array gives the element there; an index at or past
/// its end is out of bounds, whatever the array holds.
pub proof fn law_index_reaches_every_element(a: Seq<Data>, i: usize, fadd: spec_fn(u64, u64) -> u64)
    ensures
        (i as int) < a.len() ==> apply_step(Data::Array(a), SegmentModel::Index(i), fadd) == Ok::<
            Data,
            crate::query_model::Abort,
        >(a[i as int]),
        (i as int) >= a.len() ==> apply_step(Data::Array(a), SegmentModel::Index(i), fadd) == Err::<
            Data,
            crate::query_model::Abort,
        >(crate::query_model::Abort::Query(crate::query_model::ErrorModel::IndexOutOfBounds(i))),
{
}

/// In a row read under a header row of distinct names, the value under each
/// header name is the cell in that name's column, read for its type: the
/// keys are the header's names as written.
pub proof fn law_row_keyed_by_header(
    h: Seq<Seq<char>>,
    fields: Seq<Seq<char>>,
    rf: spec_fn(Seq<char>) -> Option<u64>,
    i: int,
)
    requires
        fields.len() <= h.len(),
        0 <= i < fields.len(),
        forall|a: int, b: int| 0 <= a < b < h.len() ==> #[trigger] h[a] != #[trigger] h[b],
    ensures
        lookup(row_entries(Some(h), fields, rf), h[i]) == Some(inferred(fields[i], rf)),
    decreases fields.len(),
{
    let n = fields.len() - 1;
    let prev = row_entries(Some(h), fields.drop_last(), rf);
    assert(column_key(Some(h), n) == h[n]);
    if i == n {
        law_lookup_after_insert(prev, h[n], inferred(fields.last(), rf), h[i]);
    } else {
        assert(h[i] != h[n]);
        law_lookup_after_insert(prev, h[n], inferred(fields.last(), rf), h[i]);
        law_row_keyed_by_header(h, fields.drop_last(), rf, i);
        assert(fields.drop_last()[i] == fields[i]);
    }
}

/// The hint words of a header row are exactly `id`, `name`, `date`,
/// `created`, `updated`, `user` and `email`: a text holds a hint word
/// exactly when it contains one of them.
pub proof fn law_header_hint_words(t: Seq<char>)
    ensures
        has_header_word(t) <==> (find(t, "id"@) is Some || find(t, "name"@) is Some || find(
            t,
            "date"@,
        ) is Some || find(t, "created"@) is Some || find(t, "updated"@) is Some || find(
            t,
            "user"@,
        ) is Some || find(t, "email"@) is Some),
{
    assert(header_word(0) == "id"@ && header_word(1) == "name"@ && header_word(2) == "date"@);
    assert(header_word(3) == "created"@ && header_word(4) == "updated"@ && header_word(5) == "user"@);
    assert(header_word(6) == "email"@);
    if has_header_word(t) {
        let k = choose|k: int| 0 <= k < 7 && (#[trigger] find(t, header_word(k))) is Some;
        assert(0 <= k < 7);
    }
}

/// The score of a row is at least the score of any one field, where no
/// field scores below zero.
proof fn lemma_header_score_at_least(
    fields: Seq<Seq<char>>,
    rf: spec_fn(Seq<char>) -> Option<u64>,
    j: int,
)
    requires
        0 <= j < fields.len(),
        forall|i: int| 0 <= i < fields.len() ==> field_score(#[trigger] fields[i], rf) >= 0,
    ensures
        header_score(fields, rf) >= field_score(fields[j], rf),
    decreases fields.len(),
{
    let init = fields.drop_last();
    assert forall|i: int| 0 <= i < init.len() implies field_score(#[trigger] init[i], rf) >= 0 by {
        assert(init[i] == fields[i]);
    }
    assert(field_score(fields[fields.len() - 1], rf) >= 0);
    if j < fields.len() - 1 {
        lemma_header_score_at_least(init, rf, j);
        assert(init[j] == fields[j]);
    } else {
        lemma_header_score_nonnegative(init, rf);
    }
}

/// Where no field scores below zero, neither does the row.
proof fn lemma_header_score_nonnegative(fields: Seq<Seq<char>>, rf: spec_fn(Seq<char>) -> Option<u64>)
    requires
        forall|i: int| 0 <= i < fields.len() ==> field_score(#[trigger] fields[i], rf) >= 0,
    ensures
        header_score(fields, rf) >= 0,
    decreases fields.len(),
{
    if fields.len() > 0 {
        let init = fields.drop_last();
        assert forall|i: int| 0 <= i < init.len() implies field_score(#[trigger] init[i], rf) >= 0 by {
            assert(init[i] == fields[i]);
        }
        assert(field_score(fields[fields.len() - 1], rf) >= 0);
        lemma_header_score_nonnegative(init, rf);
    }
}

/// A first row of non-empty fields, none of them a short number, one of
/// them holding a hint word once lower-cased (such as `email`), is guessed to
/// be a header row.
pub proof fn law_hint_word_makes_header(
    fields: Seq<Seq<char>>,
    rf: spec_fn(Seq<char>) -> Option<u64>,
    j: int,
)
    requires
        0 <= j < fields.len(),
        forall|i: int| 0 <= i < fields.len() ==> (#[trigger] fields[i]).len() > 0,
        forall|i: int|
            0 <= i < fields.len() ==> !(rf(#[trigger] fields[i]) is Some && crate::text::utf8_len(
                fields[i],
            ) < 5),
        has_header_word(crate::text::lowercase(fields[j])),
    ensures
        header_guess(fields, rf) == Some(true),
{
    assert forall|i: int| 0 <= i < fields.len() implies field_score(#[trigger] fields[i], rf) >= 0 by {
        assert(!(rf(fields[i]) is Some && crate::text::utf8_len(fields[i]) < 5));
    }
    lemma_header_score_at_least(fields, rf, j);
    assert(field_score(fields[j], rf) >= 1);
    assert(!exists|i: int| 0 <= i < fields.len() && (#[trigger] fields[i]).len() == 0);
}

/// A character that a filter operator is made of.
pub open spec fn operator_char(c: char) -> bool {
    c == '=' || c == '!' || c == '<' || c == '>'
}

/// The text holds no character that an operator is made of.
pub open spec fn operator_free(s: Seq<char>) -> bool {
    forall|i: int| 0 <= i < s.len() ==> !operator_char(#[trigger] s[i])
}

/// Nowhere from `i` on does the needle stand: it is not found.
proof fn lemma_find_from_none(text: Seq<char>, needle: Seq<char>, i: int)
    requires
        forall|p: int| i <= p ==> !#[trigger] occurs_at(text, needle, p),
    ensures
        find_from(text, needle, i) is None,
    decreases text.len() + 1 - i,
{
    if !(i < 0 || i + needle.len() > text.len()) {
        assert(!occurs_at(text, needle, i));
        lemma_find_from_none(text, needle, i + 1);
    }
}

/// The needle first stands at `q`: it is found there.
proof fn lemma_find_from_first(text: Seq<char>, needle: Seq<char>, i: int, q: int)
    requires
        0 <= i <= q,
        occurs_at(text, needle, q),
        forall|p: int| i <= p < q ==> !#[trigger] occurs_at(text, needle, p),
    ensures
        find_from(text, needle, i) == Some(q),
    decreases q - i,
{
    if i < q {
        assert(!occurs_at(text, needle, i));
        lemma_find_from_first(text, needle, i + 1, q);
    }
}

/// In a condition made of an operator between texts without operator
/// characters, an operator text stands only within that operator, and none
/// tried before it stands anywhere.
proof fn lemma_operator_occurrence(l: Seq<char>, k: int, r: Seq<char>, j: int, p: int)
    requires
        0 <= k < 6,
        0 <= j < 6,
        operator_free(l),
        operator_free(r),
        occurs_at(l + condition_op_text(k) + r, condition_op_text(j), p),
    ensures
        j >= k,
        j == k ==> p == l.len(),
{
    let o = condition_op_text(k);
    let w = condition_op_text(j);
    let c = l + o + r;
    let n = l.len() as int;
    assert(c.subrange(p, p + w.len()) == w);
    assert(c[p] == w[0]);
    assert(operator_char(w[0]));
    if p < n {
        assert(c[p] == l[p]);
        assert(!operator_char(l[p]));
    }
    if p >= n + o.len() {
        assert(c[p] == r[p - n - o.len()]);
        assert(!operator_char(r[p - n - o.len()]));
    }
    assert(n <= p < n + o.len());
    assert(c[p] == o[p - n]);
    if w.len() == 2 {
        assert(c[p + 1] == w[1]);
        assert(operator_char(w[1]));
        if p + 1 >= n + o.len() {
            assert(c[p + 1] == r[p + 1 - n - o.len()]);
            assert(!operator_char(r[p + 1 - n - o.len()]));
        }
        assert(c[p + 1] == o[p + 1 - n]);
    }
}

/// Operators that stand nowhere in a condition are tried and passed over.
proof fn lemma_skip_operators(c: Seq<char>, j: int, k: int, rf: spec_fn(Seq<char>) -> Option<u64>)
    requires
        0 <= j <= k < 6,
        forall|i: int, p: int| 0 <= i < k ==> !#[trigger] occurs_at(c, condition_op_text(i), p),
    ensures
        filter_condition_from(c, j, rf) == filter_condition_from(c, k, rf),
    decreases k - j,
{
    if j < k {
        assert forall|p: int| 0 <= p implies !#[trigger] occurs_at(c, condition_op_text(j), p) by {}
        lemma_find_from_none(c, condition_op_text(j), 0);
        lemma_skip_operators(c, j + 1, k, rf);
    }
}

/// A condition made of an operator between texts without operator
/// characters splits at that operator: the field is the trimmed left text,
/// and the literal what the trimmed right text reads as.
proof fn lemma_condition_split(l: Seq<char>, k: int, r: Seq<char>, rf: spec_fn(Seq<char>) -> Option<u64>)
    requires
        0 <= k < 6,
        operator_free(l),
        operator_free(r),
    ensures
        filter_condition(l + condition_op_text(k) + r, rf) == filter_condition_from(
            l + condition_op_text(k) + r,
            k,
            rf,
        ),
        find(l + condition_op_text(k) + r, condition_op_text(k)) == Some(l.len() as int),
        (l + condition_op_text(k) + r).take(l.len() as int) == l,
        (l + condition_op_text(k) + r).skip((l.len() + condition_op_text(k).len()) as int) == r,
{
    let c = l + condition_op_text(k) + r;
    let o = condition_op_text(k);
    assert forall|j: int, p: int| 0 <= j < k implies !#[trigger] occurs_at(c, condition_op_text(j), p) by {
        if occurs_at(c, condition_op_text(j), p) {
            lemma_operator_occurrence(l, k, r, j, p);
        }
    }
    lemma_skip_operators(c, 0, k, rf);
    assert forall|p: int| 0 <= p < l.len() implies !#[trigger] occurs_at(c, o, p) by {
        if occurs_at(c, o, p) {
            lemma_operator_occurrence(l, k, r, k, p);
        }
    }
    assert(c.subrange(l.len() as int, (l.len() + o.len()) as int) =~= o);
    lemma_find_from_first(c, o, 0, l.len() as int);
    assert(c.take(l.len() as int) =~= l);
    assert(c.skip((l.len() + o.len()) as int) =~= r);
}

/// Dropping leading whitespace after one more character.
proof fn lemma_trim_start_push(s: Seq<char>, c: char)
    ensures
        trim_start(s.push(c)) == if trim_start(s).len() == 0 {
            trim_start(seq![c])
        } else {
            trim_start(s).push(c)
        },
    decreases s.len(),
{
    if s.len() == 0 {
        assert(s.push(c) =~= seq![c]);
    } else {
        assert(s.push(c)[0] == s[0]);
        if crate::text::is_space(s[0]) {
            assert(s.push(c).drop_first() =~= s.drop_first().push(c));
            lemma_trim_start_push(s.drop_first(), c);
        }
    }
}

/// A space after a text does not change it once trimmed.
proof fn lemma_trim_space_after(s: Seq<char>)
    ensures
        trim(s.push(' ')) == trim(s),
{
    lemma_trim_start_push(s, ' ');
    let t = trim_start(s);
    assert(crate::text::is_space(' '));
    if t.len() == 0 {
        assert(seq![' '].drop_first() =~= Seq::<char>::empty());
        assert(trim_start(seq![' ']) == trim_start(Seq::<char>::empty()));
    } else {
        assert(t.push(' ').drop_last() =~= t);
    }
}

/// A space before a text does not change it once trimmed.
proof fn lemma_trim_space_before(s: Seq<char>)
    ensures
        trim(seq![' '] + s) == trim(s),
{
    assert(crate::text::is_space(' '));
    assert((seq![' '] + s).drop_first() =~= s);
    assert((seq![' '] + s)[0] == ' ');
}

/// Spaces around a filter operator change nothing: `age > 30` reads as
/// `age>30` does, for a field and a literal without operator characters.
pub proof fn law_spaces_around_operator(
    l: Seq<char>,
    k: int,
    r: Seq<char>,
    rf: spec_fn(Seq<char>) -> Option<u64>,
)
    requires
        0 <= k < 6,
        operator_free(l),
        operator_free(r),
    ensures
        filter_condition(l.push(' ') + condition_op_text(k) + (seq![' '] + r), rf) == filter_condition(
            l + condition_op_text(k) + r,
            rf,
        ),
{
    let l2 = l.push(' ');
    let r2 = seq![' '] + r;
    assert forall|i: int| 0 <= i < l2.len() implies !operator_char(#[trigger] l2[i]) by {
        if i < l.len() {
            assert(l2[i] == l[i]);
        }
    }
    assert forall|i: int| 0 <= i < r2.len() implies !operator_char(#[trigger] r2[i]) by {
        if i > 0 {
            assert(r2[i] == r[i - 1]);
        }
    }
    lemma_condition_split(l, k, r, rf);
    lemma_condition_split(l2, k, r2, rf);
    lemma_trim_space_after(l);
    lemma_trim_space_before(r);
}

/// A condition `field op number` parses to a comparison of the trimmed
/// field with that number, by the operator written: `==`, `!=`, `>=`, `<=`,
/// `>` or `<`.
pub proof fn law_condition_reads_as_written(
    l: Seq<char>,
    k: int,
    r: Seq<char>,
    n: i64,
    rf: spec_fn(Seq<char>) -> Option<u64>,
)
    requires
        0 <= k < 6,
        operator_free(l),
        operator_free(r),
        parse_i64(trim(r)) == Some(n),
    ensures
        filter_condition(l + condition_op_text(k) + r, rf) == Some(
            Ok::<ExprModel, crate::query_model::ErrorModel>(
                ExprModel::BinaryOp {
                    left: Box::new(ExprModel::Field(trim(l))),
                    op: if k == 0 {
                        crate::query::BinaryOperator::Eq
                    } else if k == 1 {
                        crate::query::BinaryOperator::Ne
                    } else if k == 2 {
                        crate::query::BinaryOperator::Gte
                    } else if k == 3 {
                        crate::query::BinaryOperator::LTE
                    } else if k == 4 {
                        crate::query::BinaryOperator::Gt
                    } else {
                        crate::query::BinaryOperator::Lt
                    },
                    right: Box::new(ExprModel::Literal(Data::Integer(n))),
                },
            ),
        ),
        k == 0 ==> condition_op_text(k) == seq!['=', '='],
        k == 1 ==> condition_op_text(k) == seq!['!', '='],
        k == 2 ==> condition_op_text(k) == seq!['>', '='],
        k == 3 ==> condition_op_text(k) == seq!['<', '='],
        k == 4 ==> condition_op_text(k) == seq!['>'],
        k == 5 ==> condition_op_text(k) == seq!['<'],
{
    lemma_condition_split(l, k, r, rf);
}

/// Where every field scores below zero, the row scores at most minus its
/// number of fields.
proof fn lemma_header_score_negative(fields: Seq<Seq<char>>, rf: spec_fn(Seq<char>) -> Option<u64>)
    requires
        forall|i: int| 0 <= i < fields.len() ==> field_score(#[trigger] fields[i], rf) <= -1,
    ensures
        header_score(fields, rf) <= -(fields.len() as int),
    decreases fields.len(),
{
    if fields.len() > 0 {
        let init = fields.drop_last();
        assert forall|i: int| 0 <= i < init.len() implies field_score(#[trigger] init[i], rf) <= -1 by {
            assert(init[i] == fields[i]);
        }
        assert(field_score(fields[fields.len() - 1], rf) <= -1);
        lemma_header_score_negative(init, rf);
    }
}

/// A first row of short numbers, with no hint word, no space and no
/// upper-case first character in any field, is no header row.
pub proof fn law_numbers_are_no_header(fields: Seq<Seq<char>>, rf: spec_fn(Seq<char>) -> Option<u64>)
    requires
        fields.len() > 0,
        forall|i: int|
            0 <= i < fields.len() ==> {
                &&& (#[trigger] fields[i]).len() > 0
                &&& rf(fields[i]) is Some
                &&& crate::text::utf8_len(fields[i]) < 5
                &&& !has_header_word(crate::text::lowercase(fields[i]))
                &&& crate::text::index_of(fields[i], ' ') is None
                &&& !crate::text::is_upper(fields[i][0])
            },
    ensures
        header_guess(fields, rf) == Some(false),
{
    assert forall|i: int| 0 <= i < fields.len() implies field_score(#[trigger] fields[i], rf) <= -1 by {
        assert(fields[i].len() > 0);
    }
    lemma_header_score_negative(fields, rf);
    assert(!exists|i: int| 0 <= i < fields.len() && (#[trigger] fields[i]).len() == 0);
}

} // verus!
