use vstd::prelude::*;

verus! {

/// The mathematical model of a document: what a `Value` denotes.
pub enum Data {
    Null,
    Bool(bool),
    Integer(i64),
    /// An IEEE-754 binary64 number, by its bit pattern.
    Float(u64),
    Str(Seq<char>),
    Array(Seq<Data>),
    /// Entries in stored order (for a well-formed value, ascending by key).
    Object(Seq<(Seq<char>, Data)>),
}

/// A document value shared by every format.
#[derive(Debug)]
pub enum Value {
    Null,
    Bool(bool),
    Integer(i64),
    /// An IEEE-754 binary64 number, held as its bit pattern.
    Float(u64),
    String(String),
    Array(Vec<Value>),
    /// Key/value entries, ascending by key with no key twice (the model's
    /// `well_formed`, which the functions that build objects keep).
    Object(Vec<(String, Value)>),
}

pub open spec fn model_of(v: Value) -> Data
    decreases v,
{
    match v {
        Value::Null => Data::Null,
        Value::Bool(b) => Data::Bool(b),
        Value::Integer(i) => Data::Integer(i),
        Value::Float(f) => Data::Float(f),
        Value::String(s) => Data::Str(s@),
        Value::Array(a) => Data::Array(models_of(a@)),
        Value::Object(m) => Data::Object(entry_models(m@)),
    }
}

pub open spec fn models_of(s: Seq<Value>) -> Seq<Data>
    decreases s,
{
    if s.len() == 0 {
        Seq::empty()
    } else {
        models_of(s.drop_last()).push(model_of(s.last()))
    }
}

pub open spec fn entry_models(s: Seq<(String, Value)>) -> Seq<(Seq<char>, Data)>
    decreases s,
{
    if s.len() == 0 {
        Seq::empty()
    } else {
        entry_models(s.drop_last()).push((s.last().0@, model_of(s.last().1)))
    }
}

impl View for Value {
    type V = Data;

    open spec fn view(&self) -> Data {
        model_of(*self)
    }
}

} // verus!

verus! {

/// `models_of` keeps the length and maps each element to its model.
pub broadcast proof fn lemma_models_of(s: Seq<Value>)
    ensures
        #[trigger] models_of(s).len() == s.len(),
        forall|i: int| 0 <= i < s.len() ==> #[trigger] models_of(s)[i] == s[i]@,
    decreases s.len(),
{
    if s.len() > 0 {
        lemma_models_of(s.drop_last());
    }
}

/// `entry_models` keeps the length and maps each entry to its key's text and value's model.
pub broadcast proof fn lemma_entry_models(s: Seq<(String, Value)>)
    ensures
        #[trigger] entry_models(s).len() == s.len(),
        forall|i: int|
            0 <= i < s.len() ==> #[trigger] entry_models(s)[i] == (s[i].0@, s[i].1@),
    decreases s.len(),
{
    if s.len() > 0 {
        lemma_entry_models(s.drop_last());
    }
}

/// The model of an array element is the element's model.
pub broadcast proof fn lemma_models_of_index(s: Seq<Value>, i: int)
    requires
        0 <= i < s.len(),
    ensures
        #[trigger] models_of(s)[i] == s[i]@,
{
    lemma_models_of(s);
}

/// The model of an object entry is the entry's key text and value model.
pub broadcast proof fn lemma_entry_models_index(s: Seq<(String, Value)>, i: int)
    requires
        0 <= i < s.len(),
    ensures
        #[trigger] entry_models(s)[i] == (s[i].0@, s[i].1@),
{
    lemma_entry_models(s);
}

pub broadcast group group_value_models {
    lemma_models_of,
    lemma_entry_models,
    lemma_models_of_index,
    lemma_entry_models_index,
}

} // verus!

verus! {

/// 2^52: the weight of the lowest exponent bit of a binary64 pattern.
pub open spec fn exponent_unit() -> int {
    0x10_0000_0000_0000
}

/// The bit pattern is a NaN: all exponent bits set and a nonzero fraction.
pub open spec fn float_is_nan(bits: u64) -> bool {
    &&& (bits as int / exponent_unit()) % 0x800 == 0x7ff
    &&& (bits as int) % exponent_unit() != 0
}

/// The bit pattern is +0.0 or -0.0.
pub open spec fn float_is_zero(bits: u64) -> bool {
    (bits as int) % 0x8000_0000_0000_0000 == 0
}

/// IEEE-754 equality of two binary64 numbers given by their bit patterns.
pub open spec fn float_eq(a: u64, b: u64) -> bool {
    &&& !float_is_nan(a)
    &&& !float_is_nan(b)
    &&& (a == b || (float_is_zero(a) && float_is_zero(b)))
}

/// Equality of documents: structural, with IEEE-754 equality for numbers of
/// type `Float`, and objects compared entry by entry in stored order.
pub open spec fn data_eq(a: Data, b: Data) -> bool
    decreases a,
{
    match (a, b) {
        (Data::Null, Data::Null) => true,
        (Data::Bool(x), Data::Bool(y)) => x == y,
        (Data::Integer(x), Data::Integer(y)) => x == y,
        (Data::Float(x), Data::Float(y)) => float_eq(x, y),
        (Data::Str(x), Data::Str(y)) => x == y,
        (Data::Array(x), Data::Array(y)) => {
            &&& x.len() == y.len()
            &&& forall|i: int| 0 <= i < x.len() ==> data_eq(#[trigger] x[i], y[i])
        },
        (Data::Object(x), Data::Object(y)) => {
            &&& x.len() == y.len()
            &&& forall|i: int|
                0 <= i < x.len() ==> (#[trigger] x[i]).0 == y[i].0 && data_eq(x[i].1, y[i].1)
        },
        _ => false,
    }
}

/// Whether a document counts as true in a filter.
pub open spec fn truthy(d: Data) -> bool {
    match d {
        Data::Bool(b) => b,
        Data::Null => false,
        Data::Integer(i) => i != 0,
        Data::Float(f) => !float_is_zero(f),
        Data::Str(s) => s.len() > 0,
        Data::Array(a) => a.len() > 0,
        Data::Object(m) => m.len() > 0,
    }
}

/// Code-point order on texts, which is also the byte order of their UTF-8 encodings.
pub open spec fn key_less(a: Seq<char>, b: Seq<char>) -> bool
    decreases a.len(),
{
    if a.len() == 0 {
        b.len() > 0
    } else if b.len() == 0 {
        false
    } else if a[0] != b[0] {
        (a[0] as int) < (b[0] as int)
    } else {
        key_less(a.drop_first(), b.drop_first())
    }
}

/// The keys of the entries ascend strictly.
pub open spec fn keys_ascending(m: Seq<(Seq<char>, Data)>) -> bool {
    forall|i: int| 0 <= i < m.len() - 1 ==> key_less(#[trigger] m[i].0, m[i + 1].0)
}

/// Every object in the document has strictly ascending keys.
pub open spec fn well_formed(d: Data) -> bool
    decreases d,
{
    match d {
        Data::Array(a) => forall|i: int| 0 <= i < a.len() ==> well_formed(#[trigger] a[i]),
        Data::Object(m) => {
            &&& keys_ascending(m)
            &&& forall|i: int| 0 <= i < m.len() ==> well_formed((#[trigger] m[i]).1)
        },
        _ => true,
    }
}

/// The value of the first entry with the given key.
pub open spec fn lookup(m: Seq<(Seq<char>, Data)>, key: Seq<char>) -> Option<Data>
    decreases m.len(),
{
    if m.len() == 0 {
        None
    } else if m[0].0 == key {
        Some(m[0].1)
    } else {
        lookup(m.drop_first(), key)
    }
}

/// The values of the entries, in stored order.
pub open spec fn entry_values(m: Seq<(Seq<char>, Data)>) -> Seq<Data> {
    m.map_values(|e: (Seq<char>, Data)| e.1)
}

/// The keys of the entries, in stored order.
pub open spec fn entry_keys(m: Seq<(Seq<char>, Data)>) -> Seq<Seq<char>> {
    m.map_values(|e: (Seq<char>, Data)| e.0)
}

/// Inserting into an ordered map: an entry with the same key has its value
/// replaced; otherwise the entry goes in before the first greater key.
pub open spec fn insert_entry(m: Seq<(Seq<char>, Data)>, key: Seq<char>, val: Data) -> Seq<
    (Seq<char>, Data),
>
    decreases m.len(),
{
    if m.len() == 0 {
        seq![(key, val)]
    } else if m[0].0 == key {
        seq![(key, val)] + m.drop_first()
    } else if key_less(key, m[0].0) {
        seq![(key, val)] + m
    } else {
        seq![m[0]] + insert_entry(m.drop_first(), key, val)
    }
}

} // verus!


verus! {

/// A text never precedes itself.
pub proof fn lemma_key_less_irreflexive(a: Seq<char>)
    ensures
        !key_less(a, a),
    decreases a.len(),
{
    if a.len() > 0 {
        lemma_key_less_irreflexive(a.drop_first());
    }
}

/// Of two texts, exactly one precedes the other, unless they are the same.
pub proof fn lemma_key_less_trichotomy(a: Seq<char>, b: Seq<char>)
    ensures
        a == b || key_less(a, b) || key_less(b, a),
        !(key_less(a, b) && key_less(b, a)),
        key_less(a, b) ==> a != b,
    decreases a.len(),
{
    lemma_key_less_irreflexive(a);
    if a.len() == 0 && b.len() == 0 {
        assert(a =~= b);
    } else if a.len() > 0 && b.len() > 0 && a[0] != b[0] {
        assert((a[0] as int) != (b[0] as int));
    } else if a.len() > 0 && b.len() > 0 && a[0] == b[0] {
        lemma_key_less_trichotomy(a.drop_first(), b.drop_first());
        if a.drop_first() == b.drop_first() {
            assert(a =~= seq![a[0]] + a.drop_first());
            assert(b =~= seq![b[0]] + b.drop_first());
        }
    }
}

/// The order on texts is transitive.
pub proof fn lemma_key_less_transitive(a: Seq<char>, b: Seq<char>, c: Seq<char>)
    requires
        key_less(a, b),
        key_less(b, c),
    ensures
        key_less(a, c),
    decreases a.len(),
{
    if a.len() > 0 && a[0] == b[0] && b[0] == c[0] {
        lemma_key_less_transitive(a.drop_first(), b.drop_first(), c.drop_first());
    }
}

/// Texts that agree on their first `i` characters compare as their remainders do.
pub proof fn lemma_key_less_common_prefix(a: Seq<char>, b: Seq<char>, i: int)
    requires
        0 <= i <= a.len(),
        i <= b.len(),
        a.take(i) == b.take(i),
    ensures
        key_less(a, b) == key_less(a.skip(i), b.skip(i)),
    decreases i,
{
    if i > 0 {
        assert(a[0] == a.take(i)[0] && b[0] == b.take(i)[0]);
        assert(a.drop_first().take(i - 1) =~= a.take(i).drop_first());
        assert(b.drop_first().take(i - 1) =~= b.take(i).drop_first());
        lemma_key_less_common_prefix(a.drop_first(), b.drop_first(), i - 1);
        assert(a.drop_first().skip(i - 1) =~= a.skip(i));
        assert(b.drop_first().skip(i - 1) =~= b.skip(i));
    } else {
        assert(a.skip(0) =~= a);
        assert(b.skip(0) =~= b);
    }
}

/// The lookup finds the first entry with the key, if any.
pub proof fn lemma_lookup_first(m: Seq<(Seq<char>, Data)>, key: Seq<char>, i: int)
    requires
        0 <= i <= m.len(),
        forall|j: int| 0 <= j < i ==> (#[trigger] m[j]).0 != key,
        i < m.len() ==> m[i].0 == key,
    ensures
        lookup(m, key) == if i < m.len() {
            Some(m[i].1)
        } else {
            None::<Data>
        },
    decreases i,
{
    if i > 0 {
        assert(m[0].0 != key);
        assert forall|j: int| 0 <= j < i - 1 implies (#[trigger] m.drop_first()[j]).0 != key by {
            assert(m.drop_first()[j] == m[j + 1]);
        }
        lemma_lookup_first(m.drop_first(), key, i - 1);
    }
}

/// Inserting after a run of smaller keys leaves that run in front.
pub proof fn lemma_insert_after_smaller(
    m: Seq<(Seq<char>, Data)>,
    key: Seq<char>,
    val: Data,
    i: int,
)
    requires
        0 <= i <= m.len(),
        forall|j: int| 0 <= j < i ==> key_less(#[trigger] m[j].0, key),
    ensures
        insert_entry(m, key, val) == m.take(i) + insert_entry(m.skip(i), key, val),
    decreases i,
{
    if i == 0 {
        assert(m.skip(0) =~= m);
        assert(m.take(0) + insert_entry(m, key, val) =~= insert_entry(m, key, val));
    } else {
        lemma_key_less_trichotomy(m[0].0, key);
        assert forall|j: int| 0 <= j < i - 1 implies key_less(#[trigger] m.drop_first()[j].0, key) by {
            assert(m.drop_first()[j] == m[j + 1]);
        }
        lemma_insert_after_smaller(m.drop_first(), key, val, i - 1);
        assert(m.drop_first().skip(i - 1) =~= m.skip(i));
        assert(seq![m[0]] + m.drop_first().take(i - 1) =~= m.take(i));
        assert(seq![m[0]] + (m.drop_first().take(i - 1) + insert_entry(m.skip(i), key, val))
            =~= m.take(i) + insert_entry(m.skip(i), key, val));
    }
}

} // verus!

verus! {

/// Insertion keeps the keys of an object strictly ascending; the first key
/// afterwards is the inserted key or the first key before.
pub proof fn lemma_insert_keeps_keys_ascending(
    m: Seq<(Seq<char>, Data)>,
    key: Seq<char>,
    val: Data,
)
    requires
        keys_ascending(m),
    ensures
        keys_ascending(insert_entry(m, key, val)),
        insert_entry(m, key, val).len() > 0,
        insert_entry(m, key, val)[0].0 == key || (m.len() > 0 && insert_entry(m, key, val)[0].0
            == m[0].0),
    decreases m.len(),
{
    let r = insert_entry(m, key, val);
    if m.len() == 0 {
    } else if m[0].0 == key {
        assert forall|i: int| 0 <= i < r.len() - 1 implies key_less(#[trigger] r[i].0, r[i + 1].0) by {
            assert(r[i].0 == m[i].0 && r[i + 1].0 == m[i + 1].0);
        }
    } else if key_less(key, m[0].0) {
        assert forall|i: int| 0 <= i < r.len() - 1 implies key_less(#[trigger] r[i].0, r[i + 1].0) by {
            if i > 0 {
                assert(r[i] == m[i - 1] && r[i + 1] == m[i]);
            }
        }
    } else {
        lemma_key_less_trichotomy(key, m[0].0);
        let rest = m.drop_first();
        assert forall|i: int| 0 <= i < rest.len() - 1 implies key_less(#[trigger] rest[i].0, rest[i + 1].0) by {
            assert(rest[i] == m[i + 1] && rest[i + 1] == m[i + 2]);
        }
        lemma_insert_keeps_keys_ascending(rest, key, val);
        let t = insert_entry(rest, key, val);
        assert forall|i: int| 0 <= i < r.len() - 1 implies key_less(#[trigger] r[i].0, r[i + 1].0) by {
            if i == 0 {
                assert(r[1] == t[0]);
                if rest.len() > 0 {
                    assert(rest[0] == m[1]);
                }
            } else {
                assert(r[i] == t[i - 1] && r[i + 1] == t[i]);
            }
        }
    }
}

} // verus!
