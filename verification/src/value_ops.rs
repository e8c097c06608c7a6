use vstd::prelude::*;
use crate::text::chars_of;
use crate::value::{
    Data, Value, data_eq, entry_models, float_eq, float_is_nan, float_is_zero, group_value_models,
    insert_entry, key_less, lemma_insert_after_smaller, lemma_key_less_common_prefix,
    lemma_key_less_trichotomy, lemma_lookup_first, lookup, models_of, entry_values,
};

verus! {

broadcast use group_value_models;

impl Value {
    /// A copy of the value that shares nothing with it.
    #[verifier::loop_isolation(false)]
    pub fn deep_copy(&self) -> (r: Value)
        ensures
            r@ == self@,
        decreases self,
    {
        match self {
            Value::Null => Value::Null,
            Value::Bool(b) => Value::Bool(*b),
            Value::Integer(i) => Value::Integer(*i),
            Value::Float(f) => Value::Float(*f),
            Value::String(s) => Value::String(s.clone()),
            Value::Array(a) => {
                let mut out: Vec<Value> = Vec::new();
                for i in 0..a.len()
                    invariant
                        out@.len() == i,
                        forall|j: int| 0 <= j < i ==> (#[trigger] out@[j])@ == a@[j]@,
                {
                    out.push(a[i].deep_copy());
                }
                assert(models_of(out@) =~= models_of(a@));
                Value::Array(out)
            },
            Value::Object(m) => {
                let mut out: Vec<(String, Value)> = Vec::new();
                for i in 0..m.len()
                    invariant
                        out@.len() == i,
                        forall|j: int|
                            0 <= j < i ==> (#[trigger] out@[j]).0@ == m@[j].0@ && out@[j].1@
                                == m@[j].1@,
                {
                    let k = m[i].0.clone();
                    let v = m[i].1.deep_copy();
                    out.push((k, v));
                }
                assert forall|j: int| 0 <= j < m@.len() implies #[trigger] entry_models(out@)[j]
                    == entry_models(m@)[j] by {
                    assert(out@[j].0@ == m@[j].0@ && out@[j].1@ == m@[j].1@);
                }
                assert(entry_models(out@) =~= entry_models(m@));
                Value::Object(out)
            },
        }
    }
}

/// IEEE-754 test for NaN on a bit pattern.
pub fn bits_is_nan(bits: u64) -> (r: bool)
    ensures
        r == float_is_nan(bits),
{
    (bits / 0x10_0000_0000_0000) % 0x800 == 0x7ff && bits % 0x10_0000_0000_0000 != 0
}

/// IEEE-754 test for a zero (of either sign) on a bit pattern.
pub fn bits_is_zero(bits: u64) -> (r: bool)
    ensures
        r == float_is_zero(bits),
{
    bits % 0x8000_0000_0000_0000 == 0
}

/// IEEE-754 equality of two numbers given by their bit patterns.
pub fn bits_eq(a: u64, b: u64) -> (r: bool)
    ensures
        r == float_eq(a, b),
{
    !bits_is_nan(a) && !bits_is_nan(b) && (a == b || (bits_is_zero(a) && bits_is_zero(b)))
}

/// Equality of two values, as the document model defines it.
#[verifier::loop_isolation(false)]
pub fn values_equal(a: &Value, b: &Value) -> (r: bool)
    ensures
        r == data_eq(a@, b@),
    decreases a,
{
    match (a, b) {
        (Value::Null, Value::Null) => true,
        (Value::Bool(x), Value::Bool(y)) => *x == *y,
        (Value::Integer(x), Value::Integer(y)) => *x == *y,
        (Value::Float(x), Value::Float(y)) => bits_eq(*x, *y),
        (Value::String(x), Value::String(y)) => *x == *y,
        (Value::Array(x), Value::Array(y)) => {
            assert(a@ == Data::Array(models_of(x@)) && b@ == Data::Array(models_of(y@)));
            if x.len() != y.len() {
                return false;
            }
            for i in 0..x.len()
                invariant
                    x.len() == y.len(),
                    forall|j: int| 0 <= j < i ==> data_eq(#[trigger] x@[j]@, y@[j]@),
            {
                if !values_equal(&x[i], &y[i]) {
                    assert(models_of(x@)[i as int] == x@[i as int]@);
                    assert(models_of(y@)[i as int] == y@[i as int]@);
                    return false;
                }
            }
            assert forall|j: int| 0 <= j < models_of(x@).len() implies data_eq(
                #[trigger] models_of(x@)[j],
                models_of(y@)[j],
            ) by {
                assert(data_eq(x@[j]@, y@[j]@));
            }
            true
        },
        (Value::Object(x), Value::Object(y)) => {
            assert(a@ == Data::Object(entry_models(x@)) && b@ == Data::Object(entry_models(y@)));
            if x.len() != y.len() {
                return false;
            }
            for i in 0..x.len()
                invariant
                    x.len() == y.len(),
                    forall|j: int|
                        0 <= j < i ==> (#[trigger] x@[j]).0@ == y@[j].0@ && data_eq(
                            x@[j].1@,
                            y@[j].1@,
                        ),
            {
                if x[i].0 != y[i].0 || !values_equal(&x[i].1, &y[i].1) {
                    assert(entry_models(x@)[i as int].0 != entry_models(y@)[i as int].0
                        || !data_eq(entry_models(x@)[i as int].1, entry_models(y@)[i as int].1));
                    return false;
                }
            }
            assert forall|j: int| 0 <= j < entry_models(x@).len() implies (
            #[trigger] entry_models(x@)[j]).0 == entry_models(y@)[j].0 && data_eq(
                entry_models(x@)[j].1,
                entry_models(y@)[j].1,
            ) by {
                assert(x@[j].0@ == y@[j].0@);
            }
            true
        },
        _ => false,
    }
}

} // verus!

verus! {


/// Whether the first text precedes the second in code-point order.
pub fn text_less(a: &str, b: &str) -> (r: bool)
    ensures
        r == key_less(a@, b@),
{
    let x = chars_of(a);
    let y = chars_of(b);
    let mut i: usize = 0;
    while i < x.len() && i < y.len() && x[i] == y[i]
        invariant
            i <= x.len(),
            i <= y.len(),
            x@.take(i as int) == y@.take(i as int),
        decreases x.len() - i,
    {
        assert(x@.take(i + 1) == x@.take(i as int).push(x@[i as int]));
        assert(y@.take(i + 1) == y@.take(i as int).push(y@[i as int]));
        i = i + 1;
    }
    proof {
        lemma_key_less_common_prefix(x@, y@, i as int);
    }
    let r = if i == x.len() {
        i < y.len()
    } else if i == y.len() {
        false
    } else {
        x[i] < y[i]
    };
    proof {
        let (xs, ys) = (x@.skip(i as int), y@.skip(i as int));
        if i < x.len() {
            assert(xs[0] == x@[i as int]);
        }
        if i < y.len() {
            assert(ys[0] == y@[i as int]);
        }
    }
    r
}

/// The position of the first entry with the given key.
pub fn find_entry(m: &Vec<(String, Value)>, key: &String) -> (r: Option<usize>)
    ensures
        match r {
            Some(i) => i < m.len() && m@[i as int].0@ == key@ && forall|j: int|
                0 <= j < i ==> (#[trigger] m@[j]).0@ != key@,
            None => forall|j: int| 0 <= j < m.len() ==> (#[trigger] m@[j]).0@ != key@,
        },
        lookup(entry_models(m@), key@) == match r {
            Some(i) => Some(m@[i as int].1@),
            None => None::<Data>,
        },
{
    let mut i: usize = 0;
    while i < m.len()
        invariant
            i <= m.len(),
            forall|j: int| 0 <= j < i ==> (#[trigger] m@[j]).0@ != key@,
        decreases m.len() - i,
    {
        if m[i].0 == *key {
            proof {
                assert forall|j: int| 0 <= j < i implies (#[trigger] entry_models(m@)[j]).0
                    != key@ by {
                    assert(m@[j].0@ != key@);
                }
                lemma_lookup_first(entry_models(m@), key@, i as int);
            }
            return Some(i);
        }
        i = i + 1;
    }
    proof {
        assert forall|j: int| 0 <= j < m.len() implies (#[trigger] entry_models(m@)[j]).0
            != key@ by {
            assert(m@[j].0@ != key@);
        }
        lemma_lookup_first(entry_models(m@), key@, m.len() as int);
    }
    None
}

} // verus!

verus! {

/// Inserts an entry into an object kept in key order: an entry with the same
/// key has its value replaced, otherwise the entry goes before the first
/// greater key.
pub fn object_insert(m: &mut Vec<(String, Value)>, key: String, val: Value)
    ensures
        entry_models(final(m)@) == insert_entry(entry_models(old(m)@), key@, val@),
{
    let ghost old_models = entry_models(m@);
    let mut i: usize = 0;
    while i < m.len() && text_less(m[i].0.as_str(), key.as_str())
        invariant
            i <= m.len(),
            m@ == old(m)@,
            old_models == entry_models(m@),
            forall|j: int| 0 <= j < i ==> key_less(#[trigger] old_models[j].0, key@),
        decreases m.len() - i,
    {
        i = i + 1;
    }
    proof {
        lemma_insert_after_smaller(old_models, key@, val@, i as int);
    }
    let ghost tail = old_models.skip(i as int);
    if i < m.len() && m[i].0 == key {
        assert(tail[0].0 == key@);
        m.set(i, (key, val));
        assert(entry_models(m@) =~= old_models.take(i as int) + insert_entry(tail, key@, val@));
    } else {
        proof {
            if i < old_models.len() {
                lemma_key_less_trichotomy(old_models[i as int].0, key@);
                assert(tail[0] == old_models[i as int]);
            }
        }
        m.insert(i, (key, val));
        assert(entry_models(m@) =~= old_models.take(i as int) + insert_entry(tail, key@, val@));
    }
}

} // verus!

verus! {

impl Clone for Value {
    /// A copy that denotes the same document.
    fn clone(&self) -> (r: Self)
        ensures
            r@ == self@,
    {
        self.deep_copy()
    }
}

} // verus!

verus! {

/// Copies of the values of an object's entries, in stored order.
pub fn object_values(m: &Vec<(String, Value)>) -> (r: Vec<Value>)
    ensures
        models_of(r@) == entry_values(entry_models(m@)),
{
    let mut r: Vec<Value> = Vec::new();
    for i in 0..m.len()
        invariant
            r@.len() == i,
            forall|j: int| 0 <= j < i ==> (#[trigger] r@[j])@ == m@[j].1@,
    {
        r.push(m[i].1.deep_copy());
    }
    assert(models_of(r@) =~= entry_values(entry_models(m@)));
    r
}

/// Copies of the elements of an array.
pub fn copy_values(a: &Vec<Value>) -> (r: Vec<Value>)
    ensures
        models_of(r@) == models_of(a@),
{
    let mut r: Vec<Value> = Vec::new();
    for i in 0..a.len()
        invariant
            r@.len() == i,
            forall|j: int| 0 <= j < i ==> (#[trigger] r@[j])@ == a@[j]@,
    {
        r.push(a[i].deep_copy());
    }
    assert(models_of(r@) =~= models_of(a@));
    r
}

} // verus!
