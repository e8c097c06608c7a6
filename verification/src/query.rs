use crate::query_model::{
    Abort, ExprModel, SegmentModel, apply_step, binop, eval, eval_steps, field_of, field_or_null,
    filter_items, group_query_models, items_of, map_items, segment_models, trunc_div,
    bracket_segment, condition_op, condition_op_text, condition_value, filter_condition,
    filter_condition_from, flush, query_error_message, scan_path, upl_parse,
};
use crate::value::{Data, Value, models_of, truthy};
use crate::value_ops::{bits_is_zero, copy_values, find_entry, object_values, values_equal};
use crate::text::{
    find, chars_eq, chars_of, chars_to_bool, chars_to_i64, chars_to_usize, concat, find_chars,
    index_of_char, lemma_find_bounds, lemma_index_of_from, slice_chars, string_of, trim_chars,
    usize_to_text,
};
use vstd::prelude::*;

verus! {

/// One step of a path.
#[derive(Debug)]
pub enum PathSegment {
    Field(String),
    Index(usize),
    Wildcard,
    Filter(Expression),
}

/// A query expression of the Universal Path Language.
#[derive(Debug)]
pub enum Expression {
    Path(Vec<PathSegment>),
    Filter { input: Box<Expression>, predicate: Box<Expression> },
    Transform { input: Box<Expression>, transform: Box<Expression> },
    Literal(Value),
    /// Field access in the current context.
    Field(String),
    Variable(String),
    BinaryOp { left: Box<Expression>, op: BinaryOperator, right: Box<Expression> },
}

#[derive(Debug, Clone, Copy, PartialEq, Eq, Structural)]
pub enum BinaryOperator {
    Eq,
    Ne,
    Gt,
    Lt,
    Gte,
    LTE,
    Add,
    Sub,
    Mul,
    Div,
    And,
    Or,
}

/// Why a query could not be parsed or evaluated.
#[derive(Debug)]
pub enum QueryError {
    InvalidPath(String),
    IndexOutOfBounds(usize),
    KeyNotFound(String),
    TypeError { expected: &'static str, got: &'static str },
    FilterError(String),
}

impl QueryError {
    /// The message the error is shown with.
    pub fn message(&self) -> (r: String)
        ensures
            r@ == query_error_message(self@),
    {
        match self {
            QueryError::InvalidPath(s) => concat("Invalid path: ", s.as_str()),
            QueryError::IndexOutOfBounds(i) => {
                let n = usize_to_text(*i);
                concat("Index out of bounds: ", n.as_str())
            },
            QueryError::KeyNotFound(s) => concat("Key not found: ", s.as_str()),
            QueryError::TypeError { expected, got } => {
                let a = concat("Type error: expected ", expected);
                let b = concat(a.as_str(), ", got ");
                concat(b.as_str(), got)
            },
            QueryError::FilterError(s) => concat("Filter error: ", s.as_str()),
        }
    }
}

impl PathSegment {
    /// A copy of the segment that shares nothing with it.
    pub fn deep_copy(&self) -> (r: PathSegment)
        ensures
            r@ == self@,
        decreases self, 1nat,
    {
        match self {
            PathSegment::Field(name) => PathSegment::Field(name.clone()),
            PathSegment::Index(i) => PathSegment::Index(*i),
            PathSegment::Wildcard => PathSegment::Wildcard,
            PathSegment::Filter(e) => PathSegment::Filter(e.deep_copy()),
        }
    }
}

impl Expression {
    /// A copy of the expression that shares nothing with it.
    #[verifier::loop_isolation(false)]
    pub fn deep_copy(&self) -> (r: Expression)
        ensures
            r@ == self@,
        decreases self, 0nat,
    {
        match self {
            Expression::Path(segs) => {
                let mut out: Vec<PathSegment> = Vec::new();
                for i in 0..segs.len()
                    invariant
                        out@.len() == i,
                        forall|j: int| 0 <= j < i ==> (#[trigger] out@[j])@ == segs@[j]@,
                {
                    out.push(segs[i].deep_copy());
                }
                assert(segment_models(out@) =~= segment_models(segs@));
                Expression::Path(out)
            },
            Expression::Filter { input, predicate } => Expression::Filter {
                input: Box::new(input.deep_copy()),
                predicate: Box::new(predicate.deep_copy()),
            },
            Expression::Transform { input, transform } => Expression::Transform {
                input: Box::new(input.deep_copy()),
                transform: Box::new(transform.deep_copy()),
            },
            Expression::Literal(v) => Expression::Literal(v.deep_copy()),
            Expression::Field(name) => Expression::Field(name.clone()),
            Expression::Variable(name) => Expression::Variable(name.clone()),
            Expression::BinaryOp { left, op, right } => Expression::BinaryOp {
                left: Box::new(left.deep_copy()),
                op: *op,
                right: Box::new(right.deep_copy()),
            },
        }
    }
}

impl Clone for PathSegment {
    /// A copy that denotes the same segment.
    fn clone(&self) -> (r: Self)
        ensures
            r@ == self@,
    {
        self.deep_copy()
    }
}

impl Clone for Expression {
    /// A copy that denotes the same expression.
    fn clone(&self) -> (r: Self)
        ensures
            r@ == self@,
    {
        self.deep_copy()
    }
}

/// The evaluator of the Universal Path Language.
pub struct UplEvaluator;

} // verus!

verus! {

broadcast use {group_query_models, crate::value::group_value_models};

/// The closure adds two binary64 numbers given by their bit patterns: it
/// accepts every pair, and answers the same for the same pair.
pub open spec fn adds_floats<F: Fn(u64, u64) -> u64>(f: F) -> bool {
    &&& forall|a: u64, b: u64| #[trigger] call_requires(f, (a, b))
    &&& forall|a: u64, b: u64, r1: u64, r2: u64|
        #![trigger call_ensures(f, (a, b), r1), call_ensures(f, (a, b), r2)]
        call_ensures(f, (a, b), r1) && call_ensures(f, (a, b), r2) ==> r1 == r2
}

/// The sum that the closure answers for two bit patterns.
pub open spec fn sum_by<F: Fn(u64, u64) -> u64>(f: F) -> spec_fn(u64, u64) -> u64 {
    |a: u64, b: u64| choose|r: u64| call_ensures(f, (a, b), r)
}

/// Why an evaluation stopped early.
enum Stop {
    Query(QueryError),
    Overflow,
}

spec fn stop_model(s: Stop) -> Abort {
    match s {
        Stop::Query(e) => Abort::Query(e@),
        Stop::Overflow => Abort::Overflow,
    }
}

/// The executable outcome stands for the specified one.
spec fn agrees(r: Result<Value, Stop>, o: Result<Data, Abort>) -> bool {
    match (r, o) {
        (Ok(v), Ok(d)) => v@ == d,
        (Err(s), Err(a)) => stop_model(s) == a,
        _ => false,
    }
}

/// The executable list outcome stands for the specified one.
spec fn agrees_all(r: Result<Vec<Value>, Stop>, o: Result<Seq<Data>, Abort>) -> bool {
    match (r, o) {
        (Ok(v), Ok(d)) => models_of(v@) == d,
        (Err(s), Err(a)) => stop_model(s) == a,
        _ => false,
    }
}

/// A path whose prefix fails fails the same way.
proof fn lemma_steps_stop(
    steps: Seq<SegmentModel>,
    v: Data,
    fadd: spec_fn(u64, u64) -> u64,
    k: int,
    n: int,
)
    requires
        0 <= k <= n <= steps.len(),
        eval_steps(steps.take(k), v, fadd) is Err,
    ensures
        eval_steps(steps.take(n), v, fadd) == eval_steps(steps.take(k), v, fadd),
    decreases n - k,
{
    if n > k {
        lemma_steps_stop(steps, v, fadd, k, n - 1);
        assert(steps.take(n).drop_last() =~= steps.take(n - 1));
    }
}

/// A filter whose prefix fails fails the same way.
proof fn lemma_filter_stop(
    pred: ExprModel,
    items: Seq<Data>,
    fadd: spec_fn(u64, u64) -> u64,
    k: int,
    n: int,
)
    requires
        0 <= k <= n <= items.len(),
        filter_items(pred, items.take(k), fadd) is Err,
    ensures
        filter_items(pred, items.take(n), fadd) == filter_items(pred, items.take(k), fadd),
    decreases n - k,
{
    if n > k {
        lemma_filter_stop(pred, items, fadd, k, n - 1);
        assert(items.take(n).drop_last() =~= items.take(n - 1));
    }
}

/// A transform whose prefix fails fails the same way.
proof fn lemma_map_stop(
    f: ExprModel,
    items: Seq<Data>,
    fadd: spec_fn(u64, u64) -> u64,
    k: int,
    n: int,
)
    requires
        0 <= k <= n <= items.len(),
        map_items(f, items.take(k), fadd) is Err,
    ensures
        map_items(f, items.take(n), fadd) == map_items(f, items.take(k), fadd),
    decreases n - k,
{
    if n > k {
        lemma_map_stop(f, items, fadd, k, n - 1);
        assert(items.take(n).drop_last() =~= items.take(n - 1));
    }
}

} // verus!

verus! {

impl UplEvaluator {
    /// The value of a field of an object.
    fn field_value(value: &Value, name: &String) -> (r: Result<Value, Stop>)
        ensures
            agrees(r, field_of(value@, name@)),
    {
        match value {
            Value::Object(m) => match find_entry(m, name) {
                Some(i) => Ok(m[i].1.deep_copy()),
                None => Err(Stop::Query(QueryError::KeyNotFound(name.clone()))),
            },
            _ => Err(
                Stop::Query(QueryError::TypeError { expected: "object", got: "array or scalar" }),
            ),
        }
    }

    /// The items of `items` for which the predicate is truthy.
    #[verifier::loop_isolation(false)]
    fn keep_truthy<F: Fn(u64, u64) -> u64>(
        pred: &Expression,
        items: &Vec<Value>,
        fadd: &F,
    ) -> (r: Result<Vec<Value>, Stop>)
        requires
            adds_floats(*fadd),
        ensures
            agrees_all(r, filter_items(pred@, models_of(items@), sum_by(*fadd))),
        decreases pred, 1nat,
    {
        let ghost fs = sum_by(*fadd);
        let ghost all = models_of(items@);
        let mut out: Vec<Value> = Vec::new();
        let mut i: usize = 0;
        assert(all.take(0) =~= Seq::<Data>::empty());
        while i < items.len()
            invariant
                i <= items.len(),
                filter_items(pred@, all.take(i as int), fs) == Ok::<Seq<Data>, Abort>(
                    models_of(out@),
                ),
            decreases items.len() - i,
        {
            proof {
                assert(all.take(i + 1).drop_last() =~= all.take(i as int));
                assert(all.take(i + 1).last() == items@[i as int]@);
            }
            match Self::run(pred, &items[i], fadd) {
                Ok(p) => {
                    if Self::is_truthy(&p) {
                        let ghost before = out@;
                        out.push(items[i].deep_copy());
                        assert(models_of(out@) =~= models_of(before).push(items@[i as int]@));
                    }
                },
                Err(s) => {
                    proof {
                        lemma_filter_stop(pred@, all, fs, i + 1, items.len() as int);
                        assert(all.take(items.len() as int) =~= all);
                    }
                    return Err(s);
                },
            }
            i = i + 1;
        }
        assert(all.take(items.len() as int) =~= all);
        Ok(out)
    }

    /// The transform of each item.
    #[verifier::loop_isolation(false)]
    fn transform_each<F: Fn(u64, u64) -> u64>(
        f: &Expression,
        items: &Vec<Value>,
        fadd: &F,
    ) -> (r: Result<Vec<Value>, Stop>)
        requires
            adds_floats(*fadd),
        ensures
            agrees_all(r, map_items(f@, models_of(items@), sum_by(*fadd))),
        decreases f, 1nat,
    {
        let ghost fs = sum_by(*fadd);
        let ghost all = models_of(items@);
        let mut out: Vec<Value> = Vec::new();
        let mut i: usize = 0;
        assert(all.take(0) =~= Seq::<Data>::empty());
        while i < items.len()
            invariant
                i <= items.len(),
                out@.len() == i,
                map_items(f@, all.take(i as int), fs) == Ok::<Seq<Data>, Abort>(models_of(out@)),
            decreases items.len() - i,
        {
            proof {
                assert(all.take(i + 1).drop_last() =~= all.take(i as int));
                assert(all.take(i + 1).last() == items@[i as int]@);
            }
            match Self::run(f, &items[i], fadd) {
                Ok(x) => {
                    let ghost before = out@;
                    let ghost xm = x@;
                    out.push(x);
                    assert(models_of(out@) =~= models_of(before).push(xm));
                },
                Err(s) => {
                    proof {
                        lemma_map_stop(f@, all, fs, i + 1, items.len() as int);
                        assert(all.take(items.len() as int) =~= all);
                    }
                    return Err(s);
                },
            }
            i = i + 1;
        }
        assert(all.take(items.len() as int) =~= all);
        Ok(out)
    }

    /// Whether a value counts as true in a filter.
    pub fn is_truthy(value: &Value) -> (r: bool)
        ensures
            r == truthy(value@),
    {
        match value {
            Value::Bool(b) => *b,
            Value::Null => false,
            Value::Integer(i) => *i != 0,
            Value::Float(f) => !bits_is_zero(*f),
            Value::String(s) => !s.as_str().is_empty(),
            Value::Array(arr) => arr.len() != 0,
            Value::Object(map) => map.len() != 0,
        }
    }
}

} // verus!

verus! {

impl UplEvaluator {
    /// Evaluates an expression against a value, stopping at the first failure.
    #[verifier::loop_isolation(false)]
    fn run<F: Fn(u64, u64) -> u64>(expr: &Expression, value: &Value, fadd: &F) -> (r: Result<
        Value,
        Stop,
    >)
        requires
            adds_floats(*fadd),
        ensures
            agrees(r, eval(expr@, value@, sum_by(*fadd))),
        decreases expr, 0nat,
    {
        let ghost fs = sum_by(*fadd);
        match expr {
            Expression::Literal(v) => Ok(v.deep_copy()),
            Expression::Variable(name) => Err(
                Stop::Query(
                    QueryError::InvalidPath(
                        concat("Variables not supported yet: ", name.as_str()),
                    ),
                ),
            ),
            Expression::Field(name) => Self::field_value(value, name),
            Expression::Path(segments) => {
                let ghost steps = segment_models(segments@);
                let mut current = value.deep_copy();
                let mut i: usize = 0;
                assert(steps.take(0) =~= Seq::<SegmentModel>::empty());
                while i < segments.len()
                    invariant
                        i <= segments.len(),
                        eval_steps(steps.take(i as int), value@, fs) == Ok::<Data, Abort>(
                            current@,
                        ),
                    decreases segments.len() - i,
                {
                    proof {
                        assert(steps.take(i + 1).drop_last() =~= steps.take(i as int));
                        assert(steps.take(i + 1).last() == segments@[i as int]@);
                    }
                    match Self::apply_segment(&current, &segments[i], fadd) {
                        Ok(next) => {
                            current = next;
                        },
                        Err(s) => {
                            proof {
                                lemma_steps_stop(steps, value@, fs, i + 1, segments.len() as int);
                                assert(steps.take(segments.len() as int) =~= steps);
                            }
                            return Err(s);
                        },
                    }
                    i = i + 1;
                }
                assert(steps.take(segments.len() as int) =~= steps);
                Ok(current)
            },
            Expression::Transform { input, transform } => match Self::run(input, value, fadd) {
                Ok(Value::Array(items)) => match Self::transform_each(transform, &items, fadd) {
                    Ok(r) => Ok(Value::Array(r)),
                    Err(s) => Err(s),
                },
                Ok(_) => Err(Stop::Query(QueryError::TypeError { expected: "array", got: "value" })),
                Err(s) => Err(s),
            },
            Expression::Filter { input, predicate } => match Self::run(input, value, fadd) {
                Ok(Value::Array(items)) => match Self::keep_truthy(predicate, &items, fadd) {
                    Ok(r) => Ok(Value::Array(r)),
                    Err(s) => Err(s),
                },
                Ok(_) => Err(Stop::Query(QueryError::TypeError { expected: "array", got: "value" })),
                Err(s) => Err(s),
            },
            Expression::BinaryOp { left, op, right } => match Self::run(left, value, fadd) {
                Ok(l) => match Self::run(right, value, fadd) {
                    Ok(r) => Self::eval_binary_op(l, *op, r, fadd),
                    Err(s) => Err(s),
                },
                Err(s) => Err(s),
            },
        }
    }

    /// Applies one path segment to a value.
    #[verifier::loop_isolation(false)]
    fn apply_segment<F: Fn(u64, u64) -> u64>(
        value: &Value,
        segment: &PathSegment,
        fadd: &F,
    ) -> (r: Result<Value, Stop>)
        requires
            adds_floats(*fadd),
        ensures
            agrees(r, apply_step(value@, segment@, sum_by(*fadd))),
        decreases segment, 0nat,
    {
        match segment {
            PathSegment::Field(name) => match value {
                Value::Object(_) => Self::field_value(value, name),
                Value::Array(arr) => {
                    let ghost all = models_of(arr@);
                    let mut results: Vec<Value> = Vec::new();
                    for i in 0..arr.len()
                        invariant
                            results@.len() == i,
                            forall|j: int|
                                0 <= j < i ==> (#[trigger] results@[j])@ == field_or_null(
                                    arr@[j]@,
                                    name@,
                                ),
                    {
                        let item = match &arr[i] {
                            Value::Object(map) => match find_entry(map, name) {
                                Some(k) => map[k].1.deep_copy(),
                                None => Value::Null,
                            },
                            _ => Value::Null,
                        };
                        results.push(item);
                    }
                    assert(models_of(results@) =~= all.map_values(
                        |x: Data| field_or_null(x, name@),
                    ));
                    Ok(Value::Array(results))
                },
                _ => Err(
                    Stop::Query(
                        QueryError::TypeError { expected: "object", got: "array or scalar" },
                    ),
                ),
            },
            PathSegment::Index(idx) => match value {
                Value::Array(arr) => if *idx < arr.len() {
                    let r = arr[*idx].deep_copy();
                    assert(segment@ == SegmentModel::Index(*idx));
                    assert(value@ == Data::Array(models_of(arr@)));
                    Ok(r)
                } else {
                    assert(segment@ == SegmentModel::Index(*idx));
                    assert(value@ == Data::Array(models_of(arr@)));
                    Err(Stop::Query(QueryError::IndexOutOfBounds(*idx)))
                },
                _ => Err(
                    Stop::Query(
                        QueryError::TypeError { expected: "array", got: "object or scalar" },
                    ),
                ),
            },
            PathSegment::Wildcard => match value {
                Value::Object(map) => Ok(Value::Array(object_values(map))),
                Value::Array(_) => Ok(value.deep_copy()),
                _ => {
                    let one = vec![value.deep_copy()];
                    assert(models_of(one@) =~= seq![value@]);
                    Ok(Value::Array(one))
                },
            },
            PathSegment::Filter(pred) => {
                let items = match value {
                    Value::Array(a) => copy_values(a),
                    Value::Object(map) => object_values(map),
                    _ => {
                        return Err(
                            Stop::Query(
                                QueryError::TypeError {
                                    expected: "array or object",
                                    got: "scalar",
                                },
                            ),
                        );
                    },
                };
                assert(items_of(value@) == Some(models_of(items@)));
                match Self::keep_truthy(pred, &items, fadd) {
                    Ok(r) => Ok(Value::Array(r)),
                    Err(s) => Err(s),
                }
            },
        }
    }

    /// A binary operator applied to two values.
    fn eval_binary_op<F: Fn(u64, u64) -> u64>(
        left: Value,
        op: BinaryOperator,
        right: Value,
        fadd: &F,
    ) -> (r: Result<Value, Stop>)
        requires
            adds_floats(*fadd),
        ensures
            agrees(r, binop(left@, op, right@, sum_by(*fadd))),
    {
        match (op, &left, &right) {
            (BinaryOperator::Add, Value::Integer(a), Value::Integer(b)) => match a.checked_add(*b) {
                Some(x) => Ok(Value::Integer(x)),
                None => Err(Stop::Overflow),
            },
            (BinaryOperator::Add, Value::Float(a), Value::Float(b)) => {
                let s = fadd(*a, *b);
                assert(sum_by(*fadd)(*a, *b) == s);
                Ok(Value::Float(s))
            },
            (BinaryOperator::Add, Value::String(a), Value::String(b)) => Ok(
                Value::String(concat(a.as_str(), b.as_str())),
            ),
            (BinaryOperator::Sub, Value::Integer(a), Value::Integer(b)) => match a.checked_sub(*b) {
                Some(x) => Ok(Value::Integer(x)),
                None => Err(Stop::Overflow),
            },
            (BinaryOperator::Mul, Value::Integer(a), Value::Integer(b)) => match a.checked_mul(*b) {
                Some(x) => Ok(Value::Integer(x)),
                None => Err(Stop::Overflow),
            },
            (BinaryOperator::Div, Value::Integer(a), Value::Integer(b)) => {
                if *b == 0 {
                    Err(Stop::Query(QueryError::FilterError(String::from_str("division by zero"))))
                } else if *a == i64::MIN && *b == -1 {
                    Err(Stop::Overflow)
                } else {
                    Ok(Value::Integer(truncating_div(*a, *b)))
                }
            },
            (BinaryOperator::Eq, a, b) => Ok(Value::Bool(values_equal(a, b))),
            (BinaryOperator::Ne, a, b) => Ok(Value::Bool(!values_equal(a, b))),
            (BinaryOperator::Gt, Value::Integer(a), Value::Integer(b)) => Ok(Value::Bool(*a > *b)),
            (BinaryOperator::Lt, Value::Integer(a), Value::Integer(b)) => Ok(Value::Bool(*a < *b)),
            (BinaryOperator::Gte, Value::Integer(a), Value::Integer(b)) => Ok(
                Value::Bool(*a >= *b),
            ),
            (BinaryOperator::LTE, Value::Integer(a), Value::Integer(b)) => Ok(
                Value::Bool(*a <= *b),
            ),
            _ => Err(
                Stop::Query(
                    QueryError::TypeError {
                        expected: "compatible numeric or string types",
                        got: "mismatched",
                    },
                ),
            ),
        }
    }
}

/// Integer division rounding toward zero, as Rust's `/` does.
fn truncating_div(a: i64, b: i64) -> (q: i64)
    requires
        b != 0,
        !(a == i64::MIN && b == -1),
    ensures
        q == trunc_div(a as int, b as int),
{
    let ua: u64 = if a < 0 {
        (-(a as i128)) as u64
    } else {
        a as u64
    };
    let ub: u64 = if b < 0 {
        (-(b as i128)) as u64
    } else {
        b as u64
    };
    let uq = ua / ub;
    assert(uq <= ua);
    if (a < 0) == (b < 0) {
        assert(uq <= i64::MAX) by {
            if a == i64::MIN {
                assert(ub >= 2);
                assert(ua / ub <= ua / 2) by (nonlinear_arith)
                    requires ub >= 2;
            }
        }
        uq as i64
    } else {
        -(uq as i128) as i64
    }
}

} // verus!

verus! {

/// The result of an evaluation stands for the specified outcome; an
/// overflow has no result.
pub open spec fn answers(r: Result<Value, QueryError>, o: Result<Data, Abort>) -> bool {
    match (r, o) {
        (Ok(v), Ok(d)) => v@ == d,
        (Err(e), Err(Abort::Query(m))) => e@ == m,
        _ => false,
    }
}

impl UplEvaluator {
    /// Evaluates a UPL expression against a value. `float_add` adds two
    /// binary64 numbers given by their bit patterns.
    ///
    /// An integer `+`, `-`, `*` or `/` whose result does not fit in 64 bits
    /// is an overflow; such inputs are left out (see `try_evaluate`).
    pub fn evaluate<F: Fn(u64, u64) -> u64>(
        expr: &Expression,
        value: &Value,
        float_add: &F,
    ) -> (r: Result<Value, QueryError>)
        requires
            adds_floats(*float_add),
            eval(expr@, value@, sum_by(*float_add)) != Err::<Data, Abort>(Abort::Overflow),
        ensures
            answers(r, eval(expr@, value@, sum_by(*float_add))),
    {
        match Self::run(expr, value, float_add) {
            Ok(v) => Ok(v),
            Err(Stop::Query(e)) => Err(e),
            Err(Stop::Overflow) => {
                assert(false);
                Err(QueryError::FilterError(String::new()))
            },
        }
    }

    /// Evaluates a UPL expression against a value, or answers `None` where
    /// an integer operation overflows.
    pub fn try_evaluate<F: Fn(u64, u64) -> u64>(
        expr: &Expression,
        value: &Value,
        float_add: &F,
    ) -> (r: Option<Result<Value, QueryError>>)
        requires
            adds_floats(*float_add),
        ensures
            match r {
                None => eval(expr@, value@, sum_by(*float_add)) == Err::<Data, Abort>(
                    Abort::Overflow,
                ),
                Some(res) => answers(res, eval(expr@, value@, sum_by(*float_add))),
            },
    {
        match Self::run(expr, value, float_add) {
            Ok(v) => Some(Ok(v)),
            Err(Stop::Query(e)) => Some(Err(e)),
            Err(Stop::Overflow) => None,
        }
    }
}

} // verus!

verus! {

/// The closure reads a binary64 number from a text, answering its bit
/// pattern, or `None` where the text is no number: it accepts every text, and
/// answers the same for texts with the same characters.
pub open spec fn reads_floats<R: Fn(&str) -> Option<u64>>(f: R) -> bool {
    &&& forall|s: &str| #[trigger] call_requires(f, (s,))
    &&& forall|s1: &str, s2: &str, r1: Option<u64>, r2: Option<u64>|
        #![trigger call_ensures(f, (s1,), r1), call_ensures(f, (s2,), r2)]
        s1@ == s2@ && call_ensures(f, (s1,), r1) && call_ensures(f, (s2,), r2) ==> r1 == r2
}

/// What the closure answers for a text.
pub open spec fn float_reading<R: Fn(&str) -> Option<u64>>(f: R) -> spec_fn(Seq<char>) -> Option<
    u64,
> {
    |t: Seq<char>|
        {
            let (s, r) = choose|s: &str, r: Option<u64>|
                s@ == t && #[trigger] call_ensures(f, (s,), r);
            r
        }
}

/// An optional outcome, by the models of what it holds.
pub open spec fn lift<T: View, E: View>(r: Option<Result<T, E>>) -> Option<Result<T::V, E::V>> {
    match r {
        None => None,
        Some(Ok(t)) => Some(Ok(t@)),
        Some(Err(e)) => Some(Err(e@)),
    }
}

/// Reads a float with the closure, by the text of the characters.
pub(crate) fn read_float_of<R: Fn(&str) -> Option<u64>>(text: &Vec<char>, read_float: &R) -> (r: Option<u64>)
    requires
        reads_floats(*read_float),
    ensures
        r == float_reading(*read_float)(text@),
{
    let s = string_of(text);
    let sr = s.as_str();
    let r = read_float(sr);
    proof {
        let t = text@;
        assert(sr@ == t);
        assert(exists|x: &str, c: Option<u64>|
            x@ == t && #[trigger] call_ensures(*read_float, (x,), c));
        let (w, c) = choose|x: &str, c: Option<u64>|
            x@ == t && #[trigger] call_ensures(*read_float, (x,), c);
        assert(call_ensures(*read_float, (w,), c));
        assert(float_reading(*read_float)(t) == c);
    }
    r
}

} // verus!

verus! {

/// The literal on the right of a filter condition.
fn condition_value_of<R: Fn(&str) -> Option<u64>>(right: &Vec<char>, read_float: &R) -> (r: Option<
    Result<Value, QueryError>,
>)
    requires
        reads_floats(*read_float),
    ensures
        lift(r) == condition_value(right@, float_reading(*read_float)),
{
    if let Some(i) = chars_to_i64(right) {
        return Some(Ok(Value::Integer(i)));
    }
    if let Some(bits) = read_float_of(right, read_float) {
        return Some(Ok(Value::Float(bits)));
    }
    let n = right.len();
    if n > 0 && right[0] == '"' && right[n - 1] == '"' {
        if n >= 2 {
            let inner = slice_chars(right, 1, n - 1);
            Some(Ok(Value::String(string_of(&inner))))
        } else {
            None
        }
    } else {
        match chars_to_bool(right) {
            Some(b) => Some(Ok(Value::Bool(b))),
            None => {
                let text = string_of(right);
                Some(Err(QueryError::FilterError(concat("Unsupported filter value: ", text.as_str()))))
            },
        }
    }
}

/// The text of the `k`-th filter operator.
fn condition_op_text_of(k: usize) -> (r: Vec<char>)
    ensures
        r@ == condition_op_text(k as int),
{
    let r = if k == 0 {
        vec!['=', '=']
    } else if k == 1 {
        vec!['!', '=']
    } else if k == 2 {
        vec!['>', '=']
    } else if k == 3 {
        vec!['<', '=']
    } else if k == 4 {
        vec!['>']
    } else {
        vec!['<']
    };
    assert(r@ =~= condition_op_text(k as int));
    r
}

/// The `k`-th filter operator.
fn condition_op_of(k: usize) -> (r: BinaryOperator)
    ensures
        r == condition_op(k as int),
{
    if k == 0 {
        BinaryOperator::Eq
    } else if k == 1 {
        BinaryOperator::Ne
    } else if k == 2 {
        BinaryOperator::Gte
    } else if k == 3 {
        BinaryOperator::LTE
    } else if k == 4 {
        BinaryOperator::Gt
    } else {
        BinaryOperator::Lt
    }
}

/// Parses a filter condition `field op literal`: the first operator found
/// splits it. Very simple: `field>number`, `field=="string"` and the like.
#[verifier::loop_isolation(false)]
fn parse_filter_condition<R: Fn(&str) -> Option<u64>>(cond: &Vec<char>, read_float: &R) -> (r: Option<
    Result<Expression, QueryError>,
>)
    requires
        reads_floats(*read_float),
    ensures
        lift(r) == filter_condition(cond@, float_reading(*read_float)),
{
    let ghost rf = float_reading(*read_float);
    let mut k: usize = 0;
    while k < 6
        invariant
            k <= 6,
            filter_condition(cond@, rf) == filter_condition_from(cond@, k as int, rf),
        decreases 6 - k,
    {
        let op_text = condition_op_text_of(k);
        if let Some(idx) = find_chars(cond, &op_text) {
            proof {
                lemma_find_bounds(cond@, op_text@, 0);
                assert(find(cond@, op_text@) == Some(idx as int));
                assert(idx + op_text@.len() <= cond@.len());
            }
            assert(op_text.len() == op_text@.len());
            assert(idx + op_text.len() <= cond.len());
            let start = idx + op_text.len();
            let left = trim_chars(&slice_chars(cond, 0, idx));
            let right = trim_chars(&slice_chars(cond, start, cond.len()));
            assert(cond@.subrange(0, idx as int) =~= cond@.take(idx as int));
            assert(cond@.subrange(idx + op_text@.len(), cond@.len() as int) =~= cond@.skip(
                idx + op_text@.len(),
            ));
            let op = condition_op_of(k);
            return match condition_value_of(&right, read_float) {
                Some(Ok(v)) => {
                    let name = string_of(&left);
                    let e = Expression::BinaryOp {
                        left: Box::new(Expression::Field(name)),
                        op,
                        right: Box::new(Expression::Literal(v)),
                    };
                    assert(Expression::Field(name)@ == ExprModel::Field(left@));
                    assert(Expression::Literal(v)@ == ExprModel::Literal(v@));
                    Some(Ok(e))
                },
                Some(Err(e)) => Some(Err(e)),
                None => None,
            };
        }
        k = k + 1;
    }
    let text = string_of(cond);
    Some(Err(QueryError::InvalidPath(concat("Cannot parse filter condition: ", text.as_str()))))
}

/// Parses a filter expression; for now a filter is just a condition.
fn parse_filter_expression<R: Fn(&str) -> Option<u64>>(expr: &Vec<char>, read_float: &R) -> (r: Option<
    Result<Expression, QueryError>,
>)
    requires
        reads_floats(*read_float),
    ensures
        lift(r) == filter_condition(expr@, float_reading(*read_float)),
{
    parse_filter_condition(expr, read_float)
}

/// The segment that the text between brackets stands for.
fn bracket_segment_of<R: Fn(&str) -> Option<u64>>(content: &Vec<char>, read_float: &R) -> (r: Option<
    Result<PathSegment, QueryError>,
>)
    requires
        reads_floats(*read_float),
    ensures
        lift(r) == bracket_segment(content@, float_reading(*read_float)),
{
    let trimmed = trim_chars(content);
    let star = vec!['*'];
    assert(star@ =~= seq!['*']);
    if chars_eq(&trimmed, &star) {
        return Some(Ok(PathSegment::Wildcard));
    }
    if let Some(idx) = chars_to_usize(&trimmed) {
        return Some(Ok(PathSegment::Index(idx)));
    }
    if trimmed.len() > 0 && trimmed[0] == '?' {
        let rest = slice_chars(&trimmed, 1, trimmed.len());
        assert(rest@ =~= trimmed@.drop_first());
        match parse_filter_expression(&rest, read_float) {
            Some(Ok(e)) => Some(Ok(PathSegment::Filter(e))),
            Some(Err(e)) => Some(Err(e)),
            None => None,
        }
    } else {
        let text = string_of(&trimmed);
        Some(Err(QueryError::InvalidPath(concat("Invalid bracket content: ", text.as_str()))))
    }
}

} // verus!

verus! {

/// Moves a pending field name, if any, into the segments.
fn flush_field(segs: &mut Vec<PathSegment>, cur: &mut Vec<char>)
    ensures
        segment_models(final(segs)@) == flush(segment_models(old(segs)@), old(cur)@),
        final(cur)@ == Seq::<char>::empty(),
{
    if cur.len() > 0 {
        let name = string_of(cur);
        segs.push(PathSegment::Field(name));
    }
    *cur = Vec::new();
}

/// Parses a UPL path text into an expression, or answers `None` on a filter
/// whose literal is a lone double quote, which no expression stands for.
/// Supports `field.field`, `field[index]`, `field[*]`, `field[?cond]`.
#[verifier::loop_isolation(false)]
pub fn try_parse_upl<R: Fn(&str) -> Option<u64>>(path: &str, read_float: &R) -> (r: Option<
    Result<Expression, QueryError>,
>)
    requires
        reads_floats(*read_float),
    ensures
        lift(r) == upl_parse(path@, float_reading(*read_float)),
{
    let ghost rf = float_reading(*read_float);
    let chars = chars_of(path);
    let mut segments: Vec<PathSegment> = Vec::new();
    let mut current: Vec<char> = Vec::new();
    let mut i: usize = 0;
    assert(segment_models(segments@) =~= Seq::<SegmentModel>::empty());
    assert(current@ =~= Seq::<char>::empty());
    while i < chars.len()
        invariant
            i <= chars.len(),
            upl_parse(path@, rf) == scan_path(
                chars@,
                i as int,
                segment_models(segments@),
                current@,
                rf,
            ),
        decreases chars.len() - i,
    {
        let ch = chars[i];
        if ch == '.' {
            flush_field(&mut segments, &mut current);
            i = i + 1;
        } else if ch == '[' {
            flush_field(&mut segments, &mut current);
            match index_of_char(&chars, ']', i + 1) {
                None => {
                    return Some(Err(QueryError::InvalidPath(String::from_str("Unclosed bracket"))));
                },
                Some(j) => {
                    proof {
                        lemma_index_of_from(chars@, ']', i + 1);
                    }
                    let content = slice_chars(&chars, i + 1, j);
                    match bracket_segment_of(&content, read_float) {
                        Some(Ok(seg)) => {
                            segments.push(seg);
                            i = j + 1;
                        },
                        Some(Err(e)) => {
                            return Some(Err(e));
                        },
                        None => {
                            return None;
                        },
                    }
                },
            }
        } else {
            current.push(ch);
            i = i + 1;
        }
    }
    flush_field(&mut segments, &mut current);
    Some(Ok(Expression::Path(segments)))
}

/// Parses a UPL path text into an expression.
/// Supports `field.field`, `field[index]`, `field[*]`, `field[?cond]`.
pub fn parse_upl<R: Fn(&str) -> Option<u64>>(path: &str, read_float: &R) -> (r: Result<
    Expression,
    QueryError,
>)
    requires
        reads_floats(*read_float),
        upl_parse(path@, float_reading(*read_float)) is Some,
    ensures
        lift(Some(r)) == upl_parse(path@, float_reading(*read_float)),
{
    match try_parse_upl(path, read_float) {
        Some(r) => r,
        None => Err(QueryError::InvalidPath(String::new())),
    }
}

} // verus!
