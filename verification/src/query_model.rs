use crate::query::{BinaryOperator, Expression, PathSegment, QueryError};
use crate::text::{decimal, find, index_of_from, lemma_index_of_from, parse_i64, parse_usize, trim};
use crate::value::{Data, data_eq, entry_values, lookup, truthy};
use vstd::prelude::*;

verus! {

/// What a path segment denotes.
pub enum SegmentModel {
    Field(Seq<char>),
    Index(usize),
    Wildcard,
    Filter(ExprModel),
}

/// What an expression denotes.
pub enum ExprModel {
    Path(Seq<SegmentModel>),
    Filter { input: Box<ExprModel>, predicate: Box<ExprModel> },
    Transform { input: Box<ExprModel>, transform: Box<ExprModel> },
    Literal(Data),
    Field(Seq<char>),
    Variable(Seq<char>),
    BinaryOp { left: Box<ExprModel>, op: BinaryOperator, right: Box<ExprModel> },
}

/// What a query error denotes.
pub enum ErrorModel {
    InvalidPath(Seq<char>),
    IndexOutOfBounds(usize),
    KeyNotFound(Seq<char>),
    TypeError { expected: Seq<char>, got: Seq<char> },
    FilterError(Seq<char>),
}

/// Why an evaluation stops short of a value: a query error, or an integer
/// operation whose result does not fit in 64 bits.
pub enum Abort {
    Query(ErrorModel),
    Overflow,
}

pub open spec fn expr_model(e: Expression) -> ExprModel
    decreases e,
{
    match e {
        Expression::Path(segs) => ExprModel::Path(segment_models(segs@)),
        Expression::Filter { input, predicate } => ExprModel::Filter {
            input: Box::new(expr_model(*input)),
            predicate: Box::new(expr_model(*predicate)),
        },
        Expression::Transform { input, transform } => ExprModel::Transform {
            input: Box::new(expr_model(*input)),
            transform: Box::new(expr_model(*transform)),
        },
        Expression::Literal(v) => ExprModel::Literal(v@),
        Expression::Field(name) => ExprModel::Field(name@),
        Expression::Variable(name) => ExprModel::Variable(name@),
        Expression::BinaryOp { left, op, right } => ExprModel::BinaryOp {
            left: Box::new(expr_model(*left)),
            op,
            right: Box::new(expr_model(*right)),
        },
    }
}

pub open spec fn segment_model(s: PathSegment) -> SegmentModel
    decreases s,
{
    match s {
        PathSegment::Field(name) => SegmentModel::Field(name@),
        PathSegment::Index(i) => SegmentModel::Index(i),
        PathSegment::Wildcard => SegmentModel::Wildcard,
        PathSegment::Filter(e) => SegmentModel::Filter(expr_model(e)),
    }
}

pub open spec fn segment_models(s: Seq<PathSegment>) -> Seq<SegmentModel>
    decreases s,
{
    if s.len() == 0 {
        Seq::empty()
    } else {
        segment_models(s.drop_last()).push(segment_model(s.last()))
    }
}

impl View for Expression {
    type V = ExprModel;

    open spec fn view(&self) -> ExprModel {
        expr_model(*self)
    }
}

impl View for PathSegment {
    type V = SegmentModel;

    open spec fn view(&self) -> SegmentModel {
        segment_model(*self)
    }
}

impl View for QueryError {
    type V = ErrorModel;

    open spec fn view(&self) -> ErrorModel {
        match *self {
            QueryError::InvalidPath(s) => ErrorModel::InvalidPath(s@),
            QueryError::IndexOutOfBounds(i) => ErrorModel::IndexOutOfBounds(i),
            QueryError::KeyNotFound(s) => ErrorModel::KeyNotFound(s@),
            QueryError::TypeError { expected, got } => ErrorModel::TypeError {
                expected: expected@,
                got: got@,
            },
            QueryError::FilterError(s) => ErrorModel::FilterError(s@),
        }
    }
}

/// The message a query error is shown with.
pub open spec fn query_error_message(e: ErrorModel) -> Seq<char> {
    match e {
        ErrorModel::InvalidPath(s) => "Invalid path: "@ + s,
        ErrorModel::IndexOutOfBounds(i) => "Index out of bounds: "@ + decimal(i as nat),
        ErrorModel::KeyNotFound(s) => "Key not found: "@ + s,
        ErrorModel::TypeError { expected, got } => "Type error: expected "@ + expected + ", got "@
            + got,
        ErrorModel::FilterError(s) => "Filter error: "@ + s,
    }
}

/// The model of a path keeps its length and maps each segment to its model.
pub broadcast proof fn lemma_segment_models(s: Seq<PathSegment>)
    ensures
        #[trigger] segment_models(s).len() == s.len(),
        forall|i: int| 0 <= i < s.len() ==> segment_models(s)[i] == s[i]@,
    decreases s.len(),
{
    if s.len() > 0 {
        lemma_segment_models(s.drop_last());
    }
}

/// The model of a path segment is the segment's model.
pub broadcast proof fn lemma_segment_models_index(s: Seq<PathSegment>, i: int)
    requires
        0 <= i < s.len(),
    ensures
        #[trigger] segment_models(s)[i] == s[i]@,
{
    lemma_segment_models(s);
}

/// Adding a segment to a path adds its model.
pub broadcast proof fn lemma_segment_models_push(s: Seq<PathSegment>, x: PathSegment)
    ensures
        #[trigger] segment_models(s.push(x)) == segment_models(s).push(x@),
{
    assert(s.push(x).drop_last() =~= s);
}

pub broadcast group group_query_models {
    lemma_segment_models,
    lemma_segment_models_index,
    lemma_segment_models_push,
}

} // verus!

verus! {

/// The stop for a type mismatch, with its two descriptions.
pub open spec fn type_mismatch(expected: &str, got: &str) -> Abort {
    Abort::Query(ErrorModel::TypeError { expected: expected@, got: got@ })
}

pub open spec fn in_i64(x: int) -> bool {
    i64::MIN <= x <= i64::MAX
}

/// Rust's integer division, which rounds toward zero.
pub open spec fn trunc_div(a: int, b: int) -> int {
    let q = abs(a) / abs(b);
    if (a < 0) == (b < 0) {
        q
    } else {
        -q
    }
}

pub open spec fn abs(a: int) -> int {
    if a < 0 {
        -a
    } else {
        a
    }
}

/// An integer result, or an overflow where it does not fit in 64 bits.
pub open spec fn int_result(x: int) -> Result<Data, Abort> {
    if in_i64(x) {
        Ok(Data::Integer(x as i64))
    } else {
        Err(Abort::Overflow)
    }
}

/// A binary operator applied to two documents; `fadd` is the sum of two
/// binary64 numbers.
pub open spec fn binop(l: Data, op: BinaryOperator, r: Data, fadd: spec_fn(u64, u64) -> u64) -> Result<
    Data,
    Abort,
> {
    match (op, l, r) {
        (BinaryOperator::Add, Data::Integer(a), Data::Integer(b)) => int_result(a + b),
        (BinaryOperator::Add, Data::Float(a), Data::Float(b)) => Ok(Data::Float(fadd(a, b))),
        (BinaryOperator::Add, Data::Str(a), Data::Str(b)) => Ok(Data::Str(a + b)),
        (BinaryOperator::Sub, Data::Integer(a), Data::Integer(b)) => int_result(a - b),
        (BinaryOperator::Mul, Data::Integer(a), Data::Integer(b)) => int_result(a * b),
        (BinaryOperator::Div, Data::Integer(a), Data::Integer(b)) => if b == 0 {
            Err(Abort::Query(ErrorModel::FilterError("division by zero"@)))
        } else {
            int_result(trunc_div(a as int, b as int))
        },
        (BinaryOperator::Eq, a, b) => Ok(Data::Bool(data_eq(a, b))),
        (BinaryOperator::Ne, a, b) => Ok(Data::Bool(!data_eq(a, b))),
        (BinaryOperator::Gt, Data::Integer(a), Data::Integer(b)) => Ok(Data::Bool(a > b)),
        (BinaryOperator::Lt, Data::Integer(a), Data::Integer(b)) => Ok(Data::Bool(a < b)),
        (BinaryOperator::Gte, Data::Integer(a), Data::Integer(b)) => Ok(Data::Bool(a >= b)),
        (BinaryOperator::LTE, Data::Integer(a), Data::Integer(b)) => Ok(Data::Bool(a <= b)),
        _ => Err(type_mismatch("compatible numeric or string types", "mismatched")),
    }
}

/// The value of a field of an object.
pub open spec fn field_of(v: Data, name: Seq<char>) -> Result<Data, Abort> {
    match v {
        Data::Object(m) => match lookup(m, name) {
            Some(x) => Ok(x),
            None => Err(Abort::Query(ErrorModel::KeyNotFound(name))),
        },
        _ => Err(type_mismatch("object", "array or scalar")),
    }
}

/// The field of an element of an array, or null where it has none.
pub open spec fn field_or_null(v: Data, name: Seq<char>) -> Data {
    match v {
        Data::Object(m) => match lookup(m, name) {
            Some(x) => x,
            None => Data::Null,
        },
        _ => Data::Null,
    }
}

/// The items a filter segment runs over: an array's elements or an object's values.
pub open spec fn items_of(v: Data) -> Option<Seq<Data>> {
    match v {
        Data::Array(a) => Some(a),
        Data::Object(m) => Some(entry_values(m)),
        _ => None,
    }
}

/// Evaluates an expression against a document.
pub open spec fn eval(e: ExprModel, v: Data, fadd: spec_fn(u64, u64) -> u64) -> Result<Data, Abort>
    decreases e, 0nat,
{
    match e {
        ExprModel::Literal(d) => Ok(d),
        ExprModel::Variable(name) => Err(
            Abort::Query(ErrorModel::InvalidPath("Variables not supported yet: "@ + name)),
        ),
        ExprModel::Field(name) => field_of(v, name),
        ExprModel::Path(steps) => eval_steps(steps, v, fadd),
        ExprModel::Transform { input, transform } => match eval(*input, v, fadd) {
            Ok(Data::Array(items)) => match map_items(*transform, items, fadd) {
                Ok(r) => Ok(Data::Array(r)),
                Err(a) => Err(a),
            },
            Ok(_) => Err(type_mismatch("array", "value")),
            Err(a) => Err(a),
        },
        ExprModel::Filter { input, predicate } => match eval(*input, v, fadd) {
            Ok(Data::Array(items)) => match filter_items(*predicate, items, fadd) {
                Ok(r) => Ok(Data::Array(r)),
                Err(a) => Err(a),
            },
            Ok(_) => Err(type_mismatch("array", "value")),
            Err(a) => Err(a),
        },
        ExprModel::BinaryOp { left, op, right } => match eval(*left, v, fadd) {
            Ok(l) => match eval(*right, v, fadd) {
                Ok(r) => binop(l, op, r, fadd),
                Err(a) => Err(a),
            },
            Err(a) => Err(a),
        },
    }
}

/// Applies the segments of a path one after the other, stopping at the first failure.
pub open spec fn eval_steps(steps: Seq<SegmentModel>, v: Data, fadd: spec_fn(u64, u64) -> u64) -> Result<
    Data,
    Abort,
>
    decreases steps, 0nat,
{
    if steps.len() == 0 {
        Ok(v)
    } else {
        match eval_steps(steps.drop_last(), v, fadd) {
            Ok(cur) => apply_step(cur, steps.last(), fadd),
            Err(a) => Err(a),
        }
    }
}

/// Applies one path segment to a document.
pub open spec fn apply_step(v: Data, s: SegmentModel, fadd: spec_fn(u64, u64) -> u64) -> Result<
    Data,
    Abort,
>
    decreases s, 0nat,
{
    match s {
        SegmentModel::Field(name) => match v {
            Data::Object(m) => field_of(v, name),
            Data::Array(a) => Ok(
                Data::Array(a.map_values(|x: Data| field_or_null(x, name))),
            ),
            _ => Err(type_mismatch("object", "array or scalar")),
        },
        SegmentModel::Index(i) => match v {
            Data::Array(a) => if i < a.len() {
                Ok(a[i as int])
            } else {
                Err(Abort::Query(ErrorModel::IndexOutOfBounds(i)))
            },
            _ => Err(type_mismatch("array", "object or scalar")),
        },
        SegmentModel::Wildcard => match v {
            Data::Array(a) => Ok(v),
            Data::Object(m) => Ok(Data::Array(entry_values(m))),
            _ => Ok(Data::Array(seq![v])),
        },
        SegmentModel::Filter(x) => match items_of(v) {
            Some(items) => match filter_items(x, items, fadd) {
                Ok(r) => Ok(Data::Array(r)),
                Err(a) => Err(a),
            },
            None => Err(type_mismatch("array or object", "scalar")),
        },
    }
}

/// The items for which the predicate is truthy, in order; the first failing
/// evaluation stops the whole.
pub open spec fn filter_items(pred: ExprModel, items: Seq<Data>, fadd: spec_fn(u64, u64) -> u64) -> Result<
    Seq<Data>,
    Abort,
>
    decreases pred, items.len(),
{
    if items.len() == 0 {
        Ok(Seq::empty())
    } else {
        match filter_items(pred, items.drop_last(), fadd) {
            Ok(acc) => match eval(pred, items.last(), fadd) {
                Ok(p) => Ok(
                    if truthy(p) {
                        acc.push(items.last())
                    } else {
                        acc
                    },
                ),
                Err(a) => Err(a),
            },
            Err(a) => Err(a),
        }
    }
}

/// The transform of each item, in order; the first failing evaluation stops the whole.
pub open spec fn map_items(f: ExprModel, items: Seq<Data>, fadd: spec_fn(u64, u64) -> u64) -> Result<
    Seq<Data>,
    Abort,
>
    decreases f, items.len(),
{
    if items.len() == 0 {
        Ok(Seq::empty())
    } else {
        match map_items(f, items.drop_last(), fadd) {
            Ok(acc) => match eval(f, items.last(), fadd) {
                Ok(x) => Ok(acc.push(x)),
                Err(a) => Err(a),
            },
            Err(a) => Err(a),
        }
    }
}

} // verus!


verus! {

/// The text of the `k`-th operator that a filter condition may use, in the
/// order they are looked for: two-character operators before their
/// one-character prefixes.
pub open spec fn condition_op_text(k: int) -> Seq<char> {
    if k == 0 {
        seq!['=', '=']
    } else if k == 1 {
        seq!['!', '=']
    } else if k == 2 {
        seq!['>', '=']
    } else if k == 3 {
        seq!['<', '=']
    } else if k == 4 {
        seq!['>']
    } else {
        seq!['<']
    }
}

/// The `k`-th operator that a filter condition may use.
pub open spec fn condition_op(k: int) -> BinaryOperator {
    if k == 0 {
        BinaryOperator::Eq
    } else if k == 1 {
        BinaryOperator::Ne
    } else if k == 2 {
        BinaryOperator::Gte
    } else if k == 3 {
        BinaryOperator::LTE
    } else if k == 4 {
        BinaryOperator::Gt
    } else {
        BinaryOperator::Lt
    }
}

/// The number of operators a filter condition may use.
pub open spec fn condition_op_count() -> int {
    6
}

/// The literal on the right of a filter condition: an integer, else a float
/// (as `read_float` reads it), else a quoted string, else `true` or `false`.
/// `None` where the text is a lone double quote, which opens a string
/// literal that it cannot also close: such a condition has no meaning.
pub open spec fn condition_value(right: Seq<char>, read_float: spec_fn(Seq<char>) -> Option<u64>) -> Option<
    Result<Data, ErrorModel>,
> {
    match parse_i64(right) {
        Some(i) => Some(Ok(Data::Integer(i))),
        None => match read_float(right) {
            Some(bits) => Some(Ok(Data::Float(bits))),
            None => if right.len() > 0 && right[0] == '"' && right.last() == '"' {
                if right.len() >= 2 {
                    Some(Ok(Data::Str(right.subrange(1, right.len() - 1))))
                } else {
                    None
                }
            } else if right == seq!['t', 'r', 'u', 'e'] {
                Some(Ok(Data::Bool(true)))
            } else if right == seq!['f', 'a', 'l', 's', 'e'] {
                Some(Ok(Data::Bool(false)))
            } else {
                Some(Err(ErrorModel::FilterError("Unsupported filter value: "@ + right)))
            },
        },
    }
}

/// A filter condition `field op literal`, trying the operators from the `k`-th on.
pub open spec fn filter_condition_from(
    cond: Seq<char>,
    k: int,
    read_float: spec_fn(Seq<char>) -> Option<u64>,
) -> Option<Result<ExprModel, ErrorModel>>
    decreases condition_op_count() - k,
{
    if k < 0 || k >= condition_op_count() {
        Some(Err(ErrorModel::InvalidPath("Cannot parse filter condition: "@ + cond)))
    } else {
        match find(cond, condition_op_text(k)) {
            Some(idx) => {
                let left = trim(cond.take(idx));
                let right = trim(cond.skip(idx + condition_op_text(k).len()));
                match condition_value(right, read_float) {
                    Some(Ok(d)) => Some(
                        Ok(
                            ExprModel::BinaryOp {
                                left: Box::new(ExprModel::Field(left)),
                                op: condition_op(k),
                                right: Box::new(ExprModel::Literal(d)),
                            },
                        ),
                    ),
                    Some(Err(e)) => Some(Err(e)),
                    None => None,
                }
            },
            None => filter_condition_from(cond, k + 1, read_float),
        }
    }
}

/// A filter condition: the first operator found splits it into a field and a literal.
pub open spec fn filter_condition(cond: Seq<char>, read_float: spec_fn(Seq<char>) -> Option<u64>) -> Option<
    Result<ExprModel, ErrorModel>,
> {
    filter_condition_from(cond, 0, read_float)
}

/// The segment that the text between brackets stands for.
pub open spec fn bracket_segment(content: Seq<char>, read_float: spec_fn(Seq<char>) -> Option<u64>) -> Option<
    Result<SegmentModel, ErrorModel>,
> {
    let t = trim(content);
    if t == seq!['*'] {
        Some(Ok(SegmentModel::Wildcard))
    } else {
        match parse_usize(t) {
            Some(n) => Some(Ok(SegmentModel::Index(n))),
            None => if t.len() > 0 && t[0] == '?' {
                match filter_condition(t.drop_first(), read_float) {
                    Some(Ok(e)) => Some(Ok(SegmentModel::Filter(e))),
                    Some(Err(e)) => Some(Err(e)),
                    None => None,
                }
            } else {
                Some(Err(ErrorModel::InvalidPath("Invalid bracket content: "@ + t)))
            },
        }
    }
}

/// The segments with a pending field name, if any, added.
pub open spec fn flush(segs: Seq<SegmentModel>, cur: Seq<char>) -> Seq<SegmentModel> {
    if cur.len() > 0 {
        segs.push(SegmentModel::Field(cur))
    } else {
        segs
    }
}

/// Scans a path from position `i`, with the segments found so far and the
/// field name being read. `None` on a filter literal that is a lone
/// double quote.
pub open spec fn scan_path(
    path: Seq<char>,
    i: int,
    segs: Seq<SegmentModel>,
    cur: Seq<char>,
    read_float: spec_fn(Seq<char>) -> Option<u64>,
) -> Option<Result<ExprModel, ErrorModel>>
    decreases path.len() - i,
{
    if i < 0 || i >= path.len() {
        Some(Ok(ExprModel::Path(flush(segs, cur))))
    } else if path[i] == '.' {
        scan_path(path, i + 1, flush(segs, cur), Seq::empty(), read_float)
    } else if path[i] == '[' {
        match index_of_from(path, ']', i + 1) {
            None => Some(Err(ErrorModel::InvalidPath("Unclosed bracket"@))),
            Some(j) => {
                proof {
                    lemma_index_of_from(path, ']', i + 1);
                }
                match bracket_segment(path.subrange(i + 1, j), read_float) {
                    Some(Ok(s)) => scan_path(
                        path,
                        j + 1,
                        flush(segs, cur).push(s),
                        Seq::empty(),
                        read_float,
                    ),
                    Some(Err(e)) => Some(Err(e)),
                    None => None,
                }
            },
        }
    } else {
        scan_path(path, i + 1, segs, cur.push(path[i]), read_float)
    }
}

/// The expression that a UPL path text stands for, or the error it is
/// refused with; `None` on a filter literal that is a lone double quote,
/// which no expression stands for.
pub open spec fn upl_parse(path: Seq<char>, read_float: spec_fn(Seq<char>) -> Option<u64>) -> Option<
    Result<ExprModel, ErrorModel>,
> {
    scan_path(path, 0, Seq::empty(), Seq::empty(), read_float)
}

} // verus!
