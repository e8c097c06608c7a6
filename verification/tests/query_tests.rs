use datamorph::query::{
    parse_upl, try_parse_upl, BinaryOperator, Expression, PathSegment, QueryError, UplEvaluator,
};
use datamorph::value::Value;
use datamorph::value_ops::object_insert;

fn read_float(s: &str) -> Option<u64> {
    s.parse::<f64>().ok().map(|f| f.to_bits())
}

fn float_add(a: u64, b: u64) -> u64 {
    (f64::from_bits(a) + f64::from_bits(b)).to_bits()
}

fn s(t: &str) -> Value {
    Value::String(t.to_string())
}

fn object(entries: Vec<(&str, Value)>) -> Value {
    let mut m: Vec<(String, Value)> = Vec::new();
    for (k, v) in entries {
        object_insert(&mut m, k.to_string(), v);
    }
    Value::Object(m)
}

fn users() -> Value {
    object(vec![(
        "users",
        Value::Array(vec![
            object(vec![("name", s("Alice")), ("age", Value::Integer(31)), ("active", Value::Bool(true))]),
            object(vec![("name", s("Bob")), ("age", Value::Integer(25)), ("active", Value::Bool(false))]),
            object(vec![("name", s("Carol")), ("age", Value::Integer(40)), ("active", Value::Bool(true))]),
        ]),
    )])
}

fn query(path: &str, value: &Value) -> Result<Value, QueryError> {
    let expr = parse_upl(path, &read_float).unwrap();
    UplEvaluator::evaluate(&expr, value, &float_add)
}

fn strings(v: &Value) -> Vec<String> {
    match v {
        Value::Array(items) => items
            .iter()
            .map(|x| match x {
                Value::String(t) => t.clone(),
                other => format!("{:?}", other),
            })
            .collect(),
        other => panic!("Expected Array, got {:?}", other),
    }
}

#[test]
fn test_parse_simple_path() {
    let expr = parse_upl("users.name", &read_float).unwrap();
    match expr {
        Expression::Path(segments) => {
            assert_eq!(segments.len(), 2);
            match &segments[0] {
                PathSegment::Field(f) => assert_eq!(f, "users"),
                _ => panic!("Expected Field"),
            }
            match &segments[1] {
                PathSegment::Field(f) => assert_eq!(f, "name"),
                _ => panic!("Expected Field"),
            }
        }
        _ => panic!("Expected Path"),
    }
}

#[test]
fn test_parse_array_index() {
    let expr = parse_upl("items[0]", &read_float).unwrap();
    match expr {
        Expression::Path(segments) => {
            assert_eq!(segments.len(), 2);
            match &segments[1] {
                PathSegment::Index(idx) => assert_eq!(*idx, 0),
                _ => panic!("Expected Index"),
            }
        }
        _ => panic!("Expected Path"),
    }
}

#[test]
fn test_parse_wildcard() {
    let expr = parse_upl("users[*]", &read_float).unwrap();
    match expr {
        Expression::Path(segments) => {
            assert_eq!(segments.len(), 2);
            assert!(matches!(segments[1], PathSegment::Wildcard));
        }
        _ => panic!("Expected Path"),
    }
}

#[test]
fn parse_leading_dot_and_consecutive_dots() {
    match parse_upl(".a..b", &read_float).unwrap() {
        Expression::Path(segments) => {
            assert_eq!(segments.len(), 2);
            assert!(matches!(&segments[0], PathSegment::Field(f) if f == "a"));
            assert!(matches!(&segments[1], PathSegment::Field(f) if f == "b"));
        }
        _ => panic!("Expected Path"),
    }
}

#[test]
fn parse_filter_condition_with_integer() {
    match parse_upl("users[?age>30]", &read_float).unwrap() {
        Expression::Path(segments) => {
            assert_eq!(segments.len(), 2);
            match &segments[1] {
                PathSegment::Filter(Expression::BinaryOp { left, op, right }) => {
                    assert!(matches!(&**left, Expression::Field(f) if f == "age"));
                    assert_eq!(*op, BinaryOperator::Gt);
                    assert!(matches!(&**right, Expression::Literal(Value::Integer(30))));
                }
                _ => panic!("Expected Filter"),
            }
        }
        _ => panic!("Expected Path"),
    }
}

#[test]
fn parse_filter_two_character_operators() {
    for (text, expected) in [
        ("x[?a>=1]", BinaryOperator::Gte),
        ("x[?a<=1]", BinaryOperator::LTE),
        ("x[?a!=1]", BinaryOperator::Ne),
        ("x[?a==1]", BinaryOperator::Eq),
        ("x[?a<1]", BinaryOperator::Lt),
    ] {
        match parse_upl(text, &read_float).unwrap() {
            Expression::Path(segments) => match &segments[1] {
                PathSegment::Filter(Expression::BinaryOp { op, right, .. }) => {
                    assert_eq!(*op, expected, "{}", text);
                    assert!(matches!(&**right, Expression::Literal(Value::Integer(1))));
                }
                _ => panic!("Expected Filter"),
            },
            _ => panic!("Expected Path"),
        }
    }
}

#[test]
fn parse_filter_values_of_each_kind() {
    let literal = |text: &str| match parse_upl(text, &read_float).unwrap() {
        Expression::Path(mut segments) => match segments.pop() {
            Some(PathSegment::Filter(Expression::BinaryOp { right, .. })) => match *right {
                Expression::Literal(v) => v,
                _ => panic!("Expected Literal"),
            },
            _ => panic!("Expected Filter"),
        },
        _ => panic!("Expected Path"),
    };
    assert!(matches!(literal("x[?a==\"shipped\"]"), Value::String(t) if t == "shipped"));
    assert!(matches!(literal("x[?a==true]"), Value::Bool(true)));
    assert!(matches!(literal("x[?a==false]"), Value::Bool(false)));
    assert!(matches!(literal("x[?a==-7]"), Value::Integer(-7)));
    assert!(matches!(literal("x[?a>1.5]"), Value::Float(b) if b == 1.5f64.to_bits()));
}

#[test]
fn parse_errors() {
    match parse_upl("users[0", &read_float) {
        Err(QueryError::InvalidPath(m)) => assert_eq!(m, "Unclosed bracket"),
        _ => panic!("Expected InvalidPath"),
    }
    match parse_upl("users[abc]", &read_float) {
        Err(QueryError::InvalidPath(m)) => assert_eq!(m, "Invalid bracket content: abc"),
        _ => panic!("Expected InvalidPath"),
    }
    match parse_upl("users[?age]", &read_float) {
        Err(QueryError::InvalidPath(m)) => assert_eq!(m, "Cannot parse filter condition: age"),
        _ => panic!("Expected InvalidPath"),
    }
    match parse_upl("users[?age==old]", &read_float) {
        Err(QueryError::FilterError(m)) => assert_eq!(m, "Unsupported filter value: old"),
        _ => panic!("Expected FilterError"),
    }
}

#[test]
fn parse_lone_quote_literal_is_refused() {
    assert!(try_parse_upl("x[?a==\"]", &read_float).is_none());
    assert!(try_parse_upl("x[?a==\"b\"]", &read_float).is_some());
}

#[test]
fn evaluate_field_and_index() {
    let v = users();
    let r = query("users[1].name", &v).unwrap();
    assert!(matches!(r, Value::String(t) if t == "Bob"));
    let r = query(".users[0].age", &v).unwrap();
    assert!(matches!(r, Value::Integer(31)));
}

#[test]
fn evaluate_wildcard_then_field() {
    let v = users();
    let r = query("users[*].name", &v).unwrap();
    assert_eq!(strings(&r), vec!["Alice", "Bob", "Carol"]);
}

#[test]
fn evaluate_field_over_array_gives_null_where_missing() {
    let v = Value::Array(vec![object(vec![("a", Value::Integer(1))]), Value::Integer(5)]);
    match query("a", &v).unwrap() {
        Value::Array(items) => {
            assert_eq!(items.len(), 2);
            assert!(matches!(items[0], Value::Integer(1)));
            assert!(matches!(items[1], Value::Null));
        }
        _ => panic!("Expected Array"),
    }
}

#[test]
fn evaluate_filter_keeps_truthy_items_in_order() {
    let v = users();
    let r = query("users[?age>30].name", &v).unwrap();
    assert_eq!(strings(&r), vec!["Alice", "Carol"]);
    let r = query("users[?active==true].name", &v).unwrap();
    assert_eq!(strings(&r), vec!["Alice", "Carol"]);
    let r = query("users[?name==\"Bob\"].age", &v).unwrap();
    match r {
        Value::Array(items) => {
            assert_eq!(items.len(), 1);
            assert!(matches!(items[0], Value::Integer(25)));
        }
        _ => panic!("Expected Array"),
    }
}

#[test]
fn evaluate_filter_with_single_match_is_still_an_array() {
    let v = users();
    let r = query("users[?age>35]", &v).unwrap();
    match r {
        Value::Array(items) => assert_eq!(items.len(), 1),
        _ => panic!("Expected Array"),
    }
}

#[test]
fn evaluate_wildcard_over_object_gives_values_in_key_order() {
    let v = object(vec![("b", Value::Integer(2)), ("a", Value::Integer(1))]);
    match query("[*]", &v).unwrap() {
        Value::Array(items) => {
            assert_eq!(items.len(), 2);
            assert!(matches!(items[0], Value::Integer(1)));
            assert!(matches!(items[1], Value::Integer(2)));
        }
        _ => panic!("Expected Array"),
    }
}

#[test]
fn evaluate_wildcard_over_scalar_gives_an_array_of_it() {
    let v = Value::Integer(7);
    match query("[*]", &v).unwrap() {
        Value::Array(items) => {
            assert_eq!(items.len(), 1);
            assert!(matches!(items[0], Value::Integer(7)));
        }
        _ => panic!("Expected Array"),
    }
}

#[test]
fn evaluate_errors() {
    let v = users();
    match query("missing", &v) {
        Err(QueryError::KeyNotFound(k)) => assert_eq!(k, "missing"),
        _ => panic!("Expected KeyNotFound"),
    }
    match query("users[9]", &v) {
        Err(QueryError::IndexOutOfBounds(i)) => assert_eq!(i, 9),
        _ => panic!("Expected IndexOutOfBounds"),
    }
    match query("users[0].name[0]", &v) {
        Err(QueryError::TypeError { expected, got }) => {
            assert_eq!(expected, "array");
            assert_eq!(got, "object or scalar");
        }
        _ => panic!("Expected TypeError"),
    }
    match query("users[0].name.first", &v) {
        Err(QueryError::TypeError { expected, .. }) => assert_eq!(expected, "object"),
        _ => panic!("Expected TypeError"),
    }
    match query("users[0].age[?x>1]", &v) {
        Err(QueryError::TypeError { expected, got }) => {
            assert_eq!(expected, "array or object");
            assert_eq!(got, "scalar");
        }
        _ => panic!("Expected TypeError"),
    }
    match query("users[?name>3]", &v) {
        Err(QueryError::TypeError { got, .. }) => assert_eq!(got, "mismatched"),
        _ => panic!("Expected TypeError"),
    }
}

#[test]
fn evaluate_expressions_built_by_hand() {
    let v = Value::Null;
    let div = Expression::BinaryOp {
        left: Box::new(Expression::Literal(Value::Integer(7))),
        op: BinaryOperator::Div,
        right: Box::new(Expression::Literal(Value::Integer(-2))),
    };
    assert!(matches!(UplEvaluator::evaluate(&div, &v, &float_add), Ok(Value::Integer(-3))));
    let by_zero = Expression::BinaryOp {
        left: Box::new(Expression::Literal(Value::Integer(7))),
        op: BinaryOperator::Div,
        right: Box::new(Expression::Literal(Value::Integer(0))),
    };
    match UplEvaluator::evaluate(&by_zero, &v, &float_add) {
        Err(QueryError::FilterError(m)) => assert_eq!(m, "division by zero"),
        _ => panic!("Expected FilterError"),
    }
    let concat = Expression::BinaryOp {
        left: Box::new(Expression::Literal(s("ab"))),
        op: BinaryOperator::Add,
        right: Box::new(Expression::Literal(s("cd"))),
    };
    assert!(matches!(UplEvaluator::evaluate(&concat, &v, &float_add), Ok(Value::String(t)) if t == "abcd"));
    let fsum = Expression::BinaryOp {
        left: Box::new(Expression::Literal(Value::Float(1.5f64.to_bits()))),
        op: BinaryOperator::Add,
        right: Box::new(Expression::Literal(Value::Float(2.25f64.to_bits()))),
    };
    assert!(matches!(UplEvaluator::evaluate(&fsum, &v, &float_add), Ok(Value::Float(b)) if b == 3.75f64.to_bits()));
    let variable = Expression::Variable("x".to_string());
    match UplEvaluator::evaluate(&variable, &v, &float_add) {
        Err(QueryError::InvalidPath(m)) => assert_eq!(m, "Variables not supported yet: x"),
        _ => panic!("Expected InvalidPath"),
    }
}

#[test]
fn evaluate_transform_and_filter_expressions() {
    let v = users();
    let input = Box::new(Expression::Path(vec![PathSegment::Field("users".to_string())]));
    let names = Expression::Transform {
        input: input,
        transform: Box::new(Expression::Field("name".to_string())),
    };
    let r = UplEvaluator::evaluate(&names, &v, &float_add).unwrap();
    assert_eq!(strings(&r), vec!["Alice", "Bob", "Carol"]);
    let young = Expression::Filter {
        input: Box::new(Expression::Path(vec![PathSegment::Field("users".to_string())])),
        predicate: Box::new(Expression::BinaryOp {
            left: Box::new(Expression::Field("age".to_string())),
            op: BinaryOperator::Lt,
            right: Box::new(Expression::Literal(Value::Integer(30))),
        }),
    };
    match UplEvaluator::evaluate(&young, &v, &float_add).unwrap() {
        Value::Array(items) => assert_eq!(items.len(), 1),
        _ => panic!("Expected Array"),
    }
}

#[test]
fn try_evaluate_reports_overflow() {
    let v = Value::Null;
    let big = Expression::BinaryOp {
        left: Box::new(Expression::Literal(Value::Integer(i64::MAX))),
        op: BinaryOperator::Add,
        right: Box::new(Expression::Literal(Value::Integer(1))),
    };
    assert!(UplEvaluator::try_evaluate(&big, &v, &float_add).is_none());
    let small = Expression::BinaryOp {
        left: Box::new(Expression::Literal(Value::Integer(i64::MAX - 1))),
        op: BinaryOperator::Add,
        right: Box::new(Expression::Literal(Value::Integer(1))),
    };
    assert!(matches!(
        UplEvaluator::try_evaluate(&small, &v, &float_add),
        Some(Ok(Value::Integer(i64::MAX)))
    ));
}

#[test]
fn truthiness() {
    assert!(!UplEvaluator::is_truthy(&Value::Null));
    assert!(!UplEvaluator::is_truthy(&Value::Integer(0)));
    assert!(UplEvaluator::is_truthy(&Value::Integer(-1)));
    assert!(!UplEvaluator::is_truthy(&Value::Float((-0.0f64).to_bits())));
    assert!(UplEvaluator::is_truthy(&Value::Float(0.5f64.to_bits())));
    assert!(!UplEvaluator::is_truthy(&s("")));
    assert!(UplEvaluator::is_truthy(&s("x")));
    assert!(!UplEvaluator::is_truthy(&Value::Array(vec![])));
    assert!(!UplEvaluator::is_truthy(&Value::Object(vec![])));
}

#[test]
fn query_error_messages() {
    assert_eq!(QueryError::InvalidPath("p".to_string()).message(), "Invalid path: p");
    assert_eq!(QueryError::IndexOutOfBounds(12).message(), "Index out of bounds: 12");
    assert_eq!(QueryError::KeyNotFound("k".to_string()).message(), "Key not found: k");
    assert_eq!(
        QueryError::TypeError { expected: "array", got: "value" }.message(),
        "Type error: expected array, got value"
    );
    assert_eq!(QueryError::FilterError("f".to_string()).message(), "Filter error: f");
}

#[test]
fn query_results_keep_keys_ascending() {
    let v = users();
    match query("users[?active==true]", &v).unwrap() {
        Value::Array(items) => {
            for item in &items {
                match item {
                    Value::Object(m) => {
                        for w in m.windows(2) {
                            assert!(w[0].0 < w[1].0);
                        }
                    }
                    _ => panic!("Expected Object"),
                }
            }
        }
        _ => panic!("Expected Array"),
    }
}

#[test]
fn same_query_same_result() {
    let v = users();
    let a = query("users[*].age", &v).unwrap();
    let b = query("users[*].age", &v).unwrap();
    assert!(datamorph::value_ops::values_equal(&a, &b));
}

#[test]
fn copies_of_expressions_evaluate_alike() {
    let expr = parse_upl("users[?age>30].name", &read_float).unwrap();
    let copy = expr.clone();
    let v = users();
    let a = UplEvaluator::evaluate(&expr, &v, &float_add).unwrap();
    let b = UplEvaluator::evaluate(&copy, &v, &float_add).unwrap();
    assert_eq!(strings(&a), strings(&b));
    match copy {
        Expression::Path(segments) => {
            assert_eq!(segments.len(), 3);
            assert!(matches!(segments[1].clone(), PathSegment::Filter(_)));
        }
        _ => panic!("Expected Path"),
    }
}

#[test]
fn paths_compose_left_to_right() {
    let v = users();
    let whole = query("users[?age>30].name", &v).unwrap();
    let first = query("users[?age>30]", &v).unwrap();
    let then = query("name", &first).unwrap();
    assert!(datamorph::value_ops::values_equal(&whole, &then));
    assert!(matches!(query("missing.name", &v), Err(QueryError::KeyNotFound(_))));
}

#[test]
fn printed_paths_parse_back() {
    match parse_upl(".items[12][*].name", &read_float).unwrap() {
        Expression::Path(segments) => {
            assert_eq!(segments.len(), 4);
            assert!(matches!(&segments[0], PathSegment::Field(f) if f == "items"));
            assert!(matches!(segments[1], PathSegment::Index(12)));
            assert!(matches!(segments[2], PathSegment::Wildcard));
            assert!(matches!(&segments[3], PathSegment::Field(f) if f == "name"));
        }
        _ => panic!("Expected Path"),
    }
}

#[test]
fn equality_of_integer_and_float_is_false_either_way() {
    let v = Value::Null;
    let one = || Expression::Literal(Value::Integer(1));
    let one_f = || Expression::Literal(Value::Float(1.0f64.to_bits()));
    for (l, r) in [(one(), one_f()), (one_f(), one())] {
        let e = Expression::BinaryOp { left: Box::new(l), op: BinaryOperator::Eq, right: Box::new(r) };
        assert!(matches!(UplEvaluator::evaluate(&e, &v, &float_add), Ok(Value::Bool(false))));
    }
    let ne = Expression::BinaryOp { left: Box::new(one()), op: BinaryOperator::Ne, right: Box::new(one_f()) };
    assert!(matches!(UplEvaluator::evaluate(&ne, &v, &float_add), Ok(Value::Bool(true))));
}
