use json_sql::error::QueryError;
use json_sql::execute::{NestedQueryResult, SimpleQueryResult};
use json_sql::json::{Json, JsonNumber};
use json_sql::schema::{
    output_to_schema, validate_nested_query_result, validate_schema, validate_simple_query_result, SchemaNode,
};

fn num_json(v: i64) -> Json {
    Json::Number(JsonNumber::from_int(v as i128))
}

fn simple(values: Vec<Json>) -> SimpleQueryResult {
    SimpleQueryResult { result: values.into_iter().map(|v| (String::new(), v)).collect(), cond: None }
}

#[test]
fn shapes_agree() {
    assert!(SchemaNode::Number.validate_schema(&SchemaNode::Number));
    assert!(!SchemaNode::Number.validate_schema(&SchemaNode::String));
    assert!(SchemaNode::Nullable(Box::new(SchemaNode::Bool)).validate_schema(&SchemaNode::Null));
    assert!(SchemaNode::Null.validate_schema(&SchemaNode::Nullable(Box::new(SchemaNode::Bool))));
    assert!(SchemaNode::Array(None).validate_schema(&SchemaNode::Array(Some(Box::new(SchemaNode::Number)))));
    assert!(!SchemaNode::Array(Some(Box::new(SchemaNode::String)))
        .validate_schema(&SchemaNode::Array(Some(Box::new(SchemaNode::Number)))));
    let a = SchemaNode::Object(Some(vec![("id".to_string(), SchemaNode::Number)]));
    let b = SchemaNode::Object(Some(vec![("id".to_string(), SchemaNode::Number)]));
    let c = SchemaNode::Object(Some(vec![("id".to_string(), SchemaNode::String)]));
    assert!(a.validate_schema(&b));
    assert!(!a.validate_schema(&c));
    assert!(a.validate_schema(&SchemaNode::Object(None)));
}

#[test]
fn values_fit_shapes() {
    let doc = Json::Object(vec![
        ("id".to_string(), num_json(2)),
        ("tags".to_string(), Json::Array(vec![Json::Str("a".to_string())])),
    ]);
    let shape = SchemaNode::Object(Some(vec![
        ("id".to_string(), SchemaNode::Number),
        ("tags".to_string(), SchemaNode::Array(Some(Box::new(SchemaNode::String)))),
    ]));
    assert!(shape.validate_json(&doc));
    let missing = SchemaNode::Object(Some(vec![("name".to_string(), SchemaNode::String)]));
    assert!(!missing.validate_json(&doc));
    assert!(SchemaNode::Nullable(Box::new(SchemaNode::Number)).validate_json(&Json::Null));
    assert!(SchemaNode::Nullable(Box::new(SchemaNode::Number)).validate_json(&num_json(3)));
    assert!(!SchemaNode::Nullable(Box::new(SchemaNode::Number)).validate_json(&Json::Bool(true)));
    assert!(!SchemaNode::Array(Some(Box::new(SchemaNode::Number))).validate_json(&Json::Array(vec![Json::Null])));
}

#[test]
fn outputs_and_results() {
    let values = vec![num_json(1), Json::Str("x".to_string()), Json::Array(vec![])];
    let shapes = output_to_schema(&values);
    assert!(matches!(shapes[0], SchemaNode::Number));
    assert!(matches!(shapes[1], SchemaNode::String));
    assert!(matches!(shapes[2], SchemaNode::Array(None)));
    assert!(validate_schema(&shapes, &values));
    assert!(!validate_schema(&shapes, &vec![num_json(1)]));
    let schema = vec![SchemaNode::Number];
    assert!(validate_simple_query_result(&schema, &simple(vec![num_json(4)])));
    assert!(!validate_simple_query_result(&schema, &simple(vec![Json::Null])));
    let nested = NestedQueryResult {
        result: vec![Ok(simple(vec![num_json(1)])), Err(QueryError::ForeachNotArray), Ok(simple(vec![Json::Bool(false)]))],
        cond: None,
    };
    assert_eq!(validate_nested_query_result(&schema, &nested), vec![true, false, false]);
}
