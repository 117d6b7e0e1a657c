use json_sql::ast::{
    BinaryOperator, ForeachStatement, Select, SelectItem, SqlExpr, Statement, TableFactor,
    TableWithJoins, UnaryOperator,
};
use json_sql::compile::{build_foreach_query, build_select_query, parse_statement, BuiltQuery};
use json_sql::error::QueryError;
use json_sql::execute::{
    execute_query, execute_query_foreach, execute_query_select, execute_statements, QueryResult,
    SimpleQueryResult,
};
use json_sql::json::{Json, JsonNumber};

fn s(x: &str) -> String {
    x.to_string()
}

fn num_json(v: i64) -> Json {
    Json::Number(JsonNumber::from_int(v as i128))
}

fn obj(members: Vec<(&str, Json)>) -> Json {
    Json::Object(members.into_iter().map(|(k, v)| (s(k), v)).collect())
}

fn input() -> Json {
    obj(vec![
        ("version", num_json(1)),
        ("data", obj(vec![("payload", Json::Array(vec![num_json(1), num_json(2), num_json(3), num_json(4), num_json(5)]))])),
        ("meta", obj(vec![("id", num_json(2))])),
    ])
}

fn path(parts: &[&str]) -> SqlExpr {
    if parts.len() == 1 {
        SqlExpr::Identifier(s(parts[0]))
    } else {
        SqlExpr::CompoundIdentifier(parts.iter().map(|p| s(p)).collect())
    }
}

fn num(text: &str) -> SqlExpr {
    SqlExpr::Number(s(text))
}

fn bin(l: SqlExpr, op: BinaryOperator, r: SqlExpr) -> SqlExpr {
    SqlExpr::BinaryOp(Box::new(l), op, Box::new(r))
}

fn named(e: SqlExpr, a: &str) -> SelectItem {
    SelectItem::ExprWithAlias(e, s(a))
}

fn table(name: &str) -> TableWithJoins {
    TableWithJoins { relation: TableFactor::Table(s(name)), joins: 0 }
}

fn select(items: Vec<SelectItem>, selection: Option<SqlExpr>) -> Select {
    Select { projection: items, from: vec![table("/t")], selection }
}

fn run_select(sel: &Select) -> Result<SimpleQueryResult, QueryError> {
    let q = build_select_query(sel, &s("payload")).expect("compiles");
    execute_query_select(&q, &input())
}

fn is_int(j: &Json, v: i64) -> bool {
    match j {
        Json::Number(JsonNumber::PosInt(n)) => v >= 0 && *n == v as u64,
        Json::Number(JsonNumber::NegInt(n)) => *n == v,
        _ => false,
    }
}

fn is_bool(j: &Json, b: bool) -> bool {
    matches!(j, Json::Bool(x) if *x == b)
}

#[test]
fn select_with_aliases_and_where() {
    let sel = select(
        vec![
            named(path(&["payload", "version"]), "version"),
            named(path(&["payload", "meta", "id"]), "id"),
            SelectItem::UnnamedExpr(bin(path(&["version"]), BinaryOperator::Plus, num("5"))),
            named(path(&["payload", "data", "payload"]), "abc"),
        ],
        Some(bin(
            SqlExpr::Nested(Box::new(bin(path(&["version"]), BinaryOperator::Minus, num("1")))),
            BinaryOperator::Eq,
            num("0"),
        )),
    );
    let r = run_select(&sel).expect("runs");
    assert_eq!(r.result.len(), 4);
    assert_eq!(r.result[0].0, "version");
    assert!(is_int(&r.result[0].1, 1));
    assert_eq!(r.result[1].0, "id");
    assert!(is_int(&r.result[1].1, 2));
    // an unaliased operator keeps an empty label: only links inherit a name
    assert_eq!(r.result[2].0, "");
    assert!(is_int(&r.result[2].1, 6));
    assert_eq!(r.result[3].0, "abc");
    match &r.result[3].1 {
        Json::Array(items) => {
            assert_eq!(items.len(), 5);
            for (i, it) in items.iter().enumerate() {
                assert!(is_int(it, i as i64 + 1));
            }
        },
        _ => panic!("expected an array"),
    }
    assert!(is_bool(r.cond.as_ref().unwrap(), true));
}

#[test]
fn select_literal_sum() {
    let sel = select(vec![SelectItem::UnnamedExpr(bin(num("2"), BinaryOperator::Plus, num("3")))], None);
    let r = run_select(&sel).unwrap();
    assert_eq!(r.result.len(), 1);
    assert_eq!(r.result[0].0, "");
    assert!(is_int(&r.result[0].1, 5));
    assert!(r.cond.is_none());
}

#[test]
fn select_missing_path_is_null() {
    let sel = select(vec![SelectItem::UnnamedExpr(path(&["payload", "missing", "deep"]))], None);
    let r = run_select(&sel).unwrap();
    assert_eq!(r.result.len(), 1);
    assert_eq!(r.result[0].0, "");
    assert!(matches!(r.result[0].1, Json::Null));
    assert!(r.cond.is_none());
}

fn foreach_stmt(
    arr: SqlExpr,
    alias: &str,
    ret: Vec<SelectItem>,
    when: Option<SqlExpr>,
    wh: Option<SqlExpr>,
) -> ForeachStatement {
    ForeachStatement {
        select_item: named(arr, alias),
        return_items: Some(ret),
        when_expr: when,
        from_table: table("/t"),
        where_expr: wh,
    }
}

#[test]
fn foreach_over_array() {
    let f = foreach_stmt(
        path(&["payload", "data", "payload"]),
        "item",
        vec![SelectItem::UnnamedExpr(bin(path(&["item"]), BinaryOperator::Plus, num("1")))],
        Some(bin(path(&["item"]), BinaryOperator::Gt, num("3"))),
        Some(bin(path(&["payload", "version"]), BinaryOperator::GtEq, num("1"))),
    );
    let b = build_foreach_query(&f).unwrap();
    let n = execute_query_foreach(&b, &input()).unwrap();
    assert!(is_bool(n.cond.as_ref().unwrap(), true));
    assert_eq!(n.result.len(), 5);
    let whens = [false, false, false, true, true];
    for (i, row) in n.result.iter().enumerate() {
        let row = row.as_ref().unwrap();
        assert_eq!(row.result.len(), 1);
        assert!(is_int(&row.result[0].1, i as i64 + 2));
        assert!(is_bool(row.cond.as_ref().unwrap(), whens[i]));
    }
}

#[test]
fn foreach_over_non_array_fails() {
    let f = ForeachStatement {
        select_item: named(path(&["payload", "meta", "id"]), "x"),
        return_items: Some(vec![SelectItem::UnnamedExpr(path(&["x"]))]),
        when_expr: None,
        from_table: table("/t"),
        where_expr: None,
    };
    let b = build_foreach_query(&f).unwrap();
    assert!(matches!(execute_query_foreach(&b, &input()), Err(QueryError::ForeachNotArray)));
}

#[test]
fn payload_alias_is_reserved() {
    let sel = select(vec![named(path(&["payload"]), "payload")], None);
    assert!(matches!(build_select_query(&sel, &s("payload")), Err(QueryError::ReservedAlias(_))));
}

#[test]
fn foreach_with_false_guard_has_no_rows() {
    let f = foreach_stmt(
        path(&["payload", "data", "payload"]),
        "item",
        vec![SelectItem::UnnamedExpr(path(&["item"]))],
        None,
        Some(bin(path(&["payload", "version"]), BinaryOperator::Gt, num("10"))),
    );
    let b = build_foreach_query(&f).unwrap();
    let n = execute_query_foreach(&b, &input()).unwrap();
    assert_eq!(n.result.len(), 0);
    assert!(is_bool(n.cond.as_ref().unwrap(), false));
}

#[test]
fn foreach_runs_unless_guard_is_false() {
    let f = ForeachStatement {
        select_item: named(path(&["payload", "meta", "id"]), "x"),
        return_items: Some(vec![SelectItem::UnnamedExpr(path(&["x"]))]),
        when_expr: None,
        from_table: table("/t"),
        where_expr: Some(num("1")),
    };
    let b = build_foreach_query(&f).unwrap();
    assert!(matches!(execute_query_foreach(&b, &input()), Err(QueryError::ForeachNotArray)));
    let g = foreach_stmt(
        path(&["payload", "data", "payload"]),
        "item",
        vec![SelectItem::UnnamedExpr(path(&["item"]))],
        None,
        Some(missing_value()),
    );
    let b = build_foreach_query(&g).unwrap();
    assert_eq!(execute_query_foreach(&b, &input()).unwrap().result.len(), 5);
}

fn missing_value() -> SqlExpr {
    path(&["payload", "missing"])
}

#[test]
fn evaluation_is_repeatable() {
    let sel = select(
        vec![named(bin(path(&["payload", "version"]), BinaryOperator::Multiply, num("7")), "v")],
        Some(bin(path(&["payload", "meta", "id"]), BinaryOperator::Lt, num("3"))),
    );
    let q = build_select_query(&sel, &s("payload")).unwrap();
    let a = execute_query_select(&q, &input()).unwrap();
    let b = execute_query_select(&q, &input()).unwrap();
    assert_eq!(a.result.len(), b.result.len());
    assert!(is_int(&a.result[0].1, 7) && is_int(&b.result[0].1, 7));
    assert!(is_bool(a.cond.as_ref().unwrap(), true) && is_bool(b.cond.as_ref().unwrap(), true));
}

#[test]
fn literal_query_ignores_input() {
    let sel = select(vec![SelectItem::UnnamedExpr(bin(num("4"), BinaryOperator::Multiply, num("5")))], None);
    let q = build_select_query(&sel, &s("payload")).unwrap();
    let a = execute_query_select(&q, &input()).unwrap();
    let b = execute_query_select(&q, &Json::Null).unwrap();
    assert!(is_int(&a.result[0].1, 20));
    assert!(is_int(&b.result[0].1, 20));
}

#[test]
fn where_value_is_the_condition() {
    let sel = select(
        vec![SelectItem::UnnamedExpr(path(&["payload", "version"]))],
        Some(bin(path(&["payload", "version"]), BinaryOperator::Eq, num("2"))),
    );
    let r = run_select(&sel).unwrap();
    assert!(is_bool(r.cond.as_ref().unwrap(), false));
}

#[test]
fn arithmetic_and_comparisons() {
    let cases: Vec<(&str, BinaryOperator, &str, i64)> = vec![
        ("7", BinaryOperator::Minus, "10", -3),
        ("6", BinaryOperator::Multiply, "7", 42),
        ("7", BinaryOperator::Divide, "2", 3),
        ("9223372036854775807", BinaryOperator::Plus, "0", i64::MAX),
    ];
    for (l, op, r, want) in cases {
        let sel = select(vec![SelectItem::UnnamedExpr(bin(num(l), op, num(r)))], None);
        let res = run_select(&sel).unwrap();
        assert!(is_int(&res.result[0].1, want));
    }
    let neg = select(
        vec![SelectItem::UnnamedExpr(bin(
            SqlExpr::UnaryOp(UnaryOperator::Minus, Box::new(num("7"))),
            BinaryOperator::Divide,
            num("2"),
        ))],
        None,
    );
    assert!(is_int(&run_select(&neg).unwrap().result[0].1, -3));
    let cmp = select(
        vec![
            SelectItem::UnnamedExpr(bin(num("1"), BinaryOperator::LtEq, num("1"))),
            SelectItem::UnnamedExpr(bin(num("2"), BinaryOperator::Gt, num("3"))),
        ],
        None,
    );
    let r = run_select(&cmp).unwrap();
    assert!(is_bool(&r.result[0].1, true));
    assert!(is_bool(&r.result[1].1, false));
}

#[test]
fn unsigned_sum_past_signed_range() {
    let sel = select(
        vec![SelectItem::UnnamedExpr(bin(num("9223372036854775807"), BinaryOperator::Plus, num("1")))],
        None,
    );
    let r = run_select(&sel).unwrap();
    assert!(matches!(r.result[0].1, Json::Number(JsonNumber::PosInt(9223372036854775808))));
}

#[test]
fn runtime_errors() {
    let div0 = select(vec![SelectItem::UnnamedExpr(bin(num("1"), BinaryOperator::Divide, num("0")))], None);
    assert!(matches!(run_select(&div0), Err(QueryError::DivisionByZero)));
    let text = select(
        vec![SelectItem::UnnamedExpr(bin(SqlExpr::SingleQuotedString(s("a")), BinaryOperator::Plus, num("1")))],
        None,
    );
    assert!(matches!(run_select(&text), Err(QueryError::NonNumericOperands)));
    let not_num = select(vec![SelectItem::UnnamedExpr(SqlExpr::UnaryOp(UnaryOperator::Not, Box::new(num("1"))))], None);
    assert!(matches!(run_select(&not_num), Err(QueryError::NotRequiresBoolean)));
    let minus_text = select(
        vec![SelectItem::UnnamedExpr(SqlExpr::UnaryOp(UnaryOperator::Minus, Box::new(SqlExpr::SingleQuotedString(s("a")))))],
        None,
    );
    assert!(matches!(run_select(&minus_text), Err(QueryError::UnaryMinusNotNumber)));
    let other = select(vec![SelectItem::UnnamedExpr(bin(num("1"), BinaryOperator::Other(s("%")), num("1")))], None);
    assert!(matches!(run_select(&other), Err(QueryError::UnsupportedBinaryOp(o)) if o == "%"));
    let other_u = select(
        vec![SelectItem::UnnamedExpr(SqlExpr::UnaryOp(UnaryOperator::Other(s("~")), Box::new(num("1"))))],
        None,
    );
    assert!(matches!(run_select(&other_u), Err(QueryError::UnsupportedUnaryOp(o)) if o == "~"));
    let float = select(vec![SelectItem::UnnamedExpr(bin(num("1.5"), BinaryOperator::Plus, num("1")))], None);
    assert!(matches!(run_select(&float), Err(QueryError::FloatOperand)));
    let big = select(
        vec![SelectItem::UnnamedExpr(bin(num("9223372036854775807"), BinaryOperator::Multiply, num("4")))],
        None,
    );
    assert!(matches!(run_select(&big), Err(QueryError::NumericOverflow)));
}

#[test]
fn unary_operators() {
    let sel = select(
        vec![
            SelectItem::UnnamedExpr(SqlExpr::UnaryOp(UnaryOperator::Minus, Box::new(path(&["payload", "version"])))),
            SelectItem::UnnamedExpr(SqlExpr::UnaryOp(UnaryOperator::Plus, Box::new(num("4")))),
            SelectItem::UnnamedExpr(SqlExpr::UnaryOp(
                UnaryOperator::Not,
                Box::new(bin(num("1"), BinaryOperator::Eq, num("2"))),
            )),
            SelectItem::UnnamedExpr(SqlExpr::UnaryOp(UnaryOperator::Minus, Box::new(num("2.5")))),
        ],
        None,
    );
    let r = run_select(&sel).unwrap();
    assert!(is_int(&r.result[0].1, -1));
    assert!(is_int(&r.result[1].1, 4));
    assert!(is_bool(&r.result[2].1, true));
    assert!(matches!(&r.result[3].1, Json::Number(JsonNumber::Float(t)) if t == "-2.5"));
}

#[test]
fn compile_errors() {
    let orphan = select(vec![SelectItem::UnnamedExpr(path(&["foo", "bar"]))], None);
    match build_select_query(&orphan, &s("payload")) {
        Err(QueryError::InvalidAccesses(paths)) => {
            assert_eq!(paths, vec![vec![s("foo"), s("bar")]]);
        },
        _ => panic!("expected an unresolved access"),
    }
    let cyclic = select(vec![named(path(&["x"]), "x")], None);
    assert!(matches!(build_select_query(&cyclic, &s("payload")), Err(QueryError::Cycle)));
    let wildcard = select(vec![SelectItem::Other], None);
    assert!(matches!(build_select_query(&wildcard, &s("payload")), Err(QueryError::UnsupportedSelectItem)));
    let unknown = select(vec![SelectItem::UnnamedExpr(SqlExpr::Unsupported(s("f(x)")))], None);
    assert!(matches!(build_select_query(&unknown, &s("payload")), Err(QueryError::UnsupportedExpression(_))));
    for text in ["1.2.3", "1e", "--1", ".", "1e+", "+"] {
        let sel = select(vec![SelectItem::UnnamedExpr(num(text))], None);
        assert!(matches!(build_select_query(&sel, &s("payload")), Err(QueryError::InvalidNumber(t)) if t == text));
    }
    for text in ["1e3", "9223372036854775808", ".5", "2.", "-1.5E-3"] {
        let sel = select(vec![SelectItem::UnnamedExpr(num(text))], None);
        let r = run_select(&sel).unwrap();
        assert!(matches!(&r.result[0].1, Json::Number(JsonNumber::Float(t)) if t == text));
    }
    let bad_number = select(vec![SelectItem::UnnamedExpr(num("12ab"))], None);
    assert!(matches!(build_select_query(&bad_number, &s("payload")), Err(QueryError::InvalidNumber(t)) if t == "12ab"));
    let joined = Select {
        projection: vec![SelectItem::UnnamedExpr(num("1"))],
        from: vec![TableWithJoins { relation: TableFactor::Table(s("/t")), joins: 1 }],
        selection: None,
    };
    assert!(matches!(build_select_query(&joined, &s("payload")), Err(QueryError::JoinsNotSupported)));
    let derived = Select {
        projection: vec![SelectItem::UnnamedExpr(num("1"))],
        from: vec![TableWithJoins { relation: TableFactor::Other, joins: 0 }],
        selection: None,
    };
    assert!(matches!(build_select_query(&derived, &s("payload")), Err(QueryError::UnsupportedTable)));
    let two_sources = Select {
        projection: vec![SelectItem::UnnamedExpr(num("1"))],
        from: vec![table("/a"), table("/b")],
        selection: None,
    };
    assert!(matches!(build_select_query(&two_sources, &s("payload")), Err(QueryError::JoinsNotSupported)));
    let no_source = Select { projection: vec![SelectItem::UnnamedExpr(num("1"))], from: vec![], selection: None };
    assert!(matches!(build_select_query(&no_source, &s("payload")), Err(QueryError::MissingSource)));
    assert!(matches!(parse_statement(&Statement::Other(s("DROP TABLE t"))), Err(QueryError::UnsupportedStatement(_))));
}

#[test]
fn foreach_needs_alias_and_guards_loop_name() {
    let f = ForeachStatement {
        select_item: SelectItem::UnnamedExpr(path(&["payload", "data"])),
        return_items: None,
        when_expr: None,
        from_table: table("/t"),
        where_expr: None,
    };
    assert!(matches!(build_foreach_query(&f), Err(QueryError::ForeachAliasRequired)));
    let clash = foreach_stmt(
        path(&["payload", "data", "payload"]),
        "item",
        vec![named(path(&["item"]), "item")],
        None,
        None,
    );
    assert!(matches!(build_foreach_query(&clash), Err(QueryError::ReservedAlias(a)) if a == "item"));
}

#[test]
fn linked_projection_takes_producer_name() {
    let sel = select(vec![named(path(&["payload", "version"]), "v"), SelectItem::UnnamedExpr(path(&["v"]))], None);
    let r = run_select(&sel).unwrap();
    assert_eq!(r.result[1].0, "v");
    assert!(is_int(&r.result[1].1, 1));
}

#[test]
fn statements_run_in_order() {
    let stmts = vec![
        Statement::Select(select(vec![SelectItem::UnnamedExpr(num("1"))], None)),
        Statement::Foreach(foreach_stmt(
            path(&["payload", "meta", "id"]),
            "x",
            vec![SelectItem::UnnamedExpr(path(&["x"]))],
            None,
            None,
        )),
    ];
    let rs = execute_statements(&stmts, &input()).unwrap();
    assert_eq!(rs.len(), 2);
    assert!(matches!(&rs[0], Ok(QueryResult::Simple(r)) if is_int(&r.result[0].1, 1)));
    assert!(matches!(&rs[1], Err(QueryError::ForeachNotArray)));
    let bad = vec![
        Statement::Select(select(vec![SelectItem::UnnamedExpr(num("1"))], None)),
        Statement::Select(select(vec![named(path(&["payload"]), "payload")], None)),
    ];
    assert!(matches!(execute_statements(&bad, &input()), Err(QueryError::ReservedAlias(_))));
    let built = parse_statement(&Statement::Select(select(vec![SelectItem::UnnamedExpr(num("3"))], None))).unwrap();
    assert!(matches!(built, BuiltQuery::SELECT(_)));
    assert!(matches!(execute_query(&built, &Json::Null), Ok(QueryResult::Simple(r)) if is_int(&r.result[0].1, 3)));
}
