//! Tests of the query-language parser, rule by rule, and of the syntax tree
//! it builds.

use kuiperdb::ast::{BinaryOp, Node, ScalarValue};
use kuiperdb::error::Error;
use kuiperdb::parser::{parse_identity, parse_query, parse_scalar_value, KlangParser, Rule};

fn parses_ok(rule: Rule, input: &str) {
    let result = KlangParser::parse(rule, input);

    if result.is_err() {
        println!("{:?}", result.as_ref().err());
    }

    assert!(result.is_ok());

    assert_eq!(result.unwrap().as_str(), input.trim());
}

#[allow(dead_code)]
fn parses_not_ok(rule: Rule, input: &str) {
    let result = KlangParser::parse(rule, input);

    if !result.is_err() {
        println!("{:?}", result.as_ref().unwrap().as_str())
    }

    assert!(result.is_err());
}

#[test]
fn it_works() {
    assert_eq!(2 + 2, 4);
}

#[test]
fn lib_it_works() {
    assert_eq!(2 + 2, 4);
}

#[test]
fn query_ok() {
    let _ = KlangParser::parse(Rule::Query, "abcd").unwrap();
}

#[test]
fn identifier_simple_ok() {
    let node = parse_identity("abcd").unwrap();
    let some_value = node.try_into_identity();
    assert!(some_value.is_ok());

    let value = some_value.unwrap();
    assert_eq!(value.value, "abcd");
    assert_eq!(value.alias, Option::None);
}

#[test]
fn identifier_ok() {
    let node = parse_identity("abcd.efgh").unwrap();
    let some_value = node.try_into_identity();
    assert!(some_value.is_ok());

    let value = some_value.unwrap();
    assert_eq!(value.value, "abcd.efgh");
    assert_eq!(value.alias, Option::None);
}

#[test]
fn identifier_with_alias_ok() {
    let node = parse_identity("abcd.efgh AS woah").unwrap();
    let some_value = node.try_into_identity();
    assert!(some_value.is_ok());

    let value = some_value.unwrap();
    assert_eq!(value.value, "abcd.efgh");
    assert_eq!(value.alias, Some(String::from("woah")));
}

#[test]
fn scalar_value_int_ok() {
    let node = parse_scalar_value("7").unwrap();
    let value = node.try_into_scalar();
    assert!(value.is_ok());

    let scalar = value.unwrap().try_into_int();
    assert!(scalar.is_ok());
    assert_eq!(scalar.unwrap(), 7);
}

#[test]
fn atomic_where_clause_ok() {
    let _ = KlangParser::parse(Rule::AtomicClause, "| where x = y").unwrap();
}

#[test]
fn atomic_where_clause2_ok() {
    let _ = KlangParser::parse(Rule::AtomicClause, "| where x = y and b = c").unwrap();
}

#[test]
fn where_clause_ok() {
    let _ = KlangParser::parse(Rule::WhereClause, "WHERE x = y").unwrap();
}

#[test]
fn binary_expression_ok() {
    let _ = KlangParser::parse(Rule::BinaryExpr, "x = y").unwrap();
}

#[test]
fn binary_expression_and_ok() {
    let _ = KlangParser::parse(Rule::BinaryExpr, "x = y and x = 3").unwrap();
}

#[test]
fn binary_expression_and_grouped_ok() {
    let _ = KlangParser::parse(Rule::BinaryExpr, "x = y and (x = y)").unwrap();
}

#[test]
fn binary_expression_or_grouped_ok() {
    let _ = KlangParser::parse(Rule::BinaryExpr, "x = y or (x = y)").unwrap();
}

#[test]
fn binary_expression_double_grouped_or_ok() {
    let result = KlangParser::parse(Rule::BinaryExpr, "(x = y) or (x = y)");

    if result.is_err() {
        println!("Error: {:?}", result.as_ref().err());
    }

    assert!(result.is_ok());
}

#[test]
fn binary_expression_complex_ok() {
    let result = KlangParser::parse(
        Rule::BinaryExpr,
        "(x = y or x = y) and (b = c or (d = f and g = h))",
    );

    if result.is_err() {
        println!("Error: {:?}", result.as_ref().err());
    }

    assert!(result.is_ok());
}

#[test]
fn conditional_stmt_binary_term_scalar_int_ok() {
    parses_ok(Rule::BinaryTerm, "1");
}

#[test]
fn conditional_stmt_binary_term_identifier_ok() {
    parses_ok(Rule::BinaryTerm, "xyz");
}

#[test]
fn conditional_stmt_scalar_eq_scalar() {
    parses_ok(Rule::BinaryExpr, "0 = 1");
}

#[test]
fn number_unsigned_int() {
    parses_ok(Rule::Int, "7");
}

#[test]
fn number_signed_int() {
    parses_ok(Rule::Int, "-7000");
}

#[test]
fn bare_table_parses_to_empty_query() {
    let nodes = parse_query("t").unwrap();
    assert_eq!(nodes.len(), 1);
    match &nodes[0] {
        Node::Query(q) => {
            assert_eq!(q.table.value, "t");
            assert_eq!(q.table.alias, None);
            assert_eq!(q.filter.len(), 0);
            assert_eq!(q.order.len(), 0);
        },
        other => panic!("expected a query, found {:?}", other),
    }
}

#[test]
fn where_filter_builds_one_binary_expr() {
    let nodes = parse_query("t | where x = y").unwrap();
    assert_eq!(nodes.len(), 1);
    match &nodes[0] {
        Node::Query(q) => {
            assert_eq!(q.filter.len(), 1);
            let be = &q.filter[0];
            assert_eq!(be.op, BinaryOp::Eq);
            match (&*be.left, &*be.right) {
                (Node::Identity(l), Node::Identity(r)) => {
                    assert_eq!(l.value, "x");
                    assert_eq!(r.value, "y");
                },
                other => panic!("expected identities, found {:?}", other),
            }
        },
        other => panic!("expected a query, found {:?}", other),
    }
}

#[test]
fn mixed_type_and_is_rejected() {
    let result = parse_query("t | where x = y and z");
    match result {
        Err(Error::Parse(_)) => {},
        other => panic!("expected a parse failure, found {:?}", other),
    }
}

#[test]
fn negative_numbers_parse_negative() {
    let node = parse_scalar_value("-5").unwrap();
    let scalar = node.try_into_scalar().unwrap();
    assert_eq!(scalar.try_into_int().unwrap(), -5);

    let node = parse_scalar_value("-1.5").unwrap();
    let scalar = node.try_into_scalar().unwrap();
    let dec = scalar.try_into_decimal().unwrap();
    assert!(dec.negative);
    assert_eq!(dec.integral, 1);
    assert_eq!(dec.fraction, 5);
    assert_eq!(dec.scale, 1);
}

#[test]
fn parentheses_do_not_alter_single_atomic() {
    let plain = parse_query("t | where (x = y)").unwrap();
    let bare = parse_query("t | where x = y").unwrap();
    assert_eq!(plain, bare);

    let grouped = KlangParser::parse(Rule::BinaryTerm, "(7)").unwrap();
    assert_eq!(grouped.as_str(), "(7)");
}

#[test]
fn nested_boolean_filter_shape() {
    let nodes = parse_query("t | where a = 1 and (b = 2 or c = 3)").unwrap();
    match &nodes[0] {
        Node::Query(q) => {
            assert_eq!(q.filter.len(), 1);
            let root = &q.filter[0];
            assert_eq!(root.op, BinaryOp::And);
            match &*root.left {
                Node::BinaryExpr(l) => {
                    assert_eq!(l.op, BinaryOp::Eq);
                    match (&*l.left, &*l.right) {
                        (Node::Identity(a), Node::Scalar(ScalarValue::Int(1))) => {
                            assert_eq!(a.value, "a");
                        },
                        other => panic!("unexpected left leaf {:?}", other),
                    }
                },
                other => panic!("expected a comparison, found {:?}", other),
            }
            match &*root.right {
                Node::BinaryExpr(r) => {
                    assert_eq!(r.op, BinaryOp::Or);
                },
                other => panic!("expected a combination, found {:?}", other),
            }
        },
        other => panic!("expected a query, found {:?}", other),
    }
}

#[test]
fn alias_parses_in_query() {
    let nodes = parse_query("books AS b").unwrap();
    match &nodes[0] {
        Node::Query(q) => {
            assert_eq!(q.table.value, "books");
            assert_eq!(q.table.alias, Some(String::from("b")));
        },
        other => panic!("expected a query, found {:?}", other),
    }
}

#[test]
fn string_literal_keeps_quotes() {
    let node = parse_scalar_value("\"abc\"").unwrap();
    let scalar = node.try_into_scalar().unwrap();
    assert_eq!(scalar.try_into_string().unwrap(), "\"abc\"");
}

#[test]
fn trailing_garbage_is_rejected() {
    assert!(parse_query("t | where x = y ???").is_err());
    parses_not_ok(Rule::Statement, "t ???");
}

#[test]
fn int_overflow_is_rejected() {
    assert!(parse_scalar_value("99999999999999999999999").is_err());
}
