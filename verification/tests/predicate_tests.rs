use rustdb::{query_to_predicate, ColumnSchema, ColumnType, CompareOp, NumOrder, Predicate};
use std::cmp::Ordering;

fn as_floats(a: &str, b: &str) -> NumOrder {
    match (a.parse::<f64>(), b.parse::<f64>()) {
        (Ok(x), Ok(y)) => match x.partial_cmp(&y) {
            Some(Ordering::Less) => NumOrder::Less,
            Some(Ordering::Equal) => NumOrder::Equal,
            Some(Ordering::Greater) => NumOrder::Greater,
            None => NumOrder::Unordered,
        },
        _ => NumOrder::Unordered,
    }
}

fn columns() -> Vec<ColumnSchema> {
    vec![
        ColumnSchema {
            name: "id".to_string(),
            col_type: ColumnType::Int,
        },
        ColumnSchema {
            name: "price".to_string(),
            col_type: ColumnType::Float,
        },
        ColumnSchema {
            name: "name".to_string(),
            col_type: ColumnType::String,
        },
    ]
}

fn row(values: &[&str]) -> Vec<String> {
    values.iter().map(|v| v.to_string()).collect()
}

fn holds(clause: &str, values: &[&str]) -> bool {
    query_to_predicate(&columns(), clause).matches(&row(values), &as_floats)
}

#[test]
fn empty_clause_and_true_hold_of_every_row() {
    assert!(matches!(query_to_predicate(&columns(), ""), Predicate::Always));
    assert!(matches!(query_to_predicate(&columns(), "  \t "), Predicate::Always));
    assert!(matches!(query_to_predicate(&columns(), " true "), Predicate::Always));
    assert!(holds("", &[]));
    assert!(holds("true", &["x"]));
    // only the word as it is written
    assert!(matches!(query_to_predicate(&columns(), "TRUE"), Predicate::Never));
    assert!(matches!(query_to_predicate(&columns(), "false"), Predicate::Never));
}

#[test]
fn clauses_that_cannot_be_read_hold_of_no_row() {
    for clause in [
        "id",
        "id = 1",
        "weight == 1",
        "ID == 1",
        "id == one",
        "id == 1.0",
        "id != ",
        "price == cheap",
        "price > cheap",
        "name > cheap",
        "id >= 9223372036854775808x",
        "== 1",
    ] {
        assert!(
            matches!(query_to_predicate(&columns(), clause), Predicate::Never),
            "clause {:?}",
            clause
        );
        assert!(!holds(clause, &["1", "1.0", "cheap"]), "clause {:?}", clause);
        assert!(!holds(clause, &[]), "clause {:?}", clause);
    }
}

#[test]
fn compiled_clauses() {
    match query_to_predicate(&columns(), "  id==  -7 ") {
        Predicate::Int {
            column,
            negated,
            value,
        } => {
            assert_eq!(column, 0);
            assert!(!negated);
            assert_eq!(value, -7);
        }
        other => panic!("no comparison of integers: {:?}", other),
    }
    match query_to_predicate(&columns(), "name != \"a b\"") {
        Predicate::Text {
            column,
            negated,
            text,
        } => {
            assert_eq!(column, 2);
            assert!(negated);
            assert_eq!(text, "a b");
        }
        other => panic!("no comparison of texts: {:?}", other),
    }
    match query_to_predicate(&columns(), "id <= '1e3'") {
        Predicate::Number {
            column,
            op,
            literal,
        } => {
            assert_eq!(column, 0);
            assert_eq!(op, CompareOp::AtMost);
            assert_eq!(literal, "1e3");
        }
        other => panic!("no comparison of numbers: {:?}", other),
    }
    match query_to_predicate(&columns(), "price == 2") {
        Predicate::Number { column, op, .. } => {
            assert_eq!(column, 1);
            assert_eq!(op, CompareOp::Equal);
        }
        other => panic!("no comparison of numbers: {:?}", other),
    }
}

#[test]
fn values_are_read_as_the_comparison_needs_them() {
    assert!(holds("id == 10", &["10"]));
    assert!(holds("id == 10", &["+10"]));
    assert!(holds("id == 10", &["0010"]));
    assert!(!holds("id == 10", &["10.0"]));
    assert!(!holds("id == 10", &["ten"]));
    assert!(!holds("id != 10", &["ten"]));
    assert!(holds("id != 10", &["11"]));
    assert!(!holds("id == 10", &[]));
    assert!(!holds("id != 10", &[]));

    assert!(holds("name == Pen", &["1", "2", "Pen"]));
    assert!(!holds("name == Pen", &["1", "2", "pen"]));
    assert!(!holds("name == Pen", &["1", "2"]));
    assert!(!holds("name != Pen", &["1", "2"]));
    assert!(holds("name == ' Pen '", &["1", "2", " Pen "]));

    assert!(holds("price == 2.50", &["1", "2.5"]));
    assert!(holds("price == 0", &["1", "-0.0"]));
    assert!(holds("price > 1e2", &["1", "100.5"]));
    assert!(!holds("price > 1e2", &["1", "much"]));
    assert!(!holds("price != 1e2", &["1", "much"]));
    assert!(!holds("price == nan", &["1", "nan"]));
    assert!(holds("price != nan", &["1", "nan"]));
    assert!(holds("price != nan", &["1", "3"]));
    assert!(!holds("price >= nan", &["1", "3"]));
    assert!(holds("price >= inf", &["1", "infinity"]));
    assert!(holds("price < inf", &["1", "1e308"]));
    // numbers that differ only beyond the precision of the comparison are equal
    assert!(holds("price == 0.1", &["1", "0.1000000000000000000001"]));
    // an integer column is compared as numbers by the order operators
    assert!(holds("id > 2.5", &["3"]));
    assert!(holds("id >= 3.0", &["3"]));
    assert!(!holds("id < 3", &["3"]));
}

#[test]
fn a_predicate_that_was_not_compiled_is_evaluated_too() {
    let odd = Predicate::Number {
        column: 0,
        op: CompareOp::NotEqual,
        literal: "many".to_string(),
    };
    assert!(!odd.matches(&row(&["1"]), &as_floats));
    let far = Predicate::Text {
        column: 7,
        negated: true,
        text: "x".to_string(),
    };
    assert!(!far.matches(&row(&["1"]), &as_floats));
}
