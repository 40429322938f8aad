use rustdb::{
    execute_sql, query_to_predicate, ColumnSchema, ColumnType, Database, DatabaseInterface,
    NumOrder, RowInterface,
};
use std::cmp::Ordering;

fn order_of_floats(a: &str, b: &str) -> NumOrder {
    match (a.parse::<f64>(), b.parse::<f64>()) {
        (Ok(x), Ok(y)) => match x.partial_cmp(&y) {
            Some(Ordering::Less) => NumOrder::Less,
            Some(Ordering::Equal) => NumOrder::Equal,
            Some(Ordering::Greater) => NumOrder::Greater,
            None => NumOrder::Unordered,
        },
        _ => NumOrder::Unordered,
    }
}

#[test]
fn query_predicates_unit() {
    let cols = vec![
        ColumnSchema {
            name: "id".to_string(),
            col_type: ColumnType::Int,
        },
        ColumnSchema {
            name: "price".to_string(),
            col_type: ColumnType::Float,
        },
        ColumnSchema {
            name: "name".to_string(),
            col_type: ColumnType::String,
        },
    ];

    let eq = query_to_predicate(&cols, "id == 10");
    assert!(eq.matches(
        &vec!["10".to_string(), "1.0".to_string(), "x".to_string()],
        &order_of_floats
    ));
    assert!(!eq.matches(
        &vec!["11".to_string(), "1.0".to_string(), "x".to_string()],
        &order_of_floats
    ));

    let gt = query_to_predicate(&cols, "price > 2.5");
    assert!(gt.matches(
        &vec!["1".to_string(), "3.0".to_string(), "x".to_string()],
        &order_of_floats
    ));
    assert!(!gt.matches(
        &vec!["1".to_string(), "2.0".to_string(), "x".to_string()],
        &order_of_floats
    ));

    let neq = query_to_predicate(&cols, "name != 'Bob'");
    assert!(neq.matches(
        &vec!["1".to_string(), "1.0".to_string(), "Alice".to_string()],
        &order_of_floats
    ));
    assert!(!neq.matches(
        &vec!["1".to_string(), "1.0".to_string(), "Bob".to_string()],
        &order_of_floats
    ));
}

#[test]
fn sql_parser_and_select_insert_unit() {
    let mut db = Database::new();
    execute_sql(
        &mut db,
        "CREATE TABLE T(a INT PRIMARY KEY, b STRING UNIQUE, c FLOAT);",
        &order_of_floats,
    );
    let t = db.tables.get("T").expect("table T exists");
    assert_eq!(t.schema.columns.len(), 3);

    execute_sql(&mut db, "SELECT a, b FROM T WHERE a == 1", &order_of_floats);

    execute_sql(
        &mut db,
        "INSERT INTO T (a, b, c) VALUES (1, 'x', 2.0);",
        &order_of_floats,
    );
}

#[test]
fn table_constraints_unit() {
    let mut db = Database::new();
    db.create_table_with_constraints(
        "Utest",
        vec![
            ColumnSchema {
                name: "id".to_string(),
                col_type: ColumnType::Int,
            },
            ColumnSchema {
                name: "name".to_string(),
                col_type: ColumnType::String,
            },
        ],
        Some("id".to_string()),
        vec![],
    );

    db.insert("Utest", vec!["1".to_string(), "A".to_string()]);
    db.insert("Utest", vec!["2".to_string(), "B".to_string()]);
    // duplicate primary key rejected
    db.insert("Utest", vec!["1".to_string(), "C".to_string()]);
    assert_eq!(db.tables.get("Utest").unwrap().rows.len(), 2);
}

#[test]
fn select_operations_unit() {
    let mut db = Database::new();

    execute_sql(
        &mut db,
        "CREATE TABLE Products (id INT PRIMARY KEY, name STRING, price FLOAT, stock INT);",
        &order_of_floats,
    );

    execute_sql(
        &mut db,
        "INSERT INTO Products VALUES (1, 'Pen', 2.5, 100);",
        &order_of_floats,
    );
    execute_sql(
        &mut db,
        "INSERT INTO Products VALUES (2, 'Pencil', 1.2, 50);",
        &order_of_floats,
    );
    execute_sql(
        &mut db,
        "INSERT INTO Products VALUES (3, 'Eraser', 0.8, 30);",
        &order_of_floats,
    );

    // Basic SELECT * without WHERE clause
    execute_sql(&mut db, "SELECT * FROM Products", &order_of_floats);
    let products = db.tables.get("Products").unwrap();
    assert_eq!(products.rows.len(), 3);

    // SELECT with specific columns
    execute_sql(&mut db, "SELECT id, name FROM Products", &order_of_floats);

    // SELECT with WHERE clause on different data types
    execute_sql(&mut db, "SELECT * FROM Products WHERE id > 1", &order_of_floats);
    execute_sql(
        &mut db,
        "SELECT * FROM Products WHERE stock <= 50",
        &order_of_floats,
    );

    execute_sql(
        &mut db,
        "SELECT * FROM Products WHERE price > 2.0",
        &order_of_floats,
    );

    execute_sql(
        &mut db,
        "SELECT * FROM Products WHERE name == 'Pen'",
        &order_of_floats,
    );

    // SELECT with invalid table (should not panic)
    execute_sql(&mut db, "SELECT * FROM NonExistentTable", &order_of_floats);

    // SELECT with complex WHERE conditions
    execute_sql(
        &mut db,
        "SELECT * FROM Products WHERE price > 1.0",
        &order_of_floats,
    );
    let products = db.tables.get("Products").unwrap();
    let expensive_products = products
        .rows
        .iter()
        .filter(|row| row.get_values()[2].parse::<f64>().unwrap() > 1.0)
        .count();
    assert_eq!(expensive_products, 2); // Pen and Pencil are > 1.0

    // SELECT with no matching rows
    execute_sql(
        &mut db,
        "SELECT * FROM Products WHERE price > 10.0",
        &order_of_floats,
    );

    // SELECT with invalid column in WHERE clause (should not panic)
    execute_sql(
        &mut db,
        "SELECT * FROM Products WHERE invalid_column > 10",
        &order_of_floats,
    );
}
