use rustdb::{execute_sql, Database, NumOrder, RowInterface};
use std::cmp::Ordering;

fn compare_floats(a: &str, b: &str) -> NumOrder {
    match (a.parse::<f64>(), b.parse::<f64>()) {
        (Ok(x), Ok(y)) => match x.partial_cmp(&y) {
            Some(Ordering::Less) => NumOrder::Less,
            Some(Ordering::Equal) => NumOrder::Equal,
            Some(Ordering::Greater) => NumOrder::Greater,
            None => NumOrder::Unordered,
        },
        _ => NumOrder::Unordered,
    }
}

fn run(db: &mut Database, sql: &str) {
    execute_sql(db, sql, &compare_floats);
}

#[test]
fn sql_parser_edge_cases() {
    let mut db = Database::new();

    // Invalid SQL operations should be ignored
    run(&mut db, "INVALID SQL");
    assert_eq!(db.tables.len(), 0, "Invalid SQL should not create tables");

    // CREATE without proper syntax should be ignored
    run(&mut db, "CREATE TABLE");
    assert_eq!(
        db.tables.len(),
        0,
        "CREATE TABLE without name/columns should not create a table"
    );

    // Valid table for testing malformed queries
    run(&mut db, "CREATE TABLE Users(id INT PRIMARY KEY, name STRING);");
    assert!(
        db.tables.contains_key("Users"),
        "Valid CREATE TABLE should work"
    );

    // Malformed SELECT - these should not panic
    run(&mut db, "SELECT"); // Missing everything
    run(&mut db, "SELECT FROM"); // Missing columns and table
    run(&mut db, "SELECT * FROM"); // Missing table
    run(&mut db, "SELECT * FROM NonexistentTable"); // Invalid table

    // Malformed INSERT - these should not add rows
    run(&mut db, "INSERT INTO;"); // Missing everything
    run(&mut db, "INSERT INTO Users;"); // Missing VALUES
    run(&mut db, "INSERT INTO Users VALUES;"); // Missing values
    run(&mut db, "INSERT INTO NonexistentTable VALUES (1);"); // Invalid table
    assert_eq!(db.tables.get("Users").unwrap().rows.len(), 0);

    // Type mismatches in INSERT
    run(&mut db, "INSERT INTO Users VALUES (notanint, 'name');"); // Bad int
    assert_eq!(db.tables.get("Users").unwrap().rows.len(), 0);

    // Valid insert for update/delete tests
    run(&mut db, "INSERT INTO Users VALUES (1, 'Alice');");
    assert_eq!(db.tables.get("Users").unwrap().rows.len(), 1);

    // Malformed UPDATE - these should not modify rows
    run(&mut db, "UPDATE;"); // Missing everything
    run(&mut db, "UPDATE Users;"); // Missing SET
    run(&mut db, "UPDATE Users SET;"); // Missing assignments
    run(&mut db, "UPDATE NonexistentTable SET id = 1;"); // Invalid table

    // Type mismatches in UPDATE
    run(&mut db, "UPDATE Users SET id = notanint WHERE id == 1;"); // Bad int
    let first_row = &db.tables.get("Users").unwrap().rows[0];
    assert_eq!(first_row.get_values()[0], "1"); // Value unchanged
}

#[test]
fn constraint_violations() {
    let mut db = Database::new();

    // Test UNIQUE constraint on non-PK column
    run(
        &mut db,
        "CREATE TABLE Emails(id INT PRIMARY KEY, email STRING UNIQUE);",
    );

    // First insert succeeds
    run(&mut db, "INSERT INTO Emails VALUES (1, 'a@b.com');");
    let rows = db.tables.get("Emails").unwrap().rows.len();
    assert_eq!(rows, 1, "First insert should succeed");

    // Duplicate email fails
    run(
        &mut db,
        "INSERT INTO Emails (id, email) VALUES (2, 'a@b.com');",
    );
    assert_eq!(
        db.tables.get("Emails").unwrap().rows.len(),
        1,
        "Duplicate email should be rejected"
    );

    // Different email succeeds
    run(&mut db, "INSERT INTO Emails VALUES (2, 'c@d.com');");
    assert_eq!(db.tables.get("Emails").unwrap().rows.len(), 2);

    // UPDATE violating UNIQUE constraint
    run(
        &mut db,
        "UPDATE Emails SET email = 'a@b.com' WHERE id == 2;",
    );
    // Should remain unchanged
    assert_eq!(
        db.tables.get("Emails").unwrap().rows[1].get_values()[1],
        "c@d.com"
    );

    // Test multiple UNIQUE constraints
    run(
        &mut db,
        "CREATE TABLE Users(id INT PRIMARY KEY, email STRING UNIQUE, username STRING UNIQUE);",
    );

    // First insert succeeds
    run(&mut db, "INSERT INTO Users VALUES (1, 'a@b.com', 'alice')");
    assert_eq!(db.tables.get("Users").unwrap().rows.len(), 1);

    // Duplicate email fails
    run(&mut db, "INSERT INTO Users VALUES (2, 'a@b.com', 'bob')");
    assert_eq!(db.tables.get("Users").unwrap().rows.len(), 1);

    // Duplicate username fails
    run(&mut db, "INSERT INTO Users VALUES (2, 'c@d.com', 'alice')");
    assert_eq!(db.tables.get("Users").unwrap().rows.len(), 1);

    // Unique values succeed
    run(&mut db, "INSERT INTO Users VALUES (2, 'c@d.com', 'bob')");
    assert_eq!(db.tables.get("Users").unwrap().rows.len(), 2);
}
