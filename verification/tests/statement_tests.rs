use rustdb::{
    execute_sql, parse_statement, ColumnType, Database, InsertOutcome, NumOrder, Outcome,
    RowInterface, Statement, UpdateOutcome,
};
use std::cmp::Ordering;

fn by_value(a: &str, b: &str) -> NumOrder {
    match (a.parse::<f64>(), b.parse::<f64>()) {
        (Ok(x), Ok(y)) => match x.partial_cmp(&y) {
            Some(Ordering::Less) => NumOrder::Less,
            Some(Ordering::Equal) => NumOrder::Equal,
            Some(Ordering::Greater) => NumOrder::Greater,
            None => NumOrder::Unordered,
        },
        _ => NumOrder::Unordered,
    }
}

fn exec(db: &mut Database, sql: &str) -> Outcome {
    execute_sql(db, sql, &by_value)
}

fn rows_of(db: &Database, table: &str) -> Vec<Vec<String>> {
    db.tables
        .get(table)
        .unwrap()
        .rows
        .iter()
        .map(|r| r.get_values().clone())
        .collect()
}

fn strings(values: &[&str]) -> Vec<String> {
    values.iter().map(|v| v.to_string()).collect()
}

#[test]
fn create_statement_is_read() {
    match parse_statement("create table Users (id INT primary key, name STRING, email unique);") {
        Some(Statement::CreateTable {
            table,
            schema,
            primary_key,
            unique_columns,
        }) => {
            assert_eq!(table, "Users");
            assert_eq!(schema.len(), 3);
            assert_eq!(schema[0].name, "id");
            assert_eq!(schema[0].col_type, ColumnType::Int);
            assert_eq!(schema[1].name, "name");
            assert_eq!(schema[1].col_type, ColumnType::String);
            assert_eq!(schema[2].name, "email");
            assert_eq!(schema[2].col_type, ColumnType::String);
            assert_eq!(primary_key, Some("id".to_string()));
            assert_eq!(unique_columns, strings(&["email"]));
        }
        other => panic!("not a create statement: {:?}", other),
    }
}

#[test]
fn create_statement_with_two_primary_keys_is_refused() {
    assert!(parse_statement("CREATE TABLE T(a INT PRIMARY KEY, b INT PRIMARY KEY)").is_none());
}

#[test]
fn create_statement_with_an_unknown_word_is_refused() {
    assert!(parse_statement("CREATE TABLE T(a BLOB)").is_none());
    assert!(parse_statement("CREATE TABLE T(a INT PRIMARY)").is_none());
    assert!(parse_statement("CREATE TABLE T(a INT, )").is_none());
    assert!(parse_statement("CREATE TABLE T()").is_none());
    assert!(parse_statement("CREATE TABLE (a INT)").is_none());
    assert!(parse_statement("CREATE T(a INT)").is_none());
    assert!(parse_statement("CREATE TABLE T(a INT) extra").is_none());
}

#[test]
fn insert_statement_is_read() {
    match parse_statement("INSERT INTO T (a, b, c) VALUES (1, 'x y', \"2.0\");") {
        Some(Statement::Insert {
            table,
            column_list,
            values,
        }) => {
            assert_eq!(table, "T");
            assert_eq!(column_list, Some(strings(&["a", "b", "c"])));
            assert_eq!(values, strings(&["1", "x y", "2.0"]));
        }
        other => panic!("not an insert statement: {:?}", other),
    }
    match parse_statement("insert into T values(1,2)") {
        Some(Statement::Insert {
            table,
            column_list,
            values,
        }) => {
            assert_eq!(table, "T");
            assert_eq!(column_list, None);
            assert_eq!(values, strings(&["1", "2"]));
        }
        other => panic!("not an insert statement: {:?}", other),
    }
}

#[test]
fn update_statement_is_read() {
    match parse_statement("UPDATE Users SET name = 'Bob', age = 3 WHERE id == 1;") {
        Some(Statement::Update {
            table,
            assignments,
            clause,
        }) => {
            assert_eq!(table, "Users");
            assert_eq!(
                assignments,
                vec![
                    ("name".to_string(), "Bob".to_string()),
                    ("age".to_string(), "3".to_string())
                ]
            );
            assert_eq!(clause, "id == 1");
        }
        other => panic!("not an update statement: {:?}", other),
    }
    assert!(parse_statement("UPDATE Users SET name = 'Bob'").is_none());
    assert!(parse_statement("UPDATE Users SET name = 'Bob' WHERE").is_none());
    assert!(parse_statement("UPDATE Users SET name WHERE id == 1").is_none());
    assert!(parse_statement("UPDATE Users name = 'Bob' WHERE id == 1").is_none());
}

#[test]
fn delete_statement_is_read() {
    match parse_statement("delete from Users where id >= 2") {
        Some(Statement::Delete { table, clause }) => {
            assert_eq!(table, "Users");
            assert_eq!(clause, "id >= 2");
        }
        other => panic!("not a delete statement: {:?}", other),
    }
    assert!(parse_statement("DELETE FROM Users").is_none());
    assert!(parse_statement("DELETE Users WHERE id == 1").is_none());
    assert!(parse_statement("DELETE FROM WHERE id == 1").is_none());
}

#[test]
fn select_statement_is_read() {
    match parse_statement("SELECT a, b FROM T WHERE a == 1") {
        Some(Statement::Select {
            table,
            columns,
            filter,
        }) => {
            assert_eq!(table, "T");
            assert_eq!(columns, strings(&["a", "b"]));
            assert_eq!(filter, Some("a == 1".to_string()));
        }
        other => panic!("not a select statement: {:?}", other),
    }
    match parse_statement("select * from T;") {
        Some(Statement::Select {
            table,
            columns,
            filter,
        }) => {
            assert_eq!(table, "T");
            assert_eq!(columns, strings(&["*"]));
            assert_eq!(filter, None);
        }
        other => panic!("not a select statement: {:?}", other),
    }
    assert!(parse_statement("SELECT").is_none());
    assert!(parse_statement("SELECT FROM").is_none());
    assert!(parse_statement("SELECT * FROM").is_none());
    assert!(parse_statement("SELECT a,, b FROM T").is_none());
    assert!(parse_statement("SELECT * FROM T WHERE").is_none());
    assert!(parse_statement("SELECT * FROM T LIMIT 1").is_none());
}

#[test]
fn list_statement_is_read() {
    assert!(matches!(
        parse_statement("  list   tables ; "),
        Some(Statement::ListTables)
    ));
    assert!(parse_statement("LIST").is_none());
    assert!(parse_statement("LIST TABLES now").is_none());
    assert!(parse_statement("").is_none());
    assert!(parse_statement(";").is_none());
    assert!(parse_statement("INVALID SQL").is_none());
}

#[test]
fn duplicate_primary_key_is_rejected() {
    let mut db = Database::new();
    assert!(matches!(
        exec(
            &mut db,
            "CREATE TABLE Users(id INT PRIMARY KEY, name STRING)"
        ),
        Outcome::Created
    ));
    assert!(matches!(
        exec(&mut db, "INSERT INTO Users VALUES (1,'Alice')"),
        Outcome::Insert(InsertOutcome::Inserted)
    ));
    assert!(matches!(
        exec(&mut db, "INSERT INTO Users VALUES (1,'Carol')"),
        Outcome::Insert(InsertOutcome::DuplicateKey)
    ));
    assert_eq!(rows_of(&db, "Users"), vec![strings(&["1", "Alice"])]);
}

#[test]
fn duplicate_unique_value_is_rejected() {
    let mut db = Database::new();
    exec(
        &mut db,
        "CREATE TABLE Emails(id INT PRIMARY KEY, email STRING UNIQUE)",
    );
    assert!(matches!(
        exec(&mut db, "INSERT INTO Emails VALUES (1,'a@b.com')"),
        Outcome::Insert(InsertOutcome::Inserted)
    ));
    assert!(matches!(
        exec(&mut db, "INSERT INTO Emails VALUES (2,'a@b.com')"),
        Outcome::Insert(InsertOutcome::DuplicateUnique { constraint: 0 })
    ));
    assert_eq!(rows_of(&db, "Emails"), vec![strings(&["1", "a@b.com"])]);
}

#[test]
fn update_with_a_value_of_the_wrong_type_changes_nothing() {
    let mut db = Database::new();
    exec(
        &mut db,
        "CREATE TABLE Users(id INT PRIMARY KEY, name STRING)",
    );
    exec(&mut db, "INSERT INTO Users VALUES (1,'Alice')");
    assert!(matches!(
        exec(&mut db, "UPDATE Users SET id = notanint WHERE id == 1"),
        Outcome::Update(UpdateOutcome::TypeMismatch { column: 0 })
    ));
    assert_eq!(rows_of(&db, "Users"), vec![strings(&["1", "Alice"])]);
}

#[test]
fn update_that_would_repeat_a_key_changes_no_row() {
    let mut db = Database::new();
    exec(&mut db, "CREATE TABLE T(id INT PRIMARY KEY, v STRING)");
    exec(&mut db, "INSERT INTO T VALUES (1,'a')");
    exec(&mut db, "INSERT INTO T VALUES (2,'b')");
    exec(&mut db, "INSERT INTO T VALUES (3,'c')");
    let before = rows_of(&db, "T");
    // every row would get the key 7
    assert!(matches!(
        exec(&mut db, "UPDATE T SET id = 7, v = 'z' WHERE id >= 1"),
        Outcome::Update(UpdateOutcome::DuplicateKey)
    ));
    assert_eq!(rows_of(&db, "T"), before);
    // one row: fine
    assert!(matches!(
        exec(&mut db, "UPDATE T SET id = 7, v = 'z' WHERE id == 3"),
        Outcome::Update(UpdateOutcome::Updated)
    ));
    assert_eq!(
        rows_of(&db, "T"),
        vec![
            strings(&["1", "a"]),
            strings(&["2", "b"]),
            strings(&["7", "z"])
        ]
    );
}

#[test]
fn statements_that_do_not_fit_the_table_change_nothing() {
    let mut db = Database::new();
    exec(&mut db, "CREATE TABLE T(id INT PRIMARY KEY, v STRING)");
    assert!(matches!(
        exec(&mut db, "INSERT INTO T VALUES (1)"),
        Outcome::Insert(InsertOutcome::WrongLength)
    ));
    assert!(matches!(
        exec(&mut db, "INSERT INTO T VALUES (1, 'a', 'b')"),
        Outcome::Insert(InsertOutcome::WrongLength)
    ));
    assert!(matches!(
        exec(&mut db, "INSERT INTO T (id, v) VALUES (1)"),
        Outcome::Insert(InsertOutcome::WrongLength)
    ));
    assert!(matches!(
        exec(&mut db, "INSERT INTO T (v, id) VALUES ('a', 1)"),
        Outcome::Mismatch
    ));
    assert!(matches!(
        exec(&mut db, "INSERT INTO T (id) VALUES (1, 'a')"),
        Outcome::Mismatch
    ));
    assert!(matches!(
        exec(&mut db, "INSERT INTO T (id, v) VALUES (1, 'a')"),
        Outcome::Insert(InsertOutcome::Inserted)
    ));
    assert!(matches!(
        exec(&mut db, "UPDATE T SET nothere = 1 WHERE id == 1"),
        Outcome::Mismatch
    ));
    assert!(matches!(
        exec(&mut db, "INSERT INTO Other VALUES (1, 'a')"),
        Outcome::NoSuchTable
    ));
    assert!(matches!(
        exec(&mut db, "UPDATE Other SET v = 1 WHERE id == 1"),
        Outcome::NoSuchTable
    ));
    assert!(matches!(
        exec(&mut db, "DELETE FROM Other WHERE id == 1"),
        Outcome::NoSuchTable
    ));
    assert!(matches!(
        exec(&mut db, "SELECT * FROM NonexistentTable"),
        Outcome::NoSuchTable
    ));
    assert!(matches!(exec(&mut db, "SELEKT * FROM T"), Outcome::Malformed));
    assert_eq!(rows_of(&db, "T"), vec![strings(&["1", "a"])]);
    assert_eq!(db.tables.len(), 1);
}

#[test]
fn delete_removes_the_matching_rows() {
    let mut db = Database::new();
    exec(&mut db, "CREATE TABLE T(id INT PRIMARY KEY, price FLOAT)");
    exec(&mut db, "INSERT INTO T VALUES (1, 2.5)");
    exec(&mut db, "INSERT INTO T VALUES (2, 1.0)");
    exec(&mut db, "INSERT INTO T VALUES (3, 0.5)");
    assert!(matches!(
        exec(&mut db, "DELETE FROM T WHERE price <= 1.0"),
        Outcome::Deleted
    ));
    assert_eq!(rows_of(&db, "T"), vec![strings(&["1", "2.5"])]);
    // a column that the table does not have matches no row
    assert!(matches!(
        exec(&mut db, "DELETE FROM T WHERE weight > 0"),
        Outcome::Deleted
    ));
    // a literal that is no number matches no row
    assert!(matches!(
        exec(&mut db, "DELETE FROM T WHERE price > cheap"),
        Outcome::Deleted
    ));
    assert!(matches!(
        exec(&mut db, "DELETE FROM T WHERE id == one"),
        Outcome::Deleted
    ));
    assert!(matches!(
        exec(&mut db, "DELETE FROM T WHERE id"),
        Outcome::Deleted
    ));
    assert_eq!(rows_of(&db, "T"), vec![strings(&["1", "2.5"])]);
}

#[test]
fn empty_literal_in_an_update_leaves_the_column() {
    let mut db = Database::new();
    exec(&mut db, "CREATE TABLE T(id INT PRIMARY KEY, v STRING)");
    exec(&mut db, "INSERT INTO T VALUES (1, 'a')");
    assert!(matches!(
        exec(&mut db, "UPDATE T SET v = '' WHERE id == 1"),
        Outcome::Update(UpdateOutcome::Updated)
    ));
    assert_eq!(rows_of(&db, "T"), vec![strings(&["1", "a"])]);
}

#[test]
fn selection_is_laid_out_as_a_table() {
    let mut db = Database::new();
    exec(
        &mut db,
        "CREATE TABLE Products (id INT PRIMARY KEY, name STRING, price FLOAT)",
    );
    exec(&mut db, "INSERT INTO Products VALUES (1, 'Pen', 2.5)");
    exec(&mut db, "INSERT INTO Products VALUES (2, 'Pencil', 1.2)");
    exec(&mut db, "INSERT INTO Products VALUES (3, 'Eraser-with-a-long-name', 0.8)");
    match exec(&mut db, "SELECT * FROM Products WHERE price > 1.0") {
        Outcome::Rows(text) => assert_eq!(
            text,
            "id name   price \n\
             ----------------\n\
             1  Pen    2.5   \n\
             2  Pencil 1.2   \n"
        ),
        other => panic!("no rows: {:?}", other),
    }
    match exec(&mut db, "SELECT name, nothere FROM Products WHERE id == 3") {
        Outcome::Rows(text) => assert_eq!(
            text,
            "name                    nothere \n\
             --------------------------------\n\
             Eraser-with-a-long-name         \n"
        ),
        other => panic!("no rows: {:?}", other),
    }
    match exec(&mut db, "SELECT id FROM Products WHERE price > 10") {
        Outcome::Rows(text) => assert_eq!(text, "id \n---\n"),
        other => panic!("no rows: {:?}", other),
    }
}

#[test]
fn tables_are_listed() {
    let mut db = Database::new();
    exec(&mut db, "CREATE TABLE B(x INT)");
    exec(&mut db, "CREATE TABLE A(x INT)");
    match exec(&mut db, "LIST TABLES") {
        Outcome::Tables(text) => assert_eq!(
            text,
            "Tables in the database:\n\
             ---------------------\n\
             B                    |\n\
             ---------------------\n\
             A                    |\n\
             ---------------------\n"
        ),
        other => panic!("no list: {:?}", other),
    }
}

#[test]
fn a_second_create_under_a_taken_name_changes_nothing() {
    let mut db = Database::new();
    assert!(matches!(exec(&mut db, "CREATE TABLE T(id INT)"), Outcome::Created));
    exec(&mut db, "INSERT INTO T VALUES (1)");
    assert!(matches!(
        exec(&mut db, "CREATE TABLE T(id INT, v STRING)"),
        Outcome::TableExists
    ));
    assert!(matches!(
        exec(&mut db, "CREATE TABLE T(id INT)"),
        Outcome::TableExists
    ));
    assert_eq!(db.tables.len(), 1);
    assert_eq!(rows_of(&db, "T"), vec![strings(&["1"])]);
    assert_eq!(db.get_table_columns("T"), strings(&["id"]));
    assert_eq!(db.get_table_columns("U"), Vec::<String>::new());
    // names are told apart by every character
    assert!(matches!(exec(&mut db, "CREATE TABLE t(id INT)"), Outcome::Created));
    assert_eq!(db.tables.len(), 2);
}

#[test]
fn numbers_are_compared_as_numbers() {
    let mut db = Database::new();
    exec(&mut db, "CREATE TABLE T(id INT PRIMARY KEY, price FLOAT, name STRING)");
    exec(&mut db, "INSERT INTO T VALUES (1, 2.50, 'a')");
    exec(&mut db, "INSERT INTO T VALUES (2, 1e1, 'b')");
    exec(&mut db, "INSERT INTO T VALUES (3, nan, '10')");
    exec(&mut db, "INSERT INTO T VALUES (+4, -inf, 'x')");
    let select = |db: &mut Database, clause: &str| -> Vec<String> {
        let mut copy = Database::new();
        exec(&mut copy, "CREATE TABLE T(id INT PRIMARY KEY, price FLOAT, name STRING)");
        for row in rows_of(db, "T") {
            copy.tables.add_row("T", row);
        }
        exec(&mut copy, &format!("DELETE FROM T WHERE {}", clause));
        let left: Vec<String> = rows_of(&copy, "T").iter().map(|r| r[0].clone()).collect();
        rows_of(db, "T")
            .iter()
            .map(|r| r[0].clone())
            .filter(|id| !left.contains(id))
            .collect()
    };
    assert_eq!(select(&mut db, "price == 2.5"), strings(&["1"]));
    assert_eq!(select(&mut db, "price != 2.5"), strings(&["2", "3", "+4"]));
    assert_eq!(select(&mut db, "price >= 2.5"), strings(&["1", "2"]));
    assert_eq!(select(&mut db, "price < 10"), strings(&["1", "+4"]));
    assert_eq!(select(&mut db, "price <= 10.0"), strings(&["1", "2", "+4"]));
    assert_eq!(select(&mut db, "price > -inf"), strings(&["1", "2"]));
    assert_eq!(select(&mut db, "id == 4"), strings(&["+4"]));
    assert_eq!(select(&mut db, "id != 4"), strings(&["1", "2", "3"]));
    assert_eq!(select(&mut db, "id > 2"), strings(&["3", "+4"]));
    // text is compared as text by == and as a number by <
    assert_eq!(select(&mut db, "name == 10"), strings(&["3"]));
    assert_eq!(select(&mut db, "name == '10'"), strings(&["3"]));
    assert_eq!(select(&mut db, "name < 11"), strings(&["3"]));
    assert_eq!(select(&mut db, "name != a"), strings(&["2", "3", "+4"]));
    assert_eq!(select(&mut db, "true"), strings(&["1", "2", "3", "+4"]));
}

#[test]
fn the_first_operator_of_the_list_is_taken() {
    let mut db = Database::new();
    exec(&mut db, "CREATE TABLE T(a STRING, b STRING)");
    exec(&mut db, "INSERT INTO T VALUES ('x', 'y')");
    // `>=` stands first in the text, but `==` stands first in the list of operators
    assert!(matches!(
        exec(&mut db, "DELETE FROM T WHERE a >= 1 == 2"),
        Outcome::Deleted
    ));
    assert_eq!(rows_of(&db, "T").len(), 1);
    // the column is `a >= 1`, which the table does not have; with `>=` alone the row is compared
    exec(&mut db, "INSERT INTO T VALUES ('5', 'z')");
    exec(&mut db, "DELETE FROM T WHERE a >= 1");
    assert_eq!(rows_of(&db, "T"), vec![strings(&["x", "y"])]);
}
