use rustdb::{
    ColumnSchema, ColumnType, Database, DatabaseInterface, InsertOutcome, Row, RowInterface,
    Schema, Table, TableInterface, UpdateOutcome,
};

fn list(values: &[&str]) -> Vec<String> {
    values.iter().map(|v| v.to_string()).collect()
}

fn column(name: &str, col_type: ColumnType) -> ColumnSchema {
    ColumnSchema {
        name: name.to_string(),
        col_type,
    }
}

fn people() -> Table {
    Table::new(
        "People".to_string(),
        Schema {
            columns: vec![
                column("id", ColumnType::Int),
                column("email", ColumnType::String),
                column("score", ColumnType::Float),
            ],
        },
        Some("id".to_string()),
        vec!["email".to_string()],
    )
}

fn contents(t: &Table) -> Vec<Vec<String>> {
    t.rows.iter().map(|r| r.get_values().clone()).collect()
}

#[test]
fn insert_outcomes_in_the_order_of_the_checks() {
    let mut t = people();
    assert_eq!(t.add_row(list(&["1", "a@x", "1.5"])), InsertOutcome::Inserted);
    assert_eq!(
        t.add_row(list(&["x", "a@x", "y"])),
        InsertOutcome::TypeMismatch { column: 0 }
    );
    assert_eq!(
        t.add_row(list(&["1", "a@x", "y"])),
        InsertOutcome::TypeMismatch { column: 2 }
    );
    assert_eq!(t.add_row(list(&["1", "a@x", "2"])), InsertOutcome::DuplicateKey);
    assert_eq!(
        t.add_row(list(&["2", "a@x", "2"])),
        InsertOutcome::DuplicateUnique { constraint: 0 }
    );
    // a row must have one value for each column; this is looked at first
    assert_eq!(t.add_row(list(&[])), InsertOutcome::WrongLength);
    assert_eq!(t.add_row(list(&["2"])), InsertOutcome::WrongLength);
    assert_eq!(t.add_row(list(&["x", "b@x"])), InsertOutcome::WrongLength);
    assert_eq!(
        t.add_row(list(&["2", "b@x", "2", "more"])),
        InsertOutcome::WrongLength
    );
    assert_eq!(contents(&t), vec![list(&["1", "a@x", "1.5"])]);
    // keys are compared as texts
    assert_eq!(t.add_row(list(&["+1", "b@x", "2"])), InsertOutcome::Inserted);
    // an empty text is a value like any other
    assert_eq!(t.add_row(list(&["3", "", "2"])), InsertOutcome::Inserted);
    assert_eq!(
        t.add_row(list(&["4", "", "2"])),
        InsertOutcome::DuplicateUnique { constraint: 0 }
    );
    assert_eq!(
        contents(&t),
        vec![
            list(&["1", "a@x", "1.5"]),
            list(&["+1", "b@x", "2"]),
            list(&["3", "", "2"])
        ]
    );
    assert!(contents(&t).iter().all(|row| row.len() == t.schema.columns.len()));
}

#[test]
fn a_row_of_the_wrong_length_is_refused_by_a_table_without_a_key() {
    let mut t = Table::new(
        "Notes".to_string(),
        Schema {
            columns: vec![column("line", ColumnType::String)],
        },
        None,
        vec![],
    );
    assert_eq!(t.add_row(list(&[])), InsertOutcome::WrongLength);
    assert_eq!(t.add_row(list(&["a", "b"])), InsertOutcome::WrongLength);
    assert!(t.rows.is_empty());
    assert_eq!(t.add_row(list(&["a"])), InsertOutcome::Inserted);
    assert_eq!(contents(&t), vec![list(&["a"])]);

    let mut db = Database::new();
    db.create_table("Notes", vec![column("line", ColumnType::String)]);
    assert_eq!(db.insert("Notes", list(&[])), Some(InsertOutcome::WrongLength));
    assert_eq!(db.tables.get("Notes").unwrap().rows.len(), 0);
}

#[test]
fn update_is_made_on_all_matched_rows_or_on_none() {
    let mut t = people();
    t.add_row(list(&["1", "a@x", "1.5"]));
    t.add_row(list(&["2", "b@x", "2.5"]));
    t.add_row(list(&["3", "c@x", "3.5"]));
    let before = contents(&t);

    // the second and third row would both get the address of the first
    assert_eq!(
        t.update_rows(list(&["", "a@x", "9"]), |r| r[0] != "1"),
        UpdateOutcome::DuplicateUnique { constraint: 0 }
    );
    assert_eq!(contents(&t), before);
    assert_eq!(
        t.update_rows(list(&["7", "", ""]), |_| true),
        UpdateOutcome::DuplicateKey
    );
    assert_eq!(contents(&t), before);
    assert_eq!(
        t.update_rows(list(&["", "", "much"]), |_| false),
        UpdateOutcome::TypeMismatch { column: 2 }
    );
    assert_eq!(contents(&t), before);

    assert_eq!(
        t.update_rows(list(&["", "", "0", "ignored"]), |r| r[0] != "2"),
        UpdateOutcome::Updated
    );
    assert_eq!(
        contents(&t),
        vec![
            list(&["1", "a@x", "0"]),
            list(&["2", "b@x", "2.5"]),
            list(&["3", "c@x", "0"])
        ]
    );
    assert_eq!(
        t.update_marked(&list(&["5"]), &vec![false, true]),
        UpdateOutcome::Updated
    );
    assert_eq!(contents(&t)[1], list(&["5", "b@x", "2.5"]));
}

#[test]
fn select_and_delete_keep_the_order_of_the_rows() {
    let mut t = people();
    t.add_row(list(&["1", "a@x", "1.5"]));
    t.add_row(list(&["2", "b@x", "2.5"]));
    t.add_row(list(&["3", "c@x", "3.5"]));
    assert_eq!(
        t.select_rows(|r| r[0] != "2"),
        vec![list(&["1", "a@x", "1.5"]), list(&["3", "c@x", "3.5"])]
    );
    assert_eq!(t.select_rows(|_| false), Vec::<Vec<String>>::new());
    assert_eq!(
        t.select_marked(&vec![false, false, true, true]),
        vec![list(&["3", "c@x", "3.5"])]
    );
    t.delete_rows(|r| r[0] == "1" || r[0] == "3");
    assert_eq!(contents(&t), vec![list(&["2", "b@x", "2.5"])]);
    t.delete_marked(&vec![]);
    assert_eq!(contents(&t).len(), 1);
    t.delete_marked(&vec![true]);
    assert!(contents(&t).is_empty());
}

#[test]
fn rows_with_the_names_of_their_columns() {
    let mut t = people();
    t.add_row(list(&["1", "a@x", "1.5"]));
    // a row that was put into the list by hand may be too short
    t.rows.push(Row::new(list(&["2"])));
    let named = t.select_rows_named(|_| true);
    assert_eq!(
        named,
        vec![
            vec![
                ("id".to_string(), "1".to_string()),
                ("email".to_string(), "a@x".to_string()),
                ("score".to_string(), "1.5".to_string())
            ],
            vec![
                ("id".to_string(), "2".to_string()),
                ("email".to_string(), "".to_string()),
                ("score".to_string(), "".to_string())
            ],
        ]
    );
    assert!(t.select_rows_named(|r| r.len() > 5).is_empty());
}

#[test]
fn values_by_row_and_column_name() {
    let mut t = people();
    t.add_row(list(&["1", "a@x", "1.5"]));
    t.rows.push(Row::new(list(&["2"])));
    assert_eq!(t.get_value(0, "email"), Some(&"a@x".to_string()));
    assert_eq!(t.get_value(1, "email"), None);
    assert_eq!(t.get_value(2, "email"), None);
    assert_eq!(t.get_value(0, "nothere"), None);
    assert!(t.set_value(0, "score", "9".to_string()));
    assert!(!t.set_value(1, "score", "9".to_string()));
    assert!(!t.set_value(5, "score", "9".to_string()));
    assert!(!t.set_value(0, "nothere", "9".to_string()));
    assert_eq!(contents(&t), vec![list(&["1", "a@x", "9"]), list(&["2"])]);
}

#[test]
fn row_values_by_column_name() {
    let schema = Schema {
        columns: vec![column("id", ColumnType::Int), column("name", ColumnType::String)],
    };
    let mut row = Row::new(list(&["1"]));
    assert_eq!(row.get_by_name("id", &schema), Some(&"1".to_string()));
    assert_eq!(row.get_by_name("name", &schema), None);
    assert_eq!(row.get_by_name("other", &schema), None);
    assert!(!row.set_by_name("name", "x".to_string(), &schema));
    assert!(row.set_by_name("id", "2".to_string(), &schema));
    assert_eq!(row.get_values(), &list(&["2"]));
    row.set_values(list(&["7", "y"]));
    assert_eq!(row.get_by_name("name", &schema), Some(&"y".to_string()));
    let copy = row.clone();
    assert_eq!(copy.get_values(), row.get_values());
}

#[test]
fn database_operations_by_table_name() {
    let mut db = Database::new();
    assert!(db.create_table("Plain", vec![column("a", ColumnType::Int)]));
    // a name that is taken keeps its table
    assert!(!db.create_table("Plain", vec![column("b", ColumnType::String)]));
    assert!(!db.create_table_with_constraints(
        "Plain",
        vec![column("c", ColumnType::Float)],
        Some("c".to_string()),
        vec![]
    ));
    assert_eq!(db.get_table_columns("Plain"), list(&["a"]));
    assert_eq!(db.insert("Plain", list(&["1"])), Some(InsertOutcome::Inserted));
    assert_eq!(db.insert("Plain", list(&["1"])), Some(InsertOutcome::Inserted));
    assert_eq!(db.insert("Other", list(&["1"])), None);
    assert_eq!(db.update("Other", list(&["2"]), |_| true), None);
    assert_eq!(
        db.update("Plain", list(&["2"]), |_| true),
        Some(UpdateOutcome::Updated)
    );
    assert!(!db.delete("Other", |_| true));
    assert_eq!(
        db.select("Plain", list(&["*"]), |_| true),
        Some("a \n--\n2 \n2 \n".to_string())
    );
    assert_eq!(
        db.select("Plain", list(&["a", "b"]), |_| false),
        Some("a b \n----\n".to_string())
    );
    assert_eq!(db.select("Other", list(&["*"]), |_| true), None);
    assert!(db.delete("Plain", |r| r[0] == "2"));
    assert_eq!(db.tables.get("Plain").unwrap().rows.len(), 0);
    assert_eq!(
        db.list_tables(&db.tables.keys()),
        "Tables in the database:\n---------------------\nPlain                |\n---------------------\n"
    );
    assert_eq!(
        db.list_tables(&list(&["a-name-that-is-longer-than-twenty"])),
        "Tables in the database:\n---------------------\na-name-that-is-longer-than-twenty |\n---------------------\n"
    );
}

#[test]
fn a_thousand_rows_are_kept_in_order() {
    let mut db = Database::new();
    db.create_table_with_constraints(
        "Test",
        vec![column("id", ColumnType::Int), column("name", ColumnType::String)],
        Some("id".to_string()),
        vec!["name".to_string()],
    );
    for i in 0..1000 {
        assert_eq!(
            db.insert("Test", vec![i.to_string(), format!("user{}", i)]),
            Some(InsertOutcome::Inserted)
        );
    }
    assert_eq!(db.tables.get("Test").unwrap().rows.len(), 1000);
    for i in [0, 42, 999] {
        let row = &db.tables.get("Test").unwrap().rows[i];
        assert_eq!(row.get_values()[0], i.to_string());
        assert_eq!(row.get_values()[1], format!("user{}", i));
    }
    assert_eq!(
        db.insert("Test", list(&["500", "someone"])),
        Some(InsertOutcome::DuplicateKey)
    );
    assert_eq!(
        db.update("Test", list(&["", "user1"]), |r| r[0] == "2"),
        Some(UpdateOutcome::DuplicateUnique { constraint: 0 })
    );
    assert_eq!(
        db.update("Test", list(&["", "renamed"]), |r| r[0] == "2"),
        Some(UpdateOutcome::Updated)
    );
    let copy = db.clone();
    assert!(db.delete("Test", |r| r[0] != "2"));
    assert_eq!(db.tables.get("Test").unwrap().rows.len(), 1);
    assert_eq!(copy.tables.get("Test").unwrap().rows.len(), 1000);
    assert_eq!(
        copy.tables.get("Test").unwrap().rows[2].get_values(),
        &list(&["2", "renamed"])
    );
}

#[test]
fn a_name_stands_once_among_the_names_and_values_of_a_row() {
    let mut t = Table::new(
        "Twice".to_string(),
        Schema {
            columns: vec![
                column("a", ColumnType::String),
                column("b", ColumnType::String),
                column("a", ColumnType::String),
            ],
        },
        None,
        vec![],
    );
    t.add_row(list(&["first", "middle", "last"]));
    assert_eq!(
        t.select_rows_named(|_| true),
        vec![vec![
            ("a".to_string(), "last".to_string()),
            ("b".to_string(), "middle".to_string())
        ]]
    );
}
