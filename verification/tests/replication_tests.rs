use rustdb::{
    checksum, execute_sql, init_demo_database, Database, NumOrder, Outcome, QueryResponse,
    ReplicationConfig, ReplicationError, ReplicationEvent, ReplicationManager, RowInterface,
    RpcServer, Written,
};
use sha2::{Digest, Sha256};
use std::cmp::Ordering;

fn numeric(a: &str, b: &str) -> NumOrder {
    match (a.parse::<f64>(), b.parse::<f64>()) {
        (Ok(x), Ok(y)) => match x.partial_cmp(&y) {
            Some(Ordering::Less) => NumOrder::Less,
            Some(Ordering::Equal) => NumOrder::Equal,
            Some(Ordering::Greater) => NumOrder::Greater,
            None => NumOrder::Unordered,
        },
        _ => NumOrder::Unordered,
    }
}

fn event(timestamp: u64, query: &str) -> ReplicationEvent {
    ReplicationEvent {
        timestamp,
        query: query.to_string(),
    }
}

fn values_of(db: &Database, table: &str) -> Vec<Vec<String>> {
    db.tables
        .get(table)
        .unwrap()
        .rows
        .iter()
        .map(|r| r.get_values().clone())
        .collect()
}

fn sha256_hex(text: &str) -> String {
    let mut hasher = Sha256::new();
    hasher.update(text.as_bytes());
    hex::encode(hasher.finalize())
}

#[test]
fn configurations() {
    let primary = ReplicationConfig::new_primary();
    assert!(primary.is_primary);
    assert_eq!(primary.primary_url, None);
    assert!(primary.replicas.is_empty());
    assert_eq!(primary.sync_interval, 5);

    let replica = ReplicationConfig::new_replica("http://primary:3030".to_string());
    assert!(!replica.is_primary);
    assert_eq!(replica.primary_url, Some("http://primary:3030".to_string()));
    assert!(replica.replicas.is_empty());
    assert_eq!(replica.sync_interval, 5);

    let standard = ReplicationConfig::default();
    assert!(standard.is_primary);
    assert_eq!(standard.primary_url, None);
}

#[test]
fn checksum_of_an_empty_database() {
    let db = Database::new();
    assert_eq!(
        checksum(&db),
        "e3b0c44298fc1c149afbf4c8996fb92427ae41e4649b934ca495991b7852b855"
    );
}

#[test]
fn checksum_is_the_digest_of_the_tables_in_the_order_of_their_names() {
    let mut db = Database::new();
    execute_sql(&mut db, "CREATE TABLE b(id INT PRIMARY KEY, v FLOAT)", &numeric);
    execute_sql(&mut db, "CREATE TABLE a(name STRING)", &numeric);
    execute_sql(&mut db, "CREATE TABLE B(x INT)", &numeric);
    execute_sql(&mut db, "INSERT INTO b VALUES (1, 2.5)", &numeric);
    execute_sql(&mut db, "INSERT INTO b VALUES (2, 0.5)", &numeric);
    execute_sql(&mut db, "INSERT INTO a VALUES ('é;x')", &numeric);
    let expected = "TABLE:B;COL:x:Int;\
                    TABLE:a;COL:name:String;VAL:é;x;\
                    TABLE:b;COL:id:Int;COL:v:Float;VAL:1;VAL:2.5;VAL:2;VAL:0.5;";
    assert_eq!(checksum(&db), sha256_hex(expected));
    assert_eq!(rustdb::digest::write_out(&db), expected);
    assert_eq!(checksum(&db).len(), 64);
}

#[test]
fn names_are_sorted_as_strings_are() {
    let names: Vec<String> = ["b", "a", "B", "ab", "", "é", "a", "Z", "aa", "z"]
        .iter()
        .map(|s| s.to_string())
        .collect();
    let mut expected = names.clone();
    expected.sort();
    assert_eq!(rustdb::digest::sort_names(&names), expected);
}

#[test]
fn primary_records_the_write_statements_it_carried_out() {
    let mut node = ReplicationManager::new(ReplicationConfig::new_primary(), Database::new());
    node.add_replica("http://r1".to_string());
    node.add_replica("http://r2".to_string());
    node.add_replica("http://r1".to_string());
    assert!(node.is_primary());

    let created = node
        .execute("CREATE TABLE T(id INT PRIMARY KEY)".to_string(), 10, &numeric)
        .unwrap();
    assert!(matches!(created.outcome, Outcome::Created));
    let event = created.recorded.unwrap();
    assert_eq!(event.timestamp, 10);
    assert_eq!(event.query, "CREATE TABLE T(id INT PRIMARY KEY)");
    assert_eq!(created.targets, vec!["http://r1".to_string(), "http://r2".to_string()]);
    let inserted = node
        .execute("INSERT INTO T VALUES (1)".to_string(), 11, &numeric)
        .unwrap();
    assert!(matches!(inserted.outcome, Outcome::Insert(_)));
    assert!(inserted.recorded.is_some());
    // a rejected insert, a selection, a text that is no statement and a second
    // table under a taken name are not recorded
    for (time, statement) in [
        (12, "INSERT INTO T VALUES (1)"),
        (12, "INSERT INTO T VALUES (2, 3)"),
        (13, "SELECT * FROM T"),
        (14, "nonsense"),
        (14, "CREATE TABLE T(other STRING)"),
    ] {
        let written = node.execute(statement.to_string(), time, &numeric).unwrap();
        assert!(written.recorded.is_none(), "statement {:?}", statement);
        assert!(written.targets.is_empty(), "statement {:?}", statement);
    }
    assert!(node
        .execute("DELETE FROM T WHERE id == 5".to_string(), 15, &numeric)
        .unwrap()
        .recorded
        .is_some());
    assert_eq!(node.database().get_table_columns("T"), vec!["id".to_string()]);

    let log = node.get_events();
    let seen: Vec<(u64, &str)> = log.iter().map(|e| (e.timestamp, e.query.as_str())).collect();
    assert_eq!(
        seen,
        vec![
            (10, "CREATE TABLE T(id INT PRIMARY KEY)"),
            (11, "INSERT INTO T VALUES (1)"),
            (15, "DELETE FROM T WHERE id == 5"),
        ]
    );

    let targets = node.record_event("UPDATE T SET id = 2 WHERE id == 1".to_string(), 16);
    assert_eq!(targets, vec!["http://r1".to_string(), "http://r2".to_string()]);
    assert_eq!(node.get_events().len(), 4);
    assert_eq!(node.propagation_targets(), targets);
    assert!(node.sync_plan().is_none());
}

#[test]
fn primary_refuses_events_and_replica_refuses_statements() {
    let mut primary = ReplicationManager::new(ReplicationConfig::new_primary(), Database::new());
    assert_eq!(
        primary.apply_events(vec![event(1, "CREATE TABLE T(id INT)")], &numeric),
        Err(ReplicationError::RoleViolation)
    );
    assert!(primary.get_events().is_empty());
    assert_eq!(primary.database().tables.len(), 0);

    let mut replica = ReplicationManager::new(
        ReplicationConfig::new_replica("http://p".to_string()),
        Database::new(),
    );
    assert!(matches!(
        replica.execute("CREATE TABLE T(id INT)".to_string(), 1, &numeric),
        Err(ReplicationError::RoleViolation)
    ));
    assert!(replica.record_event("CREATE TABLE T(id INT)".to_string(), 1).is_empty());
    assert!(replica.get_events().is_empty());
    assert!(replica.propagation_targets().is_empty());
    let plan = replica.sync_plan().unwrap();
    assert_eq!(plan.primary_url, "http://p");
    assert_eq!(plan.interval, 5);
}

#[test]
fn replica_replays_only_what_it_has_not_seen() {
    let mut replica = ReplicationManager::new(
        ReplicationConfig::new_replica("http://p".to_string()),
        Database::new(),
    );
    let first = vec![
        event(1, "CREATE TABLE T(id INT, v STRING)"),
        event(2, "INSERT INTO T VALUES (1, 'a')"),
    ];
    assert_eq!(replica.apply_events(first, &numeric), Ok(()));
    assert_eq!(replica.get_events().len(), 2);
    assert_eq!(values_of(replica.database(), "T").len(), 1);

    // a list of three when two are applied: only the third is replayed, once
    let longer = vec![
        event(1, "CREATE TABLE T(id INT, v STRING)"),
        event(2, "INSERT INTO T VALUES (1, 'a')"),
        event(3, "INSERT INTO T VALUES (1, 'a')"),
    ];
    assert_eq!(replica.apply_events(longer, &numeric), Ok(()));
    assert_eq!(replica.get_events().len(), 3);
    assert_eq!(
        values_of(replica.database(), "T"),
        vec![
            vec!["1".to_string(), "a".to_string()],
            vec!["1".to_string(), "a".to_string()]
        ]
    );

    // a list that is no longer than the log changes nothing
    let stale = vec![event(9, "CREATE TABLE U(id INT)")];
    assert_eq!(replica.apply_events(stale, &numeric), Ok(()));
    assert_eq!(replica.get_events().len(), 3);
    assert!(!replica.database().tables.contains_key("U"));
    assert_eq!(replica.apply_events(vec![], &numeric), Ok(()));
    assert_eq!(replica.get_events().len(), 3);
}

#[test]
fn replica_converges_to_the_checksum_of_the_primary() {
    let statements = [
        "CREATE TABLE Users(id INT PRIMARY KEY, name STRING, score FLOAT)",
        "INSERT INTO Users VALUES (1, 'Alice', 1.5)",
        "INSERT INTO Users VALUES (2, 'Bob', 2.5)",
        "INSERT INTO Users VALUES (2, 'Eve', 9)",
        "UPDATE Users SET name = 'Bobby' WHERE score > 2",
        "CREATE TABLE Logs(line STRING)",
        "INSERT INTO Logs VALUES ('x')",
        "DELETE FROM Users WHERE id == 1",
        "SELECT * FROM Users",
        "UPDATE Users SET id = 1 WHERE name == 'Bobby'",
    ];
    let mut primary = RpcServer::new(None);
    let mut early = RpcServer::new(Some(ReplicationConfig::new_replica("p".to_string())));
    let mut late = RpcServer::new(Some(ReplicationConfig::new_replica("p".to_string())));
    assert_eq!(primary.replication_checksum(), early.replication_checksum());

    let mut time = 100;
    for (i, statement) in statements.iter().enumerate() {
        let (answer, written) = primary.execute(statement.to_string(), time, &numeric);
        assert!(answer.success);
        assert_eq!(answer.message, "Query executed successfully");
        assert!(answer.rows.is_none());
        assert!(written.is_some());
        time += 1;
        if i % 3 == 0 {
            // this replica catches up now and then, and is handed some lists twice
            let log = primary.replication_get_events();
            assert_eq!(early.replication_apply_events(log.clone(), &numeric), Ok(true));
            assert_eq!(early.replication_apply_events(log, &numeric), Ok(true));
        }
    }
    let log = primary.replication_get_events();
    assert_eq!(log.len(), 8);
    assert_eq!(early.replication_apply_events(log.clone(), &numeric), Ok(true));
    assert_eq!(late.replication_apply_events(log, &numeric), Ok(true));

    let expected = primary.replication_checksum();
    assert_eq!(early.replication_checksum(), expected);
    assert_eq!(late.replication_checksum(), expected);
    assert_eq!(early.replication_get_events().len(), 8);
    assert_eq!(
        values_of(late.node().database(), "Users"),
        vec![vec!["1".to_string(), "Bobby".to_string(), "2.5".to_string()]]
    );
    assert_ne!(expected, checksum(&Database::new()));
}

#[test]
fn server_answers() {
    let mut primary = RpcServer::new(None);
    assert!(primary.is_primary());
    assert_eq!(primary.ping(), "pong");
    assert!(primary.list_tables().is_empty());
    primary.execute("CREATE TABLE A(x INT)".to_string(), 1, &numeric);
    primary.execute("CREATE TABLE B(x INT)".to_string(), 2, &numeric);
    assert_eq!(primary.list_tables(), vec!["A".to_string(), "B".to_string()]);
    assert!(primary.replication_register_replica("http://r".to_string()));
    assert_eq!(
        primary.replication_apply_events(vec![], &numeric),
        Err(ReplicationError::RoleViolation)
    );

    let mut replica = RpcServer::new(Some(ReplicationConfig::new_replica("p".to_string())));
    assert!(!replica.is_primary());
    let (answer, outcome): (QueryResponse, Option<Written>) =
        replica.execute("CREATE TABLE A(x INT)".to_string(), 1, &numeric);
    assert!(!answer.success);
    assert_eq!(
        answer.message,
        "This is a replica server. Write operations are only allowed on the primary server."
    );
    assert!(answer.rows.is_none());
    assert!(outcome.is_none());
    assert!(replica.list_tables().is_empty());
    assert!(!replica.replication_register_replica("http://r".to_string()));
    assert!(replica.node().propagation_targets().is_empty());
}

#[test]
fn demo_database_has_three_products() {
    let db = init_demo_database(&numeric);
    assert_eq!(db.tables.len(), 1);
    assert_eq!(
        values_of(&db, "Products"),
        vec![
            vec!["1".to_string(), "Pen".to_string(), "2.5".to_string(), "100".to_string()],
            vec!["2".to_string(), "Pencil".to_string(), "1.2".to_string(), "50".to_string()],
            vec!["3".to_string(), "Eraser".to_string(), "0.8".to_string(), "30".to_string()],
        ]
    );
    let products = db.tables.get("Products").unwrap();
    assert_eq!(products.primary_key, Some("id".to_string()));
    assert!(products.unique_columns.is_empty());
}

#[test]
fn checksum_does_not_depend_on_the_order_in_which_tables_were_made() {
    let mut first = Database::new();
    for statement in [
        "CREATE TABLE a(id INT PRIMARY KEY, v STRING)",
        "CREATE TABLE b(x FLOAT)",
        "CREATE TABLE c(y STRING)",
        "INSERT INTO a VALUES (1, 'one')",
        "INSERT INTO b VALUES (2.5)",
        "INSERT INTO a VALUES (2, 'two')",
    ] {
        execute_sql(&mut first, statement, &numeric);
    }
    let mut second = Database::new();
    for statement in [
        "CREATE TABLE c(y STRING)",
        "CREATE TABLE b(x FLOAT)",
        "INSERT INTO b VALUES (2.5)",
        "CREATE TABLE a(id INT PRIMARY KEY, v STRING)",
        "INSERT INTO a VALUES (1, 'one')",
        "INSERT INTO a VALUES (2, 'two')",
    ] {
        execute_sql(&mut second, statement, &numeric);
    }
    assert_ne!(first.tables.keys(), second.tables.keys());
    assert_eq!(checksum(&first), checksum(&second));
    // rows in another order are another database
    let mut third = Database::new();
    for statement in [
        "CREATE TABLE a(id INT PRIMARY KEY, v STRING)",
        "CREATE TABLE b(x FLOAT)",
        "CREATE TABLE c(y STRING)",
        "INSERT INTO a VALUES (2, 'two')",
        "INSERT INTO a VALUES (1, 'one')",
        "INSERT INTO b VALUES (2.5)",
    ] {
        execute_sql(&mut third, statement, &numeric);
    }
    assert_ne!(checksum(&first), checksum(&third));
}
