//! The execution of statements on a database.
//!
//! A statement is carried out as a whole or not at all. A text that states
//! no statement, a statement on a table that does not exist, a statement
//! that does not fit its table, and the making of a table under a name that
//! is taken change nothing; the outcome says which it was.

use crate::database::{
    all_aligned,
    all_consistent,
    all_well_typed,
    entry_index,
    table_named,
    lemma_entry_facts,
    names,
    names_distinct,
    new_table,
    replaced,
    stored,
    Catalog,
    Database,
    DatabaseInterface,
};
use crate::query::{
    compares_numbers,
    compiled,
    ordered_by,
    query_to_predicate,
    NumOrder,
    Predicate,
    PredicateSpec,
};
use crate::render::{list_text, render_list, selection_text};
use crate::row::RowInterface;
use crate::schema::{column_index, column_names, find_column, ColumnSpec, Schema};
use crate::sql::{parse_statement, parsed, Statement, StatementSpec};
use crate::table::{InsertOutcome, Table, UpdateOutcome};
use crate::text::texts;
use vstd::prelude::*;

verus! {

/// What became of a statement.
#[derive(Debug)]
pub enum Outcome {
    /// The text states no statement.
    Malformed,
    /// The statement names a table that does not exist.
    NoSuchTable,
    /// The statement does not fit the table: it has a list of columns that
    /// is not the table's, or an assignment to a column that the table does
    /// not have.
    Mismatch,
    /// A table is stored under the name; it stays as it is.
    TableExists,
    /// The table was made.
    Created,
    /// The insert was tried, with this outcome.
    Insert(InsertOutcome),
    /// The update was tried, with this outcome.
    Update(UpdateOutcome),
    /// The matching rows were removed.
    Deleted,
    /// The matching rows, laid out as a table.
    Rows(String),
    /// The names of the tables, laid out as a list.
    Tables(String),
}

/// What an outcome is, as contracts see it.
pub enum OutcomeSpec {
    Malformed,
    NoSuchTable,
    Mismatch,
    TableExists,
    Created,
    Insert(InsertOutcome),
    Update(UpdateOutcome),
    Deleted,
    Rows(Seq<char>),
    Tables(Seq<char>),
}

impl View for Outcome {
    type V = OutcomeSpec;

    open spec fn view(&self) -> OutcomeSpec {
        match self {
            Outcome::Malformed => OutcomeSpec::Malformed,
            Outcome::NoSuchTable => OutcomeSpec::NoSuchTable,
            Outcome::Mismatch => OutcomeSpec::Mismatch,
            Outcome::TableExists => OutcomeSpec::TableExists,
            Outcome::Created => OutcomeSpec::Created,
            Outcome::Insert(o) => OutcomeSpec::Insert(*o),
            Outcome::Update(o) => OutcomeSpec::Update(*o),
            Outcome::Deleted => OutcomeSpec::Deleted,
            Outcome::Rows(text) => OutcomeSpec::Rows(text@),
            Outcome::Tables(text) => OutcomeSpec::Tables(text@),
        }
    }
}

/// The mark that a predicate gives to each row.
pub open spec fn matching(
    rows: Seq<Seq<Seq<char>>>,
    predicate: PredicateSpec,
    order: spec_fn(Seq<char>, Seq<char>) -> NumOrder,
) -> Seq<bool> {
    Seq::new(rows.len(), |r: int| predicate.holds(rows[r], order))
}

/// The values of an update that changes nothing: an empty text for each
/// column.
pub open spec fn unchanged(columns: int) -> Seq<Seq<char>> {
    Seq::new(
        if columns > 0 {
            columns as nat
        } else {
            0
        },
        |i: int| Seq::<char>::empty(),
    )
}

/// The values of the update that the first `count` assignments ask for: for
/// each assigned column its literal, at the column's index, and an empty
/// text for every other column. Of two assignments to one column the later
/// one counts. There are no such values where an assignment names a column
/// that the schema does not have.
pub open spec fn assigned(
    schema: Seq<ColumnSpec>,
    assignments: Seq<(Seq<char>, Seq<char>)>,
    count: int,
) -> Option<Seq<Seq<char>>>
    decreases count,
{
    if count <= 0 {
        Some(unchanged(schema.len() as int))
    } else {
        match (
            assigned(schema, assignments, count - 1),
            column_index(schema, assignments[count - 1].0),
        ) {
            (Some(values), Some(k)) => Some(values.update(k, assignments[count - 1].1)),
            _ => None,
        }
    }
}

/// The predicate of a statement with an optional clause: without a clause
/// it holds of every row.
pub open spec fn filter_of(schema: Seq<ColumnSpec>, filter: Option<Seq<char>>) -> PredicateSpec {
    match filter {
        Some(clause) => compiled(schema, clause),
        None => PredicateSpec::Always,
    }
}

/// Whether an insert fits the table: its list of columns, if it has one,
/// names the columns of the table in their order. That it has a value for
/// each column is for the table to check.
pub open spec fn insert_fits(schema: Seq<ColumnSpec>, column_list: Option<Seq<Seq<char>>>) -> bool {
    column_list matches Some(list) ==> list == column_names(schema)
}

/// The rows that a statement marks and the predicate by which it marks
/// them: the rows of its table and its compiled clause, for an update that
/// fits its table, a delete and a selection. No other statement marks rows.
pub open spec fn clause_of(db: Catalog, statement: StatementSpec) -> Option<
    (Seq<Seq<Seq<char>>>, PredicateSpec),
> {
    match statement {
        StatementSpec::Update { table, assignments, clause } => match table_named(db, table) {
            Some(t) => if assigned(t.schema, assignments, assignments.len() as int) is Some {
                Some((t.rows, compiled(t.schema, clause)))
            } else {
                None
            },
            None => None,
        },
        StatementSpec::Delete { table, clause } => match table_named(db, table) {
            Some(t) => Some((t.rows, compiled(t.schema, clause))),
            None => None,
        },
        StatementSpec::Select { table, columns, filter } => match table_named(db, table) {
            Some(t) => Some((t.rows, filter_of(t.schema, filter))),
            None => None,
        },
        _ => None,
    }
}

/// The marks that a statement gives to the rows it marks, where `order`
/// tells how two numbers stand to each other; no marks where it marks no
/// rows.
pub open spec fn marks_for(
    db: Catalog,
    statement: StatementSpec,
    order: spec_fn(Seq<char>, Seq<char>) -> NumOrder,
) -> Seq<bool> {
    match clause_of(db, statement) {
        Some(marked) => matching(marked.0, marked.1, order),
        None => Seq::empty(),
    }
}

/// `marks` has a mark for each row, and each mark is how `predicate` judges
/// the row at its index where it asks `f` for the order of numbers.
pub open spec fn judged_marks<F: Fn(&str, &str) -> NumOrder>(
    f: F,
    predicate: PredicateSpec,
    rows: Seq<Seq<Seq<char>>>,
    marks: Seq<bool>,
) -> bool {
    &&& marks.len() == rows.len()
    &&& forall|r: int| 0 <= r < rows.len() ==> predicate.judges(rows[r], f, #[trigger] marks[r])
}

/// `marks` are marks that a statement gave to the rows it marks, where it
/// asked `f` for the order of numbers; there are none where it marks no
/// rows.
pub open spec fn judged_for<F: Fn(&str, &str) -> NumOrder>(
    f: F,
    db: Catalog,
    statement: StatementSpec,
    marks: Seq<bool>,
) -> bool {
    match clause_of(db, statement) {
        Some(marked) => judged_marks(f, marked.1, marked.0, marks),
        None => marks.len() == 0,
    }
}

/// What a statement does to a database, and its outcome, where `marks`
/// are the marks that it gives to the rows of its table.
pub open spec fn effect_with(db: Catalog, statement: StatementSpec, marks: Seq<bool>) -> (
    Catalog,
    OutcomeSpec,
) {
    match statement {
        StatementSpec::CreateTable { table, schema, primary_key, unique_columns } => (
            stored(db, table, new_table(table, schema, primary_key, unique_columns)),
            if table_named(db, table) is Some {
                OutcomeSpec::TableExists
            } else {
                OutcomeSpec::Created
            },
        ),
        StatementSpec::Insert { table, column_list, values } => match entry_index(db, table) {
            None => (db, OutcomeSpec::NoSuchTable),
            Some(i) => {
                let t = db[i].1;
                if insert_fits(t.schema, column_list) {
                    (
                        replaced(db, i, t.after_insert(values)),
                        OutcomeSpec::Insert(t.insert_outcome(values)),
                    )
                } else {
                    (db, OutcomeSpec::Mismatch)
                }
            },
        },
        StatementSpec::Update { table, assignments, clause } => match entry_index(db, table) {
            None => (db, OutcomeSpec::NoSuchTable),
            Some(i) => {
                let t = db[i].1;
                match assigned(t.schema, assignments, assignments.len() as int) {
                    None => (db, OutcomeSpec::Mismatch),
                    Some(values) => (
                        replaced(db, i, t.after_update(values, marks)),
                        OutcomeSpec::Update(t.update_outcome(values, marks)),
                    ),
                }
            },
        },
        StatementSpec::Delete { table, clause } => match entry_index(db, table) {
            None => (db, OutcomeSpec::NoSuchTable),
            Some(i) => (replaced(db, i, db[i].1.after_delete(marks)), OutcomeSpec::Deleted),
        },
        StatementSpec::Select { table, columns, filter } => match entry_index(db, table) {
            None => (db, OutcomeSpec::NoSuchTable),
            Some(i) => (db, OutcomeSpec::Rows(selection_text(db[i].1, columns, marks))),
        },
        StatementSpec::ListTables => (db, OutcomeSpec::Tables(list_text(names(db)))),
    }
}

/// What a statement does to a database, and its outcome, where `order`
/// tells how two texts stand to each other as floating-point numbers.
pub open spec fn effect(
    db: Catalog,
    statement: StatementSpec,
    order: spec_fn(Seq<char>, Seq<char>) -> NumOrder,
) -> (Catalog, OutcomeSpec) {
    effect_with(db, statement, marks_for(db, statement, order))
}

/// Whether a statement compares numbers with a fraction on the database,
/// and so asks for their order: it marks rows by a clause that compares such
/// numbers.
pub open spec fn asks_order(db: Catalog, statement: StatementSpec) -> bool {
    clause_of(db, statement) matches Some(marked) && marked.1.asks_order()
}

/// What the statement that `sql` states does to a database, and its
/// outcome, where `marks` are the marks that it gives to the rows of its
/// table. A text that states no statement does nothing.
pub open spec fn executed_with(db: Catalog, sql: Seq<char>, marks: Seq<bool>) -> (
    Catalog,
    OutcomeSpec,
) {
    match parsed(sql) {
        Some(statement) => effect_with(db, statement, marks),
        None => (db, OutcomeSpec::Malformed),
    }
}

/// `marks` are marks that the statement that `sql` states gave to the rows
/// it marks, where it asked `f` for the order of numbers.
pub open spec fn judged_text<F: Fn(&str, &str) -> NumOrder>(
    f: F,
    db: Catalog,
    sql: Seq<char>,
    marks: Seq<bool>,
) -> bool {
    match parsed(sql) {
        Some(statement) => judged_for(f, db, statement, marks),
        None => marks.len() == 0,
    }
}

/// Marks that were given by asking a function that computes an order, or
/// without asking, are the marks for that order.
pub proof fn lemma_judged_marks<F: Fn(&str, &str) -> NumOrder>(
    f: F,
    predicate: PredicateSpec,
    rows: Seq<Seq<Seq<char>>>,
    marks: Seq<bool>,
    order: spec_fn(Seq<char>, Seq<char>) -> NumOrder,
)
    requires
        judged_marks(f, predicate, rows, marks),
        ordered_by(f, order) || !predicate.asks_order(),
    ensures
        marks == matching(rows, predicate, order),
{
    assert forall|r: int| 0 <= r < rows.len() implies marks[r] == predicate.holds(
        rows[r],
        order,
    ) by {
        crate::query::lemma_judged_holds(predicate, rows[r], f, marks[r], order);
    }
    assert(marks =~= matching(rows, predicate, order));
}

/// What a statement did with marks that it was given by a function that
/// computes an order, or without asking, is what it does for that order.
pub proof fn lemma_judged_effect<F: Fn(&str, &str) -> NumOrder>(
    f: F,
    db: Catalog,
    statement: StatementSpec,
    marks: Seq<bool>,
    order: spec_fn(Seq<char>, Seq<char>) -> NumOrder,
)
    requires
        judged_for(f, db, statement, marks),
        ordered_by(f, order) || !asks_order(db, statement),
    ensures
        effect_with(db, statement, marks) == effect(db, statement, order),
{
    lemma_entry_facts(db);
    match clause_of(db, statement) {
        Some(marked) => {
            lemma_judged_marks(f, marked.1, marked.0, marks, order);
        },
        None => {
            assert(marks =~= Seq::<bool>::empty());
        },
    }
}

/// Whether the statement that a text states asks for the order of numbers
/// with a fraction.
pub open spec fn text_asks_order(db: Catalog, sql: Seq<char>) -> bool {
    match parsed(sql) {
        Some(statement) => asks_order(db, statement),
        None => false,
    }
}

/// What the statement that `sql` states does to a database, and its
/// outcome. A text that states no statement does nothing.
pub open spec fn executed(
    db: Catalog,
    sql: Seq<char>,
    order: spec_fn(Seq<char>, Seq<char>) -> NumOrder,
) -> (Catalog, OutcomeSpec) {
    match parsed(sql) {
        Some(statement) => effect(db, statement, order),
        None => (db, OutcomeSpec::Malformed),
    }
}

/// What a statement keeps of a database, where it held before: that no name
/// is stored twice, that no primary key or value of a unique column occurs
/// twice, that every value is of its column's type, and that every row has
/// one value for each column.
pub open spec fn kept(before: Catalog, after: Catalog) -> bool {
    &&& names_distinct(before) ==> names_distinct(after)
    &&& all_consistent(before) ==> all_consistent(after)
    &&& all_well_typed(before) ==> all_well_typed(after)
    &&& all_aligned(before) ==> all_aligned(after)
}

/// What the statement of a text did with marks that it was given by a
/// function that computes an order, or without asking, is what it does for
/// that order.
pub proof fn lemma_judged_executed<F: Fn(&str, &str) -> NumOrder>(
    f: F,
    db: Catalog,
    sql: Seq<char>,
    marks: Seq<bool>,
    order: spec_fn(Seq<char>, Seq<char>) -> NumOrder,
)
    requires
        judged_text(f, db, sql, marks),
        ordered_by(f, order) || !text_asks_order(db, sql),
    ensures
        executed_with(db, sql, marks) == executed(db, sql, order),
{
    match parsed(sql) {
        Some(statement) => {
            lemma_judged_effect(f, db, statement, marks, order);
        },
        None => {},
    }
}

/// No statement, whatever its text and whatever the order of numbers,
/// breaks what a database holds: after it, as before, no name is stored
/// twice, no primary key or value of a unique column occurs twice, every
/// value is of its column's type, and every row has one value for each
/// column.
pub proof fn lemma_executed_keeps(
    db: Catalog,
    sql: Seq<char>,
    order: spec_fn(Seq<char>, Seq<char>) -> NumOrder,
)
    ensures
        kept(db, executed(db, sql, order).0),
{
    lemma_entry_facts(db);
    match parsed(sql) {
        Some(StatementSpec::CreateTable { table, schema, primary_key, unique_columns }) => {
            let t = new_table(table, schema, primary_key, unique_columns);
            assert(t.consistent() && t.well_typed() && t.aligned());
            crate::database::lemma_stored(db, table, t);
        },
        Some(StatementSpec::Insert { table, column_list, values }) => {
            if let Some(i) = entry_index(db, table) {
                if insert_fits(db[i].1.schema, column_list) {
                    crate::table::lemma_insert_keeps(db[i].1, values);
                    crate::database::lemma_replaced(db, i, db[i].1.after_insert(values));
                }
            }
        },
        Some(StatementSpec::Update { table, assignments, clause }) => {
            if let Some(i) = entry_index(db, table) {
                let t = db[i].1;
                if let Some(values) = assigned(t.schema, assignments, assignments.len() as int) {
                    let marks = matching(t.rows, compiled(t.schema, clause), order);
                    crate::table::lemma_update_keeps(t, values, marks);
                    crate::database::lemma_replaced(db, i, t.after_update(values, marks));
                }
            }
        },
        Some(StatementSpec::Delete { table, clause }) => {
            if let Some(i) = entry_index(db, table) {
                let t = db[i].1;
                let marks = matching(t.rows, compiled(t.schema, clause), order);
                crate::table::lemma_delete_keeps(t, marks);
                crate::database::lemma_replaced(db, i, t.after_delete(marks));
            }
        },
        _ => {},
    }
}

/// The mark that `predicate` gives to each row of `table`: how it judges
/// the row, asking `float_order` where it compares two numbers with a
/// fraction.
pub fn mark_matching<F: Fn(&str, &str) -> NumOrder>(
    table: &Table,
    predicate: &Predicate,
    float_order: &F,
) -> (marks: Vec<bool>)
    requires
        compares_numbers(*float_order),
    ensures
        judged_marks(*float_order, predicate@, table@.rows, marks@),
        forall|order: spec_fn(Seq<char>, Seq<char>) -> NumOrder| #[trigger]
            ordered_by(*float_order, order) ==> marks@ == matching(
                table@.rows,
                predicate@,
                order,
            ),
        forall|order: spec_fn(Seq<char>, Seq<char>) -> NumOrder|
            !predicate@.asks_order() ==> marks@ == #[trigger] matching(
                table@.rows,
                predicate@,
                order,
            ),
{
    let mut marks: Vec<bool> = Vec::new();
    let mut r: usize = 0;
    while r < table.rows.len()
        invariant
            r <= table.rows.len(),
            compares_numbers(*float_order),
            judged_marks(*float_order, predicate@, table@.rows.take(r as int), marks@),
        decreases table.rows.len() - r,
    {
        let ghost before = marks@;
        let b = predicate.matches(table.rows[r].get_values(), float_order);
        marks.push(b);
        proof {
            let rows = table@.rows.take(r + 1);
            assert forall|k: int| 0 <= k < rows.len() implies predicate@.judges(
                rows[k],
                *float_order,
                #[trigger] marks@[k],
            ) by {
                if k < r {
                    assert(rows[k] == table@.rows.take(r as int)[k]);
                    assert(marks@[k] == before[k]);
                }
            }
        }
        r += 1;
    }
    assert(table@.rows.take(r as int) == table@.rows);
    proof {
        assert forall|order: spec_fn(Seq<char>, Seq<char>) -> NumOrder| #[trigger]
            ordered_by(*float_order, order) implies marks@ == matching(
            table@.rows,
            predicate@,
            order,
        ) by {
            lemma_judged_marks(*float_order, predicate@, table@.rows, marks@, order);
        }
        assert forall|order: spec_fn(Seq<char>, Seq<char>) -> NumOrder|
            !predicate@.asks_order() implies marks@ == #[trigger] matching(
            table@.rows,
            predicate@,
            order,
        ) by {
            lemma_judged_marks(*float_order, predicate@, table@.rows, marks@, order);
        }
    }
    marks
}

/// Whether two lists hold the same texts.
fn same_texts(a: &Vec<String>, b: &Vec<String>) -> (r: bool)
    ensures
        r == (texts(a@) == texts(b@)),
{
    if a.len() != b.len() {
        assert(texts(a@).len() != texts(b@).len());
        return false;
    }
    let mut i: usize = 0;
    while i < a.len()
        invariant
            i <= a.len(),
            a.len() == b.len(),
            forall|k: int| 0 <= k < i ==> texts(a@)[k] == texts(b@)[k],
        decreases a.len() - i,
    {
        if a[i] != b[i] {
            assert(texts(a@)[i as int] != texts(b@)[i as int]);
            return false;
        }
        i += 1;
    }
    assert(texts(a@) =~= texts(b@));
    true
}

/// The values of the update that `assignments` ask for.
fn assign(schema: &Schema, assignments: &Vec<(String, String)>) -> (r: Option<Vec<String>>)
    ensures
        match r {
            Some(values) => assigned(
                schema@,
                crate::table::named_row(assignments@),
                assignments@.len() as int,
            ) == Some(texts(values@)) && values@.len() == schema@.len(),
            None => assigned(
                schema@,
                crate::table::named_row(assignments@),
                assignments@.len() as int,
            ) is None,
        },
{
    let ghost pairs = crate::table::named_row(assignments@);
    let mut values: Vec<String> = Vec::new();
    let mut c: usize = 0;
    while c < schema.columns.len()
        invariant
            c <= schema.columns.len(),
            values@.len() == c,
            forall|k: int| 0 <= k < c ==> (#[trigger] values@[k])@ == Seq::<char>::empty(),
        decreases schema.columns.len() - c,
    {
        values.push(String::new());
        c += 1;
    }
    assert(texts(values@) =~= unchanged(schema@.len() as int));
    let mut i: usize = 0;
    while i < assignments.len()
        invariant
            i <= assignments.len(),
            pairs == crate::table::named_row(assignments@),
            values@.len() == schema@.len(),
            assigned(schema@, pairs, i as int) == Some(texts(values@)),
        decreases assignments.len() - i,
    {
        match find_column(schema.columns.as_slice(), assignments[i].0.as_str()) {
            Some(k) => {
                let ghost before = texts(values@);
                values[k] = assignments[i].1.clone();
                assert(texts(values@) =~= before.update(k as int, pairs[i as int].1));
            },
            None => {
                proof {
                    lemma_assigned_none(schema@, pairs, i + 1, assignments@.len() as int);
                }
                return None;
            },
        }
        i += 1;
    }
    Some(values)
}

/// Where the first assignments ask for no values, more of them ask for none
/// either.
pub proof fn lemma_assigned_none(
    schema: Seq<ColumnSpec>,
    assignments: Seq<(Seq<char>, Seq<char>)>,
    count: int,
    more: int,
)
    requires
        count <= more,
        assigned(schema, assignments, count) is None,
    ensures
        assigned(schema, assignments, more) is None,
    decreases more - count,
{
    if count < more {
        lemma_assigned_none(schema, assignments, count, more - 1);
    }
}

/// Carries out a statement on a database.
pub fn execute_statement<F: Fn(&str, &str) -> NumOrder>(
    db: &mut Database,
    statement: Statement,
    float_order: &F,
) -> (r: Outcome)
    requires
        compares_numbers(*float_order),
    ensures
        exists|marks: Seq<bool>| #[trigger]
            judged_for(*float_order, old(db)@, statement@, marks) && (final(db)@, r@)
                == effect_with(old(db)@, statement@, marks),
        forall|order: spec_fn(Seq<char>, Seq<char>) -> NumOrder| #[trigger]
            ordered_by(*float_order, order) ==> (final(db)@, r@) == effect(
                old(db)@,
                statement@,
                order,
            ),
        forall|order: spec_fn(Seq<char>, Seq<char>) -> NumOrder|
            !asks_order(old(db)@, statement@) ==> (final(db)@, r@) == #[trigger] effect(
                old(db)@,
                statement@,
                order,
            ),
        kept(old(db)@, final(db)@),
{
    let ghost before = db@;
    let ghost st = statement@;
    let ghost none = Seq::<bool>::empty();
    proof {
        lemma_entry_facts(before);
        if clause_of(before, st) is None {
            assert(judged_for(*float_order, before, st, none));
        }
    }
    match statement {
        Statement::CreateTable { table, schema, primary_key, unique_columns } => {
            if db.create_table_with_constraints(
                table.as_str(),
                schema,
                primary_key,
                unique_columns,
            ) {
                Outcome::Created
            } else {
                Outcome::TableExists
            }
        },
        Statement::Insert { table, column_list, values } => {
            let fits = match db.tables.get(table.as_str()) {
                None => {
                    return Outcome::NoSuchTable;
                },
                Some(t) => {
                    match &column_list {
                        Some(list) => same_texts(list, &crate::database::schema_names(&t.schema)),
                        None => true,
                    }
                },
            };
            if !fits {
                return Outcome::Mismatch;
            }
            match db.tables.add_row(table.as_str(), values) {
                Some(outcome) => Outcome::Insert(outcome),
                None => Outcome::NoSuchTable,
            }
        },
        Statement::Update { table, assignments, clause } => {
            let (values, marks) = match db.tables.get(table.as_str()) {
                None => {
                    return Outcome::NoSuchTable;
                },
                Some(t) => {
                    match assign(&t.schema, &assignments) {
                        None => {
                            return Outcome::Mismatch;
                        },
                        Some(values) => {
                            let predicate = query_to_predicate(
                                t.schema.columns.as_slice(),
                                clause.as_str(),
                            );
                            (values, mark_matching(t, &predicate, float_order))
                        },
                    }
                },
            };
            assert(judged_for(*float_order, before, st, marks@));
            match db.tables.update_marked(table.as_str(), &values, &marks) {
                Some(outcome) => Outcome::Update(outcome),
                None => Outcome::NoSuchTable,
            }
        },
        Statement::Delete { table, clause } => {
            let marks = match db.tables.get(table.as_str()) {
                None => {
                    return Outcome::NoSuchTable;
                },
                Some(t) => {
                    let predicate = query_to_predicate(
                        t.schema.columns.as_slice(),
                        clause.as_str(),
                    );
                    mark_matching(t, &predicate, float_order)
                },
            };
            assert(judged_for(*float_order, before, st, marks@));
            if db.tables.delete_marked(table.as_str(), &marks) {
                Outcome::Deleted
            } else {
                Outcome::NoSuchTable
            }
        },
        Statement::Select { table, columns, filter } => {
            let marks = match db.tables.get(table.as_str()) {
                None => {
                    return Outcome::NoSuchTable;
                },
                Some(t) => {
                    let predicate = match &filter {
                        Some(clause) => query_to_predicate(
                            t.schema.columns.as_slice(),
                            clause.as_str(),
                        ),
                        None => Predicate::Always,
                    };
                    mark_matching(t, &predicate, float_order)
                },
            };
            assert(judged_for(*float_order, before, st, marks@));
            match db.select_marked(table.as_str(), &columns, &marks) {
                Some(text) => Outcome::Rows(text),
                None => Outcome::NoSuchTable,
            }
        },
        Statement::ListTables => {
            let names = db.tables.keys();
            Outcome::Tables(render_list(&names))
        },
    }
}

/// Reads the statement that `sql` states and carries it out on `db`. Two
/// numbers with a fraction are compared by `float_order`. A text that states
/// no statement changes nothing. The result is what `executed` says for the
/// order that `float_order` computes; where the statement compares no such
/// numbers it is what `executed` says for any order.
pub fn execute_sql<F: Fn(&str, &str) -> NumOrder>(db: &mut Database, sql: &str, float_order: &F)
    -> (r: Outcome)
    requires
        compares_numbers(*float_order),
    ensures
        exists|marks: Seq<bool>| #[trigger]
            judged_text(*float_order, old(db)@, sql@, marks) && (final(db)@, r@) == executed_with(
                old(db)@,
                sql@,
                marks,
            ),
        forall|order: spec_fn(Seq<char>, Seq<char>) -> NumOrder| #[trigger]
            ordered_by(*float_order, order) ==> (final(db)@, r@) == executed(
                old(db)@,
                sql@,
                order,
            ),
        forall|order: spec_fn(Seq<char>, Seq<char>) -> NumOrder|
            !text_asks_order(old(db)@, sql@) ==> (final(db)@, r@) == #[trigger] executed(
                old(db)@,
                sql@,
                order,
            ),
        kept(old(db)@, final(db)@),
{
    match parse_statement(sql) {
        Some(statement) => {
            let ghost st = statement@;
            let r = execute_statement(db, statement, float_order);
            proof {
                let marks = choose|marks: Seq<bool>| #[trigger]
                    judged_for(*float_order, old(db)@, st, marks) && (db@, r@) == effect_with(
                        old(db)@,
                        st,
                        marks,
                    );
                assert(judged_text(*float_order, old(db)@, sql@, marks));
            }
            r
        },
        None => {
            assert(judged_text(*float_order, old(db)@, sql@, Seq::<bool>::empty()));
            Outcome::Malformed
        },
    }
}

} // verus!
