//! The catalog: the tables of a database by name.

use crate::render::{list_text, render_list, render_selection, selection_text};
use crate::schema::{column_names, ColumnSchema, Schema};
use crate::table::{
    answered_by,
    decided_by,
    marks_of,
    name_view,
    InsertOutcome,
    Table,
    TableInterface,
    TableSpec,
    UpdateOutcome,
};
use crate::text::{str_eq, texts};
use vstd::prelude::*;

verus! {

/// The tables of a database, each under the name it was stored with. A name
/// is found by exact comparison, and no name is stored twice.
#[derive(Debug)]
pub struct TableMap {
    entries: Vec<(String, Table)>,
}

/// A database: a catalog of tables.
#[derive(Debug)]
pub struct Database {
    pub tables: TableMap,
}

/// What a catalog is, as contracts see it: the names with their tables, in
/// the order in which the names were first stored.
pub type Catalog = Seq<(Seq<char>, TableSpec)>;

/// The index of the first entry at or after `from` that is stored under
/// `name`.
pub open spec fn entry_index_from(entries: Catalog, name: Seq<char>, from: int) -> Option<int>
    decreases entries.len() - from,
{
    if from < 0 || from >= entries.len() {
        None
    } else if entries[from].0 == name {
        Some(from)
    } else {
        entry_index_from(entries, name, from + 1)
    }
}

/// The index of the entry that is stored under `name`.
pub open spec fn entry_index(entries: Catalog, name: Seq<char>) -> Option<int> {
    entry_index_from(entries, name, 0)
}

/// The table that is stored under `name`.
pub open spec fn table_named(entries: Catalog, name: Seq<char>) -> Option<TableSpec> {
    match entry_index(entries, name) {
        Some(i) => Some(entries[i].1),
        None => None,
    }
}

/// The catalog with `table` stored under `name` at its end; the catalog as
/// it is where the name is taken: a table that is stored stays.
pub open spec fn stored(entries: Catalog, name: Seq<char>, table: TableSpec) -> Catalog {
    match entry_index(entries, name) {
        Some(i) => entries,
        None => entries.push((name, table)),
    }
}

/// The catalog with `table` in the place of the table at index `i`.
pub open spec fn replaced(entries: Catalog, i: int, table: TableSpec) -> Catalog {
    entries.update(i, (entries[i].0, table))
}

/// The names under which the tables are stored, in order.
pub open spec fn names(entries: Catalog) -> Seq<Seq<char>> {
    Seq::new(entries.len(), |i: int| entries[i].0)
}

/// No name is stored twice.
pub open spec fn names_distinct(entries: Catalog) -> bool {
    forall|i: int, j: int| 0 <= i < j < entries.len() ==> entries[i].0 != entries[j].0
}

/// Every table keeps its primary key and its unique columns free of values
/// that occur twice.
pub open spec fn all_consistent(entries: Catalog) -> bool {
    forall|i: int| 0 <= i < entries.len() ==> (#[trigger] entries[i]).1.consistent()
}

/// Every value of every table is written as a value of its column's type.
pub open spec fn all_well_typed(entries: Catalog) -> bool {
    forall|i: int| 0 <= i < entries.len() ==> (#[trigger] entries[i]).1.well_typed()
}

/// Every row of every table has one value for each column.
pub open spec fn all_aligned(entries: Catalog) -> bool {
    forall|i: int| 0 <= i < entries.len() ==> (#[trigger] entries[i]).1.aligned()
}

/// Where a name is found from `from` on, it is found at its first entry
/// there; where it is not found, no entry there has it.
pub proof fn lemma_entry_index(entries: Catalog, name: Seq<char>, from: int)
    requires
        0 <= from,
    ensures
        match entry_index_from(entries, name, from) {
            Some(i) => from <= i < entries.len() && entries[i].0 == name && forall|j: int|
                from <= j < i ==> entries[j].0 != name,
            None => forall|j: int| from <= j < entries.len() ==> entries[j].0 != name,
        },
    decreases entries.len() - from,
{
    if from < entries.len() && entries[from].0 != name {
        lemma_entry_index(entries, name, from + 1);
    }
}

/// What is known of every catalog: the index of an entry lies within it.
pub proof fn lemma_entry_facts(db: Catalog)
    ensures
        forall|name: Seq<char>|
            (#[trigger] entry_index(db, name)) is Some ==> 0 <= entry_index(db, name).unwrap()
                < db.len() && db[entry_index(db, name).unwrap()].0 == name,
{
    assert forall|name: Seq<char>| (#[trigger] entry_index(db, name)) is Some implies 0
        <= entry_index(db, name).unwrap() < db.len() && db[entry_index(db, name).unwrap()].0
        == name by {
        lemma_entry_index(db, name, 0);
    }
}

/// A table that is put in the place of another keeps what the catalog
/// holds, where it keeps what the table held.
pub proof fn lemma_replaced(entries: Catalog, i: int, table: TableSpec)
    requires
        0 <= i < entries.len(),
        entries[i].1.consistent() ==> table.consistent(),
        entries[i].1.well_typed() ==> table.well_typed(),
        entries[i].1.aligned() ==> table.aligned(),
    ensures
        preserved(entries, replaced(entries, i, table)),
{
    let after = replaced(entries, i, table);
    assert(names(after) =~= names(entries));
    if all_consistent(entries) {
        assert forall|j: int| 0 <= j < after.len() implies (#[trigger] after[j]).1.consistent() by {
            if j != i {
                assert(after[j] == entries[j]);
            } else {
                assert(entries[i].1.consistent());
            }
        }
    }
    if all_well_typed(entries) {
        assert forall|j: int| 0 <= j < after.len() implies (#[trigger] after[j]).1.well_typed() by {
            if j != i {
                assert(after[j] == entries[j]);
            } else {
                assert(entries[i].1.well_typed());
            }
        }
    }
    if all_aligned(entries) {
        assert forall|j: int| 0 <= j < after.len() implies (#[trigger] after[j]).1.aligned() by {
            if j != i {
                assert(after[j] == entries[j]);
            } else {
                assert(entries[i].1.aligned());
            }
        }
    }
}

/// A table that is stored keeps what the catalog holds, where the table
/// holds it too, and changes no table that was stored.
pub proof fn lemma_stored(entries: Catalog, name: Seq<char>, table: TableSpec)
    ensures
        names_distinct(entries) ==> names_distinct(stored(entries, name, table)),
        all_consistent(entries) && table.consistent() ==> all_consistent(
            stored(entries, name, table),
        ),
        all_well_typed(entries) && table.well_typed() ==> all_well_typed(
            stored(entries, name, table),
        ),
        all_aligned(entries) && table.aligned() ==> all_aligned(stored(entries, name, table)),
        forall|other: Seq<char>|
            table_named(entries, other) is Some ==> #[trigger] table_named(
                stored(entries, name, table),
                other,
            ) == table_named(entries, other),
        table_named(entries, name) is None ==> table_named(stored(entries, name, table), name)
            == Some(table),
{
    let after = stored(entries, name, table);
    lemma_entry_index(entries, name, 0);
    if entry_index(entries, name) is None {
        let n = entries.len() as int;
        assert(after[n] == (name, table));
        assert forall|j: int| 0 <= j < n implies after[j] == entries[j] by {}
        lemma_entry_index(after, name, 0);
        match entry_index(after, name) {
            Some(i) => {
                if i < n {
                    assert(after[i] == entries[i]);
                }
            },
            None => {
                assert(after[n].0 == name);
            },
        }
        assert forall|other: Seq<char>| table_named(entries, other) is Some implies #[trigger] table_named(
            after,
            other,
        ) == table_named(entries, other) by {
            lemma_entry_index(entries, other, 0);
            lemma_entry_index(after, other, 0);
            let i = entry_index(entries, other).unwrap();
            assert(after[i] == entries[i]);
            match entry_index(after, other) {
                Some(k) => {
                    if k < i {
                        assert(after[k] == entries[k]);
                    }
                },
                None => {},
            }
        }
    }
}

impl View for TableMap {
    type V = Catalog;

    closed spec fn view(&self) -> Catalog {
        Seq::new(self.entries@.len(), |i: int| (self.entries@[i].0@, self.entries@[i].1@))
    }
}

impl View for Database {
    type V = Catalog;

    open spec fn view(&self) -> Catalog {
        self.tables@
    }
}

impl Clone for TableMap {
    fn clone(&self) -> (r: Self)
        ensures
            r@ == self@,
    {
        let mut entries: Vec<(String, Table)> = Vec::new();
        let mut i: usize = 0;
        while i < self.entries.len()
            invariant
                i <= self.entries.len(),
                entries@.len() == i,
                forall|k: int|
                    0 <= k < i ==> (#[trigger] entries@[k]).0@ == self.entries@[k].0@
                        && entries@[k].1@ == self.entries@[k].1@,
            decreases self.entries.len() - i,
        {
            entries.push((self.entries[i].0.clone(), self.entries[i].1.clone()));
            i += 1;
        }
        let r = TableMap { entries };
        assert(r@ =~= self@);
        r
    }
}

impl Clone for Database {
    fn clone(&self) -> (r: Self)
        ensures
            r@ == self@,
    {
        Database { tables: self.tables.clone() }
    }
}

impl TableMap {
    /// A catalog without tables.
    pub fn new() -> (m: Self)
        ensures
            m@ == Seq::<(Seq<char>, TableSpec)>::empty(),
    {
        let m = TableMap { entries: Vec::new() };
        assert(m@ =~= Seq::empty());
        m
    }

    /// The number of tables.
    pub fn len(&self) -> (n: usize)
        ensures
            n == self@.len(),
    {
        self.entries.len()
    }

    fn position(&self, name: &str) -> (r: Option<usize>)
        ensures
            match r {
                Some(i) => entry_index(self@, name@) == Some(i as int) && i < self@.len(),
                None => entry_index(self@, name@) is None,
            },
    {
        let mut i: usize = 0;
        while i < self.entries.len()
            invariant
                i <= self.entries.len(),
                entry_index(self@, name@) == entry_index_from(self@, name@, i as int),
            decreases self.entries.len() - i,
        {
            if str_eq(self.entries[i].0.as_str(), name) {
                return Some(i);
            }
            i += 1;
        }
        None
    }

    /// Whether a table is stored under `name`.
    pub fn contains_key(&self, name: &str) -> (r: bool)
        ensures
            r == (table_named(self@, name@) is Some),
    {
        self.position(name).is_some()
    }

    /// The table that is stored under `name`.
    pub fn get(&self, name: &str) -> (r: Option<&Table>)
        ensures
            match table_named(self@, name@) {
                Some(t) => r is Some && r.unwrap()@ == t,
                None => r is None,
            },
    {
        match self.position(name) {
            Some(i) => Some(&self.entries[i].1),
            None => None,
        }
    }

    /// The names under which the tables are stored.
    pub fn keys(&self) -> (r: Vec<String>)
        ensures
            texts(r@) == names(self@),
    {
        let mut out: Vec<String> = Vec::new();
        let mut i: usize = 0;
        while i < self.entries.len()
            invariant
                i <= self.entries.len(),
                out@.len() == i,
                forall|k: int| 0 <= k < i ==> (#[trigger] out@[k])@ == self@[k].0,
            decreases self.entries.len() - i,
        {
            out.push(self.entries[i].0.clone());
            i += 1;
        }
        assert(texts(out@) =~= names(self@));
        out
    }

    /// Stores `table` under `name`, and tells whether it did: where a table
    /// is stored under this name, that table stays and nothing is changed.
    pub fn insert(&mut self, name: String, table: Table) -> (r: bool)
        ensures
            r == (table_named(old(self)@, name@) is None),
            final(self)@ == stored(old(self)@, name@, table@),
            !r ==> final(self)@ == old(self)@,
    {
        match self.position(&name) {
            Some(i) => false,
            None => {
                self.entries.push((name, table));
                assert(self@ =~= stored(old(self)@, name@, table@));
                true
            },
        }
    }

    /// Adds a row to the table that is stored under `name`. `None` says that
    /// there is no such table.
    pub fn add_row(&mut self, name: &str, values: Vec<String>) -> (r: Option<InsertOutcome>)
        ensures
            match entry_index(old(self)@, name@) {
                Some(i) => r == Some(old(self)@[i].1.insert_outcome(texts(values@))) && final(self)@
                    == replaced(old(self)@, i, old(self)@[i].1.after_insert(texts(values@))),
                None => r is None && final(self)@ == old(self)@,
            },
            preserved(old(self)@, final(self)@),
    {
        match self.position(name) {
            Some(i) => {
                let r = self.entries[i].1.add_row(values);
                assert(self@ =~= replaced(
                    old(self)@,
                    i as int,
                    old(self)@[i as int].1.after_insert(texts(values@)),
                ));
                proof {
                    lemma_replaced(
                        old(self)@,
                        i as int,
                        old(self)@[i as int].1.after_insert(texts(values@)),
                    );
                }
                Some(r)
            },
            None => None,
        }
    }

    /// Updates the marked rows of the table that is stored under `name`.
    /// `None` says that there is no such table.
    pub fn update_marked(&mut self, name: &str, set_values: &Vec<String>, marks: &Vec<bool>) -> (r:
        Option<UpdateOutcome>)
        ensures
            match entry_index(old(self)@, name@) {
                Some(i) => r == Some(
                    old(self)@[i].1.update_outcome(texts(set_values@), marks@),
                ) && final(self)@ == replaced(
                    old(self)@,
                    i,
                    old(self)@[i].1.after_update(texts(set_values@), marks@),
                ),
                None => r is None && final(self)@ == old(self)@,
            },
            r != Some(UpdateOutcome::Updated) ==> final(self)@ == old(self)@,
            preserved(old(self)@, final(self)@),
    {
        match self.position(name) {
            Some(i) => {
                let r = self.entries[i].1.update_marked(set_values, marks);
                assert(self@ =~= replaced(
                    old(self)@,
                    i as int,
                    old(self)@[i as int].1.after_update(texts(set_values@), marks@),
                ));
                proof {
                    lemma_replaced(
                        old(self)@,
                        i as int,
                        old(self)@[i as int].1.after_update(texts(set_values@), marks@),
                    );
                }
                if r != UpdateOutcome::Updated {
                    assert(self@ =~= old(self)@);
                }
                Some(r)
            },
            None => None,
        }
    }

    /// Removes the marked rows of the table that is stored under `name`, and
    /// tells whether there is such a table.
    pub fn delete_marked(&mut self, name: &str, marks: &Vec<bool>) -> (r: bool)
        ensures
            match entry_index(old(self)@, name@) {
                Some(i) => r && final(self)@ == replaced(
                    old(self)@,
                    i,
                    old(self)@[i].1.after_delete(marks@),
                ),
                None => !r && final(self)@ == old(self)@,
            },
            preserved(old(self)@, final(self)@),
    {
        match self.position(name) {
            Some(i) => {
                self.entries[i].1.delete_marked(marks);
                assert(self@ =~= replaced(
                    old(self)@,
                    i as int,
                    old(self)@[i as int].1.after_delete(marks@),
                ));
                proof {
                    lemma_replaced(
                        old(self)@,
                        i as int,
                        old(self)@[i as int].1.after_delete(marks@),
                    );
                }
                true
            },
            None => false,
        }
    }
}

/// What every write to a table keeps: the names of the tables and their
/// order, and, where they held before, that no name is stored twice, that no
/// primary key or value of a unique column occurs twice, that every value is
/// of its column's type, and that every row has one value for each column.
pub open spec fn preserved(before: Catalog, after: Catalog) -> bool {
    &&& names(after) == names(before)
    &&& names_distinct(before) ==> names_distinct(after)
    &&& all_consistent(before) ==> all_consistent(after)
    &&& all_well_typed(before) ==> all_well_typed(after)
    &&& all_aligned(before) ==> all_aligned(after)
}

/// The operations of a database on its tables.
pub trait DatabaseInterface {
    /// Makes an empty table with a primary key and unique columns, stores
    /// it under `table_name`, and tells whether it did.
    fn create_table_with_constraints(
        &mut self,
        table_name: &str,
        columns: Vec<ColumnSchema>,
        primary_key: Option<String>,
        unique_columns: Vec<String>,
    ) -> bool;

    /// Makes an empty table without constraints, stores it under
    /// `table_name`, and tells whether it did.
    fn create_table(&mut self, table_name: &str, columns: Vec<ColumnSchema>) -> bool;

    /// The names in `tables`, laid out as a list to be shown.
    fn list_tables(&self, tables: &Vec<String>) -> String;

    /// Adds a row to a table.
    fn insert(&mut self, table_name: &str, values: Vec<String>) -> Option<InsertOutcome>;

    /// Updates the rows of a table that `predicate` holds of.
    fn update<F>(&mut self, table_name: &str, set_values: Vec<String>, predicate: F) -> Option<
        UpdateOutcome,
    > where F: Fn(&Vec<String>) -> bool
        requires
            forall|row: &Vec<String>| call_requires(predicate, (row,)),
    ;

    /// Removes the rows of a table that `predicate` holds of.
    fn delete<F>(&mut self, table_name: &str, predicate: F) -> bool where
        F: Fn(&Vec<String>) -> bool,

        requires
            forall|row: &Vec<String>| call_requires(predicate, (row,)),
    ;

    /// The rows of a table that `predicate` holds of, laid out as a table to
    /// be shown.
    fn select<F>(&self, table_name: &str, columns: Vec<String>, predicate: F) -> Option<
        String,
    > where F: Fn(&Vec<String>) -> bool
        requires
            forall|row: &Vec<String>| call_requires(predicate, (row,)),
    ;
}

impl Database {
    /// A database without tables.
    pub fn new() -> (db: Self)
        ensures
            db@ == Seq::<(Seq<char>, TableSpec)>::empty(),
    {
        Database { tables: TableMap::new() }
    }

    /// The names of the columns of the table called `table_name`, in order;
    /// no names where there is no such table.
    pub fn get_table_columns(&self, table_name: &str) -> (r: Vec<String>)
        ensures
            texts(r@) == match table_named(self@, table_name@) {
                Some(t) => column_names(t.schema),
                None => Seq::empty(),
            },
    {
        match self.tables.get(table_name) {
            Some(table) => schema_names(&table.schema),
            None => {
                let r: Vec<String> = Vec::new();
                assert(texts(r@) =~= Seq::empty());
                r
            },
        }
    }

    /// The rows of the table called `table_name` that are marked, laid out
    /// as a table to be shown with the columns `columns`, or with all columns
    /// of the table where `columns` is the single name `*`. `None` says that
    /// there is no such table.
    pub fn select_marked(&self, table_name: &str, columns: &Vec<String>, marks: &Vec<bool>) -> (r:
        Option<String>)
        ensures
            match table_named(self@, table_name@) {
                Some(t) => r is Some && r.unwrap()@ == selection_text(t, texts(columns@), marks@),
                None => r is None,
            },
    {
        match self.tables.get(table_name) {
            Some(table) => Some(render_selection(table, columns, marks)),
            None => None,
        }
    }
}

/// The names of the columns of a schema, in order.
pub fn schema_names(schema: &Schema) -> (r: Vec<String>)
    ensures
        texts(r@) == column_names(schema@),
{
    let mut out: Vec<String> = Vec::new();
    let mut i: usize = 0;
    while i < schema.columns.len()
        invariant
            i <= schema.columns.len(),
            out@.len() == i,
            forall|k: int| 0 <= k < i ==> (#[trigger] out@[k])@ == schema@[k].name,
        decreases schema.columns.len() - i,
    {
        out.push(schema.columns[i].name.clone());
        i += 1;
    }
    assert(texts(out@) =~= column_names(schema@));
    out
}

/// The table that `create_table_with_constraints` makes.
pub open spec fn new_table(
    name: Seq<char>,
    columns: Seq<crate::schema::ColumnSpec>,
    primary_key: Option<Seq<char>>,
    unique_columns: Seq<Seq<char>>,
) -> TableSpec {
    TableSpec { name, schema: columns, rows: Seq::empty(), primary_key, unique_columns }
}

impl DatabaseInterface for Database {
    /// Makes an empty table and stores it under `table_name`, and tells
    /// whether it did. Where a table is stored under this name, that table
    /// stays as it is, with its columns and its rows, and nothing is changed.
    fn create_table_with_constraints(
        &mut self,
        table_name: &str,
        columns: Vec<ColumnSchema>,
        primary_key: Option<String>,
        unique_columns: Vec<String>,
    ) -> (r: bool)
        ensures
            r == (table_named(old(self)@, table_name@) is None),
            !r ==> final(self)@ == old(self)@,
            final(self)@ == stored(
                old(self)@,
                table_name@,
                new_table(
                    table_name@,
                    crate::schema::columns_view(columns@),
                    name_view(primary_key),
                    texts(unique_columns@),
                ),
            ),
            names_distinct(old(self)@) ==> names_distinct(final(self)@),
            all_consistent(old(self)@) ==> all_consistent(final(self)@),
            all_well_typed(old(self)@) ==> all_well_typed(final(self)@),
            all_aligned(old(self)@) ==> all_aligned(final(self)@),
    {
        let schema = Schema { columns };
        let table = Table::new(
            String::from_str(table_name),
            schema,
            primary_key,
            unique_columns,
        );
        proof {
            lemma_stored(self@, table_name@, table@);
        }
        self.tables.insert(String::from_str(table_name), table)
    }

    /// Makes an empty table without constraints and stores it under
    /// `table_name`, and tells whether it did. Where a table is stored under
    /// this name, nothing is changed.
    fn create_table(&mut self, table_name: &str, columns: Vec<ColumnSchema>) -> (r: bool)
        ensures
            r == (table_named(old(self)@, table_name@) is None),
            !r ==> final(self)@ == old(self)@,
            final(self)@ == stored(
                old(self)@,
                table_name@,
                new_table(
                    table_name@,
                    crate::schema::columns_view(columns@),
                    None,
                    Seq::empty(),
                ),
            ),
            names_distinct(old(self)@) ==> names_distinct(final(self)@),
            all_consistent(old(self)@) ==> all_consistent(final(self)@),
            all_well_typed(old(self)@) ==> all_well_typed(final(self)@),
            all_aligned(old(self)@) ==> all_aligned(final(self)@),
    {
        let unique: Vec<String> = Vec::new();
        assert(texts(unique@) =~= Seq::empty());
        self.create_table_with_constraints(table_name, columns, None, unique)
    }

    fn list_tables(&self, tables: &Vec<String>) -> (r: String)
        ensures
            r@ == list_text(texts(tables@)),
    {
        render_list(tables)
    }

    /// Adds a row to the table called `table_name`. `None` says that there
    /// is no such table.
    fn insert(&mut self, table_name: &str, values: Vec<String>) -> (r: Option<InsertOutcome>)
        ensures
            match entry_index(old(self)@, table_name@) {
                Some(i) => r == Some(old(self)@[i].1.insert_outcome(texts(values@))) && final(self)@
                    == replaced(old(self)@, i, old(self)@[i].1.after_insert(texts(values@))),
                None => r is None && final(self)@ == old(self)@,
            },
            preserved(old(self)@, final(self)@),
    {
        self.tables.add_row(table_name, values)
    }

    /// Updates the rows of the table called `table_name` that `predicate`
    /// holds of. `None` says that there is no such table.
    fn update<F>(&mut self, table_name: &str, set_values: Vec<String>, predicate: F) -> (r: Option<
        UpdateOutcome,
    >) where F: Fn(&Vec<String>) -> bool
        ensures
            match entry_index(old(self)@, table_name@) {
                Some(i) => exists|marks: Seq<bool>| #[trigger]
                    answered_by(predicate, old(self)@[i].1.rows, marks) && r == Some(
                        old(self)@[i].1.update_outcome(texts(set_values@), marks),
                    ) && final(self)@ == replaced(
                        old(self)@,
                        i,
                        old(self)@[i].1.after_update(texts(set_values@), marks),
                    ),
                None => r is None && final(self)@ == old(self)@,
            },
            forall|holds: spec_fn(Seq<Seq<char>>) -> bool| #[trigger]
                decided_by(predicate, holds) ==> match entry_index(old(self)@, table_name@) {
                    Some(i) => {
                        let t = old(self)@[i].1;
                        let marks = marks_of(t.rows, holds);
                        &&& r == Some(t.update_outcome(texts(set_values@), marks))
                        &&& final(self)@ == replaced(
                            old(self)@,
                            i,
                            t.after_update(texts(set_values@), marks),
                        )
                    },
                    None => r is None && final(self)@ == old(self)@,
                },
            r != Some(UpdateOutcome::Updated) ==> final(self)@ == old(self)@,
            preserved(old(self)@, final(self)@),
    {
        let marks = match self.tables.get(table_name) {
            Some(table) => table.mark_rows(&predicate),
            None => Vec::new(),
        };
        self.tables.update_marked(table_name, &set_values, &marks)
    }

    /// Removes the rows of the table called `table_name` that `predicate`
    /// holds of, and tells whether there is such a table.
    fn delete<F>(&mut self, table_name: &str, predicate: F) -> (r: bool) where
        F: Fn(&Vec<String>) -> bool,

        ensures
            match entry_index(old(self)@, table_name@) {
                Some(i) => r && exists|marks: Seq<bool>| #[trigger]
                    answered_by(predicate, old(self)@[i].1.rows, marks) && final(self)@
                        == replaced(old(self)@, i, old(self)@[i].1.after_delete(marks)),
                None => !r && final(self)@ == old(self)@,
            },
            forall|holds: spec_fn(Seq<Seq<char>>) -> bool| #[trigger]
                decided_by(predicate, holds) ==> match entry_index(old(self)@, table_name@) {
                    Some(i) => r && final(self)@ == replaced(
                        old(self)@,
                        i,
                        old(self)@[i].1.after_delete(marks_of(old(self)@[i].1.rows, holds)),
                    ),
                    None => !r && final(self)@ == old(self)@,
                },
            preserved(old(self)@, final(self)@),
    {
        let marks = match self.tables.get(table_name) {
            Some(table) => table.mark_rows(&predicate),
            None => Vec::new(),
        };
        self.tables.delete_marked(table_name, &marks)
    }

    /// The rows of the table called `table_name` that `predicate` holds of,
    /// laid out as a table to be shown. `None` says that there is no such
    /// table.
    fn select<F>(&self, table_name: &str, columns: Vec<String>, predicate: F) -> (r: Option<
        String,
    >) where F: Fn(&Vec<String>) -> bool
        ensures
            match table_named(self@, table_name@) {
                Some(t) => r is Some && exists|marks: Seq<bool>| #[trigger]
                    answered_by(predicate, t.rows, marks) && r.unwrap()@ == selection_text(
                        t,
                        texts(columns@),
                        marks,
                    ),
                None => r is None,
            },
            forall|holds: spec_fn(Seq<Seq<char>>) -> bool| #[trigger]
                decided_by(predicate, holds) ==> match table_named(self@, table_name@) {
                    Some(t) => r is Some && r.unwrap()@ == selection_text(
                        t,
                        texts(columns@),
                        marks_of(t.rows, holds),
                    ),
                    None => r is None,
                },
    {
        let marks = match self.tables.get(table_name) {
            Some(table) => table.mark_rows(&predicate),
            None => Vec::new(),
        };
        self.select_marked(table_name, &columns, &marks)
    }
}

} // verus!
