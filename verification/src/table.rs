//! Tables: rows under a schema, with a primary key and unique columns.
//!
//! A write is checked as a whole before anything is changed: a value of the
//! wrong type, a primary key that is taken, or a value of a unique column that
//! is taken leaves the table as it was, and the outcome says what stood in
//! the way.

use crate::row::{Row, RowInterface};
use crate::schema::{column_index, find_column, ColumnSpec, ColumnType, Schema};
use crate::text::{clone_texts, is_float, is_float_text, parse_i64, parse_int, str_chars, texts};
use vstd::prelude::*;

verus! {

/// The operations of a table on its rows. A predicate is a function of a
/// row's values; it must be callable on every row.
pub trait TableInterface {
    /// Adds a row that holds `values`, if the table's constraints allow it.
    fn add_row(&mut self, values: Vec<String>) -> InsertOutcome;

    /// Overwrites, in every row that `predicate` holds of, the columns for
    /// which `set_values` has a text that is not empty, if the table's
    /// constraints allow it of the table as a whole.
    fn update_rows<F>(&mut self, set_values: Vec<String>, predicate: F) -> UpdateOutcome where
        F: Fn(&Vec<String>) -> bool,

        requires
            forall|row: &Vec<String>| call_requires(predicate, (row,)),
    ;

    /// Removes every row that `predicate` holds of.
    fn delete_rows<F>(&mut self, predicate: F) where F: Fn(&Vec<String>) -> bool
        requires
            forall|row: &Vec<String>| call_requires(predicate, (row,)),
    ;

    /// The values of every row that `predicate` holds of, in storage order.
    fn select_rows<F>(&self, predicate: F) -> Vec<Vec<String>> where F: Fn(&Vec<String>) -> bool
        requires
            forall|row: &Vec<String>| call_requires(predicate, (row,)),
    ;
}

/// What became of an insert.
#[derive(Clone, Copy, Debug, PartialEq, Eq, Structural)]
pub enum InsertOutcome {
    /// The row was appended.
    Inserted,
    /// The row has not one value for each column of the table.
    WrongLength,
    /// The value at index `column` is not of the column's type.
    TypeMismatch { column: usize },
    /// A row with this primary key exists.
    DuplicateKey,
    /// A row with this value exists in the unique column at index
    /// `constraint` of the table's list of unique columns.
    DuplicateUnique { constraint: usize },
}

/// What became of an update.
#[derive(Clone, Copy, Debug, PartialEq, Eq, Structural)]
pub enum UpdateOutcome {
    /// The matched rows were changed.
    Updated,
    /// The new value at index `column` is not of the column's type.
    TypeMismatch { column: usize },
    /// Two rows would have the same primary key.
    DuplicateKey,
    /// Two rows would have the same value in the unique column at index
    /// `constraint` of the table's list of unique columns.
    DuplicateUnique { constraint: usize },
}

/// A table.
#[derive(Debug)]
pub struct Table {
    pub name: String,
    pub schema: Schema,
    pub rows: Vec<Row>,
    pub primary_key: Option<String>,
    pub unique_columns: Vec<String>,
}

/// What a table is, as contracts see it.
pub struct TableSpec {
    pub name: Seq<char>,
    pub schema: Seq<ColumnSpec>,
    pub rows: Seq<Seq<Seq<char>>>,
    pub primary_key: Option<Seq<char>>,
    pub unique_columns: Seq<Seq<char>>,
}

/// The rows of a list, as contracts see them.
pub open spec fn rows_view(rows: Seq<Row>) -> Seq<Seq<Seq<char>>> {
    Seq::new(rows.len(), |i: int| rows[i]@)
}

/// The rows that a list of lists of strings holds.
pub open spec fn rows_texts(rows: Seq<Vec<String>>) -> Seq<Seq<Seq<char>>> {
    Seq::new(rows.len(), |i: int| texts(rows[i]@))
}

/// An optional name, as contracts see it.
pub open spec fn name_view(name: Option<String>) -> Option<Seq<char>> {
    match name {
        Some(s) => Some(s@),
        None => None,
    }
}

impl View for Table {
    type V = TableSpec;

    open spec fn view(&self) -> TableSpec {
        TableSpec {
            name: self.name@,
            schema: self.schema@,
            rows: rows_view(self.rows@),
            primary_key: name_view(self.primary_key),
            unique_columns: texts(self.unique_columns@),
        }
    }
}

/// Whether `value` is written as a value of type `col_type`.
pub open spec fn value_fits(col_type: ColumnType, value: Seq<char>) -> bool {
    match col_type {
        ColumnType::Int => parse_int(value) is Some,
        ColumnType::Float => is_float_text(value),
        ColumnType::String => true,
    }
}

/// Whether the value at index `i` is one that a write has to check: it has a
/// column, and it is not an empty text that stands for "no change".
pub open spec fn is_checked(
    schema: Seq<ColumnSpec>,
    values: Seq<Seq<char>>,
    blank_is_unchanged: bool,
    i: int,
) -> bool {
    0 <= i < values.len() && i < schema.len() && !(blank_is_unchanged && values[i].len() == 0)
}

/// The index of the first value at or after `from` that is checked and is
/// not of its column's type.
pub open spec fn first_misfit(
    schema: Seq<ColumnSpec>,
    values: Seq<Seq<char>>,
    blank_is_unchanged: bool,
    from: int,
) -> Option<int>
    decreases values.len() - from,
{
    if from < 0 || from >= values.len() {
        None
    } else if is_checked(schema, values, blank_is_unchanged, from) && !value_fits(
        schema[from].col_type,
        values[from],
    ) {
        Some(from)
    } else {
        first_misfit(schema, values, blank_is_unchanged, from + 1)
    }
}

/// Some row has `value` at index `column`.
pub open spec fn taken(rows: Seq<Seq<Seq<char>>>, column: int, value: Seq<char>) -> bool {
    exists|r: int| 0 <= r < rows.len() && column < rows[r].len() && #[trigger] rows[r][column]
        == value
}

/// No two rows have the same value at index `column`. A row that is too
/// short to have a value there is exempt.
pub open spec fn distinct_in(rows: Seq<Seq<Seq<char>>>, column: int) -> bool {
    forall|a: int, b: int|
        0 <= a < b < rows.len() && column < rows[a].len() && column < rows[b].len() ==> rows[a][column]
            != rows[b][column]
}

/// `row` with the values of `set_values` that are not empty written over
/// its own, index by index.
pub open spec fn merged(row: Seq<Seq<char>>, set_values: Seq<Seq<char>>) -> Seq<Seq<char>> {
    Seq::new(
        row.len(),
        |i: int|
            if i < set_values.len() && set_values[i].len() > 0 {
                set_values[i]
            } else {
                row[i]
            },
    )
}

/// Whether the row at index `r` is marked in `marks`. A list of marks that
/// is too short marks no further row.
pub open spec fn marked(marks: Seq<bool>, r: int) -> bool {
    0 <= r < marks.len() && marks[r]
}

/// The rows after `set_values` was merged into each marked row.
pub open spec fn rewritten(
    rows: Seq<Seq<Seq<char>>>,
    set_values: Seq<Seq<char>>,
    marks: Seq<bool>,
) -> Seq<Seq<Seq<char>>> {
    Seq::new(
        rows.len(),
        |r: int|
            if marked(marks, r) {
                merged(rows[r], set_values)
            } else {
                rows[r]
            },
    )
}

/// The rows whose mark is `wanted`, in order.
pub open spec fn picked(rows: Seq<Seq<Seq<char>>>, marks: Seq<bool>, wanted: bool) -> Seq<
    Seq<Seq<char>>,
>
    decreases rows.len(),
{
    if rows.len() == 0 {
        rows
    } else {
        let front = picked(rows.take(rows.len() - 1), marks, wanted);
        if marked(marks, rows.len() - 1) == wanted {
            front.push(rows[rows.len() - 1])
        } else {
            front
        }
    }
}

/// The marks that a predicate on rows gives to each row.
pub open spec fn marks_of(rows: Seq<Seq<Seq<char>>>, holds: spec_fn(Seq<Seq<char>>) -> bool) -> Seq<
    bool,
> {
    Seq::new(rows.len(), |r: int| holds(rows[r]))
}

/// `mark` is an answer that `predicate` gave on a list that holds the values
/// of `row`.
pub open spec fn answer_on<F: Fn(&Vec<String>) -> bool>(
    predicate: F,
    row: Seq<Seq<char>>,
    mark: bool,
) -> bool {
    exists|values: &Vec<String>|
        texts(values@) == row && #[trigger] call_ensures(predicate, (values,), mark)
}

/// `marks` has a mark for each row, and each mark is an answer that
/// `predicate` gave on the values of the row at its index.
pub open spec fn answered_by<F: Fn(&Vec<String>) -> bool>(
    predicate: F,
    rows: Seq<Seq<Seq<char>>>,
    marks: Seq<bool>,
) -> bool {
    &&& marks.len() == rows.len()
    &&& forall|r: int| 0 <= r < rows.len() ==> answer_on(predicate, rows[r], #[trigger] marks[r])
}

/// Where a predicate computes a function of a row's values, the marks that
/// it gave are the marks of that function.
pub proof fn lemma_answers_decided<F: Fn(&Vec<String>) -> bool>(
    predicate: F,
    rows: Seq<Seq<Seq<char>>>,
    marks: Seq<bool>,
    holds: spec_fn(Seq<Seq<char>>) -> bool,
)
    requires
        answered_by(predicate, rows, marks),
        decided_by(predicate, holds),
    ensures
        marks == marks_of(rows, holds),
{
    assert forall|r: int| 0 <= r < rows.len() implies marks[r] == holds(rows[r]) by {
        assert(answer_on(predicate, rows[r], marks[r]));
    }
    assert(marks =~= marks_of(rows, holds));
}

/// Whatever `predicate` returns on a row is what `holds` says of its values.
pub open spec fn decided_by<F: Fn(&Vec<String>) -> bool>(
    predicate: F,
    holds: spec_fn(Seq<Seq<char>>) -> bool,
) -> bool {
    forall|row: &Vec<String>, b: bool| #[trigger]
        call_ensures(predicate, (row,), b) ==> b == holds(texts(row@))
}

impl TableSpec {
    /// The index of the primary key column, where the table has a primary
    /// key that names a column.
    pub open spec fn key_column(self) -> Option<int> {
        match self.primary_key {
            Some(name) => column_index(self.schema, name),
            None => None,
        }
    }

    /// The index of the column that the unique constraint at index `u` is
    /// about, where it names a column.
    pub open spec fn unique_column(self, u: int) -> Option<int> {
        column_index(self.schema, self.unique_columns[u])
    }

    /// The index of the first unique constraint at or after `from` that a row
    /// holding `values` would break.
    pub open spec fn first_clash(self, values: Seq<Seq<char>>, from: int) -> Option<int>
        decreases self.unique_columns.len() - from,
    {
        if from < 0 || from >= self.unique_columns.len() {
            None
        } else if self.unique_column(from) matches Some(k) && k < values.len() && taken(
            self.rows,
            k,
            values[k],
        ) {
            Some(from)
        } else {
            self.first_clash(values, from + 1)
        }
    }

    /// The index of the first unique constraint at or after `from` that
    /// `rows` break.
    pub open spec fn first_broken(self, rows: Seq<Seq<Seq<char>>>, from: int) -> Option<int>
        decreases self.unique_columns.len() - from,
    {
        if from < 0 || from >= self.unique_columns.len() {
            None
        } else if self.unique_column(from) matches Some(k) && !distinct_in(rows, k) {
            Some(from)
        } else {
            self.first_broken(rows, from + 1)
        }
    }

    /// What becomes of the insert of a row that holds `values`. First the
    /// row must have one value for each column. Then the values are checked
    /// against their columns' types in order; then the primary key, which
    /// must be free; then the unique columns in the order of their list.
    pub open spec fn insert_outcome(self, values: Seq<Seq<char>>) -> InsertOutcome {
        if values.len() != self.schema.len() {
            InsertOutcome::WrongLength
        } else if let Some(i) = first_misfit(self.schema, values, false, 0) {
            InsertOutcome::TypeMismatch { column: i as usize }
        } else if self.key_column() matches Some(k) && taken(self.rows, k, values[k]) {
            InsertOutcome::DuplicateKey
        } else if let Some(u) = self.first_clash(values, 0) {
            InsertOutcome::DuplicateUnique { constraint: u as usize }
        } else {
            InsertOutcome::Inserted
        }
    }

    /// The table after the insert of a row that holds `values`.
    pub open spec fn after_insert(self, values: Seq<Seq<char>>) -> TableSpec {
        if self.insert_outcome(values) == InsertOutcome::Inserted {
            TableSpec { rows: self.rows.push(values), ..self }
        } else {
            self
        }
    }

    /// What becomes of the update of the marked rows with `set_values`. The
    /// new values that are not empty are checked against their columns'
    /// types in order; then the primary key and the unique columns, in the
    /// order of their list, on all rows as they would be after the update.
    pub open spec fn update_outcome(self, set_values: Seq<Seq<char>>, marks: Seq<bool>)
        -> UpdateOutcome {
        let rows = rewritten(self.rows, set_values, marks);
        if let Some(i) = first_misfit(self.schema, set_values, true, 0) {
            UpdateOutcome::TypeMismatch { column: i as usize }
        } else if self.key_column() matches Some(k) && !distinct_in(rows, k) {
            UpdateOutcome::DuplicateKey
        } else if let Some(u) = self.first_broken(rows, 0) {
            UpdateOutcome::DuplicateUnique { constraint: u as usize }
        } else {
            UpdateOutcome::Updated
        }
    }

    /// The table after the update of the marked rows with `set_values`.
    pub open spec fn after_update(self, set_values: Seq<Seq<char>>, marks: Seq<bool>)
        -> TableSpec {
        if self.update_outcome(set_values, marks) == UpdateOutcome::Updated {
            TableSpec { rows: rewritten(self.rows, set_values, marks), ..self }
        } else {
            self
        }
    }

    /// The table without its marked rows.
    pub open spec fn after_delete(self, marks: Seq<bool>) -> TableSpec {
        TableSpec { rows: picked(self.rows, marks, false), ..self }
    }

    /// The primary key, where the table has one, and every unique column
    /// hold no value twice.
    pub open spec fn consistent(self) -> bool {
        &&& self.key_column() matches Some(k) ==> distinct_in(self.rows, k)
        &&& forall|u: int|
            0 <= u < self.unique_columns.len() ==> (#[trigger] self.unique_column(u) matches Some(
                k,
            ) ==> distinct_in(self.rows, k))
    }

    /// Every value that has a column is written as a value of its type.
    pub open spec fn well_typed(self) -> bool {
        forall|r: int, i: int|
            0 <= r < self.rows.len() && 0 <= i < self.rows[r].len() && i < self.schema.len()
                ==> value_fits(self.schema[i].col_type, #[trigger] self.rows[r][i])
    }

    /// Every row has one value for each column.
    pub open spec fn aligned(self) -> bool {
        forall|r: int| 0 <= r < self.rows.len() ==> (#[trigger] self.rows[r]).len() == self.schema.len()
    }
}

/// Where a value is found that is not of its column's type, it is one;
/// where none is found, every checked value is of its column's type.
pub proof fn lemma_first_misfit(
    schema: Seq<ColumnSpec>,
    values: Seq<Seq<char>>,
    blank_is_unchanged: bool,
    from: int,
)
    requires
        0 <= from,
    ensures
        match first_misfit(schema, values, blank_is_unchanged, from) {
            Some(i) => from <= i < values.len() && is_checked(
                schema,
                values,
                blank_is_unchanged,
                i,
            ) && !value_fits(schema[i].col_type, values[i]),
            None => forall|i: int|
                from <= i && is_checked(schema, values, blank_is_unchanged, i) ==> value_fits(
                    schema[i].col_type,
                    #[trigger] values[i],
                ),
        },
    decreases values.len() - from,
{
    if from < values.len() {
        lemma_first_misfit(schema, values, blank_is_unchanged, from + 1);
    }
}

/// Where a unique constraint is found that the new row would break, its
/// index lies within the list; where none is found, the row breaks none.
pub proof fn lemma_first_clash(t: TableSpec, values: Seq<Seq<char>>, from: int)
    requires
        0 <= from,
    ensures
        match t.first_clash(values, from) {
            Some(u) => from <= u < t.unique_columns.len(),
            None => forall|u: int|
                from <= u < t.unique_columns.len() ==> !(#[trigger] t.unique_column(u) matches Some(
                    k,
                ) && k < values.len() && taken(t.rows, k, values[k])),
        },
    decreases t.unique_columns.len() - from,
{
    if from < t.unique_columns.len() {
        lemma_first_clash(t, values, from + 1);
    }
}

/// Where a unique constraint is found that the rows break, its index lies
/// within the list; where none is found, the rows break none.
pub proof fn lemma_first_broken(t: TableSpec, rows: Seq<Seq<Seq<char>>>, from: int)
    requires
        0 <= from,
    ensures
        match t.first_broken(rows, from) {
            Some(u) => from <= u < t.unique_columns.len(),
            None => forall|u: int|
                from <= u < t.unique_columns.len() ==> (#[trigger] t.unique_column(u) matches Some(
                    k,
                ) ==> distinct_in(rows, k)),
        },
    decreases t.unique_columns.len() - from,
{
    if from < t.unique_columns.len() {
        lemma_first_broken(t, rows, from + 1);
    }
}

/// A new row whose value at `column` is free, or that has none, leaves the
/// column without a value that occurs twice.
pub proof fn lemma_push_distinct(rows: Seq<Seq<Seq<char>>>, values: Seq<Seq<char>>, column: int)
    requires
        distinct_in(rows, column),
        0 <= column,
        column >= values.len() || !taken(rows, column, values[column]),
    ensures
        distinct_in(rows.push(values), column),
{
    let next = rows.push(values);
    assert forall|a: int, b: int|
        0 <= a < b < next.len() && column < next[a].len() && column < next[b].len() implies next[a][column]
        != next[b][column] by {
        if b == rows.len() {
            assert(next[a] == rows[a]);
            if rows[a][column] == values[column] {
                assert(taken(rows, column, values[column]));
            }
        } else {
            assert(next[a] == rows[a]);
            assert(next[b] == rows[b]);
        }
    }
}

/// The index among `rows` of the picked row at index `j`.
pub open spec fn source_index(
    rows: Seq<Seq<Seq<char>>>,
    marks: Seq<bool>,
    wanted: bool,
    j: int,
) -> int
    decreases rows.len(),
{
    if rows.len() == 0 {
        0
    } else if j < picked(rows.take(rows.len() - 1), marks, wanted).len() {
        source_index(rows.take(rows.len() - 1), marks, wanted, j)
    } else {
        rows.len() - 1
    }
}

/// Every picked row is one of the rows with the wanted mark, and the picked
/// rows stand in the order of the rows.
pub proof fn lemma_picked_source(rows: Seq<Seq<Seq<char>>>, marks: Seq<bool>, wanted: bool)
    ensures
        picked(rows, marks, wanted).len() <= rows.len(),
        forall|j: int|
            0 <= j < picked(rows, marks, wanted).len() ==> {
                let i = #[trigger] source_index(rows, marks, wanted, j);
                &&& 0 <= i < rows.len()
                &&& marked(marks, i) == wanted
                &&& rows[i] == picked(rows, marks, wanted)[j]
            },
        forall|j: int, k: int|
            0 <= j < k < picked(rows, marks, wanted).len() ==> #[trigger] source_index(
                rows,
                marks,
                wanted,
                j,
            ) < #[trigger] source_index(rows, marks, wanted, k),
    decreases rows.len(),
{
    if rows.len() > 0 {
        let n = rows.len() - 1;
        let front_rows = rows.take(n);
        let front = picked(front_rows, marks, wanted);
        let all = picked(rows, marks, wanted);
        lemma_picked_source(front_rows, marks, wanted);
        assert forall|j: int| 0 <= j < all.len() implies {
            let i = #[trigger] source_index(rows, marks, wanted, j);
            &&& 0 <= i < rows.len()
            &&& marked(marks, i) == wanted
            &&& rows[i] == all[j]
        } by {
            if j < front.len() {
                let i = source_index(front_rows, marks, wanted, j);
                assert(front_rows[i] == rows[i]);
                assert(front[j] == all[j]);
            }
        }
        assert forall|j: int, k: int| 0 <= j < k < all.len() implies #[trigger] source_index(
            rows,
            marks,
            wanted,
            j,
        ) < #[trigger] source_index(rows, marks, wanted, k) by {
            if k < front.len() {
                assert(source_index(front_rows, marks, wanted, j) < source_index(
                    front_rows,
                    marks,
                    wanted,
                    k,
                ));
            } else {
                let i = source_index(front_rows, marks, wanted, j);
                assert(0 <= i < front_rows.len());
            }
        }
    }
}

/// Picking rows leaves a column without a value that occurs twice.
pub proof fn lemma_picked_distinct(
    rows: Seq<Seq<Seq<char>>>,
    marks: Seq<bool>,
    wanted: bool,
    column: int,
)
    requires
        distinct_in(rows, column),
    ensures
        distinct_in(picked(rows, marks, wanted), column),
{
    let out = picked(rows, marks, wanted);
    lemma_picked_source(rows, marks, wanted);
    assert forall|a: int, b: int|
        0 <= a < b < out.len() && column < out[a].len() && column < out[b].len() implies out[a][column]
        != out[b][column] by {
        let i = source_index(rows, marks, wanted, a);
        let j = source_index(rows, marks, wanted, b);
        assert(i < j);
        assert(rows[i] == out[a] && rows[j] == out[b]);
    }
}

/// An insert keeps what the table holds: that no primary key or value of a
/// unique column occurs twice, that every value is of its column's type, and
/// that every row has one value for each column.
pub proof fn lemma_insert_keeps(t: TableSpec, values: Seq<Seq<char>>)
    ensures
        t.consistent() ==> t.after_insert(values).consistent(),
        t.well_typed() ==> t.after_insert(values).well_typed(),
        t.aligned() ==> t.after_insert(values).aligned(),
{
    let after = t.after_insert(values);
    if t.insert_outcome(values) == InsertOutcome::Inserted {
        assert(after.rows == t.rows.push(values));
        lemma_first_clash(t, values, 0);
        lemma_first_misfit(t.schema, values, false, 0);
        if t.consistent() {
            if let Some(k) = t.key_column() {
                crate::schema::lemma_column_index_bounds(t.schema, t.primary_key.unwrap(), 0);
                lemma_push_distinct(t.rows, values, k);
            }
            assert forall|u: int| 0 <= u < after.unique_columns.len() implies (
            #[trigger] after.unique_column(u) matches Some(k) ==> distinct_in(after.rows, k)) by {
                assert(after.unique_column(u) == t.unique_column(u));
                if let Some(k) = t.unique_column(u) {
                    crate::schema::lemma_column_index_bounds(t.schema, t.unique_columns[u], 0);
                    lemma_push_distinct(t.rows, values, k);
                }
            }
        }
        if t.well_typed() {
            assert forall|r: int, i: int|
                0 <= r < after.rows.len() && 0 <= i < after.rows[r].len() && i
                    < after.schema.len() implies value_fits(
                after.schema[i].col_type,
                #[trigger] after.rows[r][i],
            ) by {
                if r == t.rows.len() {
                    assert(is_checked(t.schema, values, false, i));
                }
            }
        }
    }
}

/// An update keeps what the table holds: that no primary key or value of a
/// unique column occurs twice, that every value is of its column's type, and
/// that every row has one value for each column.
pub proof fn lemma_update_keeps(t: TableSpec, set_values: Seq<Seq<char>>, marks: Seq<bool>)
    ensures
        t.consistent() ==> t.after_update(set_values, marks).consistent(),
        t.well_typed() ==> t.after_update(set_values, marks).well_typed(),
        t.aligned() ==> t.after_update(set_values, marks).aligned(),
        t.update_outcome(set_values, marks) == UpdateOutcome::Updated ==> t.after_update(
            set_values,
            marks,
        ).consistent(),
{
    let after = t.after_update(set_values, marks);
    if t.update_outcome(set_values, marks) == UpdateOutcome::Updated {
        lemma_first_broken(t, after.rows, 0);
        lemma_first_misfit(t.schema, set_values, true, 0);
        assert forall|u: int| 0 <= u < after.unique_columns.len() implies (
        #[trigger] after.unique_column(u) matches Some(k) ==> distinct_in(after.rows, k)) by {
            assert(after.unique_column(u) == t.unique_column(u));
        }
        if t.well_typed() {
            assert forall|r: int, i: int|
                0 <= r < after.rows.len() && 0 <= i < after.rows[r].len() && i
                    < after.schema.len() implies value_fits(
                after.schema[i].col_type,
                #[trigger] after.rows[r][i],
            ) by {
                if after.rows[r][i] != t.rows[r][i] {
                    assert(is_checked(t.schema, set_values, true, i));
                }
            }
        }
    }
}

/// Removing rows keeps what the table holds.
pub proof fn lemma_delete_keeps(t: TableSpec, marks: Seq<bool>)
    ensures
        t.consistent() ==> t.after_delete(marks).consistent(),
        t.well_typed() ==> t.after_delete(marks).well_typed(),
        t.aligned() ==> t.after_delete(marks).aligned(),
{
    let after = t.after_delete(marks);
    lemma_picked_source(t.rows, marks, false);
    assert forall|r: int| 0 <= r < after.rows.len() implies {
        let i = source_index(t.rows, marks, false, r);
        0 <= i < t.rows.len() && #[trigger] after.rows[r] == t.rows[i]
    } by {
        let i = source_index(t.rows, marks, false, r);
    }
    if t.well_typed() {
        assert forall|r: int, i: int|
            0 <= r < after.rows.len() && 0 <= i < after.rows[r].len() && i
                < after.schema.len() implies value_fits(
            after.schema[i].col_type,
            #[trigger] after.rows[r][i],
        ) by {
            let x = source_index(t.rows, marks, false, r);
            assert(after.rows[r] == t.rows[x]);
        }
    }
    if t.aligned() {
        assert forall|r: int| 0 <= r < after.rows.len() implies (#[trigger] after.rows[r]).len()
            == after.schema.len() by {
            let x = source_index(t.rows, marks, false, r);
            assert(after.rows[r] == t.rows[x]);
        }
    }
    if t.consistent() {
        if let Some(k) = t.key_column() {
            lemma_picked_distinct(t.rows, marks, false, k);
        }
        assert forall|u: int| 0 <= u < after.unique_columns.len() implies (
        #[trigger] after.unique_column(u) matches Some(k) ==> distinct_in(after.rows, k)) by {
            assert(after.unique_column(u) == t.unique_column(u));
            if let Some(k) = t.unique_column(u) {
                lemma_picked_distinct(t.rows, marks, false, k);
            }
        }
    }
}

/// An update that would leave a value of the wrong type, or two rows with
/// the same primary key or the same value in a unique column, leaves the
/// table as it was.
pub proof fn lemma_update_atomic(t: TableSpec, set_values: Seq<Seq<char>>, marks: Seq<bool>)
    requires
        ({
            let rows = rewritten(t.rows, set_values, marks);
            ||| first_misfit(t.schema, set_values, true, 0) is Some
            ||| t.key_column() matches Some(k) && !distinct_in(rows, k)
            ||| exists|u: int|
                0 <= u < t.unique_columns.len() && (#[trigger] t.unique_column(u) matches Some(k)
                    && !distinct_in(rows, k))
        }),
    ensures
        t.update_outcome(set_values, marks) != UpdateOutcome::Updated,
        t.after_update(set_values, marks) == t,
{
    lemma_first_broken(t, rewritten(t.rows, set_values, marks), 0);
}

/// Whether `value` is written as a value of type `col_type`.
pub fn fits(col_type: ColumnType, value: &String) -> (r: bool)
    ensures
        r == value_fits(col_type, value@),
{
    match col_type {
        ColumnType::Int => {
            let chars = str_chars(value.as_str());
            parse_i64(&chars).is_some()
        },
        ColumnType::Float => {
            let chars = str_chars(value.as_str());
            is_float(&chars)
        },
        ColumnType::String => true,
    }
}

/// The first of `values` that is checked and is not of its column's type.
fn find_misfit(schema: &Schema, values: &Vec<String>, blank_is_unchanged: bool) -> (r: Option<
    usize,
>)
    ensures
        match r {
            Some(i) => first_misfit(schema@, texts(values@), blank_is_unchanged, 0) == Some(
                i as int,
            ),
            None => first_misfit(schema@, texts(values@), blank_is_unchanged, 0) is None,
        },
{
    let mut i: usize = 0;
    while i < values.len()
        invariant
            i <= values.len(),
            first_misfit(schema@, texts(values@), blank_is_unchanged, 0) == first_misfit(
                schema@,
                texts(values@),
                blank_is_unchanged,
                i as int,
            ),
        decreases values.len() - i,
    {
        if i < schema.columns.len() && !(blank_is_unchanged && values[i].as_str().unicode_len()
            == 0) {
            if !fits(schema.columns[i].col_type, &values[i]) {
                return Some(i);
            }
        }
        i += 1;
    }
    None
}

/// Whether some row has `value` at index `column`.
fn is_taken(rows: &Vec<Row>, column: usize, value: &String) -> (r: bool)
    ensures
        r == taken(rows_view(rows@), column as int, value@),
{
    let mut r: usize = 0;
    while r < rows.len()
        invariant
            r <= rows.len(),
            forall|x: int|
                0 <= x < r && column < rows_view(rows@)[x].len() ==> #[trigger] rows_view(
                    rows@,
                )[x][column as int] != value@,
        decreases rows.len() - r,
    {
        let row = rows[r].get_values();
        if column < row.len() && row[column] == *value {
            assert(rows_view(rows@)[r as int][column as int] == value@);
            return true;
        }
        r += 1;
    }
    false
}

/// Whether no two rows have the same value at index `column`.
fn is_distinct(rows: &Vec<Row>, column: usize) -> (r: bool)
    ensures
        r == distinct_in(rows_view(rows@), column as int),
{
    let ghost view = rows_view(rows@);
    let mut b: usize = 0;
    while b < rows.len()
        invariant
            b <= rows.len(),
            view == rows_view(rows@),
            forall|x: int, y: int|
                0 <= x < y < b && column < view[x].len() && column < view[y].len() ==> view[x][column as int]
                    != view[y][column as int],
        decreases rows.len() - b,
    {
        let later = rows[b].get_values();
        if column < later.len() {
            let mut a: usize = 0;
            while a < b
                invariant
                    a <= b < rows.len(),
                    view == rows_view(rows@),
                    texts(later@) == view[b as int],
                    column < later.len(),
                    forall|x: int|
                        0 <= x < a && column < view[x].len() ==> view[x][column as int]
                            != view[b as int][column as int],
                decreases b - a,
            {
                let earlier = rows[a].get_values();
                if column < earlier.len() && earlier[column] == later[column] {
                    assert(view[a as int][column as int] == view[b as int][column as int]);
                    return false;
                }
                a += 1;
            }
        }
        b += 1;
    }
    true
}

/// `row` with the values of `set_values` that are not empty written over
/// its own.
fn merge(row: &Vec<String>, set_values: &Vec<String>) -> (r: Vec<String>)
    ensures
        texts(r@) == merged(texts(row@), texts(set_values@)),
{
    let mut out: Vec<String> = Vec::new();
    let mut i: usize = 0;
    while i < row.len()
        invariant
            i <= row.len(),
            out@.len() == i,
            forall|k: int|
                0 <= k < i ==> (#[trigger] out@[k])@ == merged(texts(row@), texts(set_values@))[k],
        decreases row.len() - i,
    {
        if i < set_values.len() && set_values[i].as_str().unicode_len() > 0 {
            out.push(set_values[i].clone());
        } else {
            out.push(row[i].clone());
        }
        i += 1;
    }
    assert(texts(out@) =~= merged(texts(row@), texts(set_values@)));
    out
}

/// A copy of a list of rows.
pub fn clone_rows(rows: &Vec<Row>) -> (r: Vec<Row>)
    ensures
        rows_view(r@) == rows_view(rows@),
{
    let mut out: Vec<Row> = Vec::new();
    let mut i: usize = 0;
    while i < rows.len()
        invariant
            i <= rows.len(),
            out@.len() == i,
            forall|k: int| 0 <= k < i ==> (#[trigger] out@[k])@ == rows@[k]@,
        decreases rows.len() - i,
    {
        out.push(rows[i].clone());
        i += 1;
    }
    assert(rows_view(out@) =~= rows_view(rows@));
    out
}

impl Clone for Table {
    fn clone(&self) -> (r: Self)
        ensures
            r@ == self@,
    {
        Table {
            name: self.name.clone(),
            schema: self.schema.clone(),
            rows: clone_rows(&self.rows),
            primary_key: match &self.primary_key {
                Some(key) => Some(key.clone()),
                None => None,
            },
            unique_columns: clone_texts(&self.unique_columns),
        }
    }
}

impl Table {
    /// An empty table.
    pub fn new(
        name: String,
        schema: Schema,
        primary_key: Option<String>,
        unique_columns: Vec<String>,
    ) -> (t: Self)
        ensures
            t@ == (TableSpec {
                name: name@,
                schema: schema@,
                rows: Seq::empty(),
                primary_key: name_view(primary_key),
                unique_columns: texts(unique_columns@),
            }),
            t@.consistent(),
            t@.well_typed(),
            t@.aligned(),
    {
        let t = Table { name, schema, rows: Vec::new(), primary_key, unique_columns };
        assert(rows_view(t.rows@) =~= Seq::empty());
        t
    }

    /// The index of the primary key column.
    fn key_index(&self) -> (r: Option<usize>)
        ensures
            match r {
                Some(k) => self@.key_column() == Some(k as int),
                None => self@.key_column() is None,
            },
    {
        match &self.primary_key {
            Some(name) => find_column(self.schema.columns.as_slice(), name.as_str()),
            None => None,
        }
    }

    /// The first unique constraint that a row holding `values` would break.
    fn find_clash(&self, values: &Vec<String>) -> (r: Option<usize>)
        ensures
            match r {
                Some(u) => self@.first_clash(texts(values@), 0) == Some(u as int),
                None => self@.first_clash(texts(values@), 0) is None,
            },
    {
        let mut u: usize = 0;
        while u < self.unique_columns.len()
            invariant
                u <= self.unique_columns.len(),
                self@.first_clash(texts(values@), 0) == self@.first_clash(
                    texts(values@),
                    u as int,
                ),
            decreases self.unique_columns.len() - u,
        {
            if let Some(k) = find_column(
                self.schema.columns.as_slice(),
                self.unique_columns[u].as_str(),
            ) {
                if k < values.len() && is_taken(&self.rows, k, &values[k]) {
                    return Some(u);
                }
            }
            u += 1;
        }
        None
    }

    /// The first unique constraint that `rows` break.
    fn find_broken(&self, rows: &Vec<Row>) -> (r: Option<usize>)
        ensures
            match r {
                Some(u) => self@.first_broken(rows_view(rows@), 0) == Some(u as int),
                None => self@.first_broken(rows_view(rows@), 0) is None,
            },
    {
        let mut u: usize = 0;
        while u < self.unique_columns.len()
            invariant
                u <= self.unique_columns.len(),
                self@.first_broken(rows_view(rows@), 0) == self@.first_broken(
                    rows_view(rows@),
                    u as int,
                ),
            decreases self.unique_columns.len() - u,
        {
            if let Some(k) = find_column(
                self.schema.columns.as_slice(),
                self.unique_columns[u].as_str(),
            ) {
                if !is_distinct(rows, k) {
                    return Some(u);
                }
            }
            u += 1;
        }
        None
    }

    /// The rows as they would be after `set_values` was merged into each
    /// marked row.
    fn rewrite(&self, set_values: &Vec<String>, marks: &Vec<bool>) -> (r: Vec<Row>)
        ensures
            rows_view(r@) == rewritten(self@.rows, texts(set_values@), marks@),
    {
        let mut out: Vec<Row> = Vec::new();
        let mut r: usize = 0;
        while r < self.rows.len()
            invariant
                r <= self.rows.len(),
                out@.len() == r,
                forall|k: int|
                    0 <= k < r ==> (#[trigger] out@[k])@ == rewritten(
                        self@.rows,
                        texts(set_values@),
                        marks@,
                    )[k],
            decreases self.rows.len() - r,
        {
            if r < marks.len() && marks[r] {
                out.push(Row::new(merge(self.rows[r].get_values(), set_values)));
            } else {
                out.push(self.rows[r].clone());
            }
            r += 1;
        }
        assert(rows_view(out@) =~= rewritten(self@.rows, texts(set_values@), marks@));
        out
    }

    /// Overwrites, in every marked row, the columns for which `set_values`
    /// has a text that is not empty. The update is made on all marked rows or
    /// on none: where a new value is not of its column's type, or the rows
    /// would break the primary key or a unique column, the table stays as it
    /// is.
    pub fn update_marked(&mut self, set_values: &Vec<String>, marks: &Vec<bool>) -> (r:
        UpdateOutcome)
        ensures
            r == old(self)@.update_outcome(texts(set_values@), marks@),
            final(self)@ == old(self)@.after_update(texts(set_values@), marks@),
            r != UpdateOutcome::Updated ==> final(self)@ == old(self)@,
            old(self)@.consistent() ==> final(self)@.consistent(),
            old(self)@.well_typed() ==> final(self)@.well_typed(),
            old(self)@.aligned() ==> final(self)@.aligned(),
    {
        if let Some(i) = find_misfit(&self.schema, set_values, true) {
            return UpdateOutcome::TypeMismatch { column: i };
        }
        let rows = self.rewrite(set_values, marks);
        if let Some(k) = self.key_index() {
            if !is_distinct(&rows, k) {
                return UpdateOutcome::DuplicateKey;
            }
        }
        if let Some(u) = self.find_broken(&rows) {
            return UpdateOutcome::DuplicateUnique { constraint: u };
        }
        self.rows = rows;
        proof {
            lemma_update_keeps(old(self)@, texts(set_values@), marks@);
        }
        UpdateOutcome::Updated
    }

    /// Removes every marked row.
    pub fn delete_marked(&mut self, marks: &Vec<bool>)
        ensures
            final(self)@ == old(self)@.after_delete(marks@),
            old(self)@.consistent() ==> final(self)@.consistent(),
            old(self)@.well_typed() ==> final(self)@.well_typed(),
            old(self)@.aligned() ==> final(self)@.aligned(),
    {
        let mut kept: Vec<Row> = Vec::new();
        let mut r: usize = 0;
        while r < self.rows.len()
            invariant
                r <= self.rows.len(),
                rows_view(kept@) == picked(rows_view(self.rows@).take(r as int), marks@, false),
            decreases self.rows.len() - r,
        {
            proof {
                let next = rows_view(self.rows@).take(r + 1);
                assert(next.take(next.len() - 1) == rows_view(self.rows@).take(r as int));
            }
            if !(r < marks.len() && marks[r]) {
                kept.push(self.rows[r].clone());
                assert(rows_view(kept@) =~= picked(
                    rows_view(self.rows@).take(r + 1),
                    marks@,
                    false,
                ));
            }
            r += 1;
        }
        assert(rows_view(self.rows@).take(self.rows.len() as int) == rows_view(self.rows@));
        self.rows = kept;
        proof {
            lemma_delete_keeps(old(self)@, marks@);
        }
    }

    /// The values of every marked row, in storage order.
    pub fn select_marked(&self, marks: &Vec<bool>) -> (r: Vec<Vec<String>>)
        ensures
            rows_texts(r@) == picked(self@.rows, marks@, true),
    {
        let mut out: Vec<Vec<String>> = Vec::new();
        let mut r: usize = 0;
        while r < self.rows.len()
            invariant
                r <= self.rows.len(),
                rows_texts(out@) == picked(rows_view(self.rows@).take(r as int), marks@, true),
            decreases self.rows.len() - r,
        {
            proof {
                let next = rows_view(self.rows@).take(r + 1);
                assert(next.take(next.len() - 1) == rows_view(self.rows@).take(r as int));
            }
            if r < marks.len() && marks[r] {
                out.push(clone_texts(self.rows[r].get_values()));
                assert(rows_texts(out@) =~= picked(
                    rows_view(self.rows@).take(r + 1),
                    marks@,
                    true,
                ));
            }
            r += 1;
        }
        assert(rows_view(self.rows@).take(self.rows.len() as int) == rows_view(self.rows@));
        out
    }

    /// The mark that `predicate` gives to each row: for each row, in
    /// storage order, what `predicate` answered when it was called once on
    /// the values of the row.
    pub fn mark_rows<F>(&self, predicate: &F) -> (marks: Vec<bool>) where
        F: Fn(&Vec<String>) -> bool,

        requires
            forall|row: &Vec<String>| call_requires(*predicate, (row,)),
        ensures
            answered_by(*predicate, self@.rows, marks@),
            forall|holds: spec_fn(Seq<Seq<char>>) -> bool|
                decided_by(*predicate, holds) ==> marks@ == marks_of(self@.rows, holds),
    {
        let mut marks: Vec<bool> = Vec::new();
        let mut r: usize = 0;
        while r < self.rows.len()
            invariant
                r <= self.rows.len(),
                forall|row: &Vec<String>| call_requires(*predicate, (row,)),
                answered_by(*predicate, self@.rows.take(r as int), marks@),
            decreases self.rows.len() - r,
        {
            let ghost before = marks@;
            let values = self.rows[r].get_values();
            let b = predicate(values);
            marks.push(b);
            proof {
                let rows = self@.rows.take(r + 1);
                assert(call_ensures(*predicate, (values,), b));
                assert(answer_on(*predicate, self@.rows[r as int], b));
                assert forall|k: int| 0 <= k < rows.len() implies answer_on(
                    *predicate,
                    rows[k],
                    #[trigger] marks@[k],
                ) by {
                    if k < r {
                        assert(rows[k] == self@.rows.take(r as int)[k]);
                        assert(marks@[k] == before[k]);
                    }
                }
            }
            r += 1;
        }
        assert(self@.rows.take(r as int) == self@.rows);
        proof {
            assert forall|holds: spec_fn(Seq<Seq<char>>) -> bool|
                decided_by(*predicate, holds) implies marks@ == marks_of(self@.rows, holds) by {
                lemma_answers_decided(*predicate, self@.rows, marks@, holds);
            }
        }
        marks
    }

    /// The value at row `row_idx` of the column called `col_name`.
    pub fn get_value(&self, row_idx: usize, col_name: &str) -> (r: Option<&String>)
        ensures
            match column_index(self@.schema, col_name@) {
                Some(i) if row_idx < self@.rows.len() && i < self@.rows[row_idx as int].len() => r
                    is Some && r.unwrap()@ == self@.rows[row_idx as int][i],
                _ => r is None,
            },
    {
        match find_column(self.schema.columns.as_slice(), col_name) {
            Some(idx) => {
                if row_idx < self.rows.len() {
                    let values = self.rows[row_idx].get_values();
                    if idx < values.len() {
                        Some(&values[idx])
                    } else {
                        None
                    }
                } else {
                    None
                }
            },
            None => None,
        }
    }

    /// Writes `value` at row `row_idx` of the column called `col_name`, and
    /// tells whether it did: it does where the table has the column and the
    /// row, and the row is long enough. Nothing is checked of the value.
    pub fn set_value(&mut self, row_idx: usize, col_name: &str, value: String) -> (r: bool)
        ensures
            match column_index(old(self)@.schema, col_name@) {
                Some(i) if row_idx < old(self)@.rows.len() && i < old(self)@.rows[row_idx as int].len() => r
                    && final(self)@ == (TableSpec {
                    rows: old(self)@.rows.update(
                        row_idx as int,
                        old(self)@.rows[row_idx as int].update(i, value@),
                    ),
                    ..old(self)@
                }),
                _ => !r && final(self)@ == old(self)@,
            },
    {
        if row_idx >= self.rows.len() {
            return false;
        }
        let mut row = self.rows[row_idx].clone();
        let done = row.set_by_name(col_name, value, &self.schema);
        if done {
            self.rows[row_idx] = row;
            assert(rows_view(self.rows@) =~= rows_view(old(self).rows@).update(
                row_idx as int,
                row@,
            ));
        }
        done
    }

    /// For every row that `predicate` holds of, in storage order, the name
    /// of each column of the schema with the row's value for it; a row that
    /// is too short has the empty text there. Each row is a map from names
    /// to values, written as a list of pairs: a name stands once.
    pub fn select_rows_named<F>(&self, predicate: F) -> (r: Vec<Vec<(String, String)>>) where
        F: Fn(&Vec<String>) -> bool,

        requires
            forall|row: &Vec<String>| call_requires(predicate, (row,)),
        ensures
            exists|marks: Seq<bool>| #[trigger]
                answered_by(predicate, self@.rows, marks) && named_rows(r@) == named_all(
                    self@.schema,
                    picked(self@.rows, marks, true),
                ),
            forall|holds: spec_fn(Seq<Seq<char>>) -> bool|
                decided_by(predicate, holds) ==> named_rows(r@) == named_all(
                    self@.schema,
                    picked(self@.rows, marks_of(self@.rows, holds), true),
                ),
    {
        let marks = self.mark_rows(&predicate);
        let rows = self.select_marked(&marks);
        let mut out: Vec<Vec<(String, String)>> = Vec::new();
        let mut r: usize = 0;
        while r < rows.len()
            invariant
                r <= rows.len(),
                out@.len() == r,
                forall|k: int|
                    0 <= k < r ==> named_row(#[trigger] out@[k]@) == named(
                        self@.schema,
                        rows_texts(rows@)[k],
                    ),
            decreases rows.len() - r,
        {
            out.push(self.name_values(&rows[r]));
            r += 1;
        }
        assert(named_rows(out@) =~= named_all(self@.schema, picked(self@.rows, marks@, true)));
        out
    }

    /// The name of each column with the value that `values` has for it.
    fn name_values(&self, values: &Vec<String>) -> (r: Vec<(String, String)>)
        ensures
            named_row(r@) == named(self@.schema, texts(values@)),
    {
        let mut out: Vec<(String, String)> = Vec::new();
        let mut i: usize = 0;
        assert(named_row(out@) =~= named_upto(self@.schema, texts(values@), 0));
        while i < self.schema.columns.len()
            invariant
                i <= self.schema.columns.len(),
                named_row(out@) == named_upto(self@.schema, texts(values@), i as int),
            decreases self.schema.columns.len() - i,
        {
            let value = if i < values.len() {
                values[i].clone()
            } else {
                String::new()
            };
            let name = self.schema.columns[i].name.clone();
            let ghost before = named_row(out@);
            let mut k: usize = 0;
            while k < out.len() && out[k].0 != name
                invariant
                    k <= out.len(),
                    before == named_row(out@),
                    pair_index_from(before, name@, 0) == pair_index_from(before, name@, k as int),
                decreases out.len() - k,
            {
                assert(before[k as int].0 == out@[k as int].0@);
                k += 1;
            }
            if k < out.len() {
                assert(before[k as int].0 == out@[k as int].0@);
                out[k] = (name, value);
                assert(named_row(out@) =~= before.update(k as int, (name@, value@)));
            } else {
                out.push((name, value));
                assert(named_row(out@) =~= before.push((name@, value@)));
            }
            i += 1;
        }
        out
    }
}

/// The value at index `i` of `row`, or the empty text where it has none.
pub open spec fn value_or_blank(row: Seq<Seq<char>>, i: int) -> Seq<char> {
    if 0 <= i < row.len() {
        row[i]
    } else {
        Seq::empty()
    }
}

/// The index of the first pair at or after `from` whose name is `name`.
pub open spec fn pair_index_from(
    pairs: Seq<(Seq<char>, Seq<char>)>,
    name: Seq<char>,
    from: int,
) -> Option<int>
    decreases pairs.len() - from,
{
    if from < 0 || from >= pairs.len() {
        None
    } else if pairs[from].0 == name {
        Some(from)
    } else {
        pair_index_from(pairs, name, from + 1)
    }
}

/// The pairs with `value` under `name`: in the place of the pair that had
/// the name, or at the end where none had it.
pub open spec fn with_pair(
    pairs: Seq<(Seq<char>, Seq<char>)>,
    name: Seq<char>,
    value: Seq<char>,
) -> Seq<(Seq<char>, Seq<char>)> {
    match pair_index_from(pairs, name, 0) {
        Some(k) => pairs.update(k, (name, value)),
        None => pairs.push((name, value)),
    }
}

/// The names of the first `count` columns, each with the value that `row`
/// has for it. A name stands once: of two columns of one name the later
/// one gives the value.
pub open spec fn named_upto(schema: Seq<ColumnSpec>, row: Seq<Seq<char>>, count: int) -> Seq<
    (Seq<char>, Seq<char>),
>
    decreases count,
{
    if count <= 0 {
        Seq::empty()
    } else {
        with_pair(
            named_upto(schema, row, count - 1),
            schema[count - 1].name,
            value_or_blank(row, count - 1),
        )
    }
}

/// The name of each column with the value that `row` has for it, as a map
/// from names to values written as a list: no name stands twice.
pub open spec fn named(schema: Seq<ColumnSpec>, row: Seq<Seq<char>>) -> Seq<
    (Seq<char>, Seq<char>),
> {
    named_upto(schema, row, schema.len() as int)
}

/// No name stands twice in the list.
pub open spec fn names_once(pairs: Seq<(Seq<char>, Seq<char>)>) -> bool {
    forall|i: int, j: int| 0 <= i < j < pairs.len() ==> pairs[i].0 != pairs[j].0
}

/// Where a name is found from `from` on, a pair there has it; where it is
/// not found, no pair there has it.
pub proof fn lemma_pair_index(pairs: Seq<(Seq<char>, Seq<char>)>, name: Seq<char>, from: int)
    requires
        0 <= from,
    ensures
        match pair_index_from(pairs, name, from) {
            Some(k) => from <= k < pairs.len() && pairs[k].0 == name,
            None => forall|j: int| from <= j < pairs.len() ==> pairs[j].0 != name,
        },
    decreases pairs.len() - from,
{
    if from < pairs.len() && pairs[from].0 != name {
        lemma_pair_index(pairs, name, from + 1);
    }
}

/// In the names and values of a row no name stands twice.
pub proof fn lemma_named_once(schema: Seq<ColumnSpec>, row: Seq<Seq<char>>, count: int)
    ensures
        names_once(named_upto(schema, row, count)),
    decreases count,
{
    if count > 0 {
        lemma_named_once(schema, row, count - 1);
        lemma_pair_index(named_upto(schema, row, count - 1), schema[count - 1].name, 0);
    }
}

/// For each row the name of each column with the value that the row has
/// for it.
pub open spec fn named_all(schema: Seq<ColumnSpec>, rows: Seq<Seq<Seq<char>>>) -> Seq<
    Seq<(Seq<char>, Seq<char>)>,
> {
    Seq::new(rows.len(), |i: int| named(schema, rows[i]))
}

/// A list of pairs of a name and a value, as contracts see it.
pub open spec fn named_row(pairs: Seq<(String, String)>) -> Seq<(Seq<char>, Seq<char>)> {
    Seq::new(pairs.len(), |i: int| (pairs[i].0@, pairs[i].1@))
}

/// A list of such lists, as contracts see it.
pub open spec fn named_rows(rows: Seq<Vec<(String, String)>>) -> Seq<Seq<(Seq<char>, Seq<char>)>> {
    Seq::new(rows.len(), |i: int| named_row(rows[i]@))
}

impl TableInterface for Table {
    /// Adds a row that holds `values`. The row is appended as a whole or not
    /// at all, and the outcome says which check stood in the way.
    fn add_row(&mut self, values: Vec<String>) -> (r: InsertOutcome)
        ensures
            r == old(self)@.insert_outcome(texts(values@)),
            final(self)@ == old(self)@.after_insert(texts(values@)),
            old(self)@.consistent() ==> final(self)@.consistent(),
            old(self)@.well_typed() ==> final(self)@.well_typed(),
            old(self)@.aligned() ==> final(self)@.aligned(),
    {
        if values.len() != self.schema.columns.len() {
            return InsertOutcome::WrongLength;
        }
        if let Some(i) = find_misfit(&self.schema, &values, false) {
            return InsertOutcome::TypeMismatch { column: i };
        }
        let key = self.key_index();
        if let Some(k) = key {
            proof {
                crate::schema::lemma_column_index_bounds(
                    self@.schema,
                    self@.primary_key.unwrap(),
                    0,
                );
            }
            if is_taken(&self.rows, k, &values[k]) {
                return InsertOutcome::DuplicateKey;
            }
        }
        if let Some(u) = self.find_clash(&values) {
            return InsertOutcome::DuplicateUnique { constraint: u };
        }
        let ghost before = self@;
        let ghost new_row = texts(values@);
        self.rows.push(Row::new(values));
        proof {
            assert(self@.rows =~= before.rows.push(new_row));
            lemma_insert_keeps(before, new_row);
        }
        InsertOutcome::Inserted
    }

    /// Overwrites, in every row that `predicate` holds of, the columns for
    /// which `set_values` has a text that is not empty. The update is made on
    /// all matched rows or on none.
    fn update_rows<F>(&mut self, set_values: Vec<String>, predicate: F) -> (r: UpdateOutcome) where
        F: Fn(&Vec<String>) -> bool,

        ensures
            exists|marks: Seq<bool>| #[trigger]
                answered_by(predicate, old(self)@.rows, marks) && r == old(self)@.update_outcome(
                    texts(set_values@),
                    marks,
                ) && final(self)@ == old(self)@.after_update(texts(set_values@), marks),
            forall|holds: spec_fn(Seq<Seq<char>>) -> bool|
                decided_by(predicate, holds) ==> {
                    &&& r == old(self)@.update_outcome(
                        texts(set_values@),
                        marks_of(old(self)@.rows, holds),
                    )
                    &&& final(self)@ == old(self)@.after_update(
                        texts(set_values@),
                        marks_of(old(self)@.rows, holds),
                    )
                },
            r != UpdateOutcome::Updated ==> final(self)@ == old(self)@,
            old(self)@.consistent() ==> final(self)@.consistent(),
            old(self)@.well_typed() ==> final(self)@.well_typed(),
            old(self)@.aligned() ==> final(self)@.aligned(),
    {
        let marks = self.mark_rows(&predicate);
        self.update_marked(&set_values, &marks)
    }

    /// Removes every row that `predicate` holds of.
    fn delete_rows<F>(&mut self, predicate: F) where F: Fn(&Vec<String>) -> bool
        ensures
            exists|marks: Seq<bool>| #[trigger]
                answered_by(predicate, old(self)@.rows, marks) && final(self)@ == old(self)@.after_delete(marks),
            forall|holds: spec_fn(Seq<Seq<char>>) -> bool|
                decided_by(predicate, holds) ==> final(self)@ == old(self)@.after_delete(
                    marks_of(old(self)@.rows, holds),
                ),
            old(self)@.consistent() ==> final(self)@.consistent(),
            old(self)@.well_typed() ==> final(self)@.well_typed(),
            old(self)@.aligned() ==> final(self)@.aligned(),
    {
        let marks = self.mark_rows(&predicate);
        self.delete_marked(&marks)
    }

    /// The values of every row that `predicate` holds of, in storage order.
    fn select_rows<F>(&self, predicate: F) -> (r: Vec<Vec<String>>) where
        F: Fn(&Vec<String>) -> bool,

        ensures
            exists|marks: Seq<bool>| #[trigger]
                answered_by(predicate, self@.rows, marks) && rows_texts(r@) == picked(
                    self@.rows,
                    marks,
                    true,
                ),
            forall|holds: spec_fn(Seq<Seq<char>>) -> bool|
                decided_by(predicate, holds) ==> rows_texts(r@) == picked(
                    self@.rows,
                    marks_of(self@.rows, holds),
                    true,
                ),
    {
        let marks = self.mark_rows(&predicate);
        self.select_marked(&marks)
    }
}

} // verus!
