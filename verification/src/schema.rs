//! Column types and table schemas.

use crate::text::{equals_ignoring_case, str_chars, str_eq};
use vstd::prelude::*;

verus! {

/// The type of the values of a column.
#[derive(Clone, Copy, Debug, PartialEq, Eq, Structural)]
pub enum ColumnType {
    Int,
    String,
    Float,
}

/// A column of a schema: its name and the type of its values.
#[derive(Debug)]
pub struct ColumnSchema {
    pub name: String,
    pub col_type: ColumnType,
}

/// The columns of a table, in the order in which a row holds their values.
#[derive(Debug)]
pub struct Schema {
    pub columns: Vec<ColumnSchema>,
}

/// What a column is, as contracts see it.
pub struct ColumnSpec {
    pub name: Seq<char>,
    pub col_type: ColumnType,
}

impl View for ColumnSchema {
    type V = ColumnSpec;

    open spec fn view(&self) -> ColumnSpec {
        ColumnSpec { name: self.name@, col_type: self.col_type }
    }
}

/// The columns of a slice, as contracts see them.
pub open spec fn columns_view(columns: Seq<ColumnSchema>) -> Seq<ColumnSpec> {
    Seq::new(columns.len(), |i: int| columns[i]@)
}

impl View for Schema {
    type V = Seq<ColumnSpec>;

    open spec fn view(&self) -> Seq<ColumnSpec> {
        columns_view(self.columns@)
    }
}

/// The index of the first column at or after `from` that is called `name`.
pub open spec fn column_index_from(columns: Seq<ColumnSpec>, name: Seq<char>, from: int) -> Option<
    int,
>
    decreases columns.len() - from,
{
    if from < 0 || from >= columns.len() {
        None
    } else if columns[from].name == name {
        Some(from)
    } else {
        column_index_from(columns, name, from + 1)
    }
}

/// The index of the first column that is called `name`. Names are compared
/// exactly.
pub open spec fn column_index(columns: Seq<ColumnSpec>, name: Seq<char>) -> Option<int> {
    column_index_from(columns, name, 0)
}

/// The names of the columns, in order.
pub open spec fn column_names(columns: Seq<ColumnSpec>) -> Seq<Seq<char>> {
    Seq::new(columns.len(), |i: int| columns[i].name)
}

/// The column type that a type word stands for, whatever the case of its
/// letters: `INT` and `INTEGER`, `FLOAT` and `REAL`, `STRING` and `TEXT`.
pub open spec fn column_type_of(word: Seq<char>) -> Option<ColumnType> {
    if same_word(word, "INT"@) || same_word(word, "INTEGER"@) {
        Some(ColumnType::Int)
    } else if same_word(word, "FLOAT"@) || same_word(word, "REAL"@) {
        Some(ColumnType::Float)
    } else if same_word(word, "STRING"@) || same_word(word, "TEXT"@) {
        Some(ColumnType::String)
    } else {
        None
    }
}

/// Two words are the same up to the case of their ASCII letters.
pub open spec fn same_word(a: Seq<char>, b: Seq<char>) -> bool {
    crate::text::same_ignoring_case(a, b)
}

/// Where a column is found from `from` on, its index lies within the
/// columns and the column there has the name.
pub proof fn lemma_column_index_bounds(columns: Seq<ColumnSpec>, name: Seq<char>, from: int)
    ensures
        match column_index_from(columns, name, from) {
            Some(i) => from <= i < columns.len() && columns[i].name == name,
            None => true,
        },
    decreases columns.len() - from,
{
    if 0 <= from < columns.len() && columns[from].name != name {
        lemma_column_index_bounds(columns, name, from + 1);
    }
}

impl Clone for ColumnSchema {
    fn clone(&self) -> (r: Self)
        ensures
            r@ == self@,
    {
        ColumnSchema { name: self.name.clone(), col_type: self.col_type }
    }
}

impl Clone for Schema {
    fn clone(&self) -> (r: Self)
        ensures
            r@ == self@,
    {
        Schema { columns: clone_columns(&self.columns) }
    }
}

/// A copy of a list of columns.
pub fn clone_columns(columns: &Vec<ColumnSchema>) -> (r: Vec<ColumnSchema>)
    ensures
        columns_view(r@) == columns_view(columns@),
{
    let mut r: Vec<ColumnSchema> = Vec::new();
    let mut i: usize = 0;
    while i < columns.len()
        invariant
            i <= columns.len(),
            r@.len() == i,
            forall|k: int| 0 <= k < i ==> (#[trigger] r@[k])@ == columns@[k]@,
        decreases columns.len() - i,
    {
        r.push(columns[i].clone());
        i += 1;
    }
    assert(columns_view(r@) =~= columns_view(columns@));
    r
}

/// Reads a type word of a column definition.
pub fn parse_column_type(word: &Vec<char>) -> (r: Option<ColumnType>)
    ensures
        r == column_type_of(word@),
{
    if is_word(word, "INT") || is_word(word, "INTEGER") {
        Some(ColumnType::Int)
    } else if is_word(word, "FLOAT") || is_word(word, "REAL") {
        Some(ColumnType::Float)
    } else if is_word(word, "STRING") || is_word(word, "TEXT") {
        Some(ColumnType::String)
    } else {
        None
    }
}

/// Whether `word` is the keyword `expected`, whatever the case of its letters.
pub fn is_word(word: &Vec<char>, expected: &str) -> (r: bool)
    ensures
        r == same_word(word@, expected@),
{
    let e = str_chars(expected);
    equals_ignoring_case(word, &e)
}

/// Finds a column by its name.
pub fn find_column(columns: &[ColumnSchema], name: &str) -> (r: Option<usize>)
    ensures
        match r {
            Some(i) => column_index(columns_view(columns@), name@) == Some(i as int) && i
                < columns.len(),
            None => column_index(columns_view(columns@), name@) is None,
        },
{
    let ghost cols = columns_view(columns@);
    let mut i: usize = 0;
    while i < columns.len()
        invariant
            i <= columns.len(),
            cols == columns_view(columns@),
            column_index(cols, name@) == column_index_from(cols, name@, i as int),
        decreases columns.len() - i,
    {
        if str_eq(columns[i].name.as_str(), name) {
            return Some(i);
        }
        i += 1;
    }
    None
}

} // verus!
