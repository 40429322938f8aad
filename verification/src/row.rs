//! Rows: the values of one record, one text per column.

use crate::schema::{column_index, find_column, Schema};
use crate::text::{clone_texts, texts};
use vstd::prelude::*;

verus! {

/// Access to the values that a row holds.
pub trait RowInterface {
    /// The values of the row, in column order.
    fn get_values(&self) -> &Vec<String>;

    /// Replaces the values of the row.
    fn set_values(&mut self, values: Vec<String>);
}

/// One row of a table. Each value is kept as text; its view is the sequence
/// of these texts.
#[derive(Debug)]
pub struct Row {
    values: Vec<String>,
}

impl View for Row {
    type V = Seq<Seq<char>>;

    closed spec fn view(&self) -> Seq<Seq<char>> {
        texts(self.values@)
    }
}

impl Clone for Row {
    fn clone(&self) -> (r: Self)
        ensures
            r@ == self@,
    {
        Row { values: clone_texts(&self.values) }
    }
}

impl Row {
    /// A row that holds `values`.
    pub fn new(values: Vec<String>) -> (r: Self)
        ensures
            r@ == texts(values@),
    {
        Row { values }
    }

    /// The value of the column called `col_name`: the value at the index that
    /// the schema gives the column, where the row is long enough to have one.
    pub fn get_by_name<'a>(&'a self, col_name: &str, schema: &Schema) -> (r: Option<&'a String>)
        ensures
            match column_index(schema@, col_name@) {
                Some(i) if i < self@.len() => r is Some && r.unwrap()@ == self@[i],
                _ => r is None,
            },
    {
        match find_column(schema.columns.as_slice(), col_name) {
            Some(idx) => {
                if idx < self.values.len() {
                    Some(&self.values[idx])
                } else {
                    None
                }
            },
            None => None,
        }
    }

    /// Sets the value of the column called `col_name`, and tells whether it
    /// did: it does where the schema has the column and the row is long
    /// enough to hold a value for it.
    pub fn set_by_name(&mut self, col_name: &str, value: String, schema: &Schema) -> (r: bool)
        ensures
            match column_index(schema@, col_name@) {
                Some(i) if i < old(self)@.len() => r && final(self)@ == old(self)@.update(
                    i,
                    value@,
                ),
                _ => !r && final(self)@ == old(self)@,
            },
    {
        match find_column(schema.columns.as_slice(), col_name) {
            Some(idx) => {
                if idx < self.values.len() {
                    self.values[idx] = value;
                    assert(texts(self.values@) =~= texts(old(self).values@).update(
                        idx as int,
                        value@,
                    ));
                    true
                } else {
                    false
                }
            },
            None => false,
        }
    }
}

impl RowInterface for Row {
    fn get_values(&self) -> (r: &Vec<String>)
        ensures
            texts(r@) == self@,
    {
        &self.values
    }

    fn set_values(&mut self, values: Vec<String>)
        ensures
            final(self)@ == texts(values@),
    {
        self.values = values;
    }
}

} // verus!
