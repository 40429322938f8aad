//! A small database to try the query language on.

use crate::database::{all_aligned, all_consistent, all_well_typed, names_distinct, Database};
use crate::executor::execute_sql;
use crate::query::{compares_numbers, ordered_by, NumOrder};
use crate::replication::{judged_replay, lemma_judged_replay, replayed, replayed_with};
use crate::executor::{executed_with, judged_text};
use vstd::prelude::*;

verus! {

/// The statements that make the demo database.
pub open spec fn demo_statements() -> Seq<Seq<char>> {
    seq![
        "CREATE TABLE Products (id INT PRIMARY KEY, name STRING, price FLOAT, stock INT)"@,
        "INSERT INTO Products (id, name, price, stock) VALUES (1, 'Pen', 2.5, 100)"@,
        "INSERT INTO Products (id, name, price, stock) VALUES (2, 'Pencil', 1.2, 50)"@,
        "INSERT INTO Products (id, name, price, stock) VALUES (3, 'Eraser', 0.8, 30)"@,
    ]
}

/// A database with a table of three products: what the statements of
/// `demo_statements` make of an empty database.
pub fn init_demo_database<F: Fn(&str, &str) -> NumOrder>(float_order: &F) -> (db: Database)
    requires
        compares_numbers(*float_order),
    ensures
        exists|marks: Seq<Seq<bool>>| #[trigger]
            judged_replay(*float_order, Seq::empty(), demo_statements(), 4, marks) && db@
                == replayed_with(Seq::empty(), demo_statements(), 4, marks),
        forall|order: spec_fn(Seq<char>, Seq<char>) -> NumOrder| #[trigger]
            ordered_by(*float_order, order) ==> db@ == replayed(
                Seq::empty(),
                demo_statements(),
                4,
                order,
            ),
        names_distinct(db@),
        all_consistent(db@),
        all_well_typed(db@),
        all_aligned(db@),
{
    let mut db = Database::new();
    let ghost d0 = db@;
    let o1 = execute_sql(
        &mut db,
        "CREATE TABLE Products (id INT PRIMARY KEY, name STRING, price FLOAT, stock INT)",
        float_order,
    );
    let ghost d1 = db@;
    let o2 = execute_sql(
        &mut db,
        "INSERT INTO Products (id, name, price, stock) VALUES (1, 'Pen', 2.5, 100)",
        float_order,
    );
    let ghost d2 = db@;
    let o3 = execute_sql(
        &mut db,
        "INSERT INTO Products (id, name, price, stock) VALUES (2, 'Pencil', 1.2, 50)",
        float_order,
    );
    let ghost d3 = db@;
    let o4 = execute_sql(
        &mut db,
        "INSERT INTO Products (id, name, price, stock) VALUES (3, 'Eraser', 0.8, 30)",
        float_order,
    );
    proof {
        let s = demo_statements();
        let m1 = choose|m: Seq<bool>| #[trigger]
            judged_text(*float_order, d0, s[0], m) && (d1, o1@) == executed_with(d0, s[0], m);
        let m2 = choose|m: Seq<bool>| #[trigger]
            judged_text(*float_order, d1, s[1], m) && (d2, o2@) == executed_with(d1, s[1], m);
        let m3 = choose|m: Seq<bool>| #[trigger]
            judged_text(*float_order, d2, s[2], m) && (d3, o3@) == executed_with(d2, s[2], m);
        let m4 = choose|m: Seq<bool>| #[trigger]
            judged_text(*float_order, d3, s[3], m) && (db@, o4@) == executed_with(d3, s[3], m);
        let marks = seq![m1, m2, m3, m4];
        reveal_with_fuel(replayed_with, 5);
        reveal_with_fuel(judged_replay, 5);
        assert(d0 =~= Seq::empty());
        assert(judged_replay(*float_order, Seq::empty(), s, 4, marks));
        assert(db@ == replayed_with(Seq::empty(), s, 4, marks));
        assert forall|order: spec_fn(Seq<char>, Seq<char>) -> NumOrder| #[trigger]
            ordered_by(*float_order, order) implies db@ == replayed(Seq::empty(), s, 4, order) by {
            lemma_judged_replay(*float_order, Seq::empty(), s, 4, marks, order);
        }
    }
    db
}

} // verus!
