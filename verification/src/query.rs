//! Row predicates compiled from a comparison clause.
//!
//! A clause has the form `<column> <op> <literal>`. It is compiled against
//! the columns of a table into a [`Predicate`], a small tagged value that is
//! then evaluated on rows. Numbers with a fraction are compared by a function
//! that the caller supplies: the library decides which two texts are to be
//! compared and what follows from their order.

use crate::schema::{column_index, columns_view, find_column, ColumnSchema, ColumnSpec, ColumnType};
use crate::text::{
    copy_range,
    chars_to_string,
    find,
    find_in,
    is_float,
    is_float_text,
    parse_i64,
    parse_int,
    str_chars,
    texts,
    trim,
    trimmed,
    unquote,
    unquoted,
};
use vstd::prelude::*;

verus! {

/// How two floating-point numbers stand to each other. `Unordered` is the
/// answer where one of them is not a number.
#[derive(Clone, Copy, Debug, PartialEq, Eq, Structural)]
pub enum NumOrder {
    Less,
    Equal,
    Greater,
    Unordered,
}

/// The comparison operators of a clause.
#[derive(Clone, Copy, Debug, PartialEq, Eq, Structural)]
pub enum CompareOp {
    Equal,
    NotEqual,
    AtLeast,
    AtMost,
    Above,
    Below,
}

/// A compiled clause.
#[derive(Debug)]
pub enum Predicate {
    /// Holds of every row.
    Always,
    /// Holds of no row.
    Never,
    /// Compares the value of an integer column with an integer.
    Int { column: usize, negated: bool, value: i64 },
    /// Compares the value of a text column with a text.
    Text { column: usize, negated: bool, text: String },
    /// Compares a value with a literal, both read as floating-point numbers.
    Number { column: usize, op: CompareOp, literal: String },
}

/// What a compiled clause is, as contracts see it.
pub enum PredicateSpec {
    Always,
    Never,
    Int { column: int, negated: bool, value: int },
    Text { column: int, negated: bool, text: Seq<char> },
    Number { column: int, op: CompareOp, literal: Seq<char> },
}

impl View for Predicate {
    type V = PredicateSpec;

    open spec fn view(&self) -> PredicateSpec {
        match self {
            Predicate::Always => PredicateSpec::Always,
            Predicate::Never => PredicateSpec::Never,
            Predicate::Int { column, negated, value } => PredicateSpec::Int {
                column: *column as int,
                negated: *negated,
                value: *value as int,
            },
            Predicate::Text { column, negated, text } => PredicateSpec::Text {
                column: *column as int,
                negated: *negated,
                text: text@,
            },
            Predicate::Number { column, op, literal } => PredicateSpec::Number {
                column: *column as int,
                op: *op,
                literal: literal@,
            },
        }
    }
}

/// How an operator is written.
pub open spec fn operator_text(op: CompareOp) -> Seq<char> {
    match op {
        CompareOp::Equal => seq!['=', '='],
        CompareOp::NotEqual => seq!['!', '='],
        CompareOp::AtLeast => seq!['>', '='],
        CompareOp::AtMost => seq!['<', '='],
        CompareOp::Above => seq!['>'],
        CompareOp::Below => seq!['<'],
    }
}

/// Whether `value op literal` holds where `value` stands to `literal` as
/// `order` says. Of two numbers of which one is not a number only `!=` holds.
pub open spec fn accepts(op: CompareOp, order: NumOrder) -> bool {
    match op {
        CompareOp::Equal => order == NumOrder::Equal,
        CompareOp::NotEqual => order != NumOrder::Equal,
        CompareOp::AtLeast => order == NumOrder::Greater || order == NumOrder::Equal,
        CompareOp::AtMost => order == NumOrder::Less || order == NumOrder::Equal,
        CompareOp::Above => order == NumOrder::Greater,
        CompareOp::Below => order == NumOrder::Less,
    }
}

/// The operator of a clause: the first of `==`, `!=`, `>=`, `<=`, `>`, `<`,
/// taken in this order, that occurs anywhere in the clause.
pub open spec fn operator_of(clause: Seq<char>) -> Option<CompareOp> {
    if find(clause, operator_text(CompareOp::Equal)) is Some {
        Some(CompareOp::Equal)
    } else if find(clause, operator_text(CompareOp::NotEqual)) is Some {
        Some(CompareOp::NotEqual)
    } else if find(clause, operator_text(CompareOp::AtLeast)) is Some {
        Some(CompareOp::AtLeast)
    } else if find(clause, operator_text(CompareOp::AtMost)) is Some {
        Some(CompareOp::AtMost)
    } else if find(clause, operator_text(CompareOp::Above)) is Some {
        Some(CompareOp::Above)
    } else if find(clause, operator_text(CompareOp::Below)) is Some {
        Some(CompareOp::Below)
    } else {
        None
    }
}

/// The column name of a clause with operator `op`: what stands before the
/// first occurrence of the operator, trimmed.
pub open spec fn clause_column(clause: Seq<char>, op: CompareOp) -> Seq<char> {
    let at = find(clause, operator_text(op)).unwrap();
    trimmed(clause.subrange(0, at))
}

/// The literal of a clause with operator `op`: what stands behind the first
/// occurrence of the operator, trimmed and without one layer of quotes.
pub open spec fn clause_literal(clause: Seq<char>, op: CompareOp) -> Seq<char> {
    let at = find(clause, operator_text(op)).unwrap();
    unquoted(trimmed(clause.subrange(at + operator_text(op).len(), clause.len() as int)))
}

/// The comparison of column `column`, of type `col_type`, with `literal`.
/// `==` and `!=` read the literal by the column's type; the other operators
/// read it as a floating-point number. A literal that cannot be read so
/// gives the predicate that holds of no row.
pub open spec fn comparison(
    col_type: ColumnType,
    op: CompareOp,
    column: int,
    literal: Seq<char>,
) -> PredicateSpec {
    let negated = op == CompareOp::NotEqual;
    if (op == CompareOp::Equal || op == CompareOp::NotEqual) && col_type == ColumnType::Int {
        match parse_int(literal) {
            Some(n) => PredicateSpec::Int { column, negated, value: n },
            None => PredicateSpec::Never,
        }
    } else if (op == CompareOp::Equal || op == CompareOp::NotEqual) && col_type
        == ColumnType::String {
        PredicateSpec::Text { column, negated, text: literal }
    } else if is_float_text(literal) {
        PredicateSpec::Number { column, op, literal }
    } else {
        PredicateSpec::Never
    }
}

/// The predicate that a clause stands for over the given columns. The empty
/// clause and the clause `true` hold of every row; a clause without an
/// operator, or one that names no column of the table, holds of none.
pub open spec fn compiled(columns: Seq<ColumnSpec>, clause: Seq<char>) -> PredicateSpec {
    let q = trimmed(clause);
    if q.len() == 0 || q == seq!['t', 'r', 'u', 'e'] {
        PredicateSpec::Always
    } else {
        match operator_of(q) {
            None => PredicateSpec::Never,
            Some(op) => match column_index(columns, clause_column(q, op)) {
                None => PredicateSpec::Never,
                Some(i) => comparison(columns[i].col_type, op, i, clause_literal(q, op)),
            },
        }
    }
}

/// `order` is an answer that `f` gave on two strings that hold `a` and `b`.
pub open spec fn order_given<F: Fn(&str, &str) -> NumOrder>(
    f: F,
    a: Seq<char>,
    b: Seq<char>,
    order: NumOrder,
) -> bool {
    exists|x: &str, y: &str| x@ == a && y@ == b && #[trigger] call_ensures(f, (x, y), order)
}

impl PredicateSpec {
    /// Whether the predicate compares numbers with a fraction, and so asks
    /// for their order.
    pub open spec fn asks_order(self) -> bool {
        self is Number
    }

    /// Whether the predicate asks for the order of two numbers to judge
    /// `row`: it compares numbers, and both the row's value and the literal
    /// are written as numbers.
    pub open spec fn asks_order_of(self, row: Seq<Seq<char>>) -> bool {
        match self {
            PredicateSpec::Number { column, op, literal } => {
                &&& 0 <= column < row.len()
                &&& is_float_text(row[column])
                &&& is_float_text(literal)
            },
            _ => false,
        }
    }

    /// `mark` is how the predicate judges `row` where it asks `f` for the
    /// order of numbers: where it asks, `mark` is what follows from an
    /// answer that `f` gave on the row's value and the literal; where it
    /// does not ask, `mark` is what `holds` says for any order.
    pub open spec fn judges<F: Fn(&str, &str) -> NumOrder>(
        self,
        row: Seq<Seq<char>>,
        f: F,
        mark: bool,
    ) -> bool {
        if self.asks_order_of(row) {
            exists|order: NumOrder| #[trigger]
                order_given(f, row[self->Number_column], self->Number_literal, order) && mark
                    == accepts(self->Number_op, order)
        } else {
            mark == self.holds(row, |a: Seq<char>, b: Seq<char>| NumOrder::Unordered)
        }
    }

    /// Whether the predicate holds of `row`, where `order` tells how two
    /// texts stand to each other as floating-point numbers. A row that has no
    /// value at the column, or a value that cannot be read as the comparison
    /// needs it, is not matched; nor is any row where the literal of a
    /// comparison of numbers cannot be read as a number.
    pub open spec fn holds(
        self,
        row: Seq<Seq<char>>,
        order: spec_fn(Seq<char>, Seq<char>) -> NumOrder,
    ) -> bool {
        match self {
            PredicateSpec::Always => true,
            PredicateSpec::Never => false,
            PredicateSpec::Int { column, negated, value } => {
                &&& 0 <= column < row.len()
                &&& parse_int(row[column]) is Some
                &&& (parse_int(row[column]).unwrap() == value) != negated
            },
            PredicateSpec::Text { column, negated, text } => {
                &&& 0 <= column < row.len()
                &&& (row[column] == text) != negated
            },
            PredicateSpec::Number { column, op, literal } => {
                &&& 0 <= column < row.len()
                &&& is_float_text(row[column])
                &&& is_float_text(literal)
                &&& accepts(op, order(row[column], literal))
            },
        }
    }
}

/// A clause that names a column that the table does not have, or whose
/// literal cannot be read as the comparison needs it, compiles to the
/// predicate that holds of no row.
pub proof fn lemma_fail_closed(columns: Seq<ColumnSpec>, clause: Seq<char>)
    requires
        ({
            let q = trimmed(clause);
            &&& q.len() > 0
            &&& q != seq!['t', 'r', 'u', 'e']
            &&& operator_of(q) matches Some(op) ==> {
                ||| column_index(columns, clause_column(q, op)) is None
                ||| !readable(
                    columns[column_index(columns, clause_column(q, op)).unwrap()].col_type,
                    op,
                    clause_literal(q, op),
                )
            }
        }),
    ensures
        compiled(columns, clause) == PredicateSpec::Never,
        forall|row: Seq<Seq<char>>, order: spec_fn(Seq<char>, Seq<char>) -> NumOrder|
            !(#[trigger] compiled(columns, clause).holds(row, order)),
{
}

/// Whether `literal` can be read as the comparison `op` with a column of
/// type `col_type` needs it: `==` and `!=` read it by the column's type, the
/// other operators as a floating-point number.
pub open spec fn readable(col_type: ColumnType, op: CompareOp, literal: Seq<char>) -> bool {
    if op == CompareOp::Equal || op == CompareOp::NotEqual {
        match col_type {
            ColumnType::Int => parse_int(literal) is Some,
            ColumnType::Float => is_float_text(literal),
            ColumnType::String => true,
        }
    } else {
        is_float_text(literal)
    }
}

/// Where `f` computes an order, a row is judged as `holds` says for that
/// order.
pub proof fn lemma_judged_holds<F: Fn(&str, &str) -> NumOrder>(
    predicate: PredicateSpec,
    row: Seq<Seq<char>>,
    f: F,
    mark: bool,
    order: spec_fn(Seq<char>, Seq<char>) -> NumOrder,
)
    requires
        predicate.judges(row, f, mark),
        ordered_by(f, order) || !predicate.asks_order(),
    ensures
        mark == predicate.holds(row, order),
{
}

/// `f` can be called on any two texts that are written as floating-point
/// numbers.
pub open spec fn compares_numbers<F: Fn(&str, &str) -> NumOrder>(f: F) -> bool {
    forall|a: &str, b: &str|
        is_float_text(a@) && is_float_text(b@) ==> #[trigger] call_requires(f, (a, b))
}

/// Whatever `f` returns on two texts is what `order` says of them.
pub open spec fn ordered_by<F: Fn(&str, &str) -> NumOrder>(
    f: F,
    order: spec_fn(Seq<char>, Seq<char>) -> NumOrder,
) -> bool {
    forall|a: &str, b: &str, r: NumOrder| #[trigger]
        call_ensures(f, (a, b), r) ==> r == order(a@, b@)
}

/// The characters of an operator.
fn operator_chars(op: CompareOp) -> (r: Vec<char>)
    ensures
        r@ == operator_text(op),
{
    let r = match op {
        CompareOp::Equal => vec!['=', '='],
        CompareOp::NotEqual => vec!['!', '='],
        CompareOp::AtLeast => vec!['>', '='],
        CompareOp::AtMost => vec!['<', '='],
        CompareOp::Above => vec!['>'],
        CompareOp::Below => vec!['<'],
    };
    assert(r@ =~= operator_text(op));
    r
}

/// The place of the first occurrence of `op` in `clause`.
fn locate(clause: &Vec<char>, op: CompareOp) -> (r: Option<usize>)
    ensures
        match r {
            Some(at) => find(clause@, operator_text(op)) == Some(at as int) && at + operator_text(
                op,
            ).len() <= clause@.len(),
            None => find(clause@, operator_text(op)) is None,
        },
{
    let text = operator_chars(op);
    find_in(clause, &text)
}

/// The operator of a clause and the place of its first occurrence.
fn locate_operator(clause: &Vec<char>) -> (r: Option<(CompareOp, usize)>)
    ensures
        match r {
            Some((op, at)) => operator_of(clause@) == Some(op) && find(clause@, operator_text(op))
                == Some(at as int) && at + operator_text(op).len() <= clause@.len(),
            None => operator_of(clause@) is None,
        },
{
    if let Some(at) = locate(clause, CompareOp::Equal) {
        return Some((CompareOp::Equal, at));
    }
    if let Some(at) = locate(clause, CompareOp::NotEqual) {
        return Some((CompareOp::NotEqual, at));
    }
    if let Some(at) = locate(clause, CompareOp::AtLeast) {
        return Some((CompareOp::AtLeast, at));
    }
    if let Some(at) = locate(clause, CompareOp::AtMost) {
        return Some((CompareOp::AtMost, at));
    }
    if let Some(at) = locate(clause, CompareOp::Above) {
        return Some((CompareOp::Above, at));
    }
    if let Some(at) = locate(clause, CompareOp::Below) {
        return Some((CompareOp::Below, at));
    }
    None
}

/// Builds the comparison of a column with a literal.
fn compare_with(col_type: ColumnType, op: CompareOp, column: usize, literal: &Vec<char>) -> (p:
    Predicate)
    ensures
        p@ == comparison(col_type, op, column as int, literal@),
{
    let equality = match op {
        CompareOp::Equal => true,
        CompareOp::NotEqual => true,
        _ => false,
    };
    let negated = match op {
        CompareOp::NotEqual => true,
        _ => false,
    };
    let as_int = match col_type {
        ColumnType::Int => true,
        _ => false,
    };
    let as_text = match col_type {
        ColumnType::String => true,
        _ => false,
    };
    if equality && as_int {
        match parse_i64(literal) {
            Some(n) => Predicate::Int { column, negated, value: n },
            None => Predicate::Never,
        }
    } else if equality && as_text {
        Predicate::Text { column, negated, text: chars_to_string(literal) }
    } else if is_float(literal) {
        Predicate::Number { column, op, literal: chars_to_string(literal) }
    } else {
        Predicate::Never
    }
}

/// Compiles the clause `query` against `columns`.
pub fn query_to_predicate(columns: &[ColumnSchema], query: &str) -> (p: Predicate)
    ensures
        p@ == compiled(columns_view(columns@), query@),
{
    let raw = str_chars(query);
    let q = trim(&raw);
    let truth: Vec<char> = vec!['t', 'r', 'u', 'e'];
    assert(truth@ =~= seq!['t', 'r', 'u', 'e']);
    if q.len() == 0 || crate::text::equal_chars(&q, &truth) {
        return Predicate::Always;
    }
    match locate_operator(&q) {
        None => Predicate::Never,
        Some((op, at)) => {
            let width = operator_chars(op).len();
            let left = copy_range(&q, 0, at);
            let name = trim(&left);
            let right = copy_range(&q, at + width, q.len());
            let right_trimmed = trim(&right);
            let literal = unquote(&right_trimmed);
            let name_text = chars_to_string(&name);
            match find_column(columns, name_text.as_str()) {
                None => Predicate::Never,
                Some(i) => compare_with(columns[i].col_type, op, i, &literal),
            }
        },
    }
}

impl Predicate {
    /// Whether the predicate holds of `row`. Two numbers with a fraction are
    /// compared by `float_order`, which is called on the row's value and the
    /// literal, in this order, and only where both are written as
    /// floating-point numbers. The result is what `holds` says for the
    /// order that `float_order` computes; where the predicate compares no
    /// such numbers it is what `holds` says for any order.
    pub fn matches<F: Fn(&str, &str) -> NumOrder>(&self, row: &Vec<String>, float_order: &F) -> (r:
        bool)
        requires
            compares_numbers(*float_order),
        ensures
            self@.judges(texts(row@), *float_order, r),
            forall|order: spec_fn(Seq<char>, Seq<char>) -> NumOrder|
                ordered_by(*float_order, order) ==> r == self@.holds(texts(row@), order),
            forall|order: spec_fn(Seq<char>, Seq<char>) -> NumOrder|
                !self@.asks_order() ==> r == #[trigger] self@.holds(texts(row@), order),
    {
        match self {
            Predicate::Always => true,
            Predicate::Never => false,
            Predicate::Int { column, negated, value } => {
                if *column >= row.len() {
                    return false;
                }
                let chars = str_chars(row[*column].as_str());
                match parse_i64(&chars) {
                    Some(v) => (v == *value) != *negated,
                    None => false,
                }
            },
            Predicate::Text { column, negated, text } => {
                if *column >= row.len() {
                    return false;
                }
                (row[*column] == *text) != *negated
            },
            Predicate::Number { column, op, literal } => {
                if *column >= row.len() {
                    return false;
                }
                let value = str_chars(row[*column].as_str());
                if !is_float(&value) || !is_float(&str_chars(literal.as_str())) {
                    return false;
                }
                let order = float_order(row[*column].as_str(), literal.as_str());
                assert(order_given(*float_order, texts(row@)[*column as int], literal@, order));
                op_accepts(*op, order)
            },
        }
    }
}

/// Whether `value op literal` holds where `value` stands to `literal` as
/// `order` says.
pub fn op_accepts(op: CompareOp, order: NumOrder) -> (r: bool)
    ensures
        r == accepts(op, order),
{
    match op {
        CompareOp::Equal => order == NumOrder::Equal,
        CompareOp::NotEqual => order != NumOrder::Equal,
        CompareOp::AtLeast => order == NumOrder::Greater || order == NumOrder::Equal,
        CompareOp::AtMost => order == NumOrder::Less || order == NumOrder::Equal,
        CompareOp::Above => order == NumOrder::Greater,
        CompareOp::Below => order == NumOrder::Less,
    }
}

} // verus!
