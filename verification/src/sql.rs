//! The statements of the query language and how their text is read.
//!
//! ```text
//! CREATE TABLE name (column [type] [PRIMARY KEY] [UNIQUE], ...)
//! INSERT INTO name [(column, ...)] VALUES (literal, ...)
//! UPDATE name SET column = literal [, ...] WHERE clause
//! DELETE FROM name WHERE clause
//! SELECT column, ... | * FROM name [WHERE clause]
//! LIST TABLES
//! ```
//!
//! Keywords are read in any case. A statement may end with one `;`. A
//! literal is trimmed and loses one layer of quotes. A column without a type
//! word holds text.

use crate::schema::{
    column_type_of,
    is_word,
    parse_column_type,
    same_word,
    ColumnSchema,
    ColumnSpec,
    ColumnType,
};
use crate::table::named_row;
use crate::text::{
    after_name,
    chars_to_string,
    copy_range,
    find,
    find_in,
    find_keyword,
    find_keyword_in,
    first_name,
    split,
    skip_blank,
    split_on,
    split_words,
    str_chars,
    take_name,
    texts,
    trim,
    trimmed,
    unquote,
    unquoted,
    words,
};
use vstd::prelude::*;

verus! {

/// A statement.
#[derive(Debug)]
pub enum Statement {
    CreateTable {
        table: String,
        schema: Vec<ColumnSchema>,
        primary_key: Option<String>,
        unique_columns: Vec<String>,
    },
    Insert { table: String, column_list: Option<Vec<String>>, values: Vec<String> },
    Update { table: String, assignments: Vec<(String, String)>, clause: String },
    Delete { table: String, clause: String },
    Select { table: String, columns: Vec<String>, filter: Option<String> },
    ListTables,
}

/// What a statement is, as contracts see it.
pub enum StatementSpec {
    CreateTable {
        table: Seq<char>,
        schema: Seq<ColumnSpec>,
        primary_key: Option<Seq<char>>,
        unique_columns: Seq<Seq<char>>,
    },
    Insert { table: Seq<char>, column_list: Option<Seq<Seq<char>>>, values: Seq<Seq<char>> },
    Update { table: Seq<char>, assignments: Seq<(Seq<char>, Seq<char>)>, clause: Seq<char> },
    Delete { table: Seq<char>, clause: Seq<char> },
    Select { table: Seq<char>, columns: Seq<Seq<char>>, filter: Option<Seq<char>> },
    ListTables,
}

/// An optional list of names, as contracts see it.
pub open spec fn list_view(list: Option<Vec<String>>) -> Option<Seq<Seq<char>>> {
    match list {
        Some(names) => Some(texts(names@)),
        None => None,
    }
}

impl View for Statement {
    type V = StatementSpec;

    open spec fn view(&self) -> StatementSpec {
        match self {
            Statement::CreateTable {
                table,
                schema,
                primary_key,
                unique_columns,
            } => StatementSpec::CreateTable {
                table: table@,
                schema: crate::schema::columns_view(schema@),
                primary_key: crate::table::name_view(*primary_key),
                unique_columns: texts(unique_columns@),
            },
            Statement::Insert { table, column_list, values } => StatementSpec::Insert {
                table: table@,
                column_list: list_view(*column_list),
                values: texts(values@),
            },
            Statement::Update { table, assignments, clause } => StatementSpec::Update {
                table: table@,
                assignments: named_row(assignments@),
                clause: clause@,
            },
            Statement::Delete { table, clause } => StatementSpec::Delete {
                table: table@,
                clause: clause@,
            },
            Statement::Select { table, columns, filter } => StatementSpec::Select {
                table: table@,
                columns: texts(columns@),
                filter: crate::table::name_view(*filter),
            },
            Statement::ListTables => StatementSpec::ListTables,
        }
    }
}

/// What the definition of a column says.
pub struct ColumnDef {
    pub name: Seq<char>,
    pub col_type: ColumnType,
    pub primary: bool,
    pub unique: bool,
}

/// The text of a statement without the whitespace around it and without
/// the `;` at its end, if it has one.
pub open spec fn statement_body(sql: Seq<char>) -> Seq<char> {
    let s = trimmed(sql);
    if s.len() > 0 && s[s.len() - 1] == ';' {
        trimmed(s.take(s.len() - 1))
    } else {
        s
    }
}

/// The pieces of a list, each trimmed.
pub open spec fn trimmed_all(pieces: Seq<Seq<char>>) -> Seq<Seq<char>> {
    Seq::new(pieces.len(), |i: int| trimmed(pieces[i]))
}

/// The pieces of a list, each read as a literal.
pub open spec fn literals(pieces: Seq<Seq<char>>) -> Seq<Seq<char>> {
    Seq::new(pieces.len(), |i: int| unquoted(trimmed(pieces[i])))
}

/// Whether a text is enclosed in round brackets.
pub open spec fn is_bracketed(s: Seq<char>) -> bool {
    s.len() >= 2 && s[0] == '(' && s[s.len() - 1] == ')'
}

/// What stands between the brackets of a bracketed text.
pub open spec fn inside(s: Seq<char>) -> Seq<char> {
    s.subrange(1, s.len() - 1)
}

/// The constraints that the words of a definition from index `from` on
/// state, as a pair of "is the primary key" and "is unique": any number of
/// `PRIMARY KEY` and `UNIQUE`. Any other word makes the definition invalid.
pub open spec fn flags_from(words: Seq<Seq<char>>, from: int) -> Option<(bool, bool)>
    decreases words.len() - from,
{
    if from < 0 {
        None
    } else if from >= words.len() {
        Some((false, false))
    } else if same_word(words[from], "UNIQUE"@) {
        match flags_from(words, from + 1) {
            Some(rest) => Some((rest.0, true)),
            None => None,
        }
    } else if from + 1 < words.len() && same_word(words[from], "PRIMARY"@) && same_word(
        words[from + 1],
        "KEY"@,
    ) {
        match flags_from(words, from + 2) {
            Some(rest) => Some((true, rest.1)),
            None => None,
        }
    } else {
        None
    }
}

/// The definition that the words of a piece of a column list state: a name,
/// then a type word or none, then constraints.
pub open spec fn definition(words: Seq<Seq<char>>) -> Option<ColumnDef> {
    if words.len() == 0 {
        None
    } else {
        let typed = words.len() > 1 && column_type_of(words[1]) is Some;
        let col_type = if typed {
            column_type_of(words[1]).unwrap()
        } else {
            ColumnType::String
        };
        match flags_from(
            words,
            if typed {
                2
            } else {
                1
            },
        ) {
            Some(flags) => Some(
                ColumnDef { name: words[0], col_type, primary: flags.0, unique: flags.1 },
            ),
            None => None,
        }
    }
}

/// The definition that each piece of a column list states.
pub open spec fn definitions(pieces: Seq<Seq<char>>) -> Seq<Option<ColumnDef>> {
    Seq::new(pieces.len(), |i: int| definition(words(pieces[i])))
}

/// Every piece states a definition.
pub open spec fn all_defined(defs: Seq<Option<ColumnDef>>) -> bool {
    forall|i: int| 0 <= i < defs.len() ==> (#[trigger] defs[i]) is Some
}

/// The columns that the definitions define, in order.
pub open spec fn defined_columns(defs: Seq<Option<ColumnDef>>) -> Seq<ColumnSpec> {
    Seq::new(
        defs.len(),
        |i: int| ColumnSpec { name: defs[i].unwrap().name, col_type: defs[i].unwrap().col_type },
    )
}

/// The names of the columns, among the first `count`, that are defined as
/// the primary key, where `key` holds, or as unique, where it does not.
pub open spec fn flagged(defs: Seq<Option<ColumnDef>>, key: bool, count: int) -> Seq<Seq<char>>
    decreases count,
{
    if count <= 0 {
        Seq::empty()
    } else {
        let front = flagged(defs, key, count - 1);
        let d = defs[count - 1].unwrap();
        if (key && d.primary) || (!key && d.unique) {
            front.push(d.name)
        } else {
            front
        }
    }
}

/// `CREATE` is followed by `TABLE`, a name and a bracketed list of column
/// definitions, of which at most one is the primary key.
pub open spec fn parsed_create(rest: Seq<char>) -> Option<StatementSpec> {
    let keyword = first_name(rest);
    let table = first_name(after_name(rest));
    let list = trimmed(after_name(after_name(rest)));
    let defs = definitions(split(inside(list), ','));
    let keys = flagged(defs, true, defs.len() as int);
    if same_word(keyword, "TABLE"@) && table.len() > 0 && is_bracketed(list) && all_defined(defs)
        && keys.len() <= 1 {
        Some(
            StatementSpec::CreateTable {
                table,
                schema: defined_columns(defs),
                primary_key: if keys.len() == 1 {
                    Some(keys[0])
                } else {
                    None
                },
                unique_columns: flagged(defs, false, defs.len() as int),
            },
        )
    } else {
        None
    }
}

/// `INSERT` is followed by `INTO`, a name, a bracketed list of column names
/// or none, `VALUES`, and a bracketed list of literals.
pub open spec fn parsed_insert(rest: Seq<char>) -> Option<StatementSpec> {
    let keyword = first_name(rest);
    let table = first_name(after_name(rest));
    let tail = crate::text::skip_whitespace(after_name(after_name(rest)));
    let listed = tail.len() > 0 && tail[0] == '(';
    let close = find(tail, seq![')']);
    let column_list = if listed && close is Some {
        Some(trimmed_all(split(tail.subrange(1, close.unwrap()), ',')))
    } else {
        None
    };
    let values_part = if listed && close is Some {
        tail.skip(close.unwrap() + 1)
    } else {
        tail
    };
    let values = trimmed(after_name(values_part));
    if same_word(keyword, "INTO"@) && table.len() > 0 && (listed ==> close is Some) && same_word(
        first_name(values_part),
        "VALUES"@,
    ) && is_bracketed(values) {
        Some(
            StatementSpec::Insert {
                table,
                column_list,
                values: literals(split(inside(values), ',')),
            },
        )
    } else {
        None
    }
}

/// The assignment that a piece of a list of assignments states: a column
/// name, `=`, and a literal.
pub open spec fn assignment(piece: Seq<char>) -> Option<(Seq<char>, Seq<char>)> {
    match find(piece, seq!['=']) {
        Some(at) => {
            let column = trimmed(piece.subrange(0, at));
            let literal = unquoted(trimmed(piece.subrange(at + 1, piece.len() as int)));
            if column.len() > 0 {
                Some((column, literal))
            } else {
                None
            }
        },
        None => None,
    }
}

/// Every piece states an assignment.
pub open spec fn all_assigned(pieces: Seq<Seq<char>>) -> bool {
    forall|i: int| 0 <= i < pieces.len() ==> assignment(#[trigger] pieces[i]) is Some
}

/// The assignments that the pieces state, in order.
pub open spec fn assignments_of(pieces: Seq<Seq<char>>) -> Seq<(Seq<char>, Seq<char>)> {
    Seq::new(pieces.len(), |i: int| assignment(pieces[i]).unwrap())
}

/// `UPDATE` is followed by a name, `SET`, a list of assignments, `WHERE`
/// and a clause.
pub open spec fn parsed_update(rest: Seq<char>) -> Option<StatementSpec> {
    let table = first_name(rest);
    let keyword = first_name(after_name(rest));
    let tail = after_name(after_name(rest));
    match find_keyword(tail, "WHERE"@) {
        Some(at) => {
            let pieces = split(tail.subrange(0, at), ',');
            let clause = trimmed(tail.skip(at + "WHERE"@.len()));
            if table.len() > 0 && same_word(keyword, "SET"@) && clause.len() > 0 && all_assigned(
                pieces,
            ) {
                Some(
                    StatementSpec::Update { table, assignments: assignments_of(pieces), clause },
                )
            } else {
                None
            }
        },
        None => None,
    }
}

/// `DELETE` is followed by `FROM`, a name, `WHERE` and a clause.
pub open spec fn parsed_delete(rest: Seq<char>) -> Option<StatementSpec> {
    let keyword = first_name(rest);
    let table = first_name(after_name(rest));
    let tail = after_name(after_name(rest));
    let clause = trimmed(after_name(tail));
    if same_word(keyword, "FROM"@) && table.len() > 0 && same_word(first_name(tail), "WHERE"@)
        && clause.len() > 0 {
        Some(StatementSpec::Delete { table, clause })
    } else {
        None
    }
}

/// No piece is empty.
pub open spec fn none_empty(pieces: Seq<Seq<char>>) -> bool {
    forall|i: int| 0 <= i < pieces.len() ==> (#[trigger] pieces[i]).len() > 0
}

/// `SELECT` is followed by a list of column names or `*`, `FROM`, a name,
/// and `WHERE` with a clause or nothing.
pub open spec fn parsed_select(rest: Seq<char>) -> Option<StatementSpec> {
    match find_keyword(rest, "FROM"@) {
        Some(at) => {
            let columns = trimmed_all(split(trimmed(rest.subrange(0, at)), ','));
            let source = rest.skip(at + "FROM"@.len());
            let table = first_name(source);
            let tail = trimmed(after_name(source));
            let clause = trimmed(after_name(tail));
            if !none_empty(columns) || table.len() == 0 {
                None
            } else if tail.len() == 0 {
                Some(StatementSpec::Select { table, columns, filter: None })
            } else if same_word(first_name(tail), "WHERE"@) && clause.len() > 0 {
                Some(StatementSpec::Select { table, columns, filter: Some(clause) })
            } else {
                None
            }
        },
        None => None,
    }
}

/// `LIST` is followed by `TABLES` and nothing else.
pub open spec fn parsed_list(rest: Seq<char>) -> Option<StatementSpec> {
    if same_word(first_name(rest), "TABLES"@) && trimmed(after_name(rest)).len() == 0 {
        Some(StatementSpec::ListTables)
    } else {
        None
    }
}

/// The statement that a text states, if it states one. The first word
/// decides how the rest is read.
pub open spec fn parsed(sql: Seq<char>) -> Option<StatementSpec> {
    let body = statement_body(sql);
    let verb = first_name(body);
    let rest = after_name(body);
    if same_word(verb, "CREATE"@) {
        parsed_create(rest)
    } else if same_word(verb, "INSERT"@) {
        parsed_insert(rest)
    } else if same_word(verb, "UPDATE"@) {
        parsed_update(rest)
    } else if same_word(verb, "DELETE"@) {
        parsed_delete(rest)
    } else if same_word(verb, "SELECT"@) {
        parsed_select(rest)
    } else if same_word(verb, "LIST"@) {
        parsed_list(rest)
    } else {
        None
    }
}

/// Whether an optional statement is what a text states.
pub open spec fn states(r: Option<Statement>, expected: Option<StatementSpec>) -> bool {
    match r {
        Some(statement) => expected == Some(statement@),
        None => expected is None,
    }
}

/// The text of a statement without whitespace around it and without the `;`
/// at its end.
fn body_of(sql: &str) -> (r: Vec<char>)
    ensures
        r@ == statement_body(sql@),
{
    let raw = str_chars(sql);
    let s = trim(&raw);
    if s.len() > 0 && s[s.len() - 1] == ';' {
        let cut = copy_range(&s, 0, s.len() - 1);
        assert(cut@ == s@.take(s.len() - 1));
        trim(&cut)
    } else {
        s
    }
}

/// Whether `v` is enclosed in round brackets.
fn bracketed(v: &Vec<char>) -> (r: bool)
    ensures
        r == is_bracketed(v@),
{
    v.len() >= 2 && v[0] == '(' && v[v.len() - 1] == ')'
}

/// What stands between the brackets of `v`.
fn inner(v: &Vec<char>) -> (r: Vec<char>)
    requires
        is_bracketed(v@),
    ensures
        r@ == inside(v@),
{
    copy_range(v, 1, v.len() - 1)
}

/// The pieces of a list between commas, each trimmed.
fn trimmed_pieces(text: &Vec<char>) -> (r: Vec<String>)
    ensures
        texts(r@) == trimmed_all(split(text@, ',')),
{
    let pieces = split_on(text, ',');
    let mut out: Vec<String> = Vec::new();
    let mut i: usize = 0;
    while i < pieces.len()
        invariant
            i <= pieces.len(),
            pieces@.len() == split(text@, ',').len(),
            forall|k: int|
                0 <= k < pieces@.len() ==> (#[trigger] pieces@[k])@ == split(text@, ',')[k],
            out@.len() == i,
            forall|k: int| 0 <= k < i ==> (#[trigger] out@[k])@ == trimmed(split(text@, ',')[k]),
        decreases pieces.len() - i,
    {
        out.push(chars_to_string(&trim(&pieces[i])));
        i += 1;
    }
    assert(texts(out@) =~= trimmed_all(split(text@, ',')));
    out
}

/// The pieces of a list between commas, each read as a literal.
fn literal_pieces(text: &Vec<char>) -> (r: Vec<String>)
    ensures
        texts(r@) == literals(split(text@, ',')),
{
    let pieces = split_on(text, ',');
    let mut out: Vec<String> = Vec::new();
    let mut i: usize = 0;
    while i < pieces.len()
        invariant
            i <= pieces.len(),
            pieces@.len() == split(text@, ',').len(),
            forall|k: int|
                0 <= k < pieces@.len() ==> (#[trigger] pieces@[k])@ == split(text@, ',')[k],
            out@.len() == i,
            forall|k: int|
                0 <= k < i ==> (#[trigger] out@[k])@ == unquoted(
                    trimmed(split(text@, ',')[k]),
                ),
        decreases pieces.len() - i,
    {
        out.push(chars_to_string(&unquote(&trim(&pieces[i]))));
        i += 1;
    }
    assert(texts(out@) =~= literals(split(text@, ',')));
    out
}

/// The words of a list, as contracts see them.
pub open spec fn word_views(words: Seq<Vec<char>>) -> Seq<Seq<char>> {
    Seq::new(words.len(), |i: int| words[i]@)
}

/// Reads the constraints of a definition from its word at index `from` on.
fn parse_flags(words: &Vec<Vec<char>>, from: usize) -> (r: Option<(bool, bool)>)
    ensures
        r == flags_from(word_views(words@), from as int),
    decreases words.len() - from,
{
    if from >= words.len() {
        return Some((false, false));
    }
    if is_word(&words[from], "UNIQUE") {
        match parse_flags(words, from + 1) {
            Some(rest) => Some((rest.0, true)),
            None => None,
        }
    } else if from + 1 < words.len() && is_word(&words[from], "PRIMARY") && is_word(
        &words[from + 1],
        "KEY",
    ) {
        match parse_flags(words, from + 2) {
            Some(rest) => Some((true, rest.1)),
            None => None,
        }
    } else {
        None
    }
}

/// A column with what its definition says of the primary key and of
/// uniqueness.
pub struct Definition {
    pub column: ColumnSchema,
    pub primary: bool,
    pub unique: bool,
}

impl View for Definition {
    type V = ColumnDef;

    open spec fn view(&self) -> ColumnDef {
        ColumnDef {
            name: self.column.name@,
            col_type: self.column.col_type,
            primary: self.primary,
            unique: self.unique,
        }
    }
}

/// Reads the definition of a column.
fn parse_definition(piece: &Vec<char>) -> (r: Option<Definition>)
    ensures
        match r {
            Some(d) => definition(words(piece@)) == Some(d@),
            None => definition(words(piece@)) is None,
        },
{
    let parts = split_words(piece);
    assert(word_views(parts@) =~= words(piece@));
    if parts.len() == 0 {
        return None;
    }
    let declared = if parts.len() > 1 {
        parse_column_type(&parts[1])
    } else {
        None
    };
    let (col_type, from) = match declared {
        Some(t) => (t, 2usize),
        None => (ColumnType::String, 1usize),
    };
    match parse_flags(&parts, from) {
        Some(flags) => Some(
            Definition {
                column: ColumnSchema { name: chars_to_string(&parts[0]), col_type },
                primary: flags.0,
                unique: flags.1,
            },
        ),
        None => None,
    }
}

/// Reads what follows `CREATE`.
fn parse_create(rest: &Vec<char>) -> (r: Option<Statement>)
    ensures
        states(r, parsed_create(rest@)),
{
    let (keyword, after_keyword) = take_name(rest);
    let (table, after_table) = take_name(&after_keyword);
    let list = trim(&after_table);
    if !is_word(&keyword, "TABLE") || table.len() == 0 || !bracketed(&list) {
        return None;
    }
    let pieces = split_on(&inner(&list), ',');
    let ghost defs = definitions(split(inside(list@), ','));
    let mut schema: Vec<ColumnSchema> = Vec::new();
    let mut keys: Vec<String> = Vec::new();
    let mut unique_columns: Vec<String> = Vec::new();
    let mut i: usize = 0;
    while i < pieces.len()
        invariant
            i <= pieces.len(),
            pieces@.len() == defs.len(),
            defs == definitions(split(inside(list@), ',')),
            !all_defined(defs) ==> parsed_create(rest@) is None,
            forall|k: int|
                0 <= k < pieces@.len() ==> (#[trigger] pieces@[k])@ == split(inside(list@), ',')[k],
            forall|k: int| 0 <= k < i ==> (#[trigger] defs[k]) is Some,
            schema@.len() == i,
            forall|k: int|
                0 <= k < i ==> (#[trigger] schema@[k])@ == (ColumnSpec {
                    name: defs[k].unwrap().name,
                    col_type: defs[k].unwrap().col_type,
                }),
            texts(keys@) == flagged(defs, true, i as int),
            texts(unique_columns@) == flagged(defs, false, i as int),
        decreases pieces.len() - i,
    {
        match parse_definition(&pieces[i]) {
            Some(d) => {
                assert(defs[i as int] == Some(d@));
                if d.primary {
                    keys.push(d.column.name.clone());
                    assert(texts(keys@) =~= flagged(defs, true, i + 1));
                }
                if d.unique {
                    unique_columns.push(d.column.name.clone());
                    assert(texts(unique_columns@) =~= flagged(defs, false, i + 1));
                }
                schema.push(d.column);
            },
            None => {
                assert(defs[i as int] is None);
                return None;
            },
        }
        i += 1;
    }
    if keys.len() > 1 {
        return None;
    }
    let primary_key = if keys.len() == 1 {
        Some(keys[0].clone())
    } else {
        None
    };
    assert(crate::schema::columns_view(schema@) =~= defined_columns(defs));
    Some(
        Statement::CreateTable {
            table: chars_to_string(&table),
            schema,
            primary_key,
            unique_columns,
        },
    )
}

/// Reads what follows `INSERT`.
fn parse_insert(rest: &Vec<char>) -> (r: Option<Statement>)
    ensures
        states(r, parsed_insert(rest@)),
{
    let (keyword, after_keyword) = take_name(rest);
    let (table, after_table) = take_name(&after_keyword);
    if !is_word(&keyword, "INTO") || table.len() == 0 {
        return None;
    }
    let tail = skip_blank(&after_table);
    let listed = tail.len() > 0 && tail[0] == '(';
    let mut column_list: Option<Vec<String>> = None;
    let mut values_part = copy_range(&tail, 0, tail.len());
    assert(values_part@ == tail@);
    if listed {
        let bracket: Vec<char> = vec![')'];
        assert(bracket@ =~= seq![')']);
        match find_in(&tail, &bracket) {
            Some(close) => {
                assert(bracket@.len() == 1);
                column_list = Some(trimmed_pieces(&copy_range(&tail, 1, close)));
                values_part = copy_range(&tail, close + 1, tail.len());
            },
            None => {
                return None;
            },
        }
    }
    let (keyword2, after_values) = take_name(&values_part);
    let values = trim(&after_values);
    if !is_word(&keyword2, "VALUES") || !bracketed(&values) {
        return None;
    }
    Some(
        Statement::Insert {
            table: chars_to_string(&table),
            column_list,
            values: literal_pieces(&inner(&values)),
        },
    )
}

/// Reads an assignment.
fn parse_assignment(piece: &Vec<char>) -> (r: Option<(String, String)>)
    ensures
        match r {
            Some(pair) => assignment(piece@) == Some((pair.0@, pair.1@)),
            None => assignment(piece@) is None,
        },
{
    let sign: Vec<char> = vec!['='];
    assert(sign@ =~= seq!['=']);
    match find_in(piece, &sign) {
        Some(at) => {
            assert(sign@.len() == 1);
            let end = piece.len();
            let column = trim(&copy_range(piece, 0, at));
            let literal = unquote(&trim(&copy_range(piece, at + 1, end)));
            if column.len() > 0 {
                Some((chars_to_string(&column), chars_to_string(&literal)))
            } else {
                None
            }
        },
        None => None,
    }
}

/// Reads what follows `UPDATE`.
fn parse_update(rest: &Vec<char>) -> (r: Option<Statement>)
    ensures
        states(r, parsed_update(rest@)),
{
    let (table, after_table) = take_name(rest);
    let (keyword, tail) = take_name(&after_table);
    match find_keyword_in(&tail, "WHERE") {
        Some(at) => {
            let width = str_chars("WHERE").len();
            let end = tail.len();
            let clause = trim(&copy_range(&tail, at + width, end));
            if table.len() == 0 || !is_word(&keyword, "SET") || clause.len() == 0 {
                return None;
            }
            let ghost all = split(tail@.subrange(0, at as int), ',');
            let pieces = split_on(&copy_range(&tail, 0, at), ',');
            let mut assignments: Vec<(String, String)> = Vec::new();
            let mut i: usize = 0;
            while i < pieces.len()
                invariant
                    i <= pieces.len(),
                    pieces@.len() == all.len(),
                    !all_assigned(all) ==> parsed_update(rest@) is None,
                    forall|k: int| 0 <= k < pieces@.len() ==> (#[trigger] pieces@[k])@ == all[k],
                    forall|k: int| 0 <= k < i ==> assignment(#[trigger] all[k]) is Some,
                    assignments@.len() == i,
                    forall|k: int|
                        0 <= k < i ==> ((#[trigger] assignments@[k]).0@, assignments@[k].1@)
                            == assignment(all[k]).unwrap(),
                decreases pieces.len() - i,
            {
                match parse_assignment(&pieces[i]) {
                    Some(pair) => {
                        assignments.push(pair);
                    },
                    None => {
                        assert(assignment(all[i as int]) is None);
                        return None;
                    },
                }
                i += 1;
            }
            assert(named_row(assignments@) =~= assignments_of(all));
            Some(
                Statement::Update {
                    table: chars_to_string(&table),
                    assignments,
                    clause: chars_to_string(&clause),
                },
            )
        },
        None => None,
    }
}

/// Reads what follows `DELETE`.
fn parse_delete(rest: &Vec<char>) -> (r: Option<Statement>)
    ensures
        states(r, parsed_delete(rest@)),
{
    let (keyword, after_keyword) = take_name(rest);
    let (table, tail) = take_name(&after_keyword);
    let (keyword2, after_where) = take_name(&tail);
    let clause = trim(&after_where);
    if is_word(&keyword, "FROM") && table.len() > 0 && is_word(&keyword2, "WHERE") && clause.len()
        > 0 {
        Some(Statement::Delete { table: chars_to_string(&table), clause: chars_to_string(&clause) })
    } else {
        None
    }
}

/// Whether no string of a list is empty.
fn has_no_blank(list: &Vec<String>) -> (r: bool)
    ensures
        r == none_empty(texts(list@)),
{
    let mut i: usize = 0;
    while i < list.len()
        invariant
            i <= list.len(),
            forall|k: int| 0 <= k < i ==> (#[trigger] texts(list@)[k]).len() > 0,
        decreases list.len() - i,
    {
        if list[i].as_str().unicode_len() == 0 {
            assert(texts(list@)[i as int].len() == 0);
            return false;
        }
        i += 1;
    }
    true
}

/// Reads what follows `SELECT`.
fn parse_select(rest: &Vec<char>) -> (r: Option<Statement>)
    ensures
        states(r, parsed_select(rest@)),
{
    match find_keyword_in(rest, "FROM") {
        Some(at) => {
            let width = str_chars("FROM").len();
            let end = rest.len();
            let columns = trimmed_pieces(&trim(&copy_range(rest, 0, at)));
            let source = copy_range(rest, at + width, end);
            let (table, after_table) = take_name(&source);
            let tail = trim(&after_table);
            let (keyword, after_where) = take_name(&tail);
            let clause = trim(&after_where);
            if !has_no_blank(&columns) || table.len() == 0 {
                None
            } else if tail.len() == 0 {
                Some(Statement::Select { table: chars_to_string(&table), columns, filter: None })
            } else if is_word(&keyword, "WHERE") && clause.len() > 0 {
                Some(
                    Statement::Select {
                        table: chars_to_string(&table),
                        columns,
                        filter: Some(chars_to_string(&clause)),
                    },
                )
            } else {
                None
            }
        },
        None => None,
    }
}

/// Reads what follows `LIST`.
fn parse_list(rest: &Vec<char>) -> (r: Option<Statement>)
    ensures
        states(r, parsed_list(rest@)),
{
    let (keyword, tail) = take_name(rest);
    if is_word(&keyword, "TABLES") && trim(&tail).len() == 0 {
        Some(Statement::ListTables)
    } else {
        None
    }
}

/// Reads a statement. `None` says that the text states none.
pub fn parse_statement(sql: &str) -> (r: Option<Statement>)
    ensures
        states(r, parsed(sql@)),
{
    let body = body_of(sql);
    let (verb, rest) = take_name(&body);
    if is_word(&verb, "CREATE") {
        parse_create(&rest)
    } else if is_word(&verb, "INSERT") {
        parse_insert(&rest)
    } else if is_word(&verb, "UPDATE") {
        parse_update(&rest)
    } else if is_word(&verb, "DELETE") {
        parse_delete(&rest)
    } else if is_word(&verb, "SELECT") {
        parse_select(&rest)
    } else if is_word(&verb, "LIST") {
        parse_list(&rest)
    } else {
        None
    }
}

} // verus!
