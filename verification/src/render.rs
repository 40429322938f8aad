//! The text that shows the rows of a selection, or a list of table names.
//!
//! A selection is laid out as a table: a line of column names, a rule of
//! dashes, and a line for each row. Every cell is padded with spaces on its
//! right to the width of its column and followed by one space. The width of
//! a column is the length of the longest text in it, the name included;
//! lengths are counted in characters.

use crate::schema::{column_index, column_names, find_column, ColumnSpec, Schema};
use crate::table::{picked, rows_texts, Table, TableSpec};
use crate::text::{chars_to_string, str_chars, texts};
use vstd::prelude::*;

verus! {

/// `n` times the character `c`; no character where `n` is not positive.
pub open spec fn fill(n: int, c: char) -> Seq<char> {
    Seq::new(
        if n > 0 {
            n as nat
        } else {
            0
        },
        |i: int| c,
    )
}

/// `text`, followed by as many spaces as it lacks to `width` characters.
pub open spec fn padded(text: Seq<char>, width: int) -> Seq<char> {
    text + fill(width - text.len(), ' ')
}

/// The value that `row` has for the column called `name`; the empty text
/// where the schema has no such column or the row is too short.
pub open spec fn cell(schema: Seq<ColumnSpec>, row: Seq<Seq<char>>, name: Seq<char>) -> Seq<char> {
    match column_index(schema, name) {
        Some(i) if i < row.len() => row[i],
        _ => Seq::empty(),
    }
}

/// The width of the column called `name`: the length of the longest of the
/// name and of the values that `rows` have for it.
pub open spec fn column_width(
    schema: Seq<ColumnSpec>,
    rows: Seq<Seq<Seq<char>>>,
    name: Seq<char>,
) -> int
    decreases rows.len(),
{
    if rows.len() == 0 {
        name.len() as int
    } else {
        let before = column_width(schema, rows.take(rows.len() - 1), name);
        let here = cell(schema, rows[rows.len() - 1], name).len() as int;
        if here > before {
            here
        } else {
            before
        }
    }
}

/// The line of column names: each name padded to its column's width and
/// followed by a space.
pub open spec fn header_cells(
    schema: Seq<ColumnSpec>,
    rows: Seq<Seq<Seq<char>>>,
    names: Seq<Seq<char>>,
) -> Seq<char>
    decreases names.len(),
{
    if names.len() == 0 {
        Seq::empty()
    } else {
        let name = names[names.len() - 1];
        header_cells(schema, rows, names.take(names.len() - 1)) + padded(
            name,
            column_width(schema, rows, name),
        ).push(' ')
    }
}

/// The rule under the column names: for each column as many dashes as it is
/// wide, and one more.
pub open spec fn rule_cells(
    schema: Seq<ColumnSpec>,
    rows: Seq<Seq<Seq<char>>>,
    names: Seq<Seq<char>>,
) -> Seq<char>
    decreases names.len(),
{
    if names.len() == 0 {
        Seq::empty()
    } else {
        let name = names[names.len() - 1];
        rule_cells(schema, rows, names.take(names.len() - 1)) + fill(
            column_width(schema, rows, name) + 1,
            '-',
        )
    }
}

/// The line of a row: its value for each column padded to the column's
/// width and followed by a space.
pub open spec fn row_cells(
    schema: Seq<ColumnSpec>,
    rows: Seq<Seq<Seq<char>>>,
    names: Seq<Seq<char>>,
    row: Seq<Seq<char>>,
) -> Seq<char>
    decreases names.len(),
{
    if names.len() == 0 {
        Seq::empty()
    } else {
        let name = names[names.len() - 1];
        row_cells(schema, rows, names.take(names.len() - 1), row) + padded(
            cell(schema, row, name),
            column_width(schema, rows, name),
        ).push(' ')
    }
}

/// The lines of the first `count` rows, each ended by a line feed.
pub open spec fn body_lines(
    schema: Seq<ColumnSpec>,
    rows: Seq<Seq<Seq<char>>>,
    names: Seq<Seq<char>>,
    count: int,
) -> Seq<char>
    decreases count,
{
    if count <= 0 {
        Seq::empty()
    } else {
        body_lines(schema, rows, names, count - 1) + row_cells(
            schema,
            rows,
            names,
            rows[count - 1],
        ).push('\n')
    }
}

/// The table that shows `rows` under the columns called `names`.
pub open spec fn table_text(
    schema: Seq<ColumnSpec>,
    rows: Seq<Seq<Seq<char>>>,
    names: Seq<Seq<char>>,
) -> Seq<char> {
    header_cells(schema, rows, names).push('\n') + rule_cells(schema, rows, names).push('\n')
        + body_lines(schema, rows, names, rows.len() as int)
}

/// The columns that a selection shows: all columns of the table where
/// `columns` is the single name `*`, else `columns`.
pub open spec fn shown_columns(schema: Seq<ColumnSpec>, columns: Seq<Seq<char>>) -> Seq<Seq<char>> {
    if columns.len() == 1 && columns[0] == seq!['*'] {
        column_names(schema)
    } else {
        columns
    }
}

/// The table that shows the marked rows of `t` under `columns`.
pub open spec fn selection_text(t: TableSpec, columns: Seq<Seq<char>>, marks: Seq<bool>) -> Seq<
    char,
> {
    table_text(t.schema, picked(t.rows, marks, true), shown_columns(t.schema, columns))
}

/// The lines of the first `count` names of a list, each padded to twenty
/// characters, followed by ` |` and a rule.
pub open spec fn list_lines(names: Seq<Seq<char>>, count: int) -> Seq<char>
    decreases count,
{
    if count <= 0 {
        Seq::empty()
    } else {
        list_lines(names, count - 1) + padded(names[count - 1], 20) + seq![' ', '|', '\n'] + fill(
            21,
            '-',
        ).push('\n')
    }
}

/// The list that shows `names`: a title, a rule, and a line and a rule for
/// each name.
pub open spec fn list_text(names: Seq<Seq<char>>) -> Seq<char> {
    "Tables in the database:"@.push('\n') + fill(21, '-').push('\n') + list_lines(
        names,
        names.len() as int,
    )
}

/// Appends `n` times the character `c`.
fn push_fill(out: &mut Vec<char>, n: usize, c: char)
    ensures
        final(out)@ == old(out)@ + fill(n as int, c),
{
    let mut i: usize = 0;
    while i < n
        invariant
            i <= n,
            out@ == old(out)@ + fill(i as int, c),
        decreases n - i,
    {
        out.push(c);
        assert(out@ =~= old(out)@ + fill(i + 1, c));
        i += 1;
    }
    assert(out@ =~= old(out)@ + fill(n as int, c));
}

/// Appends the characters of `text`.
pub fn push_chars(out: &mut Vec<char>, text: &Vec<char>)
    ensures
        final(out)@ == old(out)@ + text@,
{
    let mut i: usize = 0;
    while i < text.len()
        invariant
            i <= text.len(),
            out@ == old(out)@ + text@.take(i as int),
        decreases text.len() - i,
    {
        out.push(text[i]);
        assert(out@ =~= old(out)@ + text@.take(i + 1));
        i += 1;
    }
    assert(text@.take(text.len() as int) == text@);
}

/// Appends `text`, padded with spaces to `width` characters.
fn push_padded(out: &mut Vec<char>, text: &Vec<char>, width: usize)
    ensures
        final(out)@ == old(out)@ + padded(text@, width as int),
{
    push_chars(out, text);
    let missing = if width > text.len() {
        width - text.len()
    } else {
        0
    };
    push_fill(out, missing, ' ');
    assert(fill(missing as int, ' ') =~= fill(width - text@.len(), ' '));
    assert(out@ =~= old(out)@ + padded(text@, width as int));
}

/// The value that `row` has for the column called `name`.
fn cell_of(schema: &Schema, row: &Vec<String>, name: &String) -> (r: Vec<char>)
    ensures
        r@ == cell(schema@, texts(row@), name@),
{
    match find_column(schema.columns.as_slice(), name.as_str()) {
        Some(i) => {
            if i < row.len() {
                str_chars(row[i].as_str())
            } else {
                Vec::new()
            }
        },
        None => Vec::new(),
    }
}

/// The width of the column called `name`.
fn width_of(schema: &Schema, rows: &Vec<Vec<String>>, name: &String) -> (w: usize)
    ensures
        w == column_width(schema@, rows_texts(rows@), name@),
{
    let ghost all = rows_texts(rows@);
    let mut w: usize = name.as_str().unicode_len();
    let mut r: usize = 0;
    while r < rows.len()
        invariant
            r <= rows.len(),
            all == rows_texts(rows@),
            w == column_width(schema@, all.take(r as int), name@),
        decreases rows.len() - r,
    {
        proof {
            let next = all.take(r + 1);
            assert(next.take(next.len() - 1) == all.take(r as int));
            assert(next[next.len() - 1] == texts(rows@[r as int]@));
        }
        let here = cell_of(schema, &rows[r], name).len();
        if here > w {
            w = here;
        }
        r += 1;
    }
    assert(all.take(rows.len() as int) == all);
    w
}

/// Lays out `rows` as a table under the columns called `names`.
pub fn render_table(schema: &Schema, rows: &Vec<Vec<String>>, names: &Vec<String>) -> (r: String)
    ensures
        r@ == table_text(schema@, rows_texts(rows@), texts(names@)),
{
    let ghost all = rows_texts(rows@);
    let ghost heads = texts(names@);
    let mut widths: Vec<usize> = Vec::new();
    let mut c: usize = 0;
    while c < names.len()
        invariant
            c <= names.len(),
            widths@.len() == c,
            all == rows_texts(rows@),
            heads == texts(names@),
            forall|k: int|
                0 <= k < c ==> #[trigger] widths@[k] == column_width(schema@, all, heads[k]),
        decreases names.len() - c,
    {
        widths.push(width_of(schema, rows, &names[c]));
        c += 1;
    }
    let mut out: Vec<char> = Vec::new();
    let mut c: usize = 0;
    while c < names.len()
        invariant
            c <= names.len(),
            widths@.len() == names.len(),
            heads == texts(names@),
            forall|k: int|
                0 <= k < names.len() ==> #[trigger] widths@[k] == column_width(
                    schema@,
                    all,
                    heads[k],
                ),
            out@ == header_cells(schema@, all, heads.take(c as int)),
        decreases names.len() - c,
    {
        proof {
            let next = heads.take(c + 1);
            assert(next.take(next.len() - 1) == heads.take(c as int));
            assert(next[next.len() - 1] == names@[c as int]@);
        }
        let name = str_chars(names[c].as_str());
        push_padded(&mut out, &name, widths[c]);
        out.push(' ');
        assert(out@ =~= header_cells(schema@, all, heads.take(c + 1)));
        c += 1;
    }
    assert(heads.take(names.len() as int) == heads);
    out.push('\n');
    let ghost header = out@;
    let mut c: usize = 0;
    while c < names.len()
        invariant
            c <= names.len(),
            widths@.len() == names.len(),
            heads == texts(names@),
            forall|k: int|
                0 <= k < names.len() ==> #[trigger] widths@[k] == column_width(
                    schema@,
                    all,
                    heads[k],
                ),
            out@ == header + rule_cells(schema@, all, heads.take(c as int)),
        decreases names.len() - c,
    {
        proof {
            let next = heads.take(c + 1);
            assert(next.take(next.len() - 1) == heads.take(c as int));
            assert(next[next.len() - 1] == names@[c as int]@);
        }
        push_fill(&mut out, widths[c], '-');
        out.push('-');
        assert(fill(widths@[c as int] as int, '-').push('-') =~= fill(
            widths@[c as int] + 1,
            '-',
        ));
        assert(out@ =~= header + rule_cells(schema@, all, heads.take(c + 1)));
        c += 1;
    }
    out.push('\n');
    let ghost top = out@;
    assert(top =~= header_cells(schema@, all, heads).push('\n') + rule_cells(
        schema@,
        all,
        heads,
    ).push('\n'));
    let mut r: usize = 0;
    while r < rows.len()
        invariant
            r <= rows.len(),
            widths@.len() == names.len(),
            all == rows_texts(rows@),
            heads == texts(names@),
            forall|k: int|
                0 <= k < names.len() ==> #[trigger] widths@[k] == column_width(
                    schema@,
                    all,
                    heads[k],
                ),
            out@ == top + body_lines(schema@, all, heads, r as int),
        decreases rows.len() - r,
    {
        let ghost start = out@;
        let ghost row = all[r as int];
        assert(out@ =~= start + row_cells(schema@, all, heads.take(0), row));
        let mut c: usize = 0;
        while c < names.len()
            invariant
                c <= names.len(),
                r < rows.len(),
                widths@.len() == names.len(),
                all == rows_texts(rows@),
                heads == texts(names@),
                row == texts(rows@[r as int]@),
                forall|k: int|
                    0 <= k < names.len() ==> #[trigger] widths@[k] == column_width(
                        schema@,
                        all,
                        heads[k],
                    ),
                out@ == start + row_cells(schema@, all, heads.take(c as int), row),
            decreases names.len() - c,
        {
            proof {
                let next = heads.take(c + 1);
                assert(next.take(next.len() - 1) == heads.take(c as int));
                assert(next[next.len() - 1] == names@[c as int]@);
            }
            let value = cell_of(schema, &rows[r], &names[c]);
            push_padded(&mut out, &value, widths[c]);
            out.push(' ');
            assert(out@ =~= start + row_cells(schema@, all, heads.take(c + 1), row));
            c += 1;
        }
        out.push('\n');
        assert(heads.take(names.len() as int) == heads);
        assert(out@ == start + row_cells(schema@, all, heads, row).push('\n'));
        assert(out@ =~= top + body_lines(schema@, all, heads, r + 1));
        r += 1;
    }
    chars_to_string(&out)
}

/// Lays out the marked rows of `table` under `columns`, or under all its
/// columns where `columns` is the single name `*`.
pub fn render_selection(table: &Table, columns: &Vec<String>, marks: &Vec<bool>) -> (r: String)
    ensures
        r@ == selection_text(table@, texts(columns@), marks@),
{
    let rows = table.select_marked(marks);
    let star: Vec<char> = vec!['*'];
    assert(star@ =~= seq!['*']);
    if columns.len() == 1 && crate::text::equal_chars(&str_chars(columns[0].as_str()), &star) {
        let names = crate::database::schema_names(&table.schema);
        render_table(&table.schema, &rows, &names)
    } else {
        render_table(&table.schema, &rows, columns)
    }
}

/// Lays out `names` as a list.
pub fn render_list(names: &Vec<String>) -> (r: String)
    ensures
        r@ == list_text(texts(names@)),
{
    let ghost all = texts(names@);
    let mut out = str_chars("Tables in the database:");
    out.push('\n');
    push_fill(&mut out, 21, '-');
    out.push('\n');
    let ghost top = out@;
    let mut i: usize = 0;
    while i < names.len()
        invariant
            i <= names.len(),
            all == texts(names@),
            out@ == top + list_lines(all, i as int),
        decreases names.len() - i,
    {
        let ghost start = out@;
        let name = str_chars(names[i].as_str());
        push_padded(&mut out, &name, 20);
        out.push(' ');
        out.push('|');
        out.push('\n');
        push_fill(&mut out, 21, '-');
        out.push('\n');
        assert(out@ =~= start + padded(all[i as int], 20) + seq![' ', '|', '\n'] + fill(
            21,
            '-',
        ).push('\n'));
        assert(out@ =~= top + list_lines(all, i + 1));
        i += 1;
    }
    chars_to_string(&out)
}

} // verus!
