//! The checksum of a database: a fingerprint of all that it holds, by which
//! two copies can be told to be the same.
//!
//! The database is written out as one text, table by table in the ascending
//! order of the tables' names, and the checksum is the SHA-256 digest of the
//! UTF-8 bytes of this text, in hexadecimal digits.

use crate::database::{names, table_named, Catalog, Database};
use crate::render::push_chars;
use crate::row::RowInterface;
use crate::schema::{ColumnSpec, ColumnType};
use crate::table::{Table, TableSpec};
use crate::text::{chars_to_string, str_chars, texts};
use sha2::{Digest, Sha256};
use vstd::prelude::*;

verus! {

/// The SHA-256 digest of `data`.
pub uninterp spec fn sha256(data: Seq<u8>) -> Seq<u8>;

/// The hexadecimal digit of a number below sixteen, in lower case.
pub open spec fn hex_digit(n: int) -> char {
    seq!['0', '1', '2', '3', '4', '5', '6', '7', '8', '9', 'a', 'b', 'c', 'd', 'e', 'f'][n]
}

/// `data` in hexadecimal digits: two for each byte, the high half first.
pub open spec fn hex_text(data: Seq<u8>) -> Seq<char> {
    Seq::new(
        2 * data.len(),
        |i: int|
            if i % 2 == 0 {
                hex_digit(data[i / 2] as int / 16)
            } else {
                hex_digit(data[i / 2] as int % 16)
            },
    )
}

/// Calls `Sha256` of the crate `sha2`: a new hasher is fed `data` once and
/// finalized. The contract names the digest and claims that it has 32 bytes,
/// the output size that the crate gives this hasher.
#[verifier::external_body]
fn sha256_digest(data: &[u8]) -> (r: Vec<u8>)
    ensures
        r@ == sha256(data@),
        r@.len() == 32,
{
    let mut hasher = Sha256::new();
    hasher.update(data);
    hasher.finalize().to_vec()
}

/// Calls `hex::encode`, which writes each byte as two hexadecimal digits in
/// lower case, the high half first.
#[verifier::external_body]
fn hex_encode(data: &Vec<u8>) -> (r: String)
    ensures
        r@ == hex_text(data@),
{
    hex::encode(data)
}

/// `a` stands before `b`, or is `b`, in the order of their characters' codes:
/// the order of strings.
pub open spec fn text_before(a: Seq<char>, b: Seq<char>) -> bool
    decreases a.len(),
{
    if a.len() == 0 {
        true
    } else if b.len() == 0 {
        false
    } else if a[0] != b[0] {
        a[0] < b[0]
    } else {
        text_before(a.skip(1), b.skip(1))
    }
}

/// The ascending list `ordered` with `name` put in its place: behind the
/// last text that stands before it or equals it.
pub open spec fn inserted(ordered: Seq<Seq<char>>, name: Seq<char>) -> Seq<Seq<char>>
    decreases ordered.len(),
{
    if ordered.len() == 0 {
        seq![name]
    } else if text_before(ordered[ordered.len() - 1], name) {
        ordered.push(name)
    } else {
        inserted(ordered.take(ordered.len() - 1), name).push(ordered[ordered.len() - 1])
    }
}

/// The texts of `list` in ascending order.
pub open spec fn ascending(list: Seq<Seq<char>>) -> Seq<Seq<char>>
    decreases list.len(),
{
    if list.len() == 0 {
        list
    } else {
        inserted(ascending(list.take(list.len() - 1)), list[list.len() - 1])
    }
}

/// How a column type is written.
pub open spec fn type_word(col_type: ColumnType) -> Seq<char> {
    match col_type {
        ColumnType::Int => "Int"@,
        ColumnType::String => "String"@,
        ColumnType::Float => "Float"@,
    }
}

/// The first `count` columns, each as `COL:name:type;`.
pub open spec fn columns_text(schema: Seq<ColumnSpec>, count: int) -> Seq<char>
    decreases count,
{
    if count <= 0 {
        Seq::empty()
    } else {
        columns_text(schema, count - 1) + "COL:"@ + schema[count - 1].name + ":"@ + type_word(
            schema[count - 1].col_type,
        ) + ";"@
    }
}

/// The first `count` values of a row, each as `VAL:value;`.
pub open spec fn values_text(row: Seq<Seq<char>>, count: int) -> Seq<char>
    decreases count,
{
    if count <= 0 {
        Seq::empty()
    } else {
        values_text(row, count - 1) + "VAL:"@ + row[count - 1] + ";"@
    }
}

/// The values of the first `count` rows, in storage order.
pub open spec fn rows_text(rows: Seq<Seq<Seq<char>>>, count: int) -> Seq<char>
    decreases count,
{
    if count <= 0 {
        Seq::empty()
    } else {
        rows_text(rows, count - 1) + values_text(rows[count - 1], rows[count - 1].len() as int)
    }
}

/// A table under the name `name`: `TABLE:name;`, its columns, and its rows.
pub open spec fn table_text(name: Seq<char>, t: TableSpec) -> Seq<char> {
    "TABLE:"@ + name + ";"@ + columns_text(t.schema, t.schema.len() as int) + rows_text(
        t.rows,
        t.rows.len() as int,
    )
}

/// The tables that are stored under the first `count` of `order`.
pub open spec fn tables_text(db: Catalog, order: Seq<Seq<char>>, count: int) -> Seq<char>
    decreases count,
{
    if count <= 0 {
        Seq::empty()
    } else {
        tables_text(db, order, count - 1) + match table_named(db, order[count - 1]) {
            Some(t) => table_text(order[count - 1], t),
            None => Seq::empty(),
        }
    }
}

/// The text that a database is written out as: its tables in the ascending
/// order of the names they are stored under.
pub open spec fn canonical_text(db: Catalog) -> Seq<char> {
    tables_text(db, ascending(names(db)), names(db).len() as int)
}

/// The checksum of a database.
pub open spec fn checksum_of(db: Catalog) -> Seq<char> {
    hex_text(sha256(vstd::utf8::encode_utf8(canonical_text(db))))
}

/// Putting a name in its place makes the list longer by one.
pub proof fn lemma_inserted_len(ordered: Seq<Seq<char>>, name: Seq<char>)
    ensures
        inserted(ordered, name).len() == ordered.len() + 1,
    decreases ordered.len(),
{
    if ordered.len() > 0 && !text_before(ordered[ordered.len() - 1], name) {
        lemma_inserted_len(ordered.take(ordered.len() - 1), name);
    }
}

/// Ordering keeps the length of a list.
pub proof fn lemma_ascending_len(list: Seq<Seq<char>>)
    ensures
        ascending(list).len() == list.len(),
    decreases list.len(),
{
    if list.len() > 0 {
        lemma_ascending_len(list.take(list.len() - 1));
        lemma_inserted_len(ascending(list.take(list.len() - 1)), list[list.len() - 1]);
    }
}

/// Where every text from index `at` on stands behind `name` and the one
/// before `at` does not, the place of `name` is `at`.
pub proof fn lemma_inserted_at(ordered: Seq<Seq<char>>, name: Seq<char>, at: int)
    requires
        0 <= at <= ordered.len(),
        forall|j: int| at <= j < ordered.len() ==> !text_before(#[trigger] ordered[j], name),
        at > 0 ==> text_before(ordered[at - 1], name),
    ensures
        inserted(ordered, name) == ordered.insert(at, name),
    decreases ordered.len() - at,
{
    if at == ordered.len() {
        assert(ordered.insert(at, name) =~= ordered.push(name));
    } else {
        let front = ordered.take(ordered.len() - 1);
        lemma_inserted_at(front, name, at);
        assert(front.insert(at, name).push(ordered[ordered.len() - 1]) =~= ordered.insert(
            at,
            name,
        ));
    }
}

/// No text stands behind any later one.
pub open spec fn is_ascending(list: Seq<Seq<char>>) -> bool {
    forall|i: int, j: int| 0 <= i < j < list.len() ==> text_before(list[i], list[j])
}

/// Of two texts one stands before the other, or they are the same.
pub proof fn lemma_text_order_total(a: Seq<char>, b: Seq<char>)
    ensures
        text_before(a, b) || text_before(b, a),
    decreases a.len(),
{
    if a.len() > 0 && b.len() > 0 && a[0] == b[0] {
        lemma_text_order_total(a.skip(1), b.skip(1));
    }
}

/// What stands before a text stands before all that the text stands before.
pub proof fn lemma_text_order_transitive(a: Seq<char>, b: Seq<char>, c: Seq<char>)
    requires
        text_before(a, b),
        text_before(b, c),
    ensures
        text_before(a, c),
    decreases a.len(),
{
    if a.len() > 0 && b.len() > 0 && c.len() > 0 && a[0] == b[0] && b[0] == c[0] {
        lemma_text_order_transitive(a.skip(1), b.skip(1), c.skip(1));
    }
}

/// A list with a name put in its place holds the name and what the list
/// held, each as often as before.
pub proof fn lemma_inserted_holds(ordered: Seq<Seq<char>>, name: Seq<char>)
    ensures
        inserted(ordered, name).to_multiset() == ordered.to_multiset().insert(name),
    decreases ordered.len(),
{
    broadcast use vstd::multiset::group_multiset_axioms;

    if ordered.len() > 0 && !text_before(ordered[ordered.len() - 1], name) {
        let front = ordered.take(ordered.len() - 1);
        let last = ordered[ordered.len() - 1];
        let inner = inserted(front, name);
        lemma_inserted_holds(front, name);
        assert(ordered == front.push(last));
        vstd::seq_lib::to_multiset_build(front, last);
        vstd::seq_lib::to_multiset_build(inner, last);
        assert(inserted(ordered, name).to_multiset() =~= ordered.to_multiset().insert(name));
    } else {
        assert(inserted(ordered, name) == ordered.push(name));
        vstd::seq_lib::to_multiset_build(ordered, name);
    }
}

/// An ascending list with a name put in its place is ascending.
pub proof fn lemma_inserted_ascending(ordered: Seq<Seq<char>>, name: Seq<char>)
    requires
        is_ascending(ordered),
    ensures
        is_ascending(inserted(ordered, name)),
    decreases ordered.len(),
{
    let out = inserted(ordered, name);
    if ordered.len() == 0 {
    } else if text_before(ordered[ordered.len() - 1], name) {
        assert forall|i: int, j: int| 0 <= i < j < out.len() implies text_before(
            out[i],
            out[j],
        ) by {
            if j == ordered.len() && i < ordered.len() - 1 {
                lemma_text_order_transitive(ordered[i], ordered[ordered.len() - 1], name);
            }
        }
    } else {
        let front = ordered.take(ordered.len() - 1);
        let last = ordered[ordered.len() - 1];
        let inner = inserted(front, name);
        assert(is_ascending(front)) by {
            assert forall|i: int, j: int| 0 <= i < j < front.len() implies text_before(
                front[i],
                front[j],
            ) by {
                assert(front[i] == ordered[i] && front[j] == ordered[j]);
            }
        }
        lemma_inserted_ascending(front, name);
        lemma_inserted_holds(front, name);
        lemma_inserted_len(front, name);
        lemma_text_order_total(last, name);
        assert forall|i: int, j: int| 0 <= i < j < out.len() implies text_before(
            out[i],
            out[j],
        ) by {
            if j == inner.len() {
                // every text of `inner` is the name or a text of `front`
                assert(inner.contains(inner[i]));
                vstd::seq_lib::to_multiset_contains(inner, inner[i]);
                if inner[i] != name {
                    assert(front.to_multiset().count(inner[i]) > 0) by {
                        broadcast use vstd::multiset::group_multiset_axioms;

                    }
                    vstd::seq_lib::to_multiset_contains(front, inner[i]);
                    let m = choose|m: int| 0 <= m < front.len() && front[m] == inner[i];
                    assert(front[m] == ordered[m]);
                }
            }
        }
    }
}

/// The texts of `ascending(list)` are those of `list`, each as often as in
/// `list`, and none of them stands behind a later one.
pub proof fn lemma_ascending_sorts(list: Seq<Seq<char>>)
    ensures
        is_ascending(ascending(list)),
        ascending(list).to_multiset() == list.to_multiset(),
    decreases list.len(),
{
    if list.len() > 0 {
        let front = list.take(list.len() - 1);
        let last = list[list.len() - 1];
        lemma_ascending_sorts(front);
        lemma_inserted_ascending(ascending(front), last);
        lemma_inserted_holds(ascending(front), last);
        assert(list == front.push(last));
        vstd::seq_lib::to_multiset_build(front, last);
    }
}

/// Two texts of which each stands before the other, or is it, are the same.
pub proof fn lemma_text_order_antisymmetric(a: Seq<char>, b: Seq<char>)
    requires
        text_before(a, b),
        text_before(b, a),
    ensures
        a == b,
    decreases a.len(),
{
    if a.len() == 0 {
        assert(a =~= b);
    } else {
        lemma_text_order_antisymmetric(a.skip(1), b.skip(1));
        assert(a =~= seq![a[0]] + a.skip(1));
        assert(b =~= seq![b[0]] + b.skip(1));
    }
}

/// Two ascending lists that hold the same texts, each as often as the
/// other, are the same list.
pub proof fn lemma_ascending_unique(s: Seq<Seq<char>>, t: Seq<Seq<char>>)
    requires
        is_ascending(s),
        is_ascending(t),
        s.to_multiset() == t.to_multiset(),
    ensures
        s == t,
    decreases s.len(),
{
    broadcast use vstd::multiset::group_multiset_axioms;

    vstd::seq_lib::to_multiset_len(s);
    vstd::seq_lib::to_multiset_len(t);
    if s.len() == 0 {
        assert(s =~= t);
    } else {
        let n = s.len() - 1;
        let x = s[n];
        let y = t[n];
        // the last text of each list is in the other, and so they are the same
        assert(s.contains(x));
        vstd::seq_lib::to_multiset_contains(s, x);
        vstd::seq_lib::to_multiset_contains(t, x);
        let j = choose|j: int| 0 <= j < t.len() && t[j] == x;
        assert(t.contains(y));
        vstd::seq_lib::to_multiset_contains(t, y);
        vstd::seq_lib::to_multiset_contains(s, y);
        let k = choose|k: int| 0 <= k < s.len() && s[k] == y;
        if j < n && k < n {
            assert(text_before(t[j], t[n]));
            assert(text_before(s[k], s[n]));
            lemma_text_order_antisymmetric(x, y);
        }
        assert(x == y);
        let front_s = s.take(n);
        let front_t = t.take(n);
        assert(s == front_s.push(x));
        assert(t == front_t.push(x));
        vstd::seq_lib::to_multiset_build(front_s, x);
        vstd::seq_lib::to_multiset_build(front_t, x);
        assert(front_s.to_multiset() =~= front_t.to_multiset()) by {
            assert forall|v: Seq<char>| front_s.to_multiset().count(v) == front_t.to_multiset().count(
                v,
            ) by {
                let ms = front_s.to_multiset();
                let mt = front_t.to_multiset();
                assert(s.to_multiset() == ms.insert(x));
                assert(t.to_multiset() == mt.insert(x));
                assert(ms.insert(x).count(v) == mt.insert(x).count(v));
                assert(ms.insert(x).count(v) == if v == x {
                    ms.count(v) + 1
                } else {
                    ms.count(v)
                });
                assert(mt.insert(x).count(v) == if v == x {
                    mt.count(v) + 1
                } else {
                    mt.count(v)
                });
            }
        }
        assert(is_ascending(front_s)) by {
            assert forall|i: int, j: int| 0 <= i < j < front_s.len() implies text_before(
                front_s[i],
                front_s[j],
            ) by {
                assert(front_s[i] == s[i] && front_s[j] == s[j]);
            }
        }
        assert(is_ascending(front_t)) by {
            assert forall|i: int, j: int| 0 <= i < j < front_t.len() implies text_before(
                front_t[i],
                front_t[j],
            ) by {
                assert(front_t[i] == t[i] && front_t[j] == t[j]);
            }
        }
        lemma_ascending_unique(front_s, front_t);
    }
}

/// Two catalogs agree on the tables under every name: where one has a table
/// under a name the other has one too, with the same columns and the same
/// rows.
pub open spec fn same_tables(a: Catalog, b: Catalog) -> bool {
    forall|name: Seq<char>|
        match (#[trigger] table_named(a, name), table_named(b, name)) {
            (Some(x), Some(y)) => x.schema == y.schema && x.rows == y.rows,
            (None, None) => true,
            _ => false,
        }
}

/// The text of the tables under the first names of a list is the same for
/// two catalogs that agree on the tables under every name.
pub proof fn lemma_tables_text_same(a: Catalog, b: Catalog, order: Seq<Seq<char>>, count: int)
    requires
        same_tables(a, b),
    ensures
        tables_text(a, order, count) == tables_text(b, order, count),
    decreases count,
{
    if count > 0 {
        lemma_tables_text_same(a, b, order, count - 1);
        let name = order[count - 1];
        assert(table_named(a, name) is Some == table_named(b, name) is Some);
    }
}

/// Two catalogs that store tables under the same names, with the same
/// columns and the same rows under each name, have the same checksum, in
/// whatever order the tables were made.
pub proof fn lemma_checksum_ignores_order(a: Catalog, b: Catalog)
    requires
        names(a).to_multiset() == names(b).to_multiset(),
        same_tables(a, b),
    ensures
        canonical_text(a) == canonical_text(b),
        checksum_of(a) == checksum_of(b),
{
    lemma_ascending_sorts(names(a));
    lemma_ascending_sorts(names(b));
    lemma_ascending_unique(ascending(names(a)), ascending(names(b)));
    vstd::seq_lib::to_multiset_len(names(a));
    vstd::seq_lib::to_multiset_len(names(b));
    lemma_tables_text_same(a, b, ascending(names(a)), names(a).len() as int);
}

/// Whether `a` stands before `b`, or is `b`.
fn stands_before(a: &Vec<char>, b: &Vec<char>) -> (r: bool)
    ensures
        r == text_before(a@, b@),
{
    let mut i: usize = 0;
    assert(a@.skip(0) == a@ && b@.skip(0) == b@);
    while i < a.len() && i < b.len() && a[i] == b[i]
        invariant
            i <= a.len(),
            i <= b.len(),
            text_before(a@, b@) == text_before(a@.skip(i as int), b@.skip(i as int)),
        decreases a.len() - i,
    {
        proof {
            assert(a@.skip(i as int).skip(1) == a@.skip(i + 1));
            assert(b@.skip(i as int).skip(1) == b@.skip(i + 1));
        }
        i += 1;
    }
    if i == a.len() {
        true
    } else if i == b.len() {
        false
    } else {
        a[i] < b[i]
    }
}

/// The strings of `list` in ascending order.
pub fn sort_names(list: &Vec<String>) -> (r: Vec<String>)
    ensures
        texts(r@) == ascending(texts(list@)),
{
    let ghost all = texts(list@);
    let mut out: Vec<String> = Vec::new();
    let mut i: usize = 0;
    assert(texts(out@) =~= ascending(all.take(0)));
    while i < list.len()
        invariant
            i <= list.len(),
            all == texts(list@),
            out@.len() == i,
            texts(out@) == ascending(all.take(i as int)),
        decreases list.len() - i,
    {
        let name = str_chars(list[i].as_str());
        let mut at: usize = out.len();
        while at > 0 && !stands_before(&str_chars(out[at - 1].as_str()), &name)
            invariant
                at <= out@.len(),
                forall|j: int|
                    at <= j < out@.len() ==> !text_before(#[trigger] texts(out@)[j], name@),
            decreases at,
        {
            at -= 1;
        }
        proof {
            let next = all.take(i + 1);
            assert(next.take(next.len() - 1) == all.take(i as int));
            assert(next[next.len() - 1] == name@);
            lemma_inserted_at(texts(out@), name@, at as int);
        }
        let ghost before = texts(out@);
        out.insert(at, list[i].clone());
        assert(texts(out@) =~= before.insert(at as int, name@));
        i += 1;
    }
    assert(all.take(list.len() as int) == all);
    out
}

/// Appends the text of a table as it is written out for the checksum.
fn push_table(out: &mut Vec<char>, name: &String, table: &Table)
    ensures
        final(out)@ == old(out)@ + table_text(name@, table@),
{
    let ghost start = out@;
    push_chars(out, &str_chars("TABLE:"));
    push_chars(out, &str_chars(name.as_str()));
    push_chars(out, &str_chars(";"));
    let ghost head = out@;
    let mut c: usize = 0;
    while c < table.schema.columns.len()
        invariant
            c <= table.schema.columns.len(),
            out@ == head + columns_text(table@.schema, c as int),
        decreases table.schema.columns.len() - c,
    {
        let ghost before = out@;
        push_chars(out, &str_chars("COL:"));
        push_chars(out, &str_chars(table.schema.columns[c].name.as_str()));
        push_chars(out, &str_chars(":"));
        match table.schema.columns[c].col_type {
            ColumnType::Int => push_chars(out, &str_chars("Int")),
            ColumnType::String => push_chars(out, &str_chars("String")),
            ColumnType::Float => push_chars(out, &str_chars("Float")),
        }
        push_chars(out, &str_chars(";"));
        assert(out@ =~= head + columns_text(table@.schema, c + 1));
        c += 1;
    }
    let ghost middle = out@;
    let mut r: usize = 0;
    while r < table.rows.len()
        invariant
            r <= table.rows.len(),
            out@ == middle + rows_text(table@.rows, r as int),
        decreases table.rows.len() - r,
    {
        let ghost row_start = out@;
        let values = table.rows[r].get_values();
        let mut i: usize = 0;
        while i < values.len()
            invariant
                i <= values.len(),
                r < table.rows.len(),
                texts(values@) == table@.rows[r as int],
                out@ == row_start + values_text(table@.rows[r as int], i as int),
            decreases values.len() - i,
        {
            push_chars(out, &str_chars("VAL:"));
            push_chars(out, &str_chars(values[i].as_str()));
            push_chars(out, &str_chars(";"));
            assert(out@ =~= row_start + values_text(table@.rows[r as int], i + 1));
            i += 1;
        }
        assert(out@ =~= middle + rows_text(table@.rows, r + 1));
        r += 1;
    }
    assert(out@ =~= start + table_text(name@, table@));
}

/// The text that `db` is written out as for its checksum.
pub fn write_out(db: &Database) -> (r: String)
    ensures
        r@ == canonical_text(db@),
{
    let order = sort_names(&db.tables.keys());
    proof {
        lemma_ascending_len(names(db@));
    }
    let mut out: Vec<char> = Vec::new();
    let mut i: usize = 0;
    while i < order.len()
        invariant
            i <= order.len(),
            texts(order@) == ascending(names(db@)),
            out@ == tables_text(db@, texts(order@), i as int),
        decreases order.len() - i,
    {
        let ghost before = out@;
        match db.tables.get(order[i].as_str()) {
            Some(table) => {
                push_table(&mut out, &order[i], table);
            },
            None => {},
        }
        assert(out@ =~= tables_text(db@, texts(order@), i + 1));
        i += 1;
    }
    chars_to_string(&out)
}

/// The checksum of `db`: the SHA-256 digest of the text that it is written
/// out as, in hexadecimal digits.
pub fn checksum(db: &Database) -> (r: String)
    ensures
        r@ == checksum_of(db@),
        r@.len() == 64,
{
    let text = write_out(db);
    let digest = sha256_digest(text.as_str().as_bytes());
    hex_encode(&digest)
}

} // verus!
