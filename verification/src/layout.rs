//! The layout of a database as bytes: its name, the number of its tables,
//! then each table as its name, the number of its columns, each column as
//! its key and its type, the number of its rows, and the values of each row.
//! Names, keys, numbers and values are written as values are; a type is
//! written as the code of its kind, followed for an array by the codes of
//! the kinds of its items down to the first that is no array, and for any
//! other type by a zero byte.

use crate::database::{distinct_names, has_table, DatabaseModel};
use crate::table::{row_typed, Column, TableModel};
use crate::types::{kind_code, plain_type, Cell, TypeDefs, Value};
use crate::utils::{
    framed, framed_upto, holds, lemma_holds_split, lemma_parse_framed, parse_cell, storable,
};
use vstd::prelude::*;

verus! {

/// The text `s` as it is written.
pub open spec fn text_bytes(s: Seq<char>) -> Seq<u8> {
    framed(Value::String(s))
}

/// The number `n` as it is written.
pub open spec fn count_bytes(n: nat) -> Seq<u8> {
    framed(Value::U64(n as u64))
}

/// The codes of the kinds of `t` and of its items, down to the first that
/// is no array.
pub open spec fn chain(t: TypeDefs) -> Seq<u8>
    decreases t,
{
    match t {
        TypeDefs::Array(inner) => seq![8u8] + chain(*inner),
        _ => seq![kind_code(t)],
    }
}

/// The type `t` as it is written.
pub open spec fn tag_bytes(t: TypeDefs) -> Seq<u8> {
    match t {
        TypeDefs::Array(inner) => seq![8u8] + chain(*inner),
        _ => seq![kind_code(t), 0u8],
    }
}

/// The first `n` of `headers` as they are written, one after the other.
pub open spec fn headers_upto(headers: Seq<Column>, n: nat) -> Seq<u8>
    decreases n,
{
    if n == 0 {
        Seq::empty()
    } else {
        headers_upto(headers, (n - 1) as nat) + text_bytes(headers[n - 1].key) + tag_bytes(
            headers[n - 1].rtype,
        )
    }
}

/// The first `n` of `rows` as they are written, one after the other.
pub open spec fn rows_upto(rows: Seq<Seq<Cell>>, n: nat) -> Seq<u8>
    decreases n,
{
    if n == 0 {
        Seq::empty()
    } else {
        rows_upto(rows, (n - 1) as nat) + framed_upto(rows[n - 1], rows[n - 1].len())
    }
}

/// The table `t` as it is written.
pub open spec fn table_bytes(t: TableModel) -> Seq<u8> {
    text_bytes(t.name) + count_bytes(t.headers.len()) + headers_upto(t.headers, t.headers.len())
        + count_bytes(t.rows.len()) + rows_upto(t.rows, t.rows.len())
}

/// The first `n` of `tables` as they are written, one after the other.
pub open spec fn tables_upto(tables: Seq<TableModel>, n: nat) -> Seq<u8>
    decreases n,
{
    if n == 0 {
        Seq::empty()
    } else {
        tables_upto(tables, (n - 1) as nat) + table_bytes(tables[n - 1])
    }
}

/// The database `d` as it is written.
pub open spec fn database_bytes(d: DatabaseModel) -> Seq<u8> {
    text_bytes(d.name) + count_bytes(d.tables.len()) + tables_upto(d.tables, d.tables.len())
}

/// Whether every length inside `t` can be written in 8 bytes.
pub open spec fn storable_table(t: TableModel) -> bool {
    &&& storable(Value::String(t.name))
    &&& t.headers.len() <= u64::MAX
    &&& t.rows.len() <= u64::MAX
    &&& forall|j: int|
        0 <= j < t.headers.len() ==> storable(Value::String((#[trigger] t.headers[j]).key))
    &&& forall|i: int, j: int|
        0 <= i < t.rows.len() && 0 <= j < t.rows[i].len() ==> storable(
            (#[trigger] t.rows[i][j]).value,
        )
}

/// Whether every length inside `d` can be written in 8 bytes.
pub open spec fn storable_database(d: DatabaseModel) -> bool {
    &&& storable(Value::String(d.name))
    &&& d.tables.len() <= u64::MAX
    &&& forall|i: int| 0 <= i < d.tables.len() ==> storable_table(#[trigger] d.tables[i])
}

/// The text that is written in `b` from `at` on, with the place where it
/// ends.
pub open spec fn parse_text(b: Seq<u8>, at: int) -> Option<(Seq<char>, int)> {
    match parse_cell(b, at, TypeDefs::String) {
        Some((c, end)) => Some((c.value->String_0, end)),
        None => None,
    }
}

/// The number that is written in `b` from `at` on, with the place where it
/// ends.
pub open spec fn parse_count(b: Seq<u8>, at: int) -> Option<(nat, int)> {
    match parse_cell(b, at, TypeDefs::U64) {
        Some((c, end)) => Some((c.value->U64_0 as nat, end)),
        None => None,
    }
}

/// The type whose kind and whose items' kinds are written in `b` from `at`
/// on, with the place where the codes end.
pub open spec fn parse_chain(b: Seq<u8>, at: int) -> Option<(TypeDefs, int)>
    decreases b.len() - at,
{
    if at < 0 || at >= b.len() {
        None
    } else if b[at] < 8 {
        Some((plain_type(b[at]), at + 1))
    } else if b[at] == 8 {
        match parse_chain(b, at + 1) {
            Some((inner, end)) => Some((TypeDefs::Array(Box::new(inner)), end)),
            None => None,
        }
    } else {
        None
    }
}

/// The type that is written in `b` from `at` on, with the place where it
/// ends. The byte behind the code of a type that is no array is passed
/// over.
pub open spec fn parse_tag(b: Seq<u8>, at: int) -> Option<(TypeDefs, int)> {
    if at < 0 || at + 2 > b.len() {
        None
    } else if b[at] < 8 {
        Some((plain_type(b[at]), at + 2))
    } else if b[at] == 8 {
        match parse_chain(b, at + 1) {
            Some((inner, end)) => Some((TypeDefs::Array(Box::new(inner)), end)),
            None => None,
        }
    } else {
        None
    }
}

/// The `n` columns that are written in `b` one after the other from `at`
/// on, with the place where the last one ends.
pub open spec fn parse_headers_upto(b: Seq<u8>, at: int, n: nat) -> Option<(Seq<Column>, int)>
    decreases n,
{
    if n == 0 {
        Some((Seq::empty(), at))
    } else {
        match parse_headers_upto(b, at, (n - 1) as nat) {
            Some((headers, mid)) => match parse_text(b, mid) {
                Some((key, next)) => match parse_tag(b, next) {
                    Some((rtype, end)) => Some((headers.push(Column { key, rtype }), end)),
                    None => None,
                },
                None => None,
            },
            None => None,
        }
    }
}

/// The values under the first `n` of `headers` that are written in `b` one
/// after the other from `at` on, with the place where the last one ends.
pub open spec fn parse_row_upto(b: Seq<u8>, at: int, headers: Seq<Column>, n: nat) -> Option<
    (Seq<Cell>, int),
>
    decreases n,
{
    if n == 0 {
        Some((Seq::empty(), at))
    } else {
        match parse_row_upto(b, at, headers, (n - 1) as nat) {
            Some((row, mid)) => match parse_cell(b, mid, headers[n - 1].rtype) {
                Some((c, end)) => Some((row.push(c), end)),
                None => None,
            },
            None => None,
        }
    }
}

/// The `n` rows under `headers` that are written in `b` one after the
/// other from `at` on, with the place where the last one ends.
pub open spec fn parse_rows_upto(b: Seq<u8>, at: int, headers: Seq<Column>, n: nat) -> Option<
    (Seq<Seq<Cell>>, int),
>
    decreases n,
{
    if n == 0 {
        Some((Seq::empty(), at))
    } else {
        match parse_rows_upto(b, at, headers, (n - 1) as nat) {
            Some((rows, mid)) => match parse_row_upto(b, mid, headers, headers.len()) {
                Some((row, end)) => Some((rows.push(row), end)),
                None => None,
            },
            None => None,
        }
    }
}

/// The table that is written in `b` from `at` on, with the place where it
/// ends.
pub open spec fn parse_table(b: Seq<u8>, at: int) -> Option<(TableModel, int)> {
    match parse_text(b, at) {
        Some((name, at1)) => match parse_count(b, at1) {
            Some((columns, at2)) => match parse_headers_upto(b, at2, columns) {
                Some((headers, at3)) => match parse_count(b, at3) {
                    Some((count, at4)) => match parse_rows_upto(b, at4, headers, count) {
                        Some((rows, end)) => Some((TableModel { name, headers, rows }, end)),
                        None => None,
                    },
                    None => None,
                },
                None => None,
            },
            None => None,
        },
        None => None,
    }
}

/// The `n` tables that are written in `b` one after the other from `at`
/// on, with the place where the last one ends; nothing where two of them
/// have the same name.
pub open spec fn parse_tables_upto(b: Seq<u8>, at: int, n: nat) -> Option<(Seq<TableModel>, int)>
    decreases n,
{
    if n == 0 {
        Some((Seq::empty(), at))
    } else {
        match parse_tables_upto(b, at, (n - 1) as nat) {
            Some((tables, mid)) => match parse_table(b, mid) {
                Some((t, end)) => if has_table(tables, t.name) {
                    None
                } else {
                    Some((tables.push(t), end))
                },
                None => None,
            },
            None => None,
        }
    }
}

/// The database that is written at the start of `b`; nothing where `b`
/// ends too early or holds what no database is written as.
pub open spec fn parse_database(b: Seq<u8>) -> Option<DatabaseModel> {
    match parse_text(b, 0) {
        Some((name, at1)) => match parse_count(b, at1) {
            Some((count, at2)) => match parse_tables_upto(b, at2, count) {
                Some((tables, end)) => Some(DatabaseModel { name, tables }),
                None => None,
            },
            None => None,
        },
        None => None,
    }
}

/// Where the first columns cannot be read, no longer run of them can.
pub proof fn lemma_headers_fail(b: Seq<u8>, at: int, n: nat, m: nat)
    requires
        parse_headers_upto(b, at, n) is None,
        n <= m,
    ensures
        parse_headers_upto(b, at, m) is None,
    decreases m,
{
    if n < m {
        lemma_headers_fail(b, at, n, (m - 1) as nat);
    }
}

/// Where the first values of a row cannot be read, no more of them can.
pub proof fn lemma_row_fails(b: Seq<u8>, at: int, headers: Seq<Column>, n: nat, m: nat)
    requires
        parse_row_upto(b, at, headers, n) is None,
        n <= m,
    ensures
        parse_row_upto(b, at, headers, m) is None,
    decreases m,
{
    if n < m {
        lemma_row_fails(b, at, headers, n, (m - 1) as nat);
    }
}

/// Where the first rows cannot be read, no longer run of them can.
pub proof fn lemma_rows_fail(b: Seq<u8>, at: int, headers: Seq<Column>, n: nat, m: nat)
    requires
        parse_rows_upto(b, at, headers, n) is None,
        n <= m,
    ensures
        parse_rows_upto(b, at, headers, m) is None,
    decreases m,
{
    if n < m {
        lemma_rows_fail(b, at, headers, n, (m - 1) as nat);
    }
}

/// Where the first tables cannot be read, no longer run of them can.
pub proof fn lemma_tables_fail(b: Seq<u8>, at: int, n: nat, m: nat)
    requires
        parse_tables_upto(b, at, n) is None,
        n <= m,
    ensures
        parse_tables_upto(b, at, m) is None,
    decreases m,
{
    if n < m {
        lemma_tables_fail(b, at, n, (m - 1) as nat);
    }
}

/// Reading gives back the text that was written.
pub proof fn lemma_parse_text(b: Seq<u8>, at: int, s: Seq<char>)
    requires
        holds(b, at, text_bytes(s)),
        storable(Value::String(s)),
    ensures
        parse_text(b, at) == Some((s, at + text_bytes(s).len())),
{
    lemma_parse_framed(
        b,
        at,
        Cell { type_id: TypeDefs::String, value: Value::String(s) },
        TypeDefs::String,
    );
}

/// Reading gives back the number that was written.
pub proof fn lemma_parse_count(b: Seq<u8>, at: int, n: nat)
    requires
        holds(b, at, count_bytes(n)),
        n <= u64::MAX,
    ensures
        parse_count(b, at) == Some((n, at + count_bytes(n).len())),
{
    lemma_parse_framed(
        b,
        at,
        Cell { type_id: TypeDefs::U64, value: Value::U64(n as u64) },
        TypeDefs::U64,
    );
}

/// Reading gives back the type whose codes were written.
pub proof fn lemma_parse_chain(b: Seq<u8>, at: int, t: TypeDefs)
    requires
        holds(b, at, chain(t)),
    ensures
        parse_chain(b, at) == Some((t, at + chain(t).len())),
        chain(t).len() >= 1,
    decreases t,
{
    assert(b[at] == b.subrange(at, at + chain(t).len())[0]);
    match t {
        TypeDefs::Array(inner) => {
            lemma_holds_split(b, at, seq![8u8], chain(*inner));
            lemma_parse_chain(b, at + 1, *inner);
        },
        _ => {},
    }
}

/// Reading gives back the type that was written.
pub proof fn lemma_parse_tag(b: Seq<u8>, at: int, t: TypeDefs)
    requires
        holds(b, at, tag_bytes(t)),
    ensures
        parse_tag(b, at) == Some((t, at + tag_bytes(t).len())),
{
    assert(b[at] == b.subrange(at, at + tag_bytes(t).len())[0]);
    match t {
        TypeDefs::Array(inner) => {
            lemma_holds_split(b, at, seq![8u8], chain(*inner));
            lemma_parse_chain(b, at + 1, *inner);
        },
        _ => {},
    }
}

/// Reading gives back the columns that were written.
pub proof fn lemma_parse_headers(b: Seq<u8>, at: int, headers: Seq<Column>, n: nat)
    requires
        n <= headers.len(),
        holds(b, at, headers_upto(headers, n)),
        forall|j: int|
            0 <= j < headers.len() ==> storable(Value::String((#[trigger] headers[j]).key)),
    ensures
        parse_headers_upto(b, at, n) == Some(
            (headers.take(n as int), at + headers_upto(headers, n).len()),
        ),
    decreases n,
{
    if n == 0 {
        assert(headers.take(0) =~= Seq::<Column>::empty());
    } else {
        let before = headers_upto(headers, (n - 1) as nat);
        let last = headers[n - 1];
        let key = text_bytes(last.key);
        let tag = tag_bytes(last.rtype);
        lemma_holds_split(b, at, before + key, tag);
        lemma_holds_split(b, at, before, key);
        lemma_parse_headers(b, at, headers, (n - 1) as nat);
        lemma_parse_text(b, at + before.len(), last.key);
        lemma_parse_tag(b, at + before.len() + key.len(), last.rtype);
        assert(headers.take(n - 1).push(last) =~= headers.take(n as int));
    }
}

/// Reading gives back the values of a row that were written.
pub proof fn lemma_parse_row(b: Seq<u8>, at: int, headers: Seq<Column>, row: Seq<Cell>, n: nat)
    requires
        n <= row.len(),
        row_typed(row, headers),
        holds(b, at, framed_upto(row, n)),
        forall|j: int| 0 <= j < row.len() ==> storable((#[trigger] row[j]).value),
    ensures
        parse_row_upto(b, at, headers, n) == Some(
            (row.take(n as int), at + framed_upto(row, n).len()),
        ),
    decreases n,
{
    if n == 0 {
        assert(row.take(0) =~= Seq::<Cell>::empty());
    } else {
        let before = framed_upto(row, (n - 1) as nat);
        let last = row[n - 1];
        assert(framed_upto(row, n) =~= before + framed(last.value));
        lemma_holds_split(b, at, before, framed(last.value));
        lemma_parse_row(b, at, headers, row, (n - 1) as nat);
        lemma_parse_framed(b, at + before.len(), last, headers[n - 1].rtype);
        assert(row.take(n - 1).push(last) =~= row.take(n as int));
    }
}

/// Reading gives back the rows that were written.
pub proof fn lemma_parse_rows(
    b: Seq<u8>,
    at: int,
    headers: Seq<Column>,
    rows: Seq<Seq<Cell>>,
    n: nat,
)
    requires
        n <= rows.len(),
        forall|i: int| 0 <= i < rows.len() ==> row_typed(#[trigger] rows[i], headers),
        forall|i: int, j: int|
            0 <= i < rows.len() && 0 <= j < rows[i].len() ==> storable(
                (#[trigger] rows[i][j]).value,
            ),
        holds(b, at, rows_upto(rows, n)),
    ensures
        parse_rows_upto(b, at, headers, n) == Some(
            (rows.take(n as int), at + rows_upto(rows, n).len()),
        ),
    decreases n,
{
    if n == 0 {
        assert(rows.take(0) =~= Seq::<Seq<Cell>>::empty());
    } else {
        let before = rows_upto(rows, (n - 1) as nat);
        let last = rows[n - 1];
        lemma_holds_split(b, at, before, framed_upto(last, last.len()));
        lemma_parse_rows(b, at, headers, rows, (n - 1) as nat);
        assert(row_typed(last, headers));
        assert forall|j: int| 0 <= j < last.len() implies storable((#[trigger] last[j]).value) by {
            assert(storable(rows[n - 1][j].value));
        }
        lemma_parse_row(b, at + before.len(), headers, last, last.len());
        assert(last.take(last.len() as int) =~= last);
        assert(rows.take(n - 1).push(last) =~= rows.take(n as int));
    }
}

/// Reading gives back the table that was written.
pub proof fn lemma_parse_table(b: Seq<u8>, at: int, t: TableModel)
    requires
        t.wf(),
        storable_table(t),
        holds(b, at, table_bytes(t)),
    ensures
        parse_table(b, at) == Some((t, at + table_bytes(t).len())),
{
    let name = text_bytes(t.name);
    let columns = count_bytes(t.headers.len());
    let headers = headers_upto(t.headers, t.headers.len());
    let count = count_bytes(t.rows.len());
    let rows = rows_upto(t.rows, t.rows.len());
    lemma_holds_split(b, at, name + columns + headers + count, rows);
    lemma_holds_split(b, at, name + columns + headers, count);
    lemma_holds_split(b, at, name + columns, headers);
    lemma_holds_split(b, at, name, columns);
    lemma_parse_text(b, at, t.name);
    let at1 = at + name.len();
    lemma_parse_count(b, at1, t.headers.len());
    let at2 = at1 + columns.len();
    lemma_parse_headers(b, at2, t.headers, t.headers.len());
    assert(t.headers.take(t.headers.len() as int) =~= t.headers);
    let at3 = at2 + headers.len();
    lemma_parse_count(b, at3, t.rows.len());
    let at4 = at3 + count.len();
    lemma_parse_rows(b, at4, t.headers, t.rows, t.rows.len());
    assert(t.rows.take(t.rows.len() as int) =~= t.rows);
}

/// Reading gives back the tables that were written.
pub proof fn lemma_parse_tables(b: Seq<u8>, at: int, tables: Seq<TableModel>, n: nat)
    requires
        n <= tables.len(),
        forall|i: int| 0 <= i < tables.len() ==> (#[trigger] tables[i]).wf(),
        forall|i: int| 0 <= i < tables.len() ==> storable_table(#[trigger] tables[i]),
        distinct_names(tables),
        holds(b, at, tables_upto(tables, n)),
    ensures
        parse_tables_upto(b, at, n) == Some(
            (tables.take(n as int), at + tables_upto(tables, n).len()),
        ),
    decreases n,
{
    if n == 0 {
        assert(tables.take(0) =~= Seq::<TableModel>::empty());
    } else {
        let before = tables_upto(tables, (n - 1) as nat);
        let last = tables[n - 1];
        lemma_holds_split(b, at, before, table_bytes(last));
        lemma_parse_tables(b, at, tables, (n - 1) as nat);
        lemma_parse_table(b, at + before.len(), last);
        let earlier = tables.take(n - 1);
        assert(!has_table(earlier, last.name)) by {
            if has_table(earlier, last.name) {
                let i = choose|i: int|
                    0 <= i < earlier.len() && (#[trigger] earlier[i]).name == last.name;
                assert(earlier[i] == tables[i]);
                assert(tables[i].name != tables[n - 1].name);
            }
        }
        assert(earlier.push(last) =~= tables.take(n as int));
    }
}

/// Loading what was saved gives the database that was saved: its name, its
/// tables in their order, and in each table its columns and its rows in
/// their order.
pub proof fn lemma_load_inverts_save(d: DatabaseModel)
    requires
        d.wf(),
        storable_database(d),
    ensures
        parse_database(database_bytes(d)) == Some(d),
{
    let b = database_bytes(d);
    let name = text_bytes(d.name);
    let count = count_bytes(d.tables.len());
    let tables = tables_upto(d.tables, d.tables.len());
    assert(b.subrange(0, b.len() as int) =~= b);
    lemma_holds_split(b, 0, name + count, tables);
    lemma_holds_split(b, 0, name, count);
    lemma_parse_text(b, 0, d.name);
    lemma_parse_count(b, name.len() as int, d.tables.len());
    lemma_parse_tables(b, (name.len() + count.len()) as int, d.tables, d.tables.len());
    assert(d.tables.take(d.tables.len() as int) =~= d.tables);
}

} // verus!
