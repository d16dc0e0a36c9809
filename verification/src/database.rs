//! The database: named tables under one name, and its layout as one flat
//! byte string.

use crate::layout::{
    chain, count_bytes, database_bytes, headers_upto, lemma_headers_fail,
    lemma_load_inverts_save, lemma_row_fails,
    lemma_rows_fail, lemma_tables_fail, parse_chain, parse_count, parse_database,
    parse_headers_upto, parse_row_upto, parse_rows_upto, parse_table, parse_tables_upto,
    parse_tag, parse_text, rows_upto, storable_database, storable_table, table_bytes,
    tables_upto, tag_bytes, text_bytes,
};
use crate::table::{
    columns_of, row_fits, row_typed, stored_row, Column, Table, TableModel, TableRow,
};
use crate::types::{cells_of, well_typed, Cell, SafeType, TypeDefs, Types, Value};
use crate::utils::{
    extend_bytes_from_raw_type, framed_upto, lemma_parse_typed, read_data, read_one, storable,
    type_to_bytes,
};
use vstd::prelude::*;
use vstd::string::*;

verus! {

/// The bytes do not hold a database.
#[derive(Debug, Clone)]
pub struct LoadError;

/// Named tables under one name; no two tables have the same name.
#[derive(Debug)]
pub struct Database {
    name: String,
    tables: Vec<Table>,
}

/// What a `Database` holds, as a mathematical value.
pub struct DatabaseModel {
    /// The name of the database.
    pub name: Seq<char>,
    /// The tables, in order.
    pub tables: Seq<TableModel>,
}

/// What `tables` hold.
pub open spec fn tables_of(tables: Seq<Table>) -> Seq<TableModel> {
    Seq::new(tables.len(), |i: int| tables[i]@)
}

/// Whether one of `tables` has the name `name`.
pub open spec fn has_table(tables: Seq<TableModel>, name: Seq<char>) -> bool {
    exists|i: int| 0 <= i < tables.len() && (#[trigger] tables[i]).name == name
}

/// Whether table number `i` is the first with the name `name`.
pub open spec fn is_table_place(tables: Seq<TableModel>, name: Seq<char>, i: int) -> bool {
    &&& 0 <= i < tables.len()
    &&& tables[i].name == name
    &&& forall|k: int| 0 <= k < i ==> (#[trigger] tables[k]).name != name
}

/// Whether no two of `tables` have the same name.
pub open spec fn distinct_names(tables: Seq<TableModel>) -> bool {
    forall|i: int, j: int|
        0 <= i < j < tables.len() ==> (#[trigger] tables[i]).name != (#[trigger] tables[j]).name
}

impl LoadError {
    /// What went wrong, in words.
    pub fn message(&self) -> (res: String)
        ensures
            res@ == "Failed to load db from file"@,
    {
        String::from_str("Failed to load db from file")
    }
}

impl DatabaseModel {
    /// Whether every table is well formed and no two have the same name.
    pub open spec fn wf(self) -> bool {
        &&& forall|i: int| 0 <= i < self.tables.len() ==> (#[trigger] self.tables[i]).wf()
        &&& distinct_names(self.tables)
    }
}

impl View for Database {
    type V = DatabaseModel;

    closed spec fn view(&self) -> DatabaseModel {
        DatabaseModel { name: self.name@, tables: tables_of(self.tables@) }
    }
}

/// Appends the text `s` as it is written.
fn write_text(bytes: &mut Vec<u8>, s: &str)
    ensures
        final(bytes)@ == old(bytes)@ + text_bytes(s@),
        storable(Value::String(s@)),
{
    let raw = type_to_bytes(&Types::String(s.to_owned()));
    extend_bytes_from_raw_type(bytes, &raw);
    assert(bytes@ =~= old(bytes)@ + text_bytes(s@));
}

/// Appends the number `n` as it is written.
fn write_count(bytes: &mut Vec<u8>, n: usize)
    ensures
        final(bytes)@ == old(bytes)@ + count_bytes(n as nat),
{
    let raw = type_to_bytes(&Types::U64(n as u64));
    extend_bytes_from_raw_type(bytes, &raw);
    assert(bytes@ =~= old(bytes)@ + count_bytes(n as nat));
}

/// Appends the codes of the kinds of `t` and of its items.
fn write_chain(bytes: &mut Vec<u8>, t: &TypeDefs)
    ensures
        final(bytes)@ == old(bytes)@ + chain(*t),
    decreases *t,
{
    match t {
        TypeDefs::Array(inner) => {
            bytes.push(8);
            write_chain(bytes, inner);
            assert(bytes@ =~= old(bytes)@ + chain(*t));
        },
        _ => {
            bytes.push(t.code());
            assert(bytes@ =~= old(bytes)@ + chain(*t));
        },
    }
}

/// Appends the type `t` as it is written.
fn write_tag(bytes: &mut Vec<u8>, t: &TypeDefs)
    ensures
        final(bytes)@ == old(bytes)@ + tag_bytes(*t),
{
    let layers = t.get_base_and_second_layer();
    bytes.push(layers[0]);
    bytes.push(layers[1]);
    match t {
        TypeDefs::Array(inner) => match &**inner {
            TypeDefs::Array(deeper) => {
                write_chain(bytes, deeper);
                assert(bytes@ =~= old(bytes)@ + tag_bytes(*t));
            },
            _ => {
                assert(bytes@ =~= old(bytes)@ + tag_bytes(*t));
            },
        },
        _ => {
            assert(bytes@ =~= old(bytes)@ + tag_bytes(*t));
        },
    }
}

/// Appends the table `table` as it is written.
fn write_table(bytes: &mut Vec<u8>, table: &Table)
    requires
        table.wf(),
    ensures
        final(bytes)@ == old(bytes)@ + table_bytes(table@),
        storable_table(table@),
{
    let ghost t = table@;
    write_text(bytes, table.get_name());
    let columns = table.header_count();
    write_count(bytes, columns);
    let ghost head = bytes@;
    let mut j: usize = 0;
    while j < columns
        invariant
            t == table@,
            columns == t.headers.len(),
            j <= columns,
            bytes@ == head + headers_upto(t.headers, j as nat),
            forall|k: int| 0 <= k < j ==> storable(Value::String((#[trigger] t.headers[k]).key)),
        decreases columns - j,
    {
        let header = table.header(j);
        write_text(bytes, header.key.as_str());
        write_tag(bytes, &header.rtype);
        assert(bytes@ =~= head + headers_upto(t.headers, (j + 1) as nat));
        j = j + 1;
    }
    let count = table.row_count();
    write_count(bytes, count);
    let ghost body = bytes@;
    let mut i: usize = 0;
    while i < count
        invariant
            t == table@,
            table.wf(),
            columns == t.headers.len(),
            count == t.rows.len(),
            i <= count,
            bytes@ == body + rows_upto(t.rows, i as nat),
            forall|r: int, c: int|
                0 <= r < i && 0 <= c < t.rows[r].len() ==> storable(
                    (#[trigger] t.rows[r][c]).value,
                ),
        decreases count - i,
    {
        assert(row_typed(t.rows[i as int], t.headers));
        let ghost start = bytes@;
        let mut c: usize = 0;
        while c < columns
            invariant
                t == table@,
                columns == t.headers.len(),
                count == t.rows.len(),
                i < count,
                t.rows[i as int].len() == columns,
                c <= columns,
                bytes@ == start + framed_upto(t.rows[i as int], c as nat),
                forall|k: int| 0 <= k < c ==> storable((#[trigger] t.rows[i as int][k]).value),
            decreases columns - c,
        {
            let raw = type_to_bytes(&table.cell(i, c).rtype);
            extend_bytes_from_raw_type(bytes, &raw);
            assert(bytes@ =~= start + framed_upto(t.rows[i as int], (c + 1) as nat));
            c = c + 1;
        }
        assert(bytes@ =~= body + rows_upto(t.rows, (i + 1) as nat));
        i = i + 1;
    }
    assert(bytes@ =~= old(bytes)@ + table_bytes(t));
}

/// Reads the text that is written in `data` from `at` on.
fn read_text(data: &[u8], at: usize) -> (res: Option<(String, usize)>)
    ensures
        match res {
            Some((text, end)) => parse_text(data@, at as int) == Some((text@, end as int)) && at
                < end <= data@.len(),
            None => parse_text(data@, at as int) is None,
        },
{
    proof {
        lemma_parse_typed(data@, at as int, TypeDefs::String);
    }
    match read_data(data, at, &TypeDefs::String) {
        Some((value, end)) => match value.rtype {
            Types::String(text) => Some((text, end)),
            _ => {
                assert(false);
                None
            },
        },
        None => None,
    }
}

/// Reads the number that is written in `data` from `at` on.
fn read_count(data: &[u8], at: usize) -> (res: Option<(u64, usize)>)
    ensures
        match res {
            Some((n, end)) => parse_count(data@, at as int) == Some((n as nat, end as int)) && at
                < end <= data@.len(),
            None => parse_count(data@, at as int) is None,
        },
{
    proof {
        lemma_parse_typed(data@, at as int, TypeDefs::U64);
    }
    match read_data(data, at, &TypeDefs::U64) {
        Some((value, end)) => match value.rtype {
            Types::U64(n) => Some((n, end)),
            _ => {
                assert(false);
                None
            },
        },
        None => None,
    }
}

/// Reads the type whose kind and whose items' kinds are written in `data`
/// from `at` on.
fn read_chain(data: &[u8], at: usize) -> (res: Option<(TypeDefs, usize)>)
    ensures
        match res {
            Some((t, end)) => parse_chain(data@, at as int) == Some((t, end as int)) && at < end
                <= data@.len(),
            None => parse_chain(data@, at as int) is None,
        },
    decreases data@.len() - at,
{
    match read_one(data, at) {
        None => None,
        Some(code) => {
            if code < 8 {
                Some((TypeDefs::from_base_and_second_layer(code, 0), at + 1))
            } else if code == 8 {
                match read_chain(data, at + 1) {
                    Some((inner, end)) => Some((TypeDefs::Array(Box::new(inner)), end)),
                    None => None,
                }
            } else {
                None
            }
        },
    }
}

/// Reads the type that is written in `data` from `at` on.
fn read_tag(data: &[u8], at: usize) -> (res: Option<(TypeDefs, usize)>)
    ensures
        match res {
            Some((t, end)) => parse_tag(data@, at as int) == Some((t, end as int)) && at < end
                <= data@.len(),
            None => parse_tag(data@, at as int) is None,
        },
{
    if data.len() < 2 || at > data.len() - 2 {
        return None;
    }
    let base = data[at];
    let second = data[at + 1];
    if base < 8 || (base == 8 && second < 8) {
        Some((TypeDefs::from_base_and_second_layer(base, second), at + 2))
    } else if base == 8 {
        match read_chain(data, at + 1) {
            Some((inner, end)) => Some((TypeDefs::Array(Box::new(inner)), end)),
            None => None,
        }
    } else {
        None
    }
}

/// Reads the table that is written in `data` from `at` on.
fn read_table(data: &[u8], at: usize) -> (res: Option<(Table, usize)>)
    ensures
        match res {
            Some((table, end)) => parse_table(data@, at as int) == Some((table@, end as int))
                && table.wf() && at < end <= data@.len(),
            None => parse_table(data@, at as int) is None,
        },
{
    let (name, at1) = match read_text(data, at) {
        Some(found) => found,
        None => {
            return None;
        },
    };
    let (columns, at2) = match read_count(data, at1) {
        Some(found) => found,
        None => {
            return None;
        },
    };
    let mut headers: Vec<TableRow> = Vec::new();
    let mut cur: usize = at2;
    let mut j: u64 = 0;
    assert(columns_of(headers@) =~= Seq::<Column>::empty());
    while j < columns
        invariant
            j <= columns,
            at2 <= cur <= data@.len(),
            parse_text(data@, at as int) == Some((name@, at1 as int)),
            parse_count(data@, at1 as int) == Some((columns as nat, at2 as int)),
            parse_headers_upto(data@, at2 as int, j as nat) == Some(
                (columns_of(headers@), cur as int),
            ),
        decreases columns - j,
    {
        let (key, next) = match read_text(data, cur) {
            Some(found) => found,
            None => {
                proof {
                    lemma_headers_fail(data@, at2 as int, (j + 1) as nat, columns as nat);
                }
                return None;
            },
        };
        let (rtype, end) = match read_tag(data, next) {
            Some(found) => found,
            None => {
                proof {
                    lemma_headers_fail(data@, at2 as int, (j + 1) as nat, columns as nat);
                }
                return None;
            },
        };
        let header = TableRow { key, rtype };
        assert(columns_of(headers@.push(header)) =~= columns_of(headers@).push(header@));
        headers.push(header);
        cur = end;
        j = j + 1;
    }
    let (count, at4) = match read_count(data, cur) {
        Some(found) => found,
        None => {
            return None;
        },
    };
    let ghost title = name@;
    let ghost at3 = cur;
    let mut table = Table::create(name, headers);
    let ghost shape = table@.headers;
    let width = table.header_count();
    cur = at4;
    let mut i: u64 = 0;
    while i < count
        invariant
            i <= count,
            at4 <= cur <= data@.len(),
            table.wf(),
            table@.name == title,
            table@.headers == shape,
            width == shape.len(),
            parse_text(data@, at as int) == Some((title, at1 as int)),
            parse_count(data@, at1 as int) == Some((columns as nat, at2 as int)),
            parse_headers_upto(data@, at2 as int, columns as nat) == Some((shape, at3 as int)),
            parse_count(data@, at3 as int) == Some((count as nat, at4 as int)),
            parse_rows_upto(data@, at4 as int, shape, i as nat) == Some((table@.rows, cur as int)),
        decreases count - i,
    {
        let mut row: Vec<SafeType> = Vec::new();
        let ghost start = cur;
        let mut c: usize = 0;
        assert(cells_of(row@) =~= Seq::<Cell>::empty());
        while c < width
            invariant
                c <= width,
                i < count,
                table@.headers == shape,
                width == shape.len(),
                start <= cur <= data@.len(),
                parse_text(data@, at as int) == Some((title, at1 as int)),
                parse_count(data@, at1 as int) == Some((columns as nat, at2 as int)),
                parse_headers_upto(data@, at2 as int, columns as nat) == Some((shape, at3 as int)),
                parse_count(data@, at3 as int) == Some((count as nat, at4 as int)),
                parse_rows_upto(data@, at4 as int, shape, i as nat) == Some(
                    (table@.rows, start as int),
                ),
                row.len() == c,
                parse_row_upto(data@, start as int, shape, c as nat) == Some(
                    (cells_of(row@), cur as int),
                ),
                forall|k: int|
                    0 <= k < c ==> well_typed(#[trigger] cells_of(row@)[k], shape[k].rtype),
            decreases width - c,
        {
            proof {
                lemma_parse_typed(data@, cur as int, shape[c as int].rtype);
            }
            match read_data(data, cur, &table.header(c).rtype) {
                Some((value, end)) => {
                    assert(cells_of(row@.push(value)) =~= cells_of(row@).push(value@));
                    row.push(value);
                    cur = end;
                },
                None => {
                    proof {
                        lemma_row_fails(data@, start as int, shape, (c + 1) as nat, width as nat);
                        lemma_rows_fail(data@, at4 as int, shape, (i + 1) as nat, count as nat);
                    }
                    return None;
                },
            }
            c = c + 1;
        }
        proof {
            assert(row_fits(cells_of(row@), shape));
            assert(stored_row(cells_of(row@), shape) =~= cells_of(row@));
        }
        match table.insert(row) {
            Ok(_) => {},
            Err(_) => {
                assert(false);
                return None;
            },
        }
        i = i + 1;
    }
    Some((table, cur))
}

impl Database {
    /// Whether every table is well formed and no two have the same name.
    pub open spec fn wf(&self) -> bool {
        self@.wf()
    }

    /// A database without a name and without tables.
    pub fn new() -> (res: Self)
        ensures
            res@ == (DatabaseModel {
                name: Seq::<char>::empty(),
                tables: Seq::<TableModel>::empty(),
            }),
            res.wf(),
    {
        let res = Database { tables: Vec::new(), name: String::new() };
        assert(res@.tables =~= Seq::<TableModel>::empty());
        res
    }

    /// Gives the database the name `name`.
    pub fn set_name(&mut self, name: &str)
        ensures
            final(self)@ == (DatabaseModel { name: name@, tables: old(self)@.tables }),
    {
        self.name = name.to_owned();
    }

    /// The name of the database.
    pub fn get_name(&self) -> (res: String)
        ensures
            res@ == self@.name,
    {
        self.name.clone()
    }

    /// The size of the database, which is not kept: always 0.
    pub fn get_size(&self) -> (res: usize)
        ensures
            res == 0,
    {
        0
    }

    /// How many tables the database has.
    pub fn get_table_count(&self) -> (res: usize)
        ensures
            res == self@.tables.len(),
    {
        self.tables.len()
    }

    /// The database as it is written: its name, the number of its tables,
    /// and each table with its columns and its rows. Loading these bytes
    /// gives this database back.
    pub fn save(&self) -> (res: Vec<u8>)
        requires
            self.wf(),
        ensures
            res@ == database_bytes(self@),
            storable_database(self@),
            parse_database(res@) == Some(self@),
    {
        let mut bytes: Vec<u8> = Vec::new();
        write_text(&mut bytes, self.name.as_str());
        write_count(&mut bytes, self.tables.len());
        let ghost head = bytes@;
        let mut i: usize = 0;
        while i < self.tables.len()
            invariant
                self.wf(),
                i <= self.tables.len(),
                self.tables.len() == self@.tables.len(),
                bytes@ == head + tables_upto(self@.tables, i as nat),
                forall|k: int| 0 <= k < i ==> storable_table(#[trigger] self@.tables[k]),
            decreases self.tables.len() - i,
        {
            assert(self@.tables[i as int] == self.tables@[i as int]@);
            assert(self@.tables[i as int].wf());
            write_table(&mut bytes, &self.tables[i]);
            assert(bytes@ =~= head + tables_upto(self@.tables, (i + 1) as nat));
            i = i + 1;
        }
        proof {
            assert(bytes@ =~= database_bytes(self@));
            lemma_load_inverts_save(self@);
        }
        bytes
    }

    /// The database that is written at the start of `bytes`. Nothing is
    /// loaded where the bytes end too early, hold what no value of the
    /// expected type is written as, or hold two tables of one name.
    pub fn load(bytes: &[u8]) -> (res: Result<Self, LoadError>)
        ensures
            match res {
                Ok(db) => parse_database(bytes@) == Some(db@) && db.wf(),
                Err(_) => parse_database(bytes@) is None,
            },
    {
        let (name, at1) = match read_text(bytes, 0) {
            Some(found) => found,
            None => {
                return Err(LoadError);
            },
        };
        let (count, at2) = match read_count(bytes, at1) {
            Some(found) => found,
            None => {
                return Err(LoadError);
            },
        };
        let ghost title = name@;
        let mut db = Database { name, tables: Vec::new() };
        assert(db@.tables =~= Seq::<TableModel>::empty());
        let mut cur: usize = at2;
        let mut i: u64 = 0;
        while i < count
            invariant
                i <= count,
                at2 <= cur <= bytes@.len(),
                db.wf(),
                db@.name == title,
                parse_text(bytes@, 0) == Some((title, at1 as int)),
                parse_count(bytes@, at1 as int) == Some((count as nat, at2 as int)),
                parse_tables_upto(bytes@, at2 as int, i as nat) == Some((db@.tables, cur as int)),
            decreases count - i,
        {
            let (table, end) = match read_table(bytes, cur) {
                Some(found) => found,
                None => {
                    proof {
                        lemma_tables_fail(bytes@, at2 as int, (i + 1) as nat, count as nat);
                    }
                    return Err(LoadError);
                },
            };
            match db.find_table(table.get_name()) {
                Some(_) => {
                    proof {
                        lemma_tables_fail(bytes@, at2 as int, (i + 1) as nat, count as nat);
                    }
                    return Err(LoadError);
                },
                None => {},
            }
            let ghost before = db@.tables;
            db.tables.push(table);
            proof {
                assert(db@.tables =~= before.push(table@));
                assert forall|a: int, b: int| 0 <= a < b < db@.tables.len() implies (
                #[trigger] db@.tables[a]).name != (#[trigger] db@.tables[b]).name by {
                    assert(db@.tables[a] == before[a]);
                    if b < before.len() {
                        assert(db@.tables[b] == before[b]);
                    }
                }
            }
            cur = end;
            i = i + 1;
        }
        Ok(db)
    }

    /// The number of the first table with the name `table_name`.
    fn find_table(&self, table_name: &str) -> (res: Option<usize>)
        ensures
            match res {
                Some(i) => is_table_place(self@.tables, table_name@, i as int),
                None => !has_table(self@.tables, table_name@),
            },
    {
        let wanted = table_name.to_owned();
        let mut i: usize = 0;
        while i < self.tables.len()
            invariant
                i <= self.tables.len(),
                wanted@ == table_name@,
                forall|k: int| 0 <= k < i ==> (#[trigger] self@.tables[k]).name != table_name@,
            decreases self.tables.len() - i,
        {
            let name = self.tables[i].get_name();
            assert(self@.tables[i as int] == self.tables@[i as int]@);
            if name.to_owned() == wanted {
                return Some(i);
            }
            i = i + 1;
        }
        None
    }

    /// The first table with the name `table_name`, to work on; what is done
    /// to it is done to the database's table.
    pub fn table(&mut self, table_name: &str) -> (res: Option<&mut Table>)
        ensures
            match res {
                Some(t) => exists|i: int|
                    {
                        &&& #[trigger] is_table_place(old(self)@.tables, table_name@, i)
                        &&& t@ == old(self)@.tables[i]
                        &&& final(self)@ == (DatabaseModel {
                            name: old(self)@.name,
                            tables: old(self)@.tables.update(i, final(t)@),
                        })
                    },
                None => !has_table(old(self)@.tables, table_name@) && final(self)@ == old(self)@,
            },
    {
        match self.find_table(table_name) {
            Some(i) => {
                let t = &mut self.tables[i];
                proof {
                    assert(t@ == old(self)@.tables[i as int]);
                    assert(tables_of(old(self).tables@.update(i as int, *final(t))) =~= old(
                        self,
                    )@.tables.update(i as int, final(t)@));
                }
                Some(t)
            },
            None => None,
        }
    }

    /// Adds an empty table with the name `table_name` and the columns
    /// `rows`, unless a table has that name already.
    pub fn create_table(&mut self, table_name: &str, rows: Vec<TableRow>) -> (res: Result<(), ()>)
        requires
            old(self).wf(),
        ensures
            final(self).wf(),
            match res {
                Ok(_) => !has_table(old(self)@.tables, table_name@) && final(self)@
                    == (DatabaseModel {
                    name: old(self)@.name,
                    tables: old(self)@.tables.push(
                        TableModel {
                            name: table_name@,
                            headers: columns_of(rows@),
                            rows: Seq::<Seq<Cell>>::empty(),
                        },
                    ),
                }),
                Err(_) => has_table(old(self)@.tables, table_name@) && final(self)@ == old(self)@,
            },
    {
        match self.find_table(table_name) {
            Some(_) => Err(()),
            None => {
                let table = Table::create(table_name.to_owned(), rows);
                self.tables.push(table);
                proof {
                    assert(self@.tables =~= old(self)@.tables.push(table@));
                    assert forall|i: int, j: int| 0 <= i < j < self@.tables.len() implies (
                    #[trigger] self@.tables[i]).name != (#[trigger] self@.tables[j]).name by {
                        if j < old(self)@.tables.len() {
                            assert(self@.tables[i] == old(self)@.tables[i]);
                            assert(self@.tables[j] == old(self)@.tables[j]);
                        } else {
                            assert(self@.tables[i] == old(self)@.tables[i]);
                        }
                    }
                }
                Ok(())
            },
        }
    }
}

} // verus!
