//! The table engine: rows of typed values under a fixed list of columns,
//! found, changed and removed by a test on each row.

use crate::text::{
    inner_type, inner_type_text, length_mismatch, length_mismatch_text, not_array_text,
    not_numeric, not_numeric_text, overflow, overflow_text, too_many_values_text, type_mismatch,
    type_mismatch_text, unknown_key, unknown_key_text, value_type, value_type_text,
};
use vstd::string::*;
pub use crate::types::{FromTypes, SafeType, TypeDefs, TypeMismatch, Types};
use crate::types::{
    cells_of, fits, lemma_array_value, lemma_well_typed_array, stored, well_typed, Cell, Value,
};
use vstd::prelude::*;

verus! {

/// One value of a row with the key of its column.
#[derive(Debug, PartialEq)]
pub struct Entry {
    /// The key of the column.
    pub key: String,
    /// The value.
    pub value: SafeType,
}

/// One row as a list of keyed values, in the order of the columns.
#[derive(Debug, PartialEq)]
pub struct Entries {
    /// The values of the row with their keys.
    pub entries: Vec<Entry>,
}

/// What is found under a key in one row: a value with its key, or nothing.
#[derive(Debug)]
pub struct RowQuery {
    entry: Option<Entry>,
}

/// A column: its key and the type of its values.
#[derive(Debug, PartialEq)]
pub struct TableRow {
    /// The key of the column.
    pub key: String,
    /// The type of the column's values.
    pub rtype: TypeDefs,
}

/// A named list of rows under a fixed list of columns.
#[derive(Debug)]
pub struct Table {
    pub(crate) name: String,
    pub(crate) headers: Vec<TableRow>,
    pub(crate) columns: Vec<Vec<SafeType>>,
}

/// What an `Entry` holds, as a mathematical value.
pub struct Field {
    /// The key of the column.
    pub key: Seq<char>,
    /// The value.
    pub value: Cell,
}

/// What a `TableRow` holds, as a mathematical value.
pub struct Column {
    /// The key of the column.
    pub key: Seq<char>,
    /// The type of the column's values.
    pub rtype: TypeDefs,
}

/// What a `Table` holds, as a mathematical value.
pub struct TableModel {
    /// The name of the table.
    pub name: Seq<char>,
    /// The columns, in order.
    pub headers: Seq<Column>,
    /// The rows, in order, each as its values in the order of the columns.
    pub rows: Seq<Seq<Cell>>,
}

impl View for Entry {
    type V = Field;

    open spec fn view(&self) -> Field {
        Field { key: self.key@, value: self.value@ }
    }
}

impl View for Entries {
    type V = Seq<Field>;

    open spec fn view(&self) -> Seq<Field> {
        Seq::new(self.entries@.len(), |i: int| self.entries@[i]@)
    }
}

impl View for RowQuery {
    type V = Option<Field>;

    closed spec fn view(&self) -> Option<Field> {
        match self.entry {
            Some(entry) => Some(entry@),
            None => None,
        }
    }
}

/// Whether entry number `i` of `fields` is the first with the key `key`.
pub open spec fn is_first_with(fields: Seq<Field>, key: Seq<char>, i: int) -> bool {
    &&& 0 <= i < fields.len()
    &&& fields[i].key == key
    &&& forall|k: int| 0 <= k < i ==> (#[trigger] fields[k]).key != key
}

/// Whether some entry of `fields` has the key `key`.
pub open spec fn has_field(fields: Seq<Field>, key: Seq<char>) -> bool {
    exists|i: int| 0 <= i < fields.len() && (#[trigger] fields[i]).key == key
}

/// Whether `found` is what a row of `fields` holds under `key`: its first
/// entry with that key, or nothing where it has none.
pub open spec fn found_under(fields: Seq<Field>, key: Seq<char>, found: Option<Field>) -> bool {
    match found {
        Some(field) => exists|i: int|
            #[trigger] is_first_with(fields, key, i) && field == fields[i],
        None => !has_field(fields, key),
    }
}

impl View for TableRow {
    type V = Column;

    open spec fn view(&self) -> Column {
        Column { key: self.key@, rtype: self.rtype }
    }
}

/// The columns that `headers` describe.
pub open spec fn columns_of(headers: Seq<TableRow>) -> Seq<Column> {
    Seq::new(headers.len(), |i: int| headers[i]@)
}

/// The rows that `rows` hold.
pub open spec fn rows_of(rows: Seq<Vec<SafeType>>) -> Seq<Seq<Cell>> {
    Seq::new(rows.len(), |i: int| cells_of(rows[i]@))
}

/// The texts of `lines`.
pub open spec fn texts(lines: Seq<String>) -> Seq<Seq<char>> {
    Seq::new(lines.len(), |i: int| lines[i]@)
}

impl View for Table {
    type V = TableModel;

    closed spec fn view(&self) -> TableModel {
        TableModel {
            name: self.name@,
            headers: columns_of(self.headers@),
            rows: rows_of(self.columns@),
        }
    }
}

/// Whether `row` has one value of the right type under each of `headers`.
pub open spec fn row_typed(row: Seq<Cell>, headers: Seq<Column>) -> bool {
    row.len() == headers.len() && forall|j: int|
        0 <= j < row.len() ==> well_typed(#[trigger] row[j], headers[j].rtype)
}

/// Whether `row` may be inserted under `headers`: it has one value for each
/// column, and each value fits its column.
pub open spec fn row_fits(row: Seq<Cell>, headers: Seq<Column>) -> bool {
    row.len() == headers.len() && forall|j: int|
        0 <= j < row.len() ==> fits(#[trigger] row[j], headers[j].rtype)
}

/// The row that is stored for `row` under `headers`.
pub open spec fn stored_row(row: Seq<Cell>, headers: Seq<Column>) -> Seq<Cell> {
    Seq::new(row.len(), |j: int| stored(row[j], headers[j].rtype))
}

/// The reports on the first `n` values of `row`: one for each value that
/// does not fit its column, in the order of the columns.
pub open spec fn mismatches_upto(row: Seq<Cell>, headers: Seq<Column>, n: nat) -> Seq<Seq<char>>
    decreases n,
{
    if n == 0 {
        Seq::empty()
    } else {
        let before = mismatches_upto(row, headers, (n - 1) as nat);
        if fits(row[n - 1], headers[n - 1].rtype) {
            before
        } else {
            before.push(
                type_mismatch_text(headers[n - 1].rtype, row[n - 1].type_id, (n - 1) as nat),
            )
        }
    }
}

/// What is reported of a row that may not be inserted under `headers`.
pub open spec fn insert_report(row: Seq<Cell>, headers: Seq<Column>) -> Seq<Seq<char>> {
    if row.len() != headers.len() {
        seq![length_mismatch_text(row.len(), headers.len())]
    } else {
        mismatches_upto(row, headers, row.len())
    }
}

/// Every value that does not fit its column is reported with the number
/// of that column.
pub proof fn lemma_mismatch_reported(row: Seq<Cell>, headers: Seq<Column>, n: nat, i: int)
    requires
        0 <= i < n <= row.len(),
        !fits(row[i], headers[i].rtype),
    ensures
        mismatches_upto(row, headers, n).contains(
            type_mismatch_text(headers[i].rtype, row[i].type_id, i as nat),
        ),
    decreases n,
{
    let before = mismatches_upto(row, headers, (n - 1) as nat);
    let text = type_mismatch_text(headers[i].rtype, row[i].type_id, i as nat);
    if i < n - 1 {
        lemma_mismatch_reported(row, headers, (n - 1) as nat, i);
        let at = choose|at: int| 0 <= at < before.len() && before[at] == text;
        assert(mismatches_upto(row, headers, n)[at] == text);
    } else {
        assert(mismatches_upto(row, headers, n)[before.len() as int] == text);
    }
}

/// A row with a value that does not fit its column may not be inserted, and
/// what is reported of the row names that column by its number.
pub proof fn lemma_insert_names_column(row: Seq<Cell>, headers: Seq<Column>, i: int)
    requires
        row.len() == headers.len(),
        0 <= i < row.len(),
        !fits(row[i], headers[i].rtype),
    ensures
        !row_fits(row, headers),
        insert_report(row, headers).contains(
            type_mismatch_text(headers[i].rtype, row[i].type_id, i as nat),
        ),
{
    lemma_mismatch_reported(row, headers, row.len(), i);
}

/// There is a report exactly where some value does not fit.
pub proof fn lemma_mismatches_empty(row: Seq<Cell>, headers: Seq<Column>, n: nat)
    requires
        n <= row.len(),
    ensures
        mismatches_upto(row, headers, n).len() == 0 <==> forall|j: int|
            0 <= j < n ==> fits(#[trigger] row[j], headers[j].rtype),
    decreases n,
{
    if n > 0 {
        lemma_mismatches_empty(row, headers, (n - 1) as nat);
    }
}

/// The values of `row` with the keys of their columns.
pub open spec fn row_fields(headers: Seq<Column>, row: Seq<Cell>) -> Seq<Field> {
    Seq::new(row.len(), |j: int| Field { key: headers[j].key, value: row[j] })
}

/// The rows of `t`, each as its values with the keys of their columns.
pub open spec fn all_fields(t: TableModel) -> Seq<Seq<Field>> {
    Seq::new(t.rows.len(), |i: int| row_fields(t.headers, t.rows[i]))
}

/// What the rows of `list` hold.
pub open spec fn fields_of(list: Seq<Entries>) -> Seq<Seq<Field>> {
    Seq::new(list.len(), |i: int| list[i]@)
}

/// Whether `fields` is one of the rows of `t`.
pub open spec fn is_row_of(t: TableModel, fields: Seq<Field>) -> bool {
    exists|i: int| 0 <= i < t.rows.len() && fields == #[trigger] row_fields(t.headers, t.rows[i])
}

/// Whether `filter` can be asked about every row of `t`.
pub open spec fn tests_rows<E: Fn(Entries) -> bool>(filter: E, t: TableModel) -> bool {
    forall|e: Entries| is_row_of(t, e@) ==> #[trigger] filter.requires((e,))
}

/// Whether `filter` can answer `verdict` when asked about a row that holds
/// `fields`.
pub open spec fn judged<E: Fn(Entries) -> bool>(
    filter: E,
    fields: Seq<Field>,
    verdict: bool,
) -> bool {
    exists|e: Entries| e@ == fields && #[trigger] filter.ensures((e,), verdict)
}

/// Whether `verdicts` are answers of `filter` about the first rows of `t`,
/// one for each in their order.
pub open spec fn verdicts_match<E: Fn(Entries) -> bool>(
    filter: E,
    t: TableModel,
    verdicts: Seq<bool>,
) -> bool {
    verdicts.len() <= t.rows.len() && forall|i: int|
        0 <= i < verdicts.len() ==> judged(
            filter,
            row_fields(t.headers, t.rows[i]),
            #[trigger] verdicts[i],
        )
}

/// Whether `filter` gives the same answer whenever it is asked about rows
/// that hold the same.
pub open spec fn answers_by_content<E: Fn(Entries) -> bool>(filter: E) -> bool {
    forall|e1: Entries, e2: Entries, v1: bool, v2: bool|
        e1@ == e2@ && #[trigger] filter.ensures((e1,), v1) && #[trigger] filter.ensures((e2,), v2)
            ==> v1 == v2
}

/// Those of the first `n` rows of `t` whose verdict is `true`, in their
/// order, each as its values with the keys of their columns.
pub open spec fn picked_upto(t: TableModel, verdicts: Seq<bool>, n: nat) -> Seq<Seq<Field>>
    decreases n,
{
    if n == 0 {
        Seq::empty()
    } else {
        let before = picked_upto(t, verdicts, (n - 1) as nat);
        if verdicts[n - 1] {
            before.push(row_fields(t.headers, t.rows[n - 1]))
        } else {
            before
        }
    }
}

/// Those of the first `n` of `rows` whose verdict is `false`, in their
/// order.
pub open spec fn kept_upto(rows: Seq<Seq<Cell>>, verdicts: Seq<bool>, n: nat) -> Seq<Seq<Cell>>
    decreases n,
{
    if n == 0 {
        Seq::empty()
    } else {
        let before = kept_upto(rows, verdicts, (n - 1) as nat);
        if verdicts[n - 1] {
            before
        } else {
            before.push(rows[n - 1])
        }
    }
}

/// How many of the first `n` verdicts are `true`.
pub open spec fn count_upto(verdicts: Seq<bool>, n: nat) -> nat
    decreases n,
{
    if n == 0 {
        0
    } else {
        count_upto(verdicts, (n - 1) as nat) + if verdicts[n - 1] {
            1nat
        } else {
            0nat
        }
    }
}

/// What is picked among the first `n` rows depends on their verdicts only.
pub proof fn lemma_picked_prefix(t: TableModel, v1: Seq<bool>, v2: Seq<bool>, n: nat)
    requires
        n <= v1.len(),
        n <= v2.len(),
        forall|i: int| 0 <= i < n ==> v1[i] == v2[i],
    ensures
        picked_upto(t, v1, n) == picked_upto(t, v2, n),
    decreases n,
{
    if n > 0 {
        lemma_picked_prefix(t, v1, v2, (n - 1) as nat);
    }
}

/// What is kept of the first `n` rows depends on their verdicts only.
pub proof fn lemma_kept_prefix(rows: Seq<Seq<Cell>>, v1: Seq<bool>, v2: Seq<bool>, n: nat)
    requires
        n <= v1.len(),
        n <= v2.len(),
        forall|i: int| 0 <= i < n ==> v1[i] == v2[i],
    ensures
        kept_upto(rows, v1, n) == kept_upto(rows, v2, n),
    decreases n,
{
    if n > 0 {
        lemma_kept_prefix(rows, v1, v2, (n - 1) as nat);
    }
}

/// How many of the first `n` verdicts are `true` depends on them only.
pub proof fn lemma_count_prefix(v1: Seq<bool>, v2: Seq<bool>, n: nat)
    requires
        n <= v1.len(),
        n <= v2.len(),
        forall|i: int| 0 <= i < n ==> v1[i] == v2[i],
    ensures
        count_upto(v1, n) == count_upto(v2, n),
    decreases n,
{
    if n > 0 {
        lemma_count_prefix(v1, v2, (n - 1) as nat);
    }
}

/// Where none of the first `n` verdicts is counted, each of them is `false`.
pub proof fn lemma_all_false(verdicts: Seq<bool>, n: nat, i: int)
    requires
        count_upto(verdicts, n) == 0,
        0 <= i < n,
    ensures
        !verdicts[i],
    decreases n,
{
    if i < n - 1 {
        lemma_all_false(verdicts, (n - 1) as nat, i);
    }
}

/// No more verdicts are `true` than there are verdicts.
pub proof fn lemma_count_bound(verdicts: Seq<bool>, n: nat)
    ensures
        count_upto(verdicts, n) <= n,
    decreases n,
{
    if n > 0 {
        lemma_count_bound(verdicts, (n - 1) as nat);
    }
}

/// Whether `found` is what a search of `t` with `filter` may give: the rows
/// that `filter` answered `true` for, in their order.
pub open spec fn found_by<E: Fn(Entries) -> bool>(
    filter: E,
    t: TableModel,
    found: Seq<Seq<Field>>,
) -> bool {
    exists|verdicts: Seq<bool>|
        verdicts.len() == t.rows.len() && #[trigger] verdicts_match(filter, t, verdicts) && found
            == picked_upto(t, verdicts, t.rows.len())
}

/// Two searches of one table with one filter that answers by content find
/// the same rows in the same order.
pub proof fn lemma_search_repeats<E: Fn(Entries) -> bool>(
    filter: E,
    t: TableModel,
    first: Seq<Seq<Field>>,
    second: Seq<Seq<Field>>,
)
    requires
        answers_by_content(filter),
        found_by(filter, t, first),
        found_by(filter, t, second),
    ensures
        first == second,
{
    let v1 = choose|verdicts: Seq<bool>|
        verdicts.len() == t.rows.len() && #[trigger] verdicts_match(filter, t, verdicts) && first
            == picked_upto(t, verdicts, t.rows.len());
    let v2 = choose|verdicts: Seq<bool>|
        verdicts.len() == t.rows.len() && #[trigger] verdicts_match(filter, t, verdicts) && second
            == picked_upto(t, verdicts, t.rows.len());
    assert forall|i: int| 0 <= i < t.rows.len() implies v1[i] == v2[i] by {
        let fields = row_fields(t.headers, t.rows[i]);
        assert(judged(filter, fields, v1[i]));
        assert(judged(filter, fields, v2[i]));
        let e1 = choose|e: Entries| e@ == fields && #[trigger] filter.ensures((e,), v1[i]);
        let e2 = choose|e: Entries| e@ == fields && #[trigger] filter.ensures((e,), v2[i]);
        assert(filter.ensures((e1,), v1[i]) && filter.ensures((e2,), v2[i]));
    }
    assert(v1 =~= v2);
}

/// Whether some column has the key `key`.
pub open spec fn has_key(headers: Seq<Column>, key: Seq<char>) -> bool {
    exists|j: int| 0 <= j < headers.len() && (#[trigger] headers[j]).key == key
}

/// Whether column number `j` is the first with the key `key`.
pub open spec fn is_position(headers: Seq<Column>, key: Seq<char>, j: int) -> bool {
    &&& 0 <= j < headers.len()
    &&& headers[j].key == key
    &&& forall|k: int| 0 <= k < j ==> (#[trigger] headers[k]).key != key
}

/// The number of the first column with the key `key`, where there is one.
pub open spec fn position(headers: Seq<Column>, key: Seq<char>) -> int {
    choose|j: int| is_position(headers, key, j)
}

/// The first column with a key is the one that `position` gives.
pub proof fn lemma_position(headers: Seq<Column>, key: Seq<char>, j: int)
    requires
        is_position(headers, key, j),
    ensures
        position(headers, key) == j,
        has_key(headers, key),
{
    let p = position(headers, key);
    assert(is_position(headers, key, p));
    if p < j {
        assert(headers[p].key != key);
    }
    if j < p {
        assert(headers[j].key != key);
    }
}

/// The bit pattern of the largest finite 32-bit float.
pub open spec fn largest_single() -> u32 {
    0x7F7F_FFFF
}

/// The bit pattern of the largest finite 64-bit float.
pub open spec fn largest_double() -> u64 {
    0x7FEF_FFFF_FFFF_FFFF
}

/// What is reported where the value of `row` under `key` cannot be
/// increased: no column has that key, the value is no number, or it is the
/// largest of its type. Nothing where it can.
pub open spec fn inc_report(headers: Seq<Column>, row: Seq<Cell>, key: Seq<char>) -> Option<
    Seq<char>,
> {
    if !has_key(headers, key) {
        Some(unknown_key_text(key))
    } else {
        match row[position(headers, key)].value {
            Value::I8(n) => if n == i8::MAX {
                Some(overflow_text(TypeDefs::I8))
            } else {
                None
            },
            Value::I64(n) => if n == i64::MAX {
                Some(overflow_text(TypeDefs::I64))
            } else {
                None
            },
            Value::U64(n) => if n == u64::MAX {
                Some(overflow_text(TypeDefs::U64))
            } else {
                None
            },
            Value::F32(bits) => if bits == largest_single() {
                Some(overflow_text(TypeDefs::F32))
            } else {
                None
            },
            Value::F64(bits) => if bits == largest_double() {
                Some(overflow_text(TypeDefs::F64))
            } else {
                None
            },
            _ => Some(not_numeric_text(key)),
        }
    }
}

/// Whether `after` is `before` increased by one: an integer by the number
/// one, a float by what `add_single` or `add_double` gives for its bit
/// pattern.
pub open spec fn inc_cell<S: Fn(u32) -> u32, D: Fn(u64) -> u64>(
    before: Cell,
    after: Cell,
    add_single: S,
    add_double: D,
) -> bool {
    after.type_id == before.type_id && match before.value {
        Value::I8(n) => after.value == Value::I8((n + 1) as i8),
        Value::I64(n) => after.value == Value::I64((n + 1) as i64),
        Value::U64(n) => after.value == Value::U64((n + 1) as u64),
        Value::F32(bits) => after.value is F32 && add_single.ensures((bits,), after.value->F32_0),
        Value::F64(bits) => after.value is F64 && add_double.ensures((bits,), after.value->F64_0),
        _ => false,
    }
}

/// Whether `after` is the row `before` with its value under `key`
/// increased by one, or, where that value cannot be increased, the row
/// `before` itself.
pub open spec fn inc_row<S: Fn(u32) -> u32, D: Fn(u64) -> u64>(
    headers: Seq<Column>,
    before: Seq<Cell>,
    after: Seq<Cell>,
    key: Seq<char>,
    add_single: S,
    add_double: D,
) -> bool {
    if inc_report(headers, before, key) is Some {
        after == before
    } else {
        &&& after.len() == before.len()
        &&& inc_cell(
            before[position(headers, key)],
            after[position(headers, key)],
            add_single,
            add_double,
        )
        &&& forall|j: int|
            0 <= j < before.len() && j != position(headers, key) ==> after[j] == before[j]
    }
}

/// The reports on those of the first `n` rows of `t` whose verdict is
/// `true` and whose value under `key` cannot be increased, in the order of
/// the rows.
pub open spec fn inc_reports_upto(
    t: TableModel,
    key: Seq<char>,
    verdicts: Seq<bool>,
    n: nat,
) -> Seq<Seq<char>>
    decreases n,
{
    if n == 0 {
        Seq::empty()
    } else {
        let before = inc_reports_upto(t, key, verdicts, (n - 1) as nat);
        match inc_report(t.headers, t.rows[n - 1], key) {
            Some(report) => if verdicts[n - 1] {
                before.push(report)
            } else {
                before
            },
            None => before,
        }
    }
}

/// The reports on the first `n` rows depend on their verdicts only.
pub proof fn lemma_inc_reports_prefix(
    t: TableModel,
    key: Seq<char>,
    v1: Seq<bool>,
    v2: Seq<bool>,
    n: nat,
)
    requires
        n <= v1.len(),
        n <= v2.len(),
        forall|i: int| 0 <= i < n ==> v1[i] == v2[i],
    ensures
        inc_reports_upto(t, key, v1, n) == inc_reports_upto(t, key, v2, n),
    decreases n,
{
    if n > 0 {
        lemma_inc_reports_prefix(t, key, v1, v2, (n - 1) as nat);
    }
}

/// What is reported where `value` cannot join the arrays under `key`: no
/// column has that key, the column holds no arrays, or `value` is neither
/// an item for them nor an array of such items. Nothing where it can.
pub open spec fn push_report(headers: Seq<Column>, key: Seq<char>, value: Cell) -> Option<
    Seq<char>,
> {
    if !has_key(headers, key) {
        Some(unknown_key_text(key))
    } else {
        match headers[position(headers, key)].rtype {
            TypeDefs::Array(inner) => if value.value is Array {
                if fits(value, TypeDefs::Array(inner)) {
                    None
                } else {
                    Some(inner_type_text(*inner, value.type_id))
                }
            } else {
                if well_typed(value, *inner) {
                    None
                } else {
                    Some(inner_type_text(*inner, value.type_id))
                }
            },
            _ => Some(not_array_text()),
        }
    }
}

/// The array `cell` with `value` at its end, or, where `value` is an array
/// itself, with the items of `value` at its end.
pub open spec fn joined(cell: Cell, value: Cell) -> Cell {
    Cell {
        type_id: cell.type_id,
        value: Value::Array(
            cell.value->Array_0 + match value.value {
                Value::Array(items) => items,
                _ => seq![value],
            },
        ),
    }
}

/// The row `row` after `value` has joined its array under `key`, or the row
/// itself where `value` cannot join.
pub open spec fn pushed_row(
    headers: Seq<Column>,
    row: Seq<Cell>,
    key: Seq<char>,
    value: Cell,
) -> Seq<Cell> {
    if push_report(headers, key, value) is Some {
        row
    } else {
        row.update(position(headers, key), joined(row[position(headers, key)], value))
    }
}

/// The report `report`, once for each of the first `n` verdicts that is
/// `true`.
pub open spec fn repeated_upto(report: Option<Seq<char>>, verdicts: Seq<bool>, n: nat) -> Seq<
    Seq<char>,
>
    decreases n,
{
    if n == 0 {
        Seq::empty()
    } else {
        let before = repeated_upto(report, verdicts, (n - 1) as nat);
        match report {
            Some(text) => if verdicts[n - 1] {
                before.push(text)
            } else {
                before
            },
            None => before,
        }
    }
}

/// The reports for the first `n` rows depend on their verdicts only.
pub proof fn lemma_repeated_prefix(
    report: Option<Seq<char>>,
    v1: Seq<bool>,
    v2: Seq<bool>,
    n: nat,
)
    requires
        n <= v1.len(),
        n <= v2.len(),
        forall|i: int| 0 <= i < n ==> v1[i] == v2[i],
    ensures
        repeated_upto(report, v1, n) == repeated_upto(report, v2, n),
    decreases n,
{
    if n > 0 {
        lemma_repeated_prefix(report, v1, v2, (n - 1) as nat);
    }
}

/// A value that joins an array of a column leaves an array of that column.
pub proof fn lemma_joined_typed(cell: Cell, value: Cell, inner: TypeDefs)
    requires
        well_typed(cell, TypeDefs::Array(Box::new(inner))),
        if value.value is Array {
            fits(value, TypeDefs::Array(Box::new(inner)))
        } else {
            well_typed(value, inner)
        },
    ensures
        well_typed(joined(cell, value), TypeDefs::Array(Box::new(inner))),
{
    lemma_well_typed_array(cell, inner);
    lemma_well_typed_array(value, inner);
    lemma_well_typed_array(joined(cell, value), inner);
    let items = joined(cell, value).value->Array_0;
    let old_items = cell.value->Array_0;
    assert forall|i: int| 0 <= i < items.len() implies well_typed(#[trigger] items[i], inner) by {
        if i < old_items.len() {
            assert(items[i] == old_items[i]);
        } else if value.value is Array {
            assert(items[i] == value.value->Array_0[i - old_items.len()]);
        } else {
            assert(items[i] == value);
        }
    }
}

/// What the new values of `value` hold, each with its key.
pub open spec fn pairs_of(value: Seq<Entry>) -> Seq<Field> {
    Seq::new(value.len(), |k: int| value[k]@)
}

/// Whether `pair` can be written under `headers`: some column has its key,
/// and its value is of the type of the first such column.
pub open spec fn pair_ok(headers: Seq<Column>, pair: Field) -> bool {
    has_key(headers, pair.key) && well_typed(
        pair.value,
        headers[position(headers, pair.key)].rtype,
    )
}

/// Whether column number `j` is where `pair` is written under `headers`:
/// it is the first column with the key of `pair`, and the value of `pair`
/// is of its type.
pub open spec fn placed(headers: Seq<Column>, pair: Field, j: int) -> bool {
    &&& is_position(headers, pair.key, j)
    &&& position(headers, pair.key) == j
    &&& has_key(headers, pair.key)
    &&& well_typed(pair.value, headers[j].rtype)
}

/// What is reported of a pair that cannot be written under `headers`.
pub open spec fn pair_report(headers: Seq<Column>, pair: Field) -> Seq<char> {
    if !has_key(headers, pair.key) {
        unknown_key_text(pair.key)
    } else {
        value_type_text(headers[position(headers, pair.key)].rtype, pair.value.type_id)
    }
}

/// How many pairs at the start of the first `n` of `pairs` can be written
/// one after the other before one cannot.
pub open spec fn good_upto(headers: Seq<Column>, pairs: Seq<Field>, n: nat) -> nat
    decreases n,
{
    if n == 0 {
        0
    } else {
        let before = good_upto(headers, pairs, (n - 1) as nat);
        if before == n - 1 && pair_ok(headers, pairs[n - 1]) {
            n
        } else {
            before
        }
    }
}

/// The row `row` after the first `n` of `pairs` have been written to it,
/// each under the first column with its key.
pub open spec fn written_upto(
    headers: Seq<Column>,
    row: Seq<Cell>,
    pairs: Seq<Field>,
    n: nat,
) -> Seq<Cell>
    decreases n,
{
    if n == 0 {
        row
    } else {
        written_upto(headers, row, pairs, (n - 1) as nat).update(
            position(headers, pairs[n - 1].key),
            pairs[n - 1].value,
        )
    }
}

/// Once a pair cannot be written, the count of those that can stays.
pub proof fn lemma_good_stops(headers: Seq<Column>, pairs: Seq<Field>, k: nat, n: nat)
    requires
        good_upto(headers, pairs, k) == k,
        !pair_ok(headers, pairs[k as int]),
        k < n,
    ensures
        good_upto(headers, pairs, n) == k,
    decreases n,
{
    if n > k + 1 {
        lemma_good_stops(headers, pairs, k, (n - 1) as nat);
    }
}

impl TableModel {
    /// Whether every row has one value of the right type under each column.
    pub open spec fn wf(self) -> bool {
        forall|i: int| 0 <= i < self.rows.len() ==> row_typed(#[trigger] self.rows[i], self.headers)
    }
}

impl Clone for TableRow {
    fn clone(&self) -> (res: Self)
        ensures
            res@ == self@,
    {
        TableRow { key: self.key.clone(), rtype: self.rtype.clone() }
    }
}

impl Clone for Entry {
    fn clone(&self) -> (res: Self)
        ensures
            res@ == self@,
    {
        Entry { key: self.key.clone(), value: self.value.clone() }
    }
}

impl Clone for Entries {
    fn clone(&self) -> (res: Self)
        ensures
            res@ == self@,
    {
        let mut entries: Vec<Entry> = Vec::new();
        let mut i: usize = 0;
        while i < self.entries.len()
            invariant
                i <= self.entries.len(),
                entries.len() == i,
                forall|j: int| 0 <= j < i ==> (#[trigger] entries@[j])@ == self.entries@[j]@,
            decreases self.entries.len() - i,
        {
            entries.push(self.entries[i].clone());
            i = i + 1;
        }
        let res = Entries { entries };
        assert(res@ =~= self@);
        res
    }
}

/// A copy of `row`.
pub fn clone_row(row: &Vec<SafeType>) -> (res: Vec<SafeType>)
    ensures
        cells_of(res@) == cells_of(row@),
{
    let mut res: Vec<SafeType> = Vec::new();
    let mut i: usize = 0;
    while i < row.len()
        invariant
            i <= row.len(),
            res.len() == i,
            forall|j: int| 0 <= j < i ==> (#[trigger] res@[j])@ == row@[j]@,
        decreases row.len() - i,
    {
        res.push(row[i].clone());
        i = i + 1;
    }
    assert(cells_of(res@) =~= cells_of(row@));
    res
}

/// The array `cell` with `value` at its end, or, where `value` is an array
/// itself, with the items of `value` at its end.
fn joined_cell(cell: &SafeType, value: &SafeType) -> (res: SafeType)
    requires
        cell@.value is Array,
    ensures
        res@ == joined(cell@, value@),
{
    match &cell.rtype {
        Types::Array(items) => {
            proof {
                lemma_array_value(*items);
            }
            let mut all = clone_row(items);
            match &value.rtype {
                Types::Array(more) => {
                    proof {
                        lemma_array_value(*more);
                    }
                    let mut rest = clone_row(more);
                    assert(cells_of(all@ + rest@) =~= cells_of(items@) + cells_of(more@));
                    all.append(&mut rest);
                },
                _ => {
                    let last = value.clone();
                    assert(cells_of(all@.push(last)) =~= cells_of(items@) + seq![value@]);
                    all.push(last);
                },
            }
            proof {
                lemma_array_value(all);
            }
            SafeType { type_id: cell.type_id.clone(), rtype: Types::Array(all) }
        },
        _ => {
            assert(false);
            cell.clone()
        },
    }
}

impl Entry {
    /// What the value holds, read as `T`.
    pub fn get<T: FromTypes>(&self) -> (res: Result<T, TypeMismatch>)
        ensures
            match res {
                Ok(out) => T::readable(self@.value.value) && T::holds_as(self@.value.value, out),
                Err(_) => !T::readable(self@.value.value),
            },
    {
        self.value.get()
    }
}

impl Entries {
    /// The number of the first entry with the key `key`.
    fn find(&self, key: &str) -> (res: Option<usize>)
        ensures
            match res {
                Some(i) => is_first_with(self@, key@, i as int),
                None => !has_field(self@, key@),
            },
    {
        let wanted = key.to_owned();
        let mut i: usize = 0;
        while i < self.entries.len()
            invariant
                i <= self.entries.len(),
                wanted@ == key@,
                forall|k: int| 0 <= k < i ==> (#[trigger] self@[k]).key != key@,
            decreases self.entries.len() - i,
        {
            assert(self@[i as int] == self.entries@[i as int]@);
            if self.entries[i].key == wanted {
                return Some(i);
            }
            i = i + 1;
        }
        None
    }

    /// The first entry with the key `key`.
    pub fn get(&self, key: &str) -> (res: Option<&Entry>)
        ensures
            found_under(
                self@,
                key@,
                match res {
                    Some(entry) => Some(entry@),
                    None => None,
                },
            ),
    {
        match self.find(key) {
            Some(i) => {
                assert(self@[i as int] == self.entries@[i as int]@);
                Some(&self.entries[i])
            },
            None => None,
        }
    }

    /// Entry number `index`, if the row has that many.
    pub fn get_at(&self, index: usize) -> (res: Option<&Entry>)
        ensures
            match res {
                Some(entry) => index < self@.len() && entry@ == self@[index as int],
                None => index >= self@.len(),
            },
    {
        if index < self.entries.len() {
            Some(&self.entries[index])
        } else {
            None
        }
    }

    /// What the row holds under the key `key`, to ask about.
    pub fn row(&self, key: &str) -> (res: RowQuery)
        ensures
            found_under(self@, key@, res@),
    {
        match self.find(key) {
            Some(i) => {
                assert(self@[i as int] == self.entries@[i as int]@);
                RowQuery { entry: Some(self.entries[i].clone()) }
            },
            None => RowQuery { entry: None },
        }
    }
}

impl RowQuery {
    /// Whether something was found.
    pub fn found(&self) -> (res: bool)
        ensures
            res == (self@ is Some),
    {
        self.entry.is_some()
    }

    /// How many items the array has that was found, and -1 where nothing
    /// was found or what was found is no array. An array of more items
    /// than the largest number that can be given is reported with that
    /// number.
    pub fn size(&self) -> (res: isize)
        ensures
            res == match self@ {
                Some(field) => match field.value.value {
                    Value::Array(items) => if items.len() <= isize::MAX {
                        items.len() as int
                    } else {
                        isize::MAX as int
                    },
                    _ => -1,
                },
                None => -1,
            },
    {
        match &self.entry {
            Some(entry) => match &entry.value.rtype {
                Types::Array(items) => {
                    proof {
                        lemma_array_value(*items);
                    }
                    let n = items.len();
                    if n <= isize::MAX as usize {
                        n as isize
                    } else {
                        isize::MAX
                    }
                },
                _ => -1,
            },
            None => -1,
        }
    }

    /// Whether what was found is declared like `key` and holds the same.
    pub fn is(&self, key: SafeType) -> (res: bool)
        ensures
            res == match self@ {
                Some(field) => field.value == key@,
                None => false,
            },
    {
        match &self.entry {
            Some(entry) => key.same(&entry.value),
            None => false,
        }
    }

    /// Whether what was found is declared to be of type `key`.
    pub fn is_it(&self, key: TypeDefs) -> (res: bool)
        ensures
            res == match self@ {
                Some(field) => field.value.type_id == key,
                None => false,
            },
    {
        match &self.entry {
            Some(entry) => key.same(&entry.value.type_id),
            None => false,
        }
    }

    /// What was found, read as `T`; nothing where nothing was found.
    pub fn get_value<T: FromTypes>(&self) -> (res: Result<Option<T>, TypeMismatch>)
        ensures
            match res {
                Ok(Some(out)) => self@ is Some && T::readable(self@->0.value.value) && T::holds_as(
                    self@->0.value.value,
                    out,
                ),
                Ok(None) => self@ is None,
                Err(_) => self@ is Some && !T::readable(self@->0.value.value),
            },
    {
        match &self.entry {
            Some(entry) => match entry.value.get::<T>() {
                Ok(out) => Ok(Some(out)),
                Err(e) => Err(e),
            },
            None => Ok(None),
        }
    }
}

impl TableRow {
    /// A column with the given key and type.
    pub fn new(key: &str, rtype: TypeDefs) -> (res: Self)
        ensures
            res@ == (Column { key: key@, rtype }),
    {
        TableRow { key: key.to_owned(), rtype }
    }
}

impl Table {
    /// Whether every row has one value of the right type under each column.
    pub open spec fn wf(&self) -> bool {
        self@.wf()
    }

    /// An empty table with the given name and columns.
    pub(crate) fn create(name: String, headers: Vec<TableRow>) -> (res: Table)
        ensures
            res@ == (TableModel {
                name: name@,
                headers: columns_of(headers@),
                rows: Seq::<Seq<Cell>>::empty(),
            }),
            res.wf(),
    {
        let res = Table { name, headers, columns: Vec::new() };
        assert(res@.rows =~= Seq::<Seq<Cell>>::empty());
        res
    }

    /// How many columns the table has.
    pub(crate) fn header_count(&self) -> (res: usize)
        ensures
            res == self@.headers.len(),
    {
        self.headers.len()
    }

    /// Column number `j`.
    pub(crate) fn header(&self, j: usize) -> (res: &TableRow)
        requires
            j < self@.headers.len(),
        ensures
            res@ == self@.headers[j as int],
    {
        &self.headers[j]
    }

    /// How many rows the table has.
    pub(crate) fn row_count(&self) -> (res: usize)
        ensures
            res == self@.rows.len(),
    {
        self.columns.len()
    }

    /// The value of row number `i` under column number `j`.
    pub(crate) fn cell(&self, i: usize, j: usize) -> (res: &SafeType)
        requires
            i < self@.rows.len(),
            j < self@.rows[i as int].len(),
        ensures
            res@ == self@.rows[i as int][j as int],
    {
        &self.columns[i][j]
    }

    /// The name of the table.
    pub fn get_name(&self) -> (res: &str)
        ensures
            res@ == self@.name,
    {
        self.name.as_str()
    }

    /// The columns of the table.
    pub fn get_headers(&self) -> (res: Vec<TableRow>)
        ensures
            columns_of(res@) == self@.headers,
    {
        let mut res: Vec<TableRow> = Vec::new();
        let mut i: usize = 0;
        while i < self.headers.len()
            invariant
                i <= self.headers.len(),
                res.len() == i,
                forall|j: int| 0 <= j < i ==> (#[trigger] res@[j])@ == self.headers@[j]@,
            decreases self.headers.len() - i,
        {
            res.push(self.headers[i].clone());
            i = i + 1;
        }
        assert(columns_of(res@) =~= columns_of(self.headers@));
        res
    }

    /// Row number `i` as its values with the keys of their columns.
    fn entries_at(&self, i: usize) -> (res: Entries)
        requires
            self.wf(),
            i < self@.rows.len(),
        ensures
            res@ == row_fields(self@.headers, self@.rows[i as int]),
            is_row_of(self@, res@),
    {
        let row = &self.columns[i];
        assert(self@.rows[i as int] == cells_of(row@));
        assert(row_typed(self@.rows[i as int], self@.headers));
        let mut entries: Vec<Entry> = Vec::new();
        let mut j: usize = 0;
        while j < row.len()
            invariant
                j <= row.len(),
                row.len() == self.headers.len(),
                entries.len() == j,
                forall|k: int|
                    0 <= k < j ==> (#[trigger] entries@[k])@ == (Field {
                        key: self.headers@[k].key@,
                        value: row@[k]@,
                    }),
            decreases row.len() - j,
        {
            entries.push(Entry { key: self.headers[j].key.clone(), value: row[j].clone() });
            j = j + 1;
        }
        let res = Entries { entries };
        assert(res@ =~= row_fields(self@.headers, self@.rows[i as int]));
        res
    }

    /// The number of the first column with the key `key`.
    fn find_column(&self, key: &str) -> (res: Option<usize>)
        ensures
            match res {
                Some(j) => is_position(self@.headers, key@, j as int) && position(
                    self@.headers,
                    key@,
                ) == j && has_key(self@.headers, key@),
                None => !has_key(self@.headers, key@),
            },
    {
        let wanted = key.to_owned();
        let mut j: usize = 0;
        while j < self.headers.len()
            invariant
                j <= self.headers.len(),
                wanted@ == key@,
                forall|k: int| 0 <= k < j ==> (#[trigger] self@.headers[k]).key != key@,
            decreases self.headers.len() - j,
        {
            assert(self@.headers[j as int].key == self.headers@[j as int].key@);
            if self.headers[j].key == wanted {
                proof {
                    lemma_position(self@.headers, key@, j as int);
                }
                return Some(j);
            }
            j = j + 1;
        }
        None
    }

    /// Puts `value` in place of the value of row number `i` under column
    /// number `j`.
    fn put(&mut self, i: usize, j: usize, value: SafeType)
        requires
            old(self).wf(),
            i < old(self)@.rows.len(),
            j < old(self)@.headers.len(),
            well_typed(value@, old(self)@.headers[j as int].rtype),
        ensures
            final(self).wf(),
            final(self)@.name == old(self)@.name,
            final(self)@.headers == old(self)@.headers,
            final(self)@.rows == old(self)@.rows.update(
                i as int,
                old(self)@.rows[i as int].update(j as int, value@),
            ),
    {
        assert(row_typed(self@.rows[i as int], self@.headers));
        self.columns[i][j] = value;
        proof {
            let row = old(self)@.rows[i as int].update(j as int, value@);
            assert(cells_of(self.columns@[i as int]@) =~= row);
            assert(self@.rows =~= old(self)@.rows.update(i as int, row));
            assert forall|k: int| 0 <= k < self@.rows.len() implies row_typed(
                #[trigger] self@.rows[k],
                self@.headers,
            ) by {
                if k != i {
                    assert(self@.rows[k] == old(self)@.rows[k]);
                }
            }
        }
    }

    /// Every row, in order, as its values with the keys of their columns.
    pub fn get_all(&self) -> (res: Vec<Entries>)
        requires
            self.wf(),
        ensures
            fields_of(res@) == all_fields(self@),
    {
        let mut all: Vec<Entries> = Vec::new();
        let mut i: usize = 0;
        while i < self.columns.len()
            invariant
                self.wf(),
                i <= self.columns.len(),
                all.len() == i,
                forall|k: int|
                    0 <= k < i ==> (#[trigger] all@[k])@ == row_fields(
                        self@.headers,
                        self@.rows[k],
                    ),
            decreases self.columns.len() - i,
        {
            all.push(self.entries_at(i));
            i = i + 1;
        }
        assert(fields_of(all@) =~= all_fields(self@));
        all
    }

    /// Row number `index` as its values with the keys of their columns, if
    /// the table has that many rows.
    pub fn get_at(&self, index: usize) -> (res: Option<Entries>)
        requires
            self.wf(),
        ensures
            match res {
                Some(entries) => index < self@.rows.len() && entries@ == row_fields(
                    self@.headers,
                    self@.rows[index as int],
                ),
                None => index >= self@.rows.len(),
            },
    {
        if index < self.columns.len() {
            Some(self.entries_at(index))
        } else {
            None
        }
    }

    /// The rows that `filter` answers `true` for, in their order, each as
    /// its values with the keys of their columns. `filter` is asked once
    /// about each row, from the first row to the last.
    pub fn get_where<E: Fn(Entries) -> bool>(&self, filter: E) -> (res: Vec<
        Entries,
    >)
        requires
            self.wf(),
            tests_rows(filter, self@),
        ensures
            found_by(filter, self@, fields_of(res@)),
    {
        let mut found: Vec<Entries> = Vec::new();
        let ghost mut verdicts: Seq<bool> = Seq::empty();
        let mut i: usize = 0;
        while i < self.columns.len()
            invariant
                self.wf(),
                tests_rows(filter, self@),
                i <= self.columns.len(),
                self.columns.len() == self@.rows.len(),
                verdicts.len() == i,
                verdicts_match(filter, self@, verdicts),
                fields_of(found@) == picked_upto(self@, verdicts, i as nat),
            decreases self.columns.len() - i,
        {
            let entries = self.entries_at(i);
            let copy = entries.clone();
            let verdict = filter(copy);
            proof {
                let before = verdicts;
                verdicts = verdicts.push(verdict);
                assert(judged(filter, row_fields(self@.headers, self@.rows[i as int]), verdict));
                lemma_picked_prefix(self@, before, verdicts, i as nat);
            }
            if verdict {
                assert(fields_of(found@.push(entries)) =~= fields_of(found@).push(entries@));
                found.push(entries);
            }
            i = i + 1;
        }
        found
    }

    /// Removes the rows that `filter` answers `true` for, and gives their
    /// number. `filter` is asked once about each row, from the first row to
    /// the last, before any row is removed.
    pub fn remove_where<E: Fn(Entries) -> bool>(&mut self, filter: E) -> (res:
        usize)
        requires
            old(self).wf(),
            tests_rows(filter, old(self)@),
        ensures
            final(self).wf(),
            final(self)@.name == old(self)@.name,
            final(self)@.headers == old(self)@.headers,
            exists|verdicts: Seq<bool>|
                {
                    &&& verdicts.len() == old(self)@.rows.len()
                    &&& #[trigger] verdicts_match(filter, old(self)@, verdicts)
                    &&& final(self)@.rows == kept_upto(
                        old(self)@.rows,
                        verdicts,
                        old(self)@.rows.len(),
                    )
                    &&& res == count_upto(verdicts, old(self)@.rows.len())
                },
    {
        let mut kept: Vec<Vec<SafeType>> = Vec::new();
        let mut removed: usize = 0;
        let ghost mut verdicts: Seq<bool> = Seq::empty();
        let mut i: usize = 0;
        while i < self.columns.len()
            invariant
                self.wf(),
                *self == *old(self),
                tests_rows(filter, self@),
                i <= self.columns.len(),
                self.columns.len() == self@.rows.len(),
                verdicts.len() == i,
                verdicts_match(filter, self@, verdicts),
                rows_of(kept@) == kept_upto(self@.rows, verdicts, i as nat),
                removed == count_upto(verdicts, i as nat),
                removed <= i,
                forall|k: int|
                    0 <= k < kept.len() ==> row_typed(#[trigger] rows_of(kept@)[k], self@.headers),
            decreases self.columns.len() - i,
        {
            let verdict = filter(self.entries_at(i));
            proof {
                let before = verdicts;
                verdicts = verdicts.push(verdict);
                assert(judged(filter, row_fields(self@.headers, self@.rows[i as int]), verdict));
                lemma_kept_prefix(self@.rows, before, verdicts, i as nat);
                lemma_count_prefix(before, verdicts, i as nat);
            }
            if verdict {
                removed = removed + 1;
            } else {
                let row = clone_row(&self.columns[i]);
                assert(cells_of(row@) == self@.rows[i as int]);
                assert(rows_of(kept@.push(row)) =~= rows_of(kept@).push(cells_of(row@)));
                kept.push(row);
            }
            i = i + 1;
        }
        self.columns = kept;
        removed
    }

    /// Increases by one the value under the key `row` in every row that
    /// `filter` answers `true` for: an integer by the number one, a float by
    /// what `add_single` or `add_double` gives for its bit pattern. A row
    /// whose value is the largest of its type, or no number, or that has no
    /// such key, stays as it is and is reported; the other rows are still
    /// worked on.
    pub fn inc_where<
        E: Fn(Entries) -> bool,
        S: Fn(u32) -> u32,
        D: Fn(u64) -> u64,
    >(&mut self, filter: E, row: &str, add_single: S, add_double: D) -> (res: Result<
        (),
        Vec<String>,
    >)
        requires
            old(self).wf(),
            tests_rows(filter, old(self)@),
            forall|bits: u32| add_single.requires((bits,)),
            forall|bits: u64| add_double.requires((bits,)),
        ensures
            final(self).wf(),
            final(self)@.name == old(self)@.name,
            final(self)@.headers == old(self)@.headers,
            final(self)@.rows.len() == old(self)@.rows.len(),
            exists|verdicts: Seq<bool>|
                {
                    &&& verdicts.len() == old(self)@.rows.len()
                    &&& #[trigger] verdicts_match(filter, old(self)@, verdicts)
                    &&& forall|i: int|
                        0 <= i < verdicts.len() ==> if verdicts[i] {
                            inc_row(
                                old(self)@.headers,
                                old(self)@.rows[i],
                                #[trigger] final(self)@.rows[i],
                                row@,
                                add_single,
                                add_double,
                            )
                        } else {
                            final(self)@.rows[i] == old(self)@.rows[i]
                        }
                    &&& match res {
                        Ok(_) => inc_reports_upto(old(self)@, row@, verdicts, verdicts.len()).len()
                            == 0,
                        Err(errors) => errors@.len() > 0 && texts(errors@) == inc_reports_upto(
                            old(self)@,
                            row@,
                            verdicts,
                            verdicts.len(),
                        ),
                    }
                },
    {
        let mut errors: Vec<String> = Vec::new();
        let ghost mut verdicts: Seq<bool> = Seq::empty();
        let place = self.find_column(row);
        let mut i: usize = 0;
        assert(texts(errors@) =~= Seq::<Seq<char>>::empty());
        while i < self.columns.len()
            invariant
                self.wf(),
                old(self).wf(),
                self@.name == old(self)@.name,
                self@.headers == old(self)@.headers,
                self@.rows.len() == old(self)@.rows.len(),
                self.columns.len() == self@.rows.len(),
                tests_rows(filter, old(self)@),
                forall|bits: u32| add_single.requires((bits,)),
                forall|bits: u64| add_double.requires((bits,)),
                match place {
                    Some(j) => is_position(self@.headers, row@, j as int) && position(
                        self@.headers,
                        row@,
                    ) == j,
                    None => !has_key(self@.headers, row@),
                },
                i <= self.columns.len(),
                verdicts.len() == i,
                verdicts_match(filter, old(self)@, verdicts),
                forall|k: int| i <= k < self@.rows.len() ==> self@.rows[k] == old(self)@.rows[k],
                forall|k: int|
                    0 <= k < i ==> if verdicts[k] {
                        inc_row(
                            old(self)@.headers,
                            old(self)@.rows[k],
                            #[trigger] self@.rows[k],
                            row@,
                            add_single,
                            add_double,
                        )
                    } else {
                        self@.rows[k] == old(self)@.rows[k]
                    },
                texts(errors@) == inc_reports_upto(old(self)@, row@, verdicts, i as nat),
            decreases self.columns.len() - i,
        {
            let entries = self.entries_at(i);
            assert(is_row_of(old(self)@, entries@)) by {
                assert(entries@ == row_fields(old(self)@.headers, old(self)@.rows[i as int]));
            }
            let verdict = filter(entries);
            let ghost before = verdicts;
            let ghost rows_before = self@.rows;
            proof {
                verdicts = verdicts.push(verdict);
                assert(judged(
                    filter,
                    row_fields(old(self)@.headers, old(self)@.rows[i as int]),
                    verdict,
                ));
                lemma_inc_reports_prefix(old(self)@, row@, before, verdicts, i as nat);
                assert(row_typed(self@.rows[i as int], self@.headers));
            }
            if verdict {
                match place {
                    None => {
                        errors.push(unknown_key(row));
                    },
                    Some(j) => {
                        assert(self@.rows[i as int][j as int]
                            == self.columns@[i as int]@[j as int]@);
                        let next: Option<Types> = match &self.columns[i][j].rtype {
                            Types::I8(n) => if *n == i8::MAX {
                                errors.push(overflow(&TypeDefs::I8));
                                None
                            } else {
                                Some(Types::I8(*n + 1))
                            },
                            Types::I64(n) => if *n == i64::MAX {
                                errors.push(overflow(&TypeDefs::I64));
                                None
                            } else {
                                Some(Types::I64(*n + 1))
                            },
                            Types::U64(n) => if *n == u64::MAX {
                                errors.push(overflow(&TypeDefs::U64));
                                None
                            } else {
                                Some(Types::U64(*n + 1))
                            },
                            Types::F32(bits) => if *bits == 0x7F7F_FFFF {
                                errors.push(overflow(&TypeDefs::F32));
                                None
                            } else {
                                Some(Types::F32(add_single(*bits)))
                            },
                            Types::F64(bits) => if *bits == 0x7FEF_FFFF_FFFF_FFFF {
                                errors.push(overflow(&TypeDefs::F64));
                                None
                            } else {
                                Some(Types::F64(add_double(*bits)))
                            },
                            _ => {
                                errors.push(not_numeric(row));
                                None
                            },
                        };
                        match next {
                            Some(value) => {
                                let cell = SafeType {
                                    type_id: self.columns[i][j].type_id.clone(),
                                    rtype: value,
                                };
                                self.put(i, j, cell);
                            },
                            None => {},
                        }
                    },
                }
            }
            proof {
                assert(texts(errors@) =~= inc_reports_upto(
                    old(self)@,
                    row@,
                    verdicts,
                    (i + 1) as nat,
                ));
                assert forall|k: int| 0 <= k < i + 1 implies if verdicts[k] {
                    inc_row(
                        old(self)@.headers,
                        old(self)@.rows[k],
                        #[trigger] self@.rows[k],
                        row@,
                        add_single,
                        add_double,
                    )
                } else {
                    self@.rows[k] == old(self)@.rows[k]
                } by {
                    if k < i {
                        assert(self@.rows[k] == rows_before[k]);
                    }
                }
            }
            i = i + 1;
        }
        if errors.len() == 0 {
            Ok(())
        } else {
            Err(errors)
        }
    }

    /// Lets `value` join the array under the key `row` in every row that
    /// `filter` answers `true` for: as its last item, or, where `value` is
    /// an array itself, with its items as the last items. Where `value`
    /// cannot join, the rows stay as they are, and each row that `filter`
    /// answers `true` for is reported.
    pub fn push_where<E: Fn(Entries) -> bool>(
        &mut self,
        filter: E,
        row: &str,
        value: SafeType,
    ) -> (res: Result<(), Vec<String>>)
        requires
            old(self).wf(),
            tests_rows(filter, old(self)@),
        ensures
            final(self).wf(),
            final(self)@.name == old(self)@.name,
            final(self)@.headers == old(self)@.headers,
            final(self)@.rows.len() == old(self)@.rows.len(),
            exists|verdicts: Seq<bool>|
                {
                    &&& verdicts.len() == old(self)@.rows.len()
                    &&& #[trigger] verdicts_match(filter, old(self)@, verdicts)
                    &&& forall|i: int|
                        0 <= i < verdicts.len() ==> #[trigger] final(self)@.rows[i]
                            == if verdicts[i] {
                            pushed_row(old(self)@.headers, old(self)@.rows[i], row@, value@)
                        } else {
                            old(self)@.rows[i]
                        }
                    &&& match res {
                        Ok(_) => repeated_upto(
                            push_report(old(self)@.headers, row@, value@),
                            verdicts,
                            verdicts.len(),
                        ).len() == 0,
                        Err(errors) => errors@.len() > 0 && texts(errors@) == repeated_upto(
                            push_report(old(self)@.headers, row@, value@),
                            verdicts,
                            verdicts.len(),
                        ),
                    }
                },
    {
        let mut errors: Vec<String> = Vec::new();
        let ghost mut verdicts: Seq<bool> = Seq::empty();
        let ghost report = push_report(self@.headers, row@, value@);
        let place = self.find_column(row);
        let mut i: usize = 0;
        assert(texts(errors@) =~= Seq::<Seq<char>>::empty());
        while i < self.columns.len()
            invariant
                self.wf(),
                old(self).wf(),
                self@.name == old(self)@.name,
                self@.headers == old(self)@.headers,
                self@.rows.len() == old(self)@.rows.len(),
                self.columns.len() == self@.rows.len(),
                tests_rows(filter, old(self)@),
                report == push_report(self@.headers, row@, value@),
                match place {
                    Some(j) => is_position(self@.headers, row@, j as int) && position(
                        self@.headers,
                        row@,
                    ) == j,
                    None => !has_key(self@.headers, row@),
                },
                i <= self.columns.len(),
                verdicts.len() == i,
                verdicts_match(filter, old(self)@, verdicts),
                forall|k: int| i <= k < self@.rows.len() ==> self@.rows[k] == old(self)@.rows[k],
                forall|k: int|
                    0 <= k < i ==> #[trigger] self@.rows[k] == if verdicts[k] {
                        pushed_row(old(self)@.headers, old(self)@.rows[k], row@, value@)
                    } else {
                        old(self)@.rows[k]
                    },
                texts(errors@) == repeated_upto(report, verdicts, i as nat),
            decreases self.columns.len() - i,
        {
            let entries = self.entries_at(i);
            assert(is_row_of(old(self)@, entries@)) by {
                assert(entries@ == row_fields(old(self)@.headers, old(self)@.rows[i as int]));
            }
            let verdict = filter(entries);
            let ghost before = verdicts;
            let ghost rows_before = self@.rows;
            proof {
                verdicts = verdicts.push(verdict);
                assert(judged(
                    filter,
                    row_fields(old(self)@.headers, old(self)@.rows[i as int]),
                    verdict,
                ));
                lemma_repeated_prefix(report, before, verdicts, i as nat);
                assert(row_typed(self@.rows[i as int], self@.headers));
            }
            if verdict {
                match place {
                    None => {
                        errors.push(unknown_key(row));
                    },
                    Some(j) => {
                        assert(self@.rows[i as int][j as int]
                            == self.columns@[i as int]@[j as int]@);
                        assert(self@.headers[j as int].rtype == self.headers@[j as int].rtype);
                        match &self.headers[j].rtype {
                            TypeDefs::Array(inner) => {
                                let joins = match &value.rtype {
                                    Types::Array(_) => value.fits_column(&self.headers[j].rtype),
                                    _ => value.is_typed(inner),
                                };
                                if joins {
                                    proof {
                                        lemma_well_typed_array(
                                            self@.rows[i as int][j as int],
                                            **inner,
                                        );
                                        lemma_joined_typed(
                                            self@.rows[i as int][j as int],
                                            value@,
                                            **inner,
                                        );
                                    }
                                    let cell = joined_cell(&self.columns[i][j], &value);
                                    self.put(i, j, cell);
                                } else {
                                    errors.push(inner_type(inner, &value.type_id));
                                }
                            },
                            _ => {
                                errors.push(String::from_str("Field is not a array type"));
                            },
                        }
                    },
                }
            }
            proof {
                assert(texts(errors@) =~= repeated_upto(report, verdicts, (i + 1) as nat));
                assert forall|k: int| 0 <= k < i + 1 implies #[trigger] self@.rows[k]
                    == if verdicts[k] {
                    pushed_row(old(self)@.headers, old(self)@.rows[k], row@, value@)
                } else {
                    old(self)@.rows[k]
                } by {
                    if k < i {
                        assert(self@.rows[k] == rows_before[k]);
                    }
                }
            }
            i = i + 1;
        }
        if errors.len() == 0 {
            Ok(())
        } else {
            Err(errors)
        }
    }

    /// Writes the new values of `value`, in their order, to every row that
    /// `filter` answers `true` for, each under the first column with its
    /// key, and gives the number of rows written to. A new value whose key
    /// names no column, or that is not of its column's type, ends the work
    /// at the first row that `filter` answers `true` for: what was written
    /// to that row before stays, the later rows are left alone, and that
    /// value is reported.
    pub fn set_where<E: Fn(Entries) -> bool>(
        &mut self,
        filter: E,
        value: Vec<Entry>,
    ) -> (res: Result<usize, Vec<String>>)
        requires
            old(self).wf(),
            tests_rows(filter, old(self)@),
        ensures
            final(self).wf(),
            final(self)@.name == old(self)@.name,
            final(self)@.headers == old(self)@.headers,
            final(self)@.rows.len() == old(self)@.rows.len(),
            match res {
                Ok(count) => {
                    &&& value@.len() <= old(self)@.headers.len()
                    &&& exists|verdicts: Seq<bool>|
                        {
                            &&& verdicts.len() == old(self)@.rows.len()
                            &&& #[trigger] verdicts_match(filter, old(self)@, verdicts)
                            &&& good_upto(old(self)@.headers, pairs_of(value@), value@.len())
                                == value@.len() || count_upto(verdicts, verdicts.len()) == 0
                            &&& forall|i: int|
                                0 <= i < verdicts.len() ==> #[trigger] final(self)@.rows[i]
                                    == if verdicts[i] {
                                    written_upto(
                                        old(self)@.headers,
                                        old(self)@.rows[i],
                                        pairs_of(value@),
                                        value@.len(),
                                    )
                                } else {
                                    old(self)@.rows[i]
                                }
                            &&& count == if value@.len() == 0 {
                                0
                            } else {
                                count_upto(verdicts, verdicts.len())
                            }
                        }
                },
                Err(errors) => if value@.len() > old(self)@.headers.len() {
                    &&& final(self)@.rows == old(self)@.rows
                    &&& texts(errors@) == seq![too_many_values_text()]
                } else {
                    let good = good_upto(old(self)@.headers, pairs_of(value@), value@.len());
                    &&& good < value@.len()
                    &&& texts(errors@) == seq![
                        pair_report(old(self)@.headers, pairs_of(value@)[good as int]),
                    ]
                    &&& exists|verdicts: Seq<bool>|
                        {
                            &&& 0 < verdicts.len() <= old(self)@.rows.len()
                            &&& #[trigger] verdicts_match(filter, old(self)@, verdicts)
                            &&& verdicts.last()
                            &&& count_upto(verdicts, (verdicts.len() - 1) as nat) == 0
                            &&& final(self)@.rows == old(self)@.rows.update(
                                verdicts.len() - 1,
                                written_upto(
                                    old(self)@.headers,
                                    old(self)@.rows[verdicts.len() - 1],
                                    pairs_of(value@),
                                    good,
                                ),
                            )
                        }
                },
            },
    {
        let ghost headers = self@.headers;
        let ghost pairs = pairs_of(value@);
        let mut errors: Vec<String> = Vec::new();
        if value.len() > self.headers.len() {
            errors.push(String::from_str("Value length is not equal to header length"));
            assert(texts(errors@) =~= seq![too_many_values_text()]);
            return Err(errors);
        }
        let mut places: Vec<usize> = Vec::new();
        let mut k: usize = 0;
        let mut fine: bool = true;
        while k < value.len() && fine
            invariant
                self@.headers == headers,
                pairs == pairs_of(value@),
                k <= value.len(),
                places.len() == k,
                fine ==> good_upto(headers, pairs, k as nat) == k,
                !fine ==> k < value.len() && good_upto(headers, pairs, k as nat) == k && !pair_ok(
                    headers,
                    pairs[k as int],
                ),
                forall|m: int|
                    0 <= m < k ==> placed(headers, pairs[m], #[trigger] places@[m] as int),
            decreases value.len() - k + if fine { 1nat } else { 0nat },
        {
            assert(pairs[k as int] == value@[k as int]@);
            match self.find_column(value[k].key.as_str()) {
                Some(j) => {
                    assert(self@.headers[j as int].rtype == self.headers@[j as int].rtype);
                    if value[k].value.is_typed(&self.headers[j].rtype) {
                        places.push(j);
                        k = k + 1;
                    } else {
                        fine = false;
                    }
                },
                None => {
                    fine = false;
                },
            }
        }
        let good = places.len();
        proof {
            if !fine {
                lemma_good_stops(headers, pairs, good as nat, value@.len());
            }
        }
        let ghost mut verdicts: Seq<bool> = Seq::empty();
        let mut changed: usize = 0;
        let mut stopped: bool = false;
        let mut i: usize = 0;
        while i < self.columns.len() && !stopped
            invariant
                self.wf(),
                old(self).wf(),
                self@.name == old(self)@.name,
                self@.headers == headers,
                old(self)@.headers == headers,
                pairs == pairs_of(value@),
                self@.rows.len() == old(self)@.rows.len(),
                self.columns.len() == self@.rows.len(),
                tests_rows(filter, old(self)@),
                good == places.len(),
                good <= value.len(),
                good == good_upto(headers, pairs, value@.len()),
                forall|m: int|
                    0 <= m < good ==> placed(headers, pairs[m], #[trigger] places@[m] as int),
                i <= self.columns.len(),
                verdicts.len() == i,
                verdicts_match(filter, old(self)@, verdicts),
                changed <= i,
                forall|r: int| i <= r < self@.rows.len() ==> self@.rows[r] == old(self)@.rows[r],
                !stopped ==> {
                    &&& errors@.len() == 0
                    &&& good == value@.len() || count_upto(verdicts, i as nat) == 0
                    &&& changed == if value@.len() == 0 {
                        0
                    } else {
                        count_upto(verdicts, i as nat)
                    }
                    &&& forall|r: int|
                        0 <= r < i ==> #[trigger] self@.rows[r] == if verdicts[r] {
                            written_upto(headers, old(self)@.rows[r], pairs, value@.len())
                        } else {
                            old(self)@.rows[r]
                        }
                },
                stopped ==> {
                    &&& i > 0
                    &&& good < value@.len()
                    &&& texts(errors@) == seq![pair_report(headers, pairs[good as int])]
                    &&& verdicts.last()
                    &&& count_upto(verdicts, (i - 1) as nat) == 0
                    &&& self@.rows == old(self)@.rows.update(
                        i - 1,
                        written_upto(headers, old(self)@.rows[i - 1], pairs, good as nat),
                    )
                },
            decreases self.columns.len() - i,
        {
            let entries = self.entries_at(i);
            assert(is_row_of(old(self)@, entries@)) by {
                assert(entries@ == row_fields(old(self)@.headers, old(self)@.rows[i as int]));
            }
            let verdict = filter(entries);
            let ghost before = verdicts;
            let ghost rows_before = self@.rows;
            proof {
                verdicts = verdicts.push(verdict);
                assert(judged(
                    filter,
                    row_fields(old(self)@.headers, old(self)@.rows[i as int]),
                    verdict,
                ));
                lemma_count_prefix(before, verdicts, i as nat);
                lemma_count_bound(verdicts, i as nat);
            }
            if verdict {
                let mut m: usize = 0;
                while m < good
                    invariant
                        self.wf(),
                        self@.name == old(self)@.name,
                        self@.headers == headers,
                        pairs == pairs_of(value@),
                        self.columns.len() == self@.rows.len(),
                        i < self.columns.len(),
                        good == places.len(),
                        good <= value.len(),
                        m <= good,
                        forall|q: int|
                            0 <= q < good ==> placed(
                                headers,
                                pairs[q],
                                #[trigger] places@[q] as int,
                            ),
                        rows_before.len() == self.columns.len(),
                        self@.rows == rows_before.update(
                            i as int,
                            written_upto(headers, rows_before[i as int], pairs, m as nat),
                        ),
                    decreases good - m,
                {
                    let j = places[m];
                    assert(placed(headers, pairs[m as int], places@[m as int] as int));
                    assert(pairs[m as int] == value@[m as int]@);
                    self.put(i, j, value[m].value.clone());
                    assert(self@.rows =~= rows_before.update(
                        i as int,
                        written_upto(headers, rows_before[i as int], pairs, (m + 1) as nat),
                    ));
                    m = m + 1;
                }
                if good < value.len() {
                    assert(pairs[good as int] == value@[good as int]@);
                    match self.find_column(value[good].key.as_str()) {
                        Some(j) => {
                            assert(self@.headers[j as int].rtype == self.headers@[j as int].rtype);
                            errors.push(
                                value_type(&self.headers[j].rtype, &value[good].value.type_id),
                            );
                        },
                        None => {
                            errors.push(unknown_key(value[good].key.as_str()));
                        },
                    }
                    assert(texts(errors@) =~= seq![pair_report(headers, pairs[good as int])]);
                    stopped = true;
                } else if value.len() > 0 {
                    changed = changed + 1;
                }
            }
            proof {
                assert(self@.rows.len() == old(self)@.rows.len());
                if !stopped {
                    assert forall|r: int| 0 <= r < i + 1 implies #[trigger] self@.rows[r]
                        == if verdicts[r] {
                        written_upto(headers, old(self)@.rows[r], pairs, value@.len())
                    } else {
                        old(self)@.rows[r]
                    } by {
                        if r < i {
                            assert(self@.rows[r] == rows_before[r]);
                        }
                    }
                } else {
                    assert(rows_before =~= old(self)@.rows) by {
                        assert forall|r: int| 0 <= r < i implies rows_before[r] == old(
                            self,
                        )@.rows[r] by {
                            lemma_all_false(before, i as nat, r);
                        }
                    }
                }
            }
            i = i + 1;
        }
        if stopped {
            Err(errors)
        } else {
            Ok(changed)
        }
    }

    /// Appends `rows` as one row, where it has one value for each column and
    /// each value fits its column; an empty array is stored as the empty
    /// array of its column's type. Otherwise nothing is inserted, and the
    /// report says what does not fit.
    pub fn insert(&mut self, rows: Vec<SafeType>) -> (res: Result<(), Vec<String>>)
        requires
            old(self).wf(),
        ensures
            final(self).wf(),
            final(self)@.name == old(self)@.name,
            final(self)@.headers == old(self)@.headers,
            match res {
                Ok(_) => {
                    &&& row_fits(cells_of(rows@), old(self)@.headers)
                    &&& final(self)@.rows == old(self)@.rows.push(
                        stored_row(cells_of(rows@), old(self)@.headers),
                    )
                },
                Err(errors) => {
                    &&& !row_fits(cells_of(rows@), old(self)@.headers)
                    &&& final(self)@.rows == old(self)@.rows
                    &&& texts(errors@) == insert_report(cells_of(rows@), old(self)@.headers)
                },
            },
    {
        let ghost row = cells_of(rows@);
        let ghost headers = self@.headers;
        let mut errors: Vec<String> = Vec::new();
        if rows.len() != self.headers.len() {
            errors.push(length_mismatch(rows.len(), self.headers.len()));
            assert(texts(errors@) =~= insert_report(row, headers));
            return Err(errors);
        }
        let mut kept: Vec<SafeType> = Vec::new();
        let mut i: usize = 0;
        while i < rows.len()
            invariant
                i <= rows.len(),
                rows.len() == self.headers.len(),
                row == cells_of(rows@),
                headers == columns_of(self.headers@),
                texts(errors@) == mismatches_upto(row, headers, i as nat),
                errors.len() == 0 ==> kept.len() == i,
                errors.len() == 0 ==> forall|j: int|
                    0 <= j < i ==> (#[trigger] kept@[j])@ == stored(row[j], headers[j].rtype),
            decreases rows.len() - i,
        {
            let column = &self.headers[i].rtype;
            assert(headers[i as int].rtype == *column);
            assert(row[i as int] == rows@[i as int]@);
            if rows[i].is_typed(column) {
                kept.push(rows[i].clone());
            } else if rows[i].fits_column(column) {
                let empty: Vec<SafeType> = Vec::new();
                proof {
                    lemma_array_value(empty);
                    assert(cells_of(empty@) =~= Seq::<Cell>::empty());
                }
                kept.push(SafeType { type_id: column.clone(), rtype: Types::Array(empty) });
            } else {
                errors.push(type_mismatch(column, &rows[i].type_id, i));
                assert(texts(errors@) =~= mismatches_upto(row, headers, (i + 1) as nat));
            }
            i = i + 1;
        }
        proof {
            lemma_mismatches_empty(row, headers, row.len());
        }
        if errors.len() > 0 {
            return Err(errors);
        }
        proof {
            assert(cells_of(kept@) =~= stored_row(row, headers));
            assert forall|j: int| 0 <= j < row.len() implies well_typed(
                #[trigger] stored_row(row, headers)[j],
                headers[j].rtype,
            ) by {
                assert(fits(row[j], headers[j].rtype));
                if !well_typed(row[j], headers[j].rtype) {
                    lemma_well_typed_array(
                        stored(row[j], headers[j].rtype),
                        *headers[j].rtype->Array_0,
                    );
                }
            }
        }
        self.columns.push(kept);
        proof {
            assert(rows_of(self.columns@) =~= rows_of(old(self).columns@).push(
                stored_row(row, headers),
            ));
            assert(row_typed(stored_row(row, headers), headers));
            assert forall|k: int| 0 <= k < self@.rows.len() implies row_typed(
                #[trigger] self@.rows[k],
                self@.headers,
            ) by {
                if k < old(self)@.rows.len() {
                    assert(self@.rows[k] == old(self)@.rows[k]);
                }
            }
        }
        Ok(())
    }
}

} // verus!
