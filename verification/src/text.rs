//! The wording of what the table engine reports.

use crate::types::TypeDefs;
use vstd::prelude::*;
use vstd::string::*;

verus! {

/// The name of `t` as it is written in a report.
pub open spec fn type_text(t: TypeDefs) -> Seq<char>
    decreases t,
{
    match t {
        TypeDefs::String => "String"@,
        TypeDefs::Char => "Char"@,
        TypeDefs::I8 => "I8"@,
        TypeDefs::I64 => "I64"@,
        TypeDefs::U64 => "U64"@,
        TypeDefs::Bool => "Bool"@,
        TypeDefs::F32 => "F32"@,
        TypeDefs::F64 => "F64"@,
        TypeDefs::Array(inner) => "Array("@ + type_text(*inner) + ")"@,
    }
}

/// The digit `d` as text.
pub open spec fn digit_text(d: nat) -> Seq<char> {
    if d == 0 {
        "0"@
    } else if d == 1 {
        "1"@
    } else if d == 2 {
        "2"@
    } else if d == 3 {
        "3"@
    } else if d == 4 {
        "4"@
    } else if d == 5 {
        "5"@
    } else if d == 6 {
        "6"@
    } else if d == 7 {
        "7"@
    } else if d == 8 {
        "8"@
    } else {
        "9"@
    }
}

/// The number `n` in decimal digits.
pub open spec fn decimal_text(n: nat) -> Seq<char>
    decreases n,
{
    if n < 10 {
        digit_text(n)
    } else {
        decimal_text(n / 10) + digit_text(n % 10)
    }
}

/// What is reported of a row that has another number of values than the
/// table has columns.
pub open spec fn length_mismatch_text(given: nat, columns: nat) -> Seq<char> {
    "Length mismatch, expected "@ + decimal_text(given) + ", got "@ + decimal_text(columns)
        + " length of column"@
}

/// What is reported of a value that does not fit its column, the column
/// given by its place.
pub open spec fn type_mismatch_text(expected: TypeDefs, given: TypeDefs, column: nat) -> Seq<char> {
    "Type mismatch, expected "@ + type_text(expected) + ", got "@ + type_text(given)
        + " on column "@ + decimal_text(column)
}

/// What is reported where more values are given than the table has columns.
pub open spec fn too_many_values_text() -> Seq<char> {
    "Value length is not equal to header length"@
}

/// What is reported of a new value that is not of its column's type.
pub open spec fn value_type_text(header: TypeDefs, given: TypeDefs) -> Seq<char> {
    "Value type is not equal to header type. Header: "@ + type_text(header) + ", Value: "@
        + type_text(given)
}

/// What is reported of a key that names no column.
pub open spec fn unknown_key_text(key: Seq<char>) -> Seq<char> {
    "Could not find key '"@ + key + "' in table"@
}

/// What is reported of a number that is the largest of its type already.
pub open spec fn overflow_text(t: TypeDefs) -> Seq<char> {
    "'"@ + type_text(t) + "' about to be overflow"@
}

/// What is reported of a column that holds no numbers.
pub open spec fn not_numeric_text(key: Seq<char>) -> Seq<char> {
    key + " is not a integer type column"@
}

/// What is reported of a column that holds no arrays.
pub open spec fn not_array_text() -> Seq<char> {
    "Field is not a array type"@
}

/// What is reported of a value that cannot join an array of other items.
pub open spec fn inner_type_text(inner: TypeDefs, given: TypeDefs) -> Seq<char> {
    "Inner type of array is '"@ + type_text(inner) + "' but given value is '"@ + type_text(given)
        + "'"@
}

/// The name of `t`.
pub fn name_of_type(t: &TypeDefs) -> (res: String)
    ensures
        res@ == type_text(*t),
    decreases *t,
{
    match t {
        TypeDefs::String => String::from_str("String"),
        TypeDefs::Char => String::from_str("Char"),
        TypeDefs::I8 => String::from_str("I8"),
        TypeDefs::I64 => String::from_str("I64"),
        TypeDefs::U64 => String::from_str("U64"),
        TypeDefs::Bool => String::from_str("Bool"),
        TypeDefs::F32 => String::from_str("F32"),
        TypeDefs::F64 => String::from_str("F64"),
        TypeDefs::Array(inner) => {
            let mut res = String::from_str("Array(");
            let name = name_of_type(inner);
            res.append(name.as_str());
            res.append(")");
            res
        },
    }
}

/// The digit `d`.
fn digit(d: usize) -> (res: &'static str)
    requires
        d < 10,
    ensures
        res@ == digit_text(d as nat),
{
    if d == 0 {
        "0"
    } else if d == 1 {
        "1"
    } else if d == 2 {
        "2"
    } else if d == 3 {
        "3"
    } else if d == 4 {
        "4"
    } else if d == 5 {
        "5"
    } else if d == 6 {
        "6"
    } else if d == 7 {
        "7"
    } else if d == 8 {
        "8"
    } else {
        "9"
    }
}

/// The number `n` in decimal digits.
pub fn decimal(n: usize) -> (res: String)
    ensures
        res@ == decimal_text(n as nat),
    decreases n,
{
    if n < 10 {
        String::from_str(digit(n))
    } else {
        let mut res = decimal(n / 10);
        res.append(digit(n % 10));
        res
    }
}

/// The report of a row of `given` values for a table of `columns` columns.
pub fn length_mismatch(given: usize, columns: usize) -> (res: String)
    ensures
        res@ == length_mismatch_text(given as nat, columns as nat),
{
    let mut res = String::from_str("Length mismatch, expected ");
    res.append(decimal(given).as_str());
    res.append(", got ");
    res.append(decimal(columns).as_str());
    res.append(" length of column");
    res
}

/// The report of a value declared as `given` for column number `column`,
/// which holds values of type `expected`.
pub fn type_mismatch(expected: &TypeDefs, given: &TypeDefs, column: usize) -> (res: String)
    ensures
        res@ == type_mismatch_text(*expected, *given, column as nat),
{
    let mut res = String::from_str("Type mismatch, expected ");
    res.append(name_of_type(expected).as_str());
    res.append(", got ");
    res.append(name_of_type(given).as_str());
    res.append(" on column ");
    res.append(decimal(column).as_str());
    res
}

/// The report of a new value declared as `given` for a column of type
/// `header`.
pub fn value_type(header: &TypeDefs, given: &TypeDefs) -> (res: String)
    ensures
        res@ == value_type_text(*header, *given),
{
    let mut res = String::from_str("Value type is not equal to header type. Header: ");
    res.append(name_of_type(header).as_str());
    res.append(", Value: ");
    res.append(name_of_type(given).as_str());
    res
}

/// The report of a key that names no column.
pub fn unknown_key(key: &str) -> (res: String)
    ensures
        res@ == unknown_key_text(key@),
{
    let mut res = String::from_str("Could not find key '");
    res.append(key);
    res.append("' in table");
    res
}

/// The report of a number of type `t` that cannot grow.
pub fn overflow(t: &TypeDefs) -> (res: String)
    ensures
        res@ == overflow_text(*t),
{
    let mut res = String::from_str("'");
    res.append(name_of_type(t).as_str());
    res.append("' about to be overflow");
    res
}

/// The report of a column that holds no numbers.
pub fn not_numeric(key: &str) -> (res: String)
    ensures
        res@ == not_numeric_text(key@),
{
    let mut res = String::from_str(key);
    res.append(" is not a integer type column");
    res
}

/// The report of a value declared as `given` for an array of `inner` items.
pub fn inner_type(inner: &TypeDefs, given: &TypeDefs) -> (res: String)
    ensures
        res@ == inner_type_text(*inner, *given),
{
    let mut res = String::from_str("Inner type of array is '");
    res.append(name_of_type(inner).as_str());
    res.append("' but given value is '");
    res.append(name_of_type(given).as_str());
    res.append("'");
    res
}

} // verus!
