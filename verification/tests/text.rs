use safe_en::table::TypeDefs;
use safe_en::text::{
    decimal, inner_type, length_mismatch, name_of_type, not_numeric, overflow, type_mismatch,
    unknown_key, value_type,
};

#[test]
fn decimal_digits_of_numbers() {
    assert_eq!(decimal(0), "0");
    assert_eq!(decimal(7), "7");
    assert_eq!(decimal(9), "9");
    assert_eq!(decimal(10), "10");
    assert_eq!(decimal(1234567890), "1234567890");
    assert_eq!(decimal(usize::MAX), usize::MAX.to_string());
}

#[test]
fn names_of_types() {
    assert_eq!(name_of_type(&TypeDefs::String), "String");
    assert_eq!(name_of_type(&TypeDefs::Char), "Char");
    assert_eq!(name_of_type(&TypeDefs::I8), "I8");
    assert_eq!(name_of_type(&TypeDefs::I64), "I64");
    assert_eq!(name_of_type(&TypeDefs::U64), "U64");
    assert_eq!(name_of_type(&TypeDefs::Bool), "Bool");
    assert_eq!(name_of_type(&TypeDefs::F32), "F32");
    assert_eq!(name_of_type(&TypeDefs::F64), "F64");
    assert_eq!(name_of_type(&TypeDefs::array_of(TypeDefs::I64)), "Array(I64)");
    assert_eq!(
        name_of_type(&TypeDefs::array_of(TypeDefs::array_of(TypeDefs::Bool))),
        "Array(Array(Bool))"
    );
}

#[test]
fn wording_of_the_reports() {
    assert_eq!(length_mismatch(2, 10), "Length mismatch, expected 2, got 10 length of column");
    assert_eq!(
        type_mismatch(&TypeDefs::I64, &TypeDefs::array_of(TypeDefs::Char), 21),
        "Type mismatch, expected I64, got Array(Char) on column 21"
    );
    assert_eq!(
        value_type(&TypeDefs::F32, &TypeDefs::F64),
        "Value type is not equal to header type. Header: F32, Value: F64"
    );
    assert_eq!(unknown_key("a'b"), "Could not find key 'a'b' in table");
    assert_eq!(overflow(&TypeDefs::U64), "'U64' about to be overflow");
    assert_eq!(not_numeric("name"), "name is not a integer type column");
    assert_eq!(
        inner_type(&TypeDefs::String, &TypeDefs::I8),
        "Inner type of array is 'String' but given value is 'I8'"
    );
}
