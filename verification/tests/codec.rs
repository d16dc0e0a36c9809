use safe_en::table::{SafeType, TypeDefs, Types};
use safe_en::utils::{extend_bytes_from_raw_type, read_data, read_one, type_to_bytes, RawType};

fn written(value: &Types) -> Vec<u8> {
    let mut bytes = Vec::new();
    extend_bytes_from_raw_type(&mut bytes, &type_to_bytes(value));
    bytes
}

#[test]
fn text_is_written_with_its_length_in_eight_bytes() {
    let raw = type_to_bytes(&Types::String("hi".to_string()));
    assert_eq!(raw.type_size, 8);
    assert_eq!(raw.type_data, vec![2, 0, 0, 0, 0, 0, 0, 0, b'h', b'i']);
    assert_eq!(
        written(&Types::String("hi".to_string())),
        vec![8, 2, 0, 0, 0, 0, 0, 0, 0, b'h', b'i']
    );
}

#[test]
fn empty_text_is_written_as_a_zero_length() {
    assert_eq!(written(&Types::String(String::new())), vec![8, 0, 0, 0, 0, 0, 0, 0, 0]);
}

#[test]
fn text_length_counts_bytes_not_characters() {
    assert_eq!(
        written(&Types::String("é".to_string())),
        vec![8, 2, 0, 0, 0, 0, 0, 0, 0, 0xC3, 0xA9]
    );
}

#[test]
fn char_is_written_as_four_bytes() {
    let raw = type_to_bytes(&Types::Char('A'));
    assert_eq!(raw.type_size, 4);
    assert_eq!(raw.type_data, vec![65, 0, 0, 0]);
    assert_eq!(written(&Types::Char('\u{1F600}')), vec![4, 0x00, 0xF6, 0x01, 0x00]);
}

#[test]
fn small_integer_is_written_as_one_byte() {
    let raw = type_to_bytes(&Types::I8(-1));
    assert_eq!(raw.type_size, 1);
    assert_eq!(raw.type_data, vec![255]);
    assert_eq!(written(&Types::I8(127)), vec![1, 127]);
    assert_eq!(written(&Types::I8(-128)), vec![1, 128]);
}

#[test]
fn integers_are_written_least_significant_byte_first() {
    assert_eq!(written(&Types::I64(30)), vec![8, 30, 0, 0, 0, 0, 0, 0, 0]);
    assert_eq!(written(&Types::I64(-2)), vec![8, 0xFE, 255, 255, 255, 255, 255, 255, 255]);
    assert_eq!(written(&Types::I64(0x0102)), vec![8, 2, 1, 0, 0, 0, 0, 0, 0]);
    assert_eq!(
        written(&Types::U64(0x0102030405060708)),
        vec![8, 8, 7, 6, 5, 4, 3, 2, 1]
    );
    assert_eq!(written(&Types::U64(u64::MAX)), vec![8, 255, 255, 255, 255, 255, 255, 255, 255]);
}

#[test]
fn truth_values_are_written_as_zero_and_one() {
    assert_eq!(written(&Types::Bool(true)), vec![1, 1]);
    assert_eq!(written(&Types::Bool(false)), vec![1, 0]);
}

#[test]
fn floats_are_written_as_their_bit_patterns() {
    assert_eq!(written(&Types::F32(1.5f32.to_bits())), vec![4, 0x00, 0x00, 0xC0, 0x3F]);
    assert_eq!(
        written(&Types::F64(1.5f64.to_bits())),
        vec![8, 0, 0, 0, 0, 0, 0, 0xF8, 0x3F]
    );
    let mut by_std = vec![8];
    by_std.extend_from_slice(&(-0.1f64).to_le_bytes());
    assert_eq!(written(&Types::F64((-0.1f64).to_bits())), by_std);
}

#[test]
fn array_is_written_as_its_count_and_its_items() {
    let list = SafeType::from_i64s(vec![1, 2]);
    assert_eq!(
        written(&list.rtype),
        vec![
            8, 2, 0, 0, 0, 0, 0, 0, 0, // two items
            8, 1, 0, 0, 0, 0, 0, 0, 0, // 1
            8, 2, 0, 0, 0, 0, 0, 0, 0, // 2
        ]
    );
}

#[test]
fn empty_array_is_written_as_a_zero_count() {
    let raw = type_to_bytes(&Types::Array(vec![]));
    assert_eq!(raw.type_size, 8);
    assert_eq!(raw.type_data, vec![0, 0, 0, 0, 0, 0, 0, 0]);
}

#[test]
fn nested_array_is_written_item_by_item() {
    let inner = SafeType::from_i8s(vec![5]);
    let outer = Types::Array(vec![inner, SafeType::from_i8s(vec![])]);
    assert_eq!(
        written(&outer),
        vec![
            8, 2, 0, 0, 0, 0, 0, 0, 0, // two arrays
            8, 1, 0, 0, 0, 0, 0, 0, 0, 1, 5, // [5]
            8, 0, 0, 0, 0, 0, 0, 0, 0, // []
        ]
    );
}

#[test]
fn extend_appends_the_width_byte_and_the_payload() {
    let mut bytes = vec![9, 9];
    let raw = RawType { type_size: 3, type_data: vec![1, 2, 3] };
    extend_bytes_from_raw_type(&mut bytes, &raw);
    assert_eq!(bytes, vec![9, 9, 3, 1, 2, 3]);
    let wide = RawType { type_size: 258, type_data: vec![] };
    extend_bytes_from_raw_type(&mut bytes, &wide);
    assert_eq!(bytes, vec![9, 9, 3, 1, 2, 3, 2]);
}

#[test]
fn read_one_gives_the_byte_or_nothing() {
    let data = [7u8, 8];
    assert_eq!(read_one(&data, 0), Some(7));
    assert_eq!(read_one(&data, 1), Some(8));
    assert_eq!(read_one(&data, 2), None);
    assert_eq!(read_one(&[], 0), None);
}

#[test]
fn reading_text() {
    let data = [8, 2, 0, 0, 0, 0, 0, 0, 0, b'h', b'i', 77];
    assert_eq!(
        read_data(&data, 0, &TypeDefs::String),
        Some((SafeType::text("hi"), 11))
    );
}

#[test]
fn reading_text_with_a_shorter_length_field() {
    let data = [1, 2, b'h', b'i'];
    assert_eq!(read_data(&data, 0, &TypeDefs::String), Some((SafeType::text("hi"), 4)));
    let wide = [2, 3, 0, b'a', b'b', b'c'];
    assert_eq!(read_data(&wide, 0, &TypeDefs::String), Some((SafeType::text("abc"), 6)));
    let none = [0];
    assert_eq!(read_data(&none, 0, &TypeDefs::String), Some((SafeType::text(""), 1)));
}

#[test]
fn reading_text_uses_every_byte_of_the_length() {
    let mut data = vec![8, 0, 1, 0, 0, 0, 0, 0, 0];
    data.extend(std::iter::repeat(b'x').take(256));
    let expected: String = std::iter::repeat('x').take(256).collect();
    assert_eq!(
        read_data(&data, 0, &TypeDefs::String),
        Some((SafeType::text(&expected), 9 + 256))
    );
}

#[test]
fn reading_text_fails_on_a_length_field_of_more_than_eight_bytes() {
    let data = [9, 0, 0, 0, 0, 0, 0, 0, 0, 0, 0];
    assert_eq!(read_data(&data, 0, &TypeDefs::String), None);
}

#[test]
fn reading_text_fails_where_the_bytes_end_too_early() {
    assert_eq!(read_data(&[], 0, &TypeDefs::String), None);
    assert_eq!(read_data(&[8, 2, 0, 0], 0, &TypeDefs::String), None);
    assert_eq!(read_data(&[8, 2, 0, 0, 0, 0, 0, 0, 0, b'h'], 0, &TypeDefs::String), None);
    assert_eq!(
        read_data(&[8, 255, 255, 255, 255, 255, 255, 255, 255, b'h'], 0, &TypeDefs::String),
        None
    );
}

#[test]
fn reading_text_fails_on_bytes_that_are_no_text() {
    assert_eq!(read_data(&[8, 1, 0, 0, 0, 0, 0, 0, 0, 0xFF], 0, &TypeDefs::String), None);
    assert_eq!(read_data(&[8, 1, 0, 0, 0, 0, 0, 0, 0, 0xC3], 0, &TypeDefs::String), None);
    assert_eq!(
        read_data(&[8, 3, 0, 0, 0, 0, 0, 0, 0, 0xED, 0xA0, 0x80], 0, &TypeDefs::String),
        None
    );
}

#[test]
fn reading_a_char() {
    assert_eq!(
        read_data(&[4, 65, 0, 0, 0], 0, &TypeDefs::Char),
        Some((SafeType::from('A'), 5))
    );
    assert_eq!(
        read_data(&[0, 0x00, 0xF6, 0x01, 0x00], 0, &TypeDefs::Char),
        Some((SafeType::from('\u{1F600}'), 5))
    );
}

#[test]
fn reading_a_char_fails_on_a_number_that_is_no_character() {
    assert_eq!(read_data(&[4, 0x00, 0xD8, 0, 0], 0, &TypeDefs::Char), None);
    assert_eq!(read_data(&[4, 0xFF, 0xDF, 0, 0], 0, &TypeDefs::Char), None);
    assert_eq!(read_data(&[4, 0x00, 0x00, 0x11, 0], 0, &TypeDefs::Char), None);
    assert_eq!(read_data(&[4, 0, 0, 0, 1], 0, &TypeDefs::Char), None);
    assert_eq!(read_data(&[4, 65, 0, 0], 0, &TypeDefs::Char), None);
}

#[test]
fn reading_integers() {
    assert_eq!(read_data(&[1, 255], 0, &TypeDefs::I8), Some((SafeType::from(-1_i8), 2)));
    assert_eq!(read_data(&[1, 127], 0, &TypeDefs::I8), Some((SafeType::from(127_i8), 2)));
    assert_eq!(read_data(&[1, 128], 0, &TypeDefs::I8), Some((SafeType::from(-128_i8), 2)));
    assert_eq!(
        read_data(&[8, 30, 0, 0, 0, 0, 0, 0, 0], 0, &TypeDefs::I64),
        Some((SafeType::from(30_i64), 9))
    );
    assert_eq!(
        read_data(&[8, 0xFE, 255, 255, 255, 255, 255, 255, 255], 0, &TypeDefs::I64),
        Some((SafeType::from(-2_i64), 9))
    );
    assert_eq!(
        read_data(&[8, 8, 7, 6, 5, 4, 3, 2, 1], 0, &TypeDefs::U64),
        Some((SafeType::from(0x0102030405060708_u64), 9))
    );
    assert_eq!(read_data(&[1], 0, &TypeDefs::I8), None);
    assert_eq!(read_data(&[8, 1, 2, 3], 0, &TypeDefs::I64), None);
    assert_eq!(read_data(&[8, 1, 2, 3, 4, 5, 6, 7], 0, &TypeDefs::U64), None);
}

#[test]
fn reading_passes_over_the_width_byte_of_a_number() {
    assert_eq!(
        read_data(&[0, 30, 0, 0, 0, 0, 0, 0, 0], 0, &TypeDefs::I64),
        Some((SafeType::from(30_i64), 9))
    );
    assert_eq!(read_data(&[200, 1], 0, &TypeDefs::Bool), Some((SafeType::from(true), 2)));
}

#[test]
fn reading_truth_values() {
    assert_eq!(read_data(&[1, 1], 0, &TypeDefs::Bool), Some((SafeType::from(true), 2)));
    assert_eq!(read_data(&[1, 0], 0, &TypeDefs::Bool), Some((SafeType::from(false), 2)));
    assert_eq!(read_data(&[1, 2], 0, &TypeDefs::Bool), Some((SafeType::from(false), 2)));
    assert_eq!(read_data(&[1], 0, &TypeDefs::Bool), None);
}

#[test]
fn reading_floats() {
    assert_eq!(
        read_data(&[4, 0x00, 0x00, 0xC0, 0x3F], 0, &TypeDefs::F32),
        Some((SafeType::build(Types::F32(1.5f32.to_bits()), TypeDefs::F32), 5))
    );
    assert_eq!(
        read_data(&[8, 0, 0, 0, 0, 0, 0, 0xF8, 0x3F], 0, &TypeDefs::F64),
        Some((SafeType::build(Types::F64(1.5f64.to_bits()), TypeDefs::F64), 9))
    );
    assert_eq!(read_data(&[4, 0, 0, 0], 0, &TypeDefs::F32), None);
    assert_eq!(read_data(&[8, 0, 0, 0, 0], 0, &TypeDefs::F64), None);
}

#[test]
fn reading_an_array() {
    let data = [
        8, 2, 0, 0, 0, 0, 0, 0, 0, 8, 1, 0, 0, 0, 0, 0, 0, 0, 8, 2, 0, 0, 0, 0, 0, 0, 0,
    ];
    assert_eq!(
        read_data(&data, 0, &TypeDefs::array_of(TypeDefs::I64)),
        Some((SafeType::from_i64s(vec![1, 2]), 27))
    );
}

#[test]
fn reading_an_empty_array_takes_the_item_type_from_the_expected_type() {
    let data = [8, 0, 0, 0, 0, 0, 0, 0, 0];
    assert_eq!(
        read_data(&data, 0, &TypeDefs::array_of(TypeDefs::String)),
        Some((SafeType::from_strs(vec![]), 9))
    );
    assert_eq!(
        read_data(&data, 0, &TypeDefs::array_of(TypeDefs::Bool)),
        Some((SafeType::from_bools(vec![]), 9))
    );
}

#[test]
fn reading_an_array_fails_where_an_item_is_missing() {
    let data = [8, 2, 0, 0, 0, 0, 0, 0, 0, 8, 1, 0, 0, 0, 0, 0, 0, 0];
    assert_eq!(read_data(&data, 0, &TypeDefs::array_of(TypeDefs::I64)), None);
    let huge = [8, 255, 255, 255, 255, 255, 255, 255, 255, 1, 1];
    assert_eq!(read_data(&huge, 0, &TypeDefs::array_of(TypeDefs::I8)), None);
    assert_eq!(read_data(&[8, 1, 0], 0, &TypeDefs::array_of(TypeDefs::I8)), None);
}

#[test]
fn reading_starts_at_the_given_place() {
    let data = [99, 99, 1, 5, 1, 6];
    assert_eq!(read_data(&data, 2, &TypeDefs::I8), Some((SafeType::from(5_i8), 4)));
    assert_eq!(read_data(&data, 4, &TypeDefs::I8), Some((SafeType::from(6_i8), 6)));
    assert_eq!(read_data(&data, 6, &TypeDefs::I8), None);
    assert_eq!(read_data(&data, 100, &TypeDefs::I8), None);
}

#[test]
fn every_kind_of_value_is_read_back_as_written() {
    let values = vec![
        (SafeType::text("grüße, 世界"), TypeDefs::String),
        (SafeType::text(""), TypeDefs::String),
        (SafeType::from('ß'), TypeDefs::Char),
        (SafeType::from(i8::MIN), TypeDefs::I8),
        (SafeType::from(i64::MIN), TypeDefs::I64),
        (SafeType::from(i64::MAX), TypeDefs::I64),
        (SafeType::from(u64::MAX), TypeDefs::U64),
        (SafeType::from(true), TypeDefs::Bool),
        (SafeType::build(Types::F32(f32::MAX.to_bits()), TypeDefs::F32), TypeDefs::F32),
        (SafeType::build(Types::F64(f64::NAN.to_bits()), TypeDefs::F64), TypeDefs::F64),
        (SafeType::from_strs(vec!["a", "", "c"]), TypeDefs::array_of(TypeDefs::String)),
        (SafeType::from_u64s(vec![]), TypeDefs::array_of(TypeDefs::U64)),
        (
            SafeType::build(
                Types::Array(vec![SafeType::from_chars(vec!['x', 'y']), SafeType::from_chars(vec![])]),
                TypeDefs::array_of(TypeDefs::array_of(TypeDefs::Char)),
            ),
            TypeDefs::array_of(TypeDefs::array_of(TypeDefs::Char)),
        ),
    ];
    for (value, rtype) in values {
        let mut bytes = vec![1, 2, 3];
        extend_bytes_from_raw_type(&mut bytes, &type_to_bytes(&value.rtype));
        let end = bytes.len();
        bytes.push(42);
        assert_eq!(read_data(&bytes, 3, &rtype), Some((value, end)));
    }
}
