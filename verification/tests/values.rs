use safe_en::table::{FromTypes, SafeType, TypeDefs, TypeMismatch, Types};

#[test]
fn array_of_wraps_the_item_type() {
    let by_hand = TypeDefs::Array(Box::new(TypeDefs::I64));
    assert_eq!(TypeDefs::array_of(TypeDefs::I64), by_hand);
}

#[test]
fn inner_type_of_array_and_of_plain_type() {
    assert_eq!(TypeDefs::array_of(TypeDefs::I64).inner_type(), Some(TypeDefs::I64));
    assert_eq!(TypeDefs::String.inner_type(), None);
    assert_eq!(
        TypeDefs::array_of(TypeDefs::array_of(TypeDefs::Bool)).inner_type(),
        Some(TypeDefs::array_of(TypeDefs::Bool))
    );
}

#[test]
fn same_compares_types_all_the_way_down() {
    let a = TypeDefs::array_of(TypeDefs::array_of(TypeDefs::Char));
    let b = TypeDefs::array_of(TypeDefs::array_of(TypeDefs::Char));
    let c = TypeDefs::array_of(TypeDefs::array_of(TypeDefs::I8));
    assert!(a.same(&b));
    assert!(!a.same(&c));
    assert!(!TypeDefs::F32.same(&TypeDefs::F64));
    assert_eq!(a.clone(), b);
}

#[test]
fn codes_of_the_kinds() {
    assert_eq!(TypeDefs::String.code(), 0);
    assert_eq!(TypeDefs::Char.code(), 1);
    assert_eq!(TypeDefs::I8.code(), 2);
    assert_eq!(TypeDefs::I64.code(), 3);
    assert_eq!(TypeDefs::U64.code(), 4);
    assert_eq!(TypeDefs::Bool.code(), 5);
    assert_eq!(TypeDefs::F32.code(), 6);
    assert_eq!(TypeDefs::F64.code(), 7);
    assert_eq!(TypeDefs::array_of(TypeDefs::U64).code(), 8);
}

#[test]
fn layers_of_plain_types() {
    assert_eq!(TypeDefs::String.get_base_and_second_layer(), [0, 0]);
    assert_eq!(TypeDefs::Char.get_base_and_second_layer(), [1, 0]);
    assert_eq!(TypeDefs::I8.get_base_and_second_layer(), [2, 0]);
    assert_eq!(TypeDefs::I64.get_base_and_second_layer(), [3, 0]);
    assert_eq!(TypeDefs::U64.get_base_and_second_layer(), [4, 0]);
    assert_eq!(TypeDefs::Bool.get_base_and_second_layer(), [5, 0]);
    assert_eq!(TypeDefs::F32.get_base_and_second_layer(), [6, 0]);
    assert_eq!(TypeDefs::F64.get_base_and_second_layer(), [7, 0]);
}

#[test]
fn layers_of_arrays() {
    assert_eq!(TypeDefs::array_of(TypeDefs::String).get_base_and_second_layer(), [8, 0]);
    assert_eq!(TypeDefs::array_of(TypeDefs::F64).get_base_and_second_layer(), [8, 7]);
    assert_eq!(
        TypeDefs::array_of(TypeDefs::array_of(TypeDefs::I64)).get_base_and_second_layer(),
        [8, 8]
    );
}

#[test]
fn types_from_layers() {
    assert_eq!(TypeDefs::from_base_and_second_layer(0, 0), TypeDefs::String);
    assert_eq!(TypeDefs::from_base_and_second_layer(1, 9), TypeDefs::Char);
    assert_eq!(TypeDefs::from_base_and_second_layer(2, 0), TypeDefs::I8);
    assert_eq!(TypeDefs::from_base_and_second_layer(3, 0), TypeDefs::I64);
    assert_eq!(TypeDefs::from_base_and_second_layer(4, 0), TypeDefs::U64);
    assert_eq!(TypeDefs::from_base_and_second_layer(5, 0), TypeDefs::Bool);
    assert_eq!(TypeDefs::from_base_and_second_layer(6, 0), TypeDefs::F32);
    assert_eq!(TypeDefs::from_base_and_second_layer(7, 0), TypeDefs::F64);
    assert_eq!(
        TypeDefs::from_base_and_second_layer(8, 3),
        TypeDefs::array_of(TypeDefs::I64)
    );
    assert_eq!(
        TypeDefs::from_base_and_second_layer(8, 8),
        TypeDefs::array_of(TypeDefs::array_of(TypeDefs::String))
    );
}

#[test]
fn layers_round_trip_for_one_level() {
    let all = vec![
        TypeDefs::String,
        TypeDefs::Char,
        TypeDefs::I8,
        TypeDefs::I64,
        TypeDefs::U64,
        TypeDefs::Bool,
        TypeDefs::F32,
        TypeDefs::F64,
    ];
    for t in all {
        let plain = t.get_base_and_second_layer();
        assert_eq!(TypeDefs::from_base_and_second_layer(plain[0], plain[1]), t);
        let array = TypeDefs::array_of(t.clone());
        let layers = array.get_base_and_second_layer();
        assert_eq!(TypeDefs::from_base_and_second_layer(layers[0], layers[1]), array);
    }
}

#[test]
fn kind_tests_tell_the_variants_apart() {
    let s = Types::String("Hello".to_string());
    assert!(s.is_string());
    assert!(!s.is_char());
    assert!(Types::Char('a').is_char());
    assert!(Types::I8(1).is_i8());
    assert!(Types::I64(1).is_i64());
    assert!(Types::U64(1).is_u64());
    assert!(Types::Bool(true).is_bool());
    assert!(Types::F32(1.0f32.to_bits()).is_f32());
    assert!(Types::F64(1.0f64.to_bits()).is_f64());
    assert!(Types::Array(vec![]).is_array());
    assert!(!Types::Array(vec![]).is_string());
    assert!(!Types::I64(1).is_i8());
    assert!(!Types::F32(0).is_f64());
}

#[test]
fn conversions_give_the_value_of_the_right_kind() {
    assert_eq!(Types::String("x".to_string()).to_string(), Ok("x".to_string()));
    assert_eq!(Types::Char('q').to_char(), Ok('q'));
    assert_eq!(Types::I8(-7).to_i8(), Ok(-7));
    assert_eq!(Types::I64(i64::MIN).to_i64(), Ok(i64::MIN));
    assert_eq!(Types::U64(u64::MAX).to_u64(), Ok(u64::MAX));
    assert_eq!(Types::Bool(false).to_bool(), Ok(false));
    assert_eq!(Types::F32(2.5f32.to_bits()).to_f32().map(f32::from_bits), Ok(2.5f32));
    assert_eq!(Types::F64(2.5f64.to_bits()).to_f64().map(f64::from_bits), Ok(2.5f64));
}

#[test]
fn conversions_fail_on_another_kind() {
    assert_eq!(Types::I64(5).to_string(), Err(TypeMismatch));
    assert_eq!(Types::String("5".to_string()).to_i64(), Err(TypeMismatch));
    assert_eq!(Types::I8(5).to_i64(), Err(TypeMismatch));
    assert_eq!(Types::I64(5).to_i8(), Err(TypeMismatch));
    assert_eq!(Types::I64(5).to_u64(), Err(TypeMismatch));
    assert_eq!(Types::I64(1).to_bool(), Err(TypeMismatch));
    assert_eq!(Types::String("a".to_string()).to_char(), Err(TypeMismatch));
    assert_eq!(Types::F64(0).to_f32(), Err(TypeMismatch));
    assert_eq!(Types::F32(0).to_f64(), Err(TypeMismatch));
}

#[test]
fn values_from_plain_data() {
    let s: SafeType = "Hello".to_string().into();
    assert_eq!(s.get_type(), Types::String("Hello".to_string()));
    assert_eq!(s.get_type_def(), TypeDefs::String);
    let c: SafeType = 'c'.into();
    assert_eq!(c, SafeType::build(Types::Char('c'), TypeDefs::Char));
    let a: SafeType = 3_i8.into();
    assert_eq!(a, SafeType::build(Types::I8(3), TypeDefs::I8));
    let b: SafeType = 3_i64.into();
    assert_eq!(b, SafeType::build(Types::I64(3), TypeDefs::I64));
    let u: SafeType = 3_u64.into();
    assert_eq!(u, SafeType::build(Types::U64(3), TypeDefs::U64));
    let t: SafeType = true.into();
    assert_eq!(t, SafeType::build(Types::Bool(true), TypeDefs::Bool));
    let plain: Types = 9_i64.into();
    assert_eq!(plain, Types::I64(9));
    let text: Types = "t".to_string().into();
    assert_eq!(text, Types::String("t".to_string()));
    let list: Types = vec![b.clone()].into();
    assert_eq!(list, Types::Array(vec![b]));
    assert_eq!(
        SafeType::text("Hello"),
        SafeType::build(Types::String("Hello".to_string()), TypeDefs::String)
    );
}

#[test]
fn arrays_from_lists_of_plain_data() {
    let names = SafeType::from_strs(vec!["a", "b"]);
    assert_eq!(names.get_type_def(), TypeDefs::array_of(TypeDefs::String));
    assert_eq!(
        names.get_type(),
        Types::Array(vec![SafeType::text("a"), SafeType::text("b")])
    );
    assert_eq!(names, SafeType::from_strings(vec!["a".to_string(), "b".to_string()]));
    assert_eq!(
        SafeType::from_chars(vec!['x']),
        SafeType::build(
            Types::Array(vec![SafeType::from('x')]),
            TypeDefs::array_of(TypeDefs::Char)
        )
    );
    assert_eq!(
        SafeType::from_i8s(vec![1, -1]),
        SafeType::build(
            Types::Array(vec![SafeType::from(1_i8), SafeType::from(-1_i8)]),
            TypeDefs::array_of(TypeDefs::I8)
        )
    );
    assert_eq!(
        SafeType::from_i64s(vec![7]),
        SafeType::build(
            Types::Array(vec![SafeType::from(7_i64)]),
            TypeDefs::array_of(TypeDefs::I64)
        )
    );
    assert_eq!(
        SafeType::from_u64s(vec![7]),
        SafeType::build(
            Types::Array(vec![SafeType::from(7_u64)]),
            TypeDefs::array_of(TypeDefs::U64)
        )
    );
    assert_eq!(
        SafeType::from_bools(vec![true, false]),
        SafeType::build(
            Types::Array(vec![SafeType::from(true), SafeType::from(false)]),
            TypeDefs::array_of(TypeDefs::Bool)
        )
    );
    let empty = SafeType::from_i64s(vec![]);
    assert_eq!(empty.get_type(), Types::Array(vec![]));
    assert_eq!(empty.get_type_def(), TypeDefs::array_of(TypeDefs::I64));
}

#[test]
fn reading_out_plain_data() {
    let s = SafeType::text("Hello");
    assert_eq!(s.get::<String>(), Ok("Hello".to_string()));
    assert_eq!(s.get::<i64>(), Err(TypeMismatch));
    assert_eq!(SafeType::from(5_i64).get::<i64>(), Ok(5));
    assert_eq!(SafeType::from(5_i64).get::<u64>(), Err(TypeMismatch));
    assert_eq!(SafeType::from(5_u64).get::<u64>(), Ok(5));
    assert_eq!(SafeType::from(5_i8).get::<i8>(), Ok(5));
    assert_eq!(SafeType::from('z').get::<char>(), Ok('z'));
    assert_eq!(SafeType::from(true).get::<bool>(), Ok(true));
    assert_eq!(bool::from_types(&Types::I64(1)), Err(TypeMismatch));
    assert_eq!(String::from_types(&Types::String("k".to_string())), Ok("k".to_string()));
}

#[test]
fn reading_out_lists() {
    let names = SafeType::from_strs(vec!["a", "b"]);
    assert_eq!(names.get::<Vec<String>>(), Ok(vec!["a".to_string(), "b".to_string()]));
    assert_eq!(names.get::<Vec<i64>>(), Err(TypeMismatch));
    assert_eq!(names.get::<String>(), Err(TypeMismatch));
    assert_eq!(SafeType::from_i64s(vec![1, 2, 3]).get::<Vec<i64>>(), Ok(vec![1, 2, 3]));
    assert_eq!(SafeType::from_u64s(vec![1]).get::<Vec<u64>>(), Ok(vec![1]));
    assert_eq!(SafeType::from_i8s(vec![-1]).get::<Vec<i8>>(), Ok(vec![-1]));
    assert_eq!(SafeType::from_chars(vec!['a']).get::<Vec<char>>(), Ok(vec!['a']));
    assert_eq!(SafeType::from_bools(vec![true]).get::<Vec<bool>>(), Ok(vec![true]));
    assert_eq!(SafeType::from_i64s(vec![]).get::<Vec<String>>(), Ok(vec![]));
    assert_eq!(SafeType::from(5_i64).get::<Vec<i64>>(), Err(TypeMismatch));
    let mixed = SafeType::build(
        Types::Array(vec![SafeType::from(1_i64), SafeType::text("x")]),
        TypeDefs::array_of(TypeDefs::I64),
    );
    assert_eq!(mixed.get::<Vec<i64>>(), Err(TypeMismatch));
}

#[test]
fn same_compares_values_all_the_way_down() {
    let a = SafeType::from_strs(vec!["a", "b"]);
    let b = SafeType::from_strs(vec!["a", "b"]);
    let c = SafeType::from_strs(vec!["a", "c"]);
    let shorter = SafeType::from_strs(vec!["a"]);
    assert!(a.same(&b));
    assert!(!a.same(&c));
    assert!(!a.same(&shorter));
    assert!(a.same(&a.clone()));
    assert!(SafeType::from(1_i64).same(&SafeType::from(1_i64)));
    assert!(!SafeType::from(1_i64).same(&SafeType::from(2_i64)));
    assert!(!SafeType::from(1_i64).same(&SafeType::from(1_u64)));
    let declared_otherwise = SafeType::build(Types::I64(1), TypeDefs::U64);
    assert!(!SafeType::from(1_i64).same(&declared_otherwise));
    assert!(!SafeType::from_i64s(vec![]).same(&SafeType::from_u64s(vec![])));
}

#[test]
fn typed_values_and_values_that_fit() {
    let n = SafeType::from(30_i64);
    assert!(n.is_typed(&TypeDefs::I64));
    assert!(!n.is_typed(&TypeDefs::U64));
    assert!(n.fits_column(&TypeDefs::I64));
    assert!(!n.fits_column(&TypeDefs::String));
    let lie = SafeType::build(Types::I64(5), TypeDefs::String);
    assert!(!lie.is_typed(&TypeDefs::String));
    assert!(!lie.is_typed(&TypeDefs::I64));
    assert!(!lie.fits_column(&TypeDefs::String));
    let names = SafeType::from_strs(vec!["a"]);
    assert!(names.is_typed(&TypeDefs::array_of(TypeDefs::String)));
    assert!(!names.is_typed(&TypeDefs::array_of(TypeDefs::I64)));
    assert!(!names.fits_column(&TypeDefs::array_of(TypeDefs::I64)));
    let mixed = SafeType::build(
        Types::Array(vec![SafeType::from(1_i64), SafeType::text("x")]),
        TypeDefs::array_of(TypeDefs::I64),
    );
    assert!(!mixed.is_typed(&TypeDefs::array_of(TypeDefs::I64)));
    assert!(!mixed.fits_column(&TypeDefs::array_of(TypeDefs::I64)));
}

#[test]
fn empty_array_fits_every_array_column_and_no_other() {
    let empty = SafeType::from_i64s(vec![]);
    assert!(empty.is_typed(&TypeDefs::array_of(TypeDefs::I64)));
    assert!(!empty.is_typed(&TypeDefs::array_of(TypeDefs::String)));
    assert!(empty.fits_column(&TypeDefs::array_of(TypeDefs::String)));
    assert!(empty.fits_column(&TypeDefs::array_of(TypeDefs::array_of(TypeDefs::Bool))));
    assert!(!empty.fits_column(&TypeDefs::String));
    assert!(!empty.fits_column(&TypeDefs::I64));
}
