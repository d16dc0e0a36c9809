use safe_en::table::{Entries, Entry, SafeType, TableRow, TypeDefs, TypeMismatch, Types};
use safe_en::Database;

fn add_single(bits: u32) -> u32 {
    (f32::from_bits(bits) + 1.0).to_bits()
}

fn add_double(bits: u64) -> u64 {
    (f64::from_bits(bits) + 1.0).to_bits()
}

fn single(x: f32) -> SafeType {
    SafeType::build(Types::F32(x.to_bits()), TypeDefs::F32)
}

fn double(x: f64) -> SafeType {
    SafeType::build(Types::F64(x.to_bits()), TypeDefs::F64)
}

fn users() -> Database {
    let mut db = Database::new();
    db.create_table(
        "users",
        vec![
            TableRow::new("name", TypeDefs::String),
            TableRow::new("age", TypeDefs::I64),
            TableRow::new("tags", TypeDefs::array_of(TypeDefs::String)),
        ],
    )
    .unwrap();
    db
}

fn people() -> Database {
    let mut db = users();
    let table = db.table("users").unwrap();
    for (name, age) in [("Ada", 30_i64), ("Bob", 41), ("Cyd", 30), ("Dee", 52)] {
        table
            .insert(vec![SafeType::text(name), age.into(), SafeType::from_strs(vec![])])
            .unwrap();
    }
    db
}

fn names(rows: &[Entries]) -> Vec<String> {
    rows.iter().map(|e| e.row("name").get_value::<String>().unwrap().unwrap()).collect()
}

fn ages(rows: &[Entries]) -> Vec<i64> {
    rows.iter().map(|e| e.row("age").get_value::<i64>().unwrap().unwrap()).collect()
}

#[test]
fn new_column_holds_its_key_and_type() {
    let column = TableRow::new("age", TypeDefs::I64);
    assert_eq!(column.key, "age");
    assert_eq!(column.rtype, TypeDefs::I64);
    assert_eq!(column.clone(), column);
}

#[test]
fn table_gives_its_name_and_headers() {
    let mut db = users();
    let table = db.table("users").unwrap();
    assert_eq!(table.get_name(), "users");
    let headers = table.get_headers();
    assert_eq!(headers.len(), 3);
    assert_eq!(headers[0].key, "name");
    assert_eq!(headers[0].rtype, TypeDefs::String);
    assert_eq!(headers[2], TableRow::new("tags", TypeDefs::array_of(TypeDefs::String)));
}

#[test]
fn insert_appends_a_row_that_fits() {
    let mut db = users();
    let table = db.table("users").unwrap();
    assert_eq!(
        table.insert(vec![SafeType::text("Ada"), 30_i64.into(), SafeType::from_strs(vec!["x"])]),
        Ok(())
    );
    let all = table.get_all();
    assert_eq!(all.len(), 1);
    assert_eq!(
        all[0].entries,
        vec![
            Entry { key: "name".to_string(), value: SafeType::text("Ada") },
            Entry { key: "age".to_string(), value: 30_i64.into() },
            Entry { key: "tags".to_string(), value: SafeType::from_strs(vec!["x"]) },
        ]
    );
}

#[test]
fn insert_keeps_the_order_of_insertion() {
    let mut db = people();
    let all = db.table("users").unwrap().get_all();
    assert_eq!(names(&all), vec!["Ada", "Bob", "Cyd", "Dee"]);
    assert_eq!(ages(&all), vec![30, 41, 30, 52]);
}

#[test]
fn insert_rejects_a_row_of_another_length() {
    let mut db = users();
    let table = db.table("users").unwrap();
    assert_eq!(
        table.insert(vec![SafeType::text("Ada")]),
        Err(vec!["Length mismatch, expected 1, got 3 length of column".to_string()])
    );
    assert_eq!(
        table.insert(vec![]),
        Err(vec!["Length mismatch, expected 0, got 3 length of column".to_string()])
    );
    let twelve: Vec<SafeType> = (0..12).map(|n: i64| n.into()).collect();
    assert_eq!(
        table.insert(twelve),
        Err(vec!["Length mismatch, expected 12, got 3 length of column".to_string()])
    );
    assert_eq!(table.get_all().len(), 0);
}

#[test]
fn insert_rejects_a_value_of_another_type_and_names_the_column() {
    let mut db = people();
    let table = db.table("users").unwrap();
    assert_eq!(
        table.insert(vec![SafeType::text("Eve"), SafeType::text("x"), SafeType::from_strs(vec![])]),
        Err(vec!["Type mismatch, expected I64, got String on column 1".to_string()])
    );
    assert_eq!(table.get_all().len(), 4);
}

#[test]
fn insert_reports_every_value_that_does_not_fit() {
    let mut db = users();
    let table = db.table("users").unwrap();
    assert_eq!(
        table.insert(vec![7_u64.into(), SafeType::text("x"), SafeType::from_i64s(vec![1])]),
        Err(vec![
            "Type mismatch, expected String, got U64 on column 0".to_string(),
            "Type mismatch, expected I64, got String on column 1".to_string(),
            "Type mismatch, expected Array(String), got Array(I64) on column 2".to_string(),
        ])
    );
    assert_eq!(table.get_all().len(), 0);
}

#[test]
fn insert_rejects_a_value_that_is_not_what_it_is_declared_to_be() {
    let mut db = users();
    let table = db.table("users").unwrap();
    let lie = SafeType::build(Types::I64(5), TypeDefs::String);
    assert_eq!(
        table.insert(vec![lie, 30_i64.into(), SafeType::from_strs(vec![])]),
        Err(vec!["Type mismatch, expected String, got String on column 0".to_string()])
    );
    let mixed = SafeType::build(
        Types::Array(vec![SafeType::text("a"), 1_i64.into()]),
        TypeDefs::array_of(TypeDefs::String),
    );
    assert_eq!(
        table.insert(vec![SafeType::text("a"), 30_i64.into(), mixed]),
        Err(vec![
            "Type mismatch, expected Array(String), got Array(String) on column 2".to_string()
        ])
    );
    assert_eq!(table.get_all().len(), 0);
}

#[test]
fn insert_stores_an_empty_array_under_the_type_of_its_column() {
    let mut db = users();
    let table = db.table("users").unwrap();
    assert_eq!(
        table.insert(vec![SafeType::text("Ada"), 30_i64.into(), SafeType::from_i64s(vec![])]),
        Ok(())
    );
    let row = table.get_at(0).unwrap();
    assert_eq!(row.entries[2].value, SafeType::from_strs(vec![]));
    assert_eq!(
        row.entries[2].value.get_type_def(),
        TypeDefs::array_of(TypeDefs::String)
    );
}

#[test]
fn insert_rejects_an_empty_array_for_a_column_of_plain_values() {
    let mut db = users();
    let table = db.table("users").unwrap();
    assert_eq!(
        table.insert(vec![SafeType::from_strs(vec![]), 30_i64.into(), SafeType::from_strs(vec![])]),
        Err(vec!["Type mismatch, expected String, got Array(String) on column 0".to_string()])
    );
}

#[test]
fn get_at_gives_the_row_or_nothing() {
    let mut db = people();
    let table = db.table("users").unwrap();
    assert_eq!(names(&[table.get_at(1).unwrap()]), vec!["Bob"]);
    assert_eq!(table.get_at(3).unwrap().entries[1].value, SafeType::from(52_i64));
    assert!(table.get_at(4).is_none());
}

#[test]
fn get_where_gives_the_matching_rows_in_order() {
    let mut db = people();
    let table = db.table("users").unwrap();
    let found = table.get_where(|e| e.row("age").is(30_i64.into()));
    assert_eq!(names(&found), vec!["Ada", "Cyd"]);
    let none = table.get_where(|e| e.row("age").is(99_i64.into()));
    assert_eq!(none.len(), 0);
    let all = table.get_where(|_| true);
    assert_eq!(all, table.get_all());
}

#[test]
fn get_where_asks_about_each_row_once_from_first_to_last() {
    let mut db = people();
    let table = db.table("users").unwrap();
    let seen = std::cell::RefCell::new(Vec::new());
    let found = table.get_where(|e| {
        seen.borrow_mut().push(e.row("name").get_value::<String>().unwrap().unwrap());
        false
    });
    assert_eq!(found.len(), 0);
    assert_eq!(seen.into_inner(), vec!["Ada", "Bob", "Cyd", "Dee"]);
}

#[test]
fn get_where_twice_gives_the_same() {
    let mut db = people();
    let table = db.table("users").unwrap();
    let first = table.get_where(|e| e.row("age").get_value::<i64>().unwrap().unwrap() > 35);
    let second = table.get_where(|e| e.row("age").get_value::<i64>().unwrap().unwrap() > 35);
    assert_eq!(names(&first), vec!["Bob", "Dee"]);
    assert_eq!(first, second);
    assert_eq!(table.get_all().len(), 4);
}

#[test]
fn remove_where_removes_every_matching_row() {
    let mut db = people();
    let table = db.table("users").unwrap();
    assert_eq!(table.remove_where(|e| e.row("age").is(30_i64.into())), 2);
    assert_eq!(names(&table.get_all()), vec!["Bob", "Dee"]);
    assert_eq!(table.remove_where(|e| e.row("age").is(30_i64.into())), 0);
    assert_eq!(names(&table.get_all()), vec!["Bob", "Dee"]);
}

#[test]
fn remove_where_removes_rows_that_follow_each_other() {
    let mut db = people();
    let table = db.table("users").unwrap();
    assert_eq!(
        table.remove_where(|e| e.row("age").get_value::<i64>().unwrap().unwrap() < 45),
        3
    );
    assert_eq!(names(&table.get_all()), vec!["Dee"]);
    assert_eq!(table.remove_where(|_| true), 1);
    assert_eq!(table.get_all().len(), 0);
    assert_eq!(table.remove_where(|_| true), 0);
}

#[test]
fn set_where_writes_to_every_matching_row() {
    let mut db = people();
    let table = db.table("users").unwrap();
    let changed = table.set_where(
        |e| e.row("age").is(30_i64.into()),
        vec![Entry { key: "age".to_string(), value: 31_i64.into() }],
    );
    assert_eq!(changed, Ok(2));
    assert_eq!(ages(&table.get_all()), vec![31, 41, 31, 52]);
    assert_eq!(names(&table.get_all()), vec!["Ada", "Bob", "Cyd", "Dee"]);
}

#[test]
fn set_where_counts_rows_and_not_values() {
    let mut db = people();
    let table = db.table("users").unwrap();
    let changed = table.set_where(
        |e| e.row("age").is(30_i64.into()),
        vec![
            Entry { key: "age".to_string(), value: 1_i64.into() },
            Entry { key: "name".to_string(), value: SafeType::text("Zed") },
        ],
    );
    assert_eq!(changed, Ok(2));
    assert_eq!(names(&table.get_all()), vec!["Zed", "Bob", "Zed", "Dee"]);
    assert_eq!(ages(&table.get_all()), vec![1, 41, 1, 52]);
    assert_eq!(table.set_where(|_| true, vec![]), Ok(0));
    assert_eq!(
        table.set_where(
            |_| false,
            vec![Entry { key: "age".to_string(), value: 1_i64.into() }]
        ),
        Ok(0)
    );
}

#[test]
fn set_where_writes_the_later_of_two_values_for_one_key() {
    let mut db = people();
    let table = db.table("users").unwrap();
    let changed = table.set_where(
        |e| e.row("name").is(SafeType::text("Bob")),
        vec![
            Entry { key: "age".to_string(), value: 1_i64.into() },
            Entry { key: "age".to_string(), value: 2_i64.into() },
        ],
    );
    assert_eq!(changed, Ok(1));
    assert_eq!(ages(&table.get_all()), vec![30, 2, 30, 52]);
}

#[test]
fn set_where_rejects_more_values_than_columns() {
    let mut db = people();
    let table = db.table("users").unwrap();
    let pair = |n: i64| Entry { key: "age".to_string(), value: n.into() };
    assert_eq!(
        table.set_where(|_| true, vec![pair(1), pair(2), pair(3), pair(4)]),
        Err(vec!["Value length is not equal to header length".to_string()])
    );
    assert_eq!(ages(&table.get_all()), vec![30, 41, 30, 52]);
}

#[test]
fn set_where_stops_at_a_key_that_names_no_column() {
    let mut db = people();
    let table = db.table("users").unwrap();
    let res = table.set_where(
        |e| e.row("age").is(30_i64.into()),
        vec![Entry { key: "height".to_string(), value: 1_i64.into() }],
    );
    assert_eq!(res, Err(vec!["Could not find key 'height' in table".to_string()]));
    assert_eq!(ages(&table.get_all()), vec![30, 41, 30, 52]);
}

#[test]
fn set_where_stops_at_a_value_of_another_type_and_keeps_what_was_written() {
    let mut db = people();
    let table = db.table("users").unwrap();
    let asked = std::cell::Cell::new(0);
    let res = table.set_where(
        |e| {
            asked.set(asked.get() + 1);
            e.row("age").get_value::<i64>().unwrap().unwrap() > 35
        },
        vec![
            Entry { key: "name".to_string(), value: SafeType::text("Zed") },
            Entry { key: "age".to_string(), value: SafeType::text("old") },
            Entry { key: "age".to_string(), value: 1_i64.into() },
        ],
    );
    assert_eq!(
        res,
        Err(vec![
            "Value type is not equal to header type. Header: I64, Value: String".to_string()
        ])
    );
    assert_eq!(asked.get(), 2);
    assert_eq!(names(&table.get_all()), vec!["Ada", "Zed", "Cyd", "Dee"]);
    assert_eq!(ages(&table.get_all()), vec![30, 41, 30, 52]);
}

#[test]
fn set_where_with_a_wrong_value_and_no_matching_row_changes_nothing() {
    let mut db = people();
    let table = db.table("users").unwrap();
    let res = table.set_where(
        |_| false,
        vec![Entry { key: "age".to_string(), value: SafeType::text("old") }],
    );
    assert_eq!(res, Ok(0));
    assert_eq!(ages(&table.get_all()), vec![30, 41, 30, 52]);
}

#[test]
fn set_where_does_not_take_an_empty_array_of_another_type() {
    let mut db = people();
    let table = db.table("users").unwrap();
    let res = table.set_where(
        |_| true,
        vec![Entry { key: "tags".to_string(), value: SafeType::from_i64s(vec![]) }],
    );
    assert_eq!(
        res,
        Err(vec![
            "Value type is not equal to header type. Header: Array(String), Value: Array(I64)"
                .to_string()
        ])
    );
    let ok = table.set_where(
        |_| true,
        vec![Entry { key: "tags".to_string(), value: SafeType::from_strs(vec!["a"]) }],
    );
    assert_eq!(ok, Ok(4));
    assert_eq!(table.get_at(2).unwrap().entries[2].value, SafeType::from_strs(vec!["a"]));
}

fn numbers() -> Database {
    let mut db = Database::new();
    db.create_table(
        "n",
        vec![
            TableRow::new("small", TypeDefs::I8),
            TableRow::new("big", TypeDefs::I64),
            TableRow::new("count", TypeDefs::U64),
            TableRow::new("ratio", TypeDefs::F32),
            TableRow::new("exact", TypeDefs::F64),
            TableRow::new("label", TypeDefs::String),
        ],
    )
    .unwrap();
    let table = db.table("n").unwrap();
    table
        .insert(vec![
            126_i8.into(),
            (i64::MAX - 1).into(),
            (u64::MAX - 1).into(),
            single(1.5),
            double(-0.5),
            SafeType::text("a"),
        ])
        .unwrap();
    table
        .insert(vec![
            127_i8.into(),
            i64::MAX.into(),
            u64::MAX.into(),
            single(f32::MAX),
            double(f64::MAX),
            SafeType::text("b"),
        ])
        .unwrap();
    table
        .insert(vec![
            (-128_i8).into(),
            i64::MIN.into(),
            0_u64.into(),
            single(-1.0),
            double(1e300),
            SafeType::text("c"),
        ])
        .unwrap();
    db
}

fn column(db: &mut Database, at: usize) -> Vec<SafeType> {
    db.table("n").unwrap().get_all().iter().map(|e| e.entries[at].value.clone()).collect()
}

#[test]
fn inc_where_guards_the_largest_small_integer() {
    let mut db = numbers();
    let res = db.table("n").unwrap().inc_where(|_| true, "small", add_single, add_double);
    assert_eq!(res, Err(vec!["'I8' about to be overflow".to_string()]));
    assert_eq!(
        column(&mut db, 0),
        vec![SafeType::from(127_i8), SafeType::from(127_i8), SafeType::from(-127_i8)]
    );
}

#[test]
fn inc_where_guards_the_largest_integers() {
    let mut db = numbers();
    let res = db.table("n").unwrap().inc_where(|_| true, "big", add_single, add_double);
    assert_eq!(res, Err(vec!["'I64' about to be overflow".to_string()]));
    assert_eq!(
        column(&mut db, 1),
        vec![
            SafeType::from(i64::MAX),
            SafeType::from(i64::MAX),
            SafeType::from(i64::MIN + 1)
        ]
    );
    let res = db.table("n").unwrap().inc_where(|_| true, "count", add_single, add_double);
    assert_eq!(res, Err(vec!["'U64' about to be overflow".to_string()]));
    assert_eq!(
        column(&mut db, 2),
        vec![SafeType::from(u64::MAX), SafeType::from(u64::MAX), SafeType::from(1_u64)]
    );
}

#[test]
fn inc_where_adds_one_to_floats_and_guards_the_largest() {
    let mut db = numbers();
    let res = db.table("n").unwrap().inc_where(|_| true, "ratio", add_single, add_double);
    assert_eq!(res, Err(vec!["'F32' about to be overflow".to_string()]));
    assert_eq!(column(&mut db, 3), vec![single(2.5), single(f32::MAX), single(0.0)]);
    let res = db.table("n").unwrap().inc_where(|_| true, "exact", add_single, add_double);
    assert_eq!(res, Err(vec!["'F64' about to be overflow".to_string()]));
    assert_eq!(column(&mut db, 4), vec![double(0.5), double(f64::MAX), double(1e300)]);
}

#[test]
fn inc_where_works_on_matching_rows_only() {
    let mut db = numbers();
    let res = db.table("n").unwrap().inc_where(
        |e| !e.row("label").is(SafeType::text("b")),
        "big",
        add_single,
        add_double,
    );
    assert_eq!(res, Ok(()));
    assert_eq!(
        column(&mut db, 1),
        vec![
            SafeType::from(i64::MAX),
            SafeType::from(i64::MAX),
            SafeType::from(i64::MIN + 1)
        ]
    );
    let res = db.table("n").unwrap().inc_where(|_| false, "small", add_single, add_double);
    assert_eq!(res, Ok(()));
    assert_eq!(
        column(&mut db, 0),
        vec![SafeType::from(126_i8), SafeType::from(127_i8), SafeType::from(-128_i8)]
    );
}

#[test]
fn inc_where_reports_each_row_and_goes_on() {
    let mut db = numbers();
    let table = db.table("n").unwrap();
    table.inc_where(|_| true, "small", add_single, add_double).unwrap_err();
    let res = table.inc_where(|_| true, "small", add_single, add_double);
    assert_eq!(
        res,
        Err(vec![
            "'I8' about to be overflow".to_string(),
            "'I8' about to be overflow".to_string()
        ])
    );
    assert_eq!(
        column(&mut db, 0),
        vec![SafeType::from(127_i8), SafeType::from(127_i8), SafeType::from(-126_i8)]
    );
}

#[test]
fn inc_where_reports_a_column_without_numbers() {
    let mut db = numbers();
    let res = db.table("n").unwrap().inc_where(
        |e| !e.row("label").is(SafeType::text("a")),
        "label",
        add_single,
        add_double,
    );
    assert_eq!(
        res,
        Err(vec![
            "label is not a integer type column".to_string(),
            "label is not a integer type column".to_string()
        ])
    );
    assert_eq!(
        column(&mut db, 5),
        vec![SafeType::text("a"), SafeType::text("b"), SafeType::text("c")]
    );
}

#[test]
fn inc_where_reports_a_key_that_names_no_column() {
    let mut db = numbers();
    let res = db.table("n").unwrap().inc_where(
        |e| e.row("label").is(SafeType::text("a")),
        "none",
        add_single,
        add_double,
    );
    assert_eq!(res, Err(vec!["Could not find key 'none' in table".to_string()]));
    let res =
        db.table("n").unwrap().inc_where(|_| false, "none", add_single, add_double);
    assert_eq!(res, Ok(()));
}

#[test]
fn push_where_appends_one_value() {
    let mut db = people();
    let table = db.table("users").unwrap();
    let res = table.push_where(|e| e.row("age").is(30_i64.into()), "tags", SafeType::text("math"));
    assert_eq!(res, Ok(()));
    let res = table.push_where(|e| e.row("name").is(SafeType::text("Ada")), "tags", SafeType::text("art"));
    assert_eq!(res, Ok(()));
    let tags: Vec<Vec<String>> = table
        .get_all()
        .iter()
        .map(|e| e.row("tags").get_value::<Vec<String>>().unwrap().unwrap())
        .collect();
    assert_eq!(
        tags,
        vec![
            vec!["math".to_string(), "art".to_string()],
            vec![],
            vec!["math".to_string()],
            vec![]
        ]
    );
    assert_eq!(
        table.get_at(0).unwrap().entries[2].value,
        SafeType::from_strs(vec!["math", "art"])
    );
}

#[test]
fn push_where_appends_the_items_of_an_array() {
    let mut db = people();
    let table = db.table("users").unwrap();
    table.push_where(|_| true, "tags", SafeType::text("a")).unwrap();
    let res = table.push_where(
        |e| e.row("name").is(SafeType::text("Bob")),
        "tags",
        SafeType::from_strs(vec!["b", "c"]),
    );
    assert_eq!(res, Ok(()));
    assert_eq!(
        table.get_at(1).unwrap().entries[2].value,
        SafeType::from_strs(vec!["a", "b", "c"])
    );
    assert_eq!(table.get_at(0).unwrap().entries[2].value, SafeType::from_strs(vec!["a"]));
    let res = table.push_where(|_| true, "tags", SafeType::from_i64s(vec![]));
    assert_eq!(res, Ok(()));
    assert_eq!(
        table.get_at(1).unwrap().entries[2].value,
        SafeType::from_strs(vec!["a", "b", "c"])
    );
}

#[test]
fn push_where_reports_a_value_of_another_type_for_each_row() {
    let mut db = people();
    let table = db.table("users").unwrap();
    let res = table.push_where(|e| e.row("age").is(30_i64.into()), "tags", 5_i64.into());
    assert_eq!(
        res,
        Err(vec![
            "Inner type of array is 'String' but given value is 'I64'".to_string(),
            "Inner type of array is 'String' but given value is 'I64'".to_string()
        ])
    );
    let res = table.push_where(
        |e| e.row("name").is(SafeType::text("Ada")),
        "tags",
        SafeType::from_i64s(vec![1]),
    );
    assert_eq!(
        res,
        Err(vec!["Inner type of array is 'String' but given value is 'Array(I64)'".to_string()])
    );
    for row in table.get_all() {
        assert_eq!(row.entries[2].value, SafeType::from_strs(vec![]));
    }
}

#[test]
fn push_where_reports_a_column_without_arrays_and_an_unknown_key() {
    let mut db = people();
    let table = db.table("users").unwrap();
    let res = table.push_where(|e| e.row("name").is(SafeType::text("Ada")), "age", 5_i64.into());
    assert_eq!(res, Err(vec!["Field is not a array type".to_string()]));
    let res = table.push_where(|e| e.row("name").is(SafeType::text("Ada")), "none", 5_i64.into());
    assert_eq!(res, Err(vec!["Could not find key 'none' in table".to_string()]));
    let res = table.push_where(|_| false, "none", 5_i64.into());
    assert_eq!(res, Ok(()));
    assert_eq!(ages(&table.get_all()), vec![30, 41, 30, 52]);
}

#[test]
fn push_where_on_arrays_of_arrays_appends_the_inner_arrays() {
    let mut db = Database::new();
    let grid = TypeDefs::array_of(TypeDefs::array_of(TypeDefs::I64));
    db.create_table("g", vec![TableRow::new("cells", grid.clone())]).unwrap();
    let table = db.table("g").unwrap();
    table.insert(vec![SafeType::from_i64s(vec![])]).unwrap();
    let line = SafeType::from_i64s(vec![1, 2]);
    let lines = SafeType::build(Types::Array(vec![line.clone()]), grid.clone());
    assert_eq!(table.push_where(|_| true, "cells", lines.clone()), Ok(()));
    assert_eq!(table.get_at(0).unwrap().entries[0].value, lines);
    assert_eq!(
        table.push_where(|_| true, "cells", line),
        Err(vec![
            "Inner type of array is 'Array(I64)' but given value is 'Array(I64)'".to_string()
        ])
    );
}

#[test]
fn empty_array_then_push_then_search() {
    let mut db = users();
    let table = db.table("users").unwrap();
    assert_eq!(
        table.insert(vec![SafeType::text("Ada"), 30_i64.into(), SafeType::from_strs(vec![])]),
        Ok(())
    );
    assert_eq!(table.push_where(|_| true, "tags", SafeType::text("math")), Ok(()));
    let found = table.get_where(|e| e.row("name").is(SafeType::text("Ada")));
    assert_eq!(found.len(), 1);
    assert_eq!(found[0].row("tags").get_value::<Vec<String>>(), Ok(Some(vec!["math".to_string()])));
    assert_eq!(found[0].row("age").get_value::<i64>(), Ok(Some(30)));
    assert!(found[0].row("age").is(30_i64.into()));
}

#[test]
fn entries_are_found_by_key_and_by_place() {
    let mut db = people();
    let row = db.table("users").unwrap().get_at(1).unwrap();
    assert_eq!(row.get("name").unwrap().key, "name");
    assert_eq!(row.get("age").unwrap().value, SafeType::from(41_i64));
    assert!(row.get("none").is_none());
    assert_eq!(row.get_at(0).unwrap().key, "name");
    assert_eq!(row.get_at(2).unwrap().key, "tags");
    assert!(row.get_at(3).is_none());
    assert_eq!(row.get("age").unwrap().get::<i64>(), Ok(41));
    assert_eq!(row.get("age").unwrap().get::<String>(), Err(TypeMismatch));
    assert_eq!(row.clone(), row);
}

#[test]
fn entries_give_the_first_of_two_entries_with_one_key() {
    let row = Entries {
        entries: vec![
            Entry { key: "k".to_string(), value: 1_i64.into() },
            Entry { key: "k".to_string(), value: 2_i64.into() },
        ],
    };
    assert_eq!(row.get("k").unwrap().value, SafeType::from(1_i64));
    assert!(row.row("k").is(1_i64.into()));
    assert!(!row.row("k").is(2_i64.into()));
}

#[test]
fn row_query_answers_about_what_was_found() {
    let mut db = people();
    let table = db.table("users").unwrap();
    table.push_where(|_| true, "tags", SafeType::from_strs(vec!["a", "b", "c"])).unwrap();
    let row = table.get_at(0).unwrap();
    assert!(row.row("name").found());
    assert!(!row.row("none").found());
    assert_eq!(row.row("tags").size(), 3);
    assert_eq!(row.row("name").size(), -1);
    assert_eq!(row.row("none").size(), -1);
    assert!(row.row("name").is(SafeType::text("Ada")));
    assert!(!row.row("name").is(SafeType::text("Bob")));
    assert!(!row.row("name").is(30_i64.into()));
    assert!(!row.row("none").is(SafeType::text("Ada")));
    assert!(row.row("tags").is(SafeType::from_strs(vec!["a", "b", "c"])));
    assert!(row.row("name").is_it(TypeDefs::String));
    assert!(!row.row("name").is_it(TypeDefs::I64));
    assert!(row.row("tags").is_it(TypeDefs::array_of(TypeDefs::String)));
    assert!(!row.row("none").is_it(TypeDefs::String));
    assert_eq!(row.row("name").get_value::<String>(), Ok(Some("Ada".to_string())));
    assert_eq!(row.row("none").get_value::<String>(), Ok(None));
    assert_eq!(row.row("name").get_value::<i64>(), Err(TypeMismatch));
    let found = table.get_where(|e| e.row("tags").size() > 2);
    assert_eq!(found.len(), 4);
}
