use shapeshift::engine::Shapeshift;
use shapeshift::flat::FlatMap;
use shapeshift::path::{get_last_key_part, join_key, split_key};
use shapeshift::tree::insert_nested;
use shapeshift::value::{Number, Value};

fn engine() -> Shapeshift {
    Shapeshift::new("".to_string(), "".to_string(), "".to_string(), 800_000)
}

fn text(s: &str) -> Value {
    Value::String(s.to_string())
}

fn num(n: u64) -> Value {
    Value::Number(Number::PosInt(n))
}

fn object(members: Vec<(&str, Value)>) -> Value {
    Value::Object(members.into_iter().map(|(k, v)| (k.to_string(), v)).collect())
}

fn pairs(flat: &FlatMap) -> Vec<(String, Value)> {
    let mut out = Vec::new();
    let mut i = 0;
    while let Some((k, v)) = flat.entry(i) {
        out.push((k.clone(), v.clone()));
        i += 1;
    }
    out
}

fn person() -> Value {
    object(vec![
        ("name", text("John Doe")),
        ("age", num(30)),
        (
            "address",
            object(vec![
                ("street", text("123 Main St")),
                ("city", text("Anytown")),
                ("country", text("USA")),
            ]),
        ),
    ])
}

#[test]
fn test_flatten_and_unflatten() {
    let shapeshift = engine();
    let source_obj = person();

    let flattened = shapeshift.flatten_object(&source_obj);
    let unflattened = shapeshift.unflatten_object(&flattened);

    assert_eq!(source_obj, unflattened);
}

#[test]
fn flatten_gives_dotted_keys_in_walk_order() {
    let flat = engine().flatten_object(&person());
    assert_eq!(
        pairs(&flat),
        vec![
            ("name".to_string(), text("John Doe")),
            ("age".to_string(), num(30)),
            ("address.street".to_string(), text("123 Main St")),
            ("address.city".to_string(), text("Anytown")),
            ("address.country".to_string(), text("USA")),
        ]
    );
    assert_eq!(flat.len(), 5);
    assert_eq!(
        flat.keys(),
        vec!["name", "age", "address.street", "address.city", "address.country"]
    );
}

#[test]
fn flatten_of_a_leaf_is_one_entry_under_the_empty_key() {
    let flat = engine().flatten_object(&num(5));
    assert_eq!(pairs(&flat), vec![("".to_string(), num(5))]);
    let back = engine().unflatten_object(&flat);
    assert_eq!(back, object(vec![("", num(5))]));
}

#[test]
fn flatten_keeps_an_array_whole() {
    let list = Value::Array(vec![num(1), object(vec![("a", num(2))]), Value::Null]);
    let value = object(vec![("items", list.clone()), ("n", Value::Bool(true))]);
    let flat = engine().flatten_object(&value);
    assert_eq!(
        pairs(&flat),
        vec![("items".to_string(), list), ("n".to_string(), Value::Bool(true))]
    );
    assert_eq!(engine().unflatten_object(&flat), value);
}

#[test]
fn flatten_of_the_empty_object_is_empty() {
    let flat = engine().flatten_object(&object(vec![]));
    assert_eq!(flat.len(), 0);
    assert_eq!(engine().unflatten_object(&flat), object(vec![]));
}

#[test]
fn flatten_recursive_adds_under_a_prefix() {
    let mut flat = FlatMap::new();
    flat.insert("x.b".to_string(), num(1));
    let value = object(vec![("a", num(2)), ("b", num(3))]);
    engine().flatten_recursive(&value, "x".to_string(), &mut flat);
    assert_eq!(
        pairs(&flat),
        vec![("x.b".to_string(), num(3)), ("x.a".to_string(), num(2))]
    );
}

#[test]
fn round_trip_keeps_deep_nesting_and_empty_leaf_names() {
    let value = object(vec![
        ("", num(0)),
        (
            "a",
            object(vec![
                ("", num(1)),
                ("b", object(vec![("c", Value::Null), ("d", text("x.y"))])),
            ]),
        ),
        ("z", Value::Number(Number::NegInt(-7))),
        ("f", Value::Number(Number::Float(1.5f64.to_bits()))),
    ]);
    let shapeshift = engine();
    let flat = shapeshift.flatten_object(&value);
    assert_eq!(
        flat.keys(),
        vec!["", "a.", "a.b.c", "a.b.d", "z", "f"]
    );
    assert_eq!(shapeshift.unflatten_object(&flat), value);
}

#[test]
fn round_trip_loses_an_empty_nested_object() {
    let value = object(vec![("a", object(vec![])), ("b", num(1))]);
    let shapeshift = engine();
    let back = shapeshift.unflatten_object(&shapeshift.flatten_object(&value));
    assert_eq!(back, object(vec![("b", num(1))]));
}

#[test]
fn round_trip_splits_a_name_with_a_dot() {
    let value = object(vec![("a.b", num(1))]);
    let shapeshift = engine();
    let back = shapeshift.unflatten_object(&shapeshift.flatten_object(&value));
    assert_eq!(back, object(vec![("a", object(vec![("b", num(1))]))]));
}

#[test]
fn round_trip_loses_an_object_under_the_empty_name_at_the_root() {
    let value = object(vec![("", object(vec![("b", num(1))]))]);
    let shapeshift = engine();
    let back = shapeshift.unflatten_object(&shapeshift.flatten_object(&value));
    assert_eq!(back, object(vec![("b", num(1))]));
}

#[test]
fn round_trip_merges_members_of_one_name() {
    let value = object(vec![("a", num(1)), ("b", num(2)), ("a", num(3))]);
    let shapeshift = engine();
    let back = shapeshift.unflatten_object(&shapeshift.flatten_object(&value));
    assert_eq!(back, object(vec![("a", num(3)), ("b", num(2))]));
}

#[test]
fn is_well_formed_finds_a_name_that_occurs_twice() {
    assert!(person().is_well_formed());
    assert!(object(vec![]).is_well_formed());
    assert!(Value::Null.is_well_formed());
    assert!(text("a").is_well_formed());
    assert!(!object(vec![("a", num(1)), ("b", num(2)), ("a", num(3))]).is_well_formed());
    assert!(!object(vec![("x", object(vec![("", num(1)), ("", num(1))]))]).is_well_formed());
    assert!(!Value::Array(vec![num(1), object(vec![("k", num(1)), ("k", num(2))])]).is_well_formed());
    assert!(Value::Array(vec![object(vec![("k", num(1))]), object(vec![("k", num(2))])])
        .is_well_formed());
    assert!(object(vec![("a", object(vec![("a", num(1))]))]).is_well_formed());
}

#[test]
fn colliding_paths_keep_the_first_place_and_the_last_value() {
    let value = object(vec![
        ("a", object(vec![("b", num(1))])),
        ("c", num(2)),
        ("a.b", num(3)),
    ]);
    let flat = engine().flatten_object(&value);
    assert_eq!(
        pairs(&flat),
        vec![("a.b".to_string(), num(3)), ("c".to_string(), num(2))]
    );
}

#[test]
fn unflatten_lets_the_later_entry_win() {
    let mut flat = FlatMap::new();
    flat.insert("a".to_string(), num(1));
    flat.insert("a.b".to_string(), num(2));
    flat.insert("c".to_string(), num(3));
    assert_eq!(
        engine().unflatten_object(&flat),
        object(vec![("a", object(vec![("b", num(2))])), ("c", num(3))])
    );

    let mut flat = FlatMap::new();
    flat.insert("a.b".to_string(), num(2));
    flat.insert("a".to_string(), num(1));
    assert_eq!(engine().unflatten_object(&flat), object(vec![("a", num(1))]));
}

#[test]
fn insert_nested_creates_and_overwrites() {
    let mut value = object(vec![]);
    insert_nested(&mut value, "location.city", text("New York"));
    insert_nested(&mut value, "location.country", Value::Null);
    insert_nested(&mut value, "name", text("A"));
    insert_nested(&mut value, "location.city", text("Paris"));
    assert_eq!(
        value,
        object(vec![
            (
                "location",
                object(vec![("city", text("Paris")), ("country", Value::Null)])
            ),
            ("name", text("A")),
        ])
    );
}

#[test]
fn insert_nested_replaces_what_is_no_object() {
    let mut value = num(1);
    insert_nested(&mut value, "a", num(2));
    assert_eq!(value, object(vec![("a", num(2))]));

    let mut value = object(vec![("a", text("leaf"))]);
    insert_nested(&mut value, "a.b.c", num(3));
    assert_eq!(
        value,
        object(vec![("a", object(vec![("b", object(vec![("c", num(3))]))]))])
    );
}

#[test]
fn flat_map_insert_get_and_entry() {
    let mut flat = FlatMap::new();
    assert_eq!(flat.len(), 0);
    assert_eq!(flat.get(&"a".to_string()), None);
    flat.insert("a".to_string(), num(1));
    flat.insert("b".to_string(), num(2));
    flat.insert("a".to_string(), num(3));
    assert_eq!(flat.len(), 2);
    assert_eq!(flat.get(&"a".to_string()), Some(&num(3)));
    assert_eq!(flat.get(&"b".to_string()), Some(&num(2)));
    assert_eq!(flat.get(&"c".to_string()), None);
    assert_eq!(flat.entry(0), Some((&"a".to_string(), &num(3))));
    assert_eq!(flat.entry(1), Some((&"b".to_string(), &num(2))));
    assert_eq!(flat.entry(2), None);
    assert_eq!(flat.keys(), vec!["a", "b"]);
}

#[test]
fn split_key_cuts_at_every_dot() {
    assert_eq!(split_key("a.b.c"), vec!["a", "b", "c"]);
    assert_eq!(split_key("abc"), vec!["abc"]);
    assert_eq!(split_key(""), vec![""]);
    assert_eq!(split_key("a."), vec!["a", ""]);
    assert_eq!(split_key(".a"), vec!["", "a"]);
    assert_eq!(split_key(".."), vec!["", "", ""]);
    assert_eq!(split_key("é.ü"), vec!["é", "ü"]);
}

#[test]
fn get_last_key_part_is_what_follows_the_last_dot() {
    assert_eq!(get_last_key_part("location.city"), "city");
    assert_eq!(get_last_key_part("a.b.c"), "c");
    assert_eq!(get_last_key_part("name"), "name");
    assert_eq!(get_last_key_part(""), "");
    assert_eq!(get_last_key_part("a."), "");
    assert_eq!(get_last_key_part("ä.ö"), "ö");
}

#[test]
fn join_key_puts_a_dot_after_a_prefix() {
    assert_eq!(join_key("", "name"), "name");
    assert_eq!(join_key("address", "city"), "address.city");
    assert_eq!(join_key("a.b", ""), "a.b.");
    assert_eq!(join_key("", ""), "");
}

#[test]
fn clone_copies_the_whole_value() {
    let value = person();
    let copy = value.clone();
    assert_eq!(copy, value);
    let list = Value::Array(vec![person(), Value::Bool(false), Value::Null]);
    assert_eq!(list.clone(), list);
}
