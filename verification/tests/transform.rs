use shapeshift::engine::Shapeshift;
use shapeshift::transform::ShapeshiftError;
use shapeshift::value::{Number, Value};

fn engine_with(threshold: f64) -> Shapeshift {
    Shapeshift::new(
        "".to_string(),
        "".to_string(),
        "".to_string(),
        scaled(threshold),
    )
}

fn string(s: &str) -> Value {
    Value::String(s.to_string())
}

fn number(n: u64) -> Value {
    Value::Number(Number::PosInt(n))
}

fn obj(members: Vec<(&str, Value)>) -> Value {
    Value::Object(members.into_iter().map(|(k, v)| (k.to_string(), v)).collect())
}

fn get_embeddings(texts: &[String]) -> Vec<Vec<f64>> {
    texts
        .iter()
        .map(|text| match text.as_str() {
            "name" | "full_name" => vec![0.9, 0.1, 0.0, 0.0, 0.0],
            "age" | "years_old" => vec![0.0, 0.9, 0.1, 0.0, 0.0],
            "city" | "location.city" => vec![0.0, 0.0, 0.9, 0.1, 0.0],
            "country" | "location.country" => vec![0.0, 0.0, 0.1, 0.9, 0.0],
            "location" => vec![0.0, 0.0, 0.7, 0.3, 0.0],
            _ => vec![0.2, 0.2, 0.2, 0.2, 0.2],
        })
        .collect()
}

fn cosine_similarity(a: &[f64], b: &[f64]) -> f64 {
    let dot: f64 = a.iter().zip(b.iter()).map(|(x, y)| x * y).sum();
    let na: f64 = a.iter().map(|x| x * x).sum::<f64>().sqrt();
    let nb: f64 = b.iter().map(|x| x * x).sum::<f64>().sqrt();
    if na == 0.0 || nb == 0.0 {
        0.0
    } else {
        dot / (na * nb)
    }
}

fn scaled(similarity: f64) -> i64 {
    (similarity * 1_000_000.0).round() as i64
}

fn similarities(shapeshift: &Shapeshift, source: &Value, target: &Value) -> Vec<Vec<i64>> {
    let source_embeddings = get_embeddings(&shapeshift.flatten_object(source).keys());
    let target_embeddings = get_embeddings(&shapeshift.flatten_object(target).keys());
    target_embeddings
        .iter()
        .map(|t| {
            source_embeddings
                .iter()
                .map(|s| scaled(cosine_similarity(t, s)))
                .collect()
        })
        .collect()
}

fn source_person() -> Value {
    obj(vec![
        ("name", string("John Doe")),
        ("age", number(30)),
        ("city", string("New York")),
    ])
}

fn target_person() -> Value {
    obj(vec![
        ("full_name", string("")),
        ("years_old", number(0)),
        (
            "location",
            obj(vec![("city", string("")), ("country", string(""))]),
        ),
    ])
}

#[test]
fn test_shapeshift() {
    let shapeshift = engine_with(0.95);
    let source_obj = source_person();
    let target_obj = target_person();

    let table = similarities(&shapeshift, &source_obj, &target_obj);
    let result = shapeshift
        .shapeshift(source_obj.clone(), target_obj.clone(), &table)
        .unwrap();

    let expected = obj(vec![
        ("full_name", string("John Doe")),
        ("years_old", number(30)),
        (
            "location",
            obj(vec![("city", string("New York")), ("country", Value::Null)]),
        ),
    ]);

    assert_eq!(
        result.result, expected,
        "Shapeshift result does not match expected output"
    );

    assert_eq!(result.source_keys, vec!["name", "age", "city"]);
    assert_eq!(
        result.target_keys,
        vec!["full_name", "years_old", "location.city", "location.country"]
    );
    assert_eq!(result.matches, vec![Some(0), Some(1), Some(2), None]);
}

#[test]
fn shapeshift_above_every_similarity_fills_with_null() {
    let shapeshift = engine_with(1.1);
    let source_obj = source_person();
    let target_obj = target_person();
    let table = similarities(&shapeshift, &source_obj, &target_obj);
    let done = shapeshift.shapeshift(source_obj, target_obj, &table).unwrap();
    assert_eq!(
        done.result,
        obj(vec![
            ("full_name", Value::Null),
            ("years_old", Value::Null),
            (
                "location",
                obj(vec![("city", Value::Null), ("country", Value::Null)])
            ),
        ])
    );
    assert_eq!(done.matches, vec![None, None, None, None]);
}

#[test]
fn shapeshift_of_an_empty_source_fills_with_null() {
    let shapeshift = engine_with(0.8);
    let source_obj = obj(vec![]);
    let target_obj = obj(vec![("x", number(1))]);
    let table = similarities(&shapeshift, &source_obj, &target_obj);
    assert_eq!(table, vec![Vec::<i64>::new()]);
    let done = shapeshift.shapeshift(source_obj, target_obj, &table).unwrap();
    assert_eq!(done.result, obj(vec![("x", Value::Null)]));
    assert_eq!(done.source_keys, Vec::<String>::new());
    assert_eq!(done.target_keys, vec!["x"]);
}

#[test]
fn shapeshift_of_an_empty_target_is_the_empty_object() {
    let shapeshift = engine_with(0.8);
    let done = shapeshift
        .shapeshift(source_person(), obj(vec![]), &vec![])
        .unwrap();
    assert_eq!(done.result, obj(vec![]));
    assert_eq!(done.matches, vec![]);
}

#[test]
fn shapeshift_gives_a_contested_source_to_the_earlier_target() {
    let shapeshift = engine_with(0.8);
    let source_obj = obj(vec![("a", string("A")), ("b", string("B"))]);
    let table = vec![vec![900_000, 100_000], vec![900_000, 100_000]];

    let forward = obj(vec![("t1", Value::Null), ("t2", Value::Null)]);
    let done = shapeshift
        .shapeshift(source_obj.clone(), forward, &table)
        .unwrap();
    assert_eq!(
        done.result,
        obj(vec![("t1", string("A")), ("t2", Value::Null)])
    );

    let backward = obj(vec![("t2", Value::Null), ("t1", Value::Null)]);
    let done = shapeshift.shapeshift(source_obj, backward, &table).unwrap();
    assert_eq!(
        done.result,
        obj(vec![("t2", string("A")), ("t1", Value::Null)])
    );
}

#[test]
fn shapeshift_copies_a_value_whatever_its_kind() {
    let shapeshift = engine_with(0.5);
    let list = Value::Array(vec![number(1), number(2)]);
    let source_obj = obj(vec![("tags", list.clone()), ("deep", obj(vec![("x", Value::Bool(true))]))]);
    let target_obj = obj(vec![("flag", string("")), ("labels", number(0))]);
    // flag is closest to deep.x, labels to tags
    let table = vec![vec![100_000, 900_000], vec![800_000, 200_000]];
    let done = shapeshift.shapeshift(source_obj, target_obj, &table).unwrap();
    assert_eq!(
        done.result,
        obj(vec![("flag", Value::Bool(true)), ("labels", list)])
    );
    assert_eq!(done.source_keys, vec!["tags", "deep.x"]);
    assert_eq!(done.matches, vec![Some(1), Some(0)]);
}

#[test]
fn shapeshift_keeps_the_keys_of_the_target() {
    let shapeshift = engine_with(0.95);
    let source_obj = source_person();
    let target_obj = target_person();
    let table = similarities(&shapeshift, &source_obj, &target_obj);
    let done = shapeshift
        .shapeshift(source_obj, target_obj.clone(), &table)
        .unwrap();
    assert_eq!(
        shapeshift.flatten_object(&done.result).keys(),
        shapeshift.flatten_object(&target_obj).keys()
    );
    assert!(done.result.is_well_formed());
}

#[test]
fn shapeshift_refuses_a_table_of_another_shape() {
    let shapeshift = engine_with(0.8);
    let source_obj = source_person();
    let target_obj = target_person();

    let too_few_rows = vec![vec![0, 0, 0]; 3];
    assert_eq!(
        shapeshift
            .shapeshift(source_obj.clone(), target_obj.clone(), &too_few_rows)
            .unwrap_err(),
        ShapeshiftError::SimilarityShape
    );
    let too_many_rows = vec![vec![0, 0, 0]; 5];
    assert!(shapeshift
        .shapeshift(source_obj.clone(), target_obj.clone(), &too_many_rows)
        .is_err());
    let short_row = vec![vec![0, 0, 0], vec![0, 0], vec![0, 0, 0], vec![0, 0, 0]];
    assert!(shapeshift
        .shapeshift(source_obj.clone(), target_obj.clone(), &short_row)
        .is_err());
    let long_row = vec![vec![0, 0, 0], vec![0, 0, 0], vec![0, 0, 0], vec![0, 0, 0, 0]];
    assert!(shapeshift
        .shapeshift(source_obj.clone(), target_obj.clone(), &long_row)
        .is_err());
    let fitting = vec![vec![0, 0, 0]; 4];
    assert!(shapeshift
        .shapeshift(source_obj, target_obj, &fitting)
        .is_ok());
}

#[test]
fn the_error_says_what_is_wrong() {
    assert_eq!(
        ShapeshiftError::SimilarityShape.message(),
        "the similarities do not fit the keys of source and target"
    );
}
