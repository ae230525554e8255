use shapeshift::engine::Shapeshift;

fn engine_at(threshold: i64) -> Shapeshift {
    Shapeshift::new("".to_string(), "".to_string(), "".to_string(), threshold)
}

fn cosine(a: &[f64], b: &[f64]) -> f64 {
    let dot: f64 = a.iter().zip(b.iter()).map(|(x, y)| x * y).sum();
    let na: f64 = a.iter().map(|x| x * x).sum::<f64>().sqrt();
    let nb: f64 = b.iter().map(|x| x * x).sum::<f64>().sqrt();
    if na == 0.0 || nb == 0.0 {
        0.0
    } else {
        dot / (na * nb)
    }
}

fn millionths(similarity: f64) -> i64 {
    (similarity * 1_000_000.0).round() as i64
}

#[test]
fn test_find_closest_match() {
    let shapeshift = engine_at(millionths(0.8));
    let source_embedding = vec![1.0, 0.0, 0.0];
    let target_embeddings = vec![
        vec![1.0, 0.0, 0.0],
        vec![0.0, 1.0, 0.0],
        vec![0.0, 0.0, 1.0],
    ];
    let similarities: Vec<i64> = target_embeddings
        .iter()
        .map(|embedding| millionths(cosine(&source_embedding, embedding)))
        .collect();
    let closest_match = shapeshift.find_closest_match(&similarities);
    assert_eq!(closest_match, Some(0));
}

#[test]
fn find_closest_match_takes_the_first_of_equal_maxima() {
    let shapeshift = engine_at(5);
    assert_eq!(shapeshift.find_closest_match(&vec![3, 9, 9, 2]), Some(1));
    assert_eq!(shapeshift.find_closest_match(&vec![7, 7]), Some(0));
    assert_eq!(shapeshift.find_closest_match(&vec![1, 2, 8]), Some(2));
}

#[test]
fn find_closest_match_holds_the_maximum_to_the_threshold() {
    assert_eq!(engine_at(5).find_closest_match(&vec![5]), Some(0));
    assert_eq!(engine_at(6).find_closest_match(&vec![5]), None);
    assert_eq!(engine_at(5).find_closest_match(&vec![4, 3]), None);
    assert_eq!(engine_at(5).find_closest_match(&vec![]), None);
    assert_eq!(engine_at(-3).find_closest_match(&vec![-9, -2, -2]), Some(1));
    assert_eq!(
        engine_at(i64::MIN).find_closest_match(&vec![i64::MIN, i64::MIN]),
        Some(0)
    );
    assert_eq!(engine_at(i64::MAX).find_closest_match(&vec![i64::MAX - 1]), None);
}

#[test]
fn match_targets_gives_each_source_once() {
    let shapeshift = engine_at(50);
    let table = vec![
        vec![90, 10, 10],
        vec![80, 70, 10],
        vec![10, 60, 10],
        vec![10, 95, 99],
        vec![10, 10, 10],
    ];
    let matches = shapeshift.match_targets(&table);
    assert_eq!(matches, vec![Some(0), None, Some(1), Some(2), None]);
    for a in 0..matches.len() {
        for b in 0..matches.len() {
            if a != b && matches[a].is_some() {
                assert_ne!(matches[a], matches[b]);
            }
        }
    }
}

#[test]
fn match_targets_gives_a_contested_source_to_the_earlier_target() {
    let shapeshift = engine_at(80);
    // both targets are as close to source 0, and neither reaches source 1
    let forward = vec![vec![90, 10], vec![90, 20]];
    assert_eq!(shapeshift.match_targets(&forward), vec![Some(0), None]);
    let backward = vec![vec![90, 20], vec![90, 10]];
    assert_eq!(shapeshift.match_targets(&backward), vec![Some(0), None]);
}

#[test]
fn match_targets_does_not_fall_back_on_the_next_best() {
    let shapeshift = engine_at(50);
    let table = vec![vec![90, 80], vec![90, 85]];
    assert_eq!(shapeshift.match_targets(&table), vec![Some(0), None]);
}

#[test]
fn raising_the_threshold_only_drops_matches_where_no_source_is_contested() {
    let table = vec![vec![90, 10, 10], vec![10, 70, 10], vec![10, 10, 50]];
    assert_eq!(
        engine_at(40).match_targets(&table),
        vec![Some(0), Some(1), Some(2)]
    );
    assert_eq!(
        engine_at(60).match_targets(&table),
        vec![Some(0), Some(1), None]
    );
    assert_eq!(engine_at(80).match_targets(&table), vec![Some(0), None, None]);
    assert_eq!(engine_at(91).match_targets(&table), vec![None, None, None]);
}

#[test]
fn raising_the_threshold_frees_a_contested_source() {
    let table = vec![vec![85], vec![99]];
    assert_eq!(engine_at(80).match_targets(&table), vec![Some(0), None]);
    assert_eq!(engine_at(90).match_targets(&table), vec![None, Some(0)]);
}

#[test]
fn match_targets_takes_rows_of_any_length() {
    let shapeshift = engine_at(1);
    assert_eq!(shapeshift.match_targets(&vec![]), vec![]);
    assert_eq!(
        shapeshift.match_targets(&vec![vec![], vec![0, 5], vec![9], vec![0, 0, 0, 4]]),
        vec![None, Some(1), Some(0), Some(3)]
    );
}

#[test]
fn new_keeps_its_arguments() {
    let shapeshift = Shapeshift::new(
        "client".to_string(),
        "SECRET-REDACTED".to_string(),
        "model".to_string(),
        950_000,
    );
    assert_eq!(shapeshift.embedding_client(), "client");
    assert_eq!(shapeshift.api_key(), "SECRET-REDACTED");
    assert_eq!(shapeshift.embedding_model(), "model");
    assert_eq!(shapeshift.similarity_threshold(), 950_000);
}
