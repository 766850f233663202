use vector_search::{create_index, run_search, EmbeddedDocument, Query, SearchError};

fn doc(id: i32, embeddings: Vec<i32>) -> EmbeddedDocument {
    EmbeddedDocument { id, embeddings, distance: None }
}

fn three_docs() -> Vec<EmbeddedDocument> {
    vec![
        doc(0, vec![10, 20, 30]),
        doc(1, vec![30, 10, 20]),
        doc(2, vec![20, 30, 10]),
    ]
}

#[test]
fn it_works() {
    let result = 2 + 2;
    assert_eq!(result, 4);
}

#[test]
fn it_indexes_embeddings_and_returns_search_result() {
    let index = create_index(three_docs()).unwrap();
    let query = Query::Embeddings(vec![31, 9, 21]);
    let result = run_search(&index, &query, 1).unwrap();
    assert_eq!(result.into_iter().nth(0).unwrap().id, 1);
}

#[test]
fn nearest_neighbor_two_axis_scenario() {
    // Fixed-point coordinates scaled by ten; only the first two axes
    // participate. Expected nearest: id 1 at squared distance 1 + 1 = 2,
    // i.e. a true distance of sqrt(2) / 10, about 0.1414.
    let index = create_index(three_docs()).unwrap();
    let query = Query::Embeddings(vec![31, 9]);
    let result = run_search(&index, &query, 1).unwrap();
    assert_eq!(result.len(), 1);
    assert_eq!(result[0].id, 1);
    assert_eq!(result[0].distance, Some(2));
    let d = (result[0].distance.unwrap() as f64).sqrt() / 10.0;
    assert!((d - 0.1414).abs() < 1e-3);
}

#[test]
fn self_query_returns_zero_distance_first() {
    let index = create_index(three_docs()).unwrap();
    let query = Query::Embeddings(vec![20, 30]);
    let result = run_search(&index, &query, 1).unwrap();
    assert_eq!(result.len(), 1);
    assert_eq!(result[0].id, 2);
    assert_eq!(result[0].distance, Some(0));
}

#[test]
fn results_sorted_ascending_by_distance() {
    let points = vec![
        doc(0, vec![0, 0]),
        doc(1, vec![100, 100]),
        doc(2, vec![3, 4]),
        doc(3, vec![-50, 20]),
        doc(4, vec![7, -1]),
    ];
    let index = create_index(points).unwrap();
    let query = Query::Embeddings(vec![1, 1]);
    let result = run_search(&index, &query, 3).unwrap();
    assert_eq!(result.len(), 3);
    for w in result.windows(2) {
        assert!(w[0].distance.unwrap() <= w[1].distance.unwrap());
    }
    // k larger than the index clips to the index size
    let all = run_search(&index, &query, 100).unwrap();
    assert_eq!(all.len(), 5);
    for w in all.windows(2) {
        assert!(w[0].distance.unwrap() <= w[1].distance.unwrap());
    }
}

#[test]
fn zero_k_returns_empty() {
    let index = create_index(three_docs()).unwrap();
    let query = Query::Embeddings(vec![1, 2]);
    let result = run_search(&index, &query, 0).unwrap();
    assert!(result.is_empty());
    // k = 0 succeeds for any query, even one of the wrong length
    let short = Query::Embeddings(vec![1]);
    assert!(run_search(&index, &short, 0).unwrap().is_empty());
    let long = Query::Embeddings(vec![1, 2, 3, 4]);
    assert!(run_search(&index, &long, 0).unwrap().is_empty());
}

#[test]
fn repeated_search_returns_identical_results() {
    let index = create_index(three_docs()).unwrap();
    let query = Query::Embeddings(vec![15, 25, 5]);
    let a = run_search(&index, &query, 2).unwrap();
    let b = run_search(&index, &query, 2).unwrap();
    assert_eq!(a.len(), b.len());
    for (x, y) in a.iter().zip(b.iter()) {
        assert_eq!(x.id, y.id);
        assert_eq!(x.embeddings, y.embeddings);
        assert_eq!(x.distance, y.distance);
    }
}

#[test]
fn round_trip_preserves_results() {
    let index = create_index(three_docs()).unwrap();
    let query = Query::Embeddings(vec![31, 9, 21]);
    let before = run_search(&index, &query, 3).unwrap();

    let encoded = index.to_points();
    let decoded = vector_search::Index::from_points(encoded).unwrap();
    let after = run_search(&decoded, &query, 3).unwrap();

    assert_eq!(before.len(), after.len());
    for (x, y) in before.iter().zip(after.iter()) {
        assert_eq!(x.id, y.id);
        assert_eq!(x.embeddings, y.embeddings);
        assert_eq!(x.distance, y.distance);
    }
}

#[test]
fn dimension_mismatch_is_rejected() {
    // the stored documents have three coordinates; accepted query lengths
    // are the fixed dimensionality (two) and the stored length (three)
    let index = create_index(three_docs()).unwrap();
    let short = Query::Embeddings(vec![5]);
    assert!(matches!(run_search(&index, &short, 1), Err(SearchError::DimensionMismatch)));
    let empty = Query::Embeddings(vec![]);
    assert!(matches!(run_search(&index, &empty, 1), Err(SearchError::DimensionMismatch)));
    let long = Query::Embeddings(vec![1, 2, 3, 4]);
    assert!(matches!(run_search(&index, &long, 1), Err(SearchError::DimensionMismatch)));
    assert!(run_search(&index, &Query::Embeddings(vec![1, 2]), 1).is_ok());
    assert!(run_search(&index, &Query::Embeddings(vec![1, 2, 3]), 1).is_ok());
}

#[test]
fn empty_index_returns_empty_for_any_k() {
    let index = create_index(Vec::new()).unwrap();
    let query = Query::Embeddings(vec![3, 4]);
    assert!(run_search(&index, &query, 0).unwrap().is_empty());
    assert!(run_search(&index, &query, 1).unwrap().is_empty());
    assert!(run_search(&index, &query, 50).unwrap().is_empty());
    // the empty index answers every query, whatever its length
    let odd = Query::Embeddings(vec![]);
    assert!(run_search(&index, &odd, 1).unwrap().is_empty());
    let one = Query::Embeddings(vec![9]);
    assert!(run_search(&index, &one, 7).unwrap().is_empty());
}

#[test]
fn identical_input_builds_identical_index() {
    // ties on the first axis: determinism must still pin the arrangement
    let points = vec![
        doc(0, vec![5, 1]),
        doc(1, vec![5, 2]),
        doc(2, vec![5, 3]),
        doc(3, vec![2, 9]),
    ];
    let a = create_index(points.clone()).unwrap().to_points();
    let b = create_index(points).unwrap().to_points();
    assert_eq!(a.len(), b.len());
    for (x, y) in a.iter().zip(b.iter()) {
        assert_eq!(x.id, y.id);
        assert_eq!(x.embeddings, y.embeddings);
        assert_eq!(x.distance, y.distance);
    }
}

#[test]
fn inconsistent_point_lengths_are_rejected() {
    let points = vec![doc(0, vec![1, 2, 3]), doc(1, vec![4, 5])];
    assert!(matches!(create_index(points), Err(SearchError::DimensionMismatch)));
}

#[test]
fn too_short_embeddings_are_rejected() {
    let points = vec![doc(0, vec![7]), doc(1, vec![8])];
    assert!(matches!(create_index(points), Err(SearchError::InvalidInput)));
}

#[test]
fn stored_documents_carry_no_distance() {
    let mut input = three_docs();
    input[0].distance = Some(99);
    let index = create_index(input).unwrap();
    for p in index.to_points() {
        assert_eq!(p.distance, None);
    }
}

#[test]
fn decoding_rejects_an_invalid_arena() {
    let bad = vec![doc(0, vec![5, 5]), doc(1, vec![1, 1]), doc(2, vec![2, 2])];
    assert!(matches!(
        vector_search::Index::from_points(bad),
        Err(SearchError::DeserializationError)
    ));
}

#[test]
fn decoding_rejects_documents_with_distance() {
    let bad = vec![EmbeddedDocument { id: 0, embeddings: vec![1, 2], distance: Some(3) }];
    assert!(matches!(
        vector_search::Index::from_points(bad),
        Err(SearchError::DeserializationError)
    ));
}

#[test]
fn error_messages_name_the_failure() {
    assert_eq!(
        SearchError::DimensionMismatch.message(),
        "inconsistent coordinate-sequence length"
    );
    assert_eq!(
        SearchError::InvalidInput.message(),
        "coordinate sequence shorter than the fixed dimensionality"
    );
    assert_eq!(
        SearchError::DeserializationError.message(),
        "structurally invalid encoded index"
    );
}

#[test]
fn exact_distances_for_two_nearest() {
    let points = vec![doc(7, vec![0, 0]), doc(8, vec![3, 4]), doc(9, vec![10, 0])];
    let index = create_index(points).unwrap();
    let query = Query::Embeddings(vec![0, 0]);
    let result = run_search(&index, &query, 2).unwrap();
    assert_eq!(result.len(), 2);
    assert_eq!(result[0].id, 7);
    assert_eq!(result[0].distance, Some(0));
    assert_eq!(result[1].id, 8);
    assert_eq!(result[1].distance, Some(25));
}

#[test]
fn third_axis_does_not_affect_ranking() {
    // Dimensionality is fixed at two axes: a huge third coordinate must not
    // push a document away.
    let points = vec![doc(0, vec![1, 1, 1_000_000]), doc(1, vec![50, 50, 0])];
    let index = create_index(points).unwrap();
    let query = Query::Embeddings(vec![0, 0, 0]);
    let result = run_search(&index, &query, 1).unwrap();
    assert_eq!(result[0].id, 0);
    assert_eq!(result[0].distance, Some(2));
}
