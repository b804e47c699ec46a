use draco_rs::attribute::{Attribute, AttributeId};
use draco_rs::delta::{into_ranges, DeltaPrediction, ValueRange, DELTA_PREDICTION_ID};

fn range(start: usize, end: usize) -> ValueRange {
    ValueRange { start, end }
}

#[test]
fn test_into_ranges() {
    let v = vec![1, 3, 6, 7, 8, 10, 11, 12, 15];
    let r = into_ranges(v);
    assert_eq!(r.len(), 5);
    assert_eq!(r[0], range(1, 2));
    assert_eq!(r[1], range(3, 4));
    assert_eq!(r[2], range(6, 9));
    assert_eq!(r[3], range(10, 13));
    assert_eq!(r[4], range(15, 16));
}

#[test]
fn test_into_ranges_empty() {
    let r = into_ranges(Vec::new());
    assert!(r.is_empty());
}

#[test]
fn test_into_ranges_single_run() {
    let r = into_ranges(vec![4, 5, 6]);
    assert_eq!(r, vec![range(4, 7)]);
}

#[test]
fn test_get_values_impossible_to_predict() {
    let faces = vec![(0, 1, 2), (1, 2, 3), (4, 5, 6), (5, 6, 7)];
    let conn_att = Attribute::from_faces(AttributeId::new(0), faces.clone(), Vec::new());
    let parents = vec![&conn_att];
    let mut delta = DeltaPrediction::new(&parents);
    let mut value_indices = vec![range(0, 8)];
    let impossible = delta.get_values_impossible_to_predict(&mut value_indices);
    assert_eq!(impossible.len(), 2);
    assert_eq!(impossible[0], range(0, 1));
    assert_eq!(impossible[1], range(4, 5));

    assert_eq!(value_indices.len(), 2);
    assert_eq!(value_indices[0], range(1, 4));
    assert_eq!(value_indices[1], range(5, 8));
}

#[test]
fn test_classify_adjacent_input_ranges() {
    let faces = vec![(0, 1, 2), (1, 2, 3), (4, 5, 6), (5, 6, 7)];
    let conn_att = Attribute::from_faces(AttributeId::new(0), faces, Vec::new());
    let parents = vec![&conn_att];
    let mut delta = DeltaPrediction::new(&parents);
    let mut value_indices = vec![range(0, 4), range(4, 8)];
    let impossible = delta.get_values_impossible_to_predict(&mut value_indices);
    assert_eq!(impossible, vec![range(0, 1), range(4, 5)]);
    assert_eq!(value_indices, vec![range(1, 4), range(5, 8)]);
}

#[test]
fn test_predict_returns_last_value() {
    let faces = vec![(0, 1, 2)];
    let conn_att = Attribute::from_faces(AttributeId::new(0), faces, Vec::new());
    let parents = vec![&conn_att];
    let delta = DeltaPrediction::new(&parents);
    let prior = vec![vec![1u64, 2u64], vec![3u64, 4u64]];
    assert_eq!(delta.predict(&prior), vec![3u64, 4u64]);
}

#[test]
fn test_delta_scheme_id() {
    assert_eq!(DELTA_PREDICTION_ID, 1);
}
