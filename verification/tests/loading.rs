use trustit::index::Index;
use trustit::loader::LoadError;
use trustit::loader::load_stop_times;
use trustit::loader::load_trips;

fn rows(data: &[&[&str]]) -> Vec<Vec<String>> {
    data.iter().map(|r| r.iter().map(|s| s.to_string()).collect()).collect()
}

#[test]
fn empty_source_is_missing_header() {
    assert_eq!(load_trips(&rows(&[])), Err(LoadError::MissingHeader));
    assert_eq!(load_stop_times(&rows(&[])), Err(LoadError::MissingHeader));
}

#[test]
fn wrong_header_is_rejected_with_the_row() {
    let bad = rows(&[
        &["service_id", "route_id", "trip_id"],
        &["1", "S1", "T1"],
    ]);
    let expected_row: Vec<String> =
        vec!["service_id".to_string(), "route_id".to_string(), "trip_id".to_string()];
    assert_eq!(load_trips(&bad), Err(LoadError::BadHeader { row: expected_row }));
}

#[test]
fn short_header_is_rejected() {
    let bad = rows(&[&["route_id", "service_id"]]);
    assert!(matches!(load_trips(&bad), Err(LoadError::BadHeader { .. })));
}

#[test]
fn stop_times_header_checks_all_four_columns() {
    let bad = rows(&[
        &["trip_id", "departure_time", "arrival_time", "stop_id"],
        &["T1", "08:00", "08:01", "A"],
    ]);
    assert!(matches!(load_stop_times(&bad), Err(LoadError::BadHeader { .. })));
}

#[test]
fn short_data_row_is_rejected_by_position() {
    let bad = rows(&[
        &["route_id", "service_id", "trip_id"],
        &["1", "S1", "T1"],
        &["2", "S2"],
        &["3", "S3", "T3"],
    ]);
    assert_eq!(load_trips(&bad), Err(LoadError::ShortRow { row_number: 2 }));
}

#[test]
fn short_stop_time_row_is_rejected() {
    let bad = rows(&[
        &["trip_id", "arrival_time", "departure_time", "stop_id"],
        &["T1", "08:00", "08:01"],
    ]);
    assert_eq!(load_stop_times(&bad), Err(LoadError::ShortRow { row_number: 1 }));
}

#[test]
fn loader_keeps_source_order() {
    let ok = rows(&[
        &["trip_id", "arrival_time", "departure_time", "stop_id"],
        &["T2", "09:00", "09:01", "C"],
        &["T1", "08:00", "08:01", "A"],
    ]);
    let stop_times = load_stop_times(&ok).expect("load");
    assert_eq!(stop_times.len(), 2);
    assert_eq!(stop_times[0].trip_id, "T2");
    assert_eq!(stop_times[0].stop_id, "C");
    assert_eq!(stop_times[0].arrival, "09:00");
    assert_eq!(stop_times[0].departure, "09:01");
    assert_eq!(stop_times[1].trip_id, "T1");
}

#[test]
fn index_lists_positions_in_order_with_duplicates() {
    let keys: Vec<String> =
        vec!["a".to_string(), "b".to_string(), "a".to_string(), "a".to_string()];
    let ix = Index::build(&keys);
    assert_eq!(ix.get(&"a".to_string()), Some(&vec![0usize, 2, 3]));
    assert_eq!(ix.get(&"b".to_string()), Some(&vec![1usize]));
    assert_eq!(ix.get(&"c".to_string()), None);
}
