use trustit::data::Data;
use trustit::loader::load_stop_times;
use trustit::loader::load_trips;
use trustit::query::indexed_schedule_count;
use trustit::query::scan_schedule_count;
use trustit::query::schedules_for_route;
use trustit::query::try_indexed_schedule_count;

fn rows(data: &[&[&str]]) -> Vec<Vec<String>> {
    data.iter().map(|r| r.iter().map(|s| s.to_string()).collect()).collect()
}

fn sample_data() -> Data {
    let trip_rows = rows(&[
        &["route_id", "service_id", "trip_id"],
        &["1", "S1", "T1"],
        &["2", "S1", "T2"],
    ]);
    let stop_rows = rows(&[
        &["trip_id", "arrival_time", "departure_time", "stop_id"],
        &["T1", "08:00", "08:01", "A"],
        &["T1", "08:10", "08:11", "B"],
        &["T2", "09:00", "09:01", "C"],
    ]);
    let trips = load_trips(&trip_rows).expect("trips load");
    let stop_times = load_stop_times(&stop_rows).expect("stop_times load");
    Data::new(trips, stop_times)
}

#[test]
fn scenario_route_one_has_two_stops() {
    let data = sample_data();
    let resp = schedules_for_route(&data, &"1".to_string());
    assert_eq!(resp.len(), 1);
    assert_eq!(resp[0].trip_id, "T1");
    assert_eq!(resp[0].service_id, "S1");
    assert_eq!(resp[0].route_id, "1");
    assert_eq!(resp[0].schedules.len(), 2);
    assert_eq!(resp[0].schedules[0].stop_id, "A");
    assert_eq!(resp[0].schedules[0].arrival_time, "08:00");
    assert_eq!(resp[0].schedules[0].departure_time, "08:01");
    assert_eq!(resp[0].schedules[1].stop_id, "B");
    assert_eq!(resp[0].schedules[1].arrival_time, "08:10");
    assert_eq!(resp[0].schedules[1].departure_time, "08:11");
}

#[test]
fn scenario_unknown_route_is_empty() {
    let data = sample_data();
    let resp = schedules_for_route(&data, &"3".to_string());
    assert_eq!(resp.len(), 0);
}

#[test]
fn unknown_route_counts_zero() {
    let data = sample_data();
    assert_eq!(scan_schedule_count(&data.trips, &data.stop_times, &"nope".to_string()), 0);
    assert_eq!(try_indexed_schedule_count(&data, &"nope".to_string()), Some(0));
}

#[test]
fn strategies_agree_on_known_routes() {
    let data = sample_data();
    for route in ["1", "2", "3", ""] {
        let r = route.to_string();
        let scanned = scan_schedule_count(&data.trips, &data.stop_times, &r);
        let indexed = try_indexed_schedule_count(&data, &r).expect("count fits");
        let flat: usize = schedules_for_route(&data, &r).iter().map(|t| t.schedules.len()).sum();
        assert_eq!(scanned, indexed);
        assert_eq!(indexed, flat);
    }
}

#[test]
fn indexed_count_matches_scenario() {
    let data = sample_data();
    assert_eq!(indexed_schedule_count(&data, &"1".to_string()), 2);
    assert_eq!(indexed_schedule_count(&data, &"2".to_string()), 1);
}

#[test]
fn trips_keep_source_order_within_route() {
    let trip_rows = rows(&[
        &["route_id", "service_id", "trip_id"],
        &["7", "S1", "T1"],
        &["8", "S9", "TX"],
        &["7", "S2", "T2"],
    ]);
    let stop_rows = rows(&[
        &["trip_id", "arrival_time", "departure_time", "stop_id"],
        &["T2", "10:00", "10:01", "D"],
        &["T1", "08:00", "08:01", "A"],
        &["T1", "08:10", "08:11", "B"],
    ]);
    let data = Data::new(
        load_trips(&trip_rows).unwrap(),
        load_stop_times(&stop_rows).unwrap(),
    );
    let resp = schedules_for_route(&data, &"7".to_string());
    assert_eq!(resp.len(), 2);
    assert_eq!(resp[0].trip_id, "T1");
    assert_eq!(resp[1].trip_id, "T2");
    assert_eq!(resp[0].schedules[0].stop_id, "A");
    assert_eq!(resp[0].schedules[1].stop_id, "B");
    assert_eq!(resp[1].schedules[0].stop_id, "D");
}

#[test]
fn trip_without_stop_times_appears_empty() {
    let trip_rows = rows(&[
        &["route_id", "service_id", "trip_id"],
        &["1", "S1", "T1"],
    ]);
    let stop_rows = rows(&[
        &["trip_id", "arrival_time", "departure_time", "stop_id"],
    ]);
    let data = Data::new(
        load_trips(&trip_rows).unwrap(),
        load_stop_times(&stop_rows).unwrap(),
    );
    let resp = schedules_for_route(&data, &"1".to_string());
    assert_eq!(resp.len(), 1);
    assert_eq!(resp[0].trip_id, "T1");
    assert_eq!(resp[0].schedules.len(), 0);
    assert_eq!(indexed_schedule_count(&data, &"1".to_string()), 0);
}

#[test]
fn repeated_query_is_identical() {
    let data = sample_data();
    let r = "1".to_string();
    let first = schedules_for_route(&data, &r);
    let second = schedules_for_route(&data, &r);
    assert_eq!(first, second);
    assert_eq!(
        try_indexed_schedule_count(&data, &r),
        try_indexed_schedule_count(&data, &r)
    );
}

#[test]
fn extra_trailing_columns_are_ignored() {
    let trip_rows = rows(&[
        &["route_id", "service_id", "trip_id", "headsign"],
        &["1", "S1", "T1", "Downtown"],
    ]);
    let trips = load_trips(&trip_rows).expect("trips load");
    assert_eq!(trips.len(), 1);
    assert_eq!(trips[0].route_id, "1");
    assert_eq!(trips[0].service_id, "S1");
    assert_eq!(trips[0].trip_id, "T1");
}

#[test]
fn duplicate_trip_ids_count_per_occurrence() {
    // Two trips of the same route sharing one trip id: the index lists
    // both positions, so the indexed strategies attribute the shared
    // stop-time row to each occurrence, while the scan sees one row.
    let trip_rows = rows(&[
        &["route_id", "service_id", "trip_id"],
        &["1", "S1", "T1"],
        &["1", "S2", "T1"],
    ]);
    let stop_rows = rows(&[
        &["trip_id", "arrival_time", "departure_time", "stop_id"],
        &["T1", "08:00", "08:01", "A"],
    ]);
    let data = Data::new(
        load_trips(&trip_rows).unwrap(),
        load_stop_times(&stop_rows).unwrap(),
    );
    let r = "1".to_string();
    assert_eq!(scan_schedule_count(&data.trips, &data.stop_times, &r), 1);
    assert_eq!(indexed_schedule_count(&data, &r), 2);
    let resp = schedules_for_route(&data, &r);
    assert_eq!(resp.len(), 2);
    let flat: usize = resp.iter().map(|t| t.schedules.len()).sum();
    assert_eq!(flat, 2);
}
