use vstd::prelude::*;
use crate::index::key_views;
use crate::records::StopTime;
use crate::records::StopTimeModel;
use crate::records::Trip;
use crate::records::TripModel;

verus! {

/// Why loading a table failed. Every load failure is fatal to the caller
/// by design: a source whose schema drifted must not feed the indices.
#[derive(Debug, PartialEq, Eq)]
pub enum LoadError {
    /// The source held no rows at all, so no header row to validate.
    MissingHeader,
    /// The first row did not match the expected column names positionally;
    /// carries the offending row for the diagnostic.
    BadHeader { row: Vec<String> },
    /// The data row at this position (counting the header as row 0) had
    /// fewer columns than the record shape needs.
    ShortRow { row_number: usize },
}

/// The rows of a tabular source as sequences of character sequences.
pub open spec fn row_views(rows: Seq<Vec<String>>) -> Seq<Seq<Seq<char>>> {
    rows.map_values(|r: Vec<String>| key_views(r@))
}

/// The expected header of the trips source: `route_id, service_id,
/// trip_id`, extra trailing columns ignored.
pub open spec fn trips_header_ok(row: Seq<Seq<char>>) -> bool {
    &&& row.len() >= 3
    &&& row[0] == "route_id"@
    &&& row[1] == "service_id"@
    &&& row[2] == "trip_id"@
}

/// The expected header of the stop-times source: `trip_id, arrival_time,
/// departure_time, stop_id`, extra trailing columns ignored.
pub open spec fn stop_times_header_ok(row: Seq<Seq<char>>) -> bool {
    &&& row.len() >= 4
    &&& row[0] == "trip_id"@
    &&& row[1] == "arrival_time"@
    &&& row[2] == "departure_time"@
    &&& row[3] == "stop_id"@
}

/// The trip record a data row of at least 3 columns yields, fields taken
/// by fixed position.
pub open spec fn trip_of_row(row: Seq<Seq<char>>) -> TripModel {
    TripModel { route_id: row[0], service_id: row[1], trip_id: row[2] }
}

/// The stop-time record a data row of at least 4 columns yields, fields
/// taken by fixed position.
pub open spec fn stop_time_of_row(row: Seq<Seq<char>>) -> StopTimeModel {
    StopTimeModel { trip_id: row[0], arrival: row[1], departure: row[2], stop_id: row[3] }
}

/// Parse the trips source. The first row must equal the expected header;
/// each later row needs at least 3 columns and becomes, in source order,
/// one trip record. The first offence ends the load with the matching
/// error, exactly as the contract's cases state.
pub fn load_trips(rows: &Vec<Vec<String>>) -> (r: Result<Vec<Trip>, LoadError>)
    ensures
        match r {
            Ok(trips) => {
                &&& rows@.len() >= 1
                &&& trips_header_ok(row_views(rows@)[0])
                &&& trips@.len() == rows@.len() - 1
                &&& forall|i: int| 0 <= i < trips@.len() ==> {
                        &&& row_views(rows@)[i + 1].len() >= 3
                        &&& (#[trigger] trips@[i])@ == trip_of_row(row_views(rows@)[i + 1])
                    }
            },
            Err(LoadError::MissingHeader) => rows@.len() == 0,
            Err(LoadError::BadHeader { row }) => {
                &&& rows@.len() >= 1
                &&& !trips_header_ok(row_views(rows@)[0])
                &&& key_views(row@) == row_views(rows@)[0]
            },
            Err(LoadError::ShortRow { row_number }) => {
                &&& rows@.len() >= 1
                &&& trips_header_ok(row_views(rows@)[0])
                &&& 1 <= row_number < rows@.len()
                &&& row_views(rows@)[row_number as int].len() < 3
                &&& forall|i: int| 1 <= i < row_number ==>
                        (#[trigger] row_views(rows@)[i]).len() >= 3
            },
        },
{
    if rows.len() == 0 {
        return Err(LoadError::MissingHeader);
    }
    let c0 = String::from_str("route_id");
    let c1 = String::from_str("service_id");
    let c2 = String::from_str("trip_id");
    let hdr_ok = rows[0].len() >= 3 && rows[0][0] == c0 && rows[0][1] == c1 && rows[0][2] == c2;
    proof {
        assert(row_views(rows@)[0] == key_views(rows@[0]@));
        assert(row_views(rows@)[0].len() == rows@[0]@.len());
        assert forall|c: int| 0 <= c < rows@[0]@.len() implies
            #[trigger] row_views(rows@)[0][c] == rows@[0]@[c]@ by {}
    }
    if !hdr_ok {
        let row = rows[0].clone();
        proof {
            assert(key_views(row@) =~= row_views(rows@)[0]);
        }
        return Err(LoadError::BadHeader { row });
    }
    let n = rows.len();
    let mut trips: Vec<Trip> = Vec::new();
    let mut i: usize = 1;
    while i < n
        invariant
            1 <= i <= n,
            n == rows@.len(),
            trips_header_ok(row_views(rows@)[0]),
            trips@.len() == i - 1,
            forall|j: int| 1 <= j < i ==> (#[trigger] row_views(rows@)[j]).len() >= 3,
            forall|j: int| 0 <= j < trips@.len() ==> {
                &&& row_views(rows@)[j + 1].len() >= 3
                &&& (#[trigger] trips@[j])@ == trip_of_row(row_views(rows@)[j + 1])
            },
        decreases n - i,
    {
        proof {
            assert(row_views(rows@)[i as int] == key_views(rows@[i as int]@));
            assert(row_views(rows@)[i as int].len() == rows@[i as int]@.len());
            assert forall|c: int| 0 <= c < rows@[i as int]@.len() implies
                #[trigger] row_views(rows@)[i as int][c] == rows@[i as int]@[c]@ by {}
        }
        if rows[i].len() < 3 {
            return Err(LoadError::ShortRow { row_number: i });
        }
        trips.push(Trip {
            route_id: rows[i][0].clone(),
            service_id: rows[i][1].clone(),
            trip_id: rows[i][2].clone(),
        });
        proof {
            assert(trips@[i - 1]@ == trip_of_row(row_views(rows@)[i as int]));
        }
        i = i + 1;
    }
    Ok(trips)
}

/// Parse the stop-times source. The first row must equal the expected
/// header; each later row needs at least 4 columns and becomes, in source
/// order, one stop-time record. The first offence ends the load with the
/// matching error, exactly as the contract's cases state.
pub fn load_stop_times(rows: &Vec<Vec<String>>) -> (r: Result<Vec<StopTime>, LoadError>)
    ensures
        match r {
            Ok(stop_times) => {
                &&& rows@.len() >= 1
                &&& stop_times_header_ok(row_views(rows@)[0])
                &&& stop_times@.len() == rows@.len() - 1
                &&& forall|i: int| 0 <= i < stop_times@.len() ==> {
                        &&& row_views(rows@)[i + 1].len() >= 4
                        &&& (#[trigger] stop_times@[i])@ == stop_time_of_row(row_views(rows@)[i + 1])
                    }
            },
            Err(LoadError::MissingHeader) => rows@.len() == 0,
            Err(LoadError::BadHeader { row }) => {
                &&& rows@.len() >= 1
                &&& !stop_times_header_ok(row_views(rows@)[0])
                &&& key_views(row@) == row_views(rows@)[0]
            },
            Err(LoadError::ShortRow { row_number }) => {
                &&& rows@.len() >= 1
                &&& stop_times_header_ok(row_views(rows@)[0])
                &&& 1 <= row_number < rows@.len()
                &&& row_views(rows@)[row_number as int].len() < 4
                &&& forall|i: int| 1 <= i < row_number ==>
                        (#[trigger] row_views(rows@)[i]).len() >= 4
            },
        },
{
    if rows.len() == 0 {
        return Err(LoadError::MissingHeader);
    }
    let c0 = String::from_str("trip_id");
    let c1 = String::from_str("arrival_time");
    let c2 = String::from_str("departure_time");
    let c3 = String::from_str("stop_id");
    let hdr_ok = rows[0].len() >= 4 && rows[0][0] == c0 && rows[0][1] == c1 && rows[0][2] == c2
        && rows[0][3] == c3;
    proof {
        assert(row_views(rows@)[0] == key_views(rows@[0]@));
        assert(row_views(rows@)[0].len() == rows@[0]@.len());
        assert forall|c: int| 0 <= c < rows@[0]@.len() implies
            #[trigger] row_views(rows@)[0][c] == rows@[0]@[c]@ by {}
    }
    if !hdr_ok {
        let row = rows[0].clone();
        proof {
            assert(key_views(row@) =~= row_views(rows@)[0]);
        }
        return Err(LoadError::BadHeader { row });
    }
    let n = rows.len();
    let mut stop_times: Vec<StopTime> = Vec::new();
    let mut i: usize = 1;
    while i < n
        invariant
            1 <= i <= n,
            n == rows@.len(),
            stop_times_header_ok(row_views(rows@)[0]),
            stop_times@.len() == i - 1,
            forall|j: int| 1 <= j < i ==> (#[trigger] row_views(rows@)[j]).len() >= 4,
            forall|j: int| 0 <= j < stop_times@.len() ==> {
                &&& row_views(rows@)[j + 1].len() >= 4
                &&& (#[trigger] stop_times@[j])@ == stop_time_of_row(row_views(rows@)[j + 1])
            },
        decreases n - i,
    {
        proof {
            assert(row_views(rows@)[i as int] == key_views(rows@[i as int]@));
            assert(row_views(rows@)[i as int].len() == rows@[i as int]@.len());
            assert forall|c: int| 0 <= c < rows@[i as int]@.len() implies
                #[trigger] row_views(rows@)[i as int][c] == rows@[i as int]@[c]@ by {}
        }
        if rows[i].len() < 4 {
            return Err(LoadError::ShortRow { row_number: i });
        }
        stop_times.push(StopTime {
            trip_id: rows[i][0].clone(),
            stop_id: rows[i][3].clone(),
            arrival: rows[i][1].clone(),
            departure: rows[i][2].clone(),
        });
        proof {
            assert(stop_times@[i - 1]@ == stop_time_of_row(row_views(rows@)[i as int]));
        }
        i = i + 1;
    }
    Ok(stop_times)
}

} // verus!
