use vstd::prelude::*;
use crate::index::Index;
use crate::index::key_views;
use crate::records::StopTime;
use crate::records::Trip;
use crate::records::route_column;
use crate::records::trip_column;

verus! {

/// The loaded dataset: both tables and, over each, the position index
/// that the two-hop join reads. Built once, before any query, and
/// read-only afterwards; sharing it across concurrent readers is safe
/// because no operation of this crate mutates it after construction.
pub struct Data {
    pub trips: Vec<Trip>,
    pub trips_ix_by_route: Index,
    pub stop_times: Vec<StopTime>,
    pub stop_times_ix_by_trip: Index,
}

impl Data {
    /// Both indices faithfully represent their table's key column:
    /// routes over the trip table, trip ids over the stop-time table.
    pub open spec fn wf(&self) -> bool {
        &&& self.trips_ix_by_route.wf(route_column(self.trips@))
        &&& self.stop_times_ix_by_trip.wf(trip_column(self.stop_times@))
    }

    /// Index both tables and bundle the dataset. The tables are kept
    /// exactly as given, in source order.
    pub fn new(trips: Vec<Trip>, stop_times: Vec<StopTime>) -> (d: Data)
        ensures
            d.trips == trips,
            d.stop_times == stop_times,
            d.wf(),
    {
        let route_keys = column_route_ids(&trips);
        let trip_keys = column_trip_ids(&stop_times);
        let trips_ix_by_route = Index::build(&route_keys);
        let stop_times_ix_by_trip = Index::build(&trip_keys);
        Data { trips, trips_ix_by_route, stop_times, stop_times_ix_by_trip }
    }
}

/// The route-id column of a trip table, as owned strings.
fn column_route_ids(trips: &Vec<Trip>) -> (keys: Vec<String>)
    ensures
        key_views(keys@) == route_column(trips@),
{
    let mut keys: Vec<String> = Vec::new();
    let n = trips.len();
    for i in 0..n
        invariant
            n == trips@.len(),
            keys@.len() == i,
            forall|j: int| 0 <= j < i ==> (#[trigger] keys@[j])@ == trips@[j].route_id@,
    {
        keys.push(trips[i].route_id.clone());
    }
    proof {
        assert(key_views(keys@) =~= route_column(trips@));
    }
    keys
}

/// The trip-id column of a stop-time table, as owned strings.
fn column_trip_ids(stop_times: &Vec<StopTime>) -> (keys: Vec<String>)
    ensures
        key_views(keys@) == trip_column(stop_times@),
{
    let mut keys: Vec<String> = Vec::new();
    let n = stop_times.len();
    for i in 0..n
        invariant
            n == stop_times@.len(),
            keys@.len() == i,
            forall|j: int| 0 <= j < i ==> (#[trigger] keys@[j])@ == stop_times@[j].trip_id@,
    {
        keys.push(stop_times[i].trip_id.clone());
    }
    proof {
        assert(key_views(keys@) =~= trip_column(stop_times@));
    }
    keys
}

} // verus!
