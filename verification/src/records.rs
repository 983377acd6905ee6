use vstd::prelude::*;

verus! {

/// A trip row: the trip's identifier, the route it runs on, and the
/// service calendar it belongs to. Identity is positional within the
/// trip table; `trip_id` serves as the join key towards stop-times.
#[derive(Debug, PartialEq, Eq)]
pub struct Trip {
    pub trip_id: String,
    pub route_id: String,
    pub service_id: String,
}

/// The mathematical value of a `Trip`: its three fields as character
/// sequences.
pub struct TripModel {
    pub trip_id: Seq<char>,
    pub route_id: Seq<char>,
    pub service_id: Seq<char>,
}

impl View for Trip {
    type V = TripModel;

    open spec fn view(&self) -> TripModel {
        TripModel {
            trip_id: self.trip_id@,
            route_id: self.route_id@,
            service_id: self.service_id@,
        }
    }
}

/// A stop-time row: which trip it belongs to, the stop, and the arrival
/// and departure times kept as opaque strings. Identity is positional
/// within the stop-time table.
#[derive(Debug, PartialEq, Eq)]
pub struct StopTime {
    pub trip_id: String,
    pub stop_id: String,
    pub arrival: String,
    pub departure: String,
}

/// The mathematical value of a `StopTime`.
pub struct StopTimeModel {
    pub trip_id: Seq<char>,
    pub stop_id: Seq<char>,
    pub arrival: Seq<char>,
    pub departure: Seq<char>,
}

impl View for StopTime {
    type V = StopTimeModel;

    open spec fn view(&self) -> StopTimeModel {
        StopTimeModel {
            trip_id: self.trip_id@,
            stop_id: self.stop_id@,
            arrival: self.arrival@,
            departure: self.departure@,
        }
    }
}

/// One schedule entry of a materialized query result, copied from a
/// stop-time row.
#[derive(Debug, PartialEq, Eq)]
pub struct ScheduleResponse {
    pub stop_id: String,
    pub arrival_time: String,
    pub departure_time: String,
}

/// The mathematical value of a `ScheduleResponse`.
pub struct ScheduleResponseModel {
    pub stop_id: Seq<char>,
    pub arrival_time: Seq<char>,
    pub departure_time: Seq<char>,
}

impl View for ScheduleResponse {
    type V = ScheduleResponseModel;

    open spec fn view(&self) -> ScheduleResponseModel {
        ScheduleResponseModel {
            stop_id: self.stop_id@,
            arrival_time: self.arrival_time@,
            departure_time: self.departure_time@,
        }
    }
}

/// One trip of a materialized query result: the trip's own fields and,
/// in source order, a schedule entry per stop-time row of that trip.
#[derive(Debug, PartialEq, Eq)]
pub struct TripResponse {
    pub trip_id: String,
    pub service_id: String,
    pub route_id: String,
    pub schedules: Vec<ScheduleResponse>,
}

/// The mathematical value of a `TripResponse`.
pub struct TripResponseModel {
    pub trip_id: Seq<char>,
    pub service_id: Seq<char>,
    pub route_id: Seq<char>,
    pub schedules: Seq<ScheduleResponseModel>,
}

impl View for TripResponse {
    type V = TripResponseModel;

    open spec fn view(&self) -> TripResponseModel {
        TripResponseModel {
            trip_id: self.trip_id@,
            service_id: self.service_id@,
            route_id: self.route_id@,
            schedules: self.schedules@.map_values(|s: ScheduleResponse| s@),
        }
    }
}

/// The route-id column of a trip table.
pub open spec fn route_column(trips: Seq<Trip>) -> Seq<Seq<char>> {
    trips.map_values(|t: Trip| t.route_id@)
}

/// The trip-id column of a stop-time table.
pub open spec fn trip_column(stop_times: Seq<StopTime>) -> Seq<Seq<char>> {
    stop_times.map_values(|st: StopTime| st.trip_id@)
}

} // verus!
