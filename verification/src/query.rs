use vstd::prelude::*;
use crate::data::Data;
use crate::index::count_matches;
use crate::index::key_positions;
use crate::index::lemma_key_positions_props;
use crate::records::ScheduleResponse;
use crate::records::ScheduleResponseModel;
use crate::records::StopTime;
use crate::records::Trip;
use crate::records::TripResponse;
use crate::records::TripResponseModel;
use crate::records::route_column;
use crate::records::trip_column;

verus! {

/// Whether some trip of the table serves route `r` under trip id `tid`.
pub open spec fn route_has_trip(trips: Seq<Trip>, r: Seq<char>, tid: Seq<char>) -> bool {
    exists|i: int| 0 <= i < trips.len()
        && (#[trigger] trips[i]).route_id@ == r && trips[i].trip_id@ == tid
}

/// What the linear-scan strategy counts: the stop-time rows, scanned in
/// order, whose trip id belongs to some trip of route `r`.
pub open spec fn scan_count(trips: Seq<Trip>, stop_times: Seq<StopTime>, r: Seq<char>) -> int
    decreases stop_times.len(),
{
    if stop_times.len() == 0 {
        0
    } else {
        scan_count(trips, stop_times.drop_last(), r)
            + (if route_has_trip(trips, r, stop_times.last().trip_id@) { 1int } else { 0int })
    }
}

/// What the indexed count strategy sums: over the listed trip positions,
/// the length of each trip's stop-time bucket.
pub open spec fn sum_bucket_lens(trips: Seq<Trip>, tk: Seq<Seq<char>>, ps: Seq<int>) -> int
    decreases ps.len(),
{
    if ps.len() == 0 {
        0
    } else {
        sum_bucket_lens(trips, tk, ps.drop_last()) + count_matches(tk, trips[ps.last()].trip_id@)
    }
}

/// The indexed count strategy's answer for route `r`: the sum, over the
/// positions of `r`'s bucket in the route index, of the length of that
/// trip's bucket in the trip index.
pub open spec fn indexed_count(trips: Seq<Trip>, stop_times: Seq<StopTime>, r: Seq<char>) -> int {
    sum_bucket_lens(trips, trip_column(stop_times), key_positions(route_column(trips), r))
}

/// The schedule entry a stop-time row materializes to.
pub open spec fn schedule_of(st: StopTime) -> ScheduleResponseModel {
    ScheduleResponseModel {
        stop_id: st.stop_id@,
        arrival_time: st.arrival@,
        departure_time: st.departure@,
    }
}

/// The response object the trip at position `p` materializes to: the
/// trip's own fields and one schedule entry per stop-time position of its
/// trip id, in source order.
pub open spec fn response_of(trips: Seq<Trip>, stop_times: Seq<StopTime>, p: int) -> TripResponseModel {
    TripResponseModel {
        trip_id: trips[p].trip_id@,
        service_id: trips[p].service_id@,
        route_id: trips[p].route_id@,
        schedules: key_positions(trip_column(stop_times), trips[p].trip_id@)
            .map_values(|q: int| schedule_of(stop_times[q])),
    }
}

/// The materializing strategy's answer for route `r`: one response per
/// position of `r`'s bucket in the route index, in source order.
pub open spec fn materialized(trips: Seq<Trip>, stop_times: Seq<StopTime>, r: Seq<char>) -> Seq<
    TripResponseModel,
> {
    key_positions(route_column(trips), r).map_values(|p: int| response_of(trips, stop_times, p))
}

/// Whether some element of `v` holds exactly the characters of `s`.
fn contains_string(v: &Vec<String>, s: &String) -> (r: bool)
    ensures
        r == exists|j: int| 0 <= j < v@.len() && (#[trigger] v@[j])@ == s@,
{
    let n = v.len();
    for j in 0..n
        invariant
            n == v@.len(),
            forall|k: int| 0 <= k < j ==> (#[trigger] v@[k])@ != s@,
    {
        if v[j] == *s {
            return true;
        }
    }
    false
}

/// One scan step extends the count by exactly the new row's membership.
proof fn lemma_scan_count_take_step(
    trips: Seq<Trip>,
    stop_times: Seq<StopTime>,
    r: Seq<char>,
    q: int,
)
    requires
        0 <= q < stop_times.len(),
    ensures
        scan_count(trips, stop_times.take(q + 1), r) == scan_count(trips, stop_times.take(q), r)
            + (if route_has_trip(trips, r, stop_times[q].trip_id@) { 1int } else { 0int }),
{
    assert(stop_times.take(q + 1).drop_last() =~= stop_times.take(q));
    assert(stop_times.take(q + 1).last() == stop_times[q]);
}

/// Linear-scan strategy: collect the trip ids of route `r` by one pass
/// over the trip table, then count, in one pass over the stop-time table,
/// the rows whose trip id is among them. A correctness baseline whose
/// cost is independent of the answer's size.
pub fn scan_schedule_count(
    trips: &Vec<Trip>,
    stop_times: &Vec<StopTime>,
    route_id: &String,
) -> (n: usize)
    ensures
        n == scan_count(trips@, stop_times@, route_id@),
{
    let mut ids: Vec<String> = Vec::new();
    let tn = trips.len();
    for i in 0..tn
        invariant
            tn == trips@.len(),
            forall|j: int| 0 <= j < ids@.len() ==> route_has_trip(
                trips@.take(i as int),
                route_id@,
                (#[trigger] ids@[j])@,
            ),
            forall|t: int| 0 <= t < i && (#[trigger] trips@[t]).route_id@ == route_id@ ==>
                exists|j: int| 0 <= j < ids@.len() && (#[trigger] ids@[j])@ == trips@[t].trip_id@,
    {
        let ghost pre = ids@;
        if trips[i].route_id == *route_id {
            ids.push(trips[i].trip_id.clone());
            proof {
                let j = ids@.len() - 1;
                assert(ids@[j]@ == trips@[i as int].trip_id@);
                assert(trips@.take(i + 1)[i as int] == trips@[i as int]);
            }
        }
        proof {
            assert forall|j: int| 0 <= j < ids@.len() implies route_has_trip(
                trips@.take(i + 1),
                route_id@,
                (#[trigger] ids@[j])@,
            ) by {
                if j < pre.len() {
                    assert(ids@[j] == pre[j]);
                    assert(route_has_trip(trips@.take(i as int), route_id@, pre[j]@));
                    let w = choose|w: int| 0 <= w < trips@.take(i as int).len()
                        && (#[trigger] trips@.take(i as int)[w]).route_id@ == route_id@
                        && trips@.take(i as int)[w].trip_id@ == pre[j]@;
                    assert(trips@.take(i + 1)[w] == trips@[w]);
                } else {
                    assert(trips@.take(i + 1)[i as int] == trips@[i as int]);
                }
            }
            assert forall|t: int| 0 <= t < i + 1 && (#[trigger] trips@[t]).route_id@ == route_id@
                implies exists|j: int| 0 <= j < ids@.len() && (#[trigger] ids@[j])@
                    == trips@[t].trip_id@ by {
                if t < i {
                    let j = choose|j: int| 0 <= j < pre.len() && (#[trigger] pre[j])@
                        == trips@[t].trip_id@;
                    assert(ids@[j]@ == trips@[t].trip_id@);
                } else {
                    assert(ids@[ids@.len() - 1]@ == trips@[t].trip_id@);
                }
            }
        }
    }
    proof {
        assert(trips@.take(tn as int) =~= trips@);
    }
    let mut n: usize = 0;
    let sn = stop_times.len();
    for q in 0..sn
        invariant
            sn == stop_times@.len(),
            tn == trips@.len(),
            n <= q,
            n == scan_count(trips@, stop_times@.take(q as int), route_id@),
            forall|j: int| 0 <= j < ids@.len() ==> route_has_trip(
                trips@,
                route_id@,
                (#[trigger] ids@[j])@,
            ),
            forall|t: int| 0 <= t < trips@.len() && (#[trigger] trips@[t]).route_id@ == route_id@
                ==> exists|j: int| 0 <= j < ids@.len() && (#[trigger] ids@[j])@
                    == trips@[t].trip_id@,
    {
        let member = contains_string(&ids, &stop_times[q].trip_id);
        proof {
            lemma_scan_count_take_step(trips@, stop_times@, route_id@, q as int);
            if member {
                let j = choose|j: int| 0 <= j < ids@.len() && (#[trigger] ids@[j])@
                    == stop_times@[q as int].trip_id@;
                assert(route_has_trip(trips@, route_id@, stop_times@[q as int].trip_id@));
            } else {
                if route_has_trip(trips@, route_id@, stop_times@[q as int].trip_id@) {
                    let t = choose|t: int| 0 <= t < trips@.len()
                        && (#[trigger] trips@[t]).route_id@ == route_id@
                        && trips@[t].trip_id@ == stop_times@[q as int].trip_id@;
                    assert(exists|j: int| 0 <= j < ids@.len() && (#[trigger] ids@[j])@
                        == trips@[t].trip_id@);
                    assert(false);
                }
            }
        }
        if member {
            n = n + 1;
        }
    }
    proof {
        assert(stop_times@.take(sn as int) =~= stop_times@);
    }
    n
}

/// A bucket length is never negative.
proof fn lemma_count_matches_nonneg(tk: Seq<Seq<char>>, k: Seq<char>)
    ensures
        0 <= count_matches(tk, k),
    decreases tk.len(),
{
    if tk.len() > 0 {
        lemma_count_matches_nonneg(tk.drop_last(), k);
    }
}

/// One indexed step extends the sum by exactly the next trip's bucket
/// length.
proof fn lemma_sum_take_step(trips: Seq<Trip>, tk: Seq<Seq<char>>, ps: Seq<int>, k: int)
    requires
        0 <= k < ps.len(),
    ensures
        sum_bucket_lens(trips, tk, ps.take(k + 1)) == sum_bucket_lens(trips, tk, ps.take(k))
            + count_matches(tk, trips[ps[k]].trip_id@),
{
    assert(ps.take(k + 1).drop_last() =~= ps.take(k));
    assert(ps.take(k + 1).last() == ps[k]);
}

/// Every partial sum of the indexed strategy is at most the total, since
/// every term is a bucket length and so nonnegative.
proof fn lemma_sum_prefix_le(trips: Seq<Trip>, tk: Seq<Seq<char>>, ps: Seq<int>, k: int)
    requires
        0 <= k <= ps.len(),
    ensures
        sum_bucket_lens(trips, tk, ps.take(k)) <= sum_bucket_lens(trips, tk, ps),
    decreases ps.len() - k,
{
    if k < ps.len() {
        lemma_sum_take_step(trips, tk, ps, k);
        lemma_count_matches_nonneg(tk, trips[ps[k]].trip_id@);
        lemma_sum_prefix_le(trips, tk, ps, k + 1);
    } else {
        assert(ps.take(k) =~= ps);
    }
}

/// Indexed count strategy, guarded against machine overflow: the result
/// is `None` exactly where the mathematical count exceeds `usize::MAX`,
/// and the exact count otherwise. Cost is proportional to the number of
/// matching trips, not to the tables' size.
pub fn try_indexed_schedule_count(data: &Data, route_id: &String) -> (r: Option<usize>)
    requires
        data.wf(),
    ensures
        match r {
            Some(n) => n == indexed_count(data.trips@, data.stop_times@, route_id@),
            None => indexed_count(data.trips@, data.stop_times@, route_id@) > usize::MAX,
        },
{
    let ghost rc = route_column(data.trips@);
    let ghost tk = trip_column(data.stop_times@);
    let ghost rps = key_positions(rc, route_id@);
    proof {
        data.trips_ix_by_route.lemma_wf_positions(rc, route_id@);
        lemma_key_positions_props(rc, route_id@);
    }
    match data.trips_ix_by_route.get(route_id) {
        None => {
            proof {
                assert(rps =~= Seq::<int>::empty());
            }
            Some(0)
        },
        Some(ps) => {
            let m = ps.len();
            let mut acc: usize = 0;
            for k in 0..m
                invariant
                    data.wf(),
                    m == ps@.len(),
                    ps@.map_values(|p: usize| p as int) == rps,
                    rps == key_positions(route_column(data.trips@), route_id@),
                    tk == trip_column(data.stop_times@),
                    forall|x: int| 0 <= x < rps.len() ==> 0 <= #[trigger] rps[x]
                        < data.trips@.len(),
                    acc == sum_bucket_lens(data.trips@, tk, rps.take(k as int)),
            {
                let p = ps[k];
                proof {
                    assert(ps@.map_values(|q: usize| q as int)[k as int] == rps[k as int]);
                }
                let trip = &data.trips[p];
                proof {
                    data.stop_times_ix_by_trip.lemma_wf_positions(tk, trip.trip_id@);
                    lemma_key_positions_props(tk, trip.trip_id@);
                    lemma_sum_take_step(data.trips@, tk, rps, k as int);
                }
                let len = match data.stop_times_ix_by_trip.get(&trip.trip_id) {
                    Some(qs) => qs.len(),
                    None => 0,
                };
                proof {
                    assert(len == count_matches(tk, trip.trip_id@));
                }
                match acc.checked_add(len) {
                    Some(a) => {
                        acc = a;
                    },
                    None => {
                        proof {
                            lemma_sum_prefix_le(data.trips@, tk, rps, k + 1);
                        }
                        return None;
                    },
                }
            }
            proof {
                assert(rps.take(m as int) =~= rps);
            }
            Some(acc)
        },
    }
}

/// Indexed count strategy. The result is the answer's exact size, which
/// the caller must know to fit a machine word; `try_indexed_schedule_count`
/// decides that at run time instead.
pub fn indexed_schedule_count(data: &Data, route_id: &String) -> (n: usize)
    requires
        data.wf(),
        indexed_count(data.trips@, data.stop_times@, route_id@) <= usize::MAX,
    ensures
        n == indexed_count(data.trips@, data.stop_times@, route_id@),
{
    match try_indexed_schedule_count(data, route_id) {
        Some(n) => n,
        None => {
            proof {
                assert(false);
            }
            0
        },
    }
}

/// Indexed materializing strategy: the same traversal as the indexed
/// count, but building, per trip of route `r` in source order, a response
/// object with the trip's fields and its stop-time entries in source
/// order. A trip without stop-time entries still appears, with an empty
/// schedule list. An unknown route yields the empty sequence, never an
/// error.
pub fn schedules_for_route(data: &Data, route_id: &String) -> (result: Vec<TripResponse>)
    requires
        data.wf(),
    ensures
        result@.map_values(|t: TripResponse| t@) == materialized(
            data.trips@,
            data.stop_times@,
            route_id@,
        ),
{
    let ghost rc = route_column(data.trips@);
    let ghost tk = trip_column(data.stop_times@);
    let ghost rps = key_positions(rc, route_id@);
    proof {
        data.trips_ix_by_route.lemma_wf_positions(rc, route_id@);
        lemma_key_positions_props(rc, route_id@);
    }
    let mut result: Vec<TripResponse> = Vec::new();
    match data.trips_ix_by_route.get(route_id) {
        None => {
            proof {
                assert(rps =~= Seq::<int>::empty());
                assert(result@.map_values(|t: TripResponse| t@) =~= materialized(
                    data.trips@,
                    data.stop_times@,
                    route_id@,
                ));
            }
            result
        },
        Some(ps) => {
            let m = ps.len();
            for k in 0..m
                invariant
                    data.wf(),
                    m == ps@.len(),
                    ps@.map_values(|p: usize| p as int) == rps,
                    rps == key_positions(route_column(data.trips@), route_id@),
                    tk == trip_column(data.stop_times@),
                    forall|x: int| 0 <= x < rps.len() ==> 0 <= #[trigger] rps[x]
                        < data.trips@.len(),
                    result@.map_values(|t: TripResponse| t@) == rps.take(k as int).map_values(
                        |p: int| response_of(data.trips@, data.stop_times@, p),
                    ),
            {
                let p = ps[k];
                proof {
                    assert(ps@.map_values(|q: usize| q as int)[k as int] == rps[k as int]);
                }
                let trip = &data.trips[p];
                proof {
                    data.stop_times_ix_by_trip.lemma_wf_positions(tk, trip.trip_id@);
                    lemma_key_positions_props(tk, trip.trip_id@);
                }
                let ghost qps = key_positions(tk, trip.trip_id@);
                let mut schedules: Vec<ScheduleResponse> = Vec::new();
                match data.stop_times_ix_by_trip.get(&trip.trip_id) {
                    None => {
                        proof {
                            assert(qps =~= Seq::<int>::empty());
                            assert(schedules@.map_values(|s: ScheduleResponse| s@) =~= qps
                                .map_values(|q: int| schedule_of(data.stop_times@[q])));
                        }
                    },
                    Some(qs) => {
                        let w = qs.len();
                        for l in 0..w
                            invariant
                                w == qs@.len(),
                                qs@.map_values(|q: usize| q as int) == qps,
                                qps == key_positions(
                                    trip_column(data.stop_times@),
                                    trip.trip_id@,
                                ),
                                tk == trip_column(data.stop_times@),
                                forall|x: int| 0 <= x < qps.len() ==> 0 <= #[trigger] qps[x]
                                    < data.stop_times@.len(),
                                schedules@.map_values(|s: ScheduleResponse| s@) == qps.take(
                                    l as int,
                                ).map_values(|q: int| schedule_of(data.stop_times@[q])),
                        {
                            let q = qs[l];
                            proof {
                                assert(qs@.map_values(|x: usize| x as int)[l as int]
                                    == qps[l as int]);
                            }
                            let st = &data.stop_times[q];
                            let ghost presched = schedules@;
                            schedules.push(ScheduleResponse {
                                stop_id: st.stop_id.clone(),
                                arrival_time: st.arrival.clone(),
                                departure_time: st.departure.clone(),
                            });
                            proof {
                                assert(schedules@.last()@ == schedule_of(
                                    data.stop_times@[qps[l as int]],
                                ));
                                assert(schedules@.map_values(|s: ScheduleResponse| s@)
                                    =~= presched.map_values(|s: ScheduleResponse| s@).push(
                                    schedules@.last()@,
                                ));
                                assert(qps.take(l + 1) =~= qps.take(l as int).push(
                                    qps[l as int],
                                ));
                                assert(qps.take(l + 1).map_values(
                                    |q: int| schedule_of(data.stop_times@[q]),
                                ) =~= qps.take(l as int).map_values(
                                    |q: int| schedule_of(data.stop_times@[q]),
                                ).push(schedule_of(data.stop_times@[qps[l as int]])));
                            }
                        }
                        proof {
                            assert(qps.take(w as int) =~= qps);
                        }
                    },
                }
                let ghost preres = result@;
                result.push(TripResponse {
                    trip_id: trip.trip_id.clone(),
                    service_id: trip.service_id.clone(),
                    route_id: trip.route_id.clone(),
                    schedules,
                });
                proof {
                    assert(result@.last()@ == response_of(
                        data.trips@,
                        data.stop_times@,
                        rps[k as int],
                    ));
                    assert(result@.map_values(|t: TripResponse| t@) =~= preres.map_values(
                        |t: TripResponse| t@,
                    ).push(result@.last()@));
                    assert(rps.take(k + 1) =~= rps.take(k as int).push(rps[k as int]));
                    assert(rps.take(k + 1).map_values(
                        |p: int| response_of(data.trips@, data.stop_times@, p),
                    ) =~= rps.take(k as int).map_values(
                        |p: int| response_of(data.trips@, data.stop_times@, p),
                    ).push(response_of(data.trips@, data.stop_times@, rps[k as int])));
                }
            }
            proof {
                assert(rps.take(m as int) =~= rps);
            }
            result
        },
    }
}

} // verus!
