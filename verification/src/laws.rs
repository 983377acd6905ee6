use vstd::prelude::*;
use crate::data::Data;
use crate::index::count_matches;
use crate::index::key_positions;
use crate::index::lemma_key_positions_props;
use crate::records::StopTime;
use crate::records::Trip;
use crate::records::TripResponseModel;
use crate::records::route_column;
use crate::records::trip_column;
use crate::query::indexed_count;
use crate::query::materialized;
use crate::query::response_of;
use crate::query::route_has_trip;
use crate::query::scan_count;
use crate::query::schedule_of;
use crate::query::sum_bucket_lens;

verus! {

/// No two distinct trips of route `r` share a trip id.
pub open spec fn route_trip_ids_distinct(trips: Seq<Trip>, r: Seq<char>) -> bool {
    forall|i: int, j: int|
        0 <= i < trips.len() && 0 <= j < trips.len() && i != j
            && (#[trigger] trips[i]).route_id@ == r && (#[trigger] trips[j]).route_id@ == r
            ==> trips[i].trip_id@ != trips[j].trip_id@
}

/// How many trips of the table serve route `r` under trip id `t`.
pub open spec fn count_route_trips(trips: Seq<Trip>, r: Seq<char>, t: Seq<char>) -> int
    decreases trips.len(),
{
    if trips.len() == 0 {
        0
    } else {
        count_route_trips(trips.drop_last(), r, t) + (if trips.last().route_id@ == r
            && trips.last().trip_id@ == t {
            1int
        } else {
            0int
        })
    }
}

/// How many of the listed positions hold a trip with trip id `t`.
pub open spec fn count_positions_with_trip(trips: Seq<Trip>, ps: Seq<int>, t: Seq<char>) -> int
    decreases ps.len(),
{
    if ps.len() == 0 {
        0
    } else {
        count_positions_with_trip(trips, ps.drop_last(), t) + (if trips[ps.last()].trip_id@
            == t {
            1int
        } else {
            0int
        })
    }
}

/// The joined row count as a sum over stop-time rows: for each, the
/// number of trips of route `r` sharing its trip id.
pub open spec fn pair_count(trips: Seq<Trip>, stop_times: Seq<StopTime>, r: Seq<char>) -> int
    decreases stop_times.len(),
{
    if stop_times.len() == 0 {
        0
    } else {
        pair_count(trips, stop_times.drop_last(), r) + count_route_trips(
            trips,
            r,
            stop_times.last().trip_id@,
        )
    }
}

/// How many schedule entries a materialized result carries in all.
pub open spec fn total_schedules(resps: Seq<TripResponseModel>) -> int
    decreases resps.len(),
{
    if resps.len() == 0 {
        0
    } else {
        total_schedules(resps.drop_last()) + resps.last().schedules.len()
    }
}

proof fn lemma_count_route_trips_nonneg(trips: Seq<Trip>, r: Seq<char>, t: Seq<char>)
    ensures
        0 <= count_route_trips(trips, r, t),
    decreases trips.len(),
{
    if trips.len() > 0 {
        lemma_count_route_trips_nonneg(trips.drop_last(), r, t);
    }
}

/// The count of trips serving `r` under `t` is zero exactly where no such
/// trip exists.
proof fn lemma_count_route_trips_zero(trips: Seq<Trip>, r: Seq<char>, t: Seq<char>)
    ensures
        (count_route_trips(trips, r, t) == 0) <==> !route_has_trip(trips, r, t),
    decreases trips.len(),
{
    if trips.len() == 0 {
    } else {
        let prev = trips.drop_last();
        lemma_count_route_trips_zero(prev, r, t);
        lemma_count_route_trips_nonneg(prev, r, t);
        let l = trips.len() - 1;
        if trips.last().route_id@ == r && trips.last().trip_id@ == t {
            assert(route_has_trip(trips, r, t)) by {
                assert(trips[l].route_id@ == r && trips[l].trip_id@ == t);
            }
        } else {
            assert(route_has_trip(trips, r, t) <==> route_has_trip(prev, r, t)) by {
                if route_has_trip(trips, r, t) {
                    let w = choose|w: int|
                        0 <= w < trips.len() && (#[trigger] trips[w]).route_id@ == r
                            && trips[w].trip_id@ == t;
                    assert(w != l);
                    assert(prev[w].route_id@ == r && prev[w].trip_id@ == t);
                }
                if route_has_trip(prev, r, t) {
                    let w = choose|w: int|
                        0 <= w < prev.len() && (#[trigger] prev[w]).route_id@ == r
                            && prev[w].trip_id@ == t;
                    assert(trips[w].route_id@ == r && trips[w].trip_id@ == t);
                }
            }
        }
    }
}

/// Where no two trips of route `r` share a trip id, the count of trips
/// serving `r` under `t` is the membership indicator.
proof fn lemma_count_route_trips_indicator(trips: Seq<Trip>, r: Seq<char>, t: Seq<char>)
    requires
        route_trip_ids_distinct(trips, r),
    ensures
        count_route_trips(trips, r, t) == if route_has_trip(trips, r, t) {
            1int
        } else {
            0int
        },
    decreases trips.len(),
{
    lemma_count_route_trips_zero(trips, r, t);
    if trips.len() == 0 {
    } else {
        let prev = trips.drop_last();
        let l = trips.len() - 1;
        assert(route_trip_ids_distinct(prev, r)) by {
            assert forall|i: int, j: int|
                0 <= i < prev.len() && 0 <= j < prev.len() && i != j
                    && (#[trigger] prev[i]).route_id@ == r && (#[trigger] prev[j]).route_id@ == r
                implies prev[i].trip_id@ != prev[j].trip_id@ by {
                assert(trips[i] == prev[i] && trips[j] == prev[j]);
            }
        }
        lemma_count_route_trips_indicator(prev, r, t);
        lemma_count_route_trips_zero(prev, r, t);
        if trips.last().route_id@ == r && trips.last().trip_id@ == t {
            assert(!route_has_trip(prev, r, t)) by {
                if route_has_trip(prev, r, t) {
                    let w = choose|w: int|
                        0 <= w < prev.len() && (#[trigger] prev[w]).route_id@ == r
                            && prev[w].trip_id@ == t;
                    assert(trips[w].route_id@ == r && trips[w].trip_id@ == t);
                    assert(trips[l].route_id@ == r && trips[l].trip_id@ == t);
                    assert(trips[w].trip_id@ != trips[l].trip_id@);
                }
            }
            assert(route_has_trip(trips, r, t)) by {
                assert(trips[l].route_id@ == r && trips[l].trip_id@ == t);
            }
        } else {
            assert(route_has_trip(trips, r, t) <==> route_has_trip(prev, r, t)) by {
                if route_has_trip(trips, r, t) {
                    let w = choose|w: int|
                        0 <= w < trips.len() && (#[trigger] trips[w]).route_id@ == r
                            && trips[w].trip_id@ == t;
                    assert(w != l);
                    assert(prev[w].route_id@ == r && prev[w].trip_id@ == t);
                }
                if route_has_trip(prev, r, t) {
                    let w = choose|w: int|
                        0 <= w < prev.len() && (#[trigger] prev[w]).route_id@ == r
                            && prev[w].trip_id@ == t;
                    assert(trips[w].route_id@ == r && trips[w].trip_id@ == t);
                }
            }
        }
    }
}

/// Where no two trips of route `r` share a trip id, the scan count equals
/// the pair count.
proof fn lemma_scan_eq_pair(trips: Seq<Trip>, stop_times: Seq<StopTime>, r: Seq<char>)
    requires
        route_trip_ids_distinct(trips, r),
    ensures
        scan_count(trips, stop_times, r) == pair_count(trips, stop_times, r),
    decreases stop_times.len(),
{
    if stop_times.len() > 0 {
        lemma_scan_eq_pair(trips, stop_times.drop_last(), r);
        lemma_count_route_trips_indicator(trips, r, stop_times.last().trip_id@);
    }
}

/// Extending the indexed key column by one key grows each bucket sum by
/// the number of listed positions holding that key.
proof fn lemma_sum_push_key(trips: Seq<Trip>, tk: Seq<Seq<char>>, ps: Seq<int>, t: Seq<char>)
    ensures
        sum_bucket_lens(trips, tk.push(t), ps) == sum_bucket_lens(trips, tk, ps)
            + count_positions_with_trip(trips, ps, t),
    decreases ps.len(),
{
    if ps.len() > 0 {
        lemma_sum_push_key(trips, tk, ps.drop_last(), t);
        assert(tk.push(t).drop_last() =~= tk);
        assert(tk.push(t).last() == t);
    }
}

/// Removing the table's last trip leaves the position counts unchanged as
/// long as every listed position lies before it.
proof fn lemma_count_positions_drop_last(trips: Seq<Trip>, ps: Seq<int>, t: Seq<char>)
    requires
        trips.len() > 0,
        forall|x: int| 0 <= x < ps.len() ==> 0 <= #[trigger] ps[x] < trips.len() - 1,
    ensures
        count_positions_with_trip(trips, ps, t) == count_positions_with_trip(
            trips.drop_last(),
            ps,
            t,
        ),
    decreases ps.len(),
{
    if ps.len() > 0 {
        assert(forall|x: int| 0 <= x < ps.drop_last().len() ==> 0 <= #[trigger] ps.drop_last()[x]
            < trips.len() - 1);
        lemma_count_positions_drop_last(trips, ps.drop_last(), t);
        assert(trips.drop_last()[ps.last()] == trips[ps.last()]);
    }
}

/// The route bucket's positions holding trip id `t` are exactly the trips
/// serving route `r` under `t`.
proof fn lemma_count_positions_eq_route_trips(trips: Seq<Trip>, r: Seq<char>, t: Seq<char>)
    ensures
        count_positions_with_trip(trips, key_positions(route_column(trips), r), t)
            == count_route_trips(trips, r, t),
    decreases trips.len(),
{
    if trips.len() == 0 {
        assert(route_column(trips) =~= Seq::<Seq<char>>::empty());
    } else {
        let prev = trips.drop_last();
        let rc = route_column(trips);
        let rcp = route_column(prev);
        assert(rc.drop_last() =~= rcp);
        assert(rc.last() == trips.last().route_id@);
        let kp = key_positions(rc, r);
        let kpp = key_positions(rcp, r);
        lemma_count_positions_eq_route_trips(prev, r, t);
        lemma_key_positions_props(rcp, r);
        assert(forall|x: int| 0 <= x < kpp.len() ==> 0 <= #[trigger] kpp[x] < trips.len() - 1);
        lemma_count_positions_drop_last(trips, kpp, t);
        if trips.last().route_id@ == r {
            assert(kp == kpp.push(rc.len() - 1));
            assert(kp.drop_last() =~= kpp);
            assert(kp.last() == trips.len() - 1);
            assert(trips[kp.last()] == trips.last());
        } else {
            assert(kp == kpp);
        }
    }
}

/// The indexed count equals the pair count, with no hypothesis: the two
/// orders of summing the same joined pairs.
proof fn lemma_indexed_eq_pair(trips: Seq<Trip>, stop_times: Seq<StopTime>, r: Seq<char>)
    ensures
        indexed_count(trips, stop_times, r) == pair_count(trips, stop_times, r),
    decreases stop_times.len(),
{
    let kp = key_positions(route_column(trips), r);
    if stop_times.len() == 0 {
        assert(trip_column(stop_times) =~= Seq::<Seq<char>>::empty());
        lemma_sum_empty_keys(trips, kp);
    } else {
        let prev = stop_times.drop_last();
        let t = stop_times.last().trip_id@;
        lemma_indexed_eq_pair(trips, prev, r);
        assert(trip_column(stop_times) =~= trip_column(prev).push(t));
        lemma_sum_push_key(trips, trip_column(prev), kp, t);
        lemma_count_positions_eq_route_trips(trips, r, t);
    }
}

/// Over an empty key column every bucket is empty, so the sum is zero.
proof fn lemma_sum_empty_keys(trips: Seq<Trip>, ps: Seq<int>)
    ensures
        sum_bucket_lens(trips, Seq::<Seq<char>>::empty(), ps) == 0,
    decreases ps.len(),
{
    if ps.len() > 0 {
        lemma_sum_empty_keys(trips, ps.drop_last());
    }
}

/// A materialized result over the listed positions carries as many
/// schedule entries in all as the indexed strategy sums over them.
proof fn lemma_total_eq_sum(trips: Seq<Trip>, stop_times: Seq<StopTime>, ps: Seq<int>)
    ensures
        total_schedules(ps.map_values(|p: int| response_of(trips, stop_times, p)))
            == sum_bucket_lens(trips, trip_column(stop_times), ps),
    decreases ps.len(),
{
    if ps.len() > 0 {
        lemma_total_eq_sum(trips, stop_times, ps.drop_last());
        let f = |p: int| response_of(trips, stop_times, p);
        assert(ps.map_values(f).drop_last() =~= ps.drop_last().map_values(f));
        assert(ps.map_values(f).last() == f(ps.last()));
        lemma_key_positions_props(trip_column(stop_times), trips[ps.last()].trip_id@);
    }
}

/// The materializing strategy's total number of schedule entries equals
/// the indexed count, on every dataset and every route.
pub proof fn lemma_materialized_size(trips: Seq<Trip>, stop_times: Seq<StopTime>, r: Seq<char>)
    ensures
        total_schedules(materialized(trips, stop_times, r)) == indexed_count(
            trips,
            stop_times,
            r,
        ),
{
    lemma_total_eq_sum(trips, stop_times, key_positions(route_column(trips), r));
}

/// Join equivalence: wherever no two trips of route `r` share a trip id,
/// the three strategies agree — the linear scan's count, the indexed
/// count, and the number of schedule entries the materialized result
/// carries in all are one number.
pub proof fn lemma_join_equivalence(trips: Seq<Trip>, stop_times: Seq<StopTime>, r: Seq<char>)
    requires
        route_trip_ids_distinct(trips, r),
    ensures
        indexed_count(trips, stop_times, r) == scan_count(trips, stop_times, r),
        total_schedules(materialized(trips, stop_times, r)) == scan_count(trips, stop_times, r),
{
    lemma_scan_eq_pair(trips, stop_times, r);
    lemma_indexed_eq_pair(trips, stop_times, r);
    lemma_materialized_size(trips, stop_times, r);
}

/// Unknown-key safety: a route id that no trip row carries yields count
/// zero under both counting strategies and an empty materialized result.
pub proof fn lemma_unknown_route(trips: Seq<Trip>, stop_times: Seq<StopTime>, r: Seq<char>)
    requires
        forall|i: int| 0 <= i < trips.len() ==> (#[trigger] trips[i]).route_id@ != r,
    ensures
        scan_count(trips, stop_times, r) == 0,
        indexed_count(trips, stop_times, r) == 0,
        materialized(trips, stop_times, r).len() == 0,
{
    let rc = route_column(trips);
    lemma_key_positions_props(rc, r);
    assert(key_positions(rc, r) =~= Seq::<int>::empty()) by {
        if key_positions(rc, r).len() > 0 {
            let p = key_positions(rc, r)[0];
            assert(rc[p] == r);
            assert(trips[p].route_id@ != r);
        }
    }
    lemma_scan_count_zero(trips, stop_times, r);
}

proof fn lemma_scan_count_zero(trips: Seq<Trip>, stop_times: Seq<StopTime>, r: Seq<char>)
    requires
        forall|i: int| 0 <= i < trips.len() ==> (#[trigger] trips[i]).route_id@ != r,
    ensures
        scan_count(trips, stop_times, r) == 0,
    decreases stop_times.len(),
{
    if stop_times.len() > 0 {
        lemma_scan_count_zero(trips, stop_times.drop_last(), r);
        assert(!route_has_trip(trips, r, stop_times.last().trip_id@));
    }
}

/// Index completeness: under a well-formed dataset the route index lists,
/// for route `r`, exactly the positions of the trip rows carrying `r` —
/// each such position once, in increasing source order — and its length
/// is the number of such rows.
pub proof fn lemma_index_completeness(d: Data, r: Seq<char>)
    requires
        d.wf(),
    ensures
        d.trips_ix_by_route.positions_of(r) == key_positions(route_column(d.trips@), r),
        forall|n: int| 0 <= n < key_positions(route_column(d.trips@), r).len() ==> {
            let p = #[trigger] key_positions(route_column(d.trips@), r)[n];
            0 <= p < d.trips@.len() && d.trips@[p].route_id@ == r
        },
        forall|a: int, b: int|
            0 <= a < b < key_positions(route_column(d.trips@), r).len()
                ==> #[trigger] key_positions(route_column(d.trips@), r)[a]
                < #[trigger] key_positions(route_column(d.trips@), r)[b],
        forall|p: int| 0 <= p < d.trips@.len() && (#[trigger] d.trips@[p]).route_id@ == r
            ==> key_positions(route_column(d.trips@), r).contains(p),
        key_positions(route_column(d.trips@), r).len() == count_matches(
            route_column(d.trips@),
            r,
        ),
{
    let rc = route_column(d.trips@);
    d.trips_ix_by_route.lemma_wf_positions(rc, r);
    lemma_key_positions_props(rc, r);
    assert forall|p: int| 0 <= p < d.trips@.len() && (#[trigger] d.trips@[p]).route_id@ == r
        implies key_positions(rc, r).contains(p) by {
        assert(rc[p] == d.trips@[p].route_id@);
    }
}

/// Order preservation across trips: the materialized result lists trips
/// in the source order of the trip table — of two response objects, the
/// earlier one's trip position in the table is the smaller.
pub proof fn lemma_order_preservation(
    trips: Seq<Trip>,
    stop_times: Seq<StopTime>,
    r: Seq<char>,
    a: int,
    b: int,
)
    requires
        0 <= a < b < materialized(trips, stop_times, r).len(),
    ensures
        key_positions(route_column(trips), r)[a] < key_positions(route_column(trips), r)[b],
        materialized(trips, stop_times, r)[a] == response_of(
            trips,
            stop_times,
            key_positions(route_column(trips), r)[a],
        ),
        materialized(trips, stop_times, r)[b] == response_of(
            trips,
            stop_times,
            key_positions(route_column(trips), r)[b],
        ),
{
    lemma_key_positions_props(route_column(trips), r);
}

/// Order preservation within a trip: a response object's schedule entries
/// follow the source order of the stop-time table — the entry at `a`
/// comes from an earlier stop-time row than the entry at `b`.
pub proof fn lemma_schedule_order_preservation(
    trips: Seq<Trip>,
    stop_times: Seq<StopTime>,
    r: Seq<char>,
    x: int,
    a: int,
    b: int,
)
    requires
        0 <= x < materialized(trips, stop_times, r).len(),
        0 <= a < b < materialized(trips, stop_times, r)[x].schedules.len(),
    ensures
        ({
            let p = key_positions(route_column(trips), r)[x];
            let qs = key_positions(trip_column(stop_times), trips[p].trip_id@);
            &&& qs[a] < qs[b]
            &&& materialized(trips, stop_times, r)[x].schedules[a] == schedule_of(
                stop_times[qs[a]])
            &&& materialized(trips, stop_times, r)[x].schedules[b] == schedule_of(
                stop_times[qs[b]])
        }),
{
    lemma_key_positions_props(route_column(trips), r);
    let p = key_positions(route_column(trips), r)[x];
    lemma_key_positions_props(trip_column(stop_times), trips[p].trip_id@);
}

/// Idempotence: each strategy's answer is a pure function of the loaded
/// dataset and the queried route, so two runs of the same query against
/// the same data are equal, entry for entry. No query mutates the data:
/// every query function takes the dataset by shared reference.
pub proof fn lemma_query_idempotent(
    d: Data,
    r: Seq<char>,
    count1: int,
    count2: int,
    out1: Seq<TripResponseModel>,
    out2: Seq<TripResponseModel>,
)
    requires
        count1 == indexed_count(d.trips@, d.stop_times@, r),
        count2 == indexed_count(d.trips@, d.stop_times@, r),
        out1 == materialized(d.trips@, d.stop_times@, r),
        out2 == materialized(d.trips@, d.stop_times@, r),
    ensures
        count1 == count2,
        out1 == out2,
{
}

} // verus!
