use vstd::prelude::*;
use crate::model::{
    component_at, ComponentView, LinkKind, RouteProfilePoint, ScheduleView, StopFacilityView, TripView,
    WorldView,
};
use crate::growth::{
    extends, grown, grows, lemma_add_trip_grows, lemma_add_trips_grows, lemma_expand_routes_grows,
    lemma_grows_linked, lemma_grows_spawned, lemma_grows_trans, lemma_grows_with_schedule,
    lemma_stop_departures_grow, schedule_grows,
};
use crate::trips::{
    add_stop_departures, add_trip, add_trips, create_trips_spec, expand_routes, headsign_of,
    line_name_of, profile_points, sort_by_offset, stop_departure, trip_id,
};
use crate::loader::or_empty;
use crate::wellformed::{is_route, lemma_relations_grow, trip_of_route};

verus! {

/// Whether entity `s`, when it is a stop facility, lists departure `e`.
pub open spec fn stop_lists(w: WorldView, s: usize, e: usize) -> bool {
    match component_at(w, s) {
        Some(ComponentView::StopFacility(f)) => f.departures.contains(e),
        _ => true,
    }
}

/// Whether entity `t` is a trip of route `r` that lists departure `e`.
pub open spec fn trip_lists(w: WorldView, t: usize, r: usize, e: usize) -> bool {
    component_at(w, t) matches Some(ComponentView::Trip(x)) && x.route == r && x.departures.contains(e)
}

/// Whether entity `r` is a route that lists trip `t`.
pub open spec fn route_lists_trip(w: WorldView, r: usize, t: usize) -> bool {
    component_at(w, r) matches Some(ComponentView::Route(x)) && x.trips.contains(t)
}

/// Whether entity `e` is a trip or a stop departure listed where it
/// belongs: a trip in the schedule's trips and by its route; a stop
/// departure in the schedule's departures, by its stop facility when its
/// stop is one, and by its trip, which is a trip of the departure's route.
pub open spec fn listed(w: WorldView, e: usize) -> bool {
    match w.entities[e as int] {
        ComponentView::Trip(t) => w.schedule.trips.contains(e) && route_lists_trip(w, t.route, e),
        ComponentView::Departure(d) => {
            &&& w.schedule.departures.contains(e)
            &&& stop_lists(w, d.stop, e)
            &&& trip_lists(w, d.trip, d.route, e)
        },
        _ => false,
    }
}

/// Whether `w2` holds no stop facility among the entities it adds to `w1`.
pub open spec fn no_new_stops(w1: WorldView, w2: WorldView) -> bool {
    forall|x: int| w1.entities.len() <= x < w2.entities.len() ==> !(#[trigger] w2.entities[x] is StopFacility)
}

/// Whether every entity from `n` on is a trip or a stop departure listed
/// where it belongs.
pub open spec fn listed_from(w: WorldView, n: int) -> bool {
    forall|e: usize| n <= e < w.entities.len() ==> #[trigger] listed(w, e)
}

proof fn lemma_extends_contains<T>(a: Seq<T>, b: Seq<T>, v: T)
    requires
        extends(a, b),
        a.contains(v),
    ensures
        b.contains(v),
{
    let k = choose|k: int| 0 <= k < a.len() && a[k] == v;
    assert(b[k] == v);
}

/// What an entity is listed by stays listed in a world that grows, as long
/// as it gains no stop facility.
proof fn lemma_listed_grows(w1: WorldView, w2: WorldView, e: usize)
    requires
        grows(w1, w2),
        no_new_stops(w1, w2),
        e < w1.entities.len(),
        listed(w1, e),
    ensures
        listed(w2, e),
{
    let a = w1.entities[e as int];
    assert(grown(a, w2.entities[e as int]));
    match a {
        ComponentView::Trip(t) => {
            lemma_extends_contains(w1.schedule.trips, w2.schedule.trips, e);
            let r = t.route;
            if let ComponentView::Route(x) = w1.entities[r as int] {
                assert(grown(w1.entities[r as int], w2.entities[r as int]));
                if let ComponentView::Route(y) = w2.entities[r as int] {
                    lemma_extends_contains(x.trips, y.trips, e);
                }
            }
        },
        ComponentView::Departure(d) => {
            lemma_extends_contains(w1.schedule.departures, w2.schedule.departures, e);
            if d.stop < w1.entities.len() {
                assert(grown(w1.entities[d.stop as int], w2.entities[d.stop as int]));
                if let ComponentView::StopFacility(x) = w1.entities[d.stop as int] {
                    if let ComponentView::StopFacility(y) = w2.entities[d.stop as int] {
                        lemma_extends_contains(x.departures, y.departures, e);
                    }
                }
            } else if d.stop < w2.entities.len() {
                assert(!(w2.entities[d.stop as int] is StopFacility));
            }
            if let ComponentView::Trip(x) = w1.entities[d.trip as int] {
                assert(grown(w1.entities[d.trip as int], w2.entities[d.trip as int]));
                if let ComponentView::Trip(y) = w2.entities[d.trip as int] {
                    lemma_extends_contains(x.departures, y.departures, e);
                }
            }
        },
        _ => {},
    }
}

/// The entities from `n` on that a world listed stay listed as it grows
/// without gaining a stop facility.
proof fn lemma_listed_from_grows(w1: WorldView, w2: WorldView, n: int)
    requires
        grows(w1, w2),
        no_new_stops(w1, w2),
        listed_from(w1, n),
    ensures
        forall|e: usize| n <= e < w1.entities.len() ==> #[trigger] listed(w2, e),
{
    assert forall|e: usize| n <= e < w1.entities.len() implies #[trigger] listed(w2, e) by {
        assert(listed(w1, e));
        lemma_listed_grows(w1, w2, e);
    }
}

proof fn lemma_stop_departures_listed(
    w: WorldView,
    points: Seq<RouteProfilePoint>,
    line_name: Seq<char>,
    headsign: Seq<char>,
    start: u32,
    trip: usize,
    route: usize,
    n: int,
)
    requires
        listed_from(w, n),
        n <= w.entities.len(),
        trip_of_route(w, trip, route),
        add_stop_departures(w, points, line_name, headsign, start, trip, route).entities.len()
            <= usize::MAX,
    ensures
        listed_from(add_stop_departures(w, points, line_name, headsign, start, trip, route), n),
        no_new_stops(w, add_stop_departures(w, points, line_name, headsign, start, trip, route)),
    decreases points.len(),
{
    if points.len() > 0 {
        let w1 = add_stop_departures(w, points.drop_last(), line_name, headsign, start, trip, route);
        let r = add_stop_departures(w, points, line_name, headsign, start, trip, route);
        let p = points.last();
        let e = w1.entities.len() as usize;
        let c = ComponentView::Departure(stop_departure(p, line_name, headsign, start, trip, route));
        let sched = ScheduleView { departures: w1.schedule.departures.push(e), ..w1.schedule };
        let w0 = w1.spawned(c);
        let wa = w0.with_schedule(sched);
        let wb = wa.linked(p.stop, LinkKind::StopDepartures, e);
        assert(r == wb.linked(trip, LinkKind::TripDepartures, e));
        lemma_grows_spawned(w1, c);
        assert(schedule_grows(w0.schedule, sched));
        lemma_grows_with_schedule(w0, sched);
        lemma_grows_trans(w1, w0, wa);
        lemma_grows_linked(wa, p.stop, LinkKind::StopDepartures, e);
        lemma_grows_trans(w1, wa, wb);
        lemma_grows_linked(wb, trip, LinkKind::TripDepartures, e);
        lemma_grows_trans(w1, wb, r);
        assert(e == w1.entities.len());
        lemma_stop_departures_listed(w, points.drop_last(), line_name, headsign, start, trip, route, n);
        lemma_stop_departures_grow(w, points.drop_last(), line_name, headsign, start, trip, route);
        lemma_relations_grow(w, w1);
        assert(trip_of_route(w1, trip, route));
        assert(trip < w1.entities.len());
        assert(wb.entities[e as int] == c);
        assert(r.entities[e as int] == c);
        assert(no_new_stops(w1, r));
        lemma_listed_from_grows(w1, r, n);
        if p.stop < w1.entities.len() {
            if let ComponentView::StopFacility(f) = w1.entities[p.stop as int] {
                assert(trip != p.stop);
                assert(r.entities[p.stop as int] == ComponentView::StopFacility(
                    StopFacilityView { departures: f.departures.push(e), ..f },
                ));
                assert(f.departures.push(e)[f.departures.len() as int] == e);
            } else {
                assert(grown(w1.entities[p.stop as int], r.entities[p.stop as int]));
            }
        }
        if let ComponentView::Trip(x) = w1.entities[trip as int] {
            assert(wb.entities[trip as int] == w1.entities[trip as int]);
            assert(r.entities[trip as int] == ComponentView::Trip(
                TripView { departures: x.departures.push(e), ..x },
            ));
            assert(x.departures.push(e)[x.departures.len() as int] == e);
        }
        assert(r.schedule.departures[w1.schedule.departures.len() as int] == e);
        assert(stop_lists(r, p.stop, e));
        assert(trip_lists(r, trip, route, e));
        assert(listed(r, e));
        assert forall|x: usize| n <= x < r.entities.len() implies #[trigger] listed(r, x) by {
            if x < w1.entities.len() {
            }
        }
        assert forall|x: int| w.entities.len() <= x < r.entities.len() implies !(
        #[trigger] r.entities[x] is StopFacility) by {
            if x < w1.entities.len() {
                assert(!(w1.entities[x] is StopFacility));
                assert(grown(w1.entities[x], r.entities[x]));
            }
        }
    }
}

proof fn lemma_add_trip_listed(
    w: WorldView,
    route: usize,
    route_id: Seq<char>,
    line: usize,
    points: Seq<RouteProfilePoint>,
    dep: usize,
    n: int,
)
    requires
        listed_from(w, n),
        n <= w.entities.len(),
        is_route(w, route),
        add_trip(w, route, route_id, line, points, dep).entities.len() <= usize::MAX,
    ensures
        listed_from(add_trip(w, route, route_id, line, points, dep), n),
{
    match component_at(w, dep) {
        Some(ComponentView::RouteDeparture(d)) => {
            let headsign = headsign_of(w, points);
            let t = w.entities.len() as usize;
            let c = ComponentView::Trip(
                TripView {
                    id: trip_id(route_id, d.id),
                    route: route,
                    line: line,
                    departures: Seq::empty(),
                    headsign: headsign,
                },
            );
            let sched = ScheduleView { trips: w.schedule.trips.push(t), ..w.schedule };
            let w0 = w.spawned(c);
            let wa = w0.with_schedule(sched);
            let w1 = wa.linked(route, LinkKind::RouteTrips, t);
            let name = line_name_of(w1, line);
            let w2 = w1.linked(line, LinkKind::LineTrips, t);
            let r = add_stop_departures(w2, points, name, or_empty(headsign), d.departure_time, t, route);
            assert(r == add_trip(w, route, route_id, line, points, dep));
            lemma_stop_departures_grow(w2, points, name, or_empty(headsign), d.departure_time, t, route);
            lemma_grows_spawned(w, c);
            assert(schedule_grows(w0.schedule, sched));
            lemma_grows_with_schedule(w0, sched);
            lemma_grows_trans(w, w0, wa);
            lemma_grows_linked(wa, route, LinkKind::RouteTrips, t);
            lemma_grows_trans(w, wa, w1);
            lemma_grows_linked(w1, line, LinkKind::LineTrips, t);
            lemma_grows_trans(w, w1, w2);
            assert(t == w.entities.len());
            assert(w1.entities[t as int] == c);
            assert(w2.entities[t as int] == c);
            if let ComponentView::Route(x) = w.entities[route as int] {
                assert(w1.entities[route as int] == ComponentView::Route(
                    crate::model::RouteView { trips: x.trips.push(t), ..x },
                ));
                assert(w2.entities[route as int] == w1.entities[route as int]);
                assert(x.trips.push(t)[x.trips.len() as int] == t);
            }
            assert(no_new_stops(w, w2));
            assert(w2.schedule.trips[w.schedule.trips.len() as int] == t);
            assert(listed(w2, t));
            lemma_listed_from_grows(w, w2, n);
            assert forall|x: usize| n <= x < w2.entities.len() implies #[trigger] listed(w2, x) by {
                if x < w.entities.len() {
                }
            }
            assert(trip_of_route(w2, t, route));
            lemma_stop_departures_listed(w2, points, name, or_empty(headsign), d.departure_time, t, route, n);
        },
        _ => {},
    }
}

proof fn lemma_add_trips_listed(
    w: WorldView,
    route: usize,
    route_id: Seq<char>,
    line: usize,
    points: Seq<RouteProfilePoint>,
    deps: Seq<usize>,
    n: int,
)
    requires
        listed_from(w, n),
        n <= w.entities.len(),
        is_route(w, route),
        add_trips(w, route, route_id, line, points, deps).entities.len() <= usize::MAX,
    ensures
        listed_from(add_trips(w, route, route_id, line, points, deps), n),
    decreases deps.len(),
{
    if deps.len() > 0 {
        let w1 = add_trips(w, route, route_id, line, points, deps.drop_last());
        lemma_add_trip_grows(w1, route, route_id, line, points, deps.last());
        lemma_add_trips_listed(w, route, route_id, line, points, deps.drop_last(), n);
        lemma_add_trips_grows(w, route, route_id, line, points, deps.drop_last());
        lemma_relations_grow(w, w1);
        lemma_add_trip_listed(w1, route, route_id, line, points, deps.last(), n);
    }
}

proof fn lemma_expand_routes_listed(w: WorldView, routes: Seq<usize>, n: int)
    requires
        listed_from(w, n),
        n <= w.entities.len(),
        expand_routes(w, routes).entities.len() <= usize::MAX,
    ensures
        listed_from(expand_routes(w, routes), n),
    decreases routes.len(),
{
    if routes.len() > 0 {
        let w1 = expand_routes(w, routes.drop_last());
        let route = routes.last();
        match component_at(w1, route) {
            Some(ComponentView::Route(r)) => {
                let points = sort_by_offset(profile_points(w1, r.route_profile));
                lemma_add_trips_grows(w1, route, r.id, r.line, points, r.departures);
            },
            _ => {},
        }
        lemma_expand_routes_listed(w, routes.drop_last(), n);
        lemma_expand_routes_grows(w, routes.drop_last());
        match component_at(w1, route) {
            Some(ComponentView::Route(r)) => {
                let points = sort_by_offset(profile_points(w1, r.route_profile));
                lemma_add_trips_listed(w1, route, r.id, r.line, points, r.departures, n);
            },
            _ => {},
        }
    }
}

/// Expanding the schedule into trips adds only trips and stop departures,
/// and lists each where it belongs: each new trip in the schedule's trips
/// and by its route; each new stop departure in the schedule's departures,
/// by its stop facility (when its stop is one), and by its trip, which is a
/// trip of the departure's route (as long as the resulting world's entities
/// can be counted in a `usize`).
pub proof fn lemma_create_trips_lists_new(w: WorldView)
    requires
        create_trips_spec(w).entities.len() <= usize::MAX,
    ensures
        listed_from(create_trips_spec(w), w.entities.len() as int),
{
    lemma_expand_routes_listed(w, w.schedule.routes, w.entities.len() as int);
}

} // verus!
