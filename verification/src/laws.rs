use vstd::prelude::*;
use crate::model::{component_at, ComponentView, RouteProfilePoint, TripView, WorldView};
use crate::trips::{
    add_trips,
    add_stop_departures, add_trip, headsign_of, line_name_of, offset_key, sort_by_offset,
    stop_departure, trip_id,
};
use crate::loader::{load_spec, or_empty, LoadStateView};
use crate::xml::XmlEventView;
use crate::board::{
    board_spec, departure_time_of, sort_by_time, stop_departures_among, time_key, time_le, time_rank,
};
use crate::sorting::{lemma_sort_by_key, lemma_sort_by_key_stable, with_key};

verus! {

/// Whether the points are in order of departure offset.
pub open spec fn sorted_by_offset(s: Seq<RouteProfilePoint>) -> bool {
    forall|i: int, j: int|
        0 <= i < j < s.len() ==> (#[trigger] s[i]).departure_offset <= (#[trigger] s[j]).departure_offset
}

/// Ordering a route's profile points by departure offset yields them in
/// order of departure offset, and yields the same points (the same number
/// of times each): it is a sort.
pub proof fn lemma_sort_by_offset(s: Seq<RouteProfilePoint>)
    ensures
        sorted_by_offset(sort_by_offset(s)),
        sort_by_offset(s).to_multiset() =~= s.to_multiset(),
        sort_by_offset(s).len() == s.len(),
{
    lemma_sort_by_key(offset_key(), s);
    let r = sort_by_offset(s);
    assert forall|i: int, j: int| 0 <= i < j < r.len() implies (#[trigger] r[i]).departure_offset
        <= (#[trigger] r[j]).departure_offset by {
        assert(offset_key()(r[i]) <= offset_key()(r[j]));
    }
}

/// The entities `start .. start + n`, in order.
pub open spec fn new_entities(start: int, n: int) -> Seq<usize> {
    Seq::new(n as nat, |i: int| (start + i) as usize)
}

/// A trip's stop departures are one new entity per point, in the points'
/// order, each leaving at the trip's start time plus the point's
/// departure offset (arriving at the start plus the arrival offset); they
/// are listed at the end of the schedule's departures and of the trip's.
pub proof fn lemma_stop_departures(
    w: WorldView,
    points: Seq<RouteProfilePoint>,
    line_name: Seq<char>,
    headsign: Seq<char>,
    start: u32,
    trip: usize,
    route: usize,
)
    requires
        w.entities.len() + points.len() <= usize::MAX,
    ensures
        ({
            let r = add_stop_departures(w, points, line_name, headsign, start, trip, route);
            let n = w.entities.len() as int;
            &&& r.entities.len() == n + points.len()
            &&& forall|i: int|
                0 <= i < points.len() ==> #[trigger] r.entities[n + i] == ComponentView::Departure(
                    stop_departure(points[i], line_name, headsign, start, trip, route),
                )
            &&& r.schedule.departures == w.schedule.departures + new_entities(n, points.len() as int)
            &&& component_at(w, trip) matches Some(ComponentView::Trip(t)) ==> r.entities[trip as int]
                == ComponentView::Trip(
                TripView { departures: t.departures + new_entities(n, points.len() as int), ..t },
            )
        }),
    decreases points.len(),
{
    let n = w.entities.len() as int;
    if points.len() == 0 {
        assert(w.schedule.departures + new_entities(n, 0) =~= w.schedule.departures);
        if let Some(ComponentView::Trip(t)) = component_at(w, trip) {
            assert(t.departures + new_entities(n, 0) =~= t.departures);
        }
    } else {
        let k = points.len() - 1;
        let w1 = add_stop_departures(w, points.drop_last(), line_name, headsign, start, trip, route);
        lemma_stop_departures(w, points.drop_last(), line_name, headsign, start, trip, route);
        let r = add_stop_departures(w, points, line_name, headsign, start, trip, route);
        let p = points.last();
        let m = w1.entities.len() as usize;
        assert(m == n + k);
        assert forall|i: int| 0 <= i < points.len() implies #[trigger] r.entities[n + i]
            == ComponentView::Departure(
            stop_departure(points[i], line_name, headsign, start, trip, route),
        ) by {
            if i < k {
                assert(points.drop_last()[i] == points[i]);
                assert(w1.entities[n + i] == ComponentView::Departure(
                    stop_departure(points.drop_last()[i], line_name, headsign, start, trip, route),
                ));
            }
        }
        assert(new_entities(n, points.len() as int) =~= new_entities(n, k).push(m));
        assert(r.schedule.departures =~= w.schedule.departures + new_entities(n, points.len() as int));
        if let Some(ComponentView::Trip(t)) = component_at(w, trip) {
            assert(trip < n);
            let t1 = TripView { departures: t.departures + new_entities(n, k), ..t };
            assert(w1.entities[trip as int] == ComponentView::Trip(t1));
            assert(r.entities[trip as int] == ComponentView::Trip(
                TripView { departures: t1.departures.push(m), ..t1 },
            ));
            assert(t1.departures.push(m) =~= t.departures + new_entities(n, points.len() as int));
        }
    }
}

/// A trip's departures leave in order of time when its points are in
/// order of departure offset, as a route's points are once ordered.
pub proof fn lemma_stop_departures_in_time_order(
    points: Seq<RouteProfilePoint>,
    line_name: Seq<char>,
    headsign: Seq<char>,
    start: u32,
    trip: usize,
    route: usize,
)
    requires
        sorted_by_offset(points),
    ensures
        forall|i: int, j: int|
            0 <= i < j < points.len() ==> (#[trigger] stop_departure(
                points[i],
                line_name,
                headsign,
                start,
                trip,
                route,
            )).departure_time.unwrap() <= (#[trigger] stop_departure(
                points[j],
                line_name,
                headsign,
                start,
                trip,
                route,
            )).departure_time.unwrap(),
{
    assert forall|i: int, j: int| 0 <= i < j < points.len() implies (#[trigger] stop_departure(
        points[i],
        line_name,
        headsign,
        start,
        trip,
        route,
    )).departure_time.unwrap() <= (#[trigger] stop_departure(
        points[j],
        line_name,
        headsign,
        start,
        trip,
        route,
    )).departure_time.unwrap() by {
        assert(points[i].departure_offset <= points[j].departure_offset);
    }
}

/// A route departure starts one trip: a new trip entity, with the id
/// `trip_<route id>_<departure id>`, the route and line, the name of the
/// last point's stop as headsign, and as departures the entities right
/// after it: one per point, at the route departure's time plus the
/// point's offsets, with the line's name and the headsign.
pub proof fn lemma_add_trip(
    w: WorldView,
    route: usize,
    route_id: Seq<char>,
    line: usize,
    points: Seq<RouteProfilePoint>,
    dep: usize,
)
    requires
        w.entities.len() + 1 + points.len() <= usize::MAX,
        component_at(w, dep) matches Some(ComponentView::RouteDeparture(_)),
    ensures
        ({
            let r = add_trip(w, route, route_id, line, points, dep);
            let d = component_at(w, dep)->Some_0->RouteDeparture_0;
            let t = w.entities.len() as int;
            let headsign = headsign_of(w, points);
            &&& r.entities.len() == t + 1 + points.len()
            &&& r.entities[t] == ComponentView::Trip(
                TripView {
                    id: trip_id(route_id, d.id),
                    route: route,
                    line: line,
                    departures: new_entities(t + 1, points.len() as int),
                    headsign: headsign,
                },
            )
            &&& forall|i: int|
                0 <= i < points.len() ==> #[trigger] r.entities[t + 1 + i]
                    == ComponentView::Departure(
                    stop_departure(
                        points[i],
                        line_name_of(w, line),
                        or_empty(headsign),
                        d.departure_time,
                        t as usize,
                        route,
                    ),
                )
        }),
{
    let d = component_at(w, dep)->Some_0->RouteDeparture_0;
    let headsign = headsign_of(w, points);
    let t = w.entities.len() as usize;
    let trip = TripView {
        id: trip_id(route_id, d.id),
        route: route,
        line: line,
        departures: Seq::empty(),
        headsign: headsign,
    };
    let w1 = w.spawned(ComponentView::Trip(trip)).with_schedule(
        crate::model::ScheduleView { trips: w.schedule.trips.push(t), ..w.schedule },
    ).linked(route, crate::model::LinkKind::RouteTrips, t);
    let name = line_name_of(w1, line);
    assert(name == line_name_of(w, line)) by {
        crate::growth::lemma_grows_spawned(w, ComponentView::Trip(trip));
        if line < w.entities.len() {
            assert(w1.entities[line as int] == w.entities[line as int] || line == route);
        }
    }
    let w2 = w1.linked(line, crate::model::LinkKind::LineTrips, t);
    assert(w2.entities[t as int] == ComponentView::Trip(trip));
    lemma_stop_departures(w2, points, name, or_empty(headsign), d.departure_time, t, route);
    let r = add_trip(w, route, route_id, line, points, dep);
    assert(trip.departures + new_entities(t + 1, points.len() as int) =~= new_entities(
        t + 1,
        points.len() as int,
    ));
    assert forall|i: int| 0 <= i < points.len() implies #[trigger] r.entities[t + 1 + i]
        == ComponentView::Departure(
        stop_departure(points[i], line_name_of(w, line), or_empty(headsign), d.departure_time, t, route),
    ) by {
        assert(r.entities[(t + 1) + i] == ComponentView::Departure(
            stop_departure(points[i], name, or_empty(headsign), d.departure_time, t, route),
        ));
    }
}

/// The points with departure offset `v`, in order.
pub open spec fn with_offset(s: Seq<RouteProfilePoint>, v: u32) -> Seq<RouteProfilePoint>
    decreases s.len(),
{
    if s.len() == 0 {
        s
    } else if s.last().departure_offset == v {
        with_offset(s.drop_last(), v).push(s.last())
    } else {
        with_offset(s.drop_last(), v)
    }
}

proof fn lemma_with_offset_key(s: Seq<RouteProfilePoint>, v: u32)
    ensures
        with_offset(s, v) == with_key(offset_key(), s, v as int),
    decreases s.len(),
{
    if s.len() > 0 {
        lemma_with_offset_key(s.drop_last(), v);
    }
}

/// Ordering a route's points is stable: the points of any one departure
/// offset keep their order.
pub proof fn lemma_sort_by_offset_stable(s: Seq<RouteProfilePoint>, v: u32)
    ensures
        with_offset(sort_by_offset(s), v) == with_offset(s, v),
{
    lemma_with_offset_key(sort_by_offset(s), v);
    lemma_with_offset_key(s, v);
    lemma_sort_by_key_stable(offset_key(), s, v as int);
}

/// Events after the end of input are never read: loading `a`, the
/// end-of-input event and then anything, is loading `a`.
pub proof fn lemma_load_stops_at_eof(s: LoadStateView, w: WorldView, a: Seq<XmlEventView>, b: Seq<XmlEventView>)
    ensures
        load_spec(s, w, a + seq![XmlEventView::Eof] + b) == load_spec(s, w, a),
    decreases a.len(),
{
    let all = a + seq![XmlEventView::Eof] + b;
    if a.len() == 0 {
        assert(all[0] == XmlEventView::Eof);
    } else {
        assert(all[0] == a[0]);
        if !(a[0] is Eof) {
            let (s2, w2) = crate::loader::step_spec(s, w, a[0]);
            assert(all.drop_first() =~= a.drop_first() + seq![XmlEventView::Eof] + b);
            lemma_load_stops_at_eof(s2, w2, a.drop_first(), b);
        }
    }
}

/// Loading a document in two parts, the first holding no end of input, is
/// loading it whole: the loader's state carries over between the parts.
pub proof fn lemma_load_in_parts(s: LoadStateView, w: WorldView, a: Seq<XmlEventView>, b: Seq<XmlEventView>)
    requires
        forall|i: int| 0 <= i < a.len() ==> !(#[trigger] a[i] is Eof),
    ensures
        load_spec(s, w, a + b) == ({
            let (s1, w1) = load_spec(s, w, a);
            load_spec(s1, w1, b)
        }),
    decreases a.len(),
{
    if a.len() == 0 {
        assert(a + b =~= b);
    } else {
        assert((a + b)[0] == a[0]);
        assert(!(a[0] is Eof));
        let (s2, w2) = crate::loader::step_spec(s, w, a[0]);
        assert((a + b).drop_first() =~= a.drop_first() + b);
        assert forall|i: int| 0 <= i < a.drop_first().len() implies !(#[trigger] a.drop_first()[i] is Eof) by {
            assert(a.drop_first()[i] == a[i + 1]);
        }
        lemma_load_in_parts(s2, w2, a.drop_first(), b);
    }
}

/// Whether the entities are in order of departure time.
pub open spec fn sorted_by_time(w: WorldView, s: Seq<usize>) -> bool {
    forall|i: int, j: int|
        0 <= i < j < s.len() ==> time_le(
            departure_time_of(w, #[trigger] s[i]),
            departure_time_of(w, #[trigger] s[j]),
        )
}

proof fn lemma_sort_by_time(w: WorldView, s: Seq<usize>)
    ensures
        sorted_by_time(w, sort_by_time(w, s)),
        sort_by_time(w, s).to_multiset() =~= s.to_multiset(),
{
    lemma_sort_by_key(time_key(w), s);
    let r = sort_by_time(w, s);
    assert forall|i: int, j: int| 0 <= i < j < r.len() implies time_le(
        departure_time_of(w, #[trigger] r[i]),
        departure_time_of(w, #[trigger] r[j]),
    ) by {
        assert(time_key(w)(r[i]) <= time_key(w)(r[j]));
    }
}

/// A stop facility's departure board lists its stop departures (the same
/// ones, as often) in order of departure time, unknown times first.
pub proof fn lemma_departure_board(w: WorldView, stop: usize)
    requires
        component_at(w, stop) matches Some(ComponentView::StopFacility(_)),
    ensures
        sorted_by_time(w, board_spec(w, stop)),
        board_spec(w, stop).to_multiset() =~= stop_departures_among(
            w,
            component_at(w, stop)->Some_0->StopFacility_0.departures,
        ).to_multiset(),
{
    let s = component_at(w, stop)->Some_0->StopFacility_0;
    lemma_sort_by_time(w, stop_departures_among(w, s.departures));
}

/// The entities among `s` whose departure time is `v`, in order.
pub open spec fn with_time(w: WorldView, s: Seq<usize>, v: Option<u64>) -> Seq<usize>
    decreases s.len(),
{
    if s.len() == 0 {
        s
    } else if departure_time_of(w, s.last()) == v {
        with_time(w, s.drop_last(), v).push(s.last())
    } else {
        with_time(w, s.drop_last(), v)
    }
}

proof fn lemma_with_time_key(w: WorldView, s: Seq<usize>, v: Option<u64>)
    ensures
        with_time(w, s, v) == with_key(time_key(w), s, time_rank(v)),
    decreases s.len(),
{
    if s.len() > 0 {
        lemma_with_time_key(w, s.drop_last(), v);
    }
}

/// A stop facility's departure board is stable: departures that leave at
/// the same time keep the order in which the stop facility lists them.
pub proof fn lemma_departure_board_stable(w: WorldView, es: Seq<usize>, v: Option<u64>)
    ensures
        with_time(w, sort_by_time(w, es), v) == with_time(w, es, v),
{
    lemma_with_time_key(w, sort_by_time(w, es), v);
    lemma_with_time_key(w, es, v);
    lemma_sort_by_key_stable(time_key(w), es, time_rank(v));
}

/// How many of the entities `deps` are route departures.
pub open spec fn route_departure_count(w: WorldView, deps: Seq<usize>) -> nat
    decreases deps.len(),
{
    if deps.len() == 0 {
        0
    } else if component_at(w, deps.last()) matches Some(ComponentView::RouteDeparture(_)) {
        route_departure_count(w, deps.drop_last()) + 1
    } else {
        route_departure_count(w, deps.drop_last())
    }
}

/// Whether no entity that `w2` holds beyond those of `w1` is a route departure.
pub open spec fn no_new_route_departures(w1: WorldView, w2: WorldView) -> bool {
    forall|e: int|
        w1.entities.len() <= e < w2.entities.len() ==> !(#[trigger] w2.entities[e] is RouteDeparture)
}

proof fn lemma_stop_departures_keep_trips(
    w: WorldView,
    points: Seq<RouteProfilePoint>,
    line_name: Seq<char>,
    headsign: Seq<char>,
    start: u32,
    trip: usize,
    route: usize,
)
    ensures
        ({
            let r = add_stop_departures(w, points, line_name, headsign, start, trip, route);
            &&& r.schedule.trips == w.schedule.trips
            &&& no_new_route_departures(w, r)
            &&& w.entities.len() <= r.entities.len()
        }),
    decreases points.len(),
{
    if points.len() > 0 {
        lemma_stop_departures_keep_trips(w, points.drop_last(), line_name, headsign, start, trip, route);
        let w1 = add_stop_departures(w, points.drop_last(), line_name, headsign, start, trip, route);
        let r = add_stop_departures(w, points, line_name, headsign, start, trip, route);
        crate::growth::lemma_stop_departures_grow(w1, points, line_name, headsign, start, trip, route);
        assert forall|e: int| w.entities.len() <= e < r.entities.len() implies !(
        #[trigger] r.entities[e] is RouteDeparture) by {
            if e < w1.entities.len() {
                assert(crate::growth::grown(w1.entities[e], r.entities[e]));
            }
        }
    }
}

proof fn lemma_add_trip_count(
    w: WorldView,
    route: usize,
    route_id: Seq<char>,
    line: usize,
    points: Seq<RouteProfilePoint>,
    dep: usize,
)
    ensures
        ({
            let r = add_trip(w, route, route_id, line, points, dep);
            &&& r.schedule.trips.len() == w.schedule.trips.len() + if component_at(w, dep) matches Some(
                ComponentView::RouteDeparture(_),
            ) {
                1int
            } else {
                0int
            }
            &&& no_new_route_departures(w, r)
        }),
{
    if let Some(ComponentView::RouteDeparture(d)) = component_at(w, dep) {
        let headsign = headsign_of(w, points);
        let t = w.entities.len() as usize;
        let trip = TripView {
            id: trip_id(route_id, d.id),
            route: route,
            line: line,
            departures: Seq::empty(),
            headsign: headsign,
        };
        let w1 = w.spawned(ComponentView::Trip(trip)).with_schedule(
            crate::model::ScheduleView { trips: w.schedule.trips.push(t), ..w.schedule },
        ).linked(route, crate::model::LinkKind::RouteTrips, t);
        let name = line_name_of(w1, line);
        let w2 = w1.linked(line, crate::model::LinkKind::LineTrips, t);
        lemma_stop_departures_keep_trips(w2, points, name, or_empty(headsign), d.departure_time, t, route);
        let r = add_stop_departures(w2, points, name, or_empty(headsign), d.departure_time, t, route);
        assert forall|e: int| w.entities.len() <= e < r.entities.len() implies !(
        #[trigger] r.entities[e] is RouteDeparture) by {
            if e < w2.entities.len() {
                crate::growth::lemma_stop_departures_grow(w2, points, name, or_empty(headsign), d.departure_time, t, route);
                assert(crate::growth::grown(w2.entities[e], r.entities[e]));
            }
        }
    }
}

/// Expanding a route's departures adds exactly one trip to the schedule
/// for each of the listed entities that is a route departure.
pub proof fn lemma_add_trips_count(
    w: WorldView,
    route: usize,
    route_id: Seq<char>,
    line: usize,
    points: Seq<RouteProfilePoint>,
    deps: Seq<usize>,
)
    ensures
        add_trips(w, route, route_id, line, points, deps).schedule.trips.len()
            == w.schedule.trips.len() + route_departure_count(w, deps),
        no_new_route_departures(w, add_trips(w, route, route_id, line, points, deps)),
    decreases deps.len(),
{
    if deps.len() > 0 {
        let w1 = add_trips(w, route, route_id, line, points, deps.drop_last());
        let last = deps.last();
        lemma_add_trips_count(w, route, route_id, line, points, deps.drop_last());
        lemma_add_trip_count(w1, route, route_id, line, points, last);
        crate::growth::lemma_add_trips_grows(w, route, route_id, line, points, deps.drop_last());
        crate::growth::lemma_add_trip_grows(w1, route, route_id, line, points, last);
        let r = add_trip(w1, route, route_id, line, points, last);
        assert((component_at(w1, last) matches Some(ComponentView::RouteDeparture(_))) == (component_at(
            w,
            last,
        ) matches Some(ComponentView::RouteDeparture(_)))) by {
            if last < w.entities.len() {
                assert(crate::growth::grown(w.entities[last as int], w1.entities[last as int]));
            } else if last < w1.entities.len() {
                assert(!(w1.entities[last as int] is RouteDeparture));
            }
        }
        assert forall|e: int| w.entities.len() <= e < r.entities.len() implies !(
        #[trigger] r.entities[e] is RouteDeparture) by {
            if e < w1.entities.len() {
                assert(crate::growth::grown(w1.entities[e], r.entities[e]));
            }
        }
    }
}

} // verus!
