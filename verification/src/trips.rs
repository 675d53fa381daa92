use vstd::prelude::*;
use vstd::string::StringExecFns;
use crate::loader::{or_empty, string_or_empty, SchedulePlugin};
use crate::model::{
    component_at, clone_opt, opt_view, Component, ComponentView, DepartureView, Departure, LinkKind,
    RouteProfilePoint, ScheduleView, Trip, TripView, World, WorldView,
};
use crate::sorting::{pair_value, sort_by_key, sort_by_keys};

verus! {

/// The route profile points among the entities `es`, in order; entities
/// that are not profile points are skipped.
pub open spec fn profile_points(w: WorldView, es: Seq<usize>) -> Seq<RouteProfilePoint>
    decreases es.len(),
{
    if es.len() == 0 {
        Seq::empty()
    } else {
        let rest = profile_points(w, es.drop_last());
        match component_at(w, es.last()) {
            Some(ComponentView::RouteProfilePoint(p)) => rest.push(p),
            _ => rest,
        }
    }
}

/// The sort key of a route profile point: its departure offset.
pub open spec fn offset_key() -> spec_fn(RouteProfilePoint) -> int {
    |p: RouteProfilePoint| p.departure_offset as int
}

/// The points ordered by departure offset, keeping the order of points with
/// equal offsets (a stable sort).
pub open spec fn sort_by_offset(s: Seq<RouteProfilePoint>) -> Seq<RouteProfilePoint> {
    sort_by_key(offset_key(), s)
}

/// The name of the stop facility `e`, if it is one and has a name.
pub open spec fn stop_name(w: WorldView, e: usize) -> Option<Seq<char>> {
    match component_at(w, e) {
        Some(ComponentView::StopFacility(s)) => s.name,
        _ => None,
    }
}

/// The headsign of a trip over `points`: the name of its last stop.
pub open spec fn headsign_of(w: WorldView, points: Seq<RouteProfilePoint>) -> Option<Seq<char>> {
    if points.len() == 0 {
        None
    } else {
        stop_name(w, points.last().stop)
    }
}

/// The name of line `e`, or the empty string when `e` is no line.
pub open spec fn line_name_of(w: WorldView, e: usize) -> Seq<char> {
    match component_at(w, e) {
        Some(ComponentView::Line(l)) => l.name,
        _ => Seq::empty(),
    }
}

/// The id of the trip that a route's departure starts.
pub open spec fn trip_id(route_id: Seq<char>, departure_id: Seq<char>) -> Seq<char> {
    "trip_"@ + route_id + "_"@ + departure_id
}

/// The time, in half-seconds, `offset` whole seconds after `start`: adding
/// no time keeps a leap second, and adding whole seconds to one counts from
/// the second before it (as chrono adds a duration to a leap second).
pub open spec fn after_offset(start: u32, offset: u32) -> u64 {
    if offset == 0 {
        start as u64
    } else {
        (2 * (start / 2 + offset)) as u64
    }
}

/// The departure of a trip at one stop of its route; `start` is the trip's
/// start in half-seconds, the point's offsets are in whole seconds.
pub open spec fn stop_departure(
    p: RouteProfilePoint,
    line_name: Seq<char>,
    headsign: Seq<char>,
    start: u32,
    trip: usize,
    route: usize,
) -> DepartureView {
    DepartureView {
        line_name: line_name,
        route_headsign: headsign,
        arrival_time: Some(after_offset(start, p.arrival_offset)),
        departure_time: Some(after_offset(start, p.departure_offset)),
        stop: p.stop,
        trip: trip,
        route: route,
    }
}

/// One departure per point, each listed in the schedule, its stop facility
/// and its trip.
pub open spec fn add_stop_departures(
    w: WorldView,
    points: Seq<RouteProfilePoint>,
    line_name: Seq<char>,
    headsign: Seq<char>,
    start: u32,
    trip: usize,
    route: usize,
) -> WorldView
    decreases points.len(),
{
    if points.len() == 0 {
        w
    } else {
        let w1 = add_stop_departures(w, points.drop_last(), line_name, headsign, start, trip, route);
        let p = points.last();
        let e = w1.entities.len() as usize;
        w1.spawned(
            ComponentView::Departure(stop_departure(p, line_name, headsign, start, trip, route)),
        ).with_schedule(
            ScheduleView { departures: w1.schedule.departures.push(e), ..w1.schedule },
        ).linked(p.stop, LinkKind::StopDepartures, e).linked(trip, LinkKind::TripDepartures, e)
    }
}

/// The trip that route departure `dep` starts, with its stop departures,
/// when `dep` is a route departure.
pub open spec fn add_trip(
    w: WorldView,
    route: usize,
    route_id: Seq<char>,
    line: usize,
    points: Seq<RouteProfilePoint>,
    dep: usize,
) -> WorldView {
    match component_at(w, dep) {
        Some(ComponentView::RouteDeparture(d)) => {
            let headsign = headsign_of(w, points);
            let t = w.entities.len() as usize;
            let trip = TripView {
                id: trip_id(route_id, d.id),
                route: route,
                line: line,
                departures: Seq::empty(),
                headsign: headsign,
            };
            let w1 = w.spawned(ComponentView::Trip(trip)).with_schedule(
                ScheduleView { trips: w.schedule.trips.push(t), ..w.schedule },
            ).linked(route, LinkKind::RouteTrips, t);
            let name = line_name_of(w1, line);
            let w2 = w1.linked(line, LinkKind::LineTrips, t);
            add_stop_departures(w2, points, name, or_empty(headsign), d.departure_time, t, route)
        },
        _ => w,
    }
}

/// The trips of the route departures `deps`, in order.
pub open spec fn add_trips(
    w: WorldView,
    route: usize,
    route_id: Seq<char>,
    line: usize,
    points: Seq<RouteProfilePoint>,
    deps: Seq<usize>,
) -> WorldView
    decreases deps.len(),
{
    if deps.len() == 0 {
        w
    } else {
        add_trip(add_trips(w, route, route_id, line, points, deps.drop_last()), route, route_id, line, points, deps.last())
    }
}

/// The trips of route `route`, one per route departure, when it is a route.
pub open spec fn expand_route(w: WorldView, route: usize) -> WorldView {
    match component_at(w, route) {
        Some(ComponentView::Route(r)) => add_trips(
            w,
            route,
            r.id,
            r.line,
            sort_by_offset(profile_points(w, r.route_profile)),
            r.departures,
        ),
        _ => w,
    }
}

/// The trips of the routes `routes`, in order.
pub open spec fn expand_routes(w: WorldView, routes: Seq<usize>) -> WorldView
    decreases routes.len(),
{
    if routes.len() == 0 {
        w
    } else {
        expand_route(expand_routes(w, routes.drop_last()), routes.last())
    }
}

/// The world with every route of the schedule expanded into trips.
pub open spec fn create_trips_spec(w: WorldView) -> WorldView {
    expand_routes(w, w.schedule.routes)
}

/// The time, in half-seconds, `offset` whole seconds after `start`.
fn time_after(start: u32, offset: u32) -> (res: u64)
    ensures
        res == after_offset(start, offset),
{
    if offset == 0 {
        start as u64
    } else {
        2 * ((start / 2) as u64 + offset as u64)
    }
}

/// A copy of a list of entities.
fn copy_ids(v: &Vec<usize>) -> (res: Vec<usize>)
    ensures
        res@ == v@,
{
    let mut res: Vec<usize> = Vec::new();
    let mut i: usize = 0;
    while i < v.len()
        invariant
            i <= v@.len(),
            res@ == v@.take(i as int),
        decreases v@.len() - i,
    {
        res.push(v[i]);
        assert(res@ =~= v@.take(i + 1));
        i = i + 1;
    }
    assert(v@.take(v@.len() as int) =~= v@);
    res
}

/// The points ordered by departure offset, stably.
fn sort_points(v: &Vec<RouteProfilePoint>) -> (res: Vec<RouteProfilePoint>)
    ensures
        res@ == sort_by_offset(v@),
{
    let mut keys: Vec<(u64, u64)> = Vec::new();
    let mut i: usize = 0;
    while i < v.len()
        invariant
            i <= v@.len(),
            keys@.len() == i,
            forall|k: int| 0 <= k < i ==> offset_key()(#[trigger] v@[k]) == pair_value(keys@[k]),
        decreases v@.len() - i,
    {
        keys.push((0, v[i].departure_offset as u64));
        i = i + 1;
    }
    sort_by_keys(v, &keys, Ghost(offset_key()))
}

/// The route profile points among `es`, in order.
fn collect_points(world: &World, es: &Vec<usize>) -> (res: Vec<RouteProfilePoint>)
    ensures
        res@ == profile_points(world@, es@),
{
    let mut res: Vec<RouteProfilePoint> = Vec::new();
    let mut i: usize = 0;
    assert(es@.take(0) =~= Seq::<usize>::empty());
    while i < es.len()
        invariant
            i <= es@.len(),
            res@ == profile_points(world@, es@.take(i as int)),
        decreases es@.len() - i,
    {
        assert(es@.take(i + 1).drop_last() =~= es@.take(i as int));
        match world.get(es[i]) {
            Some(Component::RouteProfilePoint(p)) => {
                res.push(*p);
            },
            _ => {},
        }
        i = i + 1;
    }
    assert(es@.take(es@.len() as int) =~= es@);
    res
}

/// The name of stop facility `e`, if it is one and has a name.
fn find_stop_name(world: &World, e: usize) -> (res: Option<String>)
    ensures
        opt_view(res) == stop_name(world@, e),
{
    match world.get(e) {
        Some(Component::StopFacility(s)) => clone_opt(&s.name),
        _ => None,
    }
}

/// The name of line `e`, or an empty string when `e` is no line.
fn find_line_name(world: &World, e: usize) -> (res: String)
    ensures
        res@ == line_name_of(world@, e),
{
    match world.get(e) {
        Some(Component::Line(l)) => l.name.clone(),
        _ => String::new(),
    }
}

/// The id of the trip that a route's departure starts.
fn make_trip_id(route_id: &String, departure_id: &String) -> (res: String)
    ensures
        res@ == trip_id(route_id@, departure_id@),
{
    let mut id = String::from_str("trip_");
    id.append(route_id.as_str());
    id.append("_");
    id.append(departure_id.as_str());
    id
}

impl SchedulePlugin {
    fn add_trip(
        world: &mut World,
        route: usize,
        route_id: &String,
        line: usize,
        points: &Vec<RouteProfilePoint>,
        dep: usize,
    )
        ensures
            final(world)@ == add_trip(old(world)@, route, route_id@, line, points@, dep),
    {
        let (dep_id, start) = match world.get(dep) {
            Some(Component::RouteDeparture(d)) => (d.id.clone(), d.departure_time),
            _ => {
                return;
            },
        };
        let headsign = if points.len() > 0 {
            find_stop_name(world, points[points.len() - 1].stop)
        } else {
            None
        };
        let trip = Trip {
            id: make_trip_id(route_id, &dep_id),
            route,
            line,
            departures: Vec::new(),
            headsign: clone_opt(&headsign),
        };
        let t = world.spawn(Component::Trip(trip));
        world.schedule.trips.push(t);
        world.link(route, LinkKind::RouteTrips, t);
        let line_name = find_line_name(world, line);
        world.link(line, LinkKind::LineTrips, t);
        let route_headsign = string_or_empty(&headsign);
        let ghost w2 = world@;
        let mut k: usize = 0;
        assert(points@.take(0) =~= Seq::<RouteProfilePoint>::empty());
        while k < points.len()
            invariant
                k <= points@.len(),
                world@ == add_stop_departures(
                    w2,
                    points@.take(k as int),
                    line_name@,
                    route_headsign@,
                    start,
                    t,
                    route,
                ),
            decreases points@.len() - k,
        {
            assert(points@.take(k + 1).drop_last() =~= points@.take(k as int));
            let p = points[k];
            let d = Departure {
                line_name: line_name.clone(),
                route_headsign: route_headsign.clone(),
                arrival_time: Some(time_after(start, p.arrival_offset)),
                departure_time: Some(time_after(start, p.departure_offset)),
                stop: p.stop,
                trip: t,
                route,
            };
            let e = world.spawn(Component::Departure(d));
            world.schedule.departures.push(e);
            world.link(p.stop, LinkKind::StopDepartures, e);
            world.link(t, LinkKind::TripDepartures, e);
            k = k + 1;
        }
        assert(points@.take(points@.len() as int) =~= points@);
    }

    fn expand_route(world: &mut World, route: usize)
        ensures
            final(world)@ == expand_route(old(world)@, route),
    {
        let (profile, deps, route_id, line) = match world.get(route) {
            Some(Component::Route(r)) => (
                copy_ids(&r.route_profile),
                copy_ids(&r.departures),
                r.id.clone(),
                r.line,
            ),
            _ => {
                return;
            },
        };
        let collected = collect_points(world, &profile);
        let points = sort_points(&collected);
        let ghost w0 = world@;
        let mut j: usize = 0;
        assert(deps@.take(0) =~= Seq::<usize>::empty());
        while j < deps.len()
            invariant
                j <= deps@.len(),
                world@ == add_trips(w0, route, route_id@, line, points@, deps@.take(j as int)),
            decreases deps@.len() - j,
        {
            assert(deps@.take(j + 1).drop_last() =~= deps@.take(j as int));
            Self::add_trip(world, route, &route_id, line, &points, deps[j]);
            j = j + 1;
        }
        assert(deps@.take(deps@.len() as int) =~= deps@);
    }

    /// Expands every route of the schedule into trips: for each route (in
    /// the schedule's order) and each of its route departures, a trip whose
    /// headsign is the name of the route's last stop, and for each stop of
    /// the route (ordered by departure offset) a departure at the route
    /// departure's time plus the stop's offsets. Every new entity is listed
    /// in the schedule and linked from its route, line, stop and trip.
    pub fn create_trips_and_departures(world: &mut World)
        ensures
            final(world)@ == create_trips_spec(old(world)@),
    {
        let routes = copy_ids(&world.schedule.routes);
        let ghost w0 = world@;
        let mut i: usize = 0;
        assert(routes@.take(0) =~= Seq::<usize>::empty());
        while i < routes.len()
            invariant
                i <= routes@.len(),
                routes@ == w0.schedule.routes,
                world@ == expand_routes(w0, routes@.take(i as int)),
            decreases routes@.len() - i,
        {
            assert(routes@.take(i + 1).drop_last() =~= routes@.take(i as int));
            Self::expand_route(world, routes[i]);
            i = i + 1;
        }
        assert(routes@.take(routes@.len() as int) =~= routes@);
    }
}

} // verus!
