use vstd::prelude::*;
use crate::model::{link_component, ComponentView, LinkKind, ScheduleView, WorldView};
use crate::loader::{
    effect_spec, end_spec, line_spec, load_spec, profile_or_departure_spec, profile_point_spec,
    route_departure_spec, route_spec, start_spec, step_spec, stop_facility_spec, LoadStateView,
};
use crate::xml::{AttributeView, XmlEventView};
use crate::trips::{
    add_stop_departures, add_trip, add_trips, create_trips_spec, expand_route, expand_routes,
};

verus! {

/// Whether `b` starts with all of `a`.
pub open spec fn extends<T>(a: Seq<T>, b: Seq<T>) -> bool {
    a.len() <= b.len() && forall|i: int| 0 <= i < a.len() ==> #[trigger] a[i] == b[i]
}

/// Whether `b` is `a` with, at most, more entries at the end of its lists:
/// same kind, same data, and every list extended.
pub open spec fn grown(a: ComponentView, b: ComponentView) -> bool {
    match (a, b) {
        (ComponentView::StopFacility(x), ComponentView::StopFacility(y)) => {
            &&& x.id == y.id
            &&& x.x == y.x
            &&& x.y == y.y
            &&& x.name == y.name
            &&& x.stop_area_id == y.stop_area_id
            &&& extends(x.routes, y.routes)
            &&& extends(x.lines, y.lines)
            &&& extends(x.departures, y.departures)
        },
        (ComponentView::Line(x), ComponentView::Line(y)) => {
            &&& x.id == y.id
            &&& x.name == y.name
            &&& x.agency_id == y.agency_id
            &&& x.route_type == y.route_type
            &&& extends(x.routes, y.routes)
            &&& extends(x.trips, y.trips)
        },
        (ComponentView::Route(x), ComponentView::Route(y)) => {
            &&& x.id == y.id
            &&& x.line == y.line
            &&& extends(x.route_profile, y.route_profile)
            &&& extends(x.departures, y.departures)
            &&& extends(x.trips, y.trips)
        },
        (ComponentView::Trip(x), ComponentView::Trip(y)) => {
            &&& x.id == y.id
            &&& x.route == y.route
            &&& x.line == y.line
            &&& x.headsign == y.headsign
            &&& extends(x.departures, y.departures)
        },
        (ComponentView::RouteDeparture(x), ComponentView::RouteDeparture(y)) => x == y,
        (ComponentView::RouteProfilePoint(x), ComponentView::RouteProfilePoint(y)) => x == y,
        (ComponentView::Departure(x), ComponentView::Departure(y)) => x == y,
        _ => false,
    }
}

/// Whether world `w2` keeps every entity of `w1`, with the same kind and
/// data and lists only extended; `w2` may hold more entities.
pub open spec fn entities_grow(w1: WorldView, w2: WorldView) -> bool {
    &&& w1.entities.len() <= w2.entities.len()
    &&& forall|e: int| 0 <= e < w1.entities.len() ==> grown(#[trigger] w1.entities[e], w2.entities[e])
}

/// Whether world `w2` keeps every entity of `w1` (same kind and data, lists
/// only extended) and every list of the schedule extended; `w2` may hold
/// more entities.
pub open spec fn grows(w1: WorldView, w2: WorldView) -> bool {
    &&& entities_grow(w1, w2)
    &&& w1.schedule.path == w2.schedule.path
    &&& extends(w1.schedule.routes, w2.schedule.routes)
    &&& extends(w1.schedule.trips, w2.schedule.trips)
    &&& extends(w1.schedule.departures, w2.schedule.departures)
}

pub(crate) proof fn lemma_grown_refl(c: ComponentView)
    ensures
        grown(c, c),
{
}

pub(crate) proof fn lemma_grown_trans(a: ComponentView, b: ComponentView, c: ComponentView)
    requires
        grown(a, b),
        grown(b, c),
    ensures
        grown(a, c),
{
}

pub(crate) proof fn lemma_entities_grow_push(w1: WorldView, w2: WorldView, c: ComponentView)
    requires
        w2.entities == w1.entities.push(c),
    ensures
        entities_grow(w1, w2),
{
    assert forall|e: int| 0 <= e < w1.entities.len() implies grown(
        #[trigger] w1.entities[e],
        w2.entities[e],
    ) by {
        assert(w2.entities[e] == w1.entities[e]);
        lemma_grown_refl(w1.entities[e]);
    }
}

pub(crate) proof fn lemma_grows_refl(w: WorldView)
    ensures
        grows(w, w),
{
    assert forall|e: int| 0 <= e < w.entities.len() implies grown(
        #[trigger] w.entities[e],
        w.entities[e],
    ) by {
        lemma_grown_refl(w.entities[e]);
    }
}

pub(crate) proof fn lemma_grows_trans(w1: WorldView, w2: WorldView, w3: WorldView)
    requires
        grows(w1, w2),
        grows(w2, w3),
    ensures
        grows(w1, w3),
{
    assert forall|e: int| 0 <= e < w1.entities.len() implies grown(
        #[trigger] w1.entities[e],
        w3.entities[e],
    ) by {
        lemma_grown_trans(w1.entities[e], w2.entities[e], w3.entities[e]);
    }
    assert forall|i: int| 0 <= i < w1.schedule.routes.len() implies #[trigger] w1.schedule.routes[i]
        == w3.schedule.routes[i] by {
        assert(w2.schedule.routes[i] == w3.schedule.routes[i]);
    }
    assert forall|i: int| 0 <= i < w1.schedule.trips.len() implies #[trigger] w1.schedule.trips[i]
        == w3.schedule.trips[i] by {
        assert(w2.schedule.trips[i] == w3.schedule.trips[i]);
    }
    assert forall|i: int| 0 <= i < w1.schedule.departures.len() implies #[trigger] w1.schedule.departures[i]
        == w3.schedule.departures[i] by {
        assert(w2.schedule.departures[i] == w3.schedule.departures[i]);
    }
}

pub(crate) proof fn lemma_grows_spawned(w: WorldView, c: ComponentView)
    ensures
        grows(w, w.spawned(c)),
{
    let w2 = w.spawned(c);
    assert forall|e: int| 0 <= e < w.entities.len() implies grown(
        #[trigger] w.entities[e],
        w2.entities[e],
    ) by {
        assert(w2.entities[e] == w.entities[e]);
        lemma_grown_refl(w.entities[e]);
    }
}

pub(crate) proof fn lemma_grown_link(c: ComponentView, kind: LinkKind, v: usize)
    ensures
        grown(c, link_component(c, kind, v)),
{
}

pub(crate) proof fn lemma_grows_linked(w: WorldView, target: usize, kind: LinkKind, v: usize)
    ensures
        grows(w, w.linked(target, kind, v)),
{
    let w2 = w.linked(target, kind, v);
    assert forall|e: int| 0 <= e < w.entities.len() implies grown(
        #[trigger] w.entities[e],
        w2.entities[e],
    ) by {
        if e == target {
            lemma_grown_link(w.entities[e], kind, v);
        } else {
            lemma_grown_refl(w.entities[e]);
        }
    }
}

/// A schedule whose lists are all extensions of another's, with the same path.
pub open spec fn schedule_grows(s1: ScheduleView, s2: ScheduleView) -> bool {
    &&& s1.path == s2.path
    &&& extends(s1.routes, s2.routes)
    &&& extends(s1.trips, s2.trips)
    &&& extends(s1.departures, s2.departures)
}

pub(crate) proof fn lemma_grows_with_schedule(w: WorldView, s: ScheduleView)
    requires
        schedule_grows(w.schedule, s),
    ensures
        grows(w, w.with_schedule(s)),
{
    lemma_grows_refl(w);
}

proof fn lemma_stop_facility_grows(w: WorldView, a: Seq<AttributeView>)
    ensures
        grows(w, stop_facility_spec(w, a)),
{
    let c = stop_facility_spec(w, a);
    lemma_grows_spawned(w, c.entities.last());
    let w1 = w.spawned(c.entities.last());
    lemma_grows_with_schedule(w1, c.schedule);
    lemma_grows_trans(w, w1, c);
}

proof fn lemma_line_grows(s: LoadStateView, w: WorldView)
    ensures
        grows(w, line_spec(s, w).1),
{
    let c = line_spec(s, w).1;
    lemma_grows_spawned(w, c.entities.last());
    let w1 = w.spawned(c.entities.last());
    lemma_grows_with_schedule(w1, c.schedule);
    lemma_grows_trans(w, w1, c);
}

/// Spawning, then extending the schedule's lists, then adding one link.
proof fn lemma_spawn_schedule_link_grows(
    w: WorldView,
    c: ComponentView,
    sched: ScheduleView,
    target: usize,
    kind: LinkKind,
    v: usize,
)
    requires
        schedule_grows(w.schedule, sched),
    ensures
        grows(w, w.spawned(c).with_schedule(sched).linked(target, kind, v)),
{
    let w1 = w.spawned(c);
    let w2 = w1.with_schedule(sched);
    let w3 = w2.linked(target, kind, v);
    lemma_grows_spawned(w, c);
    lemma_grows_with_schedule(w1, sched);
    lemma_grows_linked(w2, target, kind, v);
    lemma_grows_trans(w, w1, w2);
    lemma_grows_trans(w, w2, w3);
}

proof fn lemma_route_grows(s: LoadStateView, w: WorldView, a: Seq<AttributeView>)
    ensures
        grows(w, route_spec(s, w, a).1),
{
    match s.current_line_entity {
        Some(le) => {
            let e = w.entities.len() as usize;
            let c = route_spec(s, w, a).1;
            lemma_spawn_schedule_link_grows(
                w,
                c.entities[e as int],
                ScheduleView { routes: w.schedule.routes.push(e), ..w.schedule },
                le,
                LinkKind::LineRoutes,
                e,
            );
        },
        None => lemma_grows_refl(w),
    }
}

proof fn lemma_spawn_link_grows(w: WorldView, c: ComponentView, target: usize, kind: LinkKind, v: usize)
    ensures
        grows(w, w.spawned(c).linked(target, kind, v)),
{
    let w1 = w.spawned(c);
    lemma_grows_spawned(w, c);
    lemma_grows_linked(w1, target, kind, v);
    lemma_grows_trans(w, w1, w1.linked(target, kind, v));
}

proof fn lemma_profile_point_grows(s: LoadStateView, w: WorldView, a: Seq<AttributeView>)
    ensures
        grows(w, profile_point_spec(s, w, a)),
{
    lemma_grows_refl(w);
    match (crate::xml::last_value(a, "refId"@), s.current_route_entity) {
        (Some(stop_id), Some(re)) => if w.schedule.stop_facilities.contains_key(stop_id) {
            let point = crate::model::RouteProfilePoint {
                route: re,
                stop: w.schedule.stop_facilities[stop_id],
                arrival_offset: crate::loader::offset_attr(a, "arrivalOffset"@),
                departure_offset: crate::loader::offset_attr(a, "departureOffset"@),
            };
            lemma_spawn_link_grows(
                w,
                ComponentView::RouteProfilePoint(point),
                re,
                LinkKind::RouteProfile,
                w.entities.len() as usize,
            );
        },
        _ => {},
    }
}

proof fn lemma_route_departure_grows(s: LoadStateView, w: WorldView, a: Seq<AttributeView>)
    ensures
        grows(w, route_departure_spec(s, w, a)),
{
    lemma_grows_refl(w);
    match (
        crate::xml::last_value(a, "id"@),
        crate::xml::last_time(a, "departureTime"@),
        s.current_route_entity,
    ) {
        (Some(id), Some(t), Some(re)) => {
            let e = w.entities.len() as usize;
            let dep = crate::model::RouteDepartureView { id: id, departure_time: t, route: re, trip: None };
            lemma_spawn_schedule_link_grows(
                w,
                ComponentView::RouteDeparture(dep),
                ScheduleView { departures: w.schedule.departures.push(e), ..w.schedule },
                re,
                LinkKind::RouteDepartures,
                e,
            );
        },
        _ => {},
    }
}

proof fn lemma_profile_or_departure_grows(
    s: LoadStateView,
    w: WorldView,
    t: crate::loader::Tag,
    a: Seq<AttributeView>,
)
    ensures
        grows(w, profile_or_departure_spec(s, w, t, a)),
{
    lemma_grows_refl(w);
    lemma_profile_point_grows(s, w, a);
    lemma_route_departure_grows(s, w, a);
}

/// Handling an event never removes or changes what the world held: every
/// entity keeps its kind and data, its lists and the schedule's lists are
/// only extended, and entities are only added.
pub proof fn lemma_step_grows(s: LoadStateView, w: WorldView, ev: XmlEventView)
    ensures
        grows(w, step_spec(s, w, ev).1),
{
    lemma_grows_refl(w);
    match ev {
        XmlEventView::Start(el) => {
            let a = el.attributes;
            lemma_stop_facility_grows(w, a);
            lemma_route_grows(s, w, a);
            lemma_profile_or_departure_grows(s, w, crate::loader::tag_of(el.name), a);
        },
        XmlEventView::Empty(el) => {
            lemma_profile_or_departure_grows(s, w, crate::loader::tag_of(el.name), el.attributes);
        },
        XmlEventView::End(name) => {
            lemma_line_grows(s, w);
        },
        _ => {},
    }
}

/// Loading a document never removes or changes what the world held.
pub proof fn lemma_load_grows(s: LoadStateView, w: WorldView, events: Seq<XmlEventView>)
    ensures
        grows(w, load_spec(s, w, events).1),
    decreases events.len(),
{
    if events.len() == 0 || events[0] is Eof {
        lemma_grows_refl(w);
    } else {
        let (s2, w2) = step_spec(s, w, events[0]);
        lemma_step_grows(s, w, events[0]);
        lemma_load_grows(s2, w2, events.drop_first());
        lemma_grows_trans(w, w2, load_spec(s2, w2, events.drop_first()).1);
    }
}

pub(crate) proof fn lemma_stop_departures_grow(
    w: WorldView,
    points: Seq<crate::model::RouteProfilePoint>,
    line_name: Seq<char>,
    headsign: Seq<char>,
    start: u32,
    trip: usize,
    route: usize,
)
    ensures
        grows(w, add_stop_departures(w, points, line_name, headsign, start, trip, route)),
    decreases points.len(),
{
    if points.len() == 0 {
        lemma_grows_refl(w);
    } else {
        let w1 = add_stop_departures(w, points.drop_last(), line_name, headsign, start, trip, route);
        lemma_stop_departures_grow(w, points.drop_last(), line_name, headsign, start, trip, route);
        let p = points.last();
        let e = w1.entities.len() as usize;
        let c = ComponentView::Departure(
            crate::trips::stop_departure(p, line_name, headsign, start, trip, route),
        );
        let sched = ScheduleView { departures: w1.schedule.departures.push(e), ..w1.schedule };
        let w2 = w1.spawned(c).with_schedule(sched).linked(p.stop, LinkKind::StopDepartures, e);
        lemma_spawn_schedule_link_grows(w1, c, sched, p.stop, LinkKind::StopDepartures, e);
        lemma_grows_linked(w2, trip, LinkKind::TripDepartures, e);
        lemma_grows_trans(w1, w2, w2.linked(trip, LinkKind::TripDepartures, e));
        lemma_grows_trans(w, w1, w2.linked(trip, LinkKind::TripDepartures, e));
    }
}

pub(crate) proof fn lemma_add_trip_grows(
    w: WorldView,
    route: usize,
    route_id: Seq<char>,
    line: usize,
    points: Seq<crate::model::RouteProfilePoint>,
    dep: usize,
)
    ensures
        grows(w, add_trip(w, route, route_id, line, points, dep)),
{
    match crate::model::component_at(w, dep) {
        Some(ComponentView::RouteDeparture(d)) => {
            let headsign = crate::trips::headsign_of(w, points);
            let t = w.entities.len() as usize;
            let trip = crate::model::TripView {
                id: crate::trips::trip_id(route_id, d.id),
                route: route,
                line: line,
                departures: Seq::empty(),
                headsign: headsign,
            };
            let sched = ScheduleView { trips: w.schedule.trips.push(t), ..w.schedule };
            let w1 = w.spawned(ComponentView::Trip(trip)).with_schedule(sched).linked(
                route,
                LinkKind::RouteTrips,
                t,
            );
            lemma_spawn_schedule_link_grows(w, ComponentView::Trip(trip), sched, route, LinkKind::RouteTrips, t);
            let name = crate::trips::line_name_of(w1, line);
            let w2 = w1.linked(line, LinkKind::LineTrips, t);
            lemma_grows_linked(w1, line, LinkKind::LineTrips, t);
            let w3 = add_stop_departures(w2, points, name, crate::loader::or_empty(headsign), d.departure_time, t, route);
            lemma_stop_departures_grow(w2, points, name, crate::loader::or_empty(headsign), d.departure_time, t, route);
            lemma_grows_trans(w, w1, w2);
            lemma_grows_trans(w, w2, w3);
        },
        _ => lemma_grows_refl(w),
    }
}

pub(crate) proof fn lemma_add_trips_grows(
    w: WorldView,
    route: usize,
    route_id: Seq<char>,
    line: usize,
    points: Seq<crate::model::RouteProfilePoint>,
    deps: Seq<usize>,
)
    ensures
        grows(w, add_trips(w, route, route_id, line, points, deps)),
    decreases deps.len(),
{
    if deps.len() == 0 {
        lemma_grows_refl(w);
    } else {
        let w1 = add_trips(w, route, route_id, line, points, deps.drop_last());
        lemma_add_trips_grows(w, route, route_id, line, points, deps.drop_last());
        lemma_add_trip_grows(w1, route, route_id, line, points, deps.last());
        lemma_grows_trans(w, w1, add_trip(w1, route, route_id, line, points, deps.last()));
    }
}

pub(crate) proof fn lemma_expand_routes_grows(w: WorldView, routes: Seq<usize>)
    ensures
        grows(w, expand_routes(w, routes)),
    decreases routes.len(),
{
    if routes.len() == 0 {
        lemma_grows_refl(w);
    } else {
        let w1 = expand_routes(w, routes.drop_last());
        lemma_expand_routes_grows(w, routes.drop_last());
        match crate::model::component_at(w1, routes.last()) {
            Some(ComponentView::Route(r)) => {
                lemma_add_trips_grows(
                    w1,
                    routes.last(),
                    r.id,
                    r.line,
                    crate::trips::sort_by_offset(crate::trips::profile_points(w1, r.route_profile)),
                    r.departures,
                );
            },
            _ => lemma_grows_refl(w1),
        }
        lemma_grows_trans(w, w1, expand_route(w1, routes.last()));
    }
}

/// Expanding the schedule into trips never removes or changes what the
/// world held: it only adds entities and extends lists.
pub proof fn lemma_create_trips_grows(w: WorldView)
    ensures
        grows(w, create_trips_spec(w)),
{
    lemma_expand_routes_grows(w, w.schedule.routes);
}

} // verus!
