use vstd::prelude::*;
use crate::model::{component_at, link_component, ComponentView, LinkKind, ScheduleView, WorldView};
use crate::growth::{
    entities_grow, extends, grown, grows, lemma_entities_grow_push, lemma_grows_linked, lemma_grows_refl, lemma_grows_spawned,
    lemma_grows_trans, lemma_grows_with_schedule, schedule_grows,
};
use crate::trips::{
    add_stop_departures, add_trip, add_trips, create_trips_spec, expand_route,
    expand_routes, headsign_of, line_name_of, profile_points, sort_by_offset, stop_departure,
    trip_id,
};
use crate::loader::{
    line_spec, or_empty, profile_point_spec, route_departure_spec, route_spec, step_spec,
    stop_facility_spec, load_spec, offset_attr, tag_of, text_spec, LoadStateView, Tag,
};
use crate::xml::{last_time, last_value, AttributeView, XmlEventView};
use crate::model::{LineView, RouteDepartureView, RouteProfilePoint, RouteView, StopFacilityView, TripView};

verus! {

/// Whether entity `e` is a stop facility.
pub open spec fn is_stop(w: WorldView, e: usize) -> bool {
    component_at(w, e) matches Some(ComponentView::StopFacility(_))
}

/// Whether entity `e` is a line.
pub open spec fn is_line(w: WorldView, e: usize) -> bool {
    component_at(w, e) matches Some(ComponentView::Line(_))
}

/// Whether entity `e` is a route.
pub open spec fn is_route(w: WorldView, e: usize) -> bool {
    component_at(w, e) matches Some(ComponentView::Route(_))
}

/// Whether entity `e` is a trip.
pub open spec fn is_trip(w: WorldView, e: usize) -> bool {
    component_at(w, e) matches Some(ComponentView::Trip(_))
}

/// Whether entity `e` is a route departure or a stop departure.
pub open spec fn is_any_departure(w: WorldView, e: usize) -> bool {
    component_at(w, e) matches Some(ComponentView::RouteDeparture(_))
        || component_at(w, e) matches Some(ComponentView::Departure(_))
}

/// Whether entity `e` is a stop facility with the given id.
pub open spec fn stop_with_id(w: WorldView, e: usize, id: Seq<char>) -> bool {
    component_at(w, e) matches Some(ComponentView::StopFacility(s)) && s.id == id
}

/// Whether entity `e` is a line with the given id.
pub open spec fn line_with_id(w: WorldView, e: usize, id: Seq<char>) -> bool {
    component_at(w, e) matches Some(ComponentView::Line(l)) && l.id == id
}

/// Whether entity `x` is a route of line `l`.
pub open spec fn route_of_line(w: WorldView, x: usize, l: usize) -> bool {
    component_at(w, x) matches Some(ComponentView::Route(r)) && r.line == l
}

/// Whether entity `x` is a trip of line `l`.
pub open spec fn trip_of_line(w: WorldView, x: usize, l: usize) -> bool {
    component_at(w, x) matches Some(ComponentView::Trip(t)) && t.line == l
}

/// Whether entity `x` is a profile point of route `r`.
pub open spec fn point_of_route(w: WorldView, x: usize, r: usize) -> bool {
    component_at(w, x) matches Some(ComponentView::RouteProfilePoint(p)) && p.route == r
}

/// Whether entity `x` is a route departure of route `r`.
pub open spec fn departure_of_route(w: WorldView, x: usize, r: usize) -> bool {
    component_at(w, x) matches Some(ComponentView::RouteDeparture(d)) && d.route == r
}

/// Whether entity `x` is a trip of route `r`.
pub open spec fn trip_of_route(w: WorldView, x: usize, r: usize) -> bool {
    component_at(w, x) matches Some(ComponentView::Trip(t)) && t.route == r
}

/// Whether entity `x` is a departure of trip `t`.
pub open spec fn departure_of_trip(w: WorldView, x: usize, t: usize) -> bool {
    component_at(w, x) matches Some(ComponentView::Departure(d)) && d.trip == t
}

/// Whether entity `x` is a departure at stop facility `s`.
pub open spec fn departure_at_stop(w: WorldView, x: usize, s: usize) -> bool {
    component_at(w, x) matches Some(ComponentView::Departure(d)) && d.stop == s
}

/// Whether entity `l` is a line that lists route `r`.
pub open spec fn line_lists_route(w: WorldView, l: usize, r: usize) -> bool {
    component_at(w, l) matches Some(ComponentView::Line(line)) && line.routes.contains(r)
}

/// Whether every link held by entity `e` points at an entity of the kind
/// that the link is for, related back to `e`.
pub open spec fn entity_wf(w: WorldView, e: usize) -> bool {
    match w.entities[e as int] {
        ComponentView::StopFacility(s) => forall|k: int|
            0 <= k < s.departures.len() ==> departure_at_stop(w, #[trigger] s.departures[k], e),
        ComponentView::Line(l) => {
            &&& forall|k: int| 0 <= k < l.routes.len() ==> route_of_line(w, #[trigger] l.routes[k], e)
            &&& forall|k: int| 0 <= k < l.trips.len() ==> trip_of_line(w, #[trigger] l.trips[k], e)
        },
        ComponentView::Route(r) => {
            &&& is_line(w, r.line)
            &&& line_lists_route(w, r.line, e)
            &&& forall|k: int|
                0 <= k < r.route_profile.len() ==> point_of_route(w, #[trigger] r.route_profile[k], e)
            &&& forall|k: int|
                0 <= k < r.departures.len() ==> departure_of_route(w, #[trigger] r.departures[k], e)
            &&& forall|k: int| 0 <= k < r.trips.len() ==> trip_of_route(w, #[trigger] r.trips[k], e)
        },
        ComponentView::Trip(t) => {
            &&& is_route(w, t.route)
            &&& is_line(w, t.line)
            &&& forall|k: int|
                0 <= k < t.departures.len() ==> departure_of_trip(w, #[trigger] t.departures[k], e)
        },
        ComponentView::RouteDeparture(d) => is_route(w, d.route),
        ComponentView::RouteProfilePoint(p) => is_route(w, p.route) && is_stop(w, p.stop),
        ComponentView::Departure(d) => is_stop(w, d.stop) && is_trip(w, d.trip) && is_route(
            w,
            d.route,
        ),
    }
}

/// The world's links are well formed: the schedule's indexes and lists
/// point at entities of the right kind (stop facilities and lines under
/// their own ids), and every entity's links do too.
pub open spec fn world_wf(w: WorldView) -> bool {
    schedule_wf(w) && entities_wf(w)
}

/// The schedule's indexes and lists point at entities of the right kind.
pub open spec fn schedule_wf(w: WorldView) -> bool {
    &&& forall|id: Seq<char>| #[trigger]
        w.schedule.stop_facilities.contains_key(id) ==> stop_with_id(
            w,
            w.schedule.stop_facilities[id],
            id,
        )
    &&& forall|id: Seq<char>| #[trigger]
        w.schedule.lines.contains_key(id) ==> line_with_id(w, w.schedule.lines[id], id)
    &&& forall|i: int| 0 <= i < w.schedule.routes.len() ==> is_route(w, #[trigger] w.schedule.routes[i])
    &&& forall|i: int| 0 <= i < w.schedule.trips.len() ==> is_trip(w, #[trigger] w.schedule.trips[i])
    &&& forall|i: int|
        0 <= i < w.schedule.departures.len() ==> is_any_departure(
            w,
            #[trigger] w.schedule.departures[i],
        )
}

/// Every entity's links are well formed.
pub open spec fn entities_wf(w: WorldView) -> bool {
    forall|e: usize| e < w.entities.len() ==> #[trigger] entity_wf(w, e)
}

/// Every relation between entities that holds in a world holds in any
/// world it grows into.
pub(crate) proof fn lemma_relations_grow(w1: WorldView, w2: WorldView)
    requires
        entities_grow(w1, w2),
    ensures
        forall|e: usize| #[trigger] is_stop(w1, e) ==> is_stop(w2, e),
        forall|e: usize| #[trigger] is_line(w1, e) ==> is_line(w2, e),
        forall|e: usize| #[trigger] is_route(w1, e) ==> is_route(w2, e),
        forall|e: usize| #[trigger] is_trip(w1, e) ==> is_trip(w2, e),
        forall|e: usize| #[trigger] is_any_departure(w1, e) ==> is_any_departure(w2, e),
        forall|e: usize, id: Seq<char>| #[trigger] stop_with_id(w1, e, id) ==> stop_with_id(w2, e, id),
        forall|e: usize, id: Seq<char>| #[trigger] line_with_id(w1, e, id) ==> line_with_id(w2, e, id),
        forall|x: usize, y: usize| #[trigger] route_of_line(w1, x, y) ==> route_of_line(w2, x, y),
        forall|x: usize, y: usize| #[trigger] trip_of_line(w1, x, y) ==> trip_of_line(w2, x, y),
        forall|x: usize, y: usize| #[trigger] point_of_route(w1, x, y) ==> point_of_route(w2, x, y),
        forall|x: usize, y: usize|
            #[trigger] departure_of_route(w1, x, y) ==> departure_of_route(w2, x, y),
        forall|x: usize, y: usize| #[trigger] trip_of_route(w1, x, y) ==> trip_of_route(w2, x, y),
        forall|x: usize, y: usize|
            #[trigger] departure_of_trip(w1, x, y) ==> departure_of_trip(w2, x, y),
        forall|x: usize, y: usize|
            #[trigger] departure_at_stop(w1, x, y) ==> departure_at_stop(w2, x, y),
        forall|x: usize, y: usize|
            #[trigger] line_lists_route(w1, x, y) ==> line_lists_route(w2, x, y),
{
    assert forall|x: usize, y: usize| #[trigger] line_lists_route(w1, x, y) implies line_lists_route(
        w2,
        x,
        y,
    ) by {
        let a = w1.entities[x as int];
        let b = w2.entities[x as int];
        assert(grown(a, b));
        if let (ComponentView::Line(la), ComponentView::Line(lb)) = (a, b) {
            let k = choose|k: int| 0 <= k < la.routes.len() && la.routes[k] == y;
            assert(lb.routes[k] == y);
        }
    }
    assert forall|e: usize| #[trigger] is_stop(w1, e) implies is_stop(w2, e) by {
        assert(grown(w1.entities[e as int], w2.entities[e as int]));
    }
    assert forall|e: usize| #[trigger] is_line(w1, e) implies is_line(w2, e) by {
        assert(grown(w1.entities[e as int], w2.entities[e as int]));
    }
    assert forall|e: usize| #[trigger] is_route(w1, e) implies is_route(w2, e) by {
        assert(grown(w1.entities[e as int], w2.entities[e as int]));
    }
    assert forall|e: usize| #[trigger] is_trip(w1, e) implies is_trip(w2, e) by {
        assert(grown(w1.entities[e as int], w2.entities[e as int]));
    }
    assert forall|e: usize| #[trigger] is_any_departure(w1, e) implies is_any_departure(w2, e) by {
        assert(grown(w1.entities[e as int], w2.entities[e as int]));
    }
    assert forall|e: usize, id: Seq<char>| #[trigger] stop_with_id(w1, e, id) implies stop_with_id(
        w2,
        e,
        id,
    ) by {
        assert(grown(w1.entities[e as int], w2.entities[e as int]));
    }
    assert forall|e: usize, id: Seq<char>| #[trigger] line_with_id(w1, e, id) implies line_with_id(
        w2,
        e,
        id,
    ) by {
        assert(grown(w1.entities[e as int], w2.entities[e as int]));
    }
    assert forall|x: usize, y: usize| #[trigger] route_of_line(w1, x, y) implies route_of_line(
        w2,
        x,
        y,
    ) by {
        assert(grown(w1.entities[x as int], w2.entities[x as int]));
    }
    assert forall|x: usize, y: usize| #[trigger] trip_of_line(w1, x, y) implies trip_of_line(
        w2,
        x,
        y,
    ) by {
        assert(grown(w1.entities[x as int], w2.entities[x as int]));
    }
    assert forall|x: usize, y: usize| #[trigger] point_of_route(w1, x, y) implies point_of_route(
        w2,
        x,
        y,
    ) by {
        assert(grown(w1.entities[x as int], w2.entities[x as int]));
    }
    assert forall|x: usize, y: usize| #[trigger] departure_of_route(w1, x, y) implies departure_of_route(
        w2,
        x,
        y,
    ) by {
        assert(grown(w1.entities[x as int], w2.entities[x as int]));
    }
    assert forall|x: usize, y: usize| #[trigger] trip_of_route(w1, x, y) implies trip_of_route(
        w2,
        x,
        y,
    ) by {
        assert(grown(w1.entities[x as int], w2.entities[x as int]));
    }
    assert forall|x: usize, y: usize| #[trigger] departure_of_trip(w1, x, y) implies departure_of_trip(
        w2,
        x,
        y,
    ) by {
        assert(grown(w1.entities[x as int], w2.entities[x as int]));
    }
    assert forall|x: usize, y: usize| #[trigger] departure_at_stop(w1, x, y) implies departure_at_stop(
        w2,
        x,
        y,
    ) by {
        assert(grown(w1.entities[x as int], w2.entities[x as int]));
    }
}

/// An entity whose component a growing world leaves as it was keeps its
/// links well formed.
pub(crate) proof fn lemma_entity_wf_unchanged(w1: WorldView, w2: WorldView, e: usize)
    requires
        entities_grow(w1, w2),
        e < w1.entities.len(),
        w2.entities[e as int] == w1.entities[e as int],
        entity_wf(w1, e),
    ensures
        entity_wf(w2, e),
{
    lemma_relations_grow(w1, w2);
    match w1.entities[e as int] {
        ComponentView::StopFacility(s) => {
            assert forall|k: int| 0 <= k < s.departures.len() implies departure_at_stop(
                w2,
                #[trigger] s.departures[k],
                e,
            ) by {
                assert(departure_at_stop(w1, s.departures[k], e));
            }
        },
        ComponentView::Line(l) => {
            assert forall|k: int| 0 <= k < l.routes.len() implies route_of_line(
                w2,
                #[trigger] l.routes[k],
                e,
            ) by {
                assert(route_of_line(w1, l.routes[k], e));
            }
            assert forall|k: int| 0 <= k < l.trips.len() implies trip_of_line(
                w2,
                #[trigger] l.trips[k],
                e,
            ) by {
                assert(trip_of_line(w1, l.trips[k], e));
            }
        },
        ComponentView::Route(r) => {
            assert(is_line(w1, r.line));
            assert(line_lists_route(w1, r.line, e));
            assert forall|k: int| 0 <= k < r.route_profile.len() implies point_of_route(
                w2,
                #[trigger] r.route_profile[k],
                e,
            ) by {
                assert(point_of_route(w1, r.route_profile[k], e));
            }
            assert forall|k: int| 0 <= k < r.departures.len() implies departure_of_route(
                w2,
                #[trigger] r.departures[k],
                e,
            ) by {
                assert(departure_of_route(w1, r.departures[k], e));
            }
            assert forall|k: int| 0 <= k < r.trips.len() implies trip_of_route(
                w2,
                #[trigger] r.trips[k],
                e,
            ) by {
                assert(trip_of_route(w1, r.trips[k], e));
            }
        },
        ComponentView::Trip(t) => {
            assert(is_route(w1, t.route));
            assert(is_line(w1, t.line));
            assert forall|k: int| 0 <= k < t.departures.len() implies departure_of_trip(
                w2,
                #[trigger] t.departures[k],
                e,
            ) by {
                assert(departure_of_trip(w1, t.departures[k], e));
            }
        },
        ComponentView::RouteDeparture(d) => {
            assert(is_route(w1, d.route));
        },
        ComponentView::RouteProfilePoint(p) => {
            assert(is_route(w1, p.route));
            assert(is_stop(w1, p.stop));
        },
        ComponentView::Departure(d) => {
            assert(is_stop(w1, d.stop));
            assert(is_trip(w1, d.trip));
            assert(is_route(w1, d.route));
        },
    }
}

/// Whether adding `v` to the list that `kind` names in entity `t` keeps
/// that entity's links well formed.
pub open spec fn link_ok(w: WorldView, t: usize, kind: LinkKind, v: usize) -> bool {
    match component_at(w, t) {
        Some(ComponentView::Line(_)) => {
            &&& kind == LinkKind::LineRoutes ==> route_of_line(w, v, t)
            &&& kind == LinkKind::LineTrips ==> trip_of_line(w, v, t)
        },
        Some(ComponentView::Route(_)) => {
            &&& kind == LinkKind::RouteProfile ==> point_of_route(w, v, t)
            &&& kind == LinkKind::RouteDepartures ==> departure_of_route(w, v, t)
            &&& kind == LinkKind::RouteTrips ==> trip_of_route(w, v, t)
        },
        Some(ComponentView::StopFacility(_)) => kind == LinkKind::StopDepartures ==> departure_at_stop(
            w,
            v,
            t,
        ),
        Some(ComponentView::Trip(_)) => kind == LinkKind::TripDepartures ==> departure_of_trip(
            w,
            v,
            t,
        ),
        _ => true,
    }
}

pub(crate) proof fn lemma_spawned_entities_wf(w: WorldView, c: ComponentView)
    requires
        entities_wf(w),
        entity_wf(w.spawned(c), w.entities.len() as usize),
    ensures
        entities_wf(w.spawned(c)),
{
    let w2 = w.spawned(c);
    lemma_grows_spawned(w, c);
    assert forall|e: usize| e < w2.entities.len() implies #[trigger] entity_wf(w2, e) by {
        if e < w.entities.len() {
            assert(entity_wf(w, e));
            lemma_entity_wf_unchanged(w, w2, e);
        }
    }
}

pub(crate) proof fn lemma_with_schedule_entities_wf(w: WorldView, s: ScheduleView)
    requires
        entities_wf(w),
    ensures
        entities_wf(w.with_schedule(s)),
{
    let w2 = w.with_schedule(s);
    assert forall|e: usize| e < w2.entities.len() implies #[trigger] entity_wf(w2, e) by {
        assert(entity_wf(w, e));
        assert(w2.entities == w.entities);
    }
}

pub(crate) proof fn lemma_linked_entity_wf(w: WorldView, t: usize, kind: LinkKind, v: usize)
    requires
        t < w.entities.len(),
        entity_wf(w, t),
        link_ok(w, t, kind, v),
    ensures
        entity_wf(w.linked(t, kind, v), t),
{
    let w2 = w.linked(t, kind, v);
    let e = t;
    lemma_grows_linked(w, t, kind, v);
    lemma_relations_grow(w, w2);
    match w.entities[e as int] {
        ComponentView::StopFacility(s) => {
            let s2 = w2.entities[e as int]->StopFacility_0;
            assert forall|k: int| 0 <= k < s2.departures.len() implies departure_at_stop(
                w2,
                #[trigger] s2.departures[k],
                e,
            ) by {
                if k < s.departures.len() {
                    assert(departure_at_stop(w, s.departures[k], e));
                }
            }
        },
        ComponentView::Line(l) => {
            let l2 = w2.entities[e as int]->Line_0;
            assert forall|k: int| 0 <= k < l2.routes.len() implies route_of_line(
                w2,
                #[trigger] l2.routes[k],
                e,
            ) by {
                if k < l.routes.len() {
                    assert(route_of_line(w, l.routes[k], e));
                }
            }
            assert forall|k: int| 0 <= k < l2.trips.len() implies trip_of_line(
                w2,
                #[trigger] l2.trips[k],
                e,
            ) by {
                if k < l.trips.len() {
                    assert(trip_of_line(w, l.trips[k], e));
                }
            }
        },
        ComponentView::Route(r) => {
            let r2 = w2.entities[e as int]->Route_0;
            assert(is_line(w, r.line));
            assert(line_lists_route(w, r.line, e));
            assert forall|k: int| 0 <= k < r2.route_profile.len() implies point_of_route(
                w2,
                #[trigger] r2.route_profile[k],
                e,
            ) by {
                if k < r.route_profile.len() {
                    assert(point_of_route(w, r.route_profile[k], e));
                }
            }
            assert forall|k: int| 0 <= k < r2.departures.len() implies departure_of_route(
                w2,
                #[trigger] r2.departures[k],
                e,
            ) by {
                if k < r.departures.len() {
                    assert(departure_of_route(w, r.departures[k], e));
                }
            }
            assert forall|k: int| 0 <= k < r2.trips.len() implies trip_of_route(
                w2,
                #[trigger] r2.trips[k],
                e,
            ) by {
                if k < r.trips.len() {
                    assert(trip_of_route(w, r.trips[k], e));
                }
            }
        },
        ComponentView::Trip(tr) => {
            let t2 = w2.entities[e as int]->Trip_0;
            assert(is_route(w, tr.route));
            assert(is_line(w, tr.line));
            assert forall|k: int| 0 <= k < t2.departures.len() implies departure_of_trip(
                w2,
                #[trigger] t2.departures[k],
                e,
            ) by {
                if k < tr.departures.len() {
                    assert(departure_of_trip(w, tr.departures[k], e));
                }
            }
        },
        _ => {
            lemma_entity_wf_unchanged(w, w2, e);
        },
    }
}

pub(crate) proof fn lemma_linked_entities_wf(w: WorldView, t: usize, kind: LinkKind, v: usize)
    requires
        entities_wf(w),
        link_ok(w, t, kind, v),
    ensures
        entities_wf(w.linked(t, kind, v)),
{
    let w2 = w.linked(t, kind, v);
    lemma_grows_linked(w, t, kind, v);
    assert forall|e: usize| e < w2.entities.len() implies #[trigger] entity_wf(w2, e) by {
        assert(entity_wf(w, e));
        if e != t {
            lemma_entity_wf_unchanged(w, w2, e);
        } else {
            lemma_linked_entity_wf(w, t, kind, v);
        }
    }
}

/// A new entity `c` added to `w` (with any schedule), linked from entity
/// `t`: the links stay well formed when the link fits `t` and the new
/// entity's own links are well formed once linked.
pub(crate) proof fn lemma_spawn_link_entities_wf(
    w: WorldView,
    w1: WorldView,
    c: ComponentView,
    t: usize,
    kind: LinkKind,
)
    requires
        entities_wf(w),
        w1.entities == w.entities.push(c),
        t < w.entities.len(),
        w.entities.len() < usize::MAX,
        link_ok(w1, t, kind, w.entities.len() as usize),
        entity_wf(w1.linked(t, kind, w.entities.len() as usize), w.entities.len() as usize),
    ensures
        entities_wf(w1.linked(t, kind, w.entities.len() as usize)),
{
    let n = w.entities.len() as usize;
    let w2 = w1.linked(t, kind, n);
    lemma_entities_grow_push(w, w1, c);
    lemma_grows_linked(w1, t, kind, n);
    assert(entities_grow(w, w2)) by {
        assert forall|e: int| 0 <= e < w.entities.len() implies grown(
            #[trigger] w.entities[e],
            w2.entities[e],
        ) by {
            crate::growth::lemma_grown_trans(w.entities[e], w1.entities[e], w2.entities[e]);
        }
    }
    assert(entity_wf(w1, t)) by {
        assert(entity_wf(w, t));
        lemma_entity_wf_unchanged(w, w1, t);
    }
    lemma_linked_entity_wf(w1, t, kind, n);
    assert forall|e: usize| e < w2.entities.len() implies #[trigger] entity_wf(w2, e) by {
        if e < n && e != t {
            assert(entity_wf(w, e));
            lemma_entity_wf_unchanged(w, w2, e);
        }
    }
}

/// The loader's remembered line and route are a line and a route.
pub open spec fn state_wf(s: LoadStateView, w: WorldView) -> bool {
    &&& s.current_line_entity matches Some(le) ==> is_line(w, le)
    &&& s.current_route_entity matches Some(re) ==> is_route(w, re)
}

pub(crate) proof fn lemma_schedule_wf_grows(w1: WorldView, w2: WorldView)
    requires
        schedule_wf(w1),
        grows(w1, w2),
        w2.schedule == w1.schedule,
    ensures
        schedule_wf(w2),
{
    lemma_relations_grow(w1, w2);
    assert forall|id: Seq<char>| #[trigger] w2.schedule.stop_facilities.contains_key(id) implies stop_with_id(
        w2,
        w2.schedule.stop_facilities[id],
        id,
    ) by {
        assert(stop_with_id(w1, w1.schedule.stop_facilities[id], id));
    }
    assert forall|id: Seq<char>| #[trigger] w2.schedule.lines.contains_key(id) implies line_with_id(
        w2,
        w2.schedule.lines[id],
        id,
    ) by {
        assert(line_with_id(w1, w1.schedule.lines[id], id));
    }
    assert forall|i: int| 0 <= i < w2.schedule.routes.len() implies is_route(
        w2,
        #[trigger] w2.schedule.routes[i],
    ) by {
        assert(is_route(w1, w1.schedule.routes[i]));
    }
    assert forall|i: int| 0 <= i < w2.schedule.trips.len() implies is_trip(
        w2,
        #[trigger] w2.schedule.trips[i],
    ) by {
        assert(is_trip(w1, w1.schedule.trips[i]));
    }
    assert forall|i: int| 0 <= i < w2.schedule.departures.len() implies is_any_departure(
        w2,
        #[trigger] w2.schedule.departures[i],
    ) by {
        assert(is_any_departure(w1, w1.schedule.departures[i]));
    }
}

pub(crate) proof fn lemma_state_wf_grows(s: LoadStateView, w1: WorldView, w2: WorldView)
    requires
        state_wf(s, w1),
        grows(w1, w2),
    ensures
        state_wf(s, w2),
{
    lemma_relations_grow(w1, w2);
    if let Some(le) = s.current_line_entity {
        assert(is_line(w1, le));
    }
    if let Some(re) = s.current_route_entity {
        assert(is_route(w1, re));
    }
}

proof fn lemma_stop_facility_wf(s: LoadStateView, w: WorldView, a: Seq<AttributeView>)
    requires
        stop_facility_spec(w, a).entities.len() <= usize::MAX,
        world_wf(w),
        state_wf(s, w),
    ensures
        world_wf(stop_facility_spec(w, a)),
        state_wf(s, stop_facility_spec(w, a)),
{
    let id = or_empty(last_value(a, "id"@));
    let n = w.entities.len() as usize;
    let r = stop_facility_spec(w, a);
    let c = ComponentView::StopFacility(
        StopFacilityView {
            id: id,
            x: last_value(a, "x"@),
            y: last_value(a, "y"@),
            name: last_value(a, "name"@),
            stop_area_id: last_value(a, "stopAreaId"@),
            routes: Seq::empty(),
            lines: Seq::empty(),
            departures: Seq::empty(),
        },
    );
    let w1 = w.spawned(c);
    assert(r == w1.with_schedule(r.schedule));
    assert(entity_wf(w1, n));
    lemma_spawned_entities_wf(w, c);
    lemma_with_schedule_entities_wf(w1, r.schedule);
    lemma_grows_spawned(w, c);
    lemma_grows_with_schedule(w1, r.schedule);
    lemma_grows_trans(w, w1, r);
    lemma_relations_grow(w, r);
    assert forall|id2: Seq<char>| #[trigger] r.schedule.stop_facilities.contains_key(id2) implies stop_with_id(
        r,
        r.schedule.stop_facilities[id2],
        id2,
    ) by {
        if id2 != id {
            assert(stop_with_id(w, w.schedule.stop_facilities[id2], id2));
        }
    }
    assert forall|id2: Seq<char>| #[trigger] r.schedule.lines.contains_key(id2) implies line_with_id(
        r,
        r.schedule.lines[id2],
        id2,
    ) by {
        assert(line_with_id(w, w.schedule.lines[id2], id2));
    }
    assert forall|i: int| 0 <= i < r.schedule.routes.len() implies is_route(
        r,
        #[trigger] r.schedule.routes[i],
    ) by {
        assert(is_route(w, w.schedule.routes[i]));
    }
    assert forall|i: int| 0 <= i < r.schedule.trips.len() implies is_trip(
        r,
        #[trigger] r.schedule.trips[i],
    ) by {
        assert(is_trip(w, w.schedule.trips[i]));
    }
    assert forall|i: int| 0 <= i < r.schedule.departures.len() implies is_any_departure(
        r,
        #[trigger] r.schedule.departures[i],
    ) by {
        assert(is_any_departure(w, w.schedule.departures[i]));
    }
    lemma_state_wf_grows(s, w, r);
}

proof fn lemma_line_wf(s: LoadStateView, w: WorldView)
    requires
        line_spec(s, w).1.entities.len() <= usize::MAX,
        world_wf(w),
        state_wf(s, w),
    ensures
        world_wf(line_spec(s, w).1),
        state_wf(line_spec(s, w).0, line_spec(s, w).1),
{
    let id = or_empty(s.current_line);
    let n = w.entities.len() as usize;
    let r = line_spec(s, w).1;
    let c = ComponentView::Line(
        LineView {
            id: id,
            name: or_empty(s.current_line_name),
            agency_id: s.current_line_agency_id,
            route_type: s.current_line_route_type,
            routes: Seq::empty(),
            trips: Seq::empty(),
        },
    );
    let w1 = w.spawned(c);
    assert(r == w1.with_schedule(r.schedule));
    assert(entity_wf(w1, n));
    lemma_spawned_entities_wf(w, c);
    lemma_with_schedule_entities_wf(w1, r.schedule);
    lemma_grows_spawned(w, c);
    lemma_grows_with_schedule(w1, r.schedule);
    lemma_grows_trans(w, w1, r);
    lemma_relations_grow(w, r);
    assert forall|id2: Seq<char>| #[trigger] r.schedule.stop_facilities.contains_key(id2) implies stop_with_id(
        r,
        r.schedule.stop_facilities[id2],
        id2,
    ) by {
        assert(stop_with_id(w, w.schedule.stop_facilities[id2], id2));
    }
    assert forall|id2: Seq<char>| #[trigger] r.schedule.lines.contains_key(id2) implies line_with_id(
        r,
        r.schedule.lines[id2],
        id2,
    ) by {
        if id2 != id {
            assert(line_with_id(w, w.schedule.lines[id2], id2));
        }
    }
    assert forall|i: int| 0 <= i < r.schedule.routes.len() implies is_route(
        r,
        #[trigger] r.schedule.routes[i],
    ) by {
        assert(is_route(w, w.schedule.routes[i]));
    }
    assert forall|i: int| 0 <= i < r.schedule.trips.len() implies is_trip(
        r,
        #[trigger] r.schedule.trips[i],
    ) by {
        assert(is_trip(w, w.schedule.trips[i]));
    }
    assert forall|i: int| 0 <= i < r.schedule.departures.len() implies is_any_departure(
        r,
        #[trigger] r.schedule.departures[i],
    ) by {
        assert(is_any_departure(w, w.schedule.departures[i]));
    }
    lemma_state_wf_grows(s, w, r);
}

/// The schedule stays well formed when its indexes are kept and its lists
/// are only extended with entries of the right kind.
pub(crate) proof fn lemma_schedule_wf_extended(w: WorldView, r: WorldView)
    requires
        schedule_wf(w),
        entities_grow(w, r),
        r.schedule.stop_facilities == w.schedule.stop_facilities,
        r.schedule.lines == w.schedule.lines,
        extends(w.schedule.routes, r.schedule.routes),
        extends(w.schedule.trips, r.schedule.trips),
        extends(w.schedule.departures, r.schedule.departures),
        forall|i: int|
            w.schedule.routes.len() <= i < r.schedule.routes.len() ==> is_route(
                r,
                #[trigger] r.schedule.routes[i],
            ),
        forall|i: int|
            w.schedule.trips.len() <= i < r.schedule.trips.len() ==> is_trip(
                r,
                #[trigger] r.schedule.trips[i],
            ),
        forall|i: int|
            w.schedule.departures.len() <= i < r.schedule.departures.len() ==> is_any_departure(
                r,
                #[trigger] r.schedule.departures[i],
            ),
    ensures
        schedule_wf(r),
{
    lemma_relations_grow(w, r);
    assert forall|id: Seq<char>| #[trigger] r.schedule.stop_facilities.contains_key(id) implies stop_with_id(
        r,
        r.schedule.stop_facilities[id],
        id,
    ) by {
        assert(stop_with_id(w, w.schedule.stop_facilities[id], id));
    }
    assert forall|id: Seq<char>| #[trigger] r.schedule.lines.contains_key(id) implies line_with_id(
        r,
        r.schedule.lines[id],
        id,
    ) by {
        assert(line_with_id(w, w.schedule.lines[id], id));
    }
    assert forall|i: int| 0 <= i < r.schedule.routes.len() implies is_route(
        r,
        #[trigger] r.schedule.routes[i],
    ) by {
        if i < w.schedule.routes.len() {
            assert(is_route(w, w.schedule.routes[i]));
        }
    }
    assert forall|i: int| 0 <= i < r.schedule.trips.len() implies is_trip(
        r,
        #[trigger] r.schedule.trips[i],
    ) by {
        if i < w.schedule.trips.len() {
            assert(is_trip(w, w.schedule.trips[i]));
        }
    }
    assert forall|i: int| 0 <= i < r.schedule.departures.len() implies is_any_departure(
        r,
        #[trigger] r.schedule.departures[i],
    ) by {
        if i < w.schedule.departures.len() {
            assert(is_any_departure(w, w.schedule.departures[i]));
        }
    }
}

proof fn lemma_route_wf(s: LoadStateView, w: WorldView, a: Seq<AttributeView>)
    requires
        route_spec(s, w, a).1.entities.len() <= usize::MAX,
        world_wf(w),
        state_wf(s, w),
    ensures
        world_wf(route_spec(s, w, a).1),
        state_wf(route_spec(s, w, a).0, route_spec(s, w, a).1),
{
    let current_route = crate::loader::or_keep(last_value(a, "id"@), s.current_route);
    match s.current_line_entity {
        Some(le) => {
            let n = w.entities.len() as usize;
            let c = ComponentView::Route(
                RouteView {
                    id: or_empty(current_route),
                    route_profile: Seq::empty(),
                    departures: Seq::empty(),
                    trips: Seq::empty(),
                    line: le,
                },
            );
            let sched = ScheduleView { routes: w.schedule.routes.push(n), ..w.schedule };
            let w1 = w.spawned(c).with_schedule(sched);
            let r = w1.linked(le, LinkKind::LineRoutes, n);
            assert(r == route_spec(s, w, a).1);
            assert(is_line(w, le));
            assert(entity_wf(r, n)) by {
                let l2 = r.entities[le as int]->Line_0;
                assert(l2.routes[l2.routes.len() - 1] == n);
                assert(l2.routes.contains(n));
                assert(line_lists_route(r, le, n));
            }
            lemma_spawn_link_entities_wf(w, w1, c, le, LinkKind::LineRoutes);
            lemma_entities_grow_push(w, w1, c);
            lemma_grows_linked(w1, le, LinkKind::LineRoutes, n);
            crate::growth::lemma_grows_trans(w1, w1, r);
            assert(entities_grow(w, r)) by {
                assert forall|e: int| 0 <= e < w.entities.len() implies grown(
                    #[trigger] w.entities[e],
                    r.entities[e],
                ) by {
                    crate::growth::lemma_grown_trans(w.entities[e], w1.entities[e], r.entities[e]);
                }
            }
            lemma_schedule_wf_extended(w, r);
            lemma_relations_grow(w, r);
        },
        None => {},
    }
}

proof fn lemma_profile_point_wf(s: LoadStateView, w: WorldView, a: Seq<AttributeView>)
    requires
        profile_point_spec(s, w, a).entities.len() <= usize::MAX,
        world_wf(w),
        state_wf(s, w),
    ensures
        world_wf(profile_point_spec(s, w, a)),
        state_wf(s, profile_point_spec(s, w, a)),
{
    match (last_value(a, "refId"@), s.current_route_entity) {
        (Some(stop_id), Some(re)) => if w.schedule.stop_facilities.contains_key(stop_id) {
            let n = w.entities.len() as usize;
            let se = w.schedule.stop_facilities[stop_id];
            let c = ComponentView::RouteProfilePoint(
                RouteProfilePoint {
                    route: re,
                    stop: se,
                    arrival_offset: offset_attr(a, "arrivalOffset"@),
                    departure_offset: offset_attr(a, "departureOffset"@),
                },
            );
            let w1 = w.spawned(c);
            let r = w1.linked(re, LinkKind::RouteProfile, n);
            assert(r == profile_point_spec(s, w, a));
            assert(is_route(w, re));
            assert(stop_with_id(w, se, stop_id));
            lemma_entities_grow_push(w, w1, c);
            lemma_relations_grow(w, w1);
            lemma_spawn_link_entities_wf(w, w1, c, re, LinkKind::RouteProfile);
            lemma_grows_linked(w1, re, LinkKind::RouteProfile, n);
            assert(entities_grow(w, r)) by {
                assert forall|e: int| 0 <= e < w.entities.len() implies grown(
                    #[trigger] w.entities[e],
                    r.entities[e],
                ) by {
                    crate::growth::lemma_grown_trans(w.entities[e], w1.entities[e], r.entities[e]);
                }
            }
            lemma_schedule_wf_extended(w, r);
            lemma_relations_grow(w, r);
        },
        _ => {},
    }
}

proof fn lemma_route_departure_wf(s: LoadStateView, w: WorldView, a: Seq<AttributeView>)
    requires
        route_departure_spec(s, w, a).entities.len() <= usize::MAX,
        world_wf(w),
        state_wf(s, w),
    ensures
        world_wf(route_departure_spec(s, w, a)),
        state_wf(s, route_departure_spec(s, w, a)),
{
    match (last_value(a, "id"@), last_time(a, "departureTime"@), s.current_route_entity) {
        (Some(id), Some(t), Some(re)) => {
            let n = w.entities.len() as usize;
            let c = ComponentView::RouteDeparture(
                RouteDepartureView { id: id, departure_time: t, route: re, trip: None },
            );
            let sched = ScheduleView { departures: w.schedule.departures.push(n), ..w.schedule };
            let w1 = w.spawned(c).with_schedule(sched);
            let r = w1.linked(re, LinkKind::RouteDepartures, n);
            assert(r == route_departure_spec(s, w, a));
            assert(is_route(w, re));
            lemma_entities_grow_push(w, w1, c);
            lemma_relations_grow(w, w1);
            lemma_spawn_link_entities_wf(w, w1, c, re, LinkKind::RouteDepartures);
            lemma_grows_linked(w1, re, LinkKind::RouteDepartures, n);
            assert(entities_grow(w, r)) by {
                assert forall|e: int| 0 <= e < w.entities.len() implies grown(
                    #[trigger] w.entities[e],
                    r.entities[e],
                ) by {
                    crate::growth::lemma_grown_trans(w.entities[e], w1.entities[e], r.entities[e]);
                }
            }
            lemma_schedule_wf_extended(w, r);
            lemma_relations_grow(w, r);
        },
        _ => {},
    }
}

/// Handling an event keeps the world's links well formed (every index and
/// list of the schedule, and every link between entities, points at an
/// entity of the right kind), and keeps the loader's remembered line and
/// route a line and a route.
pub proof fn lemma_step_keeps_wf(s: LoadStateView, w: WorldView, ev: XmlEventView)
    requires
        world_wf(w),
        state_wf(s, w),
        step_spec(s, w, ev).1.entities.len() <= usize::MAX,
    ensures
        world_wf(step_spec(s, w, ev).1),
        state_wf(step_spec(s, w, ev).0, step_spec(s, w, ev).1),
{
    match ev {
        XmlEventView::Start(el) => {
            let a = el.attributes;
            match tag_of(el.name) {
                Tag::StopFacility => lemma_stop_facility_wf(s, w, a),
                Tag::TransitRoute => if s.flags.in_line {
                    lemma_route_wf(s, w, a);
                },
                Tag::Stop => if s.flags.in_route && s.flags.in_route_profile {
                    lemma_profile_point_wf(s, w, a);
                },
                Tag::Departure => if s.flags.in_route && s.flags.in_departures {
                    lemma_route_departure_wf(s, w, a);
                },
                _ => {},
            }
        },
        XmlEventView::Empty(el) => {
            let a = el.attributes;
            match tag_of(el.name) {
                Tag::Stop => if s.flags.in_route && s.flags.in_route_profile {
                    lemma_profile_point_wf(s, w, a);
                },
                Tag::Departure => if s.flags.in_route && s.flags.in_departures {
                    lemma_route_departure_wf(s, w, a);
                },
                _ => {},
            }
        },
        XmlEventView::End(name) => {
            if tag_of(name) == Tag::Attributes && s.flags.in_line && s.flags.in_line_attributes {
                lemma_line_wf(s, w);
            }
        },
        _ => {},
    }
}

/// Loading a document keeps the world's links well formed (as long as the
/// resulting world's entities can be counted in a `usize`).
pub proof fn lemma_load_keeps_wf(s: LoadStateView, w: WorldView, events: Seq<XmlEventView>)
    requires
        world_wf(w),
        state_wf(s, w),
        load_spec(s, w, events).1.entities.len() <= usize::MAX,
    ensures
        world_wf(load_spec(s, w, events).1),
        state_wf(load_spec(s, w, events).0, load_spec(s, w, events).1),
    decreases events.len(),
{
    if !(events.len() == 0 || events[0] is Eof) {
        let (s2, w2) = step_spec(s, w, events[0]);
        crate::growth::lemma_load_grows(s2, w2, events.drop_first());
        lemma_step_keeps_wf(s, w, events[0]);
        lemma_load_keeps_wf(s2, w2, events.drop_first());
    }
}

/// An empty world with a fresh schedule is well formed, and so is the
/// loader's first state in it.
pub proof fn lemma_empty_world_wf(w: WorldView)
    requires
        w.entities.len() == 0,
        w.schedule.stop_facilities.dom().is_empty(),
        w.schedule.lines.dom().is_empty(),
        w.schedule.routes.len() == 0,
        w.schedule.trips.len() == 0,
        w.schedule.departures.len() == 0,
    ensures
        world_wf(w),
        state_wf(crate::loader::initial_state(), w),
{
    assert forall|id: Seq<char>| #[trigger] w.schedule.stop_facilities.contains_key(id) implies stop_with_id(
        w,
        w.schedule.stop_facilities[id],
        id,
    ) by {
        assert(w.schedule.stop_facilities.dom().contains(id));
    }
    assert forall|id: Seq<char>| #[trigger] w.schedule.lines.contains_key(id) implies line_with_id(
        w,
        w.schedule.lines[id],
        id,
    ) by {
        assert(w.schedule.lines.dom().contains(id));
    }
}

/// Every point's stop is a stop facility.
pub open spec fn points_at_stops(w: WorldView, points: Seq<RouteProfilePoint>) -> bool {
    forall|i: int| 0 <= i < points.len() ==> is_stop(w, (#[trigger] points[i]).stop)
}

proof fn lemma_points_at_stops_grow(w1: WorldView, w2: WorldView, points: Seq<RouteProfilePoint>)
    requires
        entities_grow(w1, w2),
        points_at_stops(w1, points),
    ensures
        points_at_stops(w2, points),
{
    lemma_relations_grow(w1, w2);
    assert forall|i: int| 0 <= i < points.len() implies is_stop(w2, (#[trigger] points[i]).stop) by {
        assert(is_stop(w1, points[i].stop));
    }
}

proof fn lemma_stop_departures_wf(
    w: WorldView,
    points: Seq<RouteProfilePoint>,
    line_name: Seq<char>,
    headsign: Seq<char>,
    start: u32,
    trip: usize,
    route: usize,
)
    requires
        world_wf(w),
        is_trip(w, trip),
        is_route(w, route),
        points_at_stops(w, points),
        add_stop_departures(w, points, line_name, headsign, start, trip, route).entities.len()
            <= usize::MAX,
    ensures
        world_wf(add_stop_departures(w, points, line_name, headsign, start, trip, route)),
    decreases points.len(),
{
    if points.len() > 0 {
        let w1 = add_stop_departures(w, points.drop_last(), line_name, headsign, start, trip, route);
        let r = add_stop_departures(w, points, line_name, headsign, start, trip, route);
        let p = points.last();
        let n = w1.entities.len() as usize;
        let c = ComponentView::Departure(stop_departure(p, line_name, headsign, start, trip, route));
        let sched = ScheduleView { departures: w1.schedule.departures.push(n), ..w1.schedule };
        let wa = w1.spawned(c).with_schedule(sched);
        let wb = wa.linked(p.stop, LinkKind::StopDepartures, n);
        assert(r == wb.linked(trip, LinkKind::TripDepartures, n));
        assert(points.drop_last().len() < points.len());
        crate::growth::lemma_stop_departures_grow(w1, points, line_name, headsign, start, trip, route);
        assert(points_at_stops(w, points.drop_last())) by {
            assert forall|i: int| 0 <= i < points.drop_last().len() implies is_stop(
                w,
                (#[trigger] points.drop_last()[i]).stop,
            ) by {
                assert(points.drop_last()[i] == points[i]);
            }
        }
        lemma_stop_departures_wf(w, points.drop_last(), line_name, headsign, start, trip, route);
        crate::growth::lemma_stop_departures_grow(w, points.drop_last(), line_name, headsign, start, trip, route);
        lemma_relations_grow(w, w1);
        assert(is_stop(w, points[points.len() - 1].stop));
        assert(is_stop(w1, p.stop));
        assert(is_trip(w1, trip));
        assert(is_route(w1, route));
        lemma_entities_grow_push(w1, wa, c);
        lemma_relations_grow(w1, wa);
        lemma_spawn_link_entities_wf(w1, wa, c, p.stop, LinkKind::StopDepartures);
        lemma_grows_linked(wa, p.stop, LinkKind::StopDepartures, n);
        lemma_relations_grow(wa, wb);
        assert(departure_of_trip(wb, n, trip));
        lemma_linked_entities_wf(wb, trip, LinkKind::TripDepartures, n);
        lemma_grows_linked(wb, trip, LinkKind::TripDepartures, n);
        assert(entities_grow(w1, r)) by {
            assert forall|e: int| 0 <= e < w1.entities.len() implies grown(
                #[trigger] w1.entities[e],
                r.entities[e],
            ) by {
                crate::growth::lemma_grown_trans(w1.entities[e], wa.entities[e], wb.entities[e]);
                crate::growth::lemma_grown_trans(w1.entities[e], wb.entities[e], r.entities[e]);
            }
        }
        lemma_relations_grow(w1, r);
        lemma_relations_grow(wb, r);
        lemma_schedule_wf_extended(w1, r);
    }
}

proof fn lemma_add_trip_wf(
    w: WorldView,
    route: usize,
    route_id: Seq<char>,
    line: usize,
    points: Seq<RouteProfilePoint>,
    dep: usize,
)
    requires
        world_wf(w),
        is_route(w, route),
        is_line(w, line),
        points_at_stops(w, points),
        add_trip(w, route, route_id, line, points, dep).entities.len() <= usize::MAX,
    ensures
        world_wf(add_trip(w, route, route_id, line, points, dep)),
{
    match component_at(w, dep) {
        Some(ComponentView::RouteDeparture(d)) => {
            let headsign = headsign_of(w, points);
            let t = w.entities.len() as usize;
            let c = ComponentView::Trip(
                TripView {
                    id: trip_id(route_id, d.id),
                    route: route,
                    line: line,
                    departures: Seq::empty(),
                    headsign: headsign,
                },
            );
            let sched = ScheduleView { trips: w.schedule.trips.push(t), ..w.schedule };
            let wa = w.spawned(c).with_schedule(sched);
            let w1 = wa.linked(route, LinkKind::RouteTrips, t);
            let name = line_name_of(w1, line);
            let w2 = w1.linked(line, LinkKind::LineTrips, t);
            let r = add_stop_departures(w2, points, name, or_empty(headsign), d.departure_time, t, route);
            assert(r == add_trip(w, route, route_id, line, points, dep));
            crate::growth::lemma_stop_departures_grow(w2, points, name, or_empty(headsign), d.departure_time, t, route);
            lemma_entities_grow_push(w, wa, c);
            lemma_relations_grow(w, wa);
            lemma_spawn_link_entities_wf(w, wa, c, route, LinkKind::RouteTrips);
            lemma_grows_linked(wa, route, LinkKind::RouteTrips, t);
            lemma_relations_grow(wa, w1);
            assert(entities_grow(w, w1)) by {
                assert forall|e: int| 0 <= e < w.entities.len() implies grown(
                    #[trigger] w.entities[e],
                    w1.entities[e],
                ) by {
                    crate::growth::lemma_grown_trans(w.entities[e], wa.entities[e], w1.entities[e]);
                }
            }
            lemma_schedule_wf_extended(w, w1);
            assert(trip_of_line(w1, t, line));
            lemma_linked_entities_wf(w1, line, LinkKind::LineTrips, t);
            lemma_grows_linked(w1, line, LinkKind::LineTrips, t);
            lemma_schedule_wf_grows(w1, w2);
            lemma_relations_grow(w1, w2);
            lemma_relations_grow(w, w1);
            lemma_points_at_stops_grow(w, w1, points);
            lemma_points_at_stops_grow(w1, w2, points);
            lemma_stop_departures_wf(w2, points, name, or_empty(headsign), d.departure_time, t, route);
        },
        _ => {},
    }
}

proof fn lemma_add_trips_wf(
    w: WorldView,
    route: usize,
    route_id: Seq<char>,
    line: usize,
    points: Seq<RouteProfilePoint>,
    deps: Seq<usize>,
)
    requires
        world_wf(w),
        is_route(w, route),
        is_line(w, line),
        points_at_stops(w, points),
        add_trips(w, route, route_id, line, points, deps).entities.len() <= usize::MAX,
    ensures
        world_wf(add_trips(w, route, route_id, line, points, deps)),
    decreases deps.len(),
{
    if deps.len() > 0 {
        let w1 = add_trips(w, route, route_id, line, points, deps.drop_last());
        crate::growth::lemma_add_trip_grows(w1, route, route_id, line, points, deps.last());
        lemma_add_trips_wf(w, route, route_id, line, points, deps.drop_last());
        crate::growth::lemma_add_trips_grows(w, route, route_id, line, points, deps.drop_last());
        lemma_relations_grow(w, w1);
        lemma_points_at_stops_grow(w, w1, points);
        lemma_add_trip_wf(w1, route, route_id, line, points, deps.last());
    }
}

/// In a well-formed world, the profile points found among any entities are
/// at stop facilities, and so they are once ordered.
proof fn lemma_sorted_points_at_stops(w: WorldView, es: Seq<usize>)
    requires
        entities_wf(w),
    ensures
        points_at_stops(w, sort_by_offset(profile_points(w, es))),
{
    lemma_profile_points_at_stops(w, es);
    let s = profile_points(w, es);
    let sorted = sort_by_offset(s);
    crate::laws::lemma_sort_by_offset(s);
    assert forall|i: int| 0 <= i < sorted.len() implies is_stop(w, (#[trigger] sorted[i]).stop) by {
        let x = sorted[i];
        assert(sorted.to_multiset().count(x) > 0) by {
            broadcast use vstd::seq_lib::group_to_multiset_ensures;
            assert(sorted.contains(x));
        }
        assert(s.contains(x)) by {
            broadcast use vstd::seq_lib::group_to_multiset_ensures;
        }
        let j = choose|j: int| 0 <= j < s.len() && s[j] == x;
        assert(is_stop(w, s[j].stop));
    }
}

proof fn lemma_profile_points_at_stops(w: WorldView, es: Seq<usize>)
    requires
        entities_wf(w),
    ensures
        points_at_stops(w, profile_points(w, es)),
    decreases es.len(),
{
    if es.len() > 0 {
        lemma_profile_points_at_stops(w, es.drop_last());
        let e = es.last();
        if e < w.entities.len() {
            assert(entity_wf(w, e));
        }
    }
}

proof fn lemma_expand_routes_wf(w: WorldView, routes: Seq<usize>)
    requires
        world_wf(w),
        expand_routes(w, routes).entities.len() <= usize::MAX,
    ensures
        world_wf(expand_routes(w, routes)),
    decreases routes.len(),
{
    if routes.len() > 0 {
        let w1 = expand_routes(w, routes.drop_last());
        let route = routes.last();
        match component_at(w1, route) {
            Some(ComponentView::Route(r)) => {
                let points = sort_by_offset(profile_points(w1, r.route_profile));
                crate::growth::lemma_add_trips_grows(w1, route, r.id, r.line, points, r.departures);
            },
            _ => {},
        }
        lemma_expand_routes_wf(w, routes.drop_last());
        match component_at(w1, route) {
            Some(ComponentView::Route(r)) => {
                let points = sort_by_offset(profile_points(w1, r.route_profile));
                crate::growth::lemma_add_trips_grows(w1, route, r.id, r.line, points, r.departures);
                assert(entity_wf(w1, route));
                lemma_sorted_points_at_stops(w1, r.route_profile);
                lemma_add_trips_wf(w1, route, r.id, r.line, points, r.departures);
            },
            _ => {},
        }
    }
}

/// Expanding the schedule into trips keeps the world's links well formed
/// (every index and list of the schedule, and every link between entities,
/// points at an entity of the right kind), as long as the resulting world's
/// entities can be counted in a `usize`.
pub proof fn lemma_create_trips_keeps_wf(w: WorldView)
    requires
        world_wf(w),
        create_trips_spec(w).entities.len() <= usize::MAX,
    ensures
        world_wf(create_trips_spec(w)),
{
    lemma_expand_routes_wf(w, w.schedule.routes);
}

} // verus!
