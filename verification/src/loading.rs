use vstd::prelude::*;
use crate::model::{component_at, ComponentView, WorldView};
use crate::growth::{grown, grows, lemma_load_grows, lemma_step_grows};
use crate::loader::{initial_state, load_spec, step_spec, tag_of, LoadStateView, Tag};
use crate::wellformed::{is_line, is_route, lemma_relations_grow, line_lists_route, point_of_route};
use crate::xml::{last_value, ElementView, XmlEventView};

verus! {

/// Whether entity `d` is a departure of route `r` that starts no trip and
/// is listed in the schedule's departures.
pub open spec fn departure_loaded(w: WorldView, d: usize, r: usize) -> bool {
    match component_at(w, d) {
        Some(ComponentView::RouteDeparture(x)) => {
            &&& x.route == r
            &&& x.trip is None
            &&& w.schedule.departures.contains(d)
        },
        _ => false,
    }
}

/// Whether entity `r` is a route whose line was added from entity `n` on
/// and lists it, whose profile points are points of it, and whose
/// departures are departures of it that start no trip and are listed in
/// the schedule's departures.
pub open spec fn route_loaded(w: WorldView, n: int, r: usize) -> bool {
    match component_at(w, r) {
        Some(ComponentView::Route(x)) => {
            &&& n <= x.line
            &&& line_lists_route(w, x.line, r)
            &&& forall|k: int|
                0 <= k < x.route_profile.len() ==> point_of_route(w, #[trigger] x.route_profile[k], r)
            &&& forall|k: int|
                0 <= k < x.departures.len() ==> departure_loaded(w, #[trigger] x.departures[k], r)
        },
        _ => false,
    }
}

/// What a load keeps of entity `e` when it added it (from entity `n` on):
/// a route is loaded as `route_loaded` says; a route departure starts no
/// trip and is listed in the schedule's departures.
pub open spec fn added_in_load(w: WorldView, n: int, e: usize) -> bool {
    match w.entities[e as int] {
        ComponentView::Route(_) => route_loaded(w, n, e),
        ComponentView::RouteDeparture(d) => d.trip is None && w.schedule.departures.contains(e),
        _ => true,
    }
}

/// What holds through a load that began with `n` entities and `nr` routes
/// in the schedule: the current line and route are a line and a route
/// added by it, the routes listed since are routes added by it, and what it
/// added is as `added_in_load` says.
pub open spec fn load_inv(n: int, nr: int, s: LoadStateView, w: WorldView) -> bool {
    &&& 0 <= n <= w.entities.len()
    &&& 0 <= nr <= w.schedule.routes.len()
    &&& s.current_line_entity matches Some(le) ==> n <= le && is_line(w, le)
    &&& s.current_route_entity matches Some(re) ==> n <= re && is_route(w, re)
    &&& forall|i: int|
        nr <= i < w.schedule.routes.len() ==> n <= #[trigger] w.schedule.routes[i] && is_route(
            w,
            w.schedule.routes[i],
        )
    &&& forall|e: usize| n <= e < w.entities.len() ==> #[trigger] added_in_load(w, n, e)
}

/// Whether what route `x` of `w1` lists beyond its lists in `w1` are, in
/// `w2`, points and departures of it as a load adds them.
pub open spec fn route_extras_ok(w1: WorldView, w2: WorldView, x: usize) -> bool {
    match (w1.entities[x as int], w2.entities[x as int]) {
        (ComponentView::Route(a), ComponentView::Route(b)) => {
            &&& forall|k: int|
                a.route_profile.len() <= k < b.route_profile.len() ==> point_of_route(
                    w2,
                    #[trigger] b.route_profile[k],
                    x,
                )
            &&& forall|k: int|
                a.departures.len() <= k < b.departures.len() ==> departure_loaded(
                    w2,
                    #[trigger] b.departures[k],
                    x,
                )
        },
        _ => true,
    }
}

proof fn lemma_added_in_load_grows(w1: WorldView, w2: WorldView, n: int, x: usize)
    requires
        grows(w1, w2),
        x < w1.entities.len(),
        added_in_load(w1, n, x),
        route_extras_ok(w1, w2, x),
    ensures
        added_in_load(w2, n, x),
{
    assert(grown(w1.entities[x as int], w2.entities[x as int]));
    lemma_relations_grow(w1, w2);
    match w1.entities[x as int] {
        ComponentView::RouteDeparture(d) => {
            let k = choose|k: int| 0 <= k < w1.schedule.departures.len() && w1.schedule.departures[k] == x;
            assert(w2.schedule.departures[k] == x);
        },
        ComponentView::Route(a) => {
            if let ComponentView::Route(b) = w2.entities[x as int] {
                assert(line_lists_route(w1, a.line, x));
                assert forall|k: int| 0 <= k < b.route_profile.len() implies point_of_route(
                    w2,
                    #[trigger] b.route_profile[k],
                    x,
                ) by {
                    if k < a.route_profile.len() {
                        assert(a.route_profile[k] == b.route_profile[k]);
                        assert(point_of_route(w1, a.route_profile[k], x));
                    }
                }
                assert forall|k: int| 0 <= k < b.departures.len() implies departure_loaded(
                    w2,
                    #[trigger] b.departures[k],
                    x,
                ) by {
                    if k < a.departures.len() {
                        let d = a.departures[k];
                        assert(b.departures[k] == d);
                        assert(departure_loaded(w1, d, x));
                        assert(grown(w1.entities[d as int], w2.entities[d as int]));
                        let j = choose|j: int| 0 <= j < w1.schedule.departures.len() && w1.schedule.departures[j] == d;
                        assert(w2.schedule.departures[j] == d);
                    }
                }
            }
        },
        _ => {},
    }
}

/// A step whose world adds at most the entity `e` and changes no entity
/// of `w` but `target`, keeps what the load added as it was.
proof fn lemma_old_added_kept(n: int, w: WorldView, w2: WorldView, target: usize)
    requires
        grows(w, w2),
        forall|x: usize| n <= x < w.entities.len() ==> #[trigger] added_in_load(w, n, x),
        forall|x: usize| x < w.entities.len() && x != target ==> #[trigger] w2.entities[x as int] == w.entities[x as int],
        target < w.entities.len() ==> route_extras_ok(w, w2, target),
    ensures
        forall|x: usize| n <= x < w.entities.len() ==> #[trigger] added_in_load(w2, n, x),
{
    assert forall|x: usize| n <= x < w.entities.len() implies #[trigger] added_in_load(w2, n, x) by {
        assert(added_in_load(w, n, x));
        if x != target {
            assert(w2.entities[x as int] == w.entities[x as int]);
            assert(route_extras_ok(w, w2, x));
        }
        lemma_added_in_load_grows(w, w2, n, x);
    }
}

proof fn lemma_step_keeps_load_inv(n: int, nr: int, s: LoadStateView, w: WorldView, ev: XmlEventView)
    requires
        load_inv(n, nr, s, w),
        step_spec(s, w, ev).1.entities.len() <= usize::MAX,
    ensures
        load_inv(n, nr, step_spec(s, w, ev).0, step_spec(s, w, ev).1),
{
    let (s2, w2) = step_spec(s, w, ev);
    lemma_step_grows(s, w, ev);
    lemma_relations_grow(w, w2);
    let e = w.entities.len() as usize;
    assert(e == w.entities.len());
    let f = s.flags;
    // the entity that the step may link to, when it adds one
    let target: usize = match ev {
        XmlEventView::Start(el) => match tag_of(el.name) {
            Tag::TransitRoute => match s.current_line_entity {
                Some(le) => le,
                None => e,
            },
            Tag::Stop | Tag::Departure => match s.current_route_entity {
                Some(re) => re,
                None => e,
            },
            _ => e,
        },
        XmlEventView::Empty(el) => match s.current_route_entity {
            Some(re) => re,
            None => e,
        },
        _ => e,
    };
    assert(forall|x: usize| x < w.entities.len() && x != target ==> #[trigger] w2.entities[x as int] == w.entities[x as int]);
    if target < w.entities.len() {
        if let ComponentView::Route(a) = w.entities[target as int] {
            if let ComponentView::Route(b) = w2.entities[target as int] {
                assert(b.route_profile.len() <= a.route_profile.len() + 1);
                if b.route_profile.len() > a.route_profile.len() {
                    assert(b.route_profile[a.route_profile.len() as int] == e);
                    assert(w2.entities[e as int] is RouteProfilePoint);
                }
                if b.departures.len() > a.departures.len() {
                    assert(b.departures[a.departures.len() as int] == e);
                    assert(w2.schedule.departures.last() == e);
                }
            }
        }
        assert(route_extras_ok(w, w2, target));
    }
    lemma_old_added_kept(n, w, w2, target);
    if w2.entities.len() > w.entities.len() {
        assert(w2.entities.len() == w.entities.len() + 1);
        if let ComponentView::Route(r) = w2.entities[e as int] {
            assert(r.route_profile.len() == 0 && r.departures.len() == 0);
            lemma_step_adds(s, w, ev);
            let le = r.line;
            assert(target == le);
            if let ComponentView::Line(l) = w.entities[le as int] {
                assert(w2.entities[le as int] == ComponentView::Line(
                    crate::model::LineView { routes: l.routes.push(e), ..l },
                ));
                assert(l.routes.push(e)[l.routes.len() as int] == e);
            }
            assert(line_lists_route(w2, r.line, e));
            assert(route_loaded(w2, n, e));
        }
        if let ComponentView::RouteDeparture(d) = w2.entities[e as int] {
            assert(w2.schedule.departures[w.schedule.departures.len() as int] == e);
        }
        assert(added_in_load(w2, n, e));
    }
    assert forall|x: usize| n <= x < w2.entities.len() implies #[trigger] added_in_load(w2, n, x) by {
        if x < w.entities.len() {
        } else {
            assert(x == e);
        }
    }
    assert forall|i: int| nr <= i < w2.schedule.routes.len() implies n <= #[trigger] w2.schedule.routes[i]
        && is_route(w2, w2.schedule.routes[i]) by {
        if i < w.schedule.routes.len() {
            assert(w.schedule.routes[i] == w2.schedule.routes[i]);
        } else {
            assert(w2.schedule.routes[i] == e);
        }
    }
}

proof fn lemma_load_keeps_load_inv(n: int, nr: int, s: LoadStateView, w: WorldView, events: Seq<XmlEventView>)
    requires
        load_inv(n, nr, s, w),
        load_spec(s, w, events).1.entities.len() <= usize::MAX,
    ensures
        load_inv(n, nr, load_spec(s, w, events).0, load_spec(s, w, events).1),
    decreases events.len(),
{
    if !(events.len() == 0 || events[0] is Eof) {
        let (s2, w2) = step_spec(s, w, events[0]);
        lemma_load_grows(s2, w2, events.drop_first());
        lemma_step_keeps_load_inv(n, nr, s, w, events[0]);
        lemma_load_keeps_load_inv(n, nr, s2, w2, events.drop_first());
    }
}

/// Whether every route that `w2` lists in its schedule beyond those of `w`
/// is an entity that `w` did not hold, and loaded as `route_loaded` says.
pub open spec fn new_routes_loaded(w: WorldView, w2: WorldView) -> bool {
    forall|i: int|
        w.schedule.routes.len() <= i < w2.schedule.routes.len() ==> w.entities.len()
            <= #[trigger] w2.schedule.routes[i] && route_loaded(
            w2,
            w.entities.len() as int,
            w2.schedule.routes[i],
        )
}

/// Loading a document, into any world: every route it lists in the
/// schedule is an entity it added, whose line is a line it added that
/// lists the route; the route's profile points are points of that route;
/// its departures are departures of that route that start no trip and are
/// listed in the schedule's departures (as long as the resulting world's
/// entities can be counted in a `usize`).
pub proof fn lemma_load_routes_complete(w: WorldView, events: Seq<XmlEventView>)
    requires
        load_spec(initial_state(), w, events).1.entities.len() <= usize::MAX,
    ensures
        new_routes_loaded(w, load_spec(initial_state(), w, events).1),
{
    let n = w.entities.len() as int;
    let nr = w.schedule.routes.len() as int;
    let w2 = load_spec(initial_state(), w, events).1;
    lemma_load_keeps_load_inv(n, nr, initial_state(), w, events);
    assert forall|i: int| nr <= i < w2.schedule.routes.len() implies {
        &&& w.entities.len() <= #[trigger] w2.schedule.routes[i]
        &&& route_loaded(w2, n, w2.schedule.routes[i])
    } by {
        let r = w2.schedule.routes[i];
        assert(is_route(w2, r));
        assert(added_in_load(w2, n, r));
    }
}

/// The element that an opening or self-closing tag carries.
pub open spec fn element_of(ev: XmlEventView) -> Option<ElementView> {
    match ev {
        XmlEventView::Start(el) => Some(el),
        XmlEventView::Empty(el) => Some(el),
        _ => None,
    }
}

/// Whether event `ev` is an opening tag of an element with the given name.
pub open spec fn opens(ev: XmlEventView, t: Tag) -> bool {
    match ev {
        XmlEventView::Start(el) => tag_of(el.name) == t,
        _ => false,
    }
}

/// Whether event `ev` is an opening or self-closing tag of an element with
/// the given name.
pub open spec fn has_element(ev: XmlEventView, t: Tag) -> bool {
    match element_of(ev) {
        Some(el) => tag_of(el.name) == t,
        None => false,
    }
}

/// Whether entity `e` is the one that the schedule indexes under the
/// stop facility id that element `el` refers to in its `refId`.
pub open spec fn refers_to_stop(w: WorldView, el: ElementView, e: usize) -> bool {
    match last_value(el.attributes, "refId"@) {
        Some(id) => w.schedule.stop_facilities.contains_key(id) && w.schedule.stop_facilities[id] == e,
        None => false,
    }
}

/// Whether component `c`, added by handling event `ev` in state `s` and
/// world `w`, is what that event calls for where the loader stands.
pub open spec fn added_for(s: LoadStateView, w: WorldView, ev: XmlEventView, c: ComponentView) -> bool {
    let f = s.flags;
    match c {
        ComponentView::StopFacility(_) => opens(ev, Tag::StopFacility),
        ComponentView::Line(_) => {
            &&& ev == XmlEventView::End("attributes"@)
            &&& f.in_line && f.in_line_attributes
        },
        ComponentView::Route(r) => {
            &&& opens(ev, Tag::TransitRoute)
            &&& f.in_line
            &&& s.current_line_entity == Some(r.line)
        },
        ComponentView::RouteProfilePoint(p) => {
            &&& has_element(ev, Tag::Stop)
            &&& f.in_route && f.in_route_profile
            &&& s.current_route_entity == Some(p.route)
            &&& refers_to_stop(w, element_of(ev)->0, p.stop)
        },
        ComponentView::RouteDeparture(d) => {
            &&& has_element(ev, Tag::Departure)
            &&& f.in_route && f.in_departures
            &&& s.current_route_entity == Some(d.route)
            &&& d.trip is None
        },
        _ => false,
    }
}

/// Handling one event adds at most one entity, and only what the event
/// calls for where the loader stands: a stop facility for an opening
/// `stopFacility` tag; a line when a line's `attributes` element closes; a
/// route of the current line for an opening `transitRoute` tag inside a
/// line; a profile point of the current route, at the stop facility that
/// the schedule indexes under its `refId`, for a `stop` element inside a
/// route's profile; a route departure of the current route, starting no
/// trip, for a `departure` element inside a route's departures. Nothing
/// else (no trip, no stop departure) is ever added.
pub proof fn lemma_step_adds(s: LoadStateView, w: WorldView, ev: XmlEventView)
    ensures
        step_spec(s, w, ev).1.entities.len() <= w.entities.len() + 1,
        step_spec(s, w, ev).1.entities.len() == w.entities.len() + 1 ==> added_for(
            s,
            w,
            ev,
            step_spec(s, w, ev).1.entities.last(),
        ),
{
    reveal_strlit("attributes");
    match ev {
        XmlEventView::End(name) => {
            if tag_of(name) == Tag::Attributes {
                assert(name == "attributes"@);
            }
        },
        _ => {},
    }
}

} // verus!
