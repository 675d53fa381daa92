use vstd::prelude::*;
use crate::model::{ComponentView, WorldView};
use crate::loader::{flags_step, initial_state, load_spec, step_spec, tag_of, LoadFlags, LoadStateView, Tag};
use crate::loading::{has_element, lemma_step_adds, opens};
use crate::xml::XmlEventView;

verus! {

/// The elements left open after `events`, as the loader tells their names
/// apart, outermost first: an opening tag opens one, a closing tag closes
/// the innermost.
pub open spec fn open_tags(events: Seq<XmlEventView>) -> Seq<Tag>
    decreases events.len(),
{
    if events.len() == 0 {
        Seq::empty()
    } else {
        let open = open_tags(events.drop_last());
        match events.last() {
            XmlEventView::Start(el) => open.push(tag_of(el.name)),
            XmlEventView::End(_) => if open.len() > 0 {
                open.drop_last()
            } else {
                open
            },
            _ => open,
        }
    }
}

/// Whether `ev`, when it is a closing tag, closes the innermost of the
/// `open` elements.
pub open spec fn closes_innermost(open: Seq<Tag>, ev: XmlEventView) -> bool {
    match ev {
        XmlEventView::End(name) => open.len() > 0 && open.last() == tag_of(name),
        _ => true,
    }
}

/// Whether every closing tag closes the innermost open element.
pub open spec fn well_nested(events: Seq<XmlEventView>) -> bool {
    forall|i: int| 0 <= i < events.len() ==> closes_innermost(open_tags(events.take(i)), #[trigger] events[i])
}

/// Whether `ev`, when it opens a route, does so outside every route
/// profile and departures element.
pub open spec fn route_outside_lists(open: Seq<Tag>, ev: XmlEventView) -> bool {
    match ev {
        XmlEventView::Start(el) => tag_of(el.name) == Tag::TransitRoute ==> {
            &&& !open.contains(Tag::RouteProfile)
            &&& !open.contains(Tag::Departures)
        },
        _ => true,
    }
}

/// Whether no route opens inside a route profile or a departures element.
pub open spec fn no_route_in_lists(events: Seq<XmlEventView>) -> bool {
    forall|i: int| 0 <= i < events.len() ==> route_outside_lists(open_tags(events.take(i)), #[trigger] events[i])
}

/// Whether an `outer` element is open with an `inner` one open inside it.
pub open spec fn open_within(open: Seq<Tag>, outer: Tag, inner: Tag) -> bool {
    exists|a: int, b: int| #![trigger open[a], open[b]] 0 <= a < b < open.len() && open[a] == outer && open[b] == inner
}

/// Whether an `outer` element is open, a `middle` one inside it, and an
/// `inner` one inside that.
pub open spec fn open_within3(open: Seq<Tag>, outer: Tag, middle: Tag, inner: Tag) -> bool {
    exists|a: int, b: int, c: int| #![trigger open[a], open[b], open[c]]
        0 <= a < b < c < open.len() && open[a] == outer && open[b] == middle && open[c] == inner
}

/// Whether no route is open inside a route profile or a departures element.
pub open spec fn no_route_inside_lists(open: Seq<Tag>) -> bool {
    forall|a: int, b: int| #![trigger open[a], open[b]]
        0 <= a < b < open.len() && (open[a] == Tag::RouteProfile || open[a] == Tag::Departures)
            ==> open[b] != Tag::TransitRoute
}

/// How the loader's place in the document follows the open elements.
pub open spec fn flags_follow(open: Seq<Tag>, f: LoadFlags) -> bool {
    &&& no_route_inside_lists(open)
    &&& f.in_line ==> open.contains(Tag::TransitLine)
    &&& f.in_route ==> open_within(open, Tag::TransitLine, Tag::TransitRoute)
    &&& f.in_route_profile ==> f.in_route && open_within3(
        open,
        Tag::TransitLine,
        Tag::TransitRoute,
        Tag::RouteProfile,
    )
    &&& f.in_departures ==> f.in_route && open_within3(
        open,
        Tag::TransitLine,
        Tag::TransitRoute,
        Tag::Departures,
    )
}

/// The loader's place in the document after `events`, from place `f`.
pub open spec fn flags_after(f: LoadFlags, events: Seq<XmlEventView>) -> LoadFlags
    decreases events.len(),
{
    if events.len() == 0 {
        f
    } else {
        flags_after(flags_step(f, events[0]), events.drop_first())
    }
}

proof fn lemma_flags_after_push(f: LoadFlags, es: Seq<XmlEventView>, e: XmlEventView)
    ensures
        flags_after(f, es.push(e)) == flags_step(flags_after(f, es), e),
    decreases es.len(),
{
    if es.len() == 0 {
        assert(es.push(e)[0] == e);
        assert(es.push(e).drop_first() =~= Seq::<XmlEventView>::empty());
        assert(flags_after(flags_step(f, e), Seq::<XmlEventView>::empty()) == flags_step(f, e));
    } else {
        assert(es.push(e).drop_first() =~= es.drop_first().push(e));
        assert(es.push(e)[0] == es[0]);
        lemma_flags_after_push(flags_step(f, es[0]), es.drop_first(), e);
    }
}

proof fn lemma_load_flags(s: LoadStateView, w: WorldView, es: Seq<XmlEventView>)
    requires
        forall|k: int| 0 <= k < es.len() ==> !(#[trigger] es[k] is Eof),
    ensures
        load_spec(s, w, es).0.flags == flags_after(s.flags, es),
    decreases es.len(),
{
    if es.len() > 0 {
        assert(!(es[0] is Eof));
        let (s2, w2) = step_spec(s, w, es[0]);
        assert forall|k: int| 0 <= k < es.drop_first().len() implies !(#[trigger] es.drop_first()[k] is Eof) by {
            assert(es.drop_first()[k] == es[k + 1]);
        }
        lemma_load_flags(s2, w2, es.drop_first());
    }
}

/// An opening tag keeps the loader's place in step with the open elements.
proof fn lemma_flags_follow_start(open: Seq<Tag>, f: LoadFlags, el: crate::xml::ElementView)
    requires
        flags_follow(open, f),
        route_outside_lists(open, XmlEventView::Start(el)),
    ensures
        flags_follow(open.push(tag_of(el.name)), flags_step(f, XmlEventView::Start(el))),
{
    let t = tag_of(el.name);
    let open2 = open.push(t);
    let f2 = flags_step(f, XmlEventView::Start(el));
    let n = open.len() as int;
    assert(open2[n] == t);
    assert forall|a: int, b: int| #![trigger open2[a], open2[b]]
        0 <= a < b < open2.len() && (open2[a] == Tag::RouteProfile || open2[a] == Tag::Departures)
            implies open2[b] != Tag::TransitRoute by {
        if b < n {
            assert(open[a] == open2[a] && open[b] == open2[b]);
        } else if t == Tag::TransitRoute {
            assert(open[a] == open2[a]);
            assert(open.contains(open[a]));
        }
    }
    if f.in_line {
        let k = choose|k: int| 0 <= k < open.len() && open[k] == Tag::TransitLine;
        assert(open2[k] == Tag::TransitLine);
    }
    if f2.in_line && !f.in_line {
        assert(open2[n] == Tag::TransitLine);
    }
    if f.in_route {
        let (a, b) = choose|a: int, b: int| #![trigger open[a], open[b]]
            0 <= a < b < open.len() && open[a] == Tag::TransitLine && open[b] == Tag::TransitRoute;
        assert(open2[a] == open[a] && open2[b] == open[b]);
        assert(open_within(open2, Tag::TransitLine, Tag::TransitRoute));
        if f2.in_route_profile && !f.in_route_profile {
            assert(open2[n] == Tag::RouteProfile);
            assert(open_within3(open2, Tag::TransitLine, Tag::TransitRoute, Tag::RouteProfile));
        }
        if f2.in_departures && !f.in_departures {
            assert(open2[n] == Tag::Departures);
            assert(open_within3(open2, Tag::TransitLine, Tag::TransitRoute, Tag::Departures));
        }
    }
    if f2.in_route && !f.in_route {
        let a = choose|a: int| 0 <= a < open.len() && open[a] == Tag::TransitLine;
        assert(open2[a] == Tag::TransitLine && open2[n] == Tag::TransitRoute);
        assert(open_within(open2, Tag::TransitLine, Tag::TransitRoute));
    }
    if f.in_route_profile {
        let (a, b, c) = choose|a: int, b: int, c: int| #![trigger open[a], open[b], open[c]]
            0 <= a < b < c < open.len() && open[a] == Tag::TransitLine && open[b] == Tag::TransitRoute
                && open[c] == Tag::RouteProfile;
        assert(open2[a] == open[a] && open2[b] == open[b] && open2[c] == open[c]);
        assert(open_within3(open2, Tag::TransitLine, Tag::TransitRoute, Tag::RouteProfile));
    }
    if f.in_departures {
        let (a, b, c) = choose|a: int, b: int, c: int| #![trigger open[a], open[b], open[c]]
            0 <= a < b < c < open.len() && open[a] == Tag::TransitLine && open[b] == Tag::TransitRoute
                && open[c] == Tag::Departures;
        assert(open2[a] == open[a] && open2[b] == open[b] && open2[c] == open[c]);
        assert(open_within3(open2, Tag::TransitLine, Tag::TransitRoute, Tag::Departures));
    }
}

/// A closing tag that closes the innermost open element keeps the loader's
/// place in step with the open elements.
proof fn lemma_flags_follow_end(open: Seq<Tag>, f: LoadFlags, name: Seq<char>)
    requires
        flags_follow(open, f),
        closes_innermost(open, XmlEventView::End(name)),
    ensures
        flags_follow(open.drop_last(), flags_step(f, XmlEventView::End(name))),
{
    let t = tag_of(name);
    let open2 = open.drop_last();
    let f2 = flags_step(f, XmlEventView::End(name));
    let n1 = open.len() - 1;
    assert(open[n1] == t);
    assert forall|a: int, b: int| #![trigger open2[a], open2[b]]
        0 <= a < b < open2.len() && (open2[a] == Tag::RouteProfile || open2[a] == Tag::Departures)
            implies open2[b] != Tag::TransitRoute by {
        assert(open[a] == open2[a] && open[b] == open2[b]);
    }
    if f.in_line && t != Tag::TransitLine {
        let k = choose|k: int| 0 <= k < open.len() && open[k] == Tag::TransitLine;
        assert(k != n1);
        assert(open2[k] == Tag::TransitLine);
    }
    if f.in_route {
        let (a, b) = choose|a: int, b: int| #![trigger open[a], open[b]]
            0 <= a < b < open.len() && open[a] == Tag::TransitLine && open[b] == Tag::TransitRoute;
        if t != Tag::TransitRoute {
            assert(b != n1);
            assert(open2[a] == open[a] && open2[b] == open[b]);
            assert(open_within(open2, Tag::TransitLine, Tag::TransitRoute));
        }
    }
    if f.in_route_profile {
        let (a, b, c) = choose|a: int, b: int, c: int| #![trigger open[a], open[b], open[c]]
            0 <= a < b < c < open.len() && open[a] == Tag::TransitLine && open[b] == Tag::TransitRoute
                && open[c] == Tag::RouteProfile;
        if t == Tag::TransitRoute {
            assert(open[c] == Tag::RouteProfile && open[n1] == Tag::TransitRoute);
            assert(c < n1);
        }
        if t != Tag::RouteProfile {
            assert(c != n1);
            assert(open2[a] == open[a] && open2[b] == open[b] && open2[c] == open[c]);
            assert(open_within3(open2, Tag::TransitLine, Tag::TransitRoute, Tag::RouteProfile));
        }
    }
    if f.in_departures {
        let (a, b, c) = choose|a: int, b: int, c: int| #![trigger open[a], open[b], open[c]]
            0 <= a < b < c < open.len() && open[a] == Tag::TransitLine && open[b] == Tag::TransitRoute
                && open[c] == Tag::Departures;
        if t == Tag::TransitRoute {
            assert(open[c] == Tag::Departures && open[n1] == Tag::TransitRoute);
            assert(c < n1);
        }
        if t != Tag::Departures {
            assert(c != n1);
            assert(open2[a] == open[a] && open2[b] == open[b] && open2[c] == open[c]);
            assert(open_within3(open2, Tag::TransitLine, Tag::TransitRoute, Tag::Departures));
        }
    }
}

proof fn lemma_prefix_follows(events: Seq<XmlEventView>, k: int)
    requires
        well_nested(events),
        no_route_in_lists(events),
        0 <= k <= events.len(),
    ensures
        flags_follow(open_tags(events.take(k)), flags_after(initial_state().flags, events.take(k))),
    decreases k,
{
    if k == 0 {
        assert(events.take(0) =~= Seq::<XmlEventView>::empty());
    } else {
        lemma_prefix_follows(events, k - 1);
        let p = events.take(k - 1);
        let ev = events[k - 1];
        assert(events.take(k) =~= p.push(ev));
        assert(events.take(k).drop_last() =~= p);
        lemma_flags_after_push(initial_state().flags, p, ev);
        assert(closes_innermost(open_tags(p), events[k - 1]));
        assert(route_outside_lists(open_tags(p), events[k - 1]));
        let f = flags_after(initial_state().flags, p);
        match ev {
            XmlEventView::Start(el) => lemma_flags_follow_start(open_tags(p), f, el),
            XmlEventView::End(name) => lemma_flags_follow_end(open_tags(p), f, name),
            _ => {},
        }
    }
}

/// What handling the event at `i` adds, after the events before it were
/// loaded into world `w`: the new entity's component, if it adds one.
pub open spec fn added_at(w: WorldView, events: Seq<XmlEventView>, i: int) -> Option<ComponentView> {
    let (s, wi) = load_spec(initial_state(), w, events.take(i));
    let w2 = step_spec(s, wi, events[i]).1;
    if w2.entities.len() > wi.entities.len() {
        Some(w2.entities.last())
    } else {
        None
    }
}

/// Whether what event `ev` added, with the `open` elements around it, sits
/// where the schedule format puts it: a route for a `transitRoute` opened
/// inside a `transitLine`; a profile point for a `stop` inside a
/// `routeProfile` inside a `transitRoute` inside a `transitLine`; a route
/// departure for a `departure` inside a `departures` element inside a
/// `transitRoute` inside a `transitLine`.
pub open spec fn added_in_place(open: Seq<Tag>, ev: XmlEventView, added: Option<ComponentView>) -> bool {
    match added {
        Some(ComponentView::Route(_)) => opens(ev, Tag::TransitRoute) && open.contains(Tag::TransitLine),
        Some(ComponentView::RouteProfilePoint(_)) => {
            &&& has_element(ev, Tag::Stop)
            &&& open_within3(open, Tag::TransitLine, Tag::TransitRoute, Tag::RouteProfile)
        },
        Some(ComponentView::RouteDeparture(_)) => {
            &&& has_element(ev, Tag::Departure)
            &&& open_within3(open, Tag::TransitLine, Tag::TransitRoute, Tag::Departures)
        },
        _ => true,
    }
}

/// In a document whose closing tags close the innermost open element, and
/// where no route opens inside a route profile or a departures element,
/// loading adds routes, profile points and route departures only for
/// elements nested as the schedule format has them: a
/// route only for a `transitRoute` inside a `transitLine` (one outside
/// every line adds none); a profile point only for a `stop` inside a
/// `routeProfile` inside a `transitRoute` inside a `transitLine`; a route
/// departure only for a `departure` inside a `departures` element inside a
/// `transitRoute` inside a `transitLine`.
pub proof fn lemma_load_adds_in_place(w: WorldView, events: Seq<XmlEventView>, i: int)
    requires
        well_nested(events),
        no_route_in_lists(events),
        0 <= i < events.len(),
        forall|k: int| 0 <= k < i ==> !(#[trigger] events[k] is Eof),
    ensures
        added_in_place(open_tags(events.take(i)), events[i], added_at(w, events, i)),
{
    lemma_prefix_follows(events, i);
    let p = events.take(i);
    assert forall|k: int| 0 <= k < p.len() implies !(#[trigger] p[k] is Eof) by {
        assert(p[k] == events[k]);
    }
    lemma_load_flags(initial_state(), w, p);
    let (s, wi) = load_spec(initial_state(), w, p);
    lemma_step_adds(s, wi, events[i]);
}

} // verus!
