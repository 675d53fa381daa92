use vstd::prelude::*;
use crate::model::{component_at, route_type_of, ComponentView, RouteType, WorldView};
use crate::loader::{load_spec, tag_of, LoadStateView, Tag};
use crate::xml::{last_value, ElementView, XmlEventView};
use crate::trips::profile_points;
use crate::board::{board_spec, is_stop_departure, stop_departures_among};
use crate::times::time_of_day_of;

verus! {

/// Every transit line whose `attributes` element opens and closes right
/// inside it is added, wherever the loader stood before (after any lines
/// that came earlier): a new line entity with the line element's id and
/// name, registered under that id, and the route that opens next inside it
/// is a new route of that line, listed by it.
pub proof fn lemma_each_line_is_added(
    s: LoadStateView,
    w: WorldView,
    line: ElementView,
    attrs: ElementView,
    attrs_end: Seq<char>,
    route: ElementView,
    id: Seq<char>,
    name: Seq<char>,
)
    requires
        tag_of(line.name) == Tag::TransitLine,
        tag_of(attrs.name) == Tag::Attributes,
        tag_of(attrs_end) == Tag::Attributes,
        tag_of(route.name) == Tag::TransitRoute,
        last_value(line.attributes, "id"@) == Some(id),
        last_value(line.attributes, "name"@) == Some(name),
        w.entities.len() + 2 <= usize::MAX,
    ensures
        ({
            let (s1, w1) = load_spec(
                s,
                w,
                seq![XmlEventView::Start(line), XmlEventView::Start(attrs), XmlEventView::End(attrs_end)],
            );
            let n = w.entities.len();
            &&& w1.entities.len() == n + 1
            &&& w1.entities[n as int] matches ComponentView::Line(l) && l.id == id && l.name == name
            &&& w1.schedule.lines == w.schedule.lines.insert(id, n as usize)
            &&& s1.current_line_entity == Some(n as usize)
        }),
        ({
            let w2 = load_spec(
                s,
                w,
                seq![
                    XmlEventView::Start(line),
                    XmlEventView::Start(attrs),
                    XmlEventView::End(attrs_end),
                    XmlEventView::Start(route),
                ],
            ).1;
            let n = w.entities.len();
            &&& w2.entities.len() == n + 2
            &&& w2.entities[n + 1int] matches ComponentView::Route(r) && r.line == n
            &&& w2.entities[n as int] matches ComponentView::Line(l) && l.routes.contains((n + 1) as usize)
        }),
{
    let e1 = XmlEventView::Start(line);
    let e2 = XmlEventView::Start(attrs);
    let e3 = XmlEventView::End(attrs_end);
    let e4 = XmlEventView::Start(route);
    let three = seq![e1, e2, e3];
    let four = seq![e1, e2, e3, e4];
    assert(three.drop_first() =~= seq![e2, e3]);
    assert(seq![e2, e3].drop_first() =~= seq![e3]);
    assert(seq![e3].drop_first() =~= Seq::<XmlEventView>::empty());
    assert(four.drop_first() =~= seq![e2, e3, e4]);
    assert(seq![e2, e3, e4].drop_first() =~= seq![e3, e4]);
    assert(seq![e3, e4].drop_first() =~= seq![e4]);
    assert(seq![e4].drop_first() =~= Seq::<XmlEventView>::empty());
    let (sa, wa) = crate::loader::step_spec(s, w, e1);
    let (sb, wb) = crate::loader::step_spec(sa, wa, e2);
    let (sc, wc) = crate::loader::step_spec(sb, wb, e3);
    let (sd, wd) = crate::loader::step_spec(sc, wc, e4);
    assert(load_spec(sc, wc, Seq::<XmlEventView>::empty()) == (sc, wc));
    assert(load_spec(sb, wb, seq![e3]) == (sc, wc));
    assert(load_spec(sa, wa, seq![e2, e3]) == (sc, wc));
    assert(load_spec(s, w, three) == (sc, wc));
    assert(load_spec(sd, wd, Seq::<XmlEventView>::empty()) == (sd, wd));
    assert(load_spec(sc, wc, seq![e4]) == (sd, wd));
    assert(load_spec(sb, wb, seq![e3, e4]) == (sd, wd));
    assert(load_spec(sa, wa, seq![e2, e3, e4]) == (sd, wd));
    assert(load_spec(s, w, four) == (sd, wd));
    let n = w.entities.len();
    assert(wa == w);
    assert(wb == w);
    assert(sa.current_line == Some(id));
    assert(sa.current_line_name == Some(name));
    assert(sb.flags.in_line && sb.flags.in_line_attributes);
    assert(wc.entities[n as int] matches ComponentView::Line(l) && l.id == id && l.name == name);
    if let ComponentView::Line(l) = wc.entities[n as int] {
        assert(wd.entities[n as int] == ComponentView::Line(
            crate::model::LineView { routes: l.routes.push((n + 1) as usize), ..l },
        ));
        assert(l.routes.push((n + 1) as usize)[l.routes.len() as int] == (n + 1) as usize);
    }
}

/// The route profile points among a list of entities, read part by part,
/// are those of the first part followed by those of the second: no point
/// of a later part is dropped or merged with one of an earlier part.
pub proof fn lemma_profile_points_append(w: WorldView, a: Seq<usize>, b: Seq<usize>)
    ensures
        profile_points(w, a + b) == profile_points(w, a) + profile_points(w, b),
    decreases b.len(),
{
    if b.len() == 0 {
        assert(a + b =~= a);
        assert(profile_points(w, a) + profile_points(w, b) =~= profile_points(w, a));
    } else {
        assert((a + b).drop_last() =~= a + b.drop_last());
        assert((a + b).last() == b.last());
        lemma_profile_points_append(w, a, b.drop_last());
        let pa = profile_points(w, a);
        let pb = profile_points(w, b.drop_last());
        match component_at(w, b.last()) {
            Some(ComponentView::RouteProfilePoint(p)) => {
                assert((pa + pb).push(p) =~= pa + pb.push(p));
            },
            _ => {},
        }
    }
}

/// One entity yields its route profile point when it is one, and nothing
/// otherwise.
pub proof fn lemma_profile_points_one(w: WorldView, e: usize)
    ensures
        profile_points(w, seq![e]) == match component_at(w, e) {
            Some(ComponentView::RouteProfilePoint(p)) => seq![p],
            _ => Seq::<crate::model::RouteProfilePoint>::empty(),
        },
{
    assert(seq![e].drop_last() =~= Seq::<usize>::empty());
    assert(seq![e].last() == e);
    assert(profile_points(w, Seq::<usize>::empty()) == Seq::<crate::model::RouteProfilePoint>::empty());
    match component_at(w, e) {
        Some(ComponentView::RouteProfilePoint(p)) => {
            assert(Seq::<crate::model::RouteProfilePoint>::empty().push(p) =~= seq![p]);
        },
        _ => {},
    }
}

/// How many route profile point entities a list holds.
pub open spec fn point_count(w: WorldView, es: Seq<usize>) -> nat
    decreases es.len(),
{
    if es.len() == 0 {
        0
    } else {
        point_count(w, es.drop_last()) + if component_at(w, es.last()) matches Some(
            ComponentView::RouteProfilePoint(_),
        ) {
            1nat
        } else {
            0nat
        }
    }
}

/// A list's route profile points are one per listed point entity, in the
/// list's order: the point at position `count` is that of the entity at
/// `k`, where `count` is the number of point entities listed before `k`.
pub proof fn lemma_profile_points_each(w: WorldView, es: Seq<usize>, k: int)
    requires
        0 <= k < es.len(),
        component_at(w, es[k]) matches Some(ComponentView::RouteProfilePoint(_)),
    ensures
        profile_points(w, es).len() == point_count(w, es),
        point_count(w, es.take(k)) < point_count(w, es),
        profile_points(w, es)[point_count(w, es.take(k)) as int] == component_at(w, es[k])->Some_0->RouteProfilePoint_0,
    decreases es.len(),
{
    lemma_profile_points_len(w, es);
    if k < es.len() - 1 {
        assert(es.drop_last().take(k) =~= es.take(k));
        assert(es.drop_last()[k] == es[k]);
        lemma_profile_points_each(w, es.drop_last(), k);
        lemma_profile_points_len(w, es.drop_last());
    } else {
        assert(es.take(k) =~= es.drop_last());
        lemma_profile_points_len(w, es.drop_last());
    }
}

proof fn lemma_profile_points_len(w: WorldView, es: Seq<usize>)
    ensures
        profile_points(w, es).len() == point_count(w, es),
    decreases es.len(),
{
    if es.len() > 0 {
        lemma_profile_points_len(w, es.drop_last());
    }
}

/// Every time of day that chrono reads as hour `h`, minute `m`, second `s`
/// and nanosecond `n` counts `2 * (3600 h + 60 m + s)` half-seconds after
/// midnight, one more within a leap second: the full 24-hour time. Read as
/// an offset, it counts `3600 h + 60 m + s` whole seconds.
pub proof fn lemma_time_of_day(h: u32, m: u32, s: u32, n: u32)
    requires
        h < 24,
        m < 60,
        s < 60,
    ensures
        time_of_day_of(Some((h, m, s, n))) == Some(
            (2 * (3600 * h + 60 * m + s) + if n >= 1_000_000_000 {
                1int
            } else {
                0int
            }) as u32,
        ),
        time_of_day_of(Some((h, m, s, n)))->0 < 172800,
        crate::times::offset_of(Some((h, m, s, n))) == 3600 * h + 60 * m + s,
{
}

/// Each GTFS route-type code maps to its own kind: tram only for 0, subway
/// only for 1 and 600, regional rail only for 2, 100 and 106, bus only for
/// 3 and 700, ferry only for 4, high-speed rail only for 101, suburban rail
/// only for 109, and every other code to `Other`.
pub proof fn lemma_route_type_codes(v: u16)
    ensures
        (route_type_of(v) == RouteType::Tram) == (v == 0),
        (route_type_of(v) == RouteType::Subway) == (v == 1 || v == 600),
        (route_type_of(v) == RouteType::RegionalRail) == (v == 2 || v == 100 || v == 106),
        (route_type_of(v) == RouteType::Bus) == (v == 3 || v == 700),
        (route_type_of(v) == RouteType::Ferry) == (v == 4),
        (route_type_of(v) == RouteType::HighSpeedRail) == (v == 101),
        (route_type_of(v) == RouteType::SuburbanRail) == (v == 109),
        (route_type_of(v) == RouteType::Other) == !(v == 0 || v == 1 || v == 2 || v == 3 || v == 4
            || v == 100 || v == 101 || v == 106 || v == 109 || v == 600 || v == 700),
{
}

proof fn lemma_among_count(w: WorldView, es: Seq<usize>, x: usize)
    ensures
        stop_departures_among(w, es).to_multiset().count(x) == if is_stop_departure(w, x) {
            es.to_multiset().count(x)
        } else {
            0
        },
    decreases es.len(),
{
    broadcast use vstd::seq_lib::group_to_multiset_ensures;

    if es.len() > 0 {
        lemma_among_count(w, es.drop_last(), x);
        assert(es =~= es.drop_last().push(es.last()));
    }
}

/// A stop facility's departure board holds every stop departure that the
/// stop facility lists, as many times as it lists it, and nothing else.
pub proof fn lemma_departure_board_holds_all(w: WorldView, stop: usize, x: usize)
    requires
        component_at(w, stop) matches Some(ComponentView::StopFacility(_)),
    ensures
        board_spec(w, stop).to_multiset().count(x) == if is_stop_departure(w, x) {
            component_at(w, stop)->Some_0->StopFacility_0.departures.to_multiset().count(x)
        } else {
            0
        },
        board_spec(w, stop).len() == stop_departures_among(
            w,
            component_at(w, stop)->Some_0->StopFacility_0.departures,
        ).len(),
{
    let s = component_at(w, stop)->Some_0->StopFacility_0;
    crate::laws::lemma_departure_board(w, stop);
    lemma_among_count(w, s.departures, x);
    crate::sorting::lemma_sort_by_key(crate::board::time_key(w), stop_departures_among(w, s.departures));
}

} // verus!
