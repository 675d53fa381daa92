use vstd::prelude::*;
use crate::model::{
    clone_opt, Component, Line, Route, RouteDeparture, StopFacility, World,
    opt_view, route_type_of, ComponentView, LineView, LinkKind, RouteDepartureView, RouteProfilePoint,
    RouteType, RouteView, ScheduleView, StopFacilityView, WorldView,
};
use crate::times::{hms_format, naive_time_parse, offset_of, parse_offset, parse_u16, u16_parse};
use crate::xml::{
    attrs_view, events_view, find_last_time, find_last_value, find_unreadable, has_unreadable,
    last_time, last_value, str_eq, AttributeView, ElementView, XmlAttribute, XmlElement, XmlEvent,
    XmlEventView,
};

verus! {

/// Where in the schedule document the loader stands.
#[derive(Debug, Clone, Copy, PartialEq, Eq, Structural)]
pub struct LoadFlags {
    pub in_line: bool,
    pub in_route: bool,
    pub in_line_attributes: bool,
    pub in_route_profile: bool,
    pub in_departures: bool,
    pub after_line_attributes: bool,
}

/// The loader's state between two XML events.
#[derive(Debug, Clone)]
pub struct LoadState {
    pub flags: LoadFlags,
    pub current_line: Option<String>,
    pub current_line_name: Option<String>,
    pub current_line_route_type: Option<RouteType>,
    pub current_line_agency_id: Option<String>,
    pub current_line_entity: Option<usize>,
    pub current_route: Option<String>,
    pub current_route_entity: Option<usize>,
    pub current_attribute_name: Option<String>,
}

/// What the loader's state holds, as plain values.
#[verifier::ext_equal]
pub struct LoadStateView {
    pub flags: LoadFlags,
    pub current_line: Option<Seq<char>>,
    pub current_line_name: Option<Seq<char>>,
    pub current_line_route_type: Option<RouteType>,
    pub current_line_agency_id: Option<Seq<char>>,
    pub current_line_entity: Option<usize>,
    pub current_route: Option<Seq<char>>,
    pub current_route_entity: Option<usize>,
    pub current_attribute_name: Option<Seq<char>>,
}

impl View for LoadState {
    type V = LoadStateView;

    open spec fn view(&self) -> LoadStateView {
        LoadStateView {
            flags: self.flags,
            current_line: opt_view(self.current_line),
            current_line_name: opt_view(self.current_line_name),
            current_line_route_type: self.current_line_route_type,
            current_line_agency_id: opt_view(self.current_line_agency_id),
            current_line_entity: self.current_line_entity,
            current_route: opt_view(self.current_route),
            current_route_entity: self.current_route_entity,
            current_attribute_name: opt_view(self.current_attribute_name),
        }
    }
}

/// The state before the first event: outside of every element, nothing read.
pub open spec fn initial_state() -> LoadStateView {
    LoadStateView {
        flags: LoadFlags {
            in_line: false,
            in_route: false,
            in_line_attributes: false,
            in_route_profile: false,
            in_departures: false,
            after_line_attributes: false,
        },
        current_line: None,
        current_line_name: None,
        current_line_route_type: None,
        current_line_agency_id: None,
        current_line_entity: None,
        current_route: None,
        current_route_entity: None,
        current_attribute_name: None,
    }
}

/// `new` when it holds a value, else `old`.
pub open spec fn or_keep(new: Option<Seq<char>>, old: Option<Seq<char>>) -> Option<Seq<char>> {
    if new is Some {
        new
    } else {
        old
    }
}

/// The string held, or the empty string.
pub open spec fn or_empty(o: Option<Seq<char>>) -> Seq<char> {
    match o {
        Some(s) => s,
        None => Seq::empty(),
    }
}

/// The element names that the loader acts on.
#[derive(Debug, Clone, Copy, PartialEq, Eq, Structural)]
pub enum Tag {
    StopFacility,
    TransitLine,
    Attributes,
    Attribute,
    TransitRoute,
    RouteProfile,
    Stop,
    Departures,
    Departure,
    Unknown,
}

/// Which of the names that the loader acts on an element name is.
pub open spec fn tag_of(n: Seq<char>) -> Tag {
    if n == "stopFacility"@ {
        Tag::StopFacility
    } else if n == "transitLine"@ {
        Tag::TransitLine
    } else if n == "attributes"@ {
        Tag::Attributes
    } else if n == "attribute"@ {
        Tag::Attribute
    } else if n == "transitRoute"@ {
        Tag::TransitRoute
    } else if n == "routeProfile"@ {
        Tag::RouteProfile
    } else if n == "stop"@ {
        Tag::Stop
    } else if n == "departures"@ {
        Tag::Departures
    } else if n == "departure"@ {
        Tag::Departure
    } else {
        Tag::Unknown
    }
}

/// Which of the names that the loader acts on an element name is.
pub fn classify(n: &str) -> (res: Tag)
    ensures
        res == tag_of(n@),
{
    if str_eq(n, "stopFacility") {
        Tag::StopFacility
    } else if str_eq(n, "transitLine") {
        Tag::TransitLine
    } else if str_eq(n, "attributes") {
        Tag::Attributes
    } else if str_eq(n, "attribute") {
        Tag::Attribute
    } else if str_eq(n, "transitRoute") {
        Tag::TransitRoute
    } else if str_eq(n, "routeProfile") {
        Tag::RouteProfile
    } else if str_eq(n, "stop") {
        Tag::Stop
    } else if str_eq(n, "departures") {
        Tag::Departures
    } else if str_eq(n, "departure") {
        Tag::Departure
    } else {
        Tag::Unknown
    }
}

/// How an event moves the loader between the parts of the document.
pub open spec fn flags_step(f: LoadFlags, ev: XmlEventView) -> LoadFlags {
    match ev {
        XmlEventView::Start(el) => match tag_of(el.name) {
            Tag::TransitLine => LoadFlags { in_line: true, after_line_attributes: false, ..f },
            Tag::Attributes => if f.in_line && !f.after_line_attributes {
                LoadFlags { in_line_attributes: true, ..f }
            } else {
                f
            },
            Tag::TransitRoute => if f.in_line {
                LoadFlags { in_route: true, ..f }
            } else {
                f
            },
            Tag::RouteProfile => if f.in_route {
                LoadFlags { in_route_profile: true, ..f }
            } else {
                f
            },
            Tag::Departures => if f.in_route {
                LoadFlags { in_departures: true, ..f }
            } else {
                f
            },
            _ => f,
        },
        XmlEventView::End(name) => match tag_of(name) {
            Tag::Attributes => if f.in_line && f.in_line_attributes {
                LoadFlags { in_line_attributes: false, after_line_attributes: true, ..f }
            } else {
                f
            },
            Tag::RouteProfile => if f.in_route && f.in_route_profile {
                LoadFlags { in_route_profile: false, ..f }
            } else {
                f
            },
            Tag::Departures => if f.in_route {
                LoadFlags { in_departures: false, ..f }
            } else {
                f
            },
            Tag::TransitRoute => if f.in_route {
                LoadFlags { in_route: false, ..f }
            } else {
                f
            },
            Tag::TransitLine => LoadFlags { in_line: false, ..f },
            _ => f,
        },
        _ => f,
    }
}

/// Whether a stop or departure element, opened or self-closing, is read.
pub open spec fn refused_in_profile_or_departures(f: LoadFlags, t: Tag, a: Seq<AttributeView>) -> bool {
    match t {
        Tag::Stop => f.in_route && f.in_route_profile && has_unreadable(a, "refId"@),
        Tag::Departure => f.in_route && f.in_departures && has_unreadable(a, "id"@),
        _ => false,
    }
}

/// Whether an element is one whose listed attributes the loader must read,
/// and one of them could not be read, or line-attribute text could not be
/// decoded: such input is refused (the loader cannot go on without it).
pub open spec fn step_refused(f: LoadFlags, ev: XmlEventView) -> bool {
    match ev {
        XmlEventView::Start(el) => {
            let a = el.attributes;
            match tag_of(el.name) {
                Tag::StopFacility => has_unreadable(a, "id"@) || has_unreadable(a, "x"@)
                    || has_unreadable(a, "y"@) || has_unreadable(a, "name"@)
                    || has_unreadable(a, "stopAreaId"@),
                Tag::TransitLine => has_unreadable(a, "id"@) || has_unreadable(a, "name"@),
                Tag::Attribute => f.in_line && f.in_line_attributes && has_unreadable(a, "name"@),
                Tag::TransitRoute => f.in_line && has_unreadable(a, "id"@),
                t => refused_in_profile_or_departures(f, t, a),
            }
        },
        XmlEventView::Empty(el) => refused_in_profile_or_departures(f, tag_of(el.name), el.attributes),
        XmlEventView::Text(t) => f.in_line && f.in_line_attributes && t is None,
        _ => false,
    }
}

/// A stop facility element: a new stop facility entity, registered by id.
pub open spec fn stop_facility_spec(w: WorldView, a: Seq<AttributeView>) -> WorldView {
    let id = or_empty(last_value(a, "id"@));
    let stop = StopFacilityView {
        id: id,
        x: last_value(a, "x"@),
        y: last_value(a, "y"@),
        name: last_value(a, "name"@),
        stop_area_id: last_value(a, "stopAreaId"@),
        routes: Seq::empty(),
        lines: Seq::empty(),
        departures: Seq::empty(),
    };
    let e = w.entities.len() as usize;
    w.spawned(ComponentView::StopFacility(stop)).with_schedule(
        ScheduleView {
            stop_facilities: w.schedule.stop_facilities.insert(id, e),
            ..w.schedule
        },
    )
}

/// The end of a line's attributes: a new line entity from what was read,
/// registered by id, and remembered as the current line.
pub open spec fn line_spec(s: LoadStateView, w: WorldView) -> (LoadStateView, WorldView) {
    let id = or_empty(s.current_line);
    let line = LineView {
        id: id,
        name: or_empty(s.current_line_name),
        agency_id: s.current_line_agency_id,
        route_type: s.current_line_route_type,
        routes: Seq::empty(),
        trips: Seq::empty(),
    };
    let e = w.entities.len() as usize;
    (
        LoadStateView { current_line_entity: Some(e), ..s },
        w.spawned(ComponentView::Line(line)).with_schedule(
            ScheduleView { lines: w.schedule.lines.insert(id, e), ..w.schedule },
        ),
    )
}

/// A route element inside a line: a new route entity of the current line
/// (when a line entity exists), listed in the schedule and in the line.
pub open spec fn route_spec(s: LoadStateView, w: WorldView, a: Seq<AttributeView>) -> (
    LoadStateView,
    WorldView,
) {
    let current_route = or_keep(last_value(a, "id"@), s.current_route);
    match s.current_line_entity {
        Some(le) => {
            let route = RouteView {
                id: or_empty(current_route),
                route_profile: Seq::empty(),
                departures: Seq::empty(),
                trips: Seq::empty(),
                line: le,
            };
            let e = w.entities.len() as usize;
            (
                LoadStateView {
                    current_route: current_route,
                    current_route_entity: Some(e),
                    ..s
                },
                w.spawned(ComponentView::Route(route)).with_schedule(
                    ScheduleView { routes: w.schedule.routes.push(e), ..w.schedule },
                ).linked(le, LinkKind::LineRoutes, e),
            )
        },
        None => (LoadStateView { current_route: current_route, ..s }, w),
    }
}

/// The arrival or departure offset written in a stop element's attribute.
pub open spec fn offset_attr(a: Seq<AttributeView>, key: Seq<char>) -> u32 {
    match last_value(a, key) {
        Some(v) => offset_of(naive_time_parse(v, hms_format())) as u32,
        None => 0,
    }
}

/// A stop of a route profile: when its stop facility is known and a route
/// is current, a new profile point entity, listed in the route's profile.
pub open spec fn profile_point_spec(s: LoadStateView, w: WorldView, a: Seq<AttributeView>) -> WorldView {
    match (last_value(a, "refId"@), s.current_route_entity) {
        (Some(stop_id), Some(re)) => if w.schedule.stop_facilities.contains_key(stop_id) {
            let point = RouteProfilePoint {
                route: re,
                stop: w.schedule.stop_facilities[stop_id],
                arrival_offset: offset_attr(a, "arrivalOffset"@),
                departure_offset: offset_attr(a, "departureOffset"@),
            };
            let e = w.entities.len() as usize;
            w.spawned(ComponentView::RouteProfilePoint(point)).linked(re, LinkKind::RouteProfile, e)
        } else {
            w
        },
        _ => w,
    }
}

/// A departure of a route: when it has an id and a time and a route is
/// current, a new route departure entity, listed in the schedule and route.
pub open spec fn route_departure_spec(s: LoadStateView, w: WorldView, a: Seq<AttributeView>) -> WorldView {
    match (last_value(a, "id"@), last_time(a, "departureTime"@), s.current_route_entity) {
        (Some(id), Some(t), Some(re)) => {
            let dep = RouteDepartureView { id: id, departure_time: t, route: re, trip: None };
            let e = w.entities.len() as usize;
            w.spawned(ComponentView::RouteDeparture(dep)).with_schedule(
                ScheduleView { departures: w.schedule.departures.push(e), ..w.schedule },
            ).linked(re, LinkKind::RouteDepartures, e)
        },
        _ => w,
    }
}

/// The text of a line attribute: the agency id, or the route type when it
/// is a decimal `u16`.
pub open spec fn text_spec(s: LoadStateView, t: Option<Seq<char>>) -> LoadStateView {
    match (t, s.current_attribute_name) {
        (Some(text), Some(attr)) => if attr == "gtfs_agency_id"@ {
            LoadStateView { current_line_agency_id: Some(text), ..s }
        } else if attr == "gtfs_route_type"@ {
            match u16_parse(text) {
                Some(v) => LoadStateView { current_line_route_type: Some(route_type_of(v)), ..s },
                None => s,
            }
        } else {
            s
        },
        _ => s,
    }
}

/// What a stop or departure element, opened or self-closing, adds.
pub open spec fn profile_or_departure_spec(s: LoadStateView, w: WorldView, t: Tag, a: Seq<AttributeView>) -> WorldView {
    match t {
        Tag::Stop => if s.flags.in_route && s.flags.in_route_profile {
            profile_point_spec(s, w, a)
        } else {
            w
        },
        Tag::Departure => if s.flags.in_route && s.flags.in_departures {
            route_departure_spec(s, w, a)
        } else {
            w
        },
        _ => w,
    }
}

/// What an opening tag does besides moving between the parts of the document.
pub open spec fn start_spec(s: LoadStateView, w: WorldView, el: ElementView) -> (LoadStateView, WorldView) {
    let f = s.flags;
    let a = el.attributes;
    match tag_of(el.name) {
        Tag::StopFacility => (s, stop_facility_spec(w, a)),
        Tag::TransitLine => (
            LoadStateView {
                current_line: or_keep(last_value(a, "id"@), s.current_line),
                current_line_name: or_keep(last_value(a, "name"@), s.current_line_name),
                ..s
            },
            w,
        ),
        Tag::Attribute => if f.in_line && f.in_line_attributes {
            (
                LoadStateView {
                    current_attribute_name: or_keep(last_value(a, "name"@), s.current_attribute_name),
                    ..s
                },
                w,
            )
        } else {
            (s, w)
        },
        Tag::TransitRoute => if f.in_line {
            route_spec(s, w, a)
        } else {
            (s, w)
        },
        t => (s, profile_or_departure_spec(s, w, t, a)),
    }
}

/// What a closing tag does besides moving between the parts of the document.
pub open spec fn end_spec(s: LoadStateView, w: WorldView, name: Seq<char>) -> (LoadStateView, WorldView) {
    let f = s.flags;
    match tag_of(name) {
        Tag::Attribute => if f.in_line && f.in_line_attributes {
            (LoadStateView { current_attribute_name: None, ..s }, w)
        } else {
            (s, w)
        },
        Tag::Attributes => if f.in_line && f.in_line_attributes {
            line_spec(s, w)
        } else {
            (s, w)
        },
        Tag::TransitRoute => if f.in_route {
            (LoadStateView { current_route: None, current_route_entity: None, ..s }, w)
        } else {
            (s, w)
        },
        Tag::TransitLine => (
            LoadStateView {
                current_line: None,
                current_line_name: None,
                current_line_agency_id: None,
                current_line_route_type: None,
                ..s
            },
            w,
        ),
        _ => (s, w),
    }
}

/// What an event does besides moving between the parts of the document.
pub open spec fn effect_spec(s: LoadStateView, w: WorldView, ev: XmlEventView) -> (LoadStateView, WorldView) {
    match ev {
        XmlEventView::Start(el) => start_spec(s, w, el),
        XmlEventView::Empty(el) => (s, profile_or_departure_spec(s, w, tag_of(el.name), el.attributes)),
        XmlEventView::End(name) => end_spec(s, w, name),
        XmlEventView::Text(t) => if s.flags.in_line && s.flags.in_line_attributes {
            (text_spec(s, t), w)
        } else {
            (s, w)
        },
        _ => (s, w),
    }
}

/// One event's whole effect on the loader state and the world.
pub open spec fn step_spec(s: LoadStateView, w: WorldView, ev: XmlEventView) -> (LoadStateView, WorldView) {
    let (s2, w2) = effect_spec(s, w, ev);
    (LoadStateView { flags: flags_step(s.flags, ev), ..s2 }, w2)
}

/// The string held, or an empty string.
pub(crate) fn string_or_empty(o: &Option<String>) -> (res: String)
    ensures
        res@ == or_empty(opt_view(*o)),
{
    match o {
        Some(s) => s.clone(),
        None => String::new(),
    }
}

/// The offset written in the last readable attribute named `key` (zero when
/// there is none, or it does not parse).
fn find_offset(attrs: &Vec<XmlAttribute>, key: &str) -> (res: u32)
    ensures
        res == offset_attr(attrs_view(attrs@), key@),
{
    match find_last_value(attrs, key) {
        Some(v) => parse_offset(v.as_str()),
        None => 0,
    }
}

impl LoadState {
    /// The state before the first event.
    pub fn new() -> (res: Self)
        ensures
            res@ == initial_state(),
    {
        LoadState {
            flags: LoadFlags {
                in_line: false,
                in_route: false,
                in_line_attributes: false,
                in_route_profile: false,
                in_departures: false,
                after_line_attributes: false,
            },
            current_line: None,
            current_line_name: None,
            current_line_route_type: None,
            current_line_agency_id: None,
            current_line_entity: None,
            current_route: None,
            current_route_entity: None,
            current_attribute_name: None,
        }
    }

    fn add_stop_facility(world: &mut World, attrs: &Vec<XmlAttribute>)
        ensures
            final(world)@ == stop_facility_spec(old(world)@, attrs_view(attrs@)),
    {
        let id = string_or_empty(&find_last_value(attrs, "id"));
        let x = find_last_value(attrs, "x");
        let y = find_last_value(attrs, "y");
        let name = find_last_value(attrs, "name");
        let stop_area_id = find_last_value(attrs, "stopAreaId");
        let stop = StopFacility {
            id: id.clone(),
            x,
            y,
            name,
            stop_area_id,
            routes: Vec::new(),
            lines: Vec::new(),
            departures: Vec::new(),
        };
        let e = world.spawn(Component::StopFacility(stop));
        world.schedule.stop_facilities.insert(id, e);
        assert(world@ =~= stop_facility_spec(old(world)@, attrs_view(attrs@)));
    }

    fn add_line(&mut self, world: &mut World)
        ensures
            (final(self)@, final(world)@) == line_spec(old(self)@, old(world)@),
    {
        let id = string_or_empty(&self.current_line);
        let line = Line {
            id: id.clone(),
            name: string_or_empty(&self.current_line_name),
            agency_id: clone_opt(&self.current_line_agency_id),
            route_type: self.current_line_route_type,
            routes: Vec::new(),
            trips: Vec::new(),
        };
        let e = world.spawn(Component::Line(line));
        world.schedule.lines.insert(id, e);
        self.current_line_entity = Some(e);
        assert(world@ =~= line_spec(old(self)@, old(world)@).1);
        assert(self@ =~= line_spec(old(self)@, old(world)@).0);
    }

    fn add_route(&mut self, world: &mut World, attrs: &Vec<XmlAttribute>)
        ensures
            (final(self)@, final(world)@) == route_spec(old(self)@, old(world)@, attrs_view(attrs@)),
    {
        let id = find_last_value(attrs, "id");
        if id.is_some() {
            self.current_route = id;
        }
        match self.current_line_entity {
            Some(le) => {
                let route = Route {
                    id: string_or_empty(&self.current_route),
                    route_profile: Vec::new(),
                    departures: Vec::new(),
                    trips: Vec::new(),
                    line: le,
                };
                let e = world.spawn(Component::Route(route));
                world.schedule.routes.push(e);
                self.current_route_entity = Some(e);
                world.link(le, LinkKind::LineRoutes, e);
                assert(world@ =~= route_spec(old(self)@, old(world)@, attrs_view(attrs@)).1);
            },
            None => {},
        }
        assert(self@ =~= route_spec(old(self)@, old(world)@, attrs_view(attrs@)).0);
    }

    fn add_profile_point(&self, world: &mut World, attrs: &Vec<XmlAttribute>)
        ensures
            final(world)@ == profile_point_spec(self@, old(world)@, attrs_view(attrs@)),
    {
        let stop_id = find_last_value(attrs, "refId");
        let arrival_offset = find_offset(attrs, "arrivalOffset");
        let departure_offset = find_offset(attrs, "departureOffset");
        match stop_id {
            Some(sid) => {
                let found: Option<usize> = match world.schedule.stop_facilities.get(sid.as_str()) {
                    Some(v) => Some(*v),
                    None => None,
                };
                match (found, self.current_route_entity) {
                    (Some(stop), Some(re)) => {
                        let point = RouteProfilePoint {
                            route: re,
                            stop,
                            arrival_offset,
                            departure_offset,
                        };
                        let e = world.spawn(Component::RouteProfilePoint(point));
                        world.link(re, LinkKind::RouteProfile, e);
                    },
                    _ => {},
                }
            },
            None => {},
        }
    }

    fn add_route_departure(&self, world: &mut World, attrs: &Vec<XmlAttribute>)
        ensures
            final(world)@ == route_departure_spec(self@, old(world)@, attrs_view(attrs@)),
    {
        let id = find_last_value(attrs, "id");
        let time = find_last_time(attrs, "departureTime");
        match (id, time, self.current_route_entity) {
            (Some(id), Some(t), Some(re)) => {
                let dep = RouteDeparture { id, departure_time: t, route: re, trip: None };
                let e = world.spawn(Component::RouteDeparture(dep));
                world.schedule.departures.push(e);
                world.link(re, LinkKind::RouteDepartures, e);
                assert(world@ =~= route_departure_spec(self@, old(world)@, attrs_view(attrs@)));
            },
            _ => {},
        }
    }

    fn on_profile_or_departure(&self, world: &mut World, tag: Tag, attrs: &Vec<XmlAttribute>)
        ensures
            final(world)@ == profile_or_departure_spec(self@, old(world)@, tag, attrs_view(attrs@)),
    {
        match tag {
            Tag::Stop => {
                if self.flags.in_route && self.flags.in_route_profile {
                    self.add_profile_point(world, attrs);
                }
            },
            Tag::Departure => {
                if self.flags.in_route && self.flags.in_departures {
                    self.add_route_departure(world, attrs);
                }
            },
            _ => {},
        }
    }

    fn on_start(&mut self, world: &mut World, el: &XmlElement)
        ensures
            (final(self)@, final(world)@) == step_spec(old(self)@, old(world)@, XmlEventView::Start(el@)),
    {
        let attrs = &el.attributes;
        let tag = classify(el.name.as_str());
        match tag {
            Tag::StopFacility => {
                Self::add_stop_facility(world, attrs);
            },
            Tag::TransitLine => {
                let id = find_last_value(attrs, "id");
                if id.is_some() {
                    self.current_line = id;
                }
                let name = find_last_value(attrs, "name");
                if name.is_some() {
                    self.current_line_name = name;
                }
                self.flags.in_line = true;
                self.flags.after_line_attributes = false;
            },
            Tag::Attributes => {
                if self.flags.in_line && !self.flags.after_line_attributes {
                    self.flags.in_line_attributes = true;
                }
            },
            Tag::Attribute => {
                if self.flags.in_line && self.flags.in_line_attributes {
                    let name = find_last_value(attrs, "name");
                    if name.is_some() {
                        self.current_attribute_name = name;
                    }
                }
            },
            Tag::TransitRoute => {
                if self.flags.in_line {
                    self.flags.in_route = true;
                    self.add_route(world, attrs);
                }
            },
            Tag::RouteProfile => {
                if self.flags.in_route {
                    self.flags.in_route_profile = true;
                }
            },
            Tag::Departures => {
                if self.flags.in_route {
                    self.flags.in_departures = true;
                }
            },
            _ => {
                self.on_profile_or_departure(world, tag, attrs);
            },
        }
        assert(self@ =~= step_spec(old(self)@, old(world)@, XmlEventView::Start(el@)).0);
    }

    fn on_end(&mut self, world: &mut World, name: &String)
        ensures
            (final(self)@, final(world)@) == step_spec(old(self)@, old(world)@, XmlEventView::End(name@)),
    {
        match classify(name.as_str()) {
            Tag::Attribute => {
                if self.flags.in_line && self.flags.in_line_attributes {
                    self.current_attribute_name = None;
                }
            },
            Tag::Attributes => {
                if self.flags.in_line && self.flags.in_line_attributes {
                    self.flags.in_line_attributes = false;
                    self.flags.after_line_attributes = true;
                    self.add_line(world);
                }
            },
            Tag::RouteProfile => {
                if self.flags.in_route && self.flags.in_route_profile {
                    self.flags.in_route_profile = false;
                }
            },
            Tag::Departures => {
                if self.flags.in_route {
                    self.flags.in_departures = false;
                }
            },
            Tag::TransitRoute => {
                if self.flags.in_route {
                    self.current_route = None;
                    self.current_route_entity = None;
                    self.flags.in_route = false;
                }
            },
            Tag::TransitLine => {
                self.current_line = None;
                self.current_line_name = None;
                self.current_line_agency_id = None;
                self.current_line_route_type = None;
                self.flags.in_line = false;
            },
            _ => {},
        }
        assert(self@ =~= step_spec(old(self)@, old(world)@, XmlEventView::End(name@)).0);
    }

    fn on_text(&mut self, text: &Option<String>)
        ensures
            final(self)@ == text_spec(old(self)@, opt_view(*text)),
    {
        match text {
            Some(t) => match &self.current_attribute_name {
                Some(attr) => {
                    if str_eq(attr.as_str(), "gtfs_agency_id") {
                        self.current_line_agency_id = Some(t.clone());
                    } else if str_eq(attr.as_str(), "gtfs_route_type") {
                        match parse_u16(t.as_str()) {
                            Some(v) => {
                                self.current_line_route_type = RouteType::from_int(v);
                            },
                            None => {},
                        }
                    }
                },
                None => {},
            },
            None => {},
        }
        assert(self@ =~= text_spec(old(self)@, opt_view(*text)));
    }

    /// Handles one XML event of a schedule document: updates the loader
    /// state and adds to the world what the event describes. Returns
    /// `false` at the end of the input and `true` otherwise.
    pub fn step(&mut self, world: &mut World, event: &XmlEvent) -> (keep_going: bool)
        requires
            !step_refused(old(self).flags, event@),
        ensures
            keep_going == !(event@ is Eof),
            (final(self)@, final(world)@) == step_spec(old(self)@, old(world)@, event@),
    {
        match event {
            XmlEvent::Eof => {
                return false;
            },
            XmlEvent::Start(el) => {
                self.on_start(world, el);
            },
            XmlEvent::Empty(el) => {
                let tag = classify(el.name.as_str());
                self.on_profile_or_departure(world, tag, &el.attributes);
            },
            XmlEvent::End(name) => {
                self.on_end(world, name);
            },
            XmlEvent::Text(t) => {
                if self.flags.in_line && self.flags.in_line_attributes {
                    self.on_text(t);
                }
            },
            _ => {},
        }
        assert(self@ =~= step_spec(old(self)@, old(world)@, event@).0);
        true
    }
}

/// The loader state and world after handling `events` in order from state
/// `s` and world `w`, up to the end-of-input event.
pub open spec fn load_spec(s: LoadStateView, w: WorldView, events: Seq<XmlEventView>) -> (
    LoadStateView,
    WorldView,
)
    decreases events.len(),
{
    if events.len() == 0 || events[0] is Eof {
        (s, w)
    } else {
        let (s2, w2) = step_spec(s, w, events[0]);
        load_spec(s2, w2, events.drop_first())
    }
}

/// Whether no event up to the end-of-input event is refused, starting in
/// the part of the document that `f` describes.
pub open spec fn accepted_from(f: LoadFlags, events: Seq<XmlEventView>) -> bool
    decreases events.len(),
{
    if events.len() == 0 || events[0] is Eof {
        true
    } else {
        !step_refused(f, events[0]) && accepted_from(flags_step(f, events[0]), events.drop_first())
    }
}

/// Whether a whole document's events are accepted by the loader.
pub open spec fn events_accepted(events: Seq<XmlEventView>) -> bool {
    accepted_from(initial_state().flags, events)
}

/// Whether the loader, in the part of the document that `flags`
/// describes, refuses an event.
pub fn refuses(flags: LoadFlags, event: &XmlEvent) -> (res: bool)
    ensures
        res == step_refused(flags, event@),
{
    match event {
        XmlEvent::Start(el) => {
            let a = &el.attributes;
            match classify(el.name.as_str()) {
                Tag::StopFacility => find_unreadable(a, "id") || find_unreadable(a, "x")
                    || find_unreadable(a, "y") || find_unreadable(a, "name")
                    || find_unreadable(a, "stopAreaId"),
                Tag::TransitLine => find_unreadable(a, "id") || find_unreadable(a, "name"),
                Tag::Attribute => flags.in_line && flags.in_line_attributes && find_unreadable(a, "name"),
                Tag::TransitRoute => flags.in_line && find_unreadable(a, "id"),
                Tag::Stop => flags.in_route && flags.in_route_profile && find_unreadable(a, "refId"),
                Tag::Departure => flags.in_route && flags.in_departures && find_unreadable(a, "id"),
                _ => false,
            }
        },
        XmlEvent::Empty(el) => {
            let a = &el.attributes;
            match classify(el.name.as_str()) {
                Tag::Stop => flags.in_route && flags.in_route_profile && find_unreadable(a, "refId"),
                Tag::Departure => flags.in_route && flags.in_departures && find_unreadable(a, "id"),
                _ => false,
            }
        },
        XmlEvent::Text(t) => flags.in_line && flags.in_line_attributes && t.is_none(),
        _ => false,
    }
}

/// How an event moves the loader between the parts of the document.
pub fn next_flags(flags: LoadFlags, event: &XmlEvent) -> (res: LoadFlags)
    ensures
        res == flags_step(flags, event@),
{
    let mut f = flags;
    match event {
        XmlEvent::Start(el) => match classify(el.name.as_str()) {
            Tag::TransitLine => {
                f.in_line = true;
                f.after_line_attributes = false;
            },
            Tag::Attributes => {
                if f.in_line && !f.after_line_attributes {
                    f.in_line_attributes = true;
                }
            },
            Tag::TransitRoute => {
                if f.in_line {
                    f.in_route = true;
                }
            },
            Tag::RouteProfile => {
                if f.in_route {
                    f.in_route_profile = true;
                }
            },
            Tag::Departures => {
                if f.in_route {
                    f.in_departures = true;
                }
            },
            _ => {},
        },
        XmlEvent::End(name) => match classify(name.as_str()) {
            Tag::Attributes => {
                if f.in_line && f.in_line_attributes {
                    f.in_line_attributes = false;
                    f.after_line_attributes = true;
                }
            },
            Tag::RouteProfile => {
                if f.in_route && f.in_route_profile {
                    f.in_route_profile = false;
                }
            },
            Tag::Departures => {
                if f.in_route {
                    f.in_departures = false;
                }
            },
            Tag::TransitRoute => {
                if f.in_route {
                    f.in_route = false;
                }
            },
            Tag::TransitLine => {
                f.in_line = false;
            },
            _ => {},
        },
        _ => {},
    }
    f
}

/// The plugin that loads the schedule and expands it into trips.
pub struct SchedulePlugin {
    pub path: String,
}

impl SchedulePlugin {
    /// Whether the loader accepts a document's events: none of the listed
    /// attributes it must read, nor line-attribute text, is unreadable.
    pub fn accepts(events: &Vec<XmlEvent>) -> (res: bool)
        ensures
            res == events_accepted(events_view(events@)),
    {
        let ghost ev = events_view(events@);
        let mut f = LoadState::new().flags;
        let mut i: usize = 0;
        assert(ev.skip(0) =~= ev);
        while i < events.len()
            invariant
                i <= events@.len(),
                ev == events_view(events@),
                events_accepted(ev) == accepted_from(f, ev.skip(i as int)),
            decreases events@.len() - i,
        {
            assert(ev.skip(i as int).drop_first() =~= ev.skip(i + 1));
            assert(ev.skip(i as int)[0] == events@[i as int]@);
            let ev = &events[i];
            if ev.is_eof() {
                return true;
            }
            if refuses(f, ev) {
                return false;
            }
            f = next_flags(f, ev);
            i = i + 1;
        }
        true
    }

    /// Reads a schedule document, given as its XML events, into the world:
    /// stop facilities, lines with their routes, route profiles and route
    /// departures, and the schedule's indexes of them. Events after the
    /// end-of-input event are not read.
    pub fn load(world: &mut World, events: &Vec<XmlEvent>)
        requires
            events_accepted(events_view(events@)),
        ensures
            final(world)@ == load_spec(initial_state(), old(world)@, events_view(events@)).1,
    {
        let ghost ev = events_view(events@);
        let mut state = LoadState::new();
        let mut i: usize = 0;
        assert(ev.skip(0) =~= ev);
        while i < events.len()
            invariant
                i <= events@.len(),
                ev == events_view(events@),
                accepted_from(state.flags, ev.skip(i as int)),
                load_spec(initial_state(), old(world)@, ev) == load_spec(
                    state@,
                    world@,
                    ev.skip(i as int),
                ),
            decreases events@.len() - i,
        {
            assert(ev.skip(i as int).drop_first() =~= ev.skip(i + 1));
            assert(ev.skip(i as int)[0] == events@[i as int]@);
            let keep_going = state.step(world, &events[i]);
            if !keep_going {
                return;
            }
            i = i + 1;
        }
    }
}

impl XmlEvent {
    /// Whether this is the end-of-input event.
    pub fn is_eof(&self) -> (res: bool)
        ensures
            res == (self@ is Eof),
    {
        match self {
            XmlEvent::Eof => true,
            _ => false,
        }
    }
}

} // verus!
