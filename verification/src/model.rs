use vstd::prelude::*;
use vstd::hash_map::StringHashMap;

verus! {

/// The kind of vehicle that serves a transit line.
#[derive(Debug, Clone, Copy, PartialEq, Eq, Structural, Hash)]
pub enum RouteType {
    Tram,
    Subway,
    Bus,
    Ferry,
    SuburbanRail,
    HighSpeedRail,
    RegionalRail,
    Other,
}

/// The route type that a GTFS route-type code stands for.
pub open spec fn route_type_of(value: u16) -> RouteType {
    if value == 0 {
        RouteType::Tram
    } else if value == 1 || value == 600 {
        RouteType::Subway
    } else if value == 2 || value == 100 || value == 106 {
        RouteType::RegionalRail
    } else if value == 3 || value == 700 {
        RouteType::Bus
    } else if value == 4 {
        RouteType::Ferry
    } else if value == 101 {
        RouteType::HighSpeedRail
    } else if value == 109 {
        RouteType::SuburbanRail
    } else {
        RouteType::Other
    }
}

impl RouteType {
    /// Maps a GTFS route-type code to a route type; codes without a
    /// dedicated kind map to `Other`, so the result is never `None`.
    pub fn from_int(value: u16) -> (res: Option<Self>)
        ensures
            res == Some(route_type_of(value)),
    {
        match value {
            0 => Some(RouteType::Tram),
            1 => Some(RouteType::Subway),
            2 => Some(RouteType::RegionalRail),
            3 => Some(RouteType::Bus),
            4 => Some(RouteType::Ferry),
            100 => Some(RouteType::RegionalRail),
            101 => Some(RouteType::HighSpeedRail),
            106 => Some(RouteType::RegionalRail),
            109 => Some(RouteType::SuburbanRail),
            600 => Some(RouteType::Subway),
            700 => Some(RouteType::Bus),
            _ => Some(RouteType::Other),
        }
    }
}

/// The view of an optional string.
pub open spec fn opt_view(o: Option<String>) -> Option<Seq<char>> {
    match o {
        Some(s) => Some(s@),
        None => None,
    }
}

/// Copies an optional string.
pub fn clone_opt(o: &Option<String>) -> (res: Option<String>)
    ensures
        opt_view(res) == opt_view(*o),
{
    match o {
        Some(s) => Some(s.clone()),
        None => None,
    }
}

/// A stop facility: a place where vehicles stop. Entities are referred to by
/// their index in the world. `x` and `y` keep the coordinate text as written.
#[derive(Debug, Clone)]
pub struct StopFacility {
    pub id: String,
    pub x: Option<String>,
    pub y: Option<String>,
    pub name: Option<String>,
    pub stop_area_id: Option<String>,
    pub routes: Vec<usize>,
    pub lines: Vec<usize>,
    pub departures: Vec<usize>,
}

/// What a stop facility holds, as plain values.
#[verifier::ext_equal]
pub struct StopFacilityView {
    pub id: Seq<char>,
    pub x: Option<Seq<char>>,
    pub y: Option<Seq<char>>,
    pub name: Option<Seq<char>>,
    pub stop_area_id: Option<Seq<char>>,
    pub routes: Seq<usize>,
    pub lines: Seq<usize>,
    pub departures: Seq<usize>,
}

impl View for StopFacility {
    type V = StopFacilityView;

    open spec fn view(&self) -> StopFacilityView {
        StopFacilityView {
            id: self.id@,
            x: opt_view(self.x),
            y: opt_view(self.y),
            name: opt_view(self.name),
            stop_area_id: opt_view(self.stop_area_id),
            routes: self.routes@,
            lines: self.lines@,
            departures: self.departures@,
        }
    }
}

/// One departure of a trip at one stop. Times are in half-seconds after the
/// start of the service day: twice the whole seconds, plus one within a leap
/// second.
#[derive(Debug, Clone)]
pub struct Departure {
    pub line_name: String,
    pub route_headsign: String,
    pub arrival_time: Option<u64>,
    pub departure_time: Option<u64>,
    pub stop: usize,
    pub trip: usize,
    pub route: usize,
}

/// What a stop departure holds, as plain values.
#[verifier::ext_equal]
pub struct DepartureView {
    pub line_name: Seq<char>,
    pub route_headsign: Seq<char>,
    pub arrival_time: Option<u64>,
    pub departure_time: Option<u64>,
    pub stop: usize,
    pub trip: usize,
    pub route: usize,
}

impl View for Departure {
    type V = DepartureView;

    open spec fn view(&self) -> DepartureView {
        DepartureView {
            line_name: self.line_name@,
            route_headsign: self.route_headsign@,
            arrival_time: self.arrival_time,
            departure_time: self.departure_time,
            stop: self.stop,
            trip: self.trip,
            route: self.route,
        }
    }
}

/// A transit line.
#[derive(Debug, Clone)]
pub struct Line {
    pub id: String,
    pub name: String,
    pub agency_id: Option<String>,
    pub route_type: Option<RouteType>,
    pub routes: Vec<usize>,
    pub trips: Vec<usize>,
}

/// What a line holds, as plain values.
#[verifier::ext_equal]
pub struct LineView {
    pub id: Seq<char>,
    pub name: Seq<char>,
    pub agency_id: Option<Seq<char>>,
    pub route_type: Option<RouteType>,
    pub routes: Seq<usize>,
    pub trips: Seq<usize>,
}

impl View for Line {
    type V = LineView;

    open spec fn view(&self) -> LineView {
        LineView {
            id: self.id@,
            name: self.name@,
            agency_id: opt_view(self.agency_id),
            route_type: self.route_type,
            routes: self.routes@,
            trips: self.trips@,
        }
    }
}

/// A transit route of a line: its stops (profile points), departures and trips.
#[derive(Debug, Clone)]
pub struct Route {
    pub id: String,
    pub route_profile: Vec<usize>,
    pub departures: Vec<usize>,
    pub trips: Vec<usize>,
    pub line: usize,
}

/// What a route holds, as plain values.
#[verifier::ext_equal]
pub struct RouteView {
    pub id: Seq<char>,
    pub route_profile: Seq<usize>,
    pub departures: Seq<usize>,
    pub trips: Seq<usize>,
    pub line: usize,
}

impl View for Route {
    type V = RouteView;

    open spec fn view(&self) -> RouteView {
        RouteView {
            id: self.id@,
            route_profile: self.route_profile@,
            departures: self.departures@,
            trips: self.trips@,
            line: self.line,
        }
    }
}

/// A trip: one run of a route, started by one route departure.
#[derive(Debug, Clone)]
pub struct Trip {
    pub id: String,
    pub route: usize,
    pub line: usize,
    pub departures: Vec<usize>,
    pub headsign: Option<String>,
}

/// What a trip holds, as plain values.
#[verifier::ext_equal]
pub struct TripView {
    pub id: Seq<char>,
    pub route: usize,
    pub line: usize,
    pub departures: Seq<usize>,
    pub headsign: Option<Seq<char>>,
}

impl View for Trip {
    type V = TripView;

    open spec fn view(&self) -> TripView {
        TripView {
            id: self.id@,
            route: self.route,
            line: self.line,
            departures: self.departures@,
            headsign: opt_view(self.headsign),
        }
    }
}

/// A departure of a route from its first stop, in half-seconds after the
/// start of the service day: twice the whole seconds, plus one within a leap
/// second.
#[derive(Debug, Clone)]
pub struct RouteDeparture {
    pub id: String,
    pub departure_time: u32,
    pub route: usize,
    pub trip: Option<usize>,
}

/// What a route departure holds, as plain values.
#[verifier::ext_equal]
pub struct RouteDepartureView {
    pub id: Seq<char>,
    pub departure_time: u32,
    pub route: usize,
    pub trip: Option<usize>,
}

impl View for RouteDeparture {
    type V = RouteDepartureView;

    open spec fn view(&self) -> RouteDepartureView {
        RouteDepartureView {
            id: self.id@,
            departure_time: self.departure_time,
            route: self.route,
            trip: self.trip,
        }
    }
}

/// A stop of a route, with the offsets (in seconds) at which vehicles arrive
/// and leave after the route's departure.
#[derive(Debug, Clone, Copy, PartialEq, Eq, Structural)]
pub struct RouteProfilePoint {
    pub route: usize,
    pub stop: usize,
    pub arrival_offset: u32,
    pub departure_offset: u32,
}

/// The one component that an entity of the world holds.
#[derive(Debug, Clone)]
pub enum Component {
    StopFacility(StopFacility),
    Line(Line),
    Route(Route),
    Trip(Trip),
    RouteDeparture(RouteDeparture),
    RouteProfilePoint(RouteProfilePoint),
    Departure(Departure),
}

/// What an entity's component holds, as plain values.
#[verifier::ext_equal]
pub enum ComponentView {
    StopFacility(StopFacilityView),
    Line(LineView),
    Route(RouteView),
    Trip(TripView),
    RouteDeparture(RouteDepartureView),
    RouteProfilePoint(RouteProfilePoint),
    Departure(DepartureView),
}

impl View for Component {
    type V = ComponentView;

    open spec fn view(&self) -> ComponentView {
        match self {
            Component::StopFacility(c) => ComponentView::StopFacility(c@),
            Component::Line(c) => ComponentView::Line(c@),
            Component::Route(c) => ComponentView::Route(c@),
            Component::Trip(c) => ComponentView::Trip(c@),
            Component::RouteDeparture(c) => ComponentView::RouteDeparture(c@),
            Component::RouteProfilePoint(c) => ComponentView::RouteProfilePoint(*c),
            Component::Departure(c) => ComponentView::Departure(c@),
        }
    }
}

/// The schedule: where it was read from, stop facilities and lines by id,
/// and the lists of routes, trips and departures.
pub struct Schedule {
    pub path: String,
    pub stop_facilities: StringHashMap<usize>,
    pub lines: StringHashMap<usize>,
    pub routes: Vec<usize>,
    pub trips: Vec<usize>,
    pub departures: Vec<usize>,
}

/// What the schedule holds: its indexes as maps, its lists as sequences.
#[verifier::ext_equal]
pub struct ScheduleView {
    pub path: Seq<char>,
    pub stop_facilities: Map<Seq<char>, usize>,
    pub lines: Map<Seq<char>, usize>,
    pub routes: Seq<usize>,
    pub trips: Seq<usize>,
    pub departures: Seq<usize>,
}

impl View for Schedule {
    type V = ScheduleView;

    open spec fn view(&self) -> ScheduleView {
        ScheduleView {
            path: self.path@,
            stop_facilities: self.stop_facilities@,
            lines: self.lines@,
            routes: self.routes@,
            trips: self.trips@,
            departures: self.departures@,
        }
    }
}

impl Schedule {
    /// An empty schedule that is to be read from `path`.
    pub fn new(path: String) -> (res: Self)
        ensures
            res@ == (ScheduleView {
                path: path@,
                stop_facilities: Map::empty(),
                lines: Map::empty(),
                routes: Seq::empty(),
                trips: Seq::empty(),
                departures: Seq::empty(),
            }),
    {
        Schedule {
            path,
            stop_facilities: StringHashMap::new(),
            lines: StringHashMap::new(),
            routes: Vec::new(),
            trips: Vec::new(),
            departures: Vec::new(),
        }
    }
}

/// Which list of which kind of component a link is added to.
#[derive(Debug, Clone, Copy, PartialEq, Eq, Structural)]
pub enum LinkKind {
    LineRoutes,
    LineTrips,
    RouteProfile,
    RouteDepartures,
    RouteTrips,
    StopDepartures,
    TripDepartures,
}

/// The component with `value` appended to the list that `kind` names, when
/// the component is of the kind that holds that list; otherwise unchanged.
pub open spec fn link_component(c: ComponentView, kind: LinkKind, value: usize) -> ComponentView {
    match c {
        ComponentView::Line(l) => match kind {
            LinkKind::LineRoutes => ComponentView::Line(LineView { routes: l.routes.push(value), ..l }),
            LinkKind::LineTrips => ComponentView::Line(LineView { trips: l.trips.push(value), ..l }),
            _ => c,
        },
        ComponentView::Route(r) => match kind {
            LinkKind::RouteProfile => ComponentView::Route(
                RouteView { route_profile: r.route_profile.push(value), ..r },
            ),
            LinkKind::RouteDepartures => ComponentView::Route(
                RouteView { departures: r.departures.push(value), ..r },
            ),
            LinkKind::RouteTrips => ComponentView::Route(RouteView { trips: r.trips.push(value), ..r }),
            _ => c,
        },
        ComponentView::StopFacility(s) => match kind {
            LinkKind::StopDepartures => ComponentView::StopFacility(
                StopFacilityView { departures: s.departures.push(value), ..s },
            ),
            _ => c,
        },
        ComponentView::Trip(t) => match kind {
            LinkKind::TripDepartures => ComponentView::Trip(
                TripView { departures: t.departures.push(value), ..t },
            ),
            _ => c,
        },
        _ => c,
    }
}

/// The world: every entity's component, indexed by entity, and the
/// schedule resource.
pub struct World {
    pub entities: Vec<Component>,
    pub schedule: Schedule,
}

/// What the world holds: the entities' components in entity order, and the schedule.
#[verifier::ext_equal]
pub struct WorldView {
    pub entities: Seq<ComponentView>,
    pub schedule: ScheduleView,
}

impl View for World {
    type V = WorldView;

    open spec fn view(&self) -> WorldView {
        WorldView {
            entities: self.entities@.map_values(|c: Component| c@),
            schedule: self.schedule@,
        }
    }
}

/// The component of entity `e`, if `e` is an entity.
pub open spec fn component_at(w: WorldView, e: usize) -> Option<ComponentView> {
    if e < w.entities.len() {
        Some(w.entities[e as int])
    } else {
        None
    }
}

impl WorldView {
    /// The world with one more entity, holding `c`.
    pub open spec fn spawned(self, c: ComponentView) -> WorldView {
        WorldView { entities: self.entities.push(c), ..self }
    }

    /// The world with a link added to entity `target` (no change when
    /// `target` is no entity, or not of the kind that holds such links).
    pub open spec fn linked(self, target: usize, kind: LinkKind, value: usize) -> WorldView {
        if target < self.entities.len() {
            WorldView {
                entities: self.entities.update(
                    target as int,
                    link_component(self.entities[target as int], kind, value),
                ),
                ..self
            }
        } else {
            self
        }
    }

    /// The world with a different schedule.
    pub open spec fn with_schedule(self, s: ScheduleView) -> WorldView {
        WorldView { schedule: s, ..self }
    }
}

impl World {
    /// A world with no entities and the given schedule resource.
    pub fn new(schedule: Schedule) -> (res: Self)
        ensures
            res@ == (WorldView { entities: Seq::empty(), schedule: schedule@ }),
    {
        let res = World { entities: Vec::new(), schedule };
        assert(res@.entities =~= Seq::<ComponentView>::empty());
        res
    }

    /// The component of entity `e`, if `e` is an entity.
    pub fn get(&self, e: usize) -> (res: Option<&Component>)
        ensures
            match res {
                Some(c) => component_at(self@, e) == Some(c@),
                None => component_at(self@, e) is None,
            },
    {
        if e < self.entities.len() {
            Some(&self.entities[e])
        } else {
            None
        }
    }

    /// Adds an entity holding `c`; returns the new entity.
    pub fn spawn(&mut self, c: Component) -> (e: usize)
        ensures
            e == old(self)@.entities.len(),
            final(self)@ == old(self)@.spawned(c@),
    {
        let e = self.entities.len();
        self.entities.push(c);
        assert(self@.entities =~= old(self)@.entities.push(c@));
        e
    }

    /// Appends `value` to the list that `kind` names, in entity `target`,
    /// when that entity exists and holds such a list.
    pub fn link(&mut self, target: usize, kind: LinkKind, value: usize)
        ensures
            final(self)@ == old(self)@.linked(target, kind, value),
    {
        if target < self.entities.len() {
            let ghost before = self.entities@;
            let c = &mut self.entities[target];
            match c {
                Component::Line(l) => match kind {
                    LinkKind::LineRoutes => l.routes.push(value),
                    LinkKind::LineTrips => l.trips.push(value),
                    _ => {},
                },
                Component::Route(r) => match kind {
                    LinkKind::RouteProfile => r.route_profile.push(value),
                    LinkKind::RouteDepartures => r.departures.push(value),
                    LinkKind::RouteTrips => r.trips.push(value),
                    _ => {},
                },
                Component::StopFacility(s) => match kind {
                    LinkKind::StopDepartures => s.departures.push(value),
                    _ => {},
                },
                Component::Trip(t) => match kind {
                    LinkKind::TripDepartures => t.departures.push(value),
                    _ => {},
                },
                _ => {},
            }
            assert(self@.entities =~= old(self)@.entities.update(
                target as int,
                link_component(old(self)@.entities[target as int], kind, value),
            ));
        }
    }
}

} // verus!
