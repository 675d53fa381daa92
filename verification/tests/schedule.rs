use transit_schedule::loader::{LoadState, SchedulePlugin};
use transit_schedule::model::{Component, RouteType, Schedule, World};
use transit_schedule::times::{offset_seconds, parse_offset, parse_time_of_day, parse_u16};
use transit_schedule::xml::{XmlAttribute, XmlElement, XmlEvent};

fn element(name: &str, attrs: &[(&str, &str)]) -> XmlElement {
    XmlElement {
        name: name.to_string(),
        attributes: attrs
            .iter()
            .map(|(k, v)| XmlAttribute { key: k.to_string(), value: Some(v.to_string()) })
            .collect(),
    }
}

fn start(name: &str, attrs: &[(&str, &str)]) -> XmlEvent {
    XmlEvent::Start(element(name, attrs))
}

fn empty(name: &str, attrs: &[(&str, &str)]) -> XmlEvent {
    XmlEvent::Empty(element(name, attrs))
}

fn end(name: &str) -> XmlEvent {
    XmlEvent::End(name.to_string())
}

fn text(t: &str) -> XmlEvent {
    XmlEvent::Text(Some(t.to_string()))
}

/// Two stop facilities, one line (agency and route type given as
/// attributes), one route over both stops, and two departures.
fn sample_events() -> Vec<XmlEvent> {
    vec![
        start("transitSchedule", &[]),
        start("transitStops", &[]),
        start("stopFacility", &[("id", "s1"), ("x", "1.5"), ("y", "2.5"), ("name", "Alpha")]),
        end("stopFacility"),
        start("stopFacility", &[("id", "s2"), ("x", "3"), ("y", "4"), ("name", "Beta"), ("stopAreaId", "area")]),
        end("stopFacility"),
        end("transitStops"),
        start("transitLine", &[("id", "L1"), ("name", "Line one")]),
        start("attributes", &[]),
        start("attribute", &[("name", "gtfs_agency_id"), ("class", "java.lang.String")]),
        text("AG"),
        end("attribute"),
        start("attribute", &[("name", "gtfs_route_type"), ("class", "java.lang.Integer")]),
        text("3"),
        end("attribute"),
        end("attributes"),
        start("transitRoute", &[("id", "R1")]),
        start("routeProfile", &[]),
        empty("stop", &[("refId", "s1"), ("arrivalOffset", "00:00:00"), ("departureOffset", "00:00:00")]),
        empty("stop", &[("refId", "s2"), ("arrivalOffset", "00:05:00"), ("departureOffset", "00:06:00")]),
        end("routeProfile"),
        start("departures", &[]),
        empty("departure", &[("id", "d1"), ("departureTime", "08:00:00")]),
        empty("departure", &[("id", "d2"), ("departureTime", "09:30:15")]),
        end("departures"),
        end("transitRoute"),
        end("transitLine"),
        end("transitSchedule"),
        XmlEvent::Eof,
    ]
}

fn load(events: &Vec<XmlEvent>) -> World {
    let mut world = World::new(Schedule::new("schedule.xml".to_string()));
    assert!(SchedulePlugin::accepts(events));
    SchedulePlugin::load(&mut world, events);
    world
}

fn stop(world: &World, e: usize) -> &transit_schedule::model::StopFacility {
    match &world.entities[e] {
        Component::StopFacility(s) => s,
        other => panic!("not a stop facility: {:?}", other),
    }
}

fn line(world: &World, e: usize) -> &transit_schedule::model::Line {
    match &world.entities[e] {
        Component::Line(l) => l,
        other => panic!("not a line: {:?}", other),
    }
}

fn route(world: &World, e: usize) -> &transit_schedule::model::Route {
    match &world.entities[e] {
        Component::Route(r) => r,
        other => panic!("not a route: {:?}", other),
    }
}

fn trip(world: &World, e: usize) -> &transit_schedule::model::Trip {
    match &world.entities[e] {
        Component::Trip(t) => t,
        other => panic!("not a trip: {:?}", other),
    }
}

fn departure(world: &World, e: usize) -> &transit_schedule::model::Departure {
    match &world.entities[e] {
        Component::Departure(d) => d,
        other => panic!("not a departure: {:?}", other),
    }
}

#[test]
fn route_type_codes() {
    assert_eq!(RouteType::from_int(0), Some(RouteType::Tram));
    assert_eq!(RouteType::from_int(1), Some(RouteType::Subway));
    assert_eq!(RouteType::from_int(2), Some(RouteType::RegionalRail));
    assert_eq!(RouteType::from_int(3), Some(RouteType::Bus));
    assert_eq!(RouteType::from_int(4), Some(RouteType::Ferry));
    assert_eq!(RouteType::from_int(100), Some(RouteType::RegionalRail));
    assert_eq!(RouteType::from_int(101), Some(RouteType::HighSpeedRail));
    assert_eq!(RouteType::from_int(106), Some(RouteType::RegionalRail));
    assert_eq!(RouteType::from_int(109), Some(RouteType::SuburbanRail));
    assert_eq!(RouteType::from_int(600), Some(RouteType::Subway));
    assert_eq!(RouteType::from_int(700), Some(RouteType::Bus));
    assert_eq!(RouteType::from_int(5), Some(RouteType::Other));
    assert_eq!(RouteType::from_int(65535), Some(RouteType::Other));
}

#[test]
fn parse_u16_agrees_with_std() {
    for s in [
        "0", "3", "+3", "65535", "65536", "00042", "-1", "-0", "", "+", " 3", "3 ", "1_0", "12a",
        "٣", "99999999999999999999", "+0065535",
    ] {
        assert_eq!(parse_u16(s), s.parse::<u16>().ok(), "input {:?}", s);
    }
}

#[test]
fn offsets_and_times_parse_as_hms() {
    assert_eq!(parse_offset("01:02:03"), 3723);
    assert_eq!(parse_offset("00:00:00"), 0);
    assert_eq!(parse_offset("23:59:59"), 86399);
    assert_eq!(parse_offset("24:00:00"), 0);
    assert_eq!(parse_offset("later"), 0);
    // times of day are counted in half-seconds; a leap second lies between
    // second 59 and the next minute, and counts as second 59 in an offset
    assert_eq!(parse_time_of_day("07:30:00"), Some(2 * 27000));
    assert_eq!(parse_time_of_day("08:59:60"), Some(2 * (8 * 3600 + 59 * 60 + 59) + 1));
    assert_eq!(parse_offset("00:00:60"), 59);
    assert_eq!(parse_time_of_day("7:30"), None);
    assert_eq!(parse_time_of_day("12:60:00"), None);
    assert_eq!(offset_seconds(Some((2, 0, 1, 0))), 7201);
    assert_eq!(offset_seconds(Some((0, 0, 59, 1_000_000_000))), 59);
    assert_eq!(offset_seconds(None), 0);
}

#[test]
fn load_reads_stops_lines_routes_and_departures() {
    let world = load(&sample_events());
    // s1, s2, line, route, two profile points, two route departures
    assert_eq!(world.entities.len(), 8);
    let s1 = stop(&world, 0);
    assert_eq!(s1.id, "s1");
    assert_eq!(s1.x.as_deref(), Some("1.5"));
    assert_eq!(s1.y.as_deref(), Some("2.5"));
    assert_eq!(s1.name.as_deref(), Some("Alpha"));
    assert_eq!(s1.stop_area_id, None);
    assert_eq!(stop(&world, 1).stop_area_id.as_deref(), Some("area"));
    assert_eq!(world.schedule.stop_facilities.get("s2").copied(), Some(1));
    let l = line(&world, 2);
    assert_eq!(l.id, "L1");
    assert_eq!(l.name, "Line one");
    assert_eq!(l.agency_id.as_deref(), Some("AG"));
    assert_eq!(l.route_type, Some(RouteType::Bus));
    assert_eq!(l.routes, vec![3]);
    assert_eq!(world.schedule.lines.get("L1").copied(), Some(2));
    let r = route(&world, 3);
    assert_eq!(r.id, "R1");
    assert_eq!(r.line, 2);
    assert_eq!(r.route_profile, vec![4, 5]);
    assert_eq!(r.departures, vec![6, 7]);
    assert_eq!(world.schedule.routes, vec![3]);
    assert_eq!(world.schedule.departures, vec![6, 7]);
    match &world.entities[5] {
        Component::RouteProfilePoint(p) => {
            assert_eq!(p.stop, 1);
            assert_eq!(p.route, 3);
            assert_eq!(p.arrival_offset, 300);
            assert_eq!(p.departure_offset, 360);
        }
        other => panic!("unexpected {:?}", other),
    }
    match &world.entities[7] {
        Component::RouteDeparture(d) => {
            assert_eq!(d.id, "d2");
            assert_eq!(d.departure_time, 2 * (9 * 3600 + 30 * 60 + 15));
            assert_eq!(d.route, 3);
            assert_eq!(d.trip, None);
        }
        other => panic!("unexpected {:?}", other),
    }
}

#[test]
fn trips_get_one_departure_per_stop() {
    let mut world = load(&sample_events());
    SchedulePlugin::create_trips_and_departures(&mut world);
    // two trips, each with two stop departures
    assert_eq!(world.entities.len(), 8 + 2 * 3);
    assert_eq!(world.schedule.trips, vec![8, 11]);
    assert_eq!(world.schedule.departures, vec![6, 7, 9, 10, 12, 13]);
    let t = trip(&world, 8);
    assert_eq!(t.id, "trip_R1_d1");
    assert_eq!(t.route, 3);
    assert_eq!(t.line, 2);
    assert_eq!(t.headsign.as_deref(), Some("Beta"));
    assert_eq!(t.departures, vec![9, 10]);
    assert_eq!(trip(&world, 11).id, "trip_R1_d2");
    let d = departure(&world, 10);
    assert_eq!(d.line_name, "Line one");
    assert_eq!(d.route_headsign, "Beta");
    assert_eq!(d.arrival_time, Some(2 * (8 * 3600 + 300)));
    assert_eq!(d.departure_time, Some(2 * (8 * 3600 + 360)));
    assert_eq!(d.stop, 1);
    assert_eq!(d.trip, 8);
    assert_eq!(d.route, 3);
    assert_eq!(departure(&world, 12).departure_time, Some(2 * (9 * 3600 + 30 * 60 + 15)));
    assert_eq!(route(&world, 3).trips, vec![8, 11]);
    assert_eq!(line(&world, 2).trips, vec![8, 11]);
    assert_eq!(stop(&world, 0).departures, vec![9, 12]);
    assert_eq!(stop(&world, 1).departures, vec![10, 13]);
}

#[test]
fn profile_is_ordered_stably_by_departure_offset() {
    let events = vec![
        start("stopFacility", &[("id", "a"), ("name", "A")]),
        start("stopFacility", &[("id", "b"), ("name", "B")]),
        start("stopFacility", &[("id", "c"), ("name", "C")]),
        start("transitLine", &[("id", "L")]),
        start("attributes", &[]),
        end("attributes"),
        start("transitRoute", &[("id", "R")]),
        start("routeProfile", &[]),
        empty("stop", &[("refId", "c"), ("departureOffset", "00:10:00")]),
        empty("stop", &[("refId", "a"), ("departureOffset", "00:05:00")]),
        empty("stop", &[("refId", "b"), ("departureOffset", "00:05:00")]),
        end("routeProfile"),
        start("departures", &[]),
        empty("departure", &[("id", "x"), ("departureTime", "10:00:00")]),
        end("departures"),
        end("transitRoute"),
        end("transitLine"),
        XmlEvent::Eof,
    ];
    let mut world = load(&events);
    let before = world.entities.len();
    SchedulePlugin::create_trips_and_departures(&mut world);
    let t = trip(&world, before);
    assert_eq!(t.headsign.as_deref(), Some("C"));
    let stops: Vec<usize> = t.departures.iter().map(|&e| departure(&world, e).stop).collect();
    assert_eq!(stops, vec![0, 1, 2]);
    let times: Vec<u64> =
        t.departures.iter().map(|&e| departure(&world, e).departure_time.unwrap()).collect();
    assert_eq!(times, vec![2 * 36300, 2 * 36300, 2 * 36600]);
    assert!(times.windows(2).all(|w| w[0] <= w[1]));
    assert_eq!(line(&world, 3).name, "");
}

#[test]
fn unreadable_required_attribute_is_refused() {
    let mut events = sample_events();
    events[2] = XmlEvent::Start(XmlElement {
        name: "stopFacility".to_string(),
        attributes: vec![XmlAttribute { key: "id".to_string(), value: None }],
    });
    assert!(!SchedulePlugin::accepts(&events));
    let mut bad_text = sample_events();
    bad_text[10] = XmlEvent::Text(None);
    assert!(!SchedulePlugin::accepts(&bad_text));
    let mut outside_line = vec![XmlEvent::Text(None), XmlEvent::Eof];
    assert!(SchedulePlugin::accepts(&outside_line));
    outside_line.insert(0, start("transitLine", &[]));
    assert!(SchedulePlugin::accepts(&outside_line));
}

#[test]
fn unreadable_offset_keeps_previous_value() {
    let events = vec![
        start("stopFacility", &[("id", "a")]),
        start("transitLine", &[("id", "L")]),
        start("attributes", &[]),
        end("attributes"),
        start("transitRoute", &[("id", "R")]),
        start("routeProfile", &[]),
        XmlEvent::Empty(XmlElement {
            name: "stop".to_string(),
            attributes: vec![
                XmlAttribute { key: "refId".to_string(), value: Some("a".to_string()) },
                XmlAttribute { key: "arrivalOffset".to_string(), value: Some("00:01:00".to_string()) },
                XmlAttribute { key: "arrivalOffset".to_string(), value: None },
            ],
        }),
        XmlEvent::Eof,
    ];
    let world = load(&events);
    match &world.entities[3] {
        Component::RouteProfilePoint(p) => assert_eq!(p.arrival_offset, 60),
        other => panic!("unexpected {:?}", other),
    }
}

#[test]
fn events_after_end_of_input_are_ignored() {
    let mut events = sample_events();
    let whole = load(&events).entities.len();
    events.push(start("stopFacility", &[("id", "late")]));
    let world = load(&events);
    assert_eq!(world.entities.len(), whole);
    assert_eq!(world.schedule.stop_facilities.get("late"), None);
}

#[test]
fn step_reports_end_of_input() {
    let mut world = World::new(Schedule::new(String::new()));
    let mut state = LoadState::new();
    assert!(state.step(&mut world, &start("transitStops", &[])));
    assert!(!state.step(&mut world, &XmlEvent::Eof));
    assert_eq!(world.entities.len(), 0);
}

#[test]
fn loading_in_parts_equals_loading_whole() {
    let events = sample_events();
    let whole = load(&events);
    let mut world = World::new(Schedule::new("schedule.xml".to_string()));
    let mut state = LoadState::new();
    for ev in &events {
        if !state.step(&mut world, ev) {
            break;
        }
    }
    assert_eq!(format!("{:?}", world.entities), format!("{:?}", whole.entities));
    assert_eq!(world.schedule.routes, whole.schedule.routes);
    assert_eq!(world.schedule.departures, whole.schedule.departures);
}

#[test]
fn self_closing_stop_facility_and_unknown_stop_are_skipped() {
    let events = vec![
        empty("stopFacility", &[("id", "a")]),
        start("transitLine", &[("id", "L")]),
        start("attributes", &[]),
        start("attribute", &[("name", "gtfs_route_type")]),
        text("bus"),
        end("attribute"),
        end("attributes"),
        start("transitRoute", &[("id", "R")]),
        start("routeProfile", &[]),
        empty("stop", &[("refId", "a")]),
        end("routeProfile"),
        start("departures", &[]),
        empty("departure", &[("id", "d")]),
        empty("departure", &[("departureTime", "08:00:00")]),
        end("departures"),
        end("transitRoute"),
        end("transitLine"),
        XmlEvent::Eof,
    ];
    let world = load(&events);
    // only the line and the route
    assert_eq!(world.entities.len(), 2);
    assert_eq!(line(&world, 0).route_type, None);
    assert!(route(&world, 1).route_profile.is_empty());
    assert!(route(&world, 1).departures.is_empty());
}

#[test]
fn route_outside_of_a_line_is_not_created() {
    let events = vec![
        start("transitRoute", &[("id", "R")]),
        start("transitLine", &[("id", "L")]),
        start("transitRoute", &[("id", "R2")]),
        end("transitRoute"),
        XmlEvent::Eof,
    ];
    let world = load(&events);
    // the line's attributes never closed, so no line entity and no route
    assert!(world.entities.is_empty());
    assert!(world.schedule.routes.is_empty());
}

#[test]
fn every_link_points_at_the_right_kind_after_expansion() {
    let mut world = load(&sample_events());
    SchedulePlugin::create_trips_and_departures(&mut world);
    for (e, c) in world.entities.iter().enumerate() {
        match c {
            Component::Route(r) => {
                assert!(line(&world, r.line).routes.contains(&e));
                for &t in &r.trips {
                    assert_eq!(trip(&world, t).route, e);
                }
            }
            Component::Trip(t) => {
                for &d in &t.departures {
                    assert_eq!(departure(&world, d).trip, e);
                }
            }
            Component::StopFacility(s) => {
                for &d in &s.departures {
                    assert_eq!(departure(&world, d).stop, e);
                }
            }
            _ => {}
        }
    }
}

#[test]
fn departure_board_is_ordered_by_time() {
    let mut events = sample_events();
    events[22] = empty("departure", &[("id", "d1"), ("departureTime", "09:00:00")]);
    events[23] = empty("departure", &[("id", "d2"), ("departureTime", "08:00:00")]);
    let mut world = load(&events);
    SchedulePlugin::create_trips_and_departures(&mut world);
    assert_eq!(stop(&world, 0).departures, vec![9, 12]);
    assert_eq!(world.departure_board(0), vec![12, 9]);
    assert_eq!(world.departure_board(1), vec![13, 10]);
    // a line is no stop facility; an entity past the end is none either
    assert_eq!(world.departure_board(2), Vec::<usize>::new());
    assert_eq!(world.departure_board(1000), Vec::<usize>::new());
}

#[test]
fn departure_board_puts_unknown_times_first_and_keeps_ties() {
    let mut world = World::new(Schedule::new(String::new()));
    let mk = |t: Option<u64>| {
        Component::Departure(transit_schedule::model::Departure {
            line_name: String::new(),
            route_headsign: String::new(),
            arrival_time: t,
            departure_time: t,
            stop: 0,
            trip: 0,
            route: 0,
        })
    };
    world.entities.push(Component::StopFacility(transit_schedule::model::StopFacility {
        id: "s".to_string(),
        x: None,
        y: None,
        name: None,
        stop_area_id: None,
        routes: vec![],
        lines: vec![],
        departures: vec![1, 2, 3, 4, 0],
    }));
    world.entities.push(mk(Some(50)));
    world.entities.push(mk(None));
    world.entities.push(mk(Some(10)));
    world.entities.push(mk(Some(50)));
    assert_eq!(world.departure_board(0), vec![2, 3, 1, 4]);
}

#[test]
fn expansion_only_extends_what_was_loaded() {
    let mut world = load(&sample_events());
    let before: Vec<Component> = world.entities.clone();
    let routes = world.schedule.routes.clone();
    SchedulePlugin::create_trips_and_departures(&mut world);
    assert!(world.entities.len() >= before.len());
    for (old, new) in before.iter().zip(world.entities.iter()) {
        match (old, new) {
            (Component::StopFacility(a), Component::StopFacility(b)) => {
                assert_eq!((&a.id, &a.x, &a.y, &a.name), (&b.id, &b.x, &b.y, &b.name));
                assert!(b.departures.starts_with(&a.departures));
            }
            (Component::Line(a), Component::Line(b)) => {
                assert_eq!((&a.id, &a.name, a.route_type), (&b.id, &b.name, b.route_type));
                assert!(b.routes.starts_with(&a.routes) && b.trips.starts_with(&a.trips));
            }
            (Component::Route(a), Component::Route(b)) => {
                assert_eq!((&a.id, a.line), (&b.id, b.line));
                assert!(b.route_profile.starts_with(&a.route_profile));
                assert!(b.departures.starts_with(&a.departures));
                assert!(b.trips.starts_with(&a.trips));
            }
            (a, b) => assert_eq!(format!("{:?}", a), format!("{:?}", b)),
        }
    }
    assert_eq!(world.schedule.routes, routes);
}

const SAMPLE_XML: &str = r#"<?xml version="1.0" encoding="UTF-8"?>
<transitSchedule>
  <transitStops>
    <stopFacility id="s1" x="1.5" y="2.5" name="Alpha"></stopFacility>
    <stopFacility id="s2" x="3" y="4" name="Beta" stopAreaId="area"></stopFacility>
  </transitStops>
  <transitLine id="L1" name="Line one">
    <attributes>
      <attribute name="gtfs_agency_id" class="java.lang.String">AG</attribute>
      <attribute name="gtfs_route_type" class="java.lang.Integer">3</attribute>
    </attributes>
    <transitRoute id="R1">
      <routeProfile>
        <stop refId="s1" arrivalOffset="00:00:00" departureOffset="00:00:00"/>
        <stop refId="s2" arrivalOffset="00:05:00" departureOffset="00:06:00"/>
      </routeProfile>
      <departures>
        <departure id="d1" departureTime="08:00:00"/>
        <departure id="d2" departureTime="09:30:15"/>
      </departures>
    </transitRoute>
  </transitLine>
</transitSchedule>
"#;

#[test]
fn document_loads_like_its_events() {
    let mut world = World::new(Schedule::new("schedule.xml".to_string()));
    assert!(SchedulePlugin::load_document(&mut world, SAMPLE_XML.as_bytes()));
    let from_events = load(&sample_events());
    assert_eq!(format!("{:?}", world.entities), format!("{:?}", from_events.entities));
    assert_eq!(world.schedule.routes, from_events.schedule.routes);
    assert_eq!(world.schedule.departures, from_events.schedule.departures);
    assert_eq!(world.schedule.stop_facilities.get("s2").copied(), Some(1));
    assert_eq!(world.schedule.lines.get("L1").copied(), Some(2));
}

#[test]
fn document_events_end_with_end_of_input() {
    let events = transit_schedule::document::read_xml_events(SAMPLE_XML.as_bytes());
    assert!(matches!(events.last(), Some(XmlEvent::Eof)));
    assert_eq!(events.iter().filter(|e| matches!(e, XmlEvent::Eof)).count(), 1);
    assert!(matches!(&events[0], XmlEvent::Other));
    match &events[1] {
        XmlEvent::Start(e) => assert_eq!(e.name, "transitSchedule"),
        other => panic!("unexpected {:?}", other),
    }
    let broken = transit_schedule::document::read_xml_events(b"<a><b></a>&x <c");
    assert!(matches!(broken.last(), Some(XmlEvent::Eof)));
    assert!(broken.iter().any(|e| matches!(e, XmlEvent::Error)));
    let nothing = transit_schedule::document::read_xml_events(b"");
    assert_eq!(nothing.len(), 1);
}

#[test]
fn document_with_unreadable_id_is_refused_and_world_kept() {
    let mut world = World::new(Schedule::new(String::new()));
    let text = br#"<stopFacility id="&bogus;" name="x"></stopFacility>"#;
    assert!(!SchedulePlugin::load_document(&mut world, text));
    assert!(world.entities.is_empty());
    let ok = br#"<stopFacility id="a&amp;b" name="x"/><stopFacility id="c&amp;d"></stopFacility>"#;
    assert!(SchedulePlugin::load_document(&mut world, ok));
    // the self-closing stop facility is skipped, as the loader only reads opening tags
    assert_eq!(world.entities.len(), 1);
    assert_eq!(stop(&world, 0).id, "c&d");
}

#[test]
fn expansion_lists_every_new_trip_and_departure() {
    let mut world = load(&sample_events());
    let before = world.entities.len();
    SchedulePlugin::create_trips_and_departures(&mut world);
    let mut trips = 0;
    let mut departures = 0;
    for e in before..world.entities.len() {
        match &world.entities[e] {
            Component::Trip(t) => {
                trips += 1;
                assert!(world.schedule.trips.contains(&e));
                assert!(route(&world, t.route).trips.contains(&e));
            }
            Component::Departure(d) => {
                departures += 1;
                assert!(world.schedule.departures.contains(&e));
                assert!(stop(&world, d.stop).departures.contains(&e));
                assert!(trip(&world, d.trip).departures.contains(&e));
                assert_eq!(trip(&world, d.trip).route, d.route);
            }
            other => panic!("expansion added {:?}", other),
        }
    }
    assert_eq!(trips, 2);
    assert_eq!(departures, 4);
}

#[test]
fn loaded_routes_belong_to_new_lines_and_list_their_parts() {
    let mut world = load(&sample_events());
    let before = world.entities.len();
    let routes_before = world.schedule.routes.len();
    let mut events = sample_events();
    for ev in events.iter_mut() {
        if let XmlEvent::Start(el) | XmlEvent::Empty(el) = ev {
            for a in el.attributes.iter_mut() {
                if a.key == "id" {
                    a.value = a.value.as_ref().map(|v| format!("{}b", v));
                }
            }
        }
    }
    SchedulePlugin::load(&mut world, &events);
    assert_eq!(world.schedule.routes.len(), routes_before + 1);
    for &r in &world.schedule.routes[routes_before..] {
        assert!(r >= before);
        let rt = route(&world, r);
        assert!(rt.line >= before);
        assert!(line(&world, rt.line).routes.contains(&r));
        assert_eq!(rt.route_profile.len(), 2);
        for &p in &rt.route_profile {
            match &world.entities[p] {
                Component::RouteProfilePoint(pt) => assert_eq!(pt.route, r),
                other => panic!("not a profile point: {:?}", other),
            }
        }
        assert_eq!(rt.departures.len(), 2);
        for &d in &rt.departures {
            match &world.entities[d] {
                Component::RouteDeparture(dep) => {
                    assert_eq!(dep.route, r);
                    assert_eq!(dep.trip, None);
                    assert!(world.schedule.departures.contains(&d));
                }
                other => panic!("not a route departure: {:?}", other),
            }
        }
    }
}

#[test]
fn profile_point_is_at_the_stop_indexed_when_read() {
    let events = vec![
        start("stopFacility", &[("id", "s1"), ("name", "First")]),
        end("stopFacility"),
        start("transitLine", &[("id", "L")]),
        start("attributes", &[]),
        end("attributes"),
        start("transitRoute", &[("id", "R")]),
        start("routeProfile", &[]),
        empty("stop", &[("refId", "s1")]),
        end("routeProfile"),
        end("transitRoute"),
        end("transitLine"),
        start("stopFacility", &[("id", "s1"), ("name", "Second")]),
        end("stopFacility"),
        XmlEvent::Eof,
    ];
    let world = load(&events);
    // entities: stop 0, line 1, route 2, point 3, stop 4
    assert_eq!(world.entities.len(), 5);
    match &world.entities[3] {
        Component::RouteProfilePoint(p) => {
            assert_eq!(p.stop, 0);
            assert_eq!(p.route, 2);
        }
        other => panic!("not a profile point: {:?}", other),
    }
    assert_eq!(world.schedule.stop_facilities.get("s1"), Some(&4));
}

#[test]
fn stop_outside_a_route_profile_adds_nothing() {
    let events = vec![
        start("stopFacility", &[("id", "s1")]),
        end("stopFacility"),
        start("transitLine", &[("id", "L")]),
        start("attributes", &[]),
        end("attributes"),
        start("transitRoute", &[("id", "R")]),
        empty("stop", &[("refId", "s1")]),
        empty("departure", &[("id", "d"), ("departureTime", "08:00:00")]),
        end("transitRoute"),
        end("transitLine"),
        XmlEvent::Eof,
    ];
    let world = load(&events);
    // stop facility, line and route only
    assert_eq!(world.entities.len(), 3);
    assert!(world.schedule.departures.is_empty());
}

#[test]
fn leap_second_departure_keeps_its_second_only_at_offset_zero() {
    let mut events = sample_events();
    events[22] = empty("departure", &[("id", "d1"), ("departureTime", "07:59:60")]);
    let mut world = load(&events);
    SchedulePlugin::create_trips_and_departures(&mut world);
    let leap = 2 * (7 * 3600 + 59 * 60 + 59) + 1;
    match &world.entities[6] {
        Component::RouteDeparture(d) => assert_eq!(d.departure_time, leap),
        other => panic!("unexpected {:?}", other),
    }
    // the first stop, at offset zero, leaves within the leap second; the
    // second stop counts its offsets from 07:59:59
    assert_eq!(departure(&world, 9).departure_time, Some(leap as u64));
    assert_eq!(departure(&world, 10).arrival_time, Some(2 * (7 * 3600 + 59 * 60 + 59 + 300)));
    assert_eq!(departure(&world, 10).departure_time, Some(2 * (7 * 3600 + 59 * 60 + 59 + 360)));
    // on the first stop's board the leap second comes after 07:59:59 and
    // before 08:00:00
    assert!(2 * (7 * 3600 + 59 * 60 + 59) < leap && leap < 2 * (8 * 3600));
}

#[test]
fn stop_counts_as_in_a_profile_after_a_route_nested_in_the_profile() {
    // a route opened inside a route profile is outside the schedule
    // format: once it closes, the loader no longer sees the profile close,
    // and a later stop in another route still becomes a profile point
    let events = vec![
        start("stopFacility", &[("id", "s1")]),
        end("stopFacility"),
        start("transitLine", &[("id", "L")]),
        start("attributes", &[]),
        end("attributes"),
        start("transitRoute", &[("id", "R1")]),
        start("routeProfile", &[]),
        start("transitRoute", &[("id", "R2")]),
        end("transitRoute"),
        end("routeProfile"),
        start("transitRoute", &[("id", "R3")]),
        empty("stop", &[("refId", "s1")]),
        end("transitRoute"),
        end("transitRoute"),
        end("transitLine"),
        XmlEvent::Eof,
    ];
    let world = load(&events);
    // stop 0, line 1, routes 2, 3 and 4, and a point of route 4
    assert_eq!(world.entities.len(), 6);
    match &world.entities[5] {
        Component::RouteProfilePoint(p) => {
            assert_eq!(p.route, 4);
            assert_eq!(p.stop, 0);
        }
        other => panic!("not a profile point: {:?}", other),
    }
}
