# transit_schedule

A verified core for a public-transport map: it reads a transit schedule
(stop facilities, transit lines with their attributes, routes with their
stop profile and departures) from an XML document, and expands
every route departure into a trip with one departure per stop.

The application runs on bevy, whose `World` holds components by entity.
A bevy world only stores types that implement bevy's `Component` trait,
which the library's own types cannot implement (that takes bevy's derive
or an impl of an outside trait), so the library keeps its own world: a
list of components indexed by entity number, with the schedule beside it.
The application mirrors that world into bevy's once it is loaded and
expanded. Times are counted in half-seconds after midnight (twice the
whole seconds, plus one within a leap second), as chrono orders them.

- `src/model.rs`: the world (entities holding one component each, and the
  schedule resource) with its views and the two ways it changes: adding an
  entity and adding a link.
- `src/xml.rs`: XML events as plain values, attribute lookup.
- `src/document.rs`: reading a document's bytes into XML events with
  quick_xml, and loading a whole document.
- `src/times.rs`: `HH:MM:SS` times and offsets (through chrono) and the
  route-type code parser.
- `src/loader.rs`: the loader's state machine, one event at a time, and the
  whole-document loader.
- `src/trips.rs`: the expansion of route departures into trips.
- `src/board.rs`: a stop facility's departures ordered by time.
- `src/sorting.rs`: the stable insertion sort by key that orders route
  profiles and departure boards.
- `src/laws.rs`, `src/growth.rs`, `src/wellformed.rs`, `src/listing.rs`,
  `src/loading.rs`, `src/nesting.rs`: the laws (sorting, trips, loading in
  parts, growth only, well-formed links, what expansion lists, what loading
  adds and for which nesting of elements).
- `app/`: the bevy application: it reads the schedule file's bytes, runs
  the library, mirrors the result into the bevy world and shows the map
  and the departure boards.
