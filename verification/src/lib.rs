//! A verified core for loading a public-transport schedule (stop facilities,
//! transit lines, routes and departures) from XML events, and for expanding
//! route departures into trips with one departure per stop.

pub mod model;
pub mod times;
pub mod xml;
pub mod loader;
pub mod trips;
pub mod sorting;
pub mod board;
pub mod document;
pub mod laws;
pub mod growth;
pub mod wellformed;
pub mod listing;
pub mod loading;
pub mod nesting;
pub mod purposes;

