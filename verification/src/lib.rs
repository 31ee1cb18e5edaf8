//! Public-transit isochrones over a zero-copy timetable graph.
//!
//! Given a station, an instant and a budget of time, the crate finds the
//! stations a passenger can reach on foot and by scheduled journeys, and
//! thins them to those whose surroundings matter for the reachable area.
//!
//! * [`graph`] parses the timetable blob into stations, edges, journeys and
//!   operating periods that borrow from it.
//! * [`schedule`] knows the calendar: on which days a period runs and which
//!   journey a passenger catches.
//! * [`isochrone`] runs the time-dependent expansion; [`search`] says what
//!   it computes and [`budget`] how the result depends on the budget.
//! * [`coverage`] and [`places`] drop stations that add nothing to the
//!   covered ground.
//! * [`request`] examines a request before it is answered.
//!
//! Times are whole milliseconds and distances whole millimetres. A
//! coordinate is kept as the bit pattern of its 32-bit float; turning caps
//! into polygons and measuring them is left to the caller.

pub mod budget;
pub mod bytes;
pub mod coverage;
pub mod graph;
pub mod heap;
pub mod isochrone;
pub mod places;
pub mod request;
pub mod schedule;
pub mod search;
pub mod table;
