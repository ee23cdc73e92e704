//! Planning exams: who is examined by whom, in which room and when.
//!
//! A plan holds students, teachers, rooms and exams. Exams wait until they
//! are booked into a room at a slot of the timetable; a booking stands in
//! the calendar of the room and of everybody who takes part. Hard rules say
//! which bookings are allowed, soft rules which are preferred, and the
//! scheduler books the waiting exams by them, best candidate first.
//!
//! Times are whole nanoseconds as `i64`: instants since the Unix epoch in
//! UTC, times of day since midnight. Identifiers are 128-bit numbers.
//!
//! Every function states what it returns or changes over the mathematical
//! value of its arguments: the `...Model` types and the `spec` functions
//! beside them.

pub mod planer;
pub mod search;
pub mod solver;
pub mod text;
