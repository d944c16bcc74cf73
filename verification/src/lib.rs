//! Weekly timetable solver: enumerate all ways to pick one shift per
//! subject, filter out choices with overlapping classes, and rank the
//! conflict-free timetables by total time spent at school.

pub mod time;
pub mod model;
pub mod timetable;
pub mod solver;
pub mod report;
pub mod laws;
pub mod parse;
