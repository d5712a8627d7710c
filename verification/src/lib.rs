//! Reading of university timetables: which specialties a course title names,
//! how its groups are written, and how classes are gathered into a schedule.

pub mod text;
pub mod parser;
pub mod strmap;
pub mod schedule;
pub mod config;
pub mod table;
pub mod cli;
