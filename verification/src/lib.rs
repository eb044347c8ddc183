//! Timetabling for a school: week calendars, the schedule of class sessions,
//! the penalties that grade a schedule and the search that lowers them, the import
//! of a school from its database, the export of its week as calendar events, and
//! what the editing windows decide.
pub mod week_calendar;
pub mod constraints;
pub mod random;
pub mod class_calendar;
pub mod sums;
pub mod heuristics;
pub mod rows;
pub mod day_penalties;
pub mod classroom_assignment;
pub mod annealing;
pub mod school_schedule;
pub mod timeslots;
pub mod importer;
pub mod legacy_import;
pub mod real_counter;
pub mod session_calendar;
pub mod registers;
pub mod widgets;
pub mod bounds;
pub mod ics_export;
pub mod evaluators;
pub mod calendar_text;
