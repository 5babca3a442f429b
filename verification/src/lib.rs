//! Course-schedule and task tracker: calendar primitives, an interval-merge
//! engine for overlapping date and time ranges, schedule entities, and a
//! binary snapshot codec.

pub mod application;
pub mod bytes;
pub mod clock;
pub mod codec;
pub mod course;
pub mod date;
pub mod day;
pub mod errors;
pub mod interval;
pub mod task;
pub mod text;
pub mod time;
