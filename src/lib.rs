//! Weekly timetables for students: every way of taking one commission of each
//! mandatory subject and at most one of each optional subject without two of them
//! meeting at the same time, enumerated lazily and filtered by subject and credit
//! counts.
pub mod builder;
pub mod catalog;
pub mod filters;
pub mod generator;
pub mod serializer;
pub mod time;
