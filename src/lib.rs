//! Splits JUnit test suites into groups of balanced total duration, so that
//! they can be run on parallel workers.
//!
//! Durations are whole milliseconds throughout the library.
pub mod loader;
pub mod model;
pub mod processing;
