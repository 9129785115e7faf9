//! Skill ratings for a physics/mode/category partition of timed race records.
pub mod text;
pub mod category;
pub mod scoring;
pub mod ranking;
pub mod players;
