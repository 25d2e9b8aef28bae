//! A small spaced-repetition scheduler for a collection of notes: it weighs each
//! note by its review history, picks a few notes for today and records the reviews.

pub mod names;
pub mod select;
pub mod store;
pub mod weight;
