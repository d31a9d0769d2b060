//! Per-pitcher pitch summaries for a single baseball game.
//!
//! A game feed is a JSON document. [`feed`] finds the plays in it, decides
//! which events are pitches and reads their labels; [`classify`] turns a
//! label into a pitch name and a category; [`table`] counts the pitches by
//! pitcher, category and name; [`report`] orders the counts for display and
//! [`layout`] writes them as lines of text. [`counts`] holds the mathematical
//! model that the contracts of the others speak of.

pub mod classify;
pub mod counts;
pub mod feed;
pub mod json;
pub mod layout;
pub mod report;
pub mod table;
pub mod text;
