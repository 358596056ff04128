//! Ranking of place names against a free-text query.
//!
//! The crate has two halves. The first is a subsequence matcher: `alignment`
//! says what a match of a pattern in a string is and what it is worth,
//! `fuzzy` finds the best one. The second is the ranking pipeline: `store`
//! holds the places, `score` blends a place's lexical similarity to the
//! query with its proximity to a location, and `search` returns the places
//! above the threshold in the order of their scores. `records` reads the
//! gazetteer's text format and `request` checks what a request holds.
//!
//! The library computes with integers only. Coordinates are carried as the
//! bit patterns of single-precision numbers, distances are taken in whole
//! metres, and scores are exact fractions.

pub mod alignment;
pub mod chars;
pub mod edit_distance;
pub mod fuzzy;
pub mod records;
pub mod request;
pub mod score;
pub mod search;
pub mod store;

pub use crate::chars::Letter;
pub use crate::fuzzy::{fuzzy_match, fuzzy_score, match_letters, score_cell};
pub use crate::request::{location_of, LocationError};
pub use crate::score::{Ratio, Score};
pub use crate::search::FuzzyResult;
pub use crate::store::{City, CityData, Coordinate, Country};
