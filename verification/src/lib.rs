//! A verified core for archiving and serving the Astronomy Picture of the Day.
use vstd::prelude::*;

pub mod text;
pub mod query;
pub mod date;
pub mod media;
pub mod entry;
pub mod merge;
pub mod pictures;
pub mod games;
pub mod rating;
pub mod apod;
pub mod contributor;
pub mod sky;
pub mod pause;
pub mod db;
pub mod pattern;
pub mod html;
pub mod parse;
pub mod decode;
pub mod original;
pub mod quality;
pub mod resource;
pub mod object;

verus! {

/// Where the legacy site served its pages.
pub const APOD_BASE_URL: &'static str = "https://apod.nasa.gov/apod/";

/// Bumped whenever a change to parsing means stored entries should be parsed again.
pub const PARSER_VERSION: u32 = 6;

} // verus!
