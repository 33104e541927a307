//! The structured values produced by the extraction functions, and the
//! discriminated outcome through which an extraction function reports
//! failure. Text fields hold decoded characters; they are turned back into
//! UTF-8 only by the serializer.

use vstd::prelude::*;

verus! {

/// Favorites summary: category name and gallery count for exactly ten
/// favorite slots. `entries` is the parsed list of entries itself: each
/// element holds the slot's own character data. The record carries no
/// separate gallery listing; these texts stand for it in the encoding the
/// host reads.
pub struct FavRecord {
    pub cat_array: Vec<Vec<char>>,
    pub count_array: Vec<i32>,
    pub entries: Vec<Vec<char>>,
}

/// Image quota counters scraped from the home page.
pub struct LimitsRecord {
    pub current: i32,
    pub maximum: i32,
    pub reset_cost: i32,
}

/// One torrent listing row.
pub struct Torrent {
    pub posted: Vec<char>,
    pub size: Vec<char>,
    pub seeds: i32,
    pub peers: i32,
    pub downloads: i32,
    pub url: Vec<char>,
    pub name: Vec<char>,
}

/// The value handed from an extraction function to the serializer.
pub enum ExtractionResult {
    Fav(FavRecord),
    Limits(LimitsRecord),
    Torrents(Vec<Torrent>),
}

/// The failure side of an extraction function's outcome. `NotApplicable` is
/// an ordinary outcome (the page does not have the expected shape); the other
/// two are hard domain faults, folded into the fault sentinel at the
/// boundary.
pub enum ExtractError {
    NotApplicable,
    AuthRequired,
    Malformed,
}

} // verus!
