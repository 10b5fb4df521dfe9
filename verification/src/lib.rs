//! Builds the ranked-leaderboard index: a compact binary file that gives
//! random access to every player record by sorted position and the ten best
//! players for each popular name prefix.

pub mod builder;
pub mod cache_map;
pub mod cache_reader;
pub mod error;
pub mod layout;
pub mod prefix_cache;
pub mod prefix_pass;
pub mod prefixes;
pub mod reader;
pub mod record;
pub mod refresh;
pub mod roundtrip;
pub mod skins;
pub mod sort;
pub mod tally;
pub mod text;
pub mod varint;
pub mod writer;
