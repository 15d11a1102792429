//! Recommendation export pipeline for a media library.
//!
//! Given a ranked list of recommendations (item id and distance) and the file
//! records they resolve to, this library renders the result as table rows, as
//! a JSON document, or as an M3U8 playlist whose lines are paths relative to
//! the playlist's own directory. It also provides the path algebra the
//! renderers need: joining, extension normalization and relativization.

pub mod nums;
pub mod paths;
pub mod pipeline;
