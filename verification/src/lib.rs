//! Cut text (or bytes) where a delimiter matches, then keep the desired parts.
pub mod side;
pub mod side_order;
pub mod text;
pub mod userbounds;
pub mod userboundslist;
pub mod search;
pub mod parse;
pub mod pattern;
pub mod options;
pub mod finders;
pub mod plan;
pub mod json;
pub mod cut_str;
pub mod fast_lane;
pub mod cut_lines;
pub mod cut_bytes;
pub mod stream;
pub mod stream_fields;
pub mod joining;
pub mod cut;
pub mod laws;
