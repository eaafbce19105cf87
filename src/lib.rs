//! Parsing, querying, editing and rendering of SRT subtitle files.
mod error;
mod grammar;
mod normalize;
mod round_trip;
mod subline;
mod subtitles;
mod text;
mod timestamp;

pub use error::SrtError;
pub use grammar::{check, count_blocks};
pub use normalize::prepare;
pub use subline::SubLine;
pub use subtitles::Subtitles;
pub use timestamp::Timestamp;
