//! Synced lyrics in the LRC format, with the A2 extension: parsing, serializing,
//! checking the order of timestamps, and reading the lyrics active at a time.
//!
//! Parsing happens in two steps. [`LrcScan::scan`] checks the syntax of LRC text and
//! reads its ID tags, keeping every timestamp as written (whole minutes and the text of
//! a floating point number of seconds). Those timestamps, listed by
//! [`LrcScan::raw_timestamps`], are measured as durations outside this crate, and
//! [`SyncedLyrics::from_scan`] assembles the lyrics from the scan and the measures.
use vstd::prelude::*;

pub mod duration;
pub mod text;
pub mod error;
pub mod tags;
pub mod format;
pub mod lyrics;
pub mod parser;
pub mod scanner;
pub mod assemble;
pub mod laws;
pub mod rescan;

pub use assemble::{strip_tags, LrcScan};
pub use duration::Duration;
pub use error::{Error, ErrorKind};
pub use format::{duration_to_timestamp, normalize_fraction};
pub use lyrics::{LRCTool, SyncedLyrics};
pub use parser::{RawLine, RawSegment, RawTimestamp, ScannedLine, Step};
pub use tags::{LineTag, LyricsAccess, SegmentTag};
