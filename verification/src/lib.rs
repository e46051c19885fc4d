//! A verified library for the WebVTT-style cue text subtitle format.
//!
//! The crate models subtitle timing with a millisecond-resolution time
//! model (`TimePoint`, `TimeSpan`), moves cue data through the
//! format-neutral `SubtitleEntry`, and implements the cue text format in
//! `VttFile`: a parser, a serializer and a constructor, each with a
//! contract that pins its result down, together with round-trip proofs.

pub mod entry;
pub mod errors;
pub mod grammar;
pub mod interface;
pub mod laws;
pub mod text;
pub mod timetypes;
pub mod vtt;

pub use entry::SubtitleEntry;
pub use errors::Error;
pub use interface::SubtitleFileInterface;
pub use timetypes::{TimePoint, TimeSpan};
pub use vtt::{ErrorKind, VttFile};
