//! The format-neutral subtitle unit: a time span plus optional text.

use vstd::prelude::*;

use crate::timetypes::TimeSpan;

verus! {

/// The mathematical value of a [`SubtitleEntry`]: start and end in
/// milliseconds and the optional text as a character sequence.
pub ghost struct SubtitleEntryModel {
    pub start: int,
    pub end: int,
    pub line: Option<Seq<char>>,
}

/// One format-neutral subtitle unit: the interval during which a text is
/// shown, and the text itself. The text is absent only transiently, in
/// update paths that change timing alone; a parsed entry always carries
/// text.
#[derive(Clone, Debug, PartialEq, Eq)]
pub struct SubtitleEntry {
    /// Start and end time of the entry.
    pub timespan: TimeSpan,
    /// The text of the entry, with embedded line breaks; `None` in a
    /// timing-only update.
    pub line: Option<String>,
}

impl View for SubtitleEntry {
    type V = SubtitleEntryModel;

    open spec fn view(&self) -> SubtitleEntryModel {
        SubtitleEntryModel {
            start: self.timespan@.0,
            end: self.timespan@.1,
            line: match self.line {
                Some(ref s) => Some(s@),
                None => None,
            },
        }
    }
}

impl DeepView for SubtitleEntry {
    type V = SubtitleEntryModel;

    open spec fn deep_view(&self) -> SubtitleEntryModel {
        self@
    }
}

impl SubtitleEntry {
    /// Constructs an entry from a span and an optional text.
    pub fn new(timespan: TimeSpan, line: Option<String>) -> (r: SubtitleEntry)
        ensures
            r.timespan == timespan,
            r.line == line,
    {
        SubtitleEntry { timespan, line }
    }
}

} // verus!
