//! The format-adapter contract: the capability set that a concrete
//! subtitle format implements so that a conversion pipeline can move
//! entries between any two formats without knowing their grammars.

use vstd::prelude::*;

use crate::entry::{SubtitleEntry, SubtitleEntryModel};
use crate::errors::Error;
use crate::timetypes::TimeSpan;

verus! {

/// A concrete subtitle format: it can read the ordered entries it holds,
/// overwrite them in place, and serialize itself to bytes. A conversion
/// pipeline reads entries from one adapter and writes them into another.
pub trait SubtitleFileInterface: Sized {
    /// The format-neutral entries that the adapter currently holds, in
    /// file order.
    spec fn spec_entries(&self) -> Seq<SubtitleEntryModel>;

    /// The adapter's structural invariant, established by parsing or
    /// construction and preserved by updates.
    spec fn inv(&self) -> bool;

    /// The exact bytes of the adapter's state in its native format.
    spec fn spec_serialized(&self) -> Seq<u8>;

    /// Reads the ordered entries currently held; never fails on a
    /// well-formed adapter.
    fn get_subtitle_entries(&self) -> (r: Result<Vec<SubtitleEntry>, Error>)
        requires
            self.inv(),
        ensures
            r is Ok,
            match r {
                Ok(es) => es.deep_view() == self.spec_entries(),
                Err(_) => false,
            },
    ;

    /// Replaces each held entry's timing with the corresponding given
    /// entry's, and its text with the given text when that text is
    /// present; an absent text leaves the held text unchanged. The given
    /// entries must be exactly as many as are held.
    fn update_subtitle_entries(&mut self, new_entries: &[SubtitleEntry]) -> (r: Result<(), Error>)
        requires
            old(self).inv(),
            new_entries@.len() == old(self).spec_entries().len(),
            forall|i: int|
                0 <= i < new_entries@.len() ==> (#[trigger] new_entries@[i]).timespan.wf(),
        ensures
            r is Ok,
            final(self).inv(),
            final(self).spec_entries().len() == old(self).spec_entries().len(),
            forall|i: int|
                0 <= i < old(self).spec_entries().len() ==> {
                    let n = final(self).spec_entries()[i];
                    let o = old(self).spec_entries()[i];
                    let e = (#[trigger] new_entries@[i])@;
                    &&& n.start == e.start
                    &&& n.end == e.end
                    &&& n.line == (match e.line {
                        Some(t) => Some(t),
                        None => o.line,
                    })
                },
    ;

    /// Serializes the adapter's state to its exact native byte
    /// representation.
    fn to_data(&self) -> (r: Result<Vec<u8>, Error>)
        requires
            self.inv(),
        ensures
            r is Ok,
            match r {
                Ok(d) => d@ == self.spec_serialized(),
                Err(_) => false,
            },
    ;
}

} // verus!
