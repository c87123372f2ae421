//! What folding a score asks for, and how often it is tried.
use crate::encode::{is_ensemble, Ensemble};
use crate::fold::{is_range, WorkingNote};
use crate::score::Note;
use crate::text::{chars_of, push_text, string_of};
use vstd::prelude::*;

verus! {

/// What is wrong with what is asked for.
#[derive(Clone, Copy, Debug, PartialEq, Eq, Structural)]
pub enum OptionFault {
    /// The range of volumes goes beyond 1 to 15, or down.
    Volume,
    /// There are no tracks, or more than 16.
    Tracks,
    /// A track has no parts, or more than 3.
    Parts,
}

/// The first thing that is wrong with what is asked for.
pub open spec fn option_fault(e: Ensemble) -> Option<OptionFault> {
    if e.volume_range matches Some(range) && !is_range(range) {
        Some(OptionFault::Volume)
    } else if !(1 <= e.tracks <= 16) {
        Some(OptionFault::Tracks)
    } else if !(1 <= e.parts <= 3) {
        Some(OptionFault::Parts)
    } else {
        None
    }
}

impl OptionFault {
    pub open spec fn words(self) -> Seq<char> {
        match self {
            OptionFault::Volume => "Volume range must satisfy 1 <= min <= max <= 15"@,
            OptionFault::Tracks => "Output tracks must be between 1 and 16"@,
            OptionFault::Parts => "Parts per track must be between 1 and 3"@,
        }
    }

    /// Says what is wrong.
    pub fn message(self) -> (text: &'static str)
        ensures
            text@ == self.words(),
    {
        match self {
            OptionFault::Volume => "Volume range must satisfy 1 <= min <= max <= 15",
            OptionFault::Tracks => "Output tracks must be between 1 and 16",
            OptionFault::Parts => "Parts per track must be between 1 and 3",
        }
    }
}

/// Checks what is asked for. What passes can be written.
pub fn check_options(e: &Ensemble) -> (r: Result<(), OptionFault>)
    ensures
        match r {
            Ok(_) => option_fault(*e) is None && is_ensemble(*e),
            Err(fault) => option_fault(*e) == Some(fault) && !is_ensemble(*e),
        },
{
    if let Some(range) = e.volume_range {
        if !range.is_valid() {
            return Err(OptionFault::Volume);
        }
    }
    if e.tracks < 1 || e.tracks > 16 {
        return Err(OptionFault::Tracks);
    }
    if e.parts < 1 || e.parts > 3 {
        return Err(OptionFault::Parts);
    }
    Ok(())
}

/// How many of the first notes that are kept end earlier than they did.
pub open spec fn shortened(notes: Seq<WorkingNote>, originals: Seq<Note>, kept: Seq<usize>, n: int) -> int
    decreases n,
{
    if n <= 0 {
        0
    } else {
        let i = kept[n - 1] as int;
        shortened(notes, originals, kept, n - 1) + (if notes[i].note.off < originals[i].off {
            1int
        } else {
            0int
        })
    }
}

/// Counts the notes that are kept and end earlier than they did.
pub fn count_shortened(notes: &Vec<WorkingNote>, originals: &Vec<Note>, kept: &Vec<usize>) -> (n: usize)
    requires
        originals.len() == notes.len(),
        forall|k: int| 0 <= k < kept.len() ==> (#[trigger] kept[k]) < notes.len(),
    ensures
        n == shortened(notes@, originals@, kept@, kept.len() as int),
        n <= kept.len(),
{
    let mut n: usize = 0;
    let mut k: usize = 0;
    while k < kept.len()
        invariant
            k <= kept.len(),
            originals.len() == notes.len(),
            forall|k: int| 0 <= k < kept.len() ==> (#[trigger] kept[k]) < notes.len(),
            n == shortened(notes@, originals@, kept@, k as int),
            n <= k,
        decreases kept.len() - k,
    {
        proof {
            assert(kept[k as int] < notes.len());
        }
        let i = kept[k];
        if notes[i].note.off < originals[i].off {
            n += 1;
        }
        k += 1;
    }
    n
}

/// Tells whether to try again: once, where notes were chosen by what was learned and that failed.
pub fn next_try(learned: bool, tried: usize, failed: bool) -> (again: bool)
    ensures
        again == (learned && tried == 1 && failed),
{
    learned && tried == 1 && failed
}

/// What a report says of a second try.
pub open spec fn retry_line() -> Seq<char> {
    "\nreduction : original interval priorities to preserve exact MML timing"@
}

/// The report on what one of the tries came to: on the second it says so.
pub fn report_try(report: &str, tried: usize) -> (text: String)
    ensures
        text@ == (if tried > 1 {
            report@ + retry_line()
        } else {
            report@
        }),
{
    let mut text = chars_of(report);
    if tried > 1 {
        push_text(
            &mut text,
            "\nreduction : original interval priorities to preserve exact MML timing",
        );
    }
    string_of(&text)
}

} // verus!
