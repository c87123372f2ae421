//! Reading MIDI files.
use crate::midi::MidiFault;
use crate::placing::{nothing_placed, MidiImport};
use crate::smf::{parse_smf, parsed_smf, readable};
use crate::song::{read_song, song_of, SongView};
use vstd::prelude::*;

verus! {

/// Why bytes are not a MIDI file that can be made a score.
#[derive(Debug)]
pub enum MidiError {
    TooLarge,
    Unreadable { reason: String },
    Fault { fault: MidiFault },
}

/// Whether a file is larger than 64 MiB.
pub open spec fn is_too_large(bytes: Seq<u8>) -> bool {
    bytes.len() > 67108864
}

/// Reads a MIDI file and plays it. What comes out is the song with none of its times placed
/// yet: these are placed one by one, and then the score is made.
pub fn parse_midi(bytes: &[u8]) -> (r: Result<MidiImport, MidiError>)
    ensures
        match r {
            Ok(import) => !is_too_large(bytes@) && (parsed_smf(
                readable(bytes@),
            ) matches Some(content) && song_of(content) == Ok::<_, MidiFault>(import.song()))
                && import.placed() == nothing_placed() && import.well_formed(),
            Err(MidiError::TooLarge) => is_too_large(bytes@),
            Err(MidiError::Unreadable { .. }) => !is_too_large(bytes@) && parsed_smf(
                readable(bytes@),
            ) is None,
            Err(MidiError::Fault { fault }) => !is_too_large(bytes@) && (parsed_smf(
                readable(bytes@),
            ) matches Some(content) && song_of(content) == Err::<SongView, _>(fault)),
        },
{
    if bytes.len() > 67108864 {
        return Err(MidiError::TooLarge);
    }
    let file = match parse_smf(bytes) {
        Err(reason) => {
            return Err(MidiError::Unreadable { reason });
        },
        Ok(file) => file,
    };
    match read_song(&file) {
        Err(fault) => Err(MidiError::Fault { fault }),
        Ok(song) => Ok(MidiImport::new(song)),
    }
}

} // verus!
