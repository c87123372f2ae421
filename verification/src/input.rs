//! Telling MIDI files and MMI texts apart, and reading either.
use crate::import::{is_too_large, parse_midi, MidiError};
use crate::midi::MidiFault;
use crate::mmi::{lower_char, parse_mmi, score_of, MmiError, MmiFault};
use crate::placing::{nothing_placed, MidiImport};
use crate::score::{Score, ScoreView};
use crate::smf::{begins_with_mark, parsed_smf, readable};
use crate::song::{song_of, SongView};
use crate::text::{chars_of, push_text, same_chars, string_of};
use vstd::prelude::*;
use vstd::utf8::{decode_utf8, valid_utf8};

verus! {

/// What a file holds: a score, or a MIDI song whose times have still to be placed.
#[derive(Debug)]
pub enum Parsed {
    Score { score: Score },
    Midi { import: MidiImport },
}

/// Why a file cannot be read, and which it is.
#[derive(Debug)]
pub enum InputError {
    Midi { path: String, error: MidiError },
    NotUtf8 { path: String },
    Mmi { path: String, fault: MmiError },
}

/// Whether a character separates the components of a path: a slash does on every system, and on
/// some a backslash does too.
pub open spec fn separates(c: char, wide: bool) -> bool {
    c == '/' || (wide && c == '\\')
}

/// A path without separators, and single dots behind separators, at its end.
pub open spec fn plain_path(s: Seq<char>, wide: bool) -> Seq<char>
    decreases s.len(),
{
    if s.len() > 0 && separates(s.last(), wide) {
        plain_path(s.drop_last(), wide)
    } else if s.len() > 1 && s.last() == '.' && separates(s[s.len() - 2], wide) {
        plain_path(s.take(s.len() - 2), wide)
    } else {
        s
    }
}

/// The position behind the last separator.
pub open spec fn behind_separator(s: Seq<char>, wide: bool) -> int
    decreases s.len(),
{
    if s.len() == 0 {
        0
    } else if separates(s.last(), wide) {
        s.len() as int
    } else {
        behind_separator(s.drop_last(), wide)
    }
}

/// The position behind the last dot.
pub open spec fn behind_dot(s: Seq<char>) -> int
    decreases s.len(),
{
    if s.len() == 0 {
        0
    } else if s.last() == '.' {
        s.len() as int
    } else {
        behind_dot(s.drop_last())
    }
}

/// The last component of a path.
pub open spec fn last_component(path: Seq<char>, wide: bool) -> Seq<char> {
    let s = plain_path(path, wide);
    s.skip(behind_separator(s, wide))
}

/// What stands behind the last dot of a file's name, where that is not all of it.
pub open spec fn extension_of(path: Seq<char>, wide: bool) -> Option<Seq<char>> {
    let name = last_component(path, wide);
    let p = behind_dot(name);
    if name == seq!['.', '.'] || p <= 1 {
        None
    } else {
        Some(name.skip(p))
    }
}

/// Whether a path begins as those do that on some systems name a drive, a share or a device
/// ahead of the components.
pub open spec fn names_device(path: Seq<char>) -> bool {
    path.len() >= 2 && (path[1] == ':' || (separates(path[0], true) && separates(path[1], true)))
}

/// Whether a path is read alike on every system.
pub open spec fn is_portable(path: Seq<char>) -> bool {
    !names_device(path) && !path.contains('\\')
}

/// Whether a text without dots stands behind a dot of a path.
pub open spec fn is_behind_dot(path: Seq<char>, e: Seq<char>) -> bool {
    &&& !e.contains('.')
    &&& exists|at: int|
        0 <= at && at + e.len() < path.len() && path[at] == '.' && #[trigger] path.subrange(
            at + 1,
            at + 1 + e.len(),
        ) == e
}

/// Whether a system may take a text for the extension of a path: by slashes alone or by
/// backslashes too, unless the path may name a device.
pub open spec fn may_extend(path: Seq<char>, e: Option<Seq<char>>) -> bool {
    if names_device(path) {
        e matches Some(text) ==> is_behind_dot(path, text)
    } else {
        e == extension_of(path, false) || e == extension_of(path, true)
    }
}

/// The extension of a path by `std::path::Path::extension`, as the system has it: what stands
/// behind the last dot of the last component, where the name does not begin with that dot. Which
/// characters separate components is the system's, and so is what ahead of them names a drive, a
/// share or a device. Of a path that may begin with such a name it is only said that what is
/// found holds no dot and stands behind one.
#[verifier::external_body]
fn path_extension(path: &str) -> (r: Option<String>)
    ensures
        may_extend(path@, match r {
            Some(text) => Some(text@),
            None => None,
        }),
{
    std::path::Path::new(path).extension().and_then(|e| e.to_str()).map(|e| e.to_owned())
}

/// A text with ASCII capital letters made small.
pub open spec fn lowered(s: Seq<char>) -> Seq<char> {
    s.map_values(|c: char| lower_char(c))
}

/// Whether an extension is that of a MIDI file.
pub open spec fn extends_midi(e: Option<Seq<char>>) -> bool {
    match e {
        Some(text) => lowered(text) == "mid"@ || lowered(text) == "midi"@,
        None => false,
    }
}

/// Whether a path that is read alike on every system has the name of a MIDI file.
pub open spec fn names_midi(path: Seq<char>) -> bool {
    extends_midi(extension_of(path, false))
}

/// Whether a system may take a path for that of a MIDI file, or may not.
pub open spec fn may_name_midi(path: Seq<char>, midi: bool) -> bool {
    exists|e: Option<Seq<char>>| #[trigger] may_extend(path, e) && midi == extends_midi(e)
}

/// A path without backslashes has the same last component, and the same extension, whether or
/// not backslashes separate.
pub proof fn law_portable_extension(path: Seq<char>)
    requires
        !path.contains('\\'),
    ensures
        last_component(path, true) == last_component(path, false),
        extension_of(path, true) == extension_of(path, false),
{
    lemma_plain_alike(path);
    lemma_behind_alike(plain_path(path, false));
}

proof fn lemma_plain_alike(s: Seq<char>)
    requires
        !s.contains('\\'),
    ensures
        plain_path(s, true) == plain_path(s, false),
        !plain_path(s, false).contains('\\'),
    decreases s.len(),
{
    if s.len() > 0 {
        assert(s.contains(s.last()));
        if separates(s.last(), false) {
            lemma_plain_alike(s.drop_last());
        } else if s.len() > 1 && s.last() == '.' {
            assert(s.contains(s[s.len() - 2]));
            if separates(s[s.len() - 2], false) {
                lemma_plain_alike(s.take(s.len() - 2));
            }
        }
    }
}

proof fn lemma_behind_alike(s: Seq<char>)
    requires
        !s.contains('\\'),
    ensures
        behind_separator(s, true) == behind_separator(s, false),
    decreases s.len(),
{
    if s.len() > 0 {
        assert(s.contains(s.last()));
        lemma_behind_alike(s.drop_last());
    }
}

fn lower(c: char) -> (r: char)
    ensures
        r == lower_char(c),
{
    if c >= 'A' && c <= 'Z' {
        (c as u8 + 32) as char
    } else {
        c
    }
}

/// Whether an extension is that of a MIDI file.
pub fn is_midi_extension(extension: &str) -> (r: bool)
    ensures
        r == extends_midi(Some(extension@)),
{
    let s = chars_of(extension);
    let ghost f = |c: char| lower_char(c);
    let mut small: Vec<char> = Vec::new();
    let mut i: usize = 0;
    while i < s.len()
        invariant
            i <= s.len(),
            s@ == extension@,
            f == (|c: char| lower_char(c)),
            small@ == s@.take(i as int).map_values(f),
        decreases s.len() - i,
    {
        small.push(lower(s[i]));
        i += 1;
        proof {
            assert(small@ =~= s@.take(i as int).map_values(f));
        }
    }
    proof {
        assert(s@.take(i as int) =~= s@);
    }
    same_chars(&small, &chars_of("mid")) || same_chars(&small, &chars_of("midi"))
}

/// Whether a file is a MIDI file by its name, as the system reads it.
pub fn is_midi_path(path: &str) -> (r: bool)
    ensures
        may_name_midi(path@, r),
        is_portable(path@) ==> r == names_midi(path@),
{
    proof {
        if is_portable(path@) {
            law_portable_extension(path@);
        }
    }
    match path_extension(path) {
        Some(extension) => {
            proof {
                assert(may_extend(path@, Some(extension@)));
            }
            is_midi_extension(extension.as_str())
        },
        None => {
            proof {
                assert(may_extend(path@, None));
            }
            false
        },
    }
}

/// Reads bytes as UTF-8 with `std::str::from_utf8`: it succeeds exactly on well-formed bytes,
/// and gives the text that they encode.
#[verifier::external_body]
fn decode_text(bytes: &[u8]) -> (r: Option<String>)
    ensures
        match r {
            Some(text) => valid_utf8(bytes@) && text@ == decode_utf8(bytes@),
            None => !valid_utf8(bytes@),
        },
{
    std::str::from_utf8(bytes).ok().map(|text| text.to_owned())
}

/// Whether a file is read as MIDI: by its name, which may be that of a MIDI file, or by its first
/// bytes.
pub open spec fn is_midi_input(midi: bool, bytes: Seq<u8>) -> bool {
    midi || begins_with_mark(bytes, 77, 84, 104, 100)
}

/// What comes of the bytes of a file whose name is that of a MIDI file, or is not.
pub open spec fn reads_as(path: Seq<char>, midi: bool, bytes: Seq<u8>, r: Result<Parsed, InputError>) -> bool {
    match r {
        Ok(Parsed::Midi { import }) => is_midi_input(midi, bytes) && !is_too_large(bytes) && (
        parsed_smf(readable(bytes)) matches Some(content) && song_of(content) == Ok::<
            _,
            MidiFault,
        >(import.song())) && import.placed() == nothing_placed() && import.well_formed(),
        Ok(Parsed::Score { score }) => !is_midi_input(midi, bytes) && valid_utf8(bytes)
            && score_of(decode_utf8(bytes)) == Ok::<ScoreView, MmiFault>(score@),
        Err(InputError::Midi { path: p, error }) => p@ == path && is_midi_input(midi, bytes) && (
        match error {
            MidiError::TooLarge => is_too_large(bytes),
            MidiError::Unreadable { .. } => !is_too_large(bytes) && parsed_smf(
                readable(bytes),
            ) is None,
            MidiError::Fault { fault } => !is_too_large(bytes) && (parsed_smf(
                readable(bytes),
            ) matches Some(content) && song_of(content) == Err::<SongView, _>(fault)),
        }),
        Err(InputError::NotUtf8 { path: p }) => p@ == path && !is_midi_input(midi, bytes)
            && !valid_utf8(bytes),
        Err(InputError::Mmi { path: p, fault }) => p@ == path && !is_midi_input(midi, bytes)
            && valid_utf8(bytes) && score_of(decode_utf8(bytes)) == Err::<ScoreView, MmiFault>(
            fault@,
        ),
    }
}

/// Reads the bytes of a file whose name is that of a MIDI file, or is not, as MIDI or as MMI.
pub fn parse_named_bytes(path: &str, midi: bool, bytes: &[u8]) -> (r: Result<Parsed, InputError>)
    ensures
        reads_as(path@, midi, bytes@, r),
{
    let marked: bool = bytes.len() >= 4 && bytes[0] == 77 && bytes[1] == 84 && bytes[2] == 104
        && bytes[3] == 100;
    if midi || marked {
        match parse_midi(bytes) {
            Ok(import) => Ok(Parsed::Midi { import }),
            Err(error) => Err(InputError::Midi { path: path.to_owned(), error }),
        }
    } else {
        match decode_text(bytes) {
            None => Err(InputError::NotUtf8 { path: path.to_owned() }),
            Some(text) => match parse_mmi(text.as_str()) {
                Ok(score) => Ok(Parsed::Score { score }),
                Err(fault) => Err(InputError::Mmi { path: path.to_owned(), fault }),
            },
        }
    }
}

/// Reads the bytes of a file of some name as MIDI or as MMI.
pub fn parse_score_bytes(path: &str, bytes: &[u8]) -> (r: Result<Parsed, InputError>)
    ensures
        exists|midi: bool| #[trigger] may_name_midi(path@, midi) && reads_as(path@, midi, bytes@, r),
        is_portable(path@) ==> reads_as(path@, names_midi(path@), bytes@, r),
{
    let midi: bool = is_midi_path(path);
    parse_named_bytes(path, midi, bytes)
}

/// What is said of a file that cannot be read.
pub open spec fn complaint(error: InputError) -> Seq<char> {
    match error {
        InputError::Midi { path, .. } => "MIDI를 읽을 수 없습니다: "@ + path@,
        InputError::NotUtf8 { path } => "MMI는 UTF-8 텍스트여야 합니다: "@ + path@,
        InputError::Mmi { path, .. } => "MMI를 읽을 수 없습니다: "@ + path@,
    }
}

impl InputError {
    /// Says of which file it is that it cannot be read.
    pub fn message(&self) -> (text: String)
        ensures
            text@ == complaint(*self),
    {
        let (word, path): (&str, &String) = match self {
            InputError::Midi { path, .. } => ("MIDI를 읽을 수 없습니다: ", path),
            InputError::NotUtf8 { path } => ("MMI는 UTF-8 텍스트여야 합니다: ", path),
            InputError::Mmi { path, .. } => ("MMI를 읽을 수 없습니다: ", path),
        };
        let mut text = chars_of(word);
        push_text(&mut text, path.as_str());
        string_of(&text)
    }
}

} // verus!
