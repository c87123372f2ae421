//! Playing the events of a MIDI file: which notes sound from when to when.
use crate::text::{is_space, is_whitespace, string_of};
use crate::mmi::TrackError;
use crate::writer::EmitError;
use vstd::prelude::*;
use vstd::utf8::{decode_utf8, valid_utf8};

verus! {

/// Why a MIDI file cannot be made a score.
#[derive(Clone, Copy, Debug, PartialEq, Eq, Structural)]
pub enum MidiFault {
    Sequential,
    NoTracks,
    TooManyEvents,
    SingleTrackFormat,
    ZeroPpqn,
    ZeroSubframes,
    UnknownRate,
    TooManyNotes,
    Pitch { track: usize, pitch: u8 },
    ZeroTempo { track: usize },
    DenominatorTooLarge,
    Signature { numerator: u8, denominator: u32 },
    TooLong,
    TooManyVoices,
    Part { track: usize, cause: EmitError },
    Track { fault: TrackError },
    NoteCount,
    Unplaced,
}

/// A note of a MIDI file; it has no end as long as it is held.
#[derive(Clone, Copy, Debug, PartialEq, Eq)]
pub struct MidiNote {
    pub on: u64,
    pub off: Option<u64>,
    pub track: usize,
    pub port: u8,
    pub channel: u8,
    pub pitch: u8,
    pub velocity: u8,
    pub program: u8,
}

/// A channel of a port: the notes whose keys are down, those that only the pedal holds, and
/// its settings.
#[verifier::ext_equal]
pub struct ChannelState {
    pub port: u8,
    pub channel: u8,
    pub held: Seq<usize>,
    pub sustained: Seq<usize>,
    pub pedal: bool,
    pub program: u8,
}

/// A channel on which nothing has happened.
pub open spec fn fresh_channel(port: u8, channel: u8) -> ChannelState {
    ChannelState {
        port,
        channel,
        held: Seq::empty(),
        sustained: Seq::empty(),
        pedal: false,
        program: 0,
    }
}

/// Notes with one of them ended.
pub open spec fn ended(notes: Seq<MidiNote>, index: usize, time: u64) -> Seq<MidiNote> {
    notes.update(index as int, MidiNote { off: Some(time), ..notes[index as int] })
}

/// Notes with some of them ended.
pub open spec fn all_ended(notes: Seq<MidiNote>, list: Seq<usize>, time: u64) -> Seq<MidiNote>
    decreases list.len(),
{
    if list.len() == 0 {
        notes
    } else {
        ended(all_ended(notes, list.drop_last(), time), list.last(), time)
    }
}

/// The first note of a pitch, from some position on, whose key is down; of one track where
/// that is asked for.
pub open spec fn first_held(
    held: Seq<usize>,
    notes: Seq<MidiNote>,
    pitch: u8,
    track: Option<usize>,
    i: int,
) -> Option<int>
    decreases held.len() - i,
{
    if i < 0 || i >= held.len() {
        None
    } else {
        let note = notes[held[i] as int];
        if note.pitch == pitch && (track is None || track == Some(note.track)) {
            Some(i)
        } else {
            first_held(held, notes, pitch, track, i + 1)
        }
    }
}

/// The note that letting go of a key ends: the first on that key of the same track, or else
/// of any track.
pub open spec fn released(held: Seq<usize>, notes: Seq<MidiNote>, track: usize, pitch: u8) -> Option<
    int,
> {
    match first_held(held, notes, pitch, Some(track), 0) {
        Some(i) => Some(i),
        None => first_held(held, notes, pitch, None, 0),
    }
}

impl ChannelState {
    /// Letting go of a note: the pedal keeps it, or it ends.
    pub open spec fn letting_go(self, index: usize, time: u64, notes: Seq<MidiNote>) -> (
        ChannelState,
        Seq<MidiNote>,
    ) {
        if self.pedal {
            (ChannelState { sustained: self.sustained.push(index), ..self }, notes)
        } else {
            (self, ended(notes, index, time))
        }
    }

    /// Letting go of a key.
    pub open spec fn key_up(self, track: usize, pitch: u8, time: u64, notes: Seq<MidiNote>) -> (
        ChannelState,
        Seq<MidiNote>,
    ) {
        match released(self.held, notes, track, pitch) {
            Some(i) => ChannelState { held: self.held.remove(i), ..self }.letting_go(
                self.held[i],
                time,
                notes,
            ),
            None => (self, notes),
        }
    }

    /// Letting go of the pedal.
    pub open spec fn pedal_up(self, time: u64, notes: Seq<MidiNote>) -> (
        ChannelState,
        Seq<MidiNote>,
    ) {
        (
            ChannelState { pedal: false, sustained: Seq::empty(), ..self },
            all_ended(notes, self.sustained, time),
        )
    }

    /// Letting go of all keys, or at once ending all that sounds. The pedal stays as it is.
    pub open spec fn all_up(self, time: u64, notes: Seq<MidiNote>, at_once: bool) -> (
        ChannelState,
        Seq<MidiNote>,
    ) {
        if at_once {
            (
                ChannelState { held: Seq::empty(), sustained: Seq::empty(), ..self },
                all_ended(all_ended(notes, self.sustained, time), self.held, time),
            )
        } else if self.pedal {
            (
                ChannelState { held: Seq::empty(), sustained: self.sustained + self.held, ..self },
                notes,
            )
        } else {
            (
                ChannelState { held: Seq::empty(), ..self },
                all_ended(notes, self.held, time),
            )
        }
    }

    /// Whether the notes that the channel knows of are there.
    pub open spec fn knows(self, n: int) -> bool {
        &&& forall|i: int| 0 <= i < self.held.len() ==> (#[trigger] self.held[i]) < n
        &&& forall|i: int| 0 <= i < self.sustained.len() ==> (#[trigger] self.sustained[i]) < n
    }
}

/// A channel of a port: the notes whose keys are down, those that only the pedal holds, and
/// its settings.
#[derive(Debug)]
pub struct Channel {
    pub port: u8,
    pub channel: u8,
    pub held: Vec<usize>,
    pub sustained: Vec<usize>,
    pub pedal: bool,
    pub program: u8,
}

impl View for Channel {
    type V = ChannelState;

    open spec fn view(&self) -> ChannelState {
        ChannelState {
            port: self.port,
            channel: self.channel,
            held: self.held@,
            sustained: self.sustained@,
            pedal: self.pedal,
            program: self.program,
        }
    }
}

fn end_all(list: &Vec<usize>, time: u64, notes: &mut Vec<MidiNote>)
    requires
        forall|i: int| 0 <= i < list.len() ==> (#[trigger] list[i]) < old(notes).len(),
    ensures
        final(notes)@ == all_ended(old(notes)@, list@, time),
        final(notes).len() == old(notes).len(),
{
    let mut i: usize = 0;
    proof {
        assert(list@.take(0) =~= Seq::<usize>::empty());
    }
    while i < list.len()
        invariant
            i <= list.len(),
            notes.len() == old(notes).len(),
            forall|k: int| 0 <= k < list.len() ==> (#[trigger] list[k]) < notes.len(),
            notes@ == all_ended(old(notes)@, list@.take(i as int), time),
        decreases list.len() - i,
    {
        let index: usize = list[i];
        let mut note = notes[index];
        note.off = Some(time);
        notes.set(index, note);
        i += 1;
        proof {
            assert(list@.take(i as int).drop_last() =~= list@.take(i - 1));
            assert(list@.take(i as int).last() == index);
        }
    }
    proof {
        assert(list@.take(i as int) =~= list@);
    }
}

impl Channel {
    /// A channel on which nothing has happened.
    pub fn new(port: u8, channel: u8) -> (r: Self)
        ensures
            r@ == fresh_channel(port, channel),
    {
        Channel {
            port,
            channel,
            held: Vec::new(),
            sustained: Vec::new(),
            pedal: false,
            program: 0,
        }
    }

    fn release(&mut self, index: usize, time: u64, notes: &mut Vec<MidiNote>)
        requires
            index < old(notes).len(),
            old(self)@.knows(old(notes).len() as int),
        ensures
            (final(self)@, final(notes)@) == old(self)@.letting_go(index, time, old(notes)@),
            final(self)@.knows(final(notes).len() as int),
            final(notes).len() == old(notes).len(),
    {
        if self.pedal {
            self.sustained.push(index);
        } else {
            let mut note = notes[index];
            note.off = Some(time);
            notes.set(index, note);
        }
    }

    fn find_held(&self, track: Option<usize>, pitch: u8, notes: &Vec<MidiNote>) -> (r: Option<
        usize,
    >)
        requires
            self@.knows(notes.len() as int),
        ensures
            match r {
                Some(i) => first_held(self@.held, notes@, pitch, track, 0) == Some(i as int) && i
                    < self.held.len(),
                None => first_held(self@.held, notes@, pitch, track, 0) is None,
            },
    {
        let mut i: usize = 0;
        while i < self.held.len()
            invariant
                i <= self.held.len(),
                self@.knows(notes.len() as int),
                first_held(self@.held, notes@, pitch, track, i as int) == first_held(
                    self@.held,
                    notes@,
                    pitch,
                    track,
                    0,
                ),
            decreases self.held.len() - i,
        {
            let index: usize = self.held[i];
            proof {
                assert(self@.held[i as int] < notes.len());
            }
            let note = notes[index];
            let fits: bool = match track {
                None => true,
                Some(wanted) => wanted == note.track,
            };
            if note.pitch == pitch && fits {
                return Some(i);
            }
            i += 1;
        }
        None
    }

    /// Lets go of a key.
    pub fn note_off(&mut self, track: usize, pitch: u8, time: u64, notes: &mut Vec<MidiNote>)
        requires
            old(self)@.knows(old(notes).len() as int),
        ensures
            (final(self)@, final(notes)@) == old(self)@.key_up(track, pitch, time, old(notes)@),
            final(self)@.knows(final(notes).len() as int),
            final(notes).len() == old(notes).len(),
    {
        let own = self.find_held(Some(track), pitch, notes);
        let position = match own {
            Some(i) => Some(i),
            None => self.find_held(None, pitch, notes),
        };
        match position {
            Some(i) => {
                let ghost before = self@;
                let index = self.held.remove(i);
                proof {
                    assert(self@ =~= ChannelState { held: before.held.remove(i as int), ..before });
                    assert forall|k: int| 0 <= k < self@.held.len() implies (
                    #[trigger] self@.held[k]) < notes.len() by {
                        if k < i {
                            assert(self@.held[k] == before.held[k]);
                        } else {
                            assert(self@.held[k] == before.held[k + 1]);
                        }
                    }
                    assert(before.held[i as int] < notes.len());
                }
                self.release(index, time, notes);
            },
            None => {},
        }
    }

    /// Lets go of the pedal.
    pub fn release_pedal(&mut self, time: u64, notes: &mut Vec<MidiNote>)
        requires
            old(self)@.knows(old(notes).len() as int),
        ensures
            (final(self)@, final(notes)@) == old(self)@.pedal_up(time, old(notes)@),
            final(self)@.knows(final(notes).len() as int),
            final(notes).len() == old(notes).len(),
    {
        self.pedal = false;
        end_all(&self.sustained, time, notes);
        self.sustained = Vec::new();
        proof {
            assert(self@ =~= old(self)@.pedal_up(time, old(notes)@).0);
        }
    }

    /// Lets go of all keys, or at once ends all that sounds.
    pub fn all_notes_off(&mut self, time: u64, notes: &mut Vec<MidiNote>, at_once: bool)
        requires
            old(self)@.knows(old(notes).len() as int),
        ensures
            (final(self)@, final(notes)@) == old(self)@.all_up(time, old(notes)@, at_once),
            final(self)@.knows(final(notes).len() as int),
            final(notes).len() == old(notes).len(),
    {
        proof {
            assert forall|i: int| 0 <= i < self.held.len() implies (#[trigger] self.held[i])
                < notes.len() by {
                assert(self@.held[i] < notes.len());
            }
            assert forall|i: int| 0 <= i < self.sustained.len() implies (
            #[trigger] self.sustained[i]) < notes.len() by {
                assert(self@.sustained[i] < notes.len());
            }
        }
        if at_once {
            end_all(&self.sustained, time, notes);
            end_all(&self.held, time, notes);
            self.sustained = Vec::new();
            self.held = Vec::new();
        } else if self.pedal {
            let ghost before = self@;
            let mut i: usize = 0;
            proof {
                assert(before.sustained + before.held.take(0) =~= before.sustained);
            }
            while i < self.held.len()
                invariant
                    i <= self.held.len(),
                    before.held == self.held@,
                    before.knows(notes.len() as int),
                    self.sustained@ == before.sustained + before.held.take(i as int),
                    self@ == (ChannelState { sustained: self.sustained@, ..before }),
                decreases self.held.len() - i,
            {
                self.sustained.push(self.held[i]);
                i += 1;
                proof {
                    assert(self.sustained@ =~= before.sustained + before.held.take(i as int));
                }
            }
            proof {
                assert(before.held.take(i as int) =~= before.held);
                let all = before.sustained + before.held;
                assert forall|k: int| 0 <= k < all.len() implies (#[trigger] all[k])
                    < notes.len() by {
                    if k < before.sustained.len() {
                        assert(all[k] == before.sustained[k]);
                    } else {
                        assert(all[k] == before.held[k - before.sustained.len()]);
                    }
                }
            }
            self.held = Vec::new();
        } else {
            end_all(&self.held, time, notes);
            self.held = Vec::new();
        }
        proof {
            assert(self@ =~= old(self)@.all_up(time, old(notes)@, at_once).0);
        }
    }
}

/// A control character, as Unicode classes it.
pub open spec fn is_control(c: char) -> bool {
    c as u32 <= 0x1f || 0x7f <= c as u32 <= 0x9f
}

/// A character of a name: a space in place of a control character or a line separator.
pub open spec fn plain_char(c: char) -> char {
    if is_control(c) || c as u32 == 0x2028 || c as u32 == 0x2029 {
        ' '
    } else {
        c
    }
}

/// The words of a text with a single space between each two: what has been taken so far, and
/// whether a space is due before the next word.
pub open spec fn words_joined(s: Seq<char>) -> (Seq<char>, bool)
    decreases s.len(),
{
    if s.len() == 0 {
        (Seq::empty(), false)
    } else {
        let (text, due) = words_joined(s.drop_last());
        let c = s.last();
        if is_space(c) {
            (text, text.len() > 0)
        } else if due {
            (text.push(' ').push(c), false)
        } else {
            (text.push(c), false)
        }
    }
}

/// The text that bytes write in UTF-8, with replacement characters for what is malformed, as
/// `String::from_utf8_lossy` gives it.
pub uninterp spec fn lossy_text(bytes: Seq<u8>) -> Seq<char>;

/// Reads bytes with `String::from_utf8_lossy`: what comes out depends on the bytes alone, and
/// where they are well-formed UTF-8 it is the text that they encode.
#[verifier::external_body]
fn read_lossy(bytes: &[u8]) -> (r: String)
    ensures
        r@ == lossy_text(bytes@),
        valid_utf8(bytes@) ==> r@ == decode_utf8(bytes@),
{
    String::from_utf8_lossy(bytes).into_owned()
}

/// The first characters of a text, at most 160.
pub open spec fn clipped_name(text: Seq<char>) -> Seq<char> {
    if text.len() > 160 {
        text.take(160)
    } else {
        text
    }
}

/// The name that a text makes: at most 160 characters, no control characters or line
/// separators, and no space but a single one between words.
pub open spec fn name_of(text: Seq<char>) -> Seq<char> {
    words_joined(clipped_name(text).map_values(|c: char| plain_char(c))).0
}

proof fn lemma_words(s: Seq<char>)
    ensures
        forall|i: int|
            0 <= i < words_joined(s).0.len() ==> #[trigger] words_joined(s).0[i] == ' ' || (
            s.contains(words_joined(s).0[i]) && !is_space(words_joined(s).0[i])),
        words_joined(s).0.len() > 0 ==> words_joined(s).0[0] != ' ' && words_joined(s).0.last()
            != ' ',
        words_joined(s).1 ==> words_joined(s).0.len() > 0,
    decreases s.len(),
{
    if s.len() > 0 {
        let front = s.drop_last();
        lemma_words(front);
        let (text, due) = words_joined(front);
        let new = words_joined(s).0;
        let c = s.last();
        assert forall|i: int| 0 <= i < new.len() implies #[trigger] new[i] == ' ' || (s.contains(
            new[i],
        ) && !is_space(new[i])) by {
            if i < text.len() {
                assert(new[i] == text[i]);
                if text[i] != ' ' {
                    let k = choose|k: int| 0 <= k < front.len() && front[k] == text[i];
                    assert(s[k] == text[i]);
                }
            } else if new[i] != ' ' {
                assert(s[s.len() - 1] == new[i]);
            }
        }
        if new.len() > 0 && text.len() > 0 {
            assert(new[0] == text[0]);
        }
    }
}

/// A name holds no control character, so that it cannot bring a line of its own into a file,
/// and neither begins nor ends with a space.
pub proof fn law_names_stay_on_one_line(text: Seq<char>)
    ensures
        forall|i: int| 0 <= i < name_of(text).len() ==> !is_control(#[trigger] name_of(text)[i]),
        name_of(text).len() > 0 ==> name_of(text)[0] != ' ' && name_of(text).last() != ' ',
{
    let plain = clipped_name(text).map_values(|c: char| plain_char(c));
    lemma_words(plain);
    assert forall|i: int| 0 <= i < name_of(text).len() implies !is_control(
        #[trigger] name_of(text)[i],
    ) by {
        let c = name_of(text)[i];
        if c != ' ' {
            let k = choose|k: int| 0 <= k < plain.len() && plain[k] == c;
            assert(plain[k] == plain_char(clipped_name(text)[k]));
        }
    }
}

/// Makes a name out of the characters of a text.
pub fn make_name(text: &Vec<char>) -> (r: Vec<char>)
    ensures
        r@ == name_of(text@),
{
    let ghost f = |c: char| plain_char(c);
    let ghost plain = clipped_name(text@).map_values(f);
    let mut r: Vec<char> = Vec::new();
    let mut due: bool = false;
    let mut i: usize = 0;
    proof {
        assert(plain.take(0) =~= Seq::<char>::empty());
    }
    while i < text.len() && i < 160
        invariant
            i <= text.len(),
            i <= 160,
            f == (|c: char| plain_char(c)),
            plain == clipped_name(text@).map_values(f),
            (r@, due) == words_joined(plain.take(i as int)),
        decreases text.len() - i,
    {
        let c = text[i];
        let n: u32 = c as u32;
        let p: char = if n <= 0x1f || (0x7f <= n && n <= 0x9f) || n == 0x2028 || n == 0x2029 {
            ' '
        } else {
            c
        };
        proof {
            assert(plain[i as int] == p);
            assert(plain.take(i + 1).drop_last() =~= plain.take(i as int));
            assert(plain.take(i + 1).last() == p);
        }
        if is_whitespace(p) {
            due = r.len() > 0;
        } else {
            if due {
                r.push(' ');
            }
            r.push(p);
            due = false;
        }
        i += 1;
    }
    proof {
        assert(plain.take(i as int) =~= plain);
    }
    r
}

/// Makes a name out of the bytes of a track's name.
pub fn clean_name(bytes: &[u8]) -> (r: String)
    ensures
        r@ == name_of(lossy_text(bytes@)),
        valid_utf8(bytes@) ==> r@ == name_of(decode_utf8(bytes@)),
{
    let text = read_lossy(bytes);
    let chars = crate::text::chars_of(text.as_str());
    string_of(&make_name(&chars))
}

} // verus!
