//! What a MIDI file plays: its notes, tempos and time signatures in file time.
use crate::midi::{
    clean_name, fresh_channel, lossy_text, name_of, Channel, ChannelState, MidiFault, MidiNote,
};
use crate::order::{lemma_order_sorts, order, stable_sort, Key};
use crate::smf::{track_happenings, Happening, SmfContent, SmfFile, SmfFormat, SmfKind, SmfTiming};
use crate::text::string_views;
use vstd::prelude::*;

verus! {

/// Points in time with one more, in place of the one at its time; the times ascend.
pub open spec fn with_point<V>(s: Seq<(u64, V)>, p: (u64, V)) -> Seq<(u64, V)>
    decreases s.len(),
{
    if s.len() == 0 || s.last().0 < p.0 {
        s.push(p)
    } else if s.last().0 == p.0 {
        s.drop_last().push(p)
    } else {
        with_point(s.drop_last(), p).push(s.last())
    }
}

/// Whether no tempo makes a quarter note last nothing.
pub open spec fn positive_tempos(s: Seq<(u64, u32)>) -> bool {
    forall|i: int| 0 <= i < s.len() ==> (#[trigger] s[i]).1 > 0
}

proof fn lemma_positive_tempos(s: Seq<(u64, u32)>, p: (u64, u32))
    requires
        positive_tempos(s),
        p.1 > 0,
    ensures
        positive_tempos(with_point(s, p)),
    decreases s.len(),
{
    let new = with_point(s, p);
    if s.len() > 0 && s.last().0 > p.0 {
        lemma_positive_tempos(s.drop_last(), p);
        let inner = with_point(s.drop_last(), p);
        assert forall|i: int| 0 <= i < new.len() implies (#[trigger] new[i]).1 > 0 by {
            if i < inner.len() {
                assert(new[i] == inner[i]);
            } else {
                assert(new[i] == s[s.len() - 1]);
            }
        }
    }
}

/// Puts a point in time in, in place of the one at its time.
pub fn insert_point<V: Copy>(s: &mut Vec<(u64, V)>, p: (u64, V))
    ensures
        final(s)@ == with_point(old(s)@, p),
{
    let ghost before = s@;
    let mut i: usize = s.len();
    proof {
        assert(before.take(i as int) =~= before);
        assert(with_point(before.take(i as int), p) + before.skip(i as int) =~= with_point(
            before,
            p,
        ));
    }
    while i > 0 && s[i - 1].0 > p.0
        invariant
            i <= s.len(),
            s@ == before,
            with_point(before.take(i as int), p) + before.skip(i as int) == with_point(before, p),
        decreases i,
    {
        proof {
            assert(before.take(i as int).drop_last() =~= before.take(i - 1));
            assert(with_point(before.take(i - 1), p).push(before[i - 1]) + before.skip(i as int)
                =~= with_point(before.take(i - 1), p) + before.skip(i - 1));
        }
        i -= 1;
    }
    if i > 0 && s[i - 1].0 == p.0 {
        s.set(i - 1, p);
        proof {
            assert(before.take(i as int).last() == before[i - 1]);
            assert(s@ =~= before.take(i as int).drop_last().push(p) + before.skip(i as int));
        }
    } else {
        s.insert(i, p);
        proof {
            if i > 0 {
                assert(before.take(i as int).last() == before[i - 1]);
            }
            assert(s@ =~= before.take(i as int).push(p) + before.skip(i as int));
        }
    }
}

/// How far the events of a file have been played.
#[verifier::ext_equal]
pub struct Playing {
    pub channels: Seq<ChannelState>,
    pub ports: Seq<u8>,
    pub notes: Seq<MidiNote>,
    pub tempos: Seq<(u64, u32)>,
    pub signatures: Seq<(u64, (u8, u32))>,
    pub names: Seq<Seq<char>>,
}

/// Before the first event: 120 beats per minute in four-four time.
pub open spec fn before_playing(tracks: nat) -> Playing {
    Playing {
        channels: Seq::empty(),
        ports: Seq::new(tracks, |i: int| 0u8),
        notes: Seq::empty(),
        tempos: seq![(0u64, 500000u32)],
        signatures: seq![(0u64, (4u8, 4u32))],
        names: Seq::new(tracks, |i: int| Seq::<char>::empty()),
    }
}

/// The position of a channel, from some position on, or the end.
pub open spec fn channel_index(channels: Seq<ChannelState>, port: u8, channel: u8, i: int) -> int
    decreases channels.len() - i,
{
    if i < 0 || i >= channels.len() {
        channels.len() as int
    } else if channels[i].port == port && channels[i].channel == channel {
        i
    } else {
        channel_index(channels, port, channel, i + 1)
    }
}

/// Channels with one among them.
pub open spec fn with_channel(channels: Seq<ChannelState>, port: u8, channel: u8) -> Seq<
    ChannelState,
> {
    if channel_index(channels, port, channel, 0) < channels.len() {
        channels
    } else {
        channels.push(fresh_channel(port, channel))
    }
}

/// What a message on a channel makes of the channel and of the notes.
pub open spec fn on_channel(
    state: ChannelState,
    notes: Seq<MidiNote>,
    time: u64,
    track: int,
    h: Happening,
) -> (ChannelState, Seq<MidiNote>) {
    match h {
        Happening::NoteOn(_, key, velocity) => if velocity > 0 {
            let note = MidiNote {
                on: time,
                off: None,
                track: track as usize,
                port: state.port,
                channel: state.channel,
                pitch: key,
                velocity,
                program: state.program,
            };
            (
                ChannelState { held: state.held.push(notes.len() as usize), ..state },
                notes.push(note),
            )
        } else {
            state.key_up(track as usize, key, time, notes)
        },
        Happening::NoteOff(_, key) => state.key_up(track as usize, key, time, notes),
        Happening::Program(_, program) => (ChannelState { program, ..state }, notes),
        Happening::Controller(_, controller, value) => if controller == 64 && value >= 64 {
            (ChannelState { pedal: true, ..state }, notes)
        } else if controller == 64 || controller == 121 {
            state.pedal_up(time, notes)
        } else if controller == 120 {
            state.all_up(time, notes, true)
        } else if controller == 123 {
            state.all_up(time, notes, false)
        } else {
            (state, notes)
        },
        _ => (state, notes),
    }
}

/// The channel that something happens on.
pub open spec fn channel_of(h: Happening) -> Option<u8> {
    match h {
        Happening::NoteOn(channel, _, _) => Some(channel),
        Happening::NoteOff(channel, _) => Some(channel),
        Happening::Program(channel, _) => Some(channel),
        Happening::Controller(channel, _, _) => Some(channel),
        _ => None,
    }
}

/// The denominator of a time signature that is written as a power of two.
pub open spec fn denominator_of(power: u8) -> u32 {
    vstd::arithmetic::power2::pow2(power as nat) as u32
}

/// What an event makes of what has been played.
pub open spec fn played_on(p: Playing, time: u64, track: int, h: Happening) -> Result<
    Playing,
    MidiFault,
> {
    match channel_of(h) {
        Some(channel) => {
            let port = p.ports[track];
            let channels = with_channel(p.channels, port, channel);
            let c = channel_index(channels, port, channel, 0);
            let sounds = h matches Happening::NoteOn(_, key, velocity) && velocity > 0;
            if sounds && p.notes.len() >= 1000000 {
                Err(MidiFault::TooManyNotes)
            } else if sounds && !(11 <= h->NoteOn_1 <= 120) {
                Err(MidiFault::Pitch { track: track as usize, pitch: h->NoteOn_1 })
            } else {
                let (state, notes) = on_channel(channels[c], p.notes, time, track, h);
                Ok(Playing { channels: channels.update(c, state), notes, ..p })
            }
        },
        None => match h {
            Happening::Tempo(micros) => if micros == 0 {
                Err(MidiFault::ZeroTempo { track: track as usize })
            } else {
                Ok(Playing { tempos: with_point(p.tempos, (time, micros)), ..p })
            },
            Happening::TimeSignature(numerator, power) => if power >= 32 {
                Err(MidiFault::DenominatorTooLarge)
            } else if numerator == 0 || denominator_of(power) > 384 {
                Err(MidiFault::Signature { numerator, denominator: denominator_of(power) })
            } else {
                Ok(
                    Playing {
                        signatures: with_point(
                            p.signatures,
                            (time, (numerator, denominator_of(power))),
                        ),
                        ..p
                    },
                )
            },
            Happening::TrackName(text) => if p.names[track].len() == 0 {
                Ok(Playing { names: p.names.update(track, name_of(lossy_text(text))), ..p })
            } else {
                Ok(p)
            },
            Happening::Port(port) => Ok(Playing { ports: p.ports.update(track, port), ..p }),
            _ => Ok(p),
        },
    }
}

/// When an event comes, and which it is.
#[derive(Clone, Copy, Debug)]
pub struct Slot {
    pub time: u64,
    pub track: usize,
    pub order: usize,
}

/// The time of an event of a track.
pub open spec fn time_of(track: Seq<(u32, Happening)>, order: int) -> int
    decreases order + 1,
{
    if order < 0 {
        0
    } else {
        time_of(track, order - 1) + track[order].0
    }
}

/// The first events of a track.
pub open spec fn track_slots(track: Seq<(u32, Happening)>, ti: int, n: int) -> Seq<Slot>
    decreases n,
{
    if n <= 0 {
        Seq::empty()
    } else {
        track_slots(track, ti, n - 1).push(
            Slot {
                time: time_of(track, n - 1) as u64,
                track: ti as usize,
                order: (n - 1) as usize,
            },
        )
    }
}

/// The events of the first tracks, one track behind the other.
pub open spec fn all_slots(tracks: Seq<Seq<(u32, Happening)>>, n: int) -> Seq<Slot>
    decreases n,
{
    if n <= 0 {
        Seq::empty()
    } else {
        all_slots(tracks, n - 1) + track_slots(
            tracks[n - 1],
            n - 1,
            tracks[n - 1].len() as int,
        )
    }
}

pub open spec fn slot_key(slot: Slot) -> Key {
    (slot.time as i64, 0, 0)
}

/// The events of all tracks in the order in which they are played: by time, at one time by
/// track, and in one track as they stand.
pub open spec fn timeline(content: SmfContent) -> Seq<Slot> {
    stable_sort(
        all_slots(content.tracks, content.tracks.len() as int),
        |s: Slot| slot_key(s),
    )
}

/// What has been played after the first events.
pub open spec fn played(content: SmfContent, n: int) -> Result<Playing, MidiFault>
    decreases n,
{
    if n <= 0 {
        Ok(before_playing(content.tracks.len()))
    } else {
        match played(content, n - 1) {
            Err(e) => Err(e),
            Ok(p) => {
                let slot = timeline(content)[n - 1];
                played_on(
                    p,
                    slot.time,
                    slot.track as int,
                    content.tracks[slot.track as int][slot.order as int].1,
                )
            },
        }
    }
}

/// The time of the last event.
pub open spec fn last_time(slots: Seq<Slot>) -> u64
    decreases slots.len(),
{
    if slots.len() == 0 {
        0
    } else if last_time(slots.drop_last()) < slots.last().time {
        slots.last().time
    } else {
        last_time(slots.drop_last())
    }
}

/// The notes once everything that still sounds on the first channels has been ended.
pub open spec fn closed(channels: Seq<ChannelState>, notes: Seq<MidiNote>, end: u64, n: int) -> Seq<
    MidiNote,
>
    decreases n,
{
    if n <= 0 {
        notes
    } else {
        channels[n - 1].all_up(end, closed(channels, notes, end, n - 1), true).1
    }
}

/// What a file plays.
#[verifier::ext_equal]
pub struct SongView {
    pub timing: SmfTiming,
    pub notes: Seq<MidiNote>,
    pub tempos: Seq<(u64, u32)>,
    pub signatures: Seq<(u64, (u8, u32))>,
    pub names: Seq<Seq<char>>,
}

pub open spec fn event_count(tracks: Seq<Seq<(u32, Happening)>>, n: int) -> int
    decreases n,
{
    if n <= 0 {
        0
    } else {
        event_count(tracks, n - 1) + tracks[n - 1].len()
    }
}

/// What is wrong with a file before any of it is played.
pub open spec fn file_fault(content: SmfContent) -> Option<MidiFault> {
    let n = content.tracks.len() as int;
    if content.format == SmfFormat::Sequential {
        Some(MidiFault::Sequential)
    } else if n == 0 {
        Some(MidiFault::NoTracks)
    } else if event_count(content.tracks, n) > 2000000 {
        Some(MidiFault::TooManyEvents)
    } else if content.format == SmfFormat::SingleTrack && n != 1 {
        Some(MidiFault::SingleTrackFormat)
    } else {
        match content.timing {
            SmfTiming::Metrical(ppqn) => if ppqn == 0 {
                Some(MidiFault::ZeroPpqn)
            } else {
                None
            },
            SmfTiming::Timecode(rate, subframes) => if subframes == 0 {
                Some(MidiFault::ZeroSubframes)
            } else if rate != 24 && rate != 25 && rate != 29 && rate != 30 {
                Some(MidiFault::UnknownRate)
            } else {
                None
            },
        }
    }
}

/// What a file plays: every event in turn, and then the end of all that still sounds.
pub open spec fn song_of(content: SmfContent) -> Result<SongView, MidiFault> {
    match file_fault(content) {
        Some(e) => Err(e),
        None => {
            let slots = timeline(content);
            match played(content, slots.len() as int) {
                Err(e) => Err(e),
                Ok(p) => Ok(
                    SongView {
                        timing: content.timing,
                        notes: closed(
                            p.channels,
                            p.notes,
                            last_time(slots),
                            p.channels.len() as int,
                        ),
                        tempos: p.tempos,
                        signatures: p.signatures,
                        names: p.names,
                    },
                ),
            }
        },
    }
}

/// What a MIDI file plays.
#[derive(Debug)]
pub struct MidiSong {
    pub timing: SmfTiming,
    pub notes: Vec<MidiNote>,
    pub tempos: Vec<(u64, u32)>,
    pub signatures: Vec<(u64, (u8, u32))>,
    pub names: Vec<String>,
}

impl View for MidiSong {
    type V = SongView;

    open spec fn view(&self) -> SongView {
        SongView {
            timing: self.timing,
            notes: self.notes@,
            tempos: self.tempos@,
            signatures: self.signatures@,
            names: string_views(self.names@),
        }
    }
}

/// How far the events of a file have been played.
struct Player {
    channels: Vec<Channel>,
    ports: Vec<u8>,
    notes: Vec<MidiNote>,
    tempos: Vec<(u64, u32)>,
    signatures: Vec<(u64, (u8, u32))>,
    names: Vec<String>,
}

spec fn channel_views(channels: Seq<Channel>) -> Seq<ChannelState> {
    Seq::new(channels.len(), |i: int| channels[i]@)
}

impl View for Player {
    type V = Playing;

    closed spec fn view(&self) -> Playing {
        Playing {
            channels: channel_views(self.channels@),
            ports: self.ports@,
            notes: self.notes@,
            tempos: self.tempos@,
            signatures: self.signatures@,
            names: string_views(self.names@),
        }
    }
}

/// Whether a channel, from some on, knows of a note.
spec fn is_known(channels: Seq<ChannelState>, from: int, i: int) -> bool {
    exists|c: int|
        from <= c < channels.len() && ((#[trigger] channels[c]).held.contains(i as usize)
            || channels[c].sustained.contains(i as usize))
}

/// Whether every note has ended or is known to a channel, and every channel knows of notes
/// that are there only.
spec fn accounted(channels: Seq<ChannelState>, notes: Seq<MidiNote>) -> bool {
    &&& forall|c: int|
        0 <= c < channels.len() ==> (#[trigger] channels[c]).knows(notes.len() as int)
    &&& forall|i: int|
        0 <= i < notes.len() ==> (#[trigger] notes[i]).off is Some || is_known(channels, 0, i)
    &&& notes.len() <= 1000000
}

proof fn lemma_all_ended(notes: Seq<MidiNote>, list: Seq<usize>, time: u64)
    requires
        notes.len() <= 1000000,
        forall|i: int| 0 <= i < list.len() ==> (#[trigger] list[i]) < notes.len(),
    ensures
        crate::midi::all_ended(notes, list, time).len() == notes.len(),
        forall|i: int|
            0 <= i < notes.len() ==> (#[trigger] crate::midi::all_ended(
                notes,
                list,
                time,
            )[i]).track == notes[i].track,
        forall|i: int|
            0 <= i < notes.len() && notes[i].off is Some ==> (#[trigger] crate::midi::all_ended(
                notes,
                list,
                time,
            )[i]).off is Some,
        forall|i: int|
            0 <= i < notes.len() && list.contains(i as usize) ==> (
            #[trigger] crate::midi::all_ended(notes, list, time)[i]).off is Some,
    decreases list.len(),
{
    if list.len() > 0 {
        let front = list.drop_last();
        assert forall|i: int| 0 <= i < front.len() implies (#[trigger] front[i]) < notes.len() by {
            assert(front[i] == list[i]);
        }
        lemma_all_ended(notes, front, time);
        let before = crate::midi::all_ended(notes, front, time);
        let after = crate::midi::all_ended(notes, list, time);
        assert(list[list.len() - 1] < notes.len());
        assert forall|i: int| 0 <= i < notes.len() && list.contains(i as usize) implies (
        #[trigger] after[i]).off is Some by {
            if i != list.last() {
                let k = choose|k: int| 0 <= k < list.len() && list[k] == i as usize;
                assert(front[k] == i as usize);
                assert(front.contains(i as usize));
                assert(before[i].off is Some);
            }
        }
    }
}

/// What a message on a channel leaves: everything that had ended has ended, and what has not
/// is known to the channel or was not known to it before.
proof fn lemma_on_channel(
    state: ChannelState,
    notes: Seq<MidiNote>,
    time: u64,
    track: int,
    h: Happening,
)
    requires
        state.knows(notes.len() as int),
        notes.len() < 1000000 || !(h matches Happening::NoteOn(_, _, velocity) && velocity > 0),
        notes.len() <= 1000000,
    ensures
        ({
            let (after, left) = on_channel(state, notes, time, track, h);
            &&& after.knows(left.len() as int)
            &&& notes.len() <= left.len() <= 1000000
            &&& forall|i: int|
                0 <= i < left.len() ==> (#[trigger] left[i]).track == (if i < notes.len() {
                    notes[i].track
                } else {
                    track as usize
                })
            &&& after.port == state.port
            &&& after.channel == state.channel
            &&& forall|i: int|
                0 <= i < notes.len() && notes[i].off is Some ==> (#[trigger] left[i]).off is Some
            &&& forall|i: int|
                0 <= i < left.len() && (#[trigger] left[i]).off is None ==> after.held.contains(
                    i as usize,
                ) || after.sustained.contains(i as usize) || (i < notes.len()
                    && !state.held.contains(i as usize) && !state.sustained.contains(i as usize))
        }),
{
    let (after, left) = on_channel(state, notes, time, track, h);
    match h {
        Happening::NoteOn(_, key, velocity) if velocity > 0 => {
            assert(after.held == state.held.push(notes.len() as usize));
            assert forall|i: int| 0 <= i < after.held.len() implies (#[trigger] after.held[i])
                < left.len() by {
                if i < state.held.len() {
                    assert(after.held[i] == state.held[i]);
                }
            }
            assert forall|i: int| 0 <= i < after.sustained.len() implies (
            #[trigger] after.sustained[i]) < left.len() by {
                assert(state.sustained[i] < notes.len());
            }
            assert forall|i: int| 0 <= i < left.len() && (#[trigger] left[i]).off is None implies
                after.held.contains(i as usize) || after.sustained.contains(i as usize) || (i
                < notes.len() && !state.held.contains(i as usize) && !state.sustained.contains(
                i as usize,
            )) by {
                if i == notes.len() {
                    assert(after.held[state.held.len() as int] == i as usize);
                } else if state.held.contains(i as usize) {
                    let k = choose|k: int|
                        0 <= k < state.held.len() && state.held[k] == i as usize;
                    assert(after.held[k] == i as usize);
                }
            }
        },
        Happening::NoteOn(_, key, _) => {
            lemma_key_up(state, notes, time, track as usize, key);
        },
        Happening::NoteOff(_, key) => {
            lemma_key_up(state, notes, time, track as usize, key);
        },
        Happening::Controller(_, controller, value) => {
            lemma_all_ended(notes, state.sustained, time);
            lemma_all_ended(notes, state.held, time);
            let mid = crate::midi::all_ended(notes, state.sustained, time);
            lemma_all_ended(mid, state.held, time);
            let all = state.sustained + state.held;
            assert forall|i: int| 0 <= i < all.len() implies (#[trigger] all[i])
                < notes.len() by {
                if i < state.sustained.len() {
                    assert(all[i] == state.sustained[i]);
                } else {
                    assert(all[i] == state.held[i - state.sustained.len()]);
                }
            }
            assert forall|i: int|
                (#[trigger] state.held.contains(i as usize)) implies all.contains(i as usize) by {
                let k = choose|k: int| 0 <= k < state.held.len() && state.held[k] == i as usize;
                assert(all[state.sustained.len() + k] == i as usize);
            }
            assert forall|i: int| (#[trigger] state.sustained.contains(
                i as usize,
            )) implies all.contains(i as usize) by {
                let k = choose|k: int|
                    0 <= k < state.sustained.len() && state.sustained[k] == i as usize;
                assert(all[k] == i as usize);
            }
        },
        _ => {},
    }
}

proof fn lemma_first_held(
    held: Seq<usize>,
    notes: Seq<MidiNote>,
    pitch: u8,
    track: Option<usize>,
    i: int,
)
    requires
        0 <= i,
    ensures
        crate::midi::first_held(held, notes, pitch, track, i) matches Some(k) ==> i <= k
            < held.len(),
    decreases held.len() - i,
{
    if i < held.len() {
        lemma_first_held(held, notes, pitch, track, i + 1);
    }
}

proof fn lemma_key_up(
    state: ChannelState,
    notes: Seq<MidiNote>,
    time: u64,
    track: usize,
    pitch: u8,
)
    requires
        notes.len() <= 1000000,
        state.knows(notes.len() as int),
    ensures
        ({
            let (after, left) = state.key_up(track, pitch, time, notes);
            &&& after.knows(left.len() as int)
            &&& left.len() == notes.len()
            &&& forall|i: int| 0 <= i < left.len() ==> (#[trigger] left[i]).track == notes[i].track
            &&& after.port == state.port
            &&& after.channel == state.channel
            &&& forall|i: int|
                0 <= i < notes.len() && notes[i].off is Some ==> (#[trigger] left[i]).off is Some
            &&& forall|i: int|
                0 <= i < left.len() && (#[trigger] left[i]).off is None ==> after.held.contains(
                    i as usize,
                ) || after.sustained.contains(i as usize) || (!state.held.contains(i as usize)
                    && !state.sustained.contains(i as usize))
        }),
{
    let (after, left) = state.key_up(track, pitch, time, notes);
    lemma_first_held(state.held, notes, pitch, Some(track), 0);
    lemma_first_held(state.held, notes, pitch, None, 0);
    match crate::midi::released(state.held, notes, track, pitch) {
        Some(p) => {
            let index = state.held[p];
            assert(index < notes.len());
            assert forall|i: int| 0 <= i < after.held.len() implies (#[trigger] after.held[i])
                < left.len() by {
                if i < p {
                    assert(after.held[i] == state.held[i]);
                } else {
                    assert(after.held[i] == state.held[i + 1]);
                }
            }
            assert forall|i: int| 0 <= i < after.sustained.len() implies (
            #[trigger] after.sustained[i]) < left.len() by {
                if i < state.sustained.len() {
                    assert(after.sustained[i] == state.sustained[i]);
                }
            }
            assert forall|i: int| 0 <= i < left.len() && (#[trigger] left[i]).off is None implies
                after.held.contains(i as usize) || after.sustained.contains(i as usize) || (
            !state.held.contains(i as usize) && !state.sustained.contains(i as usize)) by {
                if state.sustained.contains(i as usize) {
                    let k = choose|k: int|
                        0 <= k < state.sustained.len() && state.sustained[k] == i as usize;
                    assert(after.sustained[k] == i as usize);
                } else if state.held.contains(i as usize) {
                    if i as usize == index {
                        assert(after.sustained.last() == index);
                        assert(after.sustained[after.sustained.len() - 1] == i as usize);
                    } else {
                        let k = choose|k: int|
                            0 <= k < state.held.len() && state.held[k] == i as usize;
                        if k < p {
                            assert(after.held[k] == i as usize);
                        } else {
                            assert(after.held[k - 1] == i as usize);
                        }
                    }
                }
            }
        },
        None => {},
    }
}

proof fn lemma_accounted_update(
    channels: Seq<ChannelState>,
    notes: Seq<MidiNote>,
    c: int,
    time: u64,
    track: int,
    h: Happening,
)
    requires
        accounted(channels, notes),
        0 <= c < channels.len(),
        notes.len() < 1000000 || !(h matches Happening::NoteOn(_, _, velocity) && velocity > 0),
    ensures
        ({
            let (state, left) = on_channel(channels[c], notes, time, track, h);
            accounted(channels.update(c, state), left)
        }),
{
    let (state, left) = on_channel(channels[c], notes, time, track, h);
    lemma_on_channel(channels[c], notes, time, track, h);
    let new = channels.update(c, state);
    assert forall|d: int| 0 <= d < new.len() implies (#[trigger] new[d]).knows(
        left.len() as int,
    ) by {
        if d != c {
            assert(channels[d].knows(notes.len() as int));
        }
    }
    assert forall|i: int| 0 <= i < left.len() implies (#[trigger] left[i]).off is Some || is_known(
        new,
        0,
        i,
    ) by {
        if left[i].off is None {
            if state.held.contains(i as usize) || state.sustained.contains(i as usize) {
                assert(new[c].held.contains(i as usize) || new[c].sustained.contains(i as usize));
            } else {
                assert(notes[i].off is None);
                assert(is_known(channels, 0, i));
                let d = choose|d: int|
                    0 <= d < channels.len() && ((#[trigger] channels[d]).held.contains(i as usize)
                        || channels[d].sustained.contains(i as usize));
                assert(new[d] == channels[d]);
            }
        }
    }
}

proof fn lemma_accounted_push(channels: Seq<ChannelState>, notes: Seq<MidiNote>, s: ChannelState)
    requires
        accounted(channels, notes),
        s.held.len() == 0,
        s.sustained.len() == 0,
    ensures
        accounted(channels.push(s), notes),
{
    let new = channels.push(s);
    assert forall|i: int| 0 <= i < notes.len() implies (#[trigger] notes[i]).off is Some
        || is_known(new, 0, i) by {
        if notes[i].off is None {
            let d = choose|d: int|
                0 <= d < channels.len() && ((#[trigger] channels[d]).held.contains(i as usize)
                    || channels[d].sustained.contains(i as usize));
            assert(new[d] == channels[d]);
        }
    }
}

proof fn lemma_channel_index(channels: Seq<ChannelState>, port: u8, channel: u8, i: int)
    requires
        0 <= i <= channels.len(),
    ensures
        i <= channel_index(channels, port, channel, i) <= channels.len(),
        channel_index(channels, port, channel, i) < channels.len() ==> channels[channel_index(
            channels,
            port,
            channel,
            i,
        )].port == port && channels[channel_index(channels, port, channel, i)].channel == channel,
    decreases channels.len() - i,
{
    if i < channels.len() {
        lemma_channel_index(channels, port, channel, i + 1);
    }
}

proof fn lemma_index_of_new(channels: Seq<ChannelState>, port: u8, channel: u8, i: int)
    requires
        0 <= i <= channels.len(),
        channel_index(channels, port, channel, i) == channels.len(),
    ensures
        channel_index(channels.push(fresh_channel(port, channel)), port, channel, i)
            == channels.len(),
    decreases channels.len() - i,
{
    let new = channels.push(fresh_channel(port, channel));
    if i < channels.len() {
        assert(new[i] == channels[i]);
        lemma_channel_index(channels, port, channel, i + 1);
        lemma_index_of_new(channels, port, channel, i + 1);
    }
}

fn power_of_two(power: u8) -> (r: u32)
    requires
        power < 32,
    ensures
        r == denominator_of(power),
{
    let mut r: u32 = 1;
    let mut i: u8 = 0;
    proof {
        vstd::arithmetic::power2::lemma2_to64();
    }
    while i < power
        invariant
            i <= power < 32,
            r == vstd::arithmetic::power2::pow2(i as nat),
            r <= 0x80000000,
        decreases power - i,
    {
        proof {
            vstd::arithmetic::power2::lemma_pow2_unfold((i + 1) as nat);
            vstd::arithmetic::power2::lemma2_to64();
            if i + 1 < 31 {
                vstd::arithmetic::power2::lemma_pow2_strictly_increases((i + 1) as nat, 31);
            }
        }
        r = r * 2;
        i += 1;
    }
    r
}

impl Player {
    /// Finds a channel, or adds it.
    fn channel(&mut self, port: u8, channel: u8) -> (c: usize)
        requires
            accounted(old(self)@.channels, old(self)@.notes),
        ensures
            final(self)@ == (Playing {
                channels: with_channel(old(self)@.channels, port, channel),
                ..old(self)@
            }),
            c == channel_index(final(self)@.channels, port, channel, 0),
            c < final(self)@.channels.len(),
            final(self)@.channels[c as int].port == port,
            final(self)@.channels[c as int].channel == channel,
            accounted(final(self)@.channels, final(self)@.notes),
    {
        let mut i: usize = 0;
        while i < self.channels.len() && !(self.channels[i].port == port
            && self.channels[i].channel == channel)
            invariant
                i <= self.channels.len(),
                *self == *old(self),
                channel_index(self@.channels, port, channel, i as int) == channel_index(
                    self@.channels,
                    port,
                    channel,
                    0,
                ),
            decreases self.channels.len() - i,
        {
            i += 1;
        }
        proof {
            lemma_channel_index(self@.channels, port, channel, 0);
        }
        if i == self.channels.len() {
            let ghost before = self@;
            let fresh = Channel::new(port, channel);
            let ghost view = fresh@;
            self.channels.push(fresh);
            proof {
                assert(channel_views(self.channels@) =~= before.channels.push(view));
                lemma_accounted_push(before.channels, before.notes, view);
                lemma_index_of_new(before.channels, port, channel, 0);
            }
        }
        i
    }

    /// Plays a message on a channel.
    fn message(&mut self, c: usize, time: u64, track: usize, kind: &SmfKind)
        requires
            accounted(old(self)@.channels, old(self)@.notes),
            c < old(self)@.channels.len(),
            channel_of(kind@) is Some,
            old(self)@.notes.len() < 1000000 || !(kind@ matches Happening::NoteOn(_, _, velocity)
                && velocity > 0),
        ensures
            ({
                let (state, notes) = on_channel(
                    old(self)@.channels[c as int],
                    old(self)@.notes,
                    time,
                    track as int,
                    kind@,
                );
                final(self)@ == (Playing {
                    channels: old(self)@.channels.update(c as int, state),
                    notes,
                    ..old(self)@
                })
            }),
            accounted(final(self)@.channels, final(self)@.notes),
            forall|n: int|
                track < n && tracks_below(old(self)@.notes, n) ==> #[trigger] tracks_below(
                    final(self)@.notes,
                    n,
                ),
    {
        let ghost before = self@;
        proof {
            lemma_on_channel(
                before.channels[c as int],
                before.notes,
                time,
                track as int,
                kind@,
            );
            lemma_accounted_update(before.channels, before.notes, c as int, time, track as int, kind@);
            assert(before.channels[c as int].knows(before.notes.len() as int));
        }
        let state = &mut self.channels[c];
        match kind {
            SmfKind::NoteOn { key, velocity, .. } => {
                if *velocity > 0 {
                    let index: usize = self.notes.len();
                    self.notes.push(
                        MidiNote {
                            on: time,
                            off: None,
                            track,
                            port: state.port,
                            channel: state.channel,
                            pitch: *key,
                            velocity: *velocity,
                            program: state.program,
                        },
                    );
                    state.held.push(index);
                } else {
                    state.note_off(track, *key, time, &mut self.notes);
                }
            },
            SmfKind::NoteOff { key, .. } => {
                state.note_off(track, *key, time, &mut self.notes);
            },
            SmfKind::Program { program, .. } => {
                state.program = *program;
            },
            SmfKind::Controller { controller, value, .. } => {
                if *controller == 64 && *value >= 64 {
                    state.pedal = true;
                } else if *controller == 64 || *controller == 121 {
                    state.release_pedal(time, &mut self.notes);
                } else if *controller == 120 {
                    state.all_notes_off(time, &mut self.notes, true);
                } else if *controller == 123 {
                    state.all_notes_off(time, &mut self.notes, false);
                }
            },
            _ => {},
        }
        proof {
            let (after, notes) = on_channel(
                before.channels[c as int],
                before.notes,
                time,
                track as int,
                kind@,
            );
            assert(channel_views(self.channels@) =~= before.channels.update(c as int, after));
        }
    }
}

impl Player {
    /// Plays an event.
    fn play(&mut self, time: u64, track: usize, kind: &SmfKind) -> (r: Result<(), MidiFault>)
        requires
            accounted(old(self)@.channels, old(self)@.notes),
            track < old(self)@.ports.len(),
            old(self)@.names.len() == old(self)@.ports.len(),
            positive_tempos(old(self)@.tempos),
        ensures
            positive_tempos(final(self)@.tempos),
            tracks_below(old(self)@.notes, old(self)@.ports.len() as int) ==> tracks_below(
                final(self)@.notes,
                old(self)@.ports.len() as int,
            ),
            match r {
                Ok(_) => played_on(old(self)@, time, track as int, kind@) == Ok::<_, MidiFault>(
                    final(self)@,
                ) && accounted(final(self)@.channels, final(self)@.notes)
                    && final(self)@.ports.len() == old(self)@.ports.len()
                    && final(self)@.names.len() == old(self)@.names.len(),
                Err(e) => played_on(old(self)@, time, track as int, kind@) == Err::<Playing, _>(e),
            },
    {
        let port: u8 = self.ports[track];
        match kind {
            SmfKind::NoteOn { channel, key, velocity } => {
                if *velocity > 0 {
                    if self.notes.len() >= 1000000 {
                        return Err(MidiFault::TooManyNotes);
                    }
                    if *key < 11 || *key > 120 {
                        return Err(MidiFault::Pitch { track, pitch: *key });
                    }
                }
                let c = self.channel(port, *channel);
                self.message(c, time, track, kind);
                Ok(())
            },
            SmfKind::NoteOff { channel, .. } => {
                let c = self.channel(port, *channel);
                self.message(c, time, track, kind);
                Ok(())
            },
            SmfKind::Program { channel, .. } => {
                let c = self.channel(port, *channel);
                self.message(c, time, track, kind);
                Ok(())
            },
            SmfKind::Controller { channel, .. } => {
                let c = self.channel(port, *channel);
                self.message(c, time, track, kind);
                Ok(())
            },
            SmfKind::Tempo { micros } => {
                if *micros == 0 {
                    return Err(MidiFault::ZeroTempo { track });
                }
                proof {
                    lemma_positive_tempos(self.tempos@, (time, *micros));
                }
                insert_point(&mut self.tempos, (time, *micros));
                Ok(())
            },
            SmfKind::TimeSignature { numerator, power } => {
                if *power >= 32 {
                    return Err(MidiFault::DenominatorTooLarge);
                }
                let denominator = power_of_two(*power);
                if *numerator == 0 || denominator > 384 {
                    return Err(MidiFault::Signature { numerator: *numerator, denominator });
                }
                insert_point(&mut self.signatures, (time, (*numerator, denominator)));
                Ok(())
            },
            SmfKind::TrackName { text } => {
                proof {
                    assert(self@.names[track as int] == self.names@[track as int]@);
                }
                if self.names[track].as_str().is_empty() {
                    let ghost before = string_views(self.names@);
                    let name = clean_name(text);
                    let ghost view = name@;
                    self.names.set(track, name);
                    proof {
                        assert(string_views(self.names@) =~= before.update(track as int, view));
                    }
                }
                Ok(())
            },
            SmfKind::Port { port } => {
                self.ports.set(track, *port);
                Ok(())
            },
            SmfKind::Other => Ok(()),
        }
    }
}

/// Whether a slot is one of an event of a file, at a time that is far from the end of the
/// machine's range.
spec fn is_slot(tracks: Seq<Seq<(u32, Happening)>>, slot: Slot) -> bool {
    &&& slot.track < tracks.len()
    &&& slot.order < tracks[slot.track as int].len()
    &&& slot.time <= 2000000 * 4294967295
}

fn collect_slots(file: &SmfFile) -> (slots: Vec<Slot>)
    requires
        event_count(file@.tracks, file@.tracks.len() as int) <= 2000000,
    ensures
        slots@ == all_slots(file@.tracks, file@.tracks.len() as int),
        forall|i: int| 0 <= i < slots.len() ==> is_slot(file@.tracks, #[trigger] slots[i]),
{
    let ghost tracks = file@.tracks;
    let mut slots: Vec<Slot> = Vec::new();
    let mut ti: usize = 0;
    while ti < file.tracks.len()
        invariant
            ti <= file.tracks.len(),
            tracks == file@.tracks,
            event_count(tracks, tracks.len() as int) <= 2000000,
            slots@ == all_slots(tracks, ti as int),
            forall|i: int| 0 <= i < slots.len() ==> is_slot(tracks, #[trigger] slots[i]),
        decreases file.tracks.len() - ti,
    {
        let track = &file.tracks[ti];
        let ghost list = tracks[ti as int];
        let ghost before = slots@;
        let mut time: u64 = 0;
        let mut k: usize = 0;
        proof {
            lemma_event_count(tracks, ti as int, tracks.len() as int);
            assert(list == track_happenings(track@));
            assert(before + track_slots(list, ti as int, 0) =~= before);
        }
        while k < track.len()
            invariant
                ti < file.tracks.len(),
                track == &file.tracks[ti as int],
                tracks == file@.tracks,
                list == tracks[ti as int],
                list == track_happenings(track@),
                k <= track.len() <= 2000000,
                time == time_of(list, k - 1),
                time <= k * 4294967295,
                slots@ == before + track_slots(list, ti as int, k as int),
                forall|i: int| 0 <= i < slots.len() ==> is_slot(tracks, #[trigger] slots[i]),
            decreases track.len() - k,
        {
            proof {
                assert(list[k as int].0 == track[k as int].delta);
                assert((k + 1) * 4294967295 == k * 4294967295 + 4294967295) by (nonlinear_arith);
                assert(k * 4294967295 <= 2000000 * 4294967295) by (nonlinear_arith)
                    requires
                        k <= 2000000,
                ;
            }
            time = time + track[k].delta as u64;
            slots.push(Slot { time, track: ti, order: k });
            proof {
                assert(slots@ =~= before + track_slots(list, ti as int, k + 1));
                assert((k + 1) * 4294967295 <= 2000000 * 4294967295) by (nonlinear_arith)
                    requires
                        k + 1 <= 2000000,
                ;
            }
            k += 1;
        }
        ti += 1;
    }
    slots
}

proof fn lemma_event_count(tracks: Seq<Seq<(u32, Happening)>>, ti: int, n: int)
    requires
        0 <= ti < n <= tracks.len(),
    ensures
        tracks[ti].len() <= event_count(tracks, n),
        0 <= event_count(tracks, n),
    decreases n,
{
    if ti < n - 1 {
        lemma_event_count(tracks, ti, n - 1);
    } else {
        lemma_event_count_nonnegative(tracks, n - 1);
    }
}

proof fn lemma_event_count_nonnegative(tracks: Seq<Seq<(u32, Happening)>>, n: int)
    ensures
        0 <= event_count(tracks, n),
    decreases n,
{
    if n > 0 {
        lemma_event_count_nonnegative(tracks, n - 1);
    }
}

proof fn lemma_playing_fails(content: SmfContent, from: int, to: int)
    requires
        0 <= from <= to,
    ensures
        played(content, from) is Err ==> played(content, to) == played(content, from),
    decreases to - from,
{
    if from < to {
        lemma_playing_fails(content, from, to - 1);
    }
}

fn check_file(file: &SmfFile) -> (r: Option<MidiFault>)
    ensures
        r == file_fault(file@),
{
    if file.format == SmfFormat::Sequential {
        return Some(MidiFault::Sequential);
    }
    if file.tracks.len() == 0 {
        return Some(MidiFault::NoTracks);
    }
    let ghost tracks = file@.tracks;
    let mut count: usize = 0;
    let mut ti: usize = 0;
    while ti < file.tracks.len()
        invariant
            ti <= file.tracks.len(),
            tracks == file@.tracks,
            file.format != SmfFormat::Sequential,
            file.tracks.len() > 0,
            count == event_count(tracks, ti as int),
            count <= 2000000,
        decreases file.tracks.len() - ti,
    {
        let more: usize = file.tracks[ti].len();
        proof {
            assert(tracks[ti as int].len() == more);
        }
        if more > 2000000 - count {
            proof {
                lemma_event_count_grows(tracks, ti + 1, tracks.len() as int);
            }
            return Some(MidiFault::TooManyEvents);
        }
        count = count + more;
        ti += 1;
    }
    if file.format == SmfFormat::SingleTrack && file.tracks.len() != 1 {
        return Some(MidiFault::SingleTrackFormat);
    }
    match file.timing {
        SmfTiming::Metrical(ppqn) => if ppqn == 0 {
            Some(MidiFault::ZeroPpqn)
        } else {
            None
        },
        SmfTiming::Timecode(rate, subframes) => if subframes == 0 {
            Some(MidiFault::ZeroSubframes)
        } else if rate != 24 && rate != 25 && rate != 29 && rate != 30 {
            Some(MidiFault::UnknownRate)
        } else {
            None
        },
    }
}

proof fn lemma_event_count_grows(tracks: Seq<Seq<(u32, Happening)>>, m: int, n: int)
    requires
        0 <= m <= n <= tracks.len(),
    ensures
        event_count(tracks, m) <= event_count(tracks, n),
    decreases n - m,
{
    if m < n {
        lemma_event_count_grows(tracks, m, n - 1);
    }
}

proof fn lemma_closed(channels: Seq<ChannelState>, notes: Seq<MidiNote>, end: u64, n: int)
    requires
        accounted(channels, notes),
        0 <= n <= channels.len(),
    ensures
        closed(channels, notes, end, n).len() == notes.len(),
        forall|i: int|
            0 <= i < notes.len() ==> (#[trigger] closed(channels, notes, end, n)[i]).track
                == notes[i].track,
        forall|i: int|
            0 <= i < notes.len() ==> (#[trigger] closed(channels, notes, end, n)[i]).off is Some
                || is_known(channels, n, i),
    decreases n,
{
    if n > 0 {
        lemma_closed(channels, notes, end, n - 1);
        let before = closed(channels, notes, end, n - 1);
        let state = channels[n - 1];
        assert(state.knows(notes.len() as int));
        lemma_all_ended(before, state.sustained, end);
        let mid = crate::midi::all_ended(before, state.sustained, end);
        lemma_all_ended(mid, state.held, end);
        let after = closed(channels, notes, end, n);
        assert forall|i: int| 0 <= i < notes.len() implies (#[trigger] after[i]).off is Some
            || is_known(channels, n, i) by {
            if !(before[i].off is Some) {
                let c = choose|c: int|
                    n - 1 <= c < channels.len() && ((#[trigger] channels[c]).held.contains(
                        i as usize,
                    ) || channels[c].sustained.contains(i as usize));
                if c == n - 1 {
                    assert(mid[i].off is Some || state.held.contains(i as usize));
                }
            } else {
                assert(mid[i].off is Some);
            }
        }
    }
}

/// Whether every note is of one of some number of tracks.
spec fn tracks_below(notes: Seq<MidiNote>, n: int) -> bool {
    forall|i: int| 0 <= i < notes.len() ==> (#[trigger] notes[i]).track < n
}

/// Plays a file.
pub fn read_song(file: &SmfFile) -> (r: Result<MidiSong, MidiFault>)
    ensures
        match r {
            Ok(song) => song_of(file@) == Ok::<_, MidiFault>(song@) && (forall|i: int|
                0 <= i < song.notes.len() ==> (#[trigger] song.notes[i]).off is Some)
                && song.notes.len() <= 1000000 && positive_tempos(song.tempos@)
                && crate::placing::is_timing(song.timing) && (forall|i: int|
                0 <= i < song.notes.len() ==> (#[trigger] song.notes[i]).track
                    < song.names.len()),
            Err(e) => song_of(file@) == Err::<SongView, _>(e),
        },
{
    match check_file(file) {
        Some(e) => {
            return Err(e);
        },
        None => {},
    }
    let ghost content = file@;
    let slots = collect_slots(file);
    let mut keys: Vec<Key> = Vec::new();
    let mut i: usize = 0;
    while i < slots.len()
        invariant
            i <= slots.len(),
            forall|k: int| 0 <= k < slots.len() ==> is_slot(content.tracks, #[trigger] slots[k]),
            keys.len() == i,
            forall|k: int| 0 <= k < i ==> #[trigger] keys[k] == slot_key(slots@[k]),
        decreases slots.len() - i,
    {
        proof {
            assert(is_slot(content.tracks, slots[i as int]));
        }
        keys.push((slots[i].time as i64, 0, 0));
        i += 1;
    }
    let sequence = order(&keys);
    let ghost f = |i: usize| slots@[i as int];
    let ghost line = timeline(content);
    proof {
        lemma_order_sorts(slots@, keys@, |s: Slot| slot_key(s));
        assert(line == sequence@.map_values(f));
    }
    let mut player = Player {
        channels: Vec::new(),
        ports: Vec::new(),
        notes: Vec::new(),
        tempos: Vec::new(),
        signatures: Vec::new(),
        names: Vec::new(),
    };
    player.tempos.push((0, 500000));
    player.signatures.push((0, (4, 4)));
    let mut ti: usize = 0;
    while ti < file.tracks.len()
        invariant
            ti <= file.tracks.len(),
            player.channels.len() == 0,
            player.notes.len() == 0,
            player.tempos@ == seq![(0u64, 500000u32)],
            player.signatures@ == seq![(0u64, (4u8, 4u32))],
            player.ports@ == Seq::new(ti as nat, |i: int| 0u8),
            string_views(player.names@) == Seq::new(ti as nat, |i: int| Seq::<char>::empty()),
        decreases file.tracks.len() - ti,
    {
        let ghost before = string_views(player.names@);
        player.ports.push(0);
        player.names.push(String::new());
        ti += 1;
        proof {
            assert(player.ports@ =~= Seq::new(ti as nat, |i: int| 0u8));
            assert(string_views(player.names@) =~= before.push(Seq::empty()));
            assert(string_views(player.names@) =~= Seq::new(
                ti as nat,
                |i: int| Seq::<char>::empty(),
            ));
        }
    }
    proof {
        assert(channel_views(player.channels@) =~= Seq::<ChannelState>::empty());
        assert(player@ =~= before_playing(content.tracks.len()));
        assert(accounted(player@.channels, player@.notes));
    }
    let mut end: u64 = 0;
    let mut i: usize = 0;
    proof {
        assert(line.take(0) =~= Seq::<Slot>::empty());
    }
    while i < sequence.len()
        invariant
            i <= sequence.len(),
            sequence.len() == slots.len(),
            content == file@,
            file_fault(content) is None,
            f == (|i: usize| slots@[i as int]),
            line == timeline(content),
            line == sequence@.map_values(f),
            forall|k: int| 0 <= k < slots.len() ==> is_slot(content.tracks, #[trigger] slots[k]),
            forall|k: int| 0 <= k < sequence.len() ==> (#[trigger] sequence[k]) < slots.len(),
            played(content, i as int) == Ok::<_, MidiFault>(player@),
            accounted(player@.channels, player@.notes),
            positive_tempos(player@.tempos),
            tracks_below(player@.notes, content.tracks.len() as int),
            player@.ports.len() == content.tracks.len(),
            player@.names.len() == content.tracks.len(),
            end == last_time(line.take(i as int)),
        decreases sequence.len() - i,
    {
        let slot = slots[sequence[i]];
        proof {
            assert(line[i as int] == slot);
            assert(is_slot(content.tracks, slots[sequence[i as int] as int]));
            assert(line.take(i + 1).drop_last() =~= line.take(i as int));
            assert(line.take(i + 1).last() == slot);
            assert(content.tracks[slot.track as int] == track_happenings(
                file.tracks@[slot.track as int]@,
            ));
        }
        if end < slot.time {
            end = slot.time;
        }
        let event = &file.tracks[slot.track][slot.order];
        match player.play(slot.time, slot.track, &event.kind) {
            Err(e) => {
                proof {
                    lemma_playing_fails(content, i + 1, line.len() as int);
                }
                return Err(e);
            },
            Ok(_) => {},
        }
        i += 1;
    }
    proof {
        assert(line.take(i as int) =~= line);
    }
    let ghost last = player@;
    let ghost states = last.channels;
    let mut c: usize = 0;
    let mut channels = player.channels;
    let mut notes = player.notes;
    while c < channels.len()
        invariant
            c <= channels.len() == states.len(),
            accounted(states, last.notes),
            forall|k: int| c <= k < channels.len() ==> (#[trigger] channels@[k])@ == states[k],
            notes@ == closed(states, last.notes, end, c as int),
            notes.len() == last.notes.len(),
        decreases channels.len() - c,
    {
        proof {
            assert(channels@[c as int]@ == states[c as int]);
            assert(states[c as int].knows(last.notes.len() as int));
        }
        let state = &mut channels[c];
        state.all_notes_off(end, &mut notes, true);
        c += 1;
    }
    proof {
        lemma_closed(states, last.notes, end, states.len() as int);
    }
    Ok(
        MidiSong {
            timing: file.timing,
            notes,
            tempos: player.tempos,
            signatures: player.signatures,
            names: player.names,
        },
    )
}

} // verus!
