//! Making a score out of a MIDI song whose times have been placed.
use crate::frame::tempo_text;
use crate::lengths::LengthTable;
use crate::meta::{with_entry, Entry, Meta};
use crate::midi::{MidiFault, MidiNote};
use crate::mmi::{track_from_mml, track_of};
use crate::order::{lemma_order_sorts, order, stable_sort, Key};
use crate::placing::{times_ascend, times_of, MidiImport, Placed};
use crate::score::{
    end_of, last_end, part_views, track_views, Note, Score, ScoreView, Tempo, Tick, Track,
    TrackView,
};
use crate::scroll::track_mml;
use crate::song::{MidiSong, SongView};
use crate::text::{
    chars_of, join_strings, joined, number_text, push_chars, push_count, push_number, push_text,
    string_of, string_views,
};
use crate::voices::{
    earliest_end, insert_tick, lanes_of, minimum_end, monophonic_lanes, with_tick,
};
use crate::writer::{emit_with, part_text, EmitError};
use crate::text::ascii_chars;
use vstd::prelude::*;

verus! {

/// The position of a time among ascending ones.
pub open spec fn time_index(times: Seq<u64>, t: u64) -> int {
    choose|i: int| 0 <= i < times.len() && times[i] == t
}

/// The tick at which a time has been placed.
pub open spec fn tick_of(times: Seq<u64>, points: Seq<Tick>, t: u64) -> Tick {
    points[time_index(times, t)]
}

fn find_tick(times: &Vec<u64>, points: &Vec<Tick>, t: u64) -> (r: Tick)
    requires
        times_ascend(times@),
        times@.contains(t),
        points.len() == times.len(),
    ensures
        r == tick_of(times@, points@, t),
        points@.contains(r),
{
    let ghost w = time_index(times@, t);
    let mut low: usize = 0;
    let mut high: usize = times.len();
    while high - low > 1
        invariant
            low < high <= times.len(),
            times_ascend(times@),
            low <= w < high,
            w < times.len(),
            times@[w] == t,
        decreases high - low,
    {
        let middle: usize = low + (high - low) / 2;
        if times[middle] <= t {
            proof {
                if w < middle {
                    assert(times@[w] < times@[middle as int]);
                }
            }
            low = middle;
        } else {
            proof {
                if w >= middle {
                    if w > middle {
                        assert(times@[middle as int] < times@[w]);
                    }
                }
            }
            high = middle;
        }
    }
    proof {
        assert(points@[low as int] == tick_of(times@, points@, t));
    }
    points[low]
}

/// The distinct ticks of the first points, ascending.
pub open spec fn tick_set(points: Seq<Tick>, n: int) -> Seq<Tick>
    decreases n,
{
    if n <= 0 {
        Seq::empty()
    } else {
        with_tick(tick_set(points, n - 1), points[n - 1])
    }
}

/// The volume of a score that a velocity stands for.
pub open spec fn volume_of(velocity: int) -> int {
    let v = (velocity * 15 + 63) / 127;
    if v < 1 {
        1
    } else if v > 15 {
        15
    } else {
        v
    }
}

/// The notes of a score that the first notes of a song make, the ticks that are boundaries by
/// then, and how many notes had to be made longer.
#[verifier::ext_equal]
pub struct Shaped {
    pub ticks: Seq<Tick>,
    pub notes: Seq<Note>,
    pub extended: int,
}

/// A note that falls together to one tick is made as long as it has to be.
pub open spec fn shaped(song: SongView, points: Seq<Tick>, n: int) -> Shaped
    decreases n,
{
    let times = times_of(song);
    if n <= 0 {
        Shaped { ticks: tick_set(points, points.len() as int), notes: Seq::empty(), extended: 0 }
    } else {
        let before = shaped(song, points, n - 1);
        let source = song.notes[n - 1];
        let on = tick_of(times, points, source.on);
        let off = tick_of(times, points, source.off->Some_0);
        let end = if off == on {
            earliest_end(on as int, before.ticks) as Tick
        } else {
            off
        };
        Shaped {
            ticks: if off == on {
                with_tick(before.ticks, end)
            } else {
                before.ticks
            },
            notes: before.notes.push(
                Note {
                    on,
                    off: end,
                    pitch: source.pitch as i32,
                    vel: volume_of(source.velocity as int) as i32,
                    src: (0, 0),
                },
            ),
            extended: before.extended + (if off == on {
                1int
            } else {
                0int
            }),
        }
    }
}

/// The track, port and channel that notes are put together by.
pub type Group = (usize, u8, u8);

pub open spec fn group_less(a: Group, b: Group) -> bool {
    a.0 < b.0 || (a.0 == b.0 && (a.1 < b.1 || (a.1 == b.1 && a.2 < b.2)))
}

pub open spec fn group_of(note: MidiNote) -> Group {
    (note.track, note.port, note.channel)
}

/// Groups with one more, where it is not there yet; they ascend.
pub open spec fn with_group(s: Seq<Group>, g: Group) -> Seq<Group>
    decreases s.len(),
{
    if s.len() == 0 || group_less(s.last(), g) {
        s.push(g)
    } else if s.last() == g {
        s
    } else {
        with_group(s.drop_last(), g).push(s.last())
    }
}

/// The groups of the first notes.
pub open spec fn groups_of(notes: Seq<MidiNote>, n: int) -> Seq<Group>
    decreases n,
{
    if n <= 0 {
        Seq::empty()
    } else {
        with_group(groups_of(notes, n - 1), group_of(notes[n - 1]))
    }
}

/// The notes of a group among the first ones.
pub open spec fn notes_in(source: Seq<MidiNote>, notes: Seq<Note>, g: Group, n: int) -> Seq<Note>
    decreases n,
{
    if n <= 0 {
        Seq::empty()
    } else if group_of(source[n - 1]) == g {
        notes_in(source, notes, g, n - 1).push(notes[n - 1])
    } else {
        notes_in(source, notes, g, n - 1)
    }
}

/// The distinct programs of a group among the first notes, ascending.
pub open spec fn programs_in(source: Seq<MidiNote>, g: Group, n: int) -> Seq<Tick>
    decreases n,
{
    if n <= 0 {
        Seq::empty()
    } else if group_of(source[n - 1]) == g {
        with_tick(programs_in(source, g, n - 1), source[n - 1].program as Tick)
    } else {
        programs_in(source, g, n - 1)
    }
}

/// The key by which the notes of a group are put in order.
pub open spec fn voice_key(note: Note) -> Key {
    (note.on, note.pitch as i64, note.off)
}

/// The lanes of a group.
pub open spec fn group_lanes(source: Seq<MidiNote>, notes: Seq<Note>, g: Group) -> Result<
    Seq<Seq<Note>>,
    MidiFault,
> {
    let own = stable_sort(
        notes_in(source, notes, g, source.len() as int),
        |n: Note| voice_key(n),
    );
    lanes_of(own, own.len() as int)
}

/// A lane, or nothing where there are not so many.
pub open spec fn lane_at(lanes: Seq<Seq<Note>>, i: int) -> Seq<Note> {
    if i < lanes.len() {
        lanes[i]
    } else {
        Seq::empty()
    }
}

/// The text of one of the three parts that some lanes make; the first carries the tempos.
pub open spec fn voice_text(
    lanes: Seq<Seq<Note>>,
    tempos: Seq<Tempo>,
    total: int,
    chunk: int,
    part: int,
) -> Result<Seq<u8>, EmitError> {
    part_text(
        lane_at(lanes, 3 * chunk + part),
        if part == 0 {
            tempos
        } else {
            Seq::empty()
        },
        total,
    )
}

/// The name of a track that is made of a group: that of its source track, its channel, and
/// its number where there are several.
pub open spec fn voice_name(name: Seq<char>, g: Group, lanes: int, chunk: int) -> Seq<char> {
    (if name.len() == 0 {
        "MIDI "@ + number_text(g.0 + 1)
    } else {
        name
    }) + " · 채널 "@ + number_text(g.2 + 1) + (if lanes > 3 {
        " · "@ + number_text(chunk + 1)
    } else {
        Seq::empty()
    })
}

/// The entries of a track that is made of a group.
pub open spec fn voice_meta(name: Seq<char>, programs: Seq<Tick>, g: Group) -> Seq<Entry> {
    let e1 = with_entry(Seq::empty(), "name"@, name);
    let e2 = with_entry(e1, "program"@, "0"@);
    let e3 = with_entry(e2, "songProgram"@, "-1"@);
    let e4 = with_entry(e3, "panpot"@, "64"@);
    let e5 = with_entry(e4, "visible"@, "true"@);
    let e6 = with_entry(e5, "midiSourceTrack"@, number_text(g.0 + 1));
    let e7 = with_entry(e6, "midiChannel"@, number_text(g.2 + 1));
    let e8 = with_entry(e7, "midiPort"@, number_text(g.1 as int));
    with_entry(
        e8,
        "midiPrograms"@,
        joined(programs.map_values(|p: Tick| number_text(p as int)), ','),
    )
}

/// The track of three lanes of a group.
pub open spec fn voice_track(
    name: Seq<char>,
    lanes: Seq<Seq<Note>>,
    programs: Seq<Tick>,
    tempos: Seq<Tempo>,
    total: int,
    g: Group,
    chunk: int,
    index: usize,
) -> Result<TrackView, MidiFault> {
    match voice_text(lanes, tempos, total, chunk, 0) {
        Err(cause) => Err(MidiFault::Part { track: g.0, cause }),
        Ok(a) => match voice_text(lanes, tempos, total, chunk, 1) {
            Err(cause) => Err(MidiFault::Part { track: g.0, cause }),
            Ok(b) => match voice_text(lanes, tempos, total, chunk, 2) {
                Err(cause) => Err(MidiFault::Part { track: g.0, cause }),
                Ok(c) => match track_of(
                    track_mml(seq![ascii_chars(a), ascii_chars(b), ascii_chars(c)]),
                    voice_meta(
                        voice_name(name, g, lanes.len() as int, chunk),
                        programs,
                        g,
                    ),
                    index,
                ) {
                    Err(fault) => Err(MidiFault::Track { fault }),
                    Ok(track) => Ok(track),
                },
            },
        },
    }
}

/// Tracks with the first ones of a group behind them.
pub open spec fn with_voices(
    tracks: Seq<TrackView>,
    name: Seq<char>,
    lanes: Seq<Seq<Note>>,
    programs: Seq<Tick>,
    tempos: Seq<Tempo>,
    total: int,
    g: Group,
    n: int,
) -> Result<Seq<TrackView>, MidiFault>
    decreases n,
{
    if n <= 0 {
        Ok(tracks)
    } else {
        match with_voices(tracks, name, lanes, programs, tempos, total, g, n - 1) {
            Err(e) => Err(e),
            Ok(before) => match voice_track(
                name,
                lanes,
                programs,
                tempos,
                total,
                g,
                n - 1,
                before.len() as usize,
            ) {
                Err(e) => Err(e),
                Ok(track) => Ok(before.push(track)),
            },
        }
    }
}

/// The tracks that the first groups make.
pub open spec fn group_tracks(
    song: SongView,
    notes: Seq<Note>,
    tempos: Seq<Tempo>,
    n: int,
) -> Result<Seq<TrackView>, MidiFault>
    decreases n,
{
    let groups = groups_of(song.notes, song.notes.len() as int);
    if n <= 0 {
        Ok(Seq::empty())
    } else {
        match group_tracks(song, notes, tempos, n - 1) {
            Err(e) => Err(e),
            Ok(before) => {
                let g = groups[n - 1];
                match group_lanes(song.notes, notes, g) {
                    Err(e) => Err(e),
                    Ok(lanes) => with_voices(
                        before,
                        song.names[g.0 as int],
                        lanes,
                        programs_in(song.notes, g, song.notes.len() as int),
                        tempos,
                        last_end(notes) as int,
                        g,
                        (lanes.len() as int + 2) / 3,
                    ),
                }
            },
        }
    }
}

/// Tempos without those that change nothing.
pub open spec fn changing(tempos: Seq<Tempo>) -> Seq<Tempo>
    decreases tempos.len(),
{
    if tempos.len() == 0 {
        tempos
    } else {
        let before = changing(tempos.drop_last());
        if tempos.len() > 1 && tempos[tempos.len() - 2].1 == tempos.last().1 {
            before
        } else {
            before.push(tempos.last())
        }
    }
}

/// Time signatures with one more, in place of the one at its tick; the ticks ascend.
pub open spec fn with_mark(s: Seq<(Tick, (u8, u32))>, p: (Tick, (u8, u32))) -> Seq<
    (Tick, (u8, u32)),
>
    decreases s.len(),
{
    if s.len() == 0 || s.last().0 < p.0 {
        s.push(p)
    } else if s.last().0 == p.0 {
        s.drop_last().push(p)
    } else {
        with_mark(s.drop_last(), p).push(s.last())
    }
}

/// The first time signatures of a song at their ticks.
pub open spec fn marks_of(song: SongView, points: Seq<Tick>, n: int) -> Seq<(Tick, (u8, u32))>
    decreases n,
{
    if n <= 0 {
        Seq::empty()
    } else {
        let (t, signature) = song.signatures[n - 1];
        with_mark(
            marks_of(song, points, n - 1),
            (tick_of(times_of(song), points, t), signature),
        )
    }
}

/// How a time signature is written.
pub open spec fn mark_text(p: (Tick, (u8, u32))) -> Seq<char> {
    number_text(p.0 as int) + seq!['='] + number_text(p.1.0 as int) + seq!['/'] + number_text(
        p.1.1 as int,
    )
}

/// The lines before the tracks.
pub open spec fn midi_head(tempos: Seq<Tempo>, adjusted: int, extended: int) -> Seq<Seq<char>> {
    seq![
        "[mml-score]"@,
        "version=1"@,
        "tempo="@ + joined(tempos.map_values(|t: Tempo| tempo_text(t)), ','),
        "midiTimingAdjustedEvents="@ + number_text(adjusted),
        "midiExtendedShortNotes="@ + number_text(extended),
    ]
}

/// The lines behind the tracks.
pub open spec fn midi_tail(marks: Seq<(Tick, (u8, u32))>) -> Seq<Seq<char>> {
    seq!["[time-signature]"@] + marks.map_values(|p: (Tick, (u8, u32))| mark_text(p))
}

/// The score that a song makes once its times have been placed.
pub open spec fn assembled(song: SongView, p: Placed) -> Result<ScoreView, MidiFault> {
    if p.points.len() < times_of(song).len() {
        Err(MidiFault::Unplaced)
    } else {
        let s = shaped(song, p.points, song.notes.len() as int);
        let tempos = changing(p.tempos);
        let groups = groups_of(song.notes, song.notes.len() as int);
        match group_tracks(song, s.notes, tempos, groups.len() as int) {
            Err(e) => Err(e),
            Ok(tracks) => {
                let score = ScoreView {
                    head: midi_head(tempos, p.adjusted, s.extended),
                    tracks,
                    tail: midi_tail(marks_of(song, p.points, song.signatures.len() as int)),
                };
                if score.notes().len() != song.notes.len() {
                    Err(MidiFault::NoteCount)
                } else {
                    Ok(score)
                }
            },
        }
    }
}

/// Shapes the notes of a score out of those of a song.
fn shape(song: &MidiSong, times: &Vec<u64>, points: &Vec<Tick>) -> (r: (Vec<Note>, usize))
    requires
        times@ == times_of(song@),
        points.len() == times.len(),
        song.notes.len() <= 1000000,
        forall|i: int| 0 <= i < song.notes.len() ==> (#[trigger] song.notes[i]).off is Some,
        forall|i: int| 0 <= i < points.len() ==> 0 <= #[trigger] points[i] <= 2147483653,
    ensures
        r.0@ == shaped(song@, points@, song.notes.len() as int).notes,
        r.1 == shaped(song@, points@, song.notes.len() as int).extended,
        r.0.len() == song.notes.len(),
{
    proof {
        crate::placing::lemma_times_of(song@);
    }
    let mut ticks: Vec<Tick> = Vec::new();
    let mut i: usize = 0;
    while i < points.len()
        invariant
            i <= points.len(),
            ticks@ == tick_set(points@, i as int),
        decreases points.len() - i,
    {
        insert_tick(&mut ticks, points[i]);
        i += 1;
    }
    let mut notes: Vec<Note> = Vec::new();
    let mut extended: usize = 0;
    let mut i: usize = 0;
    while i < song.notes.len()
        invariant
            i <= song.notes.len() <= 1000000,
            times@ == times_of(song@),
            times_ascend(times@),
            points.len() == times.len(),
            forall|k: int| 0 <= k < song.notes.len() ==> (#[trigger] song.notes[k]).off is Some,
            forall|k: int|
                0 <= k < song@.notes.len() ==> times@.contains((#[trigger] song@.notes[k]).on)
                    && times@.contains(song@.notes[k].off->Some_0),
            forall|k: int| 0 <= k < points.len() ==> 0 <= #[trigger] points[k] <= 2147483653,
            ticks@ == shaped(song@, points@, i as int).ticks,
            notes@ == shaped(song@, points@, i as int).notes,
            extended == shaped(song@, points@, i as int).extended,
            extended <= i,
            notes.len() == i,
        decreases song.notes.len() - i,
    {
        let source = song.notes[i];
        proof {
            assert(song@.notes[i as int] == source);
            assert(song.notes[i as int].off is Some);
        }
        let source_off: u64 = match source.off {
            Some(t) => t,
            None => 0,
        };
        let on = find_tick(times, points, source.on);
        let off = find_tick(times, points, source_off);
        proof {
            let k = choose|k: int| 0 <= k < points.len() && points@[k] == on;
            assert(0 <= points[k] <= 2147483653);
        }
        let mut end: Tick = off;
        if off == on {
            end = match minimum_end(on, &ticks) {
                Some(end) => end,
                None => off,
            };
            insert_tick(&mut ticks, end);
            extended += 1;
        }
        let v: i32 = (source.velocity as i32 * 15 + 63) / 127;
        let vel: i32 = if v < 1 {
            1
        } else if v > 15 {
            15
        } else {
            v
        };
        notes.push(Note { on, off: end, pitch: source.pitch as i32, vel, src: (0, 0) });
        i += 1;
    }
    (notes, extended)
}

fn less_group(a: Group, b: Group) -> (r: bool)
    ensures
        r == group_less(a, b),
{
    a.0 < b.0 || (a.0 == b.0 && (a.1 < b.1 || (a.1 == b.1 && a.2 < b.2)))
}

fn insert_group(s: &mut Vec<Group>, g: Group)
    ensures
        final(s)@ == with_group(old(s)@, g),
{
    let ghost before = s@;
    let mut i: usize = s.len();
    proof {
        assert(before.take(i as int) =~= before);
        assert(with_group(before.take(i as int), g) + before.skip(i as int) =~= with_group(
            before,
            g,
        ));
    }
    while i > 0 && !less_group(s[i - 1], g) && !(s[i - 1].0 == g.0 && s[i - 1].1 == g.1 && s[i
        - 1].2 == g.2)
        invariant
            i <= s.len(),
            s@ == before,
            with_group(before.take(i as int), g) + before.skip(i as int) == with_group(before, g),
        decreases i,
    {
        proof {
            assert(before.take(i as int).drop_last() =~= before.take(i - 1));
            assert(before.take(i as int).last() == before[i - 1]);
            assert(with_group(before.take(i - 1), g).push(before[i - 1]) + before.skip(i as int)
                =~= with_group(before.take(i - 1), g) + before.skip(i - 1));
        }
        i -= 1;
    }
    if i > 0 && s[i - 1].0 == g.0 && s[i - 1].1 == g.1 && s[i - 1].2 == g.2 {
        proof {
            assert(before.take(i as int).last() == before[i - 1]);
            assert(before[i - 1] == g);
            assert(!group_less(g, g));
            assert(s@ =~= before.take(i as int) + before.skip(i as int));
        }
    } else {
        s.insert(i, g);
        proof {
            if i > 0 {
                assert(before.take(i as int).last() == before[i - 1]);
            }
            assert(s@ =~= before.take(i as int).push(g) + before.skip(i as int));
        }
    }
}

fn collect_groups(notes: &Vec<MidiNote>, Ghost(n): Ghost<int>) -> (groups: Vec<Group>)
    requires
        forall|i: int| 0 <= i < notes.len() ==> (#[trigger] notes[i]).track < n,
    ensures
        groups@ == groups_of(notes@, notes.len() as int),
        forall|i: int| 0 <= i < groups.len() ==> (#[trigger] groups[i]).0 < n,
{
    let mut groups: Vec<Group> = Vec::new();
    let mut i: usize = 0;
    while i < notes.len()
        invariant
            i <= notes.len(),
            forall|k: int| 0 <= k < notes.len() ==> (#[trigger] notes[k]).track < n,
            groups@ == groups_of(notes@, i as int),
            forall|k: int| 0 <= k < groups.len() ==> (#[trigger] groups[k]).0 < n,
        decreases notes.len() - i,
    {
        let note = notes[i];
        let g: Group = (note.track, note.port, note.channel);
        proof {
            assert(notes[i as int].track < n);
            lemma_groups_below(groups@, g, n);
        }
        insert_group(&mut groups, g);
        i += 1;
    }
    groups
}

proof fn lemma_groups_below(s: Seq<Group>, g: Group, n: int)
    requires
        forall|i: int| 0 <= i < s.len() ==> (#[trigger] s[i]).0 < n,
        g.0 < n,
    ensures
        forall|i: int| 0 <= i < with_group(s, g).len() ==> (#[trigger] with_group(s, g)[i]).0 < n,
    decreases s.len(),
{
    let new = with_group(s, g);
    if s.len() > 0 && !group_less(s.last(), g) && s.last() != g {
        let front = s.drop_last();
        assert forall|i: int| 0 <= i < front.len() implies (#[trigger] front[i]).0 < n by {
            assert(front[i] == s[i]);
        }
        lemma_groups_below(front, g, n);
        let inner = with_group(front, g);
        assert forall|i: int| 0 <= i < new.len() implies (#[trigger] new[i]).0 < n by {
            if i < inner.len() {
                assert(new[i] == inner[i]);
            } else {
                assert(new[i] == s[s.len() - 1]);
            }
        }
    }
}

/// The notes of a group, in order, and its programs.
fn collect_group(source: &Vec<MidiNote>, notes: &Vec<Note>, g: Group) -> (r: (Vec<Note>, Vec<Tick>))
    requires
        notes.len() == source.len(),
    ensures
        r.0@ == stable_sort(
            notes_in(source@, notes@, g, source.len() as int),
            |n: Note| voice_key(n),
        ),
        r.1@ == programs_in(source@, g, source.len() as int),
{
    let mut own: Vec<Note> = Vec::new();
    let mut keys: Vec<Key> = Vec::new();
    let mut programs: Vec<Tick> = Vec::new();
    let mut i: usize = 0;
    while i < source.len()
        invariant
            i <= source.len() == notes.len(),
            own@ == notes_in(source@, notes@, g, i as int),
            programs@ == programs_in(source@, g, i as int),
            keys.len() == own.len(),
            forall|k: int| 0 <= k < keys.len() ==> #[trigger] keys[k] == voice_key(own@[k]),
        decreases source.len() - i,
    {
        let s = source[i];
        if s.track == g.0 && s.port == g.1 && s.channel == g.2 {
            let note = notes[i];
            proof {
                assert(group_of(source@[i as int]) == g);
            }
            own.push(note);
            keys.push((note.on, note.pitch as i64, note.off));
            insert_tick(&mut programs, s.program as Tick);
        }
        i += 1;
    }
    let sequence = order(&keys);
    let mut sorted: Vec<Note> = Vec::new();
    let ghost f = |i: usize| own@[i as int];
    let mut i: usize = 0;
    while i < sequence.len()
        invariant
            i <= sequence.len() == own.len(),
            f == (|i: usize| own@[i as int]),
            forall|k: int| 0 <= k < sequence.len() ==> (#[trigger] sequence[k]) < own.len(),
            sorted@ == sequence@.take(i as int).map_values(f),
        decreases sequence.len() - i,
    {
        sorted.push(own[sequence[i]]);
        i += 1;
        proof {
            assert(sorted@ =~= sequence@.take(i as int).map_values(f));
        }
    }
    proof {
        assert(sequence@.take(i as int) =~= sequence@);
        lemma_order_sorts(own@, keys@, |n: Note| voice_key(n));
    }
    (sorted, programs)
}

fn make_voice_name(name: &str, g: Group, lanes: usize, chunk: usize) -> (r: String)
    ensures
        r@ == voice_name(name@, g, lanes as int, chunk as int),
{
    let mut out: Vec<char> = Vec::new();
    if name.is_empty() {
        push_text(&mut out, "MIDI ");
        push_count(&mut out, g.0 as u128 + 1);
        proof {
            assert(out@ =~= "MIDI "@ + number_text(g.0 + 1));
        }
    } else {
        push_text(&mut out, name);
        proof {
            assert(out@ =~= name@);
        }
    }
    push_text(&mut out, " · 채널 ");
    push_count(&mut out, g.2 as u128 + 1);
    let mut suffix: Vec<char> = Vec::new();
    if lanes > 3 {
        push_text(&mut suffix, " · ");
        push_count(&mut suffix, chunk as u128 + 1);
        proof {
            assert(suffix@ =~= " · "@ + number_text(chunk + 1));
        }
    }
    push_chars(&mut out, &suffix);
    string_of(&out)
}

fn count_text(n: u128) -> (r: String)
    ensures
        r@ == number_text(n as int),
{
    let mut out: Vec<char> = Vec::new();
    push_count(&mut out, n);
    proof {
        assert(out@ =~= number_text(n as int));
    }
    string_of(&out)
}

fn make_voice_meta(name: String, programs: &Vec<Tick>, g: Group) -> (r: Meta)
    requires
        forall|i: int| 0 <= i < programs.len() ==> #[trigger] programs[i] >= 0,
    ensures
        r@ == voice_meta(name@, programs@, g),
{
    let mut texts: Vec<String> = Vec::new();
    let ghost f = |p: Tick| number_text(p as int);
    let mut i: usize = 0;
    proof {
        assert(string_views(texts@) =~= programs@.take(0).map_values(f));
    }
    while i < programs.len()
        invariant
            i <= programs.len(),
            f == (|p: Tick| number_text(p as int)),
            forall|k: int| 0 <= k < programs.len() ==> #[trigger] programs[k] >= 0,
            string_views(texts@) == programs@.take(i as int).map_values(f),
        decreases programs.len() - i,
    {
        let ghost before = string_views(texts@);
        proof {
            assert(programs[i as int] >= 0);
        }
        let text = count_text(programs[i] as u128);
        let ghost view = text@;
        texts.push(text);
        i += 1;
        proof {
            assert(string_views(texts@) =~= before.push(view));
            assert(string_views(texts@) =~= programs@.take(i as int).map_values(f));
        }
    }
    proof {
        assert(programs@.take(i as int) =~= programs@);
    }
    let mut r = Meta::new();
    r.insert("name".to_owned(), name);
    r.insert("program".to_owned(), "0".to_owned());
    r.insert("songProgram".to_owned(), "-1".to_owned());
    r.insert("panpot".to_owned(), "64".to_owned());
    r.insert("visible".to_owned(), "true".to_owned());
    r.insert("midiSourceTrack".to_owned(), count_text(g.0 as u128 + 1));
    r.insert("midiChannel".to_owned(), count_text(g.2 as u128 + 1));
    r.insert("midiPort".to_owned(), count_text(g.1 as u128));
    r.insert("midiPrograms".to_owned(), string_of(&join_strings(&texts, ',')));
    r
}

fn make_voice_text(
    lanes: &Vec<Vec<Note>>,
    tempos: &Vec<Tempo>,
    total: Tick,
    chunk: usize,
    part: usize,
    table: &LengthTable,
) -> (r: Result<String, EmitError>)
    requires
        table.well_formed(),
        part < 3,
        chunk * 3 + 3 <= usize::MAX,
    ensures
        match r {
            Ok(text) => voice_text(
                part_views(lanes@),
                tempos@,
                total as int,
                chunk as int,
                part as int,
            ) matches Ok(bytes) && text@ == ascii_chars(bytes),
            Err(e) => voice_text(
                part_views(lanes@),
                tempos@,
                total as int,
                chunk as int,
                part as int,
            ) == Err::<Seq<u8>, _>(e),
        },
{
    let i: usize = 3 * chunk + part;
    let nothing: Vec<Note> = Vec::new();
    let silent: Vec<Tempo> = Vec::new();
    proof {
        assert(nothing@ =~= Seq::<Note>::empty());
        assert(silent@ =~= Seq::<Tempo>::empty());
    }
    let lane = if i < lanes.len() {
        &lanes[i]
    } else {
        &nothing
    };
    let own = if part == 0 {
        tempos
    } else {
        &silent
    };
    emit_with(lane, own, total, table)
}

fn make_voice_track(
    name: &str,
    lanes: &Vec<Vec<Note>>,
    programs: &Vec<Tick>,
    tempos: &Vec<Tempo>,
    total: Tick,
    g: Group,
    chunk: usize,
    index: usize,
    table: &LengthTable,
) -> (r: Result<Track, MidiFault>)
    requires
        table.well_formed(),
        chunk * 3 + 3 <= usize::MAX,
        forall|i: int| 0 <= i < programs.len() ==> #[trigger] programs[i] >= 0,
    ensures
        match r {
            Ok(track) => voice_track(
                name@,
                part_views(lanes@),
                programs@,
                tempos@,
                total as int,
                g,
                chunk as int,
                index,
            ) == Ok::<_, MidiFault>(track@),
            Err(e) => voice_track(
                name@,
                part_views(lanes@),
                programs@,
                tempos@,
                total as int,
                g,
                chunk as int,
                index,
            ) == Err::<TrackView, _>(e),
        },
{
    let first = match make_voice_text(lanes, tempos, total, chunk, 0, table) {
        Err(cause) => {
            return Err(MidiFault::Part { track: g.0, cause });
        },
        Ok(text) => text,
    };
    let second = match make_voice_text(lanes, tempos, total, chunk, 1, table) {
        Err(cause) => {
            return Err(MidiFault::Part { track: g.0, cause });
        },
        Ok(text) => text,
    };
    let third = match make_voice_text(lanes, tempos, total, chunk, 2, table) {
        Err(cause) => {
            return Err(MidiFault::Part { track: g.0, cause });
        },
        Ok(text) => text,
    };
    let ghost texts = seq![first@, second@, third@];
    let mut list: Vec<String> = Vec::new();
    list.push(first);
    list.push(second);
    list.push(third);
    let mut mml = chars_of("MML@");
    push_chars(&mut mml, &join_strings(&list, ','));
    push_text(&mut mml, ";");
    proof {
        assert(string_views(list@) =~= texts);
        assert(mml@ == track_mml(texts));
    }
    let meta = make_voice_meta(make_voice_name(name, g, lanes.len(), chunk), programs, g);
    match track_from_mml(string_of(&mml), meta, index) {
        Err(fault) => Err(MidiFault::Track { fault }),
        Ok(track) => Ok(track),
    }
}

proof fn lemma_voices_fail(
    tracks: Seq<TrackView>,
    name: Seq<char>,
    lanes: Seq<Seq<Note>>,
    programs: Seq<Tick>,
    tempos: Seq<Tempo>,
    total: int,
    g: Group,
    from: int,
    to: int,
)
    requires
        0 <= from <= to,
    ensures
        with_voices(tracks, name, lanes, programs, tempos, total, g, from) is Err ==> with_voices(
            tracks,
            name,
            lanes,
            programs,
            tempos,
            total,
            g,
            to,
        ) == with_voices(tracks, name, lanes, programs, tempos, total, g, from),
    decreases to - from,
{
    if from < to {
        lemma_voices_fail(tracks, name, lanes, programs, tempos, total, g, from, to - 1);
    }
}

proof fn lemma_groups_fail(
    song: SongView,
    notes: Seq<Note>,
    tempos: Seq<Tempo>,
    from: int,
    to: int,
)
    requires
        0 <= from <= to,
    ensures
        group_tracks(song, notes, tempos, from) is Err ==> group_tracks(song, notes, tempos, to)
            == group_tracks(song, notes, tempos, from),
    decreases to - from,
{
    if from < to {
        lemma_groups_fail(song, notes, tempos, from, to - 1);
    }
}

proof fn lemma_ticks_nonnegative(s: Seq<Tick>, t: Tick)
    requires
        forall|i: int| 0 <= i < s.len() ==> #[trigger] s[i] >= 0,
        t >= 0,
    ensures
        forall|i: int| 0 <= i < with_tick(s, t).len() ==> #[trigger] with_tick(s, t)[i] >= 0,
    decreases s.len(),
{
    let new = with_tick(s, t);
    if s.len() > 0 && s.last() > t {
        let front = s.drop_last();
        assert forall|i: int| 0 <= i < front.len() implies #[trigger] front[i] >= 0 by {
            assert(front[i] == s[i]);
        }
        lemma_ticks_nonnegative(front, t);
        let inner = with_tick(front, t);
        assert forall|i: int| 0 <= i < new.len() implies #[trigger] new[i] >= 0 by {
            if i < inner.len() {
                assert(new[i] == inner[i]);
            } else {
                assert(new[i] == s[s.len() - 1]);
            }
        }
    }
}

proof fn lemma_programs_nonnegative(source: Seq<MidiNote>, g: Group, n: int)
    requires
        0 <= n <= source.len(),
    ensures
        forall|i: int|
            0 <= i < programs_in(source, g, n).len() ==> #[trigger] programs_in(source, g, n)[i]
                >= 0,
    decreases n,
{
    if n > 0 {
        lemma_programs_nonnegative(source, g, n - 1);
        lemma_ticks_nonnegative(programs_in(source, g, n - 1), source[n - 1].program as Tick);
    }
}

/// Adds the tracks of a group.
fn add_voices(
    tracks: &mut Vec<Track>,
    name: &str,
    lanes: &Vec<Vec<Note>>,
    programs: &Vec<Tick>,
    tempos: &Vec<Tempo>,
    total: Tick,
    g: Group,
    table: &LengthTable,
) -> (r: Result<(), MidiFault>)
    requires
        table.well_formed(),
        lanes.len() <= 256,
        forall|i: int| 0 <= i < programs.len() ==> #[trigger] programs[i] >= 0,
    ensures
        ({
            let goal = with_voices(
                track_views(old(tracks)@),
                name@,
                part_views(lanes@),
                programs@,
                tempos@,
                total as int,
                g,
                (lanes.len() as int + 2) / 3,
            );
            match r {
                Ok(_) => goal == Ok::<_, MidiFault>(track_views(final(tracks)@)),
                Err(e) => goal == Err::<Seq<TrackView>, _>(e),
            }
        }),
{
    let ghost rows = part_views(lanes@);
    let ghost before = track_views(tracks@);
    let count: usize = (lanes.len() + 2) / 3;
    let mut chunk: usize = 0;
    while chunk < count
        invariant
            chunk <= count <= 86,
            count == (lanes.len() as int + 2) / 3,
            rows == part_views(lanes@),
            before == track_views(old(tracks)@),
            table.well_formed(),
            forall|k: int| 0 <= k < programs.len() ==> #[trigger] programs[k] >= 0,
            with_voices(
                before,
                name@,
                rows,
                programs@,
                tempos@,
                total as int,
                g,
                chunk as int,
            ) == Ok::<_, MidiFault>(track_views(tracks@)),
        decreases count - chunk,
    {
        match make_voice_track(
            name,
            lanes,
            programs,
            tempos,
            total,
            g,
            chunk,
            tracks.len(),
            table,
        ) {
            Err(e) => {
                proof {
                    lemma_voices_fail(
                        before,
                        name@,
                        rows,
                        programs@,
                        tempos@,
                        total as int,
                        g,
                        chunk + 1,
                        count as int,
                    );
                }
                return Err(e);
            },
            Ok(track) => {
                let ghost now = track_views(tracks@);
                let ghost added = track@;
                tracks.push(track);
                proof {
                    assert(track_views(tracks@) =~= now.push(added));
                }
            },
        }
        chunk += 1;
    }
    Ok(())
}

/// Makes the tracks of all groups.
fn make_tracks(song: &MidiSong, notes: &Vec<Note>, tempos: &Vec<Tempo>) -> (r: Result<
    Vec<Track>,
    MidiFault,
>)
    requires
        notes.len() == song.notes.len(),
        forall|i: int|
            0 <= i < song.notes.len() ==> (#[trigger] song.notes[i]).track < song.names.len(),
    ensures
        match r {
            Ok(tracks) => group_tracks(
                song@,
                notes@,
                tempos@,
                groups_of(song@.notes, song@.notes.len() as int).len() as int,
            ) == Ok::<_, MidiFault>(track_views(tracks@)),
            Err(e) => group_tracks(
                song@,
                notes@,
                tempos@,
                groups_of(song@.notes, song@.notes.len() as int).len() as int,
            ) == Err::<Seq<TrackView>, _>(e),
        },
{
    let table = LengthTable::new();
    let total = end_of(notes);
    let groups = collect_groups(&song.notes, Ghost(song.names.len() as int));
    let ghost view = song@;
    let ghost goal = group_tracks(view, notes@, tempos@, groups.len() as int);
    let mut tracks: Vec<Track> = Vec::new();
    let mut i: usize = 0;
    proof {
        assert(track_views(tracks@) =~= Seq::<TrackView>::empty());
    }
    while i < groups.len()
        invariant
            i <= groups.len(),
            notes.len() == song.notes.len(),
            table.well_formed(),
            view == song@,
            total == last_end(notes@),
            groups@ == groups_of(view.notes, view.notes.len() as int),
            forall|k: int| 0 <= k < groups.len() ==> (#[trigger] groups[k]).0 < song.names.len(),
            goal == group_tracks(view, notes@, tempos@, groups.len() as int),
            group_tracks(view, notes@, tempos@, i as int) == Ok::<_, MidiFault>(
                track_views(tracks@),
            ),
        decreases groups.len() - i,
    {
        let g = groups[i];
        proof {
            assert(groups[i as int].0 < song.names.len());
            assert(view.names[g.0 as int] == song.names@[g.0 as int]@);
            lemma_programs_nonnegative(view.notes, g, view.notes.len() as int);
        }
        let (own, programs) = collect_group(&song.notes, notes, g);
        let lanes = match monophonic_lanes(&own) {
            Err(e) => {
                proof {
                    lemma_groups_fail(view, notes@, tempos@, i + 1, groups.len() as int);
                }
                return Err(e);
            },
            Ok(lanes) => lanes,
        };
        proof {
            crate::voices::law_lanes(own@, own.len() as int);
        }
        match add_voices(
            &mut tracks,
            song.names[g.0].as_str(),
            &lanes,
            &programs,
            tempos,
            total,
            g,
            &table,
        ) {
            Err(e) => {
                proof {
                    lemma_groups_fail(view, notes@, tempos@, i + 1, groups.len() as int);
                }
                return Err(e);
            },
            Ok(_) => {},
        }
        i += 1;
    }
    Ok(tracks)
}

fn drop_unchanged(tempos: &Vec<Tempo>) -> (r: Vec<Tempo>)
    ensures
        r@ == changing(tempos@),
{
    let mut r: Vec<Tempo> = Vec::new();
    let mut i: usize = 0;
    proof {
        assert(tempos@.take(0) =~= Seq::<Tempo>::empty());
    }
    while i < tempos.len()
        invariant
            i <= tempos.len(),
            r@ == changing(tempos@.take(i as int)),
        decreases tempos.len() - i,
    {
        proof {
            let longer = tempos@.take(i + 1);
            assert(longer.drop_last() =~= tempos@.take(i as int));
            assert(longer.last() == tempos@[i as int]);
            if i > 0 {
                assert(longer[longer.len() - 2] == tempos@[i - 1]);
            }
        }
        if i == 0 || tempos[i - 1].1 != tempos[i].1 {
            r.push(tempos[i]);
        }
        i += 1;
    }
    proof {
        assert(tempos@.take(i as int) =~= tempos@);
    }
    r
}

fn make_head(tempos: &Vec<Tempo>, adjusted: usize, extended: usize) -> (r: Vec<String>)
    ensures
        string_views(r@) == midi_head(tempos@, adjusted as int, extended as int),
{
    let mut events: Vec<String> = Vec::new();
    let ghost f = |t: Tempo| tempo_text(t);
    let mut i: usize = 0;
    proof {
        assert(string_views(events@) =~= tempos@.take(0).map_values(f));
    }
    while i < tempos.len()
        invariant
            i <= tempos.len(),
            f == (|t: Tempo| tempo_text(t)),
            string_views(events@) == tempos@.take(i as int).map_values(f),
        decreases tempos.len() - i,
    {
        let mut text: Vec<char> = Vec::new();
        push_number(&mut text, tempos[i].0);
        text.push('T');
        push_number(&mut text, tempos[i].1 as i64);
        let ghost before = string_views(events@);
        let ghost event = text@;
        events.push(string_of(&text));
        proof {
            assert(event =~= tempo_text(tempos@[i as int]));
            assert(string_views(events@) =~= before.push(event));
            assert(string_views(events@) =~= tempos@.take(i + 1).map_values(f));
        }
        i += 1;
    }
    proof {
        assert(tempos@.take(i as int) =~= tempos@);
    }
    let mut line = chars_of("tempo=");
    push_chars(&mut line, &join_strings(&events, ','));
    let mut moved = chars_of("midiTimingAdjustedEvents=");
    push_count(&mut moved, adjusted as u128);
    let mut longer = chars_of("midiExtendedShortNotes=");
    push_count(&mut longer, extended as u128);
    let mut r: Vec<String> = Vec::new();
    r.push("[mml-score]".to_owned());
    r.push("version=1".to_owned());
    r.push(string_of(&line));
    r.push(string_of(&moved));
    r.push(string_of(&longer));
    proof {
        assert(string_views(r@) =~= midi_head(tempos@, adjusted as int, extended as int));
    }
    r
}

fn insert_mark(s: &mut Vec<(Tick, (u8, u32))>, p: (Tick, (u8, u32)))
    ensures
        final(s)@ == with_mark(old(s)@, p),
{
    let ghost before = s@;
    let mut i: usize = s.len();
    proof {
        assert(before.take(i as int) =~= before);
        assert(with_mark(before.take(i as int), p) + before.skip(i as int) =~= with_mark(
            before,
            p,
        ));
    }
    while i > 0 && s[i - 1].0 > p.0
        invariant
            i <= s.len(),
            s@ == before,
            with_mark(before.take(i as int), p) + before.skip(i as int) == with_mark(before, p),
        decreases i,
    {
        proof {
            assert(before.take(i as int).drop_last() =~= before.take(i - 1));
            assert(with_mark(before.take(i - 1), p).push(before[i - 1]) + before.skip(i as int)
                =~= with_mark(before.take(i - 1), p) + before.skip(i - 1));
        }
        i -= 1;
    }
    if i > 0 && s[i - 1].0 == p.0 {
        s.set(i - 1, p);
        proof {
            assert(before.take(i as int).last() == before[i - 1]);
            assert(s@ =~= before.take(i as int).drop_last().push(p) + before.skip(i as int));
        }
    } else {
        s.insert(i, p);
        proof {
            if i > 0 {
                assert(before.take(i as int).last() == before[i - 1]);
            }
            assert(s@ =~= before.take(i as int).push(p) + before.skip(i as int));
        }
    }
}

fn make_tail(song: &MidiSong, times: &Vec<u64>, points: &Vec<Tick>) -> (r: Vec<String>)
    requires
        times@ == times_of(song@),
        points.len() == times.len(),
    ensures
        string_views(r@) == midi_tail(
            marks_of(song@, points@, song@.signatures.len() as int),
        ),
{
    proof {
        crate::placing::lemma_times_of(song@);
    }
    let mut marks: Vec<(Tick, (u8, u32))> = Vec::new();
    let mut i: usize = 0;
    while i < song.signatures.len()
        invariant
            i <= song.signatures.len(),
            times@ == times_of(song@),
            times_ascend(times@),
            points.len() == times.len(),
            forall|k: int|
                0 <= k < song@.signatures.len() ==> times@.contains(
                    (#[trigger] song@.signatures[k]).0,
                ),
            marks@ == marks_of(song@, points@, i as int),
        decreases song.signatures.len() - i,
    {
        let (t, signature) = song.signatures[i];
        proof {
            assert(song@.signatures[i as int] == (t, signature));
        }
        insert_mark(&mut marks, (find_tick(times, points, t), signature));
        i += 1;
    }
    let mut r: Vec<String> = Vec::new();
    r.push("[time-signature]".to_owned());
    let ghost first = string_views(r@);
    let ghost f = |p: (Tick, (u8, u32))| mark_text(p);
    let mut i: usize = 0;
    proof {
        assert(first =~= seq!["[time-signature]"@]);
        assert(first + marks@.take(0).map_values(f) =~= first);
    }
    while i < marks.len()
        invariant
            i <= marks.len(),
            f == (|p: (Tick, (u8, u32))| mark_text(p)),
            string_views(r@) == first + marks@.take(i as int).map_values(f),
        decreases marks.len() - i,
    {
        let (tick, (numerator, denominator)) = marks[i];
        let mut line: Vec<char> = Vec::new();
        push_number(&mut line, tick);
        line.push('=');
        push_count(&mut line, numerator as u128);
        line.push('/');
        push_count(&mut line, denominator as u128);
        let ghost before = string_views(r@);
        let ghost text = line@;
        r.push(string_of(&line));
        proof {
            assert(text =~= mark_text(marks@[i as int]));
            assert(string_views(r@) =~= before.push(text));
            assert(string_views(r@) =~= first + marks@.take(i + 1).map_values(f));
        }
        i += 1;
    }
    proof {
        assert(marks@.take(i as int) =~= marks@);
    }
    r
}

/// Makes a score out of a song all of whose times have been placed.
pub fn finish(import: &MidiImport) -> (r: Result<Score, MidiFault>)
    requires
        import.well_formed(),
    ensures
        match r {
            Ok(score) => assembled(import.song(), import.placed()) == Ok::<_, MidiFault>(score@),
            Err(e) => assembled(import.song(), import.placed()) == Err::<ScoreView, _>(e),
        },
{
    let (song, times, points, all_tempos, adjusted) = match import.all_placed() {
        None => {
            return Err(MidiFault::Unplaced);
        },
        Some(parts) => parts,
    };
    let (notes, extended) = shape(song, times, points);
    let tempos = drop_unchanged(all_tempos);
    let tracks = match make_tracks(song, &notes, &tempos) {
        Err(e) => {
            return Err(e);
        },
        Ok(tracks) => tracks,
    };
    let score = Score {
        head: make_head(&tempos, adjusted, extended),
        tracks,
        tail: make_tail(song, times, points),
    };
    if score.all_notes().len() != song.notes.len() {
        return Err(MidiFault::NoteCount);
    }
    Ok(score)
}

} // verus!
