//! Writing the notes of parts as a score.
use crate::fold::{compressed, is_range, Layout, VolumeRange, WorkingNote};
use crate::lengths::LengthTable;
use crate::meta::Meta;
use crate::mmi::{track_from_mml, track_of, TrackError};
use crate::ratio::less_mean;
use crate::score::{copy_lines, track_views, Note, Score, ScoreView, Tempo, Tick, Track, TrackView};
use crate::scroll::{renumber, renumbered, track_mml};
use crate::text::{ascii_chars, chars_of, join_strings, push_chars, push_text, string_of, string_views};
use crate::writer::{emit_with, part_text, EmitError};
use vstd::prelude::*;

verus! {

/// Why notes cannot be written as a score. Tracks and parts are counted from one.
#[derive(Debug)]
pub enum EncodeError {
    Part { track: usize, part: usize, error: EmitError },
    Track { track: usize, fault: TrackError },
}

/// How notes are written: how many tracks, how many parts each, and the volumes they are
/// brought into.
#[derive(Clone, Copy, Debug)]
pub struct Ensemble {
    pub tracks: usize,
    pub parts: usize,
    pub layout: Layout,
    pub volume_range: Option<VolumeRange>,
}

pub open spec fn is_ensemble(e: Ensemble) -> bool {
    &&& 1 <= e.tracks <= 16
    &&& 1 <= e.parts <= 3
    &&& e.volume_range matches Some(range) ==> is_range(range)
}

/// The sum of the pitches of the first notes of a part.
pub open spec fn sum_of(notes: Seq<WorkingNote>, ids: Seq<usize>, n: int) -> int
    decreases n,
{
    if n <= 0 {
        0
    } else {
        sum_of(notes, ids, n - 1) + notes[ids[n - 1] as int].note.pitch
    }
}

/// How many pitches a part's mean is taken of; that of an empty part is nought.
pub open spec fn count_of(ids: Seq<usize>) -> int {
    if ids.len() == 0 {
        1
    } else {
        ids.len() as int
    }
}

/// Whether one part is lower than another in the mean.
pub open spec fn is_lower(notes: Seq<WorkingNote>, a: Seq<usize>, b: Seq<usize>) -> bool {
    sum_of(notes, a, a.len() as int) * count_of(b) < sum_of(notes, b, b.len() as int) * count_of(a)
}

/// Parts from high to low with one more; of parts as high as it is it comes last.
pub open spec fn ranked_with(notes: Seq<WorkingNote>, slots: Seq<Seq<usize>>, list: Seq<usize>, slot: usize) -> Seq<usize>
    decreases list.len(),
{
    if list.len() == 0 || !is_lower(notes, slots[list.last() as int], slots[slot as int]) {
        list.push(slot)
    } else {
        ranked_with(notes, slots, list.drop_last(), slot).push(list.last())
    }
}

/// The first parts from high to low, in the mean.
pub open spec fn ranked(notes: Seq<WorkingNote>, slots: Seq<Seq<usize>>, n: int) -> Seq<usize>
    decreases n,
{
    if n <= 0 {
        Seq::empty()
    } else {
        ranked_with(notes, slots, ranked(notes, slots, n - 1), (n - 1) as usize)
    }
}

/// The order in which parts are written.
pub open spec fn slot_order(notes: Seq<WorkingNote>, slots: Seq<Seq<usize>>, layout: Layout) -> Seq<usize> {
    if layout == Layout::Voices {
        ranked(notes, slots, slots.len() as int)
    } else {
        Seq::new(slots.len(), |i: int| i as usize)
    }
}

/// A note with its volume brought into a range, where there is one.
pub open spec fn toned(note: Note, range: Option<VolumeRange>) -> Note {
    match range {
        None => note,
        Some(r) => Note {
            on: note.on,
            off: note.off,
            pitch: note.pitch,
            vel: compressed(r, note.vel as int) as i32,
            src: note.src,
        },
    }
}

pub open spec fn part_notes(notes: Seq<WorkingNote>, ids: Seq<usize>, range: Option<VolumeRange>) -> Seq<Note> {
    Seq::new(ids.len(), |k: int| toned(notes[ids[k] as int].note, range))
}

/// Where the last of the first notes that are kept ends.
pub open spec fn end_of_kept(notes: Seq<WorkingNote>, kept: Seq<usize>, n: int) -> Tick
    decreases n,
{
    if n <= 0 {
        0
    } else if n == 1 || notes[kept[n - 1] as int].note.off >= end_of_kept(notes, kept, n - 1) {
        notes[kept[n - 1] as int].note.off
    } else {
        end_of_kept(notes, kept, n - 1)
    }
}

/// What the parts of a score are written of.
pub struct Writing {
    pub notes: Seq<WorkingNote>,
    pub slots: Seq<Seq<usize>>,
    pub sequence: Seq<usize>,
    pub tempos: Seq<Tempo>,
    pub total: Tick,
    pub parts: int,
    pub range: Option<VolumeRange>,
}

/// The texts of the first parts of a track; the first part carries the tempos.
pub open spec fn part_texts(w: Writing, track: int, n: int) -> Result<Seq<Seq<char>>, EncodeError>
    decreases n,
{
    if n <= 0 {
        Ok(Seq::empty())
    } else {
        match part_texts(w, track, n - 1) {
            Err(e) => Err(e),
            Ok(before) => {
                let slot = w.sequence[track * w.parts + (n - 1)] as int;
                let own = if n == 1 {
                    w.tempos
                } else {
                    Seq::empty()
                };
                match part_text(part_notes(w.notes, w.slots[slot], w.range), own, w.total as int) {
                    Err(error) => Err(
                        EncodeError::Part {
                            track: (track + 1) as usize,
                            part: n as usize,
                            error,
                        },
                    ),
                    Ok(bytes) => Ok(before.push(ascii_chars(bytes))),
                }
            },
        }
    }
}

/// The first tracks, read back from how their parts are written.
pub open spec fn written_tracks(w: Writing, prototype: Seq<crate::meta::Entry>, n: int) -> Result<
    Seq<TrackView>,
    EncodeError,
>
    decreases n,
{
    if n <= 0 {
        Ok(Seq::empty())
    } else {
        match written_tracks(w, prototype, n - 1) {
            Err(e) => Err(e),
            Ok(before) => match written_track(w, prototype, n - 1) {
                Err(e) => Err(e),
                Ok(track) => Ok(before.push(track)),
            },
        }
    }
}

/// What the parts of a score are written of.
pub open spec fn writing_of(
    notes: Seq<WorkingNote>,
    kept: Seq<usize>,
    slots: Seq<Seq<usize>>,
    score: ScoreView,
    e: Ensemble,
) -> Writing {
    Writing {
        notes,
        slots,
        sequence: slot_order(notes, slots, e.layout),
        tempos: score.all_tempos(),
        total: end_of_kept(notes, kept, kept.len() as int),
        parts: e.parts as int,
        range: e.volume_range,
    }
}

/// The entries of the first track, which the others take after.
pub open spec fn prototype_of(score: ScoreView) -> Seq<crate::meta::Entry> {
    if score.tracks.len() == 0 {
        Seq::empty()
    } else {
        score.tracks[0].meta
    }
}

/// The score that parts make, with what stands around the tracks of another.
pub open spec fn encoded(
    notes: Seq<WorkingNote>,
    kept: Seq<usize>,
    slots: Seq<Seq<usize>>,
    score: ScoreView,
    e: Ensemble,
) -> Result<ScoreView, EncodeError> {
    match written_tracks(
        writing_of(notes, kept, slots, score, e),
        prototype_of(score),
        e.tracks as int,
    ) {
        Err(error) => Err(error),
        Ok(tracks) => Ok(ScoreView { head: score.head, tracks, tail: score.tail }),
    }
}

pub open spec fn slot_lists(slots: Seq<Vec<usize>>) -> Seq<Seq<usize>> {
    Seq::new(slots.len(), |i: int| slots[i]@)
}

/// Whether parts hold notes.
pub open spec fn are_slots(notes: Seq<WorkingNote>, slots: Seq<Seq<usize>>) -> bool {
    forall|s: int, k: int|
        #![trigger slots[s][k]]
        0 <= s < slots.len() && 0 <= k < slots[s].len() ==> slots[s][k] < notes.len()
}

fn pitch_total(notes: &Vec<WorkingNote>, ids: &Vec<usize>) -> (r: i128)
    requires
        forall|k: int| 0 <= k < ids.len() ==> (#[trigger] ids[k]) < notes.len(),
    ensures
        r == sum_of(notes@, ids@, ids.len() as int),
        -ids.len() * 0x8000_0000 <= r <= ids.len() * 0x8000_0000,
{
    let mut sum: i128 = 0;
    let mut k: usize = 0;
    while k < ids.len()
        invariant
            k <= ids.len(),
            forall|k: int| 0 <= k < ids.len() ==> (#[trigger] ids[k]) < notes.len(),
            sum == sum_of(notes@, ids@, k as int),
            -k * 0x8000_0000 <= sum <= k * 0x8000_0000,
        decreases ids.len() - k,
    {
        proof {
            assert(ids[k as int] < notes.len());
        }
        sum = sum + notes[ids[k]].note.pitch as i128;
        k += 1;
    }
    sum
}

fn lower(notes: &Vec<WorkingNote>, a: &Vec<usize>, b: &Vec<usize>) -> (r: bool)
    requires
        forall|k: int| 0 <= k < a.len() ==> (#[trigger] a[k]) < notes.len(),
        forall|k: int| 0 <= k < b.len() ==> (#[trigger] b[k]) < notes.len(),
    ensures
        r == is_lower(notes@, a@, b@),
{
    let x = pitch_total(notes, a);
    let y = pitch_total(notes, b);
    let m: u64 = if a.len() == 0 {
        1
    } else {
        a.len() as u64
    };
    let n: u64 = if b.len() == 0 {
        1
    } else {
        b.len() as u64
    };
    less_mean(x, m, y, n)
}

proof fn lemma_ranked_with(notes: Seq<WorkingNote>, slots: Seq<Seq<usize>>, list: Seq<usize>, slot: usize)
    requires
        forall|k: int| 0 <= k < list.len() ==> (#[trigger] list[k]) < slots.len(),
        slot < slots.len(),
    ensures
        ranked_with(notes, slots, list, slot).len() == list.len() + 1,
        forall|k: int|
            0 <= k < list.len() + 1 ==> (#[trigger] ranked_with(notes, slots, list, slot)[k])
                < slots.len(),
    decreases list.len(),
{
    if !(list.len() == 0 || !is_lower(notes, slots[list.last() as int], slots[slot as int])) {
        lemma_ranked_with(notes, slots, list.drop_last(), slot);
        assert(list[list.len() - 1] < slots.len());
        let inner = ranked_with(notes, slots, list.drop_last(), slot);
        let all = ranked_with(notes, slots, list, slot);
        assert forall|k: int| 0 <= k < list.len() + 1 implies (#[trigger] all[k]) < slots.len() by {
            if k < inner.len() {
                assert(all[k] == inner[k]);
            } else {
                assert(all[k] == list[list.len() - 1]);
            }
        }
    }
}

/// The order in which parts are written.
pub(crate) fn order_slots(notes: &Vec<WorkingNote>, slots: &Vec<Vec<usize>>, layout: Layout) -> (sequence: Vec<usize>)
    requires
        are_slots(notes@, slot_lists(slots@)),
    ensures
        sequence@ == slot_order(notes@, slot_lists(slots@), layout),
        sequence.len() == slots.len(),
        forall|k: int| 0 <= k < sequence.len() ==> (#[trigger] sequence[k]) < slots.len(),
{
    let ghost all = slot_lists(slots@);
    let mut list: Vec<usize> = Vec::new();
    let mut i: usize = 0;
    if layout != Layout::Voices {
        while i < slots.len()
            invariant
                i <= slots.len(),
                list.len() == i,
                forall|k: int| 0 <= k < i ==> #[trigger] list[k] == k,
            decreases slots.len() - i,
        {
            list.push(i);
            i += 1;
        }
        proof {
            assert(list@ =~= slot_order(notes@, all, layout));
        }
        return list;
    }
    while i < slots.len()
        invariant
            i <= slots.len(),
            all == slot_lists(slots@),
            are_slots(notes@, all),
            list.len() == i,
            list@ == ranked(notes@, all, i as int),
            forall|k: int| 0 <= k < list.len() ==> (#[trigger] list[k]) < slots.len(),
        decreases slots.len() - i,
    {
        let ghost before = list@;
        let mut at: usize = list.len();
        proof {
            lemma_ranked_with(notes@, all, before, i);
            assert(before.take(at as int) =~= before);
            assert(ranked_with(notes@, all, before.take(at as int), i) + before.skip(at as int)
                =~= ranked_with(notes@, all, before, i));
        }
        let mut going: bool = true;
        while at > 0 && going
            invariant
                at <= list.len(),
                i < slots.len(),
                all == slot_lists(slots@),
                are_slots(notes@, all),
                list@ == before,
                forall|k: int| 0 <= k < list.len() ==> (#[trigger] list[k]) < slots.len(),
                ranked_with(notes@, all, before.take(at as int), i) + before.skip(at as int)
                    == ranked_with(notes@, all, before, i),
                !going ==> at > 0 && !is_lower(notes@, all[before[at - 1] as int], all[i as int]),
            decreases at, (if going {
                1int
            } else {
                0int
            }),
        {
            proof {
                assert(list[at - 1] < slots.len());
                assert(before.take(at as int).drop_last() =~= before.take(at - 1));
                assert(before.take(at as int).last() == before[at - 1]);
                assert forall|k: int|
                    0 <= k < slots[before[at - 1] as int].len() implies (#[trigger] slots[before[at
                    - 1] as int][k]) < notes.len() by {
                    assert(all[before[at - 1] as int][k] < notes.len());
                }
                assert forall|k: int| 0 <= k < slots[i as int].len() implies (
                #[trigger] slots[i as int][k]) < notes.len() by {
                    assert(all[i as int][k] < notes.len());
                }
            }
            if lower(notes, &slots[list[at - 1]], &slots[i]) {
                proof {
                    assert(ranked_with(notes@, all, before.take(at - 1), i).push(before[at - 1])
                        + before.skip(at as int) =~= ranked_with(
                        notes@,
                        all,
                        before.take(at - 1),
                        i,
                    ) + before.skip(at - 1));
                }
                at -= 1;
            } else {
                going = false;
            }
        }
        proof {
            if at > 0 {
                assert(before.take(at as int).last() == before[at - 1]);
            }
            assert(before.insert(at as int, i) =~= before.take(at as int).push(i) + before.skip(
                at as int,
            ));
        }
        list.insert(at, i);
        i += 1;
    }
    list
}

fn tone_notes(notes: &Vec<WorkingNote>, ids: &Vec<usize>, range: Option<VolumeRange>) -> (r: Vec<Note>)
    requires
        forall|k: int| 0 <= k < ids.len() ==> (#[trigger] ids[k]) < notes.len(),
        forall|i: int| 0 <= i < notes.len() ==> 0 <= (#[trigger] notes[i]).note.vel <= 15,
        range matches Some(x) ==> is_range(x),
    ensures
        r@ == part_notes(notes@, ids@, range),
{
    let mut r: Vec<Note> = Vec::new();
    let mut k: usize = 0;
    while k < ids.len()
        invariant
            k <= ids.len(),
            forall|k: int| 0 <= k < ids.len() ==> (#[trigger] ids[k]) < notes.len(),
            forall|i: int| 0 <= i < notes.len() ==> 0 <= (#[trigger] notes[i]).note.vel <= 15,
            range matches Some(x) ==> is_range(x),
            r.len() == k,
            forall|j: int| 0 <= j < k ==> #[trigger] r[j] == toned(notes@[ids@[j] as int].note, range),
        decreases ids.len() - k,
    {
        proof {
            assert(ids[k as int] < notes.len());
        }
        let note = notes[ids[k]].note;
        let new = match range {
            None => note,
            Some(x) => Note {
                on: note.on,
                off: note.off,
                pitch: note.pitch,
                vel: x.compress(note.vel),
                src: note.src,
            },
        };
        r.push(new);
        k += 1;
    }
    proof {
        assert(r@ =~= part_notes(notes@, ids@, range));
    }
    r
}

fn last_kept(notes: &Vec<WorkingNote>, kept: &Vec<usize>) -> (end: Tick)
    requires
        forall|k: int| 0 <= k < kept.len() ==> (#[trigger] kept[k]) < notes.len(),
    ensures
        end == end_of_kept(notes@, kept@, kept.len() as int),
{
    let mut end: Tick = 0;
    let mut k: usize = 0;
    while k < kept.len()
        invariant
            k <= kept.len(),
            forall|k: int| 0 <= k < kept.len() ==> (#[trigger] kept[k]) < notes.len(),
            end == end_of_kept(notes@, kept@, k as int),
        decreases kept.len() - k,
    {
        proof {
            assert(kept[k as int] < notes.len());
        }
        let off = notes[kept[k]].note.off;
        if k == 0 || off >= end {
            end = off;
        }
        k += 1;
    }
    end
}

proof fn lemma_part_texts_fail(w: Writing, track: int, from: int, to: int)
    requires
        0 <= from <= to,
        part_texts(w, track, from) is Err,
    ensures
        part_texts(w, track, to) == part_texts(w, track, from),
    decreases to - from,
{
    if from < to {
        lemma_part_texts_fail(w, track, from, to - 1);
    }
}

proof fn lemma_tracks_fail(w: Writing, prototype: Seq<crate::meta::Entry>, from: int, to: int)
    requires
        0 <= from <= to,
        written_tracks(w, prototype, from) is Err,
    ensures
        written_tracks(w, prototype, to) == written_tracks(w, prototype, from),
    decreases to - from,
{
    if from < to {
        lemma_tracks_fail(w, prototype, from, to - 1);
    }
}

/// Writes the parts of one track.
#[verifier::rlimit(40)]
fn write_track(
    notes: &Vec<WorkingNote>,
    slots: &Vec<Vec<usize>>,
    sequence: &Vec<usize>,
    tempos: &Vec<Tempo>,
    total: Tick,
    parts: usize,
    range: Option<VolumeRange>,
    track: usize,
    table: &LengthTable,
    Ghost(w): Ghost<Writing>,
) -> (r: Result<Vec<String>, EncodeError>)
    requires
        table.well_formed(),
        are_slots(notes@, slot_lists(slots@)),
        forall|i: int| 0 <= i < notes.len() ==> 0 <= (#[trigger] notes[i]).note.vel <= 15,
        range matches Some(x) ==> is_range(x),
        w == (Writing {
            notes: notes@,
            slots: slot_lists(slots@),
            sequence: sequence@,
            tempos: tempos@,
            total,
            parts: parts as int,
            range,
        }),
        track < 16,
        parts <= 3,
        track * parts + parts <= sequence.len(),
        forall|k: int| 0 <= k < sequence.len() ==> (#[trigger] sequence[k]) < slots.len(),
    ensures
        match r {
            Ok(texts) => part_texts(w, track as int, parts as int) == Ok::<_, EncodeError>(
                string_views(texts@),
            ),
            Err(e) => part_texts(w, track as int, parts as int) == Err::<Seq<Seq<char>>, _>(e),
        },
{
    let none: Vec<Tempo> = Vec::new();
    let mut texts: Vec<String> = Vec::new();
    let mut part: usize = 0;
    proof {
        assert(string_views(texts@) =~= Seq::<Seq<char>>::empty());
        assert(0 <= track * parts) by (nonlinear_arith)
            requires
                track >= 0,
                parts >= 0,
        ;
    }
    while part < parts
        invariant
            part <= parts <= 3,
            track < 16,
            table.well_formed(),
            none@ == Seq::<Tempo>::empty(),
            are_slots(notes@, slot_lists(slots@)),
            forall|i: int| 0 <= i < notes.len() ==> 0 <= (#[trigger] notes[i]).note.vel <= 15,
            range matches Some(x) ==> is_range(x),
            w == (Writing {
                notes: notes@,
                slots: slot_lists(slots@),
                sequence: sequence@,
                tempos: tempos@,
                total,
                parts: parts as int,
                range,
            }),
            0 <= track * parts,
            track * parts + parts <= sequence.len(),
            forall|k: int| 0 <= k < sequence.len() ==> (#[trigger] sequence[k]) < slots.len(),
            part_texts(w, track as int, part as int) == Ok::<_, EncodeError>(string_views(texts@)),
        decreases parts - part,
    {
        let slot = sequence[track * parts + part];
        proof {
            assert(sequence[track * parts + part] < slots.len());
            assert(slot_lists(slots@)[slot as int] == slots[slot as int]@);
            assert forall|k: int| 0 <= k < slots[slot as int].len() implies (
            #[trigger] slots[slot as int][k]) < notes.len() by {
                assert(slot_lists(slots@)[slot as int][k] < notes.len());
            }
        }
        let list = tone_notes(notes, &slots[slot], range);
        let own: &Vec<Tempo> = if part == 0 {
            tempos
        } else {
            &none
        };
        match emit_with(&list, own, total, table) {
            Err(error) => {
                let e = EncodeError::Part { track: track + 1, part: part + 1, error };
                proof {
                    assert(part_texts(w, track as int, part + 1) == Err::<Seq<Seq<char>>, _>(e));
                    lemma_part_texts_fail(w, track as int, part + 1, parts as int);
                }
                return Err(e);
            },
            Ok(text) => {
                let ghost before = string_views(texts@);
                texts.push(text);
                proof {
                    assert(string_views(texts@) =~= before.push(text@));
                }
            },
        }
        part += 1;
    }
    Ok(texts)
}

/// One track, read back from how its parts are written.
pub open spec fn written_track(w: Writing, prototype: Seq<crate::meta::Entry>, track: int) -> Result<
    TrackView,
    EncodeError,
> {
    match part_texts(w, track, w.parts) {
        Err(e) => Err(e),
        Ok(texts) => match track_of(
            track_mml(texts),
            renumbered(prototype, track),
            track as usize,
        ) {
            Err(fault) => Err(EncodeError::Track { track: (track + 1) as usize, fault }),
            Ok(one) => Ok(one),
        },
    }
}

fn make_track(
    notes: &Vec<WorkingNote>,
    slots: &Vec<Vec<usize>>,
    sequence: &Vec<usize>,
    tempos: &Vec<Tempo>,
    total: Tick,
    ensemble: &Ensemble,
    track: usize,
    table: &LengthTable,
    prototype: &Meta,
    Ghost(w): Ghost<Writing>,
) -> (r: Result<Track, EncodeError>)
    requires
        is_ensemble(*ensemble),
        table.well_formed(),
        are_slots(notes@, slot_lists(slots@)),
        forall|i: int| 0 <= i < notes.len() ==> 0 <= (#[trigger] notes[i]).note.vel <= 15,
        w == (Writing {
            notes: notes@,
            slots: slot_lists(slots@),
            sequence: sequence@,
            tempos: tempos@,
            total,
            parts: ensemble.parts as int,
            range: ensemble.volume_range,
        }),
        track < 16,
        track * ensemble.parts + ensemble.parts <= sequence.len(),
        forall|k: int| 0 <= k < sequence.len() ==> (#[trigger] sequence[k]) < slots.len(),
    ensures
        match r {
            Ok(one) => written_track(w, prototype@, track as int) == Ok::<_, EncodeError>(one@),
            Err(e) => written_track(w, prototype@, track as int) == Err::<TrackView, _>(e),
        },
{
    match write_track(
        notes,
        slots,
        sequence,
        tempos,
        total,
        ensemble.parts,
        ensemble.volume_range,
        track,
        table,
        Ghost(w),
    ) {
        Err(e) => Err(e),
        Ok(texts) => {
            let mut mml = chars_of("MML@");
            push_chars(&mut mml, &join_strings(&texts, ','));
            push_text(&mut mml, ";");
            match track_from_mml(string_of(&mml), renumber(prototype, track), track) {
                Err(fault) => Err(EncodeError::Track { track: track + 1, fault }),
                Ok(one) => Ok(one),
            }
        },
    }
}

/// Writes the notes of parts as a score, with what stands around the tracks of another, and
/// tells the order in which the parts were written.
#[verifier::rlimit(60)]
pub fn encode_slots(
    notes: &Vec<WorkingNote>,
    kept: &Vec<usize>,
    slots: &Vec<Vec<usize>>,
    score: &Score,
    ensemble: &Ensemble,
) -> (r: Result<(Score, Vec<usize>), EncodeError>)
    requires
        is_ensemble(*ensemble),
        slots.len() == ensemble.tracks * ensemble.parts,
        are_slots(notes@, slot_lists(slots@)),
        forall|k: int| 0 <= k < kept.len() ==> (#[trigger] kept[k]) < notes.len(),
        forall|i: int| 0 <= i < notes.len() ==> 0 <= (#[trigger] notes[i]).note.vel <= 15,
    ensures
        match r {
            Ok((out, sequence)) => {
                &&& encoded(notes@, kept@, slot_lists(slots@), score@, *ensemble) == Ok::<
                    _,
                    EncodeError,
                >(out@)
                &&& sequence@ == slot_order(notes@, slot_lists(slots@), ensemble.layout)
            },
            Err(e) => encoded(notes@, kept@, slot_lists(slots@), score@, *ensemble) == Err::<
                ScoreView,
                _,
            >(e),
        },
{
    let sequence = order_slots(notes, slots, ensemble.layout);
    let tempos = score.tempos();
    let total = last_kept(notes, kept);
    let ghost w = writing_of(notes@, kept@, slot_lists(slots@), score@, *ensemble);
    let table = LengthTable::new();
    let blank = Meta::new();
    let prototype: &Meta = if score.tracks.len() == 0 {
        &blank
    } else {
        &score.tracks[0].meta
    };
    let ghost entries = prototype_of(score@);
    let mut tracks: Vec<Track> = Vec::new();
    let mut track: usize = 0;
    proof {
        assert(prototype@ == entries);
        assert(track_views(tracks@) =~= Seq::<TrackView>::empty());
    }
    while track < ensemble.tracks
        invariant
            track <= ensemble.tracks,
            is_ensemble(*ensemble),
            slots.len() == ensemble.tracks * ensemble.parts,
            are_slots(notes@, slot_lists(slots@)),
            forall|i: int| 0 <= i < notes.len() ==> 0 <= (#[trigger] notes[i]).note.vel <= 15,
            table.well_formed(),
            sequence.len() == slots.len(),
            forall|k: int| 0 <= k < sequence.len() ==> (#[trigger] sequence[k]) < slots.len(),
            w == (Writing {
                notes: notes@,
                slots: slot_lists(slots@),
                sequence: sequence@,
                tempos: tempos@,
                total,
                parts: ensemble.parts as int,
                range: ensemble.volume_range,
            }),
            prototype@ == entries,
            entries == prototype_of(score@),
            w == writing_of(notes@, kept@, slot_lists(slots@), score@, *ensemble),
            written_tracks(w, entries, track as int) == Ok::<_, EncodeError>(track_views(tracks@)),
        decreases ensemble.tracks - track,
    {
        proof {
            let t = track as int;
            let p = ensemble.parts as int;
            let n = ensemble.tracks as int;
            assert(t * p + p <= n * p) by (nonlinear_arith)
                requires
                    t + 1 <= n,
                    p >= 0,
            ;
        }
        match make_track(
            notes,
            slots,
            &sequence,
            &tempos,
            total,
            ensemble,
            track,
            &table,
            prototype,
            Ghost(w),
        ) {
            Err(e) => {
                proof {
                    assert(written_tracks(w, entries, track + 1) == Err::<Seq<TrackView>, _>(e));
                    lemma_tracks_fail(w, entries, track + 1, ensemble.tracks as int);
                }
                return Err(e);
            },
            Ok(one) => {
                let ghost before = track_views(tracks@);
                tracks.push(one);
                proof {
                    assert(track_views(tracks@) =~= before.push(one@));
                }
            },
        }
        track += 1;
    }
    Ok((Score { head: copy_lines(&score.head), tracks, tail: copy_lines(&score.tail) }, sequence))
}

} // verus!
