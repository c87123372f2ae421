//! A score whose moments have moved, for mobile players.
use crate::adapt::{boundaries, compatible, graph_of, met, read_tick, score_is_compatible, section_after, signature_tick, under_signatures, MobileFault};
use crate::boundaries::{is_graph, is_valid, ordered, Graph};
use crate::frame::tempo_text;
use crate::lengths::LengthTable;
use crate::prepared::{keeps_notes, keeps_order, law_prepared};
use crate::resolve::{gives_up, law_nothing_to_move, law_settled, law_settled_order, resolve, settles, MoveFault};
use crate::score::{end_of, flat, last_end, part_views, push_notes, track_views, Note, Score, ScoreView, Tempo, Tick, Track, TrackView};
use crate::scroll::track_mml;
use crate::text::{ascii_chars, begins_with, chars_of, copy_chars, cut, find_char, has_prefix, join_strings, joined, number_text, push_chars, push_number, push_text, string_of, string_views};
use crate::writer::{emit_with, part_text, EmitError};
use std::collections::BTreeMap;
use vstd::prelude::*;

verus! {

/// Where a moment stands after the moving.
pub open spec fn moved(original: Seq<Tick>, mapped: Seq<Tick>, tick: Tick) -> Tick {
    if original.contains(tick) {
        mapped[original.index_of(tick)]
    } else {
        tick
    }
}

/// How many of the first moments have moved.
pub open spec fn moves(original: Seq<Tick>, mapped: Seq<Tick>, n: int) -> int
    decreases n,
{
    if n <= 0 {
        0
    } else {
        moves(original, mapped, n - 1) + (if original[n - 1] != mapped[n - 1] {
            1int
        } else {
            0int
        })
    }
}

pub open spec fn moved_note(original: Seq<Tick>, mapped: Seq<Tick>, note: Note) -> Note {
    Note {
        on: moved(original, mapped, note.on),
        off: moved(original, mapped, note.off),
        pitch: note.pitch,
        vel: note.vel,
        src: note.src,
    }
}

pub open spec fn moved_notes(original: Seq<Tick>, mapped: Seq<Tick>, notes: Seq<Note>) -> Seq<Note> {
    Seq::new(notes.len(), |i: int| moved_note(original, mapped, notes[i]))
}

pub open spec fn moved_parts(original: Seq<Tick>, mapped: Seq<Tick>, parts: Seq<Seq<Note>>) -> Seq<
    Seq<Note>,
> {
    Seq::new(parts.len(), |i: int| moved_notes(original, mapped, parts[i]))
}

pub open spec fn moved_tempos(original: Seq<Tick>, mapped: Seq<Tick>, tempos: Seq<Tempo>) -> Seq<
    Tempo,
> {
    Seq::new(tempos.len(), |i: int| (moved(original, mapped, tempos[i].0), tempos[i].1))
}

/// The texts of the first parts of a track; the first part carries the tempos.
pub open spec fn part_texts(parts: Seq<Seq<Note>>, tempos: Seq<Tempo>, total: int, n: int) -> Result<
    Seq<Seq<char>>,
    EmitError,
>
    decreases n,
{
    if n <= 0 {
        Ok(Seq::empty())
    } else {
        match part_texts(parts, tempos, total, n - 1) {
            Err(e) => Err(e),
            Ok(before) => {
                let own = if n == 1 {
                    tempos
                } else {
                    Seq::empty()
                };
                match part_text(parts[n - 1], own, total) {
                    Err(e) => Err(e),
                    Ok(bytes) => Ok(before.push(ascii_chars(bytes))),
                }
            },
        }
    }
}

/// A track whose moments have moved; its text is written anew where one of them has.
pub open spec fn moved_track(original: Seq<Tick>, mapped: Seq<Tick>, track: TrackView) -> Result<
    TrackView,
    EmitError,
> {
    let parts = moved_parts(original, mapped, track.parts);
    let tempos = moved_tempos(original, mapped, track.tempos);
    if parts == track.parts && tempos == track.tempos {
        Ok(track)
    } else {
        match part_texts(parts, tempos, last_end(flat(parts)) as int, parts.len() as int) {
            Err(e) => Err(e),
            Ok(texts) => Ok(TrackView { mml: track_mml(texts), meta: track.meta, parts, tempos }),
        }
    }
}

pub open spec fn moved_tracks(
    original: Seq<Tick>,
    mapped: Seq<Tick>,
    tracks: Seq<TrackView>,
    n: int,
) -> Result<Seq<TrackView>, EmitError>
    decreases n,
{
    if n <= 0 {
        Ok(Seq::empty())
    } else {
        match moved_tracks(original, mapped, tracks, n - 1) {
            Err(e) => Err(e),
            Ok(before) => match moved_track(original, mapped, tracks[n - 1]) {
                Err(e) => Err(e),
                Ok(track) => Ok(before.push(track)),
            },
        }
    }
}

/// The line of the tempos.
pub open spec fn tempos_line(tempos: Seq<Tempo>) -> Seq<char> {
    "tempo="@ + joined(tempos.map_values(|t: Tempo| tempo_text(t)), ',')
}

/// The lines before the tracks with the tempos where they have moved to.
pub open spec fn moved_head(head: Seq<Seq<char>>, tempos: Seq<Tempo>) -> Seq<Seq<char>> {
    Seq::new(
        head.len(),
        |i: int|
            if begins_with(head[i], "tempo="@) {
                tempos_line(tempos)
            } else {
                head[i]
            },
    )
}

/// A line behind the tracks; that of a time signature begins with where it has moved to.
pub open spec fn moved_line(
    original: Seq<Tick>,
    mapped: Seq<Tick>,
    tail: Seq<Seq<char>>,
    i: int,
) -> Seq<char> {
    match signature_tick(tail, i) {
        Some(tick) => if moved(original, mapped, tick) != tick {
            number_text(moved(original, mapped, tick) as int) + "="@ + cut(tail[i], '=')->Some_0.1
        } else {
            tail[i]
        },
        None => tail[i],
    }
}

pub open spec fn moved_tail(original: Seq<Tick>, mapped: Seq<Tick>, tail: Seq<Seq<char>>) -> Seq<
    Seq<char>,
> {
    Seq::new(tail.len(), |i: int| moved_line(original, mapped, tail, i))
}

/// A score whose moments have moved.
pub open spec fn moved_score(original: Seq<Tick>, mapped: Seq<Tick>, score: ScoreView) -> Result<
    ScoreView,
    EmitError,
> {
    match moved_tracks(original, mapped, score.tracks, score.tracks.len() as int) {
        Err(e) => Err(e),
        Ok(tracks) => Ok(
            ScoreView {
                head: moved_head(score.head, moved_tempos(original, mapped, score.all_tempos())),
                tracks,
                tail: moved_tail(original, mapped, score.tail),
            },
        ),
    }
}

/// A table of the moments that have moved.
spec fn is_table(table: BTreeMap<Tick, Tick>, original: Seq<Tick>, mapped: Seq<Tick>) -> bool {
    forall|t: Tick|
        #![trigger table@.contains_key(t)]
        #![trigger moved(original, mapped, t)]
        table@.contains_key(t) == (moved(original, mapped, t) != t) && (table@.contains_key(t)
            ==> table@[t] == moved(original, mapped, t))
}

fn make_table(original: &Vec<Tick>, mapped: &Vec<Tick>) -> (r: (BTreeMap<Tick, Tick>, usize))
    requires
        original@.no_duplicates(),
        original.len() == mapped.len(),
    ensures
        is_table(r.0, original@, mapped@),
        r.1 == moves(original@, mapped@, original.len() as int),
{
    broadcast use vstd::std_specs::btree::group_btree_axioms;

    let mut table: BTreeMap<Tick, Tick> = BTreeMap::new();
    let mut n: usize = 0;
    let mut i: usize = 0;
    while i < original.len()
        invariant
            i <= original.len() == mapped.len(),
            original@.no_duplicates(),
            n <= i,
            n == moves(original@, mapped@, i as int),
            forall|t: Tick| #[trigger]
                table@.contains_key(t) ==> exists|k: int|
                    0 <= k < i && #[trigger] original[k] == t && mapped[k] != t && table@[t]
                        == mapped[k],
            forall|k: int|
                0 <= k < i && mapped[k] != original[k] ==> table@.contains_key(
                    #[trigger] original[k],
                ),
        decreases original.len() - i,
    {
        let ghost before = table@;
        if original[i] != mapped[i] {
            table.insert(original[i], mapped[i]);
            n += 1;
            proof {
                assert forall|t: Tick| #[trigger] table@.contains_key(t) implies exists|k: int|
                    0 <= k < i + 1 && #[trigger] original[k] == t && mapped[k] != t && table@[t]
                        == mapped[k] by {
                    if t == original[i as int] {
                        assert(original[i as int] == t);
                    } else {
                        assert(before.contains_key(t));
                        let k = choose|k: int|
                            0 <= k < i && #[trigger] original[k] == t && mapped[k] != t && before[t]
                                == mapped[k];
                        assert(original[k] == t);
                    }
                }
            }
        }
        i += 1;
    }
    proof {
        assert forall|t: Tick|
            #![trigger table@.contains_key(t)]
            #![trigger moved(original@, mapped@, t)]
            table@.contains_key(t) == (moved(original@, mapped@, t) != t) && (table@.contains_key(t)
                ==> table@[t] == moved(original@, mapped@, t)) by {
            if table@.contains_key(t) {
                let k = choose|k: int|
                    0 <= k < i && #[trigger] original[k] == t && mapped[k] != t && table@[t]
                        == mapped[k];
                assert(original@.contains(t));
                assert(original@[k] == t);
                assert(original@.index_of(t) == k);
            }
            if original@.contains(t) {
                let k = original@.index_of(t);
                assert(original@[k] == t);
                if mapped[k] != t {
                    assert(table@.contains_key(original[k]));
                }
            }
        }
    }
    (table, n)
}

fn look_up(table: &BTreeMap<Tick, Tick>, tick: Tick, Ghost(original): Ghost<Seq<Tick>>, Ghost(mapped): Ghost<Seq<Tick>>) -> (r: Tick)
    requires
        is_table(*table, original, mapped),
    ensures
        r == moved(original, mapped, tick),
{
    broadcast use vstd::std_specs::btree::group_btree_axioms;

    match table.get(&tick) {
        Some(to) => *to,
        None => {
            proof {
                assert(!table@.contains_key(tick));
            }
            tick
        },
    }
}

/// Moves the moments of notes; tells whether one of them has moved.
fn move_notes(notes: &Vec<Note>, table: &BTreeMap<Tick, Tick>, Ghost(original): Ghost<Seq<Tick>>, Ghost(mapped): Ghost<Seq<Tick>>) -> (r: (Vec<Note>, bool))
    requires
        is_table(*table, original, mapped),
    ensures
        r.0@ == moved_notes(original, mapped, notes@),
        r.1 == (r.0@ != notes@),
{
    let mut out: Vec<Note> = Vec::new();
    let mut changed: bool = false;
    let mut i: usize = 0;
    while i < notes.len()
        invariant
            i <= notes.len(),
            is_table(*table, original, mapped),
            out.len() == i,
            forall|k: int| 0 <= k < i ==> #[trigger] out[k] == moved_note(original, mapped, notes[k]),
            changed == (exists|k: int| 0 <= k < i && #[trigger] out[k] != notes[k]),
        decreases notes.len() - i,
    {
        let note = notes[i];
        let on = look_up(table, note.on, Ghost(original), Ghost(mapped));
        let off = look_up(table, note.off, Ghost(original), Ghost(mapped));
        let ghost before = out@;
        let ghost was = changed;
        changed = changed || on != note.on || off != note.off;
        let new = Note { on, off, pitch: note.pitch, vel: note.vel, src: note.src };
        out.push(new);
        proof {
            assert(out@[i as int] == new);
            if was {
                let k = choose|k: int| 0 <= k < i && #[trigger] before[k] != notes[k];
                assert(out@[k] != notes[k]);
            }
            assert((new != note) == (on != note.on || off != note.off));
            if exists|k: int| 0 <= k < i + 1 && #[trigger] out[k] != notes[k] {
                let k = choose|k: int| 0 <= k < i + 1 && #[trigger] out[k] != notes[k];
                if k < i {
                    assert(before[k] != notes[k]);
                }
            }
        }
        i += 1;
    }
    proof {
        assert(out@ =~= moved_notes(original, mapped, notes@));
        if !changed {
            assert(out@ =~= notes@) by {
                assert forall|k: int| 0 <= k < out@.len() implies out@[k] == notes@[k] by {
                    assert(out[k] == notes[k]);
                }
            }
        } else {
            let k = choose|k: int| 0 <= k < i && #[trigger] out[k] != notes[k];
            assert(out@[k] != notes@[k]);
        }
    }
    (out, changed)
}

fn move_parts(parts: &Vec<Vec<Note>>, table: &BTreeMap<Tick, Tick>, Ghost(original): Ghost<Seq<Tick>>, Ghost(mapped): Ghost<Seq<Tick>>) -> (r: (Vec<Vec<Note>>, bool))
    requires
        is_table(*table, original, mapped),
    ensures
        part_views(r.0@) == moved_parts(original, mapped, part_views(parts@)),
        r.1 == (part_views(r.0@) != part_views(parts@)),
{
    let mut out: Vec<Vec<Note>> = Vec::new();
    let mut changed: bool = false;
    let mut i: usize = 0;
    while i < parts.len()
        invariant
            i <= parts.len(),
            is_table(*table, original, mapped),
            out.len() == i,
            forall|k: int|
                0 <= k < i ==> (#[trigger] out[k])@ == moved_notes(original, mapped, parts[k]@),
            changed == (exists|k: int| 0 <= k < i && (#[trigger] out[k])@ != parts[k]@),
        decreases parts.len() - i,
    {
        let (notes, differs) = move_notes(&parts[i], table, Ghost(original), Ghost(mapped));
        let ghost before = out@;
        let ghost was = changed;
        changed = changed || differs;
        out.push(notes);
        proof {
            assert(out@[i as int]@ == notes@);
            if was {
                let k = choose|k: int| 0 <= k < i && (#[trigger] before[k])@ != parts[k]@;
                assert(out@[k]@ != parts[k]@);
            }
            if exists|k: int| 0 <= k < i + 1 && (#[trigger] out[k])@ != parts[k]@ {
                let k = choose|k: int| 0 <= k < i + 1 && (#[trigger] out[k])@ != parts[k]@;
                if k < i {
                    assert(before[k]@ != parts[k]@);
                }
            }
        }
        i += 1;
    }
    proof {
        let new = part_views(out@);
        let all = part_views(parts@);
        assert(new =~= moved_parts(original, mapped, all));
        if !changed {
            assert(new =~= all) by {
                assert forall|k: int| 0 <= k < new.len() implies new[k] == all[k] by {
                    assert(out[k]@ == parts[k]@);
                }
            }
        } else {
            let k = choose|k: int| 0 <= k < i && (#[trigger] out[k])@ != parts[k]@;
            assert(new[k] != all[k]);
        }
    }
    (out, changed)
}

fn move_tempos(tempos: &Vec<Tempo>, table: &BTreeMap<Tick, Tick>, Ghost(original): Ghost<Seq<Tick>>, Ghost(mapped): Ghost<Seq<Tick>>) -> (r: (Vec<Tempo>, bool))
    requires
        is_table(*table, original, mapped),
    ensures
        r.0@ == moved_tempos(original, mapped, tempos@),
        r.1 == (r.0@ != tempos@),
{
    let mut out: Vec<Tempo> = Vec::new();
    let mut changed: bool = false;
    let mut i: usize = 0;
    while i < tempos.len()
        invariant
            i <= tempos.len(),
            is_table(*table, original, mapped),
            out.len() == i,
            forall|k: int|
                0 <= k < i ==> #[trigger] out[k] == (
                    moved(original, mapped, tempos[k].0),
                    tempos[k].1,
                ),
            changed == (exists|k: int| 0 <= k < i && #[trigger] out[k] != tempos[k]),
        decreases tempos.len() - i,
    {
        let to = look_up(table, tempos[i].0, Ghost(original), Ghost(mapped));
        let ghost before = out@;
        let ghost was = changed;
        changed = changed || to != tempos[i].0;
        let new: Tempo = (to, tempos[i].1);
        out.push(new);
        proof {
            assert(out@[i as int] == new);
            if was {
                let k = choose|k: int| 0 <= k < i && #[trigger] before[k] != tempos[k];
                assert(out@[k] != tempos[k]);
            }
            if exists|k: int| 0 <= k < i + 1 && #[trigger] out[k] != tempos[k] {
                let k = choose|k: int| 0 <= k < i + 1 && #[trigger] out[k] != tempos[k];
                if k < i {
                    assert(before[k] != tempos[k]);
                }
            }
        }
        i += 1;
    }
    proof {
        assert(out@ =~= moved_tempos(original, mapped, tempos@));
        if !changed {
            assert(out@ =~= tempos@) by {
                assert forall|k: int| 0 <= k < out@.len() implies out@[k] == tempos@[k] by {
                    assert(out[k] == tempos[k]);
                }
            }
        } else {
            let k = choose|k: int| 0 <= k < i && #[trigger] out[k] != tempos[k];
            assert(out@[k] != tempos@[k]);
        }
    }
    (out, changed)
}

proof fn lemma_part_texts_fail(parts: Seq<Seq<Note>>, tempos: Seq<Tempo>, total: int, from: int, to: int)
    requires
        0 <= from <= to,
        part_texts(parts, tempos, total, from) is Err,
    ensures
        part_texts(parts, tempos, total, to) == part_texts(parts, tempos, total, from),
    decreases to - from,
{
    if from < to {
        lemma_part_texts_fail(parts, tempos, total, from, to - 1);
    }
}

proof fn lemma_moved_tracks_fail(original: Seq<Tick>, mapped: Seq<Tick>, tracks: Seq<TrackView>, from: int, to: int)
    requires
        0 <= from <= to,
        moved_tracks(original, mapped, tracks, from) is Err,
    ensures
        moved_tracks(original, mapped, tracks, to) == moved_tracks(original, mapped, tracks, from),
    decreases to - from,
{
    if from < to {
        lemma_moved_tracks_fail(original, mapped, tracks, from, to - 1);
    }
}

/// Writes the parts of a track.
fn write_parts(parts: &Vec<Vec<Note>>, tempos: &Vec<Tempo>, total: Tick, lengths: &LengthTable) -> (r: Result<
    Vec<String>,
    EmitError,
>)
    requires
        lengths.well_formed(),
    ensures
        match r {
            Ok(texts) => part_texts(part_views(parts@), tempos@, total as int, parts.len() as int)
                == Ok::<_, EmitError>(string_views(texts@)),
            Err(e) => part_texts(part_views(parts@), tempos@, total as int, parts.len() as int)
                == Err::<Seq<Seq<char>>, _>(e),
        },
{
    let ghost all = part_views(parts@);
    let none: Vec<Tempo> = Vec::new();
    let mut texts: Vec<String> = Vec::new();
    let mut i: usize = 0;
    proof {
        assert(string_views(texts@) =~= Seq::<Seq<char>>::empty());
    }
    while i < parts.len()
        invariant
            i <= parts.len(),
            all == part_views(parts@),
            none@ == Seq::<Tempo>::empty(),
            lengths.well_formed(),
            part_texts(all, tempos@, total as int, i as int) == Ok::<_, EmitError>(
                string_views(texts@),
            ),
        decreases parts.len() - i,
    {
        let own: &Vec<Tempo> = if i == 0 {
            tempos
        } else {
            &none
        };
        match emit_with(&parts[i], own, total, lengths) {
            Err(e) => {
                proof {
                    lemma_part_texts_fail(all, tempos@, total as int, i + 1, all.len() as int);
                }
                return Err(e);
            },
            Ok(text) => {
                let ghost before = string_views(texts@);
                texts.push(text);
                proof {
                    assert(string_views(texts@) =~= before.push(text@));
                }
            },
        }
        i += 1;
    }
    Ok(texts)
}

/// The notes of all parts, one part after the other.
fn all_of(parts: &Vec<Vec<Note>>) -> (notes: Vec<Note>)
    ensures
        notes@ == flat(part_views(parts@)),
{
    let ghost all = part_views(parts@);
    let mut notes: Vec<Note> = Vec::new();
    let mut i: usize = 0;
    proof {
        assert(all.take(0) =~= Seq::<Seq<Note>>::empty());
    }
    while i < parts.len()
        invariant
            i <= parts.len(),
            all == part_views(parts@),
            notes@ == flat(all.take(i as int)),
        decreases parts.len() - i,
    {
        push_notes(&mut notes, &parts[i]);
        i += 1;
        proof {
            assert(all.take(i as int).drop_last() =~= all.take(i - 1));
        }
    }
    proof {
        assert(all.take(i as int) =~= all);
    }
    notes
}

fn move_track(track: &Track, table: &BTreeMap<Tick, Tick>, lengths: &LengthTable, Ghost(original): Ghost<Seq<Tick>>, Ghost(mapped): Ghost<Seq<Tick>>) -> (r: Result<Track, EmitError>)
    requires
        is_table(*table, original, mapped),
        lengths.well_formed(),
    ensures
        match r {
            Ok(new) => moved_track(original, mapped, track@) == Ok::<_, EmitError>(new@),
            Err(e) => moved_track(original, mapped, track@) == Err::<TrackView, _>(e),
        },
{
    let (parts, notes_changed) = move_parts(&track.parts, table, Ghost(original), Ghost(mapped));
    let (tempos, tempos_changed) = move_tempos(&track.tempos, table, Ghost(original), Ghost(mapped));
    if !notes_changed && !tempos_changed {
        return Ok(track.clone());
    }
    let total = end_of(&all_of(&parts));
    match write_parts(&parts, &tempos, total, lengths) {
        Err(e) => Err(e),
        Ok(texts) => {
            let mut mml = chars_of("MML@");
            push_chars(&mut mml, &join_strings(&texts, ','));
            push_text(&mut mml, ";");
            Ok(Track { mml: string_of(&mml), meta: track.meta.copy(), parts, tempos })
        },
    }
}

fn move_head(head: &Vec<String>, tempos: &Vec<Tempo>) -> (r: Vec<String>)
    ensures
        string_views(r@) == moved_head(string_views(head@), tempos@),
{
    let ghost f = |t: Tempo| tempo_text(t);
    let mut texts: Vec<String> = Vec::new();
    let mut i: usize = 0;
    proof {
        assert(string_views(texts@) =~= tempos@.take(0).map_values(f));
    }
    while i < tempos.len()
        invariant
            i <= tempos.len(),
            f == (|t: Tempo| tempo_text(t)),
            string_views(texts@) == tempos@.take(i as int).map_values(f),
        decreases tempos.len() - i,
    {
        let mut text: Vec<char> = Vec::new();
        push_number(&mut text, tempos[i].0);
        text.push('T');
        push_number(&mut text, tempos[i].1 as i64);
        let ghost before = string_views(texts@);
        proof {
            assert(text@ =~= tempo_text(tempos@[i as int]));
        }
        texts.push(string_of(&text));
        proof {
            assert(string_views(texts@) =~= before.push(text@));
            assert(string_views(texts@) =~= tempos@.take(i + 1).map_values(f));
        }
        i += 1;
    }
    proof {
        assert(tempos@.take(i as int) =~= tempos@);
    }
    let mut line = chars_of("tempo=");
    push_chars(&mut line, &join_strings(&texts, ','));
    let word = chars_of("tempo=");
    let ghost all = moved_head(string_views(head@), tempos@);
    let mut out: Vec<String> = Vec::new();
    let mut i: usize = 0;
    proof {
        assert(string_views(out@) =~= all.take(0));
    }
    while i < head.len()
        invariant
            i <= head.len(),
            word@ == "tempo="@,
            line@ == tempos_line(tempos@),
            all == moved_head(string_views(head@), tempos@),
            out.len() == i,
            string_views(out@) == all.take(i as int),
        decreases head.len() - i,
    {
        let old_line = chars_of(head[i].as_str());
        let ghost before = string_views(out@);
        if has_prefix(&old_line, &word) {
            out.push(string_of(&line));
        } else {
            out.push(string_of(&old_line));
        }
        proof {
            assert(out@[i as int]@ == all[i as int]);
            assert(string_views(out@) =~= before.push(all[i as int]));
            assert(string_views(out@) =~= all.take(i + 1));
        }
        i += 1;
    }
    proof {
        assert(all.take(i as int) =~= all);
    }
    out
}

fn move_tail(tail: &Vec<String>, table: &BTreeMap<Tick, Tick>, Ghost(original): Ghost<Seq<Tick>>, Ghost(mapped): Ghost<Seq<Tick>>) -> (r: Vec<String>)
    requires
        is_table(*table, original, mapped),
    ensures
        string_views(r@) == moved_tail(original, mapped, string_views(tail@)),
{
    let ghost lines = string_views(tail@);
    let ghost all = moved_tail(original, mapped, lines);
    let mut out: Vec<String> = Vec::new();
    let mut among: bool = false;
    let mut i: usize = 0;
    proof {
        assert(string_views(out@) =~= all.take(0));
    }
    while i < tail.len()
        invariant
            i <= tail.len(),
            is_table(*table, original, mapped),
            lines == string_views(tail@),
            all == moved_tail(original, mapped, lines),
            among == under_signatures(lines, i as int),
            out.len() == i,
            string_views(out@) == all.take(i as int),
        decreases tail.len() - i,
    {
        let line = chars_of(tail[i].as_str());
        let ghost before = string_views(out@);
        proof {
            assert(lines[i as int] == line@);
        }
        let section = line.len() > 0 && line[0] == '[';
        let mut new: Vec<char> = Vec::new();
        let mut rewritten: bool = false;
        if !section && among {
            match read_tick(&line) {
                Some(tick) => {
                    let to = look_up(table, tick, Ghost(original), Ghost(mapped));
                    if to != tick {
                        rewritten = true;
                        push_number(&mut new, to);
                        push_text(&mut new, "=");
                        let at = find_char(&line, '=', 0);
                        proof {
                            crate::text::lemma_index_of(line@, '=', 0);
                        }
                        push_chars(&mut new, &copy_chars(&line, at + 1, line.len()));
                        proof {
                            assert(line@.subrange(at + 1, line@.len() as int) =~= line@.skip(
                                at + 1,
                            ));
                            assert(new@ =~= all[i as int]);
                        }
                    }
                },
                None => {},
            }
        }
        if rewritten {
            out.push(string_of(&new));
        } else {
            out.push(string_of(&line));
        }
        proof {
            assert(out@[i as int]@ == all[i as int]);
            assert(string_views(out@) =~= before.push(all[i as int]));
            assert(string_views(out@) =~= all.take(i + 1));
        }
        among = section_after(&line, among);
        i += 1;
    }
    proof {
        assert(all.take(i as int) =~= all);
    }
    out
}

/// Moves the moments of a score.
fn move_score(score: &Score, table: &BTreeMap<Tick, Tick>, Ghost(original): Ghost<Seq<Tick>>, Ghost(mapped): Ghost<Seq<Tick>>) -> (r: Result<Score, EmitError>)
    requires
        is_table(*table, original, mapped),
    ensures
        match r {
            Ok(new) => moved_score(original, mapped, score@) == Ok::<_, EmitError>(new@),
            Err(e) => moved_score(original, mapped, score@) == Err::<ScoreView, _>(e),
        },
{
    let lengths = LengthTable::new();
    let truth = score.tempos();
    let (tempos, _) = move_tempos(&truth, table, Ghost(original), Ghost(mapped));
    let head = move_head(&score.head, &tempos);
    let tail = move_tail(&score.tail, table, Ghost(original), Ghost(mapped));
    let ghost all = score@.tracks;
    let mut tracks: Vec<Track> = Vec::new();
    let mut i: usize = 0;
    proof {
        assert(track_views(tracks@) =~= Seq::<TrackView>::empty());
    }
    while i < score.tracks.len()
        invariant
            i <= score.tracks.len(),
            all == score@.tracks,
            is_table(*table, original, mapped),
            lengths.well_formed(),
            moved_tracks(original, mapped, all, i as int) == Ok::<_, EmitError>(
                track_views(tracks@),
            ),
        decreases score.tracks.len() - i,
    {
        match move_track(&score.tracks[i], table, &lengths, Ghost(original), Ghost(mapped)) {
            Err(e) => {
                proof {
                    lemma_moved_tracks_fail(original, mapped, all, i + 1, all.len() as int);
                }
                return Err(e);
            },
            Ok(track) => {
                let ghost before = track_views(tracks@);
                tracks.push(track);
                proof {
                    assert(track_views(tracks@) =~= before.push(track@));
                }
            },
        }
        i += 1;
    }
    Ok(Score { head, tracks, tail })
}

/// Whether a score and a number are what comes out when the moments of a score settle.
pub open spec fn is_prepared(score: ScoreView, g: Graph, mapped: Seq<Tick>, out: ScoreView, n: int) -> bool {
    &&& settles(g, mapped)
    &&& n == moves(g.original, mapped, g.original.len() as int)
    &&& if n == 0 {
        out == score
    } else {
        moved_score(g.original, mapped, score) == Ok::<_, EmitError>(out)
    }
}

/// Whether the moments of a score settle, but a part cannot be written then.
pub open spec fn fails_to_write(score: ScoreView, g: Graph, mapped: Seq<Tick>, e: EmitError) -> bool {
    settles(g, mapped) && moved_score(g.original, mapped, score) == Err::<ScoreView, _>(e)
}

/// Whether the moments of a score settle, but mobile players could not read what comes out.
pub open spec fn fails_to_read(score: ScoreView, g: Graph, mapped: Seq<Tick>) -> bool {
    settles(g, mapped) && (moved_score(g.original, mapped, score) matches Ok(out) && !compatible(out))
}

/// Whether a score comes to another one in which a number of moments has moved, and mobile
/// players can read that one.
pub open spec fn comes_to(score: ScoreView, out: ScoreView, n: int) -> bool {
    &&& graph_of(score) is Ok
    &&& is_graph(met(score)->Ok_0)
    &&& is_graph(graph_of(score)->Ok_0)
    &&& graph_of(score)->Ok_0.spans.len() <= usize::MAX
    &&& exists|mapped: Seq<Tick>| #[trigger]
        is_prepared(score, graph_of(score)->Ok_0, mapped, out, n)
    &&& compatible(out)
}

/// Whether moving the moments of a score fails.
pub open spec fn fails(score: ScoreView, g: Graph, e: MobileFault) -> bool {
    match e {
        MobileFault::Moving { fault } => gives_up(g, fault),
        MobileFault::Emit { error } => exists|mapped: Seq<Tick>| #[trigger]
            fails_to_write(score, g, mapped, error),
        MobileFault::Unverified => exists|mapped: Seq<Tick>| #[trigger]
            fails_to_read(score, g, mapped),
        _ => false,
    }
}

proof fn lemma_no_moves(original: Seq<Tick>, mapped: Seq<Tick>, n: int)
    requires
        0 <= n <= original.len(),
        original.len() == mapped.len(),
    ensures
        0 <= moves(original, mapped, n) <= n,
        moves(original, mapped, n) == 0 ==> original.take(n) == mapped.take(n),
        original == mapped ==> moves(original, mapped, n) == 0,
    decreases n,
{
    if n > 0 {
        lemma_no_moves(original, mapped, n - 1);
        if moves(original, mapped, n) == 0 {
            assert(original.take(n) =~= original.take(n - 1).push(original[n - 1]));
            assert(mapped.take(n) =~= mapped.take(n - 1).push(mapped[n - 1]));
        }
    } else {
        assert(original.take(n) =~= mapped.take(n));
    }
}

/// Moments settle where they are exactly where mobile players can read the score.
pub(crate) proof fn lemma_stays(score: ScoreView, g: Graph, mapped: Seq<Tick>)
    requires
        graph_of(score) == Ok::<_, MobileFault>(g),
        is_graph(g),
        g.spans.len() <= usize::MAX,
    ensures
        compatible(score) ==> forall|fault: MoveFault| !#[trigger] gives_up(g, fault),
        settles(g, mapped) ==> mapped.len() == g.original.len(),
        settles(g, mapped) ==> compatible(score) == (moves(
            g.original,
            mapped,
            g.original.len() as int,
        ) == 0),
{
    let n = g.original.len() as int;
    if compatible(score) {
        let all = graph_of(score)->Ok_0;
        assert forall|i: int| 0 <= i < g.spans.len() implies is_valid(
            #[trigger] g.spans[i],
            g.original,
        ) by {
            assert(is_valid(all.spans[i], all.original));
        }
        law_nothing_to_move(g, mapped);
    }
    if settles(g, mapped) {
        law_settled(g, mapped, 0);
        lemma_no_moves(g.original, mapped, n);
        assert(g.original.take(n) =~= g.original);
        assert(mapped.take(n) =~= mapped);
        if moves(g.original, mapped, n) == 0 {
            assert forall|i: int| 0 <= i < g.spans.len() implies is_valid(
                #[trigger] g.spans[i],
                g.original,
            ) by {
                law_settled(g, mapped, i);
            }
        }
    }
}

/// Makes a score one that mobile players can read, and counts the moments that had to
/// move. One that they can read stays as it is.
#[verifier::rlimit(40)]
pub fn prepare_score(score: &Score) -> (r: Result<(Score, usize), MobileFault>)
    ensures
        match r {
            Ok((out, n)) => {
                &&& comes_to(score@, out@, n as int)
                &&& keeps_notes(score@.notes(), out@.notes())
                &&& keeps_order(score@.notes(), out@.notes())
                &&& (n == 0) == compatible(score@)
            },
            Err(e) => graph_of(score@) == Err::<Graph, _>(e) || (graph_of(score@) is Ok && fails(
                score@,
                graph_of(score@)->Ok_0,
                e,
            )),
        },
        compatible(score@) ==> (r matches Ok((out, n)) && out@ == score@ && n == 0),
{
    let (original, spans) = match boundaries(score) {
        Err(e) => return Err(e),
        Ok(found) => found,
    };
    let ghost g = Graph { original: original@, spans: spans@ };
    proof {
        assert(spans.len() <= usize::MAX);
        lemma_stays(score@, g, g.original);
    }
    let mapped = match resolve(&original, &spans) {
        Err(fault) => return Err(MobileFault::Moving { fault }),
        Ok(mapped) => mapped,
    };
    proof {
        lemma_stays(score@, g, mapped@);
    }
    let (table, n) = make_table(&original, &mapped);
    if n == 0 {
        let out = score.clone();
        proof {
            assert(moves(g.original, mapped@, g.original.len() as int) == 0);
            assert(compatible(score@));
            assert(out@ == score@);
            assert(is_prepared(score@, g, mapped@, out@, 0));
            assert(graph_of(score@)->Ok_0 == g);
            assert(comes_to(score@, out@, 0));
            law_prepared(score@, out@, 0);
        }
        return Ok((out, 0));
    }
    match move_score(score, &table, Ghost(original@), Ghost(mapped@)) {
        Err(error) => {
            proof {
                assert(fails_to_write(score@, g, mapped@, error));
            }
            Err(MobileFault::Emit { error })
        },
        Ok(out) => {
            if !score_is_compatible(&out) {
                proof {
                    assert(fails_to_read(score@, g, mapped@));
                }
                return Err(MobileFault::Unverified);
            }
            proof {
                assert(is_prepared(score@, g, mapped@, out@, n as int));
                assert(comes_to(score@, out@, n as int));
                law_prepared(score@, out@, n as int);
            }
            Ok((out, n))
        },
    }
}

/// No moment of a score moves by more than three ticks, and none overtakes another.
pub proof fn law_moments_stay_close(g: Graph, mapped: Seq<Tick>, s: Tick, t: Tick)
    requires
        is_graph(g),
        is_graph(ordered(g)),
        ordered(g).spans.len() <= usize::MAX,
        settles(ordered(g), mapped),
    ensures
        -3 <= moved(g.original, mapped, s) - s <= 3,
        g.original.contains(s) && g.original.contains(t) && s <= t ==> moved(g.original, mapped, s)
            <= moved(g.original, mapped, t),
{
    if g.original.contains(s) {
        let i = g.original.index_of(s);
        assert(g.original[i] == s);
        law_settled(ordered(g), mapped, i);
        if g.original.contains(t) && s <= t {
            let j = g.original.index_of(t);
            assert(g.original[j] == t);
            law_settled_order(g, mapped, i, j);
        }
    }
}

/// Moving keeps every track, part and note, with its pitch and volume.
pub proof fn law_notes_are_kept(original: Seq<Tick>, mapped: Seq<Tick>, tracks: Seq<TrackView>, n: int, i: int)
    requires
        moved_tracks(original, mapped, tracks, n) is Ok,
        0 <= i < n <= tracks.len(),
    ensures
        moved_tracks(original, mapped, tracks, n)->Ok_0.len() == n,
        moved_tracks(original, mapped, tracks, n)->Ok_0[i].parts == moved_parts(
            original,
            mapped,
            tracks[i].parts,
        ),
        moved_tracks(original, mapped, tracks, n)->Ok_0[i].meta == tracks[i].meta,
    decreases n,
{
    lemma_moved_length(original, mapped, tracks, n - 1);
    if i < n - 1 {
        law_notes_are_kept(original, mapped, tracks, n - 1, i);
    }
}

proof fn lemma_moved_length(original: Seq<Tick>, mapped: Seq<Tick>, tracks: Seq<TrackView>, n: int)
    requires
        moved_tracks(original, mapped, tracks, n) is Ok,
        0 <= n <= tracks.len(),
    ensures
        moved_tracks(original, mapped, tracks, n)->Ok_0.len() == n,
    decreases n,
{
    if n > 0 {
        lemma_moved_length(original, mapped, tracks, n - 1);
    }
}

} // verus!
