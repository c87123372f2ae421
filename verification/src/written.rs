//! What an arranged score holds.
use crate::encode::{encoded, is_ensemble, part_notes, part_texts, prototype_of, slot_order, writing_of, written_track, written_tracks, Ensemble, Writing};
use crate::fold::WorkingNote;
use crate::lossless::{law_track_reads_back, tempos_together, written_texts, WrittenPart};
use crate::meta::Entry;
use crate::roundtrip::relocated;
use crate::score::{by_onset, by_tick, with_all, ScoreView};
use crate::text::ascii_chars;
use crate::writer::part_text;
use vstd::prelude::*;

verus! {

/// The parts of a track as they are written; the first carries the tempos.
pub open spec fn track_parts(w: Writing, track: int) -> Seq<WrittenPart> {
    Seq::new(
        w.parts as nat,
        |p: int|
            WrittenPart {
                notes: part_notes(
                    w.notes,
                    w.slots[w.sequence[track * w.parts + p] as int],
                    w.range,
                ),
                tempos: if p == 0 {
                    w.tempos
                } else {
                    Seq::empty()
                },
                total: w.total as int,
            },
    )
}

proof fn lemma_part_texts(w: Writing, track: int, n: int)
    requires
        0 <= n <= w.parts,
        part_texts(w, track, n) is Ok,
    ensures
        part_texts(w, track, n)->Ok_0 == written_texts(track_parts(w, track).take(n)),
        forall|i: int|
            0 <= i < n ==> part_text(
                (#[trigger] track_parts(w, track)[i]).notes,
                track_parts(w, track)[i].tempos,
                track_parts(w, track)[i].total,
            ) is Ok,
    decreases n,
{
    let parts = track_parts(w, track);
    if n == 0 {
        assert(written_texts(parts.take(0)) =~= Seq::<Seq<char>>::empty());
    } else {
        lemma_part_texts(w, track, n - 1);
        let p = parts[n - 1];
        let before = part_texts(w, track, n - 1)->Ok_0;
        let text = ascii_chars(part_text(p.notes, p.tempos, p.total)->Ok_0);
        assert(part_text(p.notes, p.tempos, p.total) is Ok);
        assert(part_texts(w, track, n)->Ok_0 == before.push(text));
        assert(before.push(text) =~= written_texts(parts.take(n))) by {
            assert(parts.take(n) =~= parts.take(n - 1).push(p));
        }
        assert forall|i: int| 0 <= i < n implies part_text(
            (#[trigger] parts[i]).notes,
            parts[i].tempos,
            parts[i].total,
        ) is Ok by {
        }
    }
}

proof fn lemma_written_tracks(w: Writing, prototype: Seq<Entry>, n: int, t: int)
    requires
        0 <= t < n,
        written_tracks(w, prototype, n) is Ok,
    ensures
        written_tracks(w, prototype, n)->Ok_0.len() == n,
        written_track(w, prototype, t) is Ok,
        written_tracks(w, prototype, n)->Ok_0[t] == written_track(w, prototype, t)->Ok_0,
    decreases n,
{
    if n > 1 && t < n - 1 {
        lemma_written_tracks(w, prototype, n - 1, t);
    } else if n > 1 {
        lemma_written_tracks(w, prototype, n - 1, t - 1);
    }
}

/// The score that an arrangement is written as holds, part by part, the notes that were given to
/// the parts, in order of time, with their volumes brought into the range, and every track has
/// the tempos of the source.
pub proof fn law_arranged_score(
    notes: Seq<WorkingNote>,
    kept: Seq<usize>,
    slots: Seq<Seq<usize>>,
    score: ScoreView,
    e: Ensemble,
    t: int,
)
    requires
        is_ensemble(e),
        0 <= t < e.tracks,
        encoded(notes, kept, slots, score, e) is Ok,
    ensures
        encoded(notes, kept, slots, score, e)->Ok_0.tracks.len() == e.tracks,
        encoded(notes, kept, slots, score, e)->Ok_0.head == score.head,
        encoded(notes, kept, slots, score, e)->Ok_0.tail == score.tail,
        encoded(notes, kept, slots, score, e)->Ok_0.tracks[t].parts == Seq::new(
            e.parts as nat,
            |p: int|
                relocated(
                    by_onset(
                        part_notes(
                            notes,
                            slots[slot_order(notes, slots, e.layout)[t * e.parts + p] as int],
                            e.volume_range,
                        ),
                    ),
                    (t as usize, p as usize),
                ),
        ),
        encoded(notes, kept, slots, score, e)->Ok_0.tracks[t].tempos == with_all(
            Seq::empty(),
            by_tick(score.all_tempos()),
        ),
{
    let w = writing_of(notes, kept, slots, score, e);
    let prototype = prototype_of(score);
    let out = encoded(notes, kept, slots, score, e)->Ok_0;
    lemma_written_tracks(w, prototype, e.tracks as int, t);
    lemma_part_texts(w, t, w.parts);
    let parts = track_parts(w, t);
    assert(parts.take(w.parts) =~= parts);
    law_track_reads_back(parts, crate::scroll::renumbered(prototype, t), t as usize);
    assert(out.tracks[t].parts =~= Seq::new(
        e.parts as nat,
        |p: int|
            relocated(
                by_onset(
                    part_notes(
                        notes,
                        slots[slot_order(notes, slots, e.layout)[t * e.parts + p] as int],
                        e.volume_range,
                    ),
                ),
                (t as usize, p as usize),
            ),
    ));
    lemma_first_tempos(parts, parts.len() as int);
}

proof fn lemma_first_tempos(parts: Seq<WrittenPart>, n: int)
    requires
        1 <= n <= parts.len(),
        forall|i: int| 0 < i < parts.len() ==> (#[trigger] parts[i]).tempos.len() == 0,
    ensures
        tempos_together(parts, n) == with_all(Seq::empty(), by_tick(parts[0].tempos)),
    decreases n,
{
    reveal_with_fuel(tempos_together, 2);
    if n > 1 {
        lemma_first_tempos(parts, n - 1);
        assert(parts[n - 1].tempos.len() == 0);
        assert(by_tick(parts[n - 1].tempos).len() == 0) by {
            crate::order::lemma_stable_sort(
                parts[n - 1].tempos,
                |t: crate::score::Tempo| crate::score::tempo_key(t),
            );
        }
    }
}

proof fn lemma_part_errors(w: Writing, track: int, n: int)
    ensures
        part_texts(w, track, n) is Err ==> part_texts(w, track, n)->Err_0 is Part,
    decreases n,
{
    if n > 0 {
        lemma_part_errors(w, track, n - 1);
    }
}

proof fn lemma_track_errors(w: Writing, prototype: Seq<Entry>, n: int)
    requires
        w.parts > 0,
    ensures
        written_tracks(w, prototype, n) is Err ==> written_tracks(w, prototype, n)->Err_0 is Part,
    decreases n,
{
    if n > 0 {
        lemma_track_errors(w, prototype, n - 1);
        let t = n - 1;
        lemma_part_errors(w, t, w.parts);
        if part_texts(w, t, w.parts) is Ok {
            lemma_part_texts(w, t, w.parts);
            let parts = track_parts(w, t);
            assert(parts.take(w.parts) =~= parts);
            law_track_reads_back(parts, crate::scroll::renumbered(prototype, t), t as usize);
        }
    }
}

/// Where an arrangement cannot be written as a score, it is that a note or a silence of a part
/// cannot be written: what is written can always be read.
pub proof fn law_written_can_be_read(
    notes: Seq<WorkingNote>,
    kept: Seq<usize>,
    slots: Seq<Seq<usize>>,
    score: ScoreView,
    e: Ensemble,
)
    requires
        is_ensemble(e),
        encoded(notes, kept, slots, score, e) is Err,
    ensures
        encoded(notes, kept, slots, score, e)->Err_0 is Part,
{
    lemma_track_errors(writing_of(notes, kept, slots, score, e), prototype_of(score), e.tracks as int);
}

} // verus!
