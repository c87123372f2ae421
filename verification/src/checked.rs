//! What holds of the notes of a score that can be arranged.
use crate::fold::{activity_of, analyzed, base_of, first_near, last_near, note_fault, pitch_count, with_part_notes, with_track_notes, working, WorkingNote};
use crate::reduce::{are_reducible, bare};
use crate::salience::{has_lines, is_line};
use crate::score::{flat, Note, ScoreView, TrackView};
use vstd::prelude::*;

verus! {

/// Whether notes can be arranged: each lasts, none begins before the score, and each has a
/// volume of the language.
pub open spec fn are_sound(notes: Seq<WorkingNote>) -> bool {
    &&& are_reducible(notes)
    &&& forall|i: int| 0 <= i < notes.len() ==> 0 <= (#[trigger] notes[i]).note.vel <= 15
}

proof fn lemma_pitch_count(part: Seq<Note>, j: int, k: int)
    ensures
        0 <= pitch_count(part, j, k),
    decreases k - j,
{
    if k > j {
        lemma_pitch_count(part, j, k - 1);
    }
}

proof fn lemma_part(before: Seq<WorkingNote>, part: Seq<Note>, track: int, index: int, n: int)
    requires
        0 <= n <= part.len(),
        with_part_notes(before, part, track, index, n) is Ok,
    ensures
        with_part_notes(before, part, track, index, n)->Ok_0 == before + Seq::new(
            n as nat,
            |i: int| working(part, i),
        ),
        forall|i: int| 0 <= i < n ==> note_fault(part, i, track, index) is None,
    decreases n,
{
    let added = Seq::new(n as nat, |i: int| working(part, i));
    if n == 0 {
        assert(before + added =~= before);
    } else {
        lemma_part(before, part, track, index, n - 1);
        let fewer = Seq::new((n - 1) as nat, |i: int| working(part, i));
        assert((before + fewer).push(working(part, n - 1)) =~= before + added);
    }
}

proof fn lemma_part_sound(part: Seq<Note>, track: int, index: int)
    requires
        forall|i: int| 0 <= i < part.len() ==> note_fault(part, i, track, index) is None,
    ensures
        is_line(part),
        are_sound(Seq::new(part.len(), |i: int| working(part, i))),
        bare(Seq::new(part.len(), |i: int| working(part, i))) == part,
    decreases part.len(),
{
    let all = Seq::new(part.len(), |i: int| working(part, i));
    lemma_ends(part, track, index, part.len() as int);
    assert forall|i: int| 0 <= i < part.len() implies 0 <= (#[trigger] part[i]).on
        && part[i].on + 6 <= part[i].off && 0 <= part[i].vel <= 15 by {
        assert(note_fault(part, i, track, index) is None);
    }
    assert forall|k: int| 0 < k < part.len() implies part[k - 1].off <= (#[trigger] part[k]).on by {
        assert(note_fault(part, k, track, index) is None);
    }
    assert forall|i: int| 0 <= i < all.len() implies 0 <= (#[trigger] all[i]).note.on
        && all[i].note.on + 6 <= all[i].note.off && 0 <= all[i].base <= 10000 by {
        assert(all[i].note == part[i]);
        lemma_pitch_count(part, first_near(part, i, i), last_near(part, i, i));
        assert(0 <= activity_of(part, i) <= 2);
        assert(0 <= base_of(part, i) <= 10000);
    }
    assert forall|i: int| 0 <= i < all.len() implies 0 <= (#[trigger] all[i]).note.vel <= 15 by {
        assert(all[i].note == part[i]);
    }
    assert(bare(all) =~= part);
}

proof fn lemma_ends(part: Seq<Note>, track: int, index: int, n: int)
    requires
        0 <= n <= part.len(),
        forall|i: int| 0 <= i < part.len() ==> note_fault(part, i, track, index) is None,
    ensures
        forall|i: int| 0 <= i < n ==> 0 <= (#[trigger] part[i]).on,
    decreases n,
{
    if n > 0 {
        lemma_ends(part, track, index, n - 1);
        assert(note_fault(part, n - 1, track, index) is None);
        if n > 1 {
            assert(note_fault(part, n - 2, track, index) is None);
            assert(0 <= part[n - 2].on);
        }
    }
}

proof fn lemma_joined_sound(a: Seq<WorkingNote>, b: Seq<WorkingNote>)
    requires
        are_sound(a),
        are_sound(b),
    ensures
        are_sound(a + b),
        bare(a + b) == bare(a) + bare(b),
{
    let all = a + b;
    assert forall|i: int| 0 <= i < all.len() implies 0 <= (#[trigger] all[i]).note.on
        && all[i].note.on + 6 <= all[i].note.off && 0 <= all[i].base <= 10000 by {
        if i < a.len() {
            assert(all[i] == a[i]);
        } else {
            assert(all[i] == b[i - a.len()]);
        }
    }
    assert forall|i: int| 0 <= i < all.len() implies 0 <= (#[trigger] all[i]).note.vel <= 15 by {
        if i < a.len() {
            assert(all[i] == a[i]);
        } else {
            assert(all[i] == b[i - a.len()]);
        }
    }
    assert(bare(all) =~= bare(a) + bare(b));
}

proof fn lemma_track(before: Seq<WorkingNote>, parts: Seq<Seq<Note>>, track: int, n: int)
    requires
        0 <= n <= parts.len(),
        are_sound(before),
        with_track_notes(before, parts, track, n) is Ok,
    ensures
        are_sound(with_track_notes(before, parts, track, n)->Ok_0),
        bare(with_track_notes(before, parts, track, n)->Ok_0) == bare(before) + flat(
            parts.take(n),
        ),
        forall|p: int| 0 <= p < n ==> is_line(#[trigger] parts[p]),
    decreases n,
{
    if n == 0 {
        assert(parts.take(0) =~= Seq::<Seq<Note>>::empty());
        assert(bare(before) + flat(parts.take(0)) =~= bare(before));
    } else {
        lemma_track(before, parts, track, n - 1);
        let earlier = with_track_notes(before, parts, track, n - 1)->Ok_0;
        let part = parts[n - 1];
        lemma_part(earlier, part, track, n - 1, part.len() as int);
        lemma_part_sound(part, track, n - 1);
        let more = Seq::new(part.len(), |i: int| working(part, i));
        lemma_joined_sound(earlier, more);
        assert(parts.take(n).drop_last() =~= parts.take(n - 1));
        assert(parts.take(n).last() == part);
        assert(bare(earlier) + part =~= bare(before) + flat(parts.take(n)));
    }
}

proof fn lemma_tracks(tracks: Seq<TrackView>, n: int)
    requires
        0 <= n <= tracks.len(),
        analyzed(tracks, n) is Ok,
    ensures
        are_sound(analyzed(tracks, n)->Ok_0),
        bare(analyzed(tracks, n)->Ok_0) == flat(
            Seq::new(tracks.len(), |i: int| flat(tracks[i].parts)).take(n),
        ),
        forall|t: int, p: int|
            #![trigger tracks[t].parts[p]]
            0 <= t < n && 0 <= p < tracks[t].parts.len() ==> is_line(tracks[t].parts[p]),
    decreases n,
{
    let lists = Seq::new(tracks.len(), |i: int| flat(tracks[i].parts));
    if n == 0 {
        assert(lists.take(0) =~= Seq::<Seq<Note>>::empty());
        assert(bare(Seq::<WorkingNote>::empty()) =~= Seq::<Note>::empty());
    } else {
        lemma_tracks(tracks, n - 1);
        let parts = tracks[n - 1].parts;
        lemma_track(analyzed(tracks, n - 1)->Ok_0, parts, n - 1, parts.len() as int);
        assert(parts.take(parts.len() as int) =~= parts);
        assert(lists.take(n).drop_last() =~= lists.take(n - 1));
        assert(lists.take(n).last() == flat(parts));
    }
}

/// Where a score can be arranged, every part of it holds one note at a time, every note lasts
/// and has a volume of the language, and the notes that are arranged are those of the score, in
/// its order.
pub proof fn law_checked_notes(score: ScoreView)
    requires
        analyzed(score.tracks, score.tracks.len() as int) is Ok,
    ensures
        has_lines(score),
        are_sound(analyzed(score.tracks, score.tracks.len() as int)->Ok_0),
        bare(analyzed(score.tracks, score.tracks.len() as int)->Ok_0) == score.notes(),
{
    let n = score.tracks.len() as int;
    let notes = analyzed(score.tracks, n)->Ok_0;
    lemma_tracks(score.tracks, n);
    let lists = Seq::new(score.tracks.len(), |i: int| flat(score.tracks[i].parts));
    assert(lists.take(n) =~= lists);
    let all = score.notes();
    assert forall|i: int| 0 <= i < all.len() implies 0 <= (#[trigger] all[i]).on < all[i].off by {
        assert(bare(notes)[i] == notes[i].note);
    }
}

} // verus!
