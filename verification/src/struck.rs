//! What the texts of a track for the game keep: every note that is struck.
use crate::game_mml::{attacks, best_part, cut_note, first_at, game_parts, game_tempos, game_texts, game_track, law_cut_keeps_attacks, placement_of, unassigned, with_game_tempo, with_game_tempos, Assigned, Placement};
use crate::mml::read_part;
use crate::order::{key_less, lemma_sort_sorted, lemma_stable_sort};
use crate::roundtrip::{framed, law_part_reads_back, lemma_part_bytes, relocated};
use crate::score::{by_onset, onset_key, Note, Tempo, Tick};
use crate::text::{all_ascii, ascii_chars, lemma_ascii_encoding};
use crate::writer::part_text;
use vstd::prelude::*;
use vstd::utf8::encode_utf8;

verus! {

/// Whether the text of a part says that just those notes are struck, with the same pitches and
/// volumes, at the same ticks and in the same order, that some notes say.
pub open spec fn says_attacks(notes: Seq<Note>, text: Seq<char>) -> bool {
    read_part(encode_utf8(text), (0, 0)) matches Ok(part) && attacks(part.notes) == attacks(
        by_onset(notes),
    )
}

/// Whether texts say, part by part, that the notes of parts are struck.
pub open spec fn keeps_attacks(parts: Seq<Seq<Note>>, texts: Seq<Seq<char>>) -> bool {
    &&& texts.len() == parts.len()
    &&& forall|p: int| 0 <= p < parts.len() ==> says_attacks(#[trigger] parts[p], texts[p])
}

spec fn onsets_ascend(notes: Seq<Note>) -> bool {
    forall|i: int, j: int|
        #![trigger notes[i], notes[j]]
        0 <= i <= j < notes.len() ==> notes[i].on <= notes[j].on
}

proof fn lemma_first_at(notes: Seq<Note>, tick: int, i: int)
    requires
        0 <= i <= notes.len(),
    ensures
        i <= first_at(notes, tick, i) <= notes.len(),
        forall|k: int| i <= k < first_at(notes, tick, i) ==> (#[trigger] notes[k]).on < tick,
        first_at(notes, tick, i) < notes.len() ==> notes[first_at(notes, tick, i)].on >= tick,
    decreases notes.len() - i,
{
    if i < notes.len() && notes[i].on < tick {
        lemma_first_at(notes, tick, i + 1);
    }
}

proof fn lemma_best_part(parts: Seq<Seq<Note>>, assigned: Seq<Seq<Tempo>>, from: int, n: int, tick: int)
    ensures
        best_part(parts, assigned, from, n, tick) matches Some(p) ==> from <= p < n,
    decreases n - from,
{
    if from < n {
        lemma_best_part(parts, assigned, from, n - 1, tick);
    }
}

proof fn lemma_cut_ascends(notes: Seq<Note>, assigned: Seq<Tempo>, tick: Tick)
    requires
        onsets_ascend(notes),
        placement_of(notes, assigned, tick as int) matches Some(Placement::Held { .. }),
        notes.len() <= usize::MAX,
    ensures
        ({
            let i = placement_of(notes, assigned, tick as int)->Some_0->note as int;
            &&& 0 <= i < notes.len()
            &&& onsets_ascend(cut_note(notes, i, tick as int))
        }),
{
    lemma_first_at(notes, tick as int, 0);
    let next = first_at(notes, tick as int, 0);
    let i = next - 1;
    let cut = cut_note(notes, i, tick as int);
    assert forall|a: int, b: int|
        #![trigger cut[a], cut[b]]
        0 <= a <= b < cut.len() implies cut[a].on <= cut[b].on by {
        assert(cut[next].on == tick);
        let x = if a <= i {
            a
        } else {
            a - 1
        };
        let y = if b <= i {
            b
        } else {
            b - 1
        };
        if a != next {
            assert(cut[a].on == notes[x].on);
        }
        if b != next {
            assert(cut[b].on == notes[y].on);
        }
        if a < next && b == next {
            assert(notes[a].on < tick);
        } else if a == next && b > next {
            assert(notes[next].on <= notes[y].on);
        }
    }
}

/// Whether a machine can hold the parts.
pub open spec fn is_held(a: Assigned) -> bool {
    forall|p: int| 0 <= p < a.parts.len() ==> (#[trigger] a.parts[p]).len() <= usize::MAX
}

spec fn all_ascend(a: Assigned) -> bool {
    forall|p: int| 0 <= p < a.parts.len() ==> onsets_ascend(#[trigger] a.parts[p])
}

spec fn same_attacks(a: Assigned, b: Assigned) -> bool {
    &&& a.parts.len() == b.parts.len()
    &&& forall|p: int| 0 <= p < a.parts.len() ==> attacks(#[trigger] a.parts[p]) == attacks(b.parts[p])
}

spec fn is_longer(a: Assigned, b: Assigned) -> bool {
    &&& a.parts.len() == b.parts.len()
    &&& a.tempos.len() == b.tempos.len()
    &&& forall|p: int|
        #![trigger a.parts[p]]
        #![trigger b.parts[p]]
        0 <= p < a.parts.len() ==> a.parts[p].len() <= b.parts[p].len()
}

proof fn lemma_held(a: Assigned, b: Assigned)
    requires
        is_longer(a, b),
        is_held(b),
    ensures
        is_held(a),
{
    assert forall|p: int| 0 <= p < a.parts.len() implies (#[trigger] a.parts[p]).len()
        <= usize::MAX by {
        assert(b.parts[p].len() <= usize::MAX);
    }
}

proof fn lemma_longer(a: Assigned, from: int, to: int, tempo: Tempo)
    requires
        0 <= from <= to <= a.parts.len(),
        a.tempos.len() == a.parts.len(),
        with_game_tempo(a, from, to, tempo) is Ok,
    ensures
        is_longer(a, with_game_tempo(a, from, to, tempo)->Ok_0),
{
    let tick = tempo.0 as int;
    lemma_best_part(a.parts, a.tempos, from, to, tick);
    let p = best_part(a.parts, a.tempos, from, to, tick)->Some_0;
    lemma_first_at(a.parts[p], tick, 0);
}

proof fn lemma_all_longer(a: Assigned, from: int, to: int, tempos: Seq<Tempo>, n: int)
    requires
        0 <= from <= to <= a.parts.len(),
        a.tempos.len() == a.parts.len(),
        with_game_tempos(a, from, to, tempos, n) is Ok,
    ensures
        is_longer(a, with_game_tempos(a, from, to, tempos, n)->Ok_0),
    decreases n,
{
    if n > 0 {
        lemma_all_longer(a, from, to, tempos, n - 1);
        let before = with_game_tempos(a, from, to, tempos, n - 1)->Ok_0;
        lemma_longer(before, from, to, tempos[n - 1]);
        let b = with_game_tempos(a, from, to, tempos, n)->Ok_0;
        assert forall|p: int|
            #![trigger a.parts[p]]
            #![trigger b.parts[p]]
            0 <= p < a.parts.len() implies a.parts[p].len() <= b.parts[p].len() by {
            assert(before.parts[p].len() <= b.parts[p].len());
        }
    }
}

proof fn lemma_tempo(a: Assigned, from: int, to: int, tempo: Tempo)
    requires
        0 <= from <= to <= a.parts.len(),
        a.tempos.len() == a.parts.len(),
        all_ascend(a),
        is_held(a),
        with_game_tempo(a, from, to, tempo) is Ok,
    ensures
        same_attacks(a, with_game_tempo(a, from, to, tempo)->Ok_0),
        all_ascend(with_game_tempo(a, from, to, tempo)->Ok_0),
{
    let b = with_game_tempo(a, from, to, tempo)->Ok_0;
    let tick = tempo.0 as int;
    lemma_best_part(a.parts, a.tempos, from, to, tick);
    let p = best_part(a.parts, a.tempos, from, to, tick)->Some_0;
    match placement_of(a.parts[p], a.tempos[p], tick) {
        Some(Placement::Held { note, .. }) => {
            assert(onsets_ascend(a.parts[p]));
            assert(a.parts[p].len() <= usize::MAX);
            lemma_cut_ascends(a.parts[p], a.tempos[p], tempo.0);
            law_cut_keeps_attacks(a.parts[p], note as int, tick);
            assert forall|q: int| 0 <= q < b.parts.len() implies onsets_ascend(
                #[trigger] b.parts[q],
            ) by {
                if q != p {
                    assert(onsets_ascend(a.parts[q]));
                }
            }
        },
        _ => {},
    }
}

proof fn lemma_tempos(a: Assigned, from: int, to: int, tempos: Seq<Tempo>, n: int)
    requires
        0 <= from <= to <= a.parts.len(),
        a.tempos.len() == a.parts.len(),
        all_ascend(a),
        with_game_tempos(a, from, to, tempos, n) is Ok,
        is_held(with_game_tempos(a, from, to, tempos, n)->Ok_0),
    ensures
        same_attacks(a, with_game_tempos(a, from, to, tempos, n)->Ok_0),
        all_ascend(with_game_tempos(a, from, to, tempos, n)->Ok_0),
    decreases n,
{
    if n > 0 {
        let before = with_game_tempos(a, from, to, tempos, n - 1)->Ok_0;
        let b = with_game_tempos(a, from, to, tempos, n)->Ok_0;
        lemma_all_longer(a, from, to, tempos, n - 1);
        lemma_longer(before, from, to, tempos[n - 1]);
        lemma_held(before, b);
        lemma_tempos(a, from, to, tempos, n - 1);
        lemma_tempo(before, from, to, tempos[n - 1]);
        assert forall|p: int| 0 <= p < a.parts.len() implies attacks(#[trigger] a.parts[p])
            == attacks(b.parts[p]) by {
            assert(attacks(before.parts[p]) == attacks(b.parts[p]));
        }
    }
}

proof fn lemma_game_parts(parts: Seq<Seq<Note>>, tempos: Seq<Tempo>)
    requires
        parts.len() <= 4,
        game_parts(parts, tempos) is Ok,
        is_held(game_parts(parts, tempos)->Ok_0),
    ensures
        same_attacks(unassigned(parts), game_parts(parts, tempos)->Ok_0),
        all_ascend(game_parts(parts, tempos)->Ok_0),
{
    let start = unassigned(parts);
    let n = parts.len() as int;
    let m = tempos.len() as int;
    assert forall|p: int| 0 <= p < start.parts.len() implies onsets_ascend(#[trigger] start.parts[p]) by {
        let key = |x: Note| onset_key(x);
        let sorted = start.parts[p];
        assert(sorted == by_onset(parts[p]));
        lemma_stable_sort(parts[p], key);
        assert forall|i: int, j: int|
            #![trigger sorted[i], sorted[j]]
            0 <= i <= j < sorted.len() implies sorted[i].on <= sorted[j].on by {
            assert(!key_less(key(sorted[j]), key(sorted[i])));
        }
    }
    let played = if n < 3 {
        n
    } else {
        3
    };
    let first = if played > 0 {
        with_game_tempos(start, 0, played, tempos, m)
    } else {
        Ok(start)
    };
    let a = first->Ok_0;
    let b = game_parts(parts, tempos)->Ok_0;
    if played > 0 {
        lemma_all_longer(start, 0, played, tempos, m);
    }
    if n == 4 && a.parts[3].len() > 0 {
        lemma_all_longer(a, 3, 4, tempos, m);
        lemma_held(a, b);
    }
    if played > 0 {
        lemma_tempos(start, 0, played, tempos, m);
    }
    if n == 4 && a.parts[3].len() > 0 {
        lemma_tempos(a, 3, 4, tempos, m);
        assert forall|p: int| 0 <= p < start.parts.len() implies attacks(#[trigger] start.parts[p])
            == attacks(b.parts[p]) by {
            assert(attacks(a.parts[p]) == attacks(b.parts[p]));
        }
    }
}

proof fn lemma_texts(a: Assigned, total: int, n: int, p: int)
    requires
        0 <= p < n,
        game_texts(a, total, n) is Ok,
    ensures
        game_texts(a, total, n)->Ok_0.len() == n,
        part_text(a.parts[p], a.tempos[p], total) is Ok,
        game_texts(a, total, n)->Ok_0[p] == ascii_chars(
            part_text(a.parts[p], a.tempos[p], total)->Ok_0,
        ),
    decreases n,
{
    reveal_with_fuel(game_texts, 2);
    if n > 1 {
        lemma_texts(a, total, n - 1, if p < n - 1 {
            p
        } else {
            0
        });
    }
}

proof fn lemma_relocated_attacks(notes: Seq<Note>, src: (usize, usize))
    ensures
        attacks(relocated(notes, src)) == attacks(notes),
    decreases notes.len(),
{
    if notes.len() > 0 {
        lemma_relocated_attacks(notes.drop_last(), src);
        assert(relocated(notes, src).drop_last() =~= relocated(notes.drop_last(), src));
    }
}

/// Whatever tempos are put into the parts of a track, and wherever: reading a part that was
/// written for the game says that the notes of the part are struck, all of them and no others,
/// when, as high and as loud as they were.
pub proof fn law_track_keeps_attacks(parts: Seq<Seq<Note>>, tempos: Seq<Tempo>, total: int)
    requires
        game_track(parts, tempos, total) is Ok,
        is_held(game_parts(parts, game_tempos(tempos, total)->Ok_0)->Ok_0),
    ensures
        keeps_attacks(parts, game_track(parts, tempos, total)->Ok_0.0),
{
    let own = game_tempos(tempos, total)->Ok_0;
    let a = game_parts(parts, own)->Ok_0;
    let texts = game_track(parts, tempos, total)->Ok_0.0;
    let n = parts.len() as int;
    lemma_game_parts(parts, own);
    if n > 0 {
        lemma_texts(a, total, n, 0);
    }
    assert forall|p: int| 0 <= p < parts.len() implies says_attacks(#[trigger] parts[p], texts[p]) by {
        lemma_texts(a, total, n, p);
        let notes = a.parts[p];
        let bytes = part_text(notes, a.tempos[p], total)->Ok_0;
        lemma_part_bytes(notes, a.tempos[p], total);
        assert(all_ascii(bytes));
        lemma_ascii_encoding(bytes);
        law_part_reads_back(notes, a.tempos[p], total, false, false, (0, 0));
        assert(framed(bytes, false, false) =~= bytes);
        assert(onsets_ascend(notes));
        let key = |x: Note| onset_key(x);
        assert forall|i: int, j: int|
            #![trigger notes[i], notes[j]]
            0 <= i <= j < notes.len() implies !key_less(key(notes[j]), key(notes[i])) by {
        }
        lemma_sort_sorted(notes, key);
        lemma_relocated_attacks(notes, (0, 0));
        assert(unassigned(parts).parts[p] == by_onset(parts[p]));
        assert(attacks(unassigned(parts).parts[p]) == attacks(a.parts[p]));
    }
}

} // verus!
