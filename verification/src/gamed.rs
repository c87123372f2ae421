//! At which tempo a text for the game goes, and where its tempos stand.
use crate::chunk::tempo_at;
use crate::clocks::lemma_changing;
use crate::game_mml::{best_part, first_at, game_tempos, placement_of, reluctance, tempos_within, Placement};
use crate::score::{ticks_ascend, with_tempo, Note, Tempo, Tick};
use crate::steady::{in_force, lemma_tempo_at};
use vstd::prelude::*;

verus! {

proof fn lemma_within(tempos: Seq<Tempo>, total: int, n: int, t: int)
    requires
        ticks_ascend(tempos),
        0 <= n <= tempos.len(),
        tempos_within(tempos, total, n) is Ok,
        0 <= t < total,
    ensures
        ({
            let own = tempos_within(tempos, total, n)->Ok_0;
            &&& ticks_ascend(own)
            &&& tempo_at(own, t) == tempo_at(tempos.take(n), t)
            &&& own.len() > 0 ==> n > 0 && own.last().0 <= tempos[n - 1].0
            &&& forall|i: int| 0 <= i < own.len() ==> (#[trigger] own[i]).0 >= 0
        }),
    decreases n,
{
    if n > 0 {
        lemma_within(tempos, total, n - 1, t);
        let before = tempos_within(tempos, total, n - 1)->Ok_0;
        let own = tempos_within(tempos, total, n)->Ok_0;
        let last = tempos[n - 1];
        assert(tempos.take(n).drop_last() =~= tempos.take(n - 1));
        assert(tempos.take(n).last() == last);
        if n > 1 {
            assert(tempos[n - 2].0 < tempos[n - 1].0);
        }
        if last.0 < total || last.0 == 0 {
            assert(own == before.push(last));
            assert(own.drop_last() =~= before);
            assert forall|i: int, j: int|
                #![trigger own[i], own[j]]
                0 <= i < j < own.len() implies own[i].0 < own[j].0 by {
                assert(own[i] == before[i]);
                if j < before.len() {
                    assert(own[j] == before[j]);
                } else if i < before.len() - 1 {
                    assert(before[i].0 < before[before.len() - 1].0);
                }
            }
        }
    } else {
        assert(tempos.take(0) =~= Seq::<Tempo>::empty());
    }
}

proof fn lemma_from_start(own: Seq<Tempo>, t: int)
    requires
        ticks_ascend(own),
        forall|i: int| 0 <= i < own.len() ==> (#[trigger] own[i]).0 > 0,
        t >= 0,
    ensures
        ({
            let all = with_tempo(own, (0, 120));
            &&& tempo_at(all, t) == tempo_at(own, t)
            &&& all == seq![(0 as Tick, 120i32)] + own
            &&& ticks_ascend(all)
        }),
    decreases own.len(),
{
    let all = with_tempo(own, (0, 120));
    if own.len() == 0 {
        assert(all =~= seq![(0 as Tick, 120i32)] + own);
        assert(all.last() == (0 as Tick, 120i32));
    } else {
        let front = own.drop_last();
        assert(own[own.len() - 1].0 > 0);
        assert forall|i: int| 0 <= i < front.len() implies (#[trigger] front[i]).0 > 0 by {
            assert(front[i] == own[i]);
        }
        lemma_from_start(front, t);
        assert(all =~= seq![(0 as Tick, 120i32)] + own);
        assert(all.drop_last() =~= with_tempo(front, (0, 120)));
        assert forall|i: int, j: int|
            #![trigger all[i], all[j]]
            0 <= i < j < all.len() implies all[i].0 < all[j].0 by {
            assert(all[j] == own[j - 1]);
            if i > 0 {
                assert(all[i] == own[i - 1]);
            }
        }
    }
}

/// A text for the game goes at the tempo of its track at every tick up to its end.
pub proof fn law_game_keeps_tempo(tempos: Seq<Tempo>, total: int, t: int, bpm: i32)
    requires
        ticks_ascend(tempos),
        game_tempos(tempos, total) is Ok,
        0 <= t < total,
    ensures
        in_force(game_tempos(tempos, total)->Ok_0, t, bpm) <==> in_force(tempos, t, bpm),
{
    let n = tempos.len() as int;
    lemma_within(tempos, total, n, t);
    assert(tempos.take(n) =~= tempos);
    let own = tempos_within(tempos, total, n)->Ok_0;
    let late = own.len() == 0 || own[0].0 > 0;
    if late {
        assert forall|i: int| 0 <= i < own.len() implies (#[trigger] own[i]).0 > 0 by {
            if i > 0 {
                assert(own[0].0 < own[i].0);
            }
        }
        lemma_from_start(own, t);
    }
    let all = if late {
        with_tempo(own, (0, 120))
    } else {
        own
    };
    lemma_changing(all, t);
    assert(game_tempos(tempos, total)->Ok_0 == crate::assemble::changing(all));
    lemma_tempo_at(tempos, t);
    lemma_tempo_at(crate::assemble::changing(all), t);
}

/// Whether one place for a tempo disturbs less than another: between two notes less than in a rest,
/// in a rest less than in a note, in a silent note less than in one that sounds, and of notes less
/// where less of the note is left.
pub open spec fn disturbs_less(a: Seq<Note>, x: Placement, b: Seq<Note>, y: Placement) -> bool {
    match (x, y) {
        (Placement::Boundary, _) => !(y is Boundary),
        (Placement::Rest, _) => y is Held,
        (Placement::Held { note, remaining }, Placement::Held { note: other, remaining: more }) => {
            let sounds = a[note as int].vel > 0;
            let other_sounds = b[other as int].vel > 0;
            (!sounds && other_sounds) || (sounds == other_sounds && remaining < more)
        },
        _ => false,
    }
}

proof fn lemma_disturbs(a: Seq<Note>, x: Placement, b: Seq<Note>, y: Placement)
    ensures
        disturbs_less(a, x, b, y) <==> ({
            let own = reluctance(a, x);
            let other = reluctance(b, y);
            own.0 < other.0 || (own.0 == other.0 && own.1 < other.1)
        }),
{
}

/// A tempo goes into the part where it disturbs the least: there is none wherever no part has a place
/// for it, and else no other part has a place where it would disturb less.
pub proof fn law_tempos_disturb_least(
    parts: Seq<Seq<Note>>,
    assigned: Seq<Seq<Tempo>>,
    from: int,
    n: int,
    tick: int,
    other: int,
)
    requires
        0 <= from <= other < n <= parts.len(),
        assigned.len() == parts.len(),
    ensures
        match best_part(parts, assigned, from, n, tick) {
            None => placement_of(parts[other], assigned[other], tick) is None,
            Some(b) => {
                &&& from <= b < n
                &&& placement_of(parts[b], assigned[b], tick) is Some
                &&& placement_of(parts[other], assigned[other], tick) is Some ==> !disturbs_less(
                    parts[other],
                    placement_of(parts[other], assigned[other], tick)->Some_0,
                    parts[b],
                    placement_of(parts[b], assigned[b], tick)->Some_0,
                )
            },
        },
    decreases n - from,
{
    let last = n - 1;
    let own = placement_of(parts[last], assigned[last], tick);
    if n > from + 1 {
        law_tempos_disturb_least(parts, assigned, from, n - 1, tick, if other < last {
            other
        } else {
            from
        });
    }
    let best = best_part(parts, assigned, from, n - 1, tick);
    let there = placement_of(parts[other], assigned[other], tick);
    if own is Some {
        if best is Some {
            let b = best->Some_0;
            let held = placement_of(parts[b], assigned[b], tick)->Some_0;
            lemma_disturbs(parts[last], own->Some_0, parts[b], held);
            if there is Some {
                lemma_disturbs(parts[other], there->Some_0, parts[b], held);
                lemma_disturbs(parts[other], there->Some_0, parts[last], own->Some_0);
            }
        }
        lemma_disturbs(parts[last], own->Some_0, parts[last], own->Some_0);
    }
}

/// The next note at a tick is the first that does not begin before it.
pub proof fn law_next_note(notes: Seq<Note>, tick: int, i: int)
    requires
        0 <= i <= notes.len(),
    ensures
        i <= first_at(notes, tick, i) <= notes.len(),
        first_at(notes, tick, i) < notes.len() ==> notes[first_at(notes, tick, i)].on >= tick,
        forall|k: int| i <= k < first_at(notes, tick, i) ==> (#[trigger] notes[k]).on < tick,
    decreases notes.len() - i,
{
    if i < notes.len() && notes[i].on < tick {
        law_next_note(notes, tick, i + 1);
    }
}

/// A tempo inside a note is told with the note that sounds there and what is left of it; elsewhere it
/// stands between two notes where one ends or begins, and in a rest where none does.
pub proof fn law_places_for_tempos(notes: Seq<Note>, assigned: Seq<Tempo>, tick: int)
    requires
        notes.len() <= usize::MAX,
        forall|i: int| 0 <= i < notes.len() ==> 0 <= (#[trigger] notes[i]).on < notes[i].off,
    ensures
        match placement_of(notes, assigned, tick) {
            Some(Placement::Held { note, remaining }) => {
                &&& note < notes.len()
                &&& notes[note as int].on < tick < notes[note as int].off
                &&& tick + remaining == notes[note as int].off
            },
            Some(Placement::Boundary) => tick == 0 || exists|i: int|
                0 <= i < notes.len() && ((#[trigger] notes[i]).on == tick || notes[i].off == tick),
            Some(Placement::Rest) => {
                let next = first_at(notes, tick, 0);
                &&& next > 0 ==> notes[next - 1].off < tick
                &&& next < notes.len() ==> notes[next].on > tick
            },
            None => true,
        },
{
    law_next_note(notes, tick, 0);
    let next = first_at(notes, tick, 0);
    if next > 0 {
        assert(notes[next - 1].on < tick);
        assert(notes[next - 1].on < notes[next - 1].off);
    }
    if next < notes.len() {
        assert(notes[next].on >= tick);
    }
}

} // verus!
