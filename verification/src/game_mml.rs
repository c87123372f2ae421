//! Parts for the game: tempos put where no note has to be tied across them.
use crate::assemble::changing;
use crate::lengths::{lemma_split, split_of, LengthTable};
use crate::score::{by_onset, insert_tempo, part_views, sort_notes, with_tempo, Note, Tempo, Tick};
use crate::struck::{is_held, keeps_attacks, law_track_keeps_attacks};
use crate::text::{ascii_chars, string_views};
use crate::writer::{emit_with, part_text, EmitError};
use vstd::prelude::*;

verus! {

/// The MML of the parts of a track, and how many notes that sound were cut short for a tempo.
#[derive(Debug)]
pub struct GameTrack {
    pub parts: Vec<String>,
    pub tempo_note_splits: usize,
}

/// Why parts cannot be written for the game.
#[derive(Clone, Copy, Debug, PartialEq, Eq, Structural)]
pub enum GameError {
    NegativeTotal { total: Tick },
    TooManyParts,
    InvalidTempo { value: i32, tick: Tick },
    Part { index: usize, cause: EmitError },
    Unplaceable { value: i32, tick: Tick },
}

/// The first tempos at their ticks, as far as these lie before the end.
pub open spec fn tempos_within(tempos: Seq<Tempo>, total: int, n: int) -> Result<
    Seq<Tempo>,
    GameError,
>
    decreases n,
{
    if n <= 0 {
        Ok(Seq::empty())
    } else {
        match tempos_within(tempos, total, n - 1) {
            Err(e) => Err(e),
            Ok(before) => {
                let (tick, value) = tempos[n - 1];
                if tick < 0 || value <= 0 {
                    Err(GameError::InvalidTempo { value, tick })
                } else if tick < total || tick == 0 {
                    Ok(with_tempo(before, (tick, value)))
                } else {
                    Ok(before)
                }
            },
        }
    }
}

/// The tempos of a track: in order, from its start on, and without those that change nothing.
pub open spec fn game_tempos(tempos: Seq<Tempo>, total: int) -> Result<Seq<Tempo>, GameError> {
    match tempos_within(tempos, total, tempos.len() as int) {
        Err(e) => Err(e),
        Ok(own) => Ok(
            changing(
                if (total > 0 && own.len() == 0) || (own.len() > 0 && own[0].0 > 0) {
                    with_tempo(own, (0, 120))
                } else {
                    own
                },
            ),
        ),
    }
}

/// Where a tempo can stand in a part: between two notes, inside a rest, or inside a note of
/// which some ticks then remain.
#[derive(Clone, Copy, Debug, PartialEq, Eq, Structural)]
pub enum Placement {
    Boundary,
    Rest,
    Held { note: usize, remaining: Tick },
}

/// The position of the first note, from some position on, that begins at or behind a tick.
pub open spec fn first_at(notes: Seq<Note>, tick: int, i: int) -> int
    decreases notes.len() - i,
{
    if 0 <= i < notes.len() && notes[i].on < tick {
        first_at(notes, tick, i + 1)
    } else {
        i
    }
}

pub open spec fn can_write(ticks: int) -> bool {
    split_of(ticks) is Some
}

/// The tick up to which a part is taken: its last note or tempo before a position.
pub open spec fn taken_until(notes: Seq<Note>, assigned: Seq<Tempo>, next: int) -> int {
    let end = if next > 0 {
        notes[next - 1].off as int
    } else {
        0
    };
    let tempo = if assigned.len() > 0 {
        assigned.last().0 as int
    } else {
        0
    };
    if end < tempo {
        tempo
    } else {
        end
    }
}

/// Where a tempo can stand in a part without leaving anything too short to write.
pub open spec fn placement_of(notes: Seq<Note>, assigned: Seq<Tempo>, tick: int) -> Option<
    Placement,
> {
    let next = first_at(notes, tick, 0);
    if next > 0 && notes[next - 1].off > tick {
        let note = notes[next - 1];
        if can_write(tick - note.on) && can_write(note.off - tick) {
            Some(
                Placement::Held { note: (next - 1) as usize, remaining: (note.off - tick) as Tick },
            )
        } else {
            None
        }
    } else if !can_write(tick - taken_until(notes, assigned, next)) {
        None
    } else if next < notes.len() && !can_write(notes[next].on - tick) {
        None
    } else if (if next > 0 {
        notes[next - 1].off as int
    } else {
        0
    }) == tick || (next < notes.len() && notes[next].on == tick) {
        Some(Placement::Boundary)
    } else {
        Some(Placement::Rest)
    }
}

/// How little a place is wanted: boundaries come first, then rests, then silent notes and then
/// those that sound; of notes the one of which least remains.
pub open spec fn reluctance(notes: Seq<Note>, place: Placement) -> (int, int) {
    match place {
        Placement::Boundary => (0, 0),
        Placement::Rest => (1, 0),
        Placement::Held { note, remaining } => (
            if notes[note as int].vel > 0 {
                3
            } else {
                2
            },
            remaining as int,
        ),
    }
}

/// The part among the first ones in which a tempo is placed best; of equals the first.
pub open spec fn best_part(
    parts: Seq<Seq<Note>>,
    assigned: Seq<Seq<Tempo>>,
    from: int,
    n: int,
    tick: int,
) -> Option<int>
    decreases n - from,
{
    if n <= from {
        None
    } else {
        let best = best_part(parts, assigned, from, n - 1, tick);
        match placement_of(parts[n - 1], assigned[n - 1], tick) {
            None => best,
            Some(place) => match best {
                None => Some(n - 1),
                Some(b) => {
                    let own = reluctance(parts[n - 1], place);
                    let other = reluctance(
                        parts[b],
                        placement_of(parts[b], assigned[b], tick)->Some_0,
                    );
                    if own.0 < other.0 || (own.0 == other.0 && own.1 < other.1) {
                        Some(n - 1)
                    } else {
                        Some(b)
                    }
                },
            },
        }
    }
}

/// A part in which a note is cut at a tick: it ends there, and silence takes the rest of its
/// time.
pub open spec fn cut_note(notes: Seq<Note>, i: int, tick: int) -> Seq<Note> {
    let note = notes[i];
    notes.update(i, Note { off: tick as Tick, ..note }).insert(
        i + 1,
        Note { on: tick as Tick, vel: 0, ..note },
    )
}

/// Parts with their tempos, and how many notes that sound have been cut.
#[verifier::ext_equal]
pub struct Assigned {
    pub parts: Seq<Seq<Note>>,
    pub tempos: Seq<Seq<Tempo>>,
    pub cut: int,
}

/// What placing a tempo in one of the parts from one up to another makes of them.
pub open spec fn with_game_tempo(a: Assigned, from: int, to: int, tempo: Tempo) -> Result<
    Assigned,
    GameError,
> {
    match best_part(a.parts, a.tempos, from, to, tempo.0 as int) {
        None => Err(GameError::Unplaceable { value: tempo.1, tick: tempo.0 }),
        Some(p) => {
            let tempos = a.tempos.update(p, a.tempos[p].push(tempo));
            match placement_of(a.parts[p], a.tempos[p], tempo.0 as int) {
                Some(Placement::Held { note, .. }) => Ok(
                    Assigned {
                        parts: a.parts.update(p, cut_note(a.parts[p], note as int, tempo.0 as int)),
                        tempos,
                        cut: a.cut + (if a.parts[p][note as int].vel > 0 {
                            1int
                        } else {
                            0int
                        }),
                    },
                ),
                _ => Ok(Assigned { tempos, ..a }),
            }
        },
    }
}

/// What placing the first tempos in the parts from one up to another makes of them.
pub open spec fn with_game_tempos(a: Assigned, from: int, to: int, tempos: Seq<Tempo>, n: int) -> Result<
    Assigned,
    GameError,
>
    decreases n,
{
    if n <= 0 {
        Ok(a)
    } else {
        match with_game_tempos(a, from, to, tempos, n - 1) {
            Err(e) => Err(e),
            Ok(before) => with_game_tempo(before, from, to, tempos[n - 1]),
        }
    }
}

/// The notes that sound, as they are struck.
pub open spec fn attacks(notes: Seq<Note>) -> Seq<(Tick, i32, i32)>
    decreases notes.len(),
{
    if notes.len() == 0 {
        Seq::empty()
    } else if notes.last().vel > 0 {
        attacks(notes.drop_last()).push((notes.last().on, notes.last().pitch, notes.last().vel))
    } else {
        attacks(notes.drop_last())
    }
}

proof fn lemma_attacks_append(a: Seq<Note>, b: Seq<Note>)
    ensures
        attacks(a + b) == attacks(a) + attacks(b),
    decreases b.len(),
{
    if b.len() == 0 {
        assert(a + b =~= a);
        assert(attacks(a) + attacks(b) =~= attacks(a));
    } else {
        lemma_attacks_append(a, b.drop_last());
        assert((a + b).drop_last() =~= a + b.drop_last());
        assert(attacks(a + b) =~= attacks(a) + attacks(b));
    }
}

/// Cutting a note for a tempo changes nothing of when, at which pitch and how loud notes are
/// struck.
pub proof fn law_cut_keeps_attacks(notes: Seq<Note>, i: int, tick: int)
    requires
        0 <= i < notes.len(),
    ensures
        attacks(cut_note(notes, i, tick)) == attacks(notes),
{
    let note = notes[i];
    let short = Note { off: tick as Tick, ..note };
    let silent = Note { on: tick as Tick, vel: 0, ..note };
    let front = notes.take(i);
    let back = notes.skip(i + 1);
    assert(notes =~= front + seq![note] + back);
    assert(cut_note(notes, i, tick) =~= front + seq![short] + (seq![silent] + back));
    lemma_attacks_append(front + seq![note], back);
    lemma_attacks_append(front, seq![note]);
    lemma_attacks_append(front + seq![short], seq![silent] + back);
    lemma_attacks_append(front, seq![short]);
    lemma_attacks_append(seq![silent], back);
    assert(seq![note].drop_last() =~= Seq::<Note>::empty());
    assert(seq![short].drop_last() =~= Seq::<Note>::empty());
    assert(seq![silent].drop_last() =~= Seq::<Note>::empty());
    assert(attacks(Seq::<Note>::empty()) =~= Seq::<(Tick, i32, i32)>::empty());
    assert(attacks(seq![short]) =~= attacks(seq![note]));
    assert(attacks(seq![silent]) + attacks(back) =~= attacks(back));
}

/// The MML of a part without tempos, which it must have.
pub open spec fn plain_fault(parts: Seq<Seq<Note>>, total: int, n: int) -> Option<GameError>
    decreases n,
{
    if n <= 0 {
        None
    } else {
        match plain_fault(parts, total, n - 1) {
            Some(e) => Some(e),
            None => match part_text(parts[n - 1], Seq::empty(), total) {
                Err(cause) => Some(GameError::Part { index: (n - 1) as usize, cause }),
                Ok(_) => None,
            },
        }
    }
}

/// The MML of the first parts with their tempos.
pub open spec fn game_texts(a: Assigned, total: int, n: int) -> Result<Seq<Seq<char>>, GameError>
    decreases n,
{
    if n <= 0 {
        Ok(Seq::empty())
    } else {
        match game_texts(a, total, n - 1) {
            Err(e) => Err(e),
            Ok(before) => match part_text(a.parts[n - 1], a.tempos[n - 1], total) {
                Err(cause) => Err(GameError::Part { index: (n - 1) as usize, cause }),
                Ok(bytes) => Ok(before.push(ascii_chars(bytes))),
            },
        }
    }
}

/// The parts in the order in which their notes begin, without tempos.
pub open spec fn unassigned(parts: Seq<Seq<Note>>) -> Assigned {
    Assigned {
        parts: parts.map_values(|p: Seq<Note>| by_onset(p)),
        tempos: Seq::new(parts.len(), |i: int| Seq::<Tempo>::empty()),
        cut: 0,
    }
}

/// The parts with their tempos: the first three parts are played together, and the fourth,
/// which is sung, has tempos of its own.
pub open spec fn game_parts(parts: Seq<Seq<Note>>, tempos: Seq<Tempo>) -> Result<
    Assigned,
    GameError,
> {
    let start = unassigned(parts);
    let n = parts.len() as int;
    let played = if n < 3 {
        n
    } else {
        3
    };
    let first = if played > 0 {
        with_game_tempos(start, 0, played, tempos, tempos.len() as int)
    } else {
        Ok(start)
    };
    match first {
        Err(e) => Err(e),
        Ok(a) => if n == 4 && a.parts[3].len() > 0 {
            with_game_tempos(a, 3, 4, tempos, tempos.len() as int)
        } else {
            Ok(a)
        },
    }
}

/// The MML of the parts of a track for the game, and how many notes were cut for a tempo.
pub open spec fn game_track(parts: Seq<Seq<Note>>, tempos: Seq<Tempo>, total: int) -> Result<
    (Seq<Seq<char>>, int),
    GameError,
> {
    if total < 0 {
        Err(GameError::NegativeTotal { total: total as Tick })
    } else if parts.len() > 4 {
        Err(GameError::TooManyParts)
    } else {
        match game_tempos(tempos, total) {
            Err(e) => Err(e),
            Ok(own) => match plain_fault(unassigned(parts).parts, total, parts.len() as int) {
                Some(e) => Err(e),
                None => match game_parts(parts, own) {
                    Err(e) => Err(e),
                    Ok(a) => match game_texts(a, total, parts.len() as int) {
                        Err(e) => Err(e),
                        Ok(texts) => Ok((texts, a.cut)),
                    },
                },
            },
        }
    }
}

fn canonical_tempos(tempos: &[Tempo], total: Tick) -> (r: Result<Vec<Tempo>, GameError>)
    ensures
        match r {
            Ok(own) => game_tempos(tempos@, total as int) == Ok::<_, GameError>(own@) && (forall|
                i: int,
            |
                0 <= i < own.len() ==> (#[trigger] own[i]).0 >= 0 && own[i].1 > 0) && own.len()
                <= tempos.len() + 1,
            Err(e) => game_tempos(tempos@, total as int) == Err::<Seq<Tempo>, _>(e),
        },
{
    let mut own: Vec<Tempo> = Vec::new();
    let mut i: usize = 0;
    while i < tempos.len()
        invariant
            i <= tempos.len(),
            tempos_within(tempos@, total as int, i as int) == Ok::<_, GameError>(own@),
            own.len() <= i,
            forall|k: int| 0 <= k < own.len() ==> (#[trigger] own[k]).0 >= 0 && own[k].1 > 0,
        decreases tempos.len() - i,
    {
        let (tick, value) = tempos[i];
        if tick < 0 || value <= 0 {
            proof {
                lemma_within_fails(tempos@, total as int, i + 1, tempos.len() as int);
            }
            return Err(GameError::InvalidTempo { value, tick });
        }
        if tick < total || tick == 0 {
            proof {
                lemma_tempo_range(own@, (tick, value));
            }
            insert_tempo(&mut own, (tick, value));
        }
        i += 1;
    }
    if (total > 0 && own.len() == 0) || (own.len() > 0 && own[0].0 > 0) {
        proof {
            lemma_tempo_range(own@, (0, 120));
        }
        insert_tempo(&mut own, (0, 120));
    }
    let mut r: Vec<Tempo> = Vec::new();
    let mut i: usize = 0;
    proof {
        assert(own@.take(0) =~= Seq::<Tempo>::empty());
    }
    while i < own.len()
        invariant
            i <= own.len(),
            forall|k: int| 0 <= k < own.len() ==> (#[trigger] own[k]).0 >= 0 && own[k].1 > 0,
            r@ == changing(own@.take(i as int)),
            r.len() <= i,
            forall|k: int| 0 <= k < r.len() ==> (#[trigger] r[k]).0 >= 0 && r[k].1 > 0,
        decreases own.len() - i,
    {
        proof {
            let longer = own@.take(i + 1);
            assert(longer.drop_last() =~= own@.take(i as int));
            assert(longer.last() == own@[i as int]);
            if i > 0 {
                assert(longer[longer.len() - 2] == own@[i - 1]);
            }
        }
        if i == 0 || own[i - 1].1 != own[i].1 {
            r.push(own[i]);
        }
        i += 1;
    }
    proof {
        assert(own@.take(i as int) =~= own@);
    }
    Ok(r)
}

proof fn lemma_within_fails(tempos: Seq<Tempo>, total: int, from: int, to: int)
    requires
        0 <= from <= to,
    ensures
        tempos_within(tempos, total, from) is Err ==> tempos_within(tempos, total, to)
            == tempos_within(tempos, total, from),
    decreases to - from,
{
    if from < to {
        lemma_within_fails(tempos, total, from, to - 1);
    }
}

proof fn lemma_tempo_range(s: Seq<Tempo>, t: Tempo)
    requires
        forall|k: int| 0 <= k < s.len() ==> (#[trigger] s[k]).0 >= 0 && s[k].1 > 0,
        t.0 >= 0,
        t.1 > 0,
    ensures
        with_tempo(s, t).len() <= s.len() + 1,
        forall|k: int|
            0 <= k < with_tempo(s, t).len() ==> (#[trigger] with_tempo(s, t)[k]).0 >= 0
                && with_tempo(s, t)[k].1 > 0,
    decreases s.len(),
{
    if s.len() > 0 && s.last().0 > t.0 {
        let front = s.drop_last();
        assert forall|k: int| 0 <= k < front.len() implies (#[trigger] front[k]).0 >= 0
            && front[k].1 > 0 by {
            assert(front[k] == s[k]);
        }
        lemma_tempo_range(front, t);
        let inner = with_tempo(front, t);
        let new = with_tempo(s, t);
        assert forall|k: int| 0 <= k < new.len() implies (#[trigger] new[k]).0 >= 0 && new[k].1
            > 0 by {
            if k < inner.len() {
                assert(new[k] == inner[k]);
            } else {
                assert(new[k] == s[s.len() - 1]);
            }
        }
    }
}

/// Whether notes begin no earlier than the score and end no earlier than they begin.
spec fn ordered(notes: Seq<Note>) -> bool {
    forall|i: int| 0 <= i < notes.len() ==> 0 <= (#[trigger] notes[i]).on <= notes[i].off
}

spec fn tempos_ordered(tempos: Seq<Tempo>) -> bool {
    forall|i: int| 0 <= i < tempos.len() ==> (#[trigger] tempos[i]).0 >= 0
}

fn writable(ticks: i128) -> (r: bool)
    requires
        i64::MIN - i64::MAX <= ticks <= i64::MAX - i64::MIN,
    ensures
        r == can_write(ticks as int),
{
    proof {
        lemma_split(ticks as int);
    }
    ticks == 0 || ticks >= 6
}

fn placement(notes: &Vec<Note>, assigned: &Vec<Tempo>, tick: Tick) -> (r: Option<Placement>)
    requires
        ordered(notes@),
        tempos_ordered(assigned@),
        tick >= 0,
    ensures
        r == placement_of(notes@, assigned@, tick as int),
        r matches Some(Placement::Held { note, remaining }) ==> note < notes.len()
            && notes[note as int].on < tick < notes[note as int].off,
{
    let mut next: usize = 0;
    while next < notes.len() && notes[next].on < tick
        invariant
            next <= notes.len(),
            forall|k: int| 0 <= k < next ==> (#[trigger] notes[k]).on < tick,
            first_at(notes@, tick as int, next as int) == first_at(notes@, tick as int, 0),
        decreases notes.len() - next,
    {
        next += 1;
    }
    if next > 0 && notes[next - 1].off > tick {
        let note = notes[next - 1];
        if writable(tick as i128 - note.on as i128) && writable(note.off as i128 - tick as i128) {
            return Some(Placement::Held { note: next - 1, remaining: note.off - tick });
        }
        return None;
    }
    let end: Tick = if next > 0 {
        notes[next - 1].off
    } else {
        0
    };
    let last: Tick = if assigned.len() > 0 {
        assigned[assigned.len() - 1].0
    } else {
        0
    };
    let taken: Tick = if end < last {
        last
    } else {
        end
    };
    if !writable(tick as i128 - taken as i128) {
        return None;
    }
    if next < notes.len() && !writable(notes[next].on as i128 - tick as i128) {
        return None;
    }
    if end == tick || (next < notes.len() && notes[next].on == tick) {
        Some(Placement::Boundary)
    } else {
        Some(Placement::Rest)
    }
}

spec fn tempo_views(tempos: Seq<Vec<Tempo>>) -> Seq<Seq<Tempo>> {
    Seq::new(tempos.len(), |i: int| tempos[i]@)
}

fn rank(notes: &Vec<Note>, place: Placement) -> (r: (i32, Tick))
    requires
        place matches Placement::Held { note, .. } ==> note < notes.len(),
    ensures
        (r.0 as int, r.1 as int) == reluctance(notes@, place),
{
    match place {
        Placement::Boundary => (0, 0),
        Placement::Rest => (1, 0),
        Placement::Held { note, remaining } => if notes[note].vel > 0 {
            (3, remaining)
        } else {
            (2, remaining)
        },
    }
}

/// Places tempos in the parts from one up to another.
fn assign_group(
    parts: &mut Vec<Vec<Note>>,
    assigned: &mut Vec<Vec<Tempo>>,
    from: usize,
    to: usize,
    tempos: &Vec<Tempo>,
    cut: &mut usize,
) -> (r: Result<(), GameError>)
    requires
        from <= to <= old(parts).len() <= 4,
        old(parts).len() == old(assigned).len(),
        forall|i: int| 0 <= i < old(parts).len() ==> ordered((#[trigger] old(parts)@[i])@),
        forall|i: int|
            0 <= i < old(assigned).len() ==> tempos_ordered((#[trigger] old(assigned)@[i])@),
        forall|i: int| 0 <= i < tempos.len() ==> (#[trigger] tempos[i]).0 >= 0,
        *old(cut) + tempos.len() <= usize::MAX,
    ensures
        final(parts).len() == old(parts).len(),
        final(assigned).len() == old(assigned).len(),
        forall|i: int| 0 <= i < final(parts).len() ==> ordered((#[trigger] final(parts)@[i])@),
        forall|i: int|
            0 <= i < final(assigned).len() ==> tempos_ordered((#[trigger] final(assigned)@[i])@),
        *final(cut) <= *old(cut) + tempos.len(),
        ({
            let goal = with_game_tempos(
                Assigned {
                    parts: part_views(old(parts)@),
                    tempos: tempo_views(old(assigned)@),
                    cut: *old(cut) as int,
                },
                from as int,
                to as int,
                tempos@,
                tempos.len() as int,
            );
            match r {
                Ok(_) => goal == Ok::<_, GameError>(
                    Assigned {
                        parts: part_views(final(parts)@),
                        tempos: tempo_views(final(assigned)@),
                        cut: *final(cut) as int,
                    },
                ),
                Err(e) => goal == Err::<Assigned, _>(e),
            }
        }),
{
    let ghost start = Assigned {
        parts: part_views(parts@),
        tempos: tempo_views(assigned@),
        cut: *cut as int,
    };
    let mut t: usize = 0;
    while t < tempos.len()
        invariant
            t <= tempos.len(),
            from <= to <= parts.len() <= 4,
            parts.len() == assigned.len() == old(parts).len(),
            old(parts).len() == old(assigned).len(),
            forall|i: int| 0 <= i < parts.len() ==> ordered((#[trigger] parts@[i])@),
            forall|i: int| 0 <= i < assigned.len() ==> tempos_ordered((#[trigger] assigned@[i])@),
            forall|i: int| 0 <= i < tempos.len() ==> (#[trigger] tempos[i]).0 >= 0,
            *cut <= *old(cut) + t,
            *old(cut) + tempos.len() <= usize::MAX,
            start == (Assigned {
                parts: part_views(old(parts)@),
                tempos: tempo_views(old(assigned)@),
                cut: *old(cut) as int,
            }),
            with_game_tempos(start, from as int, to as int, tempos@, t as int) == Ok::<
                _,
                GameError,
            >(
                Assigned {
                    parts: part_views(parts@),
                    tempos: tempo_views(assigned@),
                    cut: *cut as int,
                },
            ),
        decreases tempos.len() - t,
    {
        let (tick, value) = tempos[t];
        let ghost now = Assigned {
            parts: part_views(parts@),
            tempos: tempo_views(assigned@),
            cut: *cut as int,
        };
        proof {
            assert(tempos[t as int].0 >= 0);
        }
        let mut best: Option<(usize, Placement)> = None;
        let mut best_rank: (i32, Tick) = (0, 0);
        let mut n: usize = from;
        while n < to
            invariant
                from <= n <= to <= parts.len() == assigned.len(),
                tick >= 0,
                now.parts == part_views(parts@),
                now.tempos == tempo_views(assigned@),
                forall|i: int| 0 <= i < parts.len() ==> ordered((#[trigger] parts@[i])@),
                forall|i: int|
                    0 <= i < assigned.len() ==> tempos_ordered((#[trigger] assigned@[i])@),
                match best {
                    None => best_part(now.parts, now.tempos, from as int, n as int, tick as int)
                        is None,
                    Some((b, place)) => {
                        &&& best_part(now.parts, now.tempos, from as int, n as int, tick as int)
                            == Some(b as int)
                        &&& from <= b < n
                        &&& placement_of(
                            now.parts[b as int],
                            now.tempos[b as int],
                            tick as int,
                        ) == Some(place)
                        &&& (best_rank.0 as int, best_rank.1 as int) == reluctance(
                            now.parts[b as int],
                            place,
                        )
                        &&& place matches Placement::Held { note, remaining } ==> note
                            < now.parts[b as int].len() && now.parts[b as int][note as int].on
                            < tick < now.parts[b as int][note as int].off
                    },
                },
            decreases to - n,
        {
            proof {
                assert(ordered(parts@[n as int]@));
                assert(tempos_ordered(assigned@[n as int]@));
                assert(now.parts[n as int] == parts@[n as int]@);
                assert(now.tempos[n as int] == assigned@[n as int]@);
            }
            match placement(&parts[n], &assigned[n], tick) {
                None => {},
                Some(place) => {
                    let own = rank(&parts[n], place);
                    let better: bool = match best {
                        None => true,
                        Some(_) => own.0 < best_rank.0 || (own.0 == best_rank.0 && own.1
                            < best_rank.1),
                    };
                    if better {
                        best = Some((n, place));
                        best_rank = own;
                    }
                },
            }
            n += 1;
        }
        match best {
            None => {
                proof {
                    lemma_assign_fails(
                        start,
                        from as int,
                        to as int,
                        tempos@,
                        t + 1,
                        tempos.len() as int,
                    );
                }
                return Err(GameError::Unplaceable { value, tick });
            },
            Some((p, place)) => {
                let ghost list = now.parts[p as int];
                match place {
                    Placement::Held { note, .. } => {
                        proof {
                            assert(parts@[p as int]@ == list);
                            assert(note < parts@[p as int].len());
                        }
                        let after: usize = note + 1;
                        let part = &mut parts[p];
                        let mut short = part[note];
                        let mut rest = short;
                        if short.vel > 0 {
                            *cut = *cut + 1;
                        }
                        short.off = tick;
                        rest.on = tick;
                        rest.vel = 0;
                        part.set(note, short);
                        part.insert(after, rest);
                        proof {
                            let new = cut_note(list, note as int, tick as int);
                            assert(parts@[p as int]@ =~= new);
                            assert(part_views(parts@) =~= now.parts.update(p as int, new));
                            assert(ordered(list));
                            assert forall|i: int| 0 <= i < new.len() implies 0 <= (
                            #[trigger] new[i]).on <= new[i].off by {
                                if i < note {
                                    assert(new[i] == list[i]);
                                } else if i > note + 1 {
                                    assert(new[i] == list[i - 1]);
                                } else {
                                    assert(0 <= list[note as int].on <= list[note as int].off);
                                }
                            }
                        }
                    },
                    _ => {},
                }
                let ghost before = assigned@[p as int]@;
                let row = &mut assigned[p];
                row.push((tick, value));
                proof {
                    assert(tempo_views(assigned@) =~= now.tempos.update(
                        p as int,
                        now.tempos[p as int].push((tick, value)),
                    ));
                    assert(tempos_ordered(before));
                    assert(tempos_ordered(assigned@[p as int]@)) by {
                        let new = assigned@[p as int]@;
                        assert forall|i: int| 0 <= i < new.len() implies (#[trigger] new[i]).0
                            >= 0 by {
                            if i < before.len() {
                                assert(new[i] == before[i]);
                            }
                        }
                    }
                }
            },
        }
        t += 1;
    }
    Ok(())
}

proof fn lemma_assign_fails(
    a: Assigned,
    from: int,
    to: int,
    tempos: Seq<Tempo>,
    m: int,
    n: int,
)
    requires
        0 <= m <= n,
    ensures
        with_game_tempos(a, from, to, tempos, m) is Err ==> with_game_tempos(a, from, to, tempos, n)
            == with_game_tempos(a, from, to, tempos, m),
    decreases n - m,
{
    if m < n {
        lemma_assign_fails(a, from, to, tempos, m, n - 1);
    }
}

proof fn lemma_plain_fails(parts: Seq<Seq<Note>>, total: int, m: int, n: int)
    requires
        0 <= m <= n,
    ensures
        plain_fault(parts, total, m) is Some ==> plain_fault(parts, total, n) == plain_fault(
            parts,
            total,
            m,
        ),
    decreases n - m,
{
    if m < n {
        lemma_plain_fails(parts, total, m, n - 1);
    }
}

proof fn lemma_texts_fail(a: Assigned, total: int, m: int, n: int)
    requires
        0 <= m <= n,
    ensures
        game_texts(a, total, m) is Err ==> game_texts(a, total, n) == game_texts(a, total, m),
    decreases n - m,
{
    if m < n {
        lemma_texts_fail(a, total, m, n - 1);
    }
}

/// Writes the parts of a track for the game. Whatever tempos are put in, every note is struck as
/// it was.
pub fn emit_track(parts: &[Vec<Note>], tempos: &[Tempo], total: Tick) -> (r: Result<
    GameTrack,
    GameError,
>)
    requires
        tempos.len() < usize::MAX / 2,
    ensures
        match r {
            Ok(track) => game_track(part_views(parts@), tempos@, total as int) == Ok::<
                _,
                GameError,
            >((string_views(track.parts@), track.tempo_note_splits as int)) && keeps_attacks(
                part_views(parts@),
                string_views(track.parts@),
            ),
            Err(e) => game_track(part_views(parts@), tempos@, total as int) == Err::<
                (Seq<Seq<char>>, int),
                _,
            >(e),
        },
{
    let r = write_track(parts, tempos, total);
    proof {
        if r is Ok {
            law_track_keeps_attacks(part_views(parts@), tempos@, total as int);
        }
    }
    r
}

#[verifier::rlimit(40)]
fn write_track(parts: &[Vec<Note>], tempos: &[Tempo], total: Tick) -> (r: Result<
    GameTrack,
    GameError,
>)
    requires
        tempos.len() < usize::MAX / 2,
    ensures
        match r {
            Ok(track) => game_track(part_views(parts@), tempos@, total as int) == Ok::<
                _,
                GameError,
            >((string_views(track.parts@), track.tempo_note_splits as int)) && is_held(
                game_parts(
                    part_views(parts@),
                    game_tempos(tempos@, total as int)->Ok_0,
                )->Ok_0,
            ),
            Err(e) => game_track(part_views(parts@), tempos@, total as int) == Err::<
                (Seq<Seq<char>>, int),
                _,
            >(e),
        },
{
    if total < 0 {
        return Err(GameError::NegativeTotal { total });
    }
    if parts.len() > 4 {
        return Err(GameError::TooManyParts);
    }
    let own = match canonical_tempos(tempos, total) {
        Err(e) => {
            return Err(e);
        },
        Ok(own) => own,
    };
    let table = LengthTable::new();
    let none: Vec<Tempo> = Vec::new();
    let ghost all = part_views(parts@);
    let ghost start = unassigned(all);
    let mut notes: Vec<Vec<Note>> = Vec::new();
    let mut assigned: Vec<Vec<Tempo>> = Vec::new();
    let mut i: usize = 0;
    proof {
        assert(none@ =~= Seq::<Tempo>::empty());
    }
    while i < parts.len()
        invariant
            i <= parts.len() <= 4,
            total >= 0,
            table.well_formed(),
            none@ == Seq::<Tempo>::empty(),
            all == part_views(parts@),
            start == unassigned(all),
            game_tempos(tempos@, total as int) is Ok,
            notes.len() == i,
            assigned.len() == i,
            part_views(notes@) == start.parts.take(i as int),
            tempo_views(assigned@) == start.tempos.take(i as int),
            plain_fault(start.parts, total as int, i as int) is None,
            forall|k: int| 0 <= k < notes.len() ==> ordered((#[trigger] notes@[k])@),
            forall|k: int| 0 <= k < assigned.len() ==> tempos_ordered((#[trigger] assigned@[k])@),
        decreases parts.len() - i,
    {
        let sorted = sort_notes(&parts[i]);
        proof {
            assert(start.parts[i as int] == by_onset(all[i as int]));
            assert(sorted@ == start.parts[i as int]);
        }
        match emit_with(&sorted, &none, total, &table) {
            Err(cause) => {
                proof {
                    lemma_plain_fails(start.parts, total as int, i + 1, parts.len() as int);
                }
                return Err(GameError::Part { index: i, cause });
            },
            Ok(_) => {},
        }
        proof {
            lemma_written_ordered(sorted@, total as int);
        }
        let ghost row = sorted@;
        let ghost before = part_views(notes@);
        let ghost lists = tempo_views(assigned@);
        notes.push(sorted);
        let fresh: Vec<Tempo> = Vec::new();
        assigned.push(fresh);
        i += 1;
        proof {
            assert(part_views(notes@) =~= before.push(row));
            assert(part_views(notes@) =~= start.parts.take(i as int));
            assert(tempo_views(assigned@) =~= lists.push(Seq::empty()));
            assert(tempo_views(assigned@) =~= start.tempos.take(i as int));
        }
    }
    proof {
        assert(start.parts.take(i as int) =~= start.parts);
        assert(start.tempos.take(i as int) =~= start.tempos);
    }
    let mut cut: usize = 0;
    let played: usize = if notes.len() < 3 {
        notes.len()
    } else {
        3
    };
    if played > 0 {
        match assign_group(&mut notes, &mut assigned, 0, played, &own, &mut cut) {
            Err(e) => {
                return Err(e);
            },
            Ok(_) => {},
        }
    }
    let ghost first = Assigned {
        parts: part_views(notes@),
        tempos: tempo_views(assigned@),
        cut: cut as int,
    };
    if notes.len() == 4 && notes[3].len() > 0 {
        match assign_group(&mut notes, &mut assigned, 3, 4, &own, &mut cut) {
            Err(e) => {
                return Err(e);
            },
            Ok(_) => {},
        }
    }
    let ghost last = Assigned {
        parts: part_views(notes@),
        tempos: tempo_views(assigned@),
        cut: cut as int,
    };
    let mut texts: Vec<String> = Vec::new();
    let mut i: usize = 0;
    proof {
        assert(string_views(texts@) =~= Seq::<Seq<char>>::empty());
    }
    while i < notes.len()
        invariant
            i <= notes.len() == parts.len(),
            assigned.len() == notes.len(),
            table.well_formed(),
            last.parts == part_views(notes@),
            last.tempos == tempo_views(assigned@),
            game_texts(last, total as int, i as int) == Ok::<_, GameError>(string_views(texts@)),
            game_texts(last, total as int, parts.len() as int) is Err ==> game_track(
                part_views(parts@),
                tempos@,
                total as int,
            ) == Err::<(Seq<Seq<char>>, int), _>(
                game_texts(last, total as int, parts.len() as int)->Err_0,
            ),
        decreases notes.len() - i,
    {
        proof {
            assert(last.parts[i as int] == notes@[i as int]@);
            assert(last.tempos[i as int] == assigned@[i as int]@);
        }
        match emit_with(&notes[i], &assigned[i], total, &table) {
            Err(cause) => {
                proof {
                    lemma_texts_fail(last, total as int, i + 1, parts.len() as int);
                }
                return Err(GameError::Part { index: i, cause });
            },
            Ok(text) => {
                let ghost before = string_views(texts@);
                let ghost view = text@;
                texts.push(text);
                proof {
                    assert(string_views(texts@) =~= before.push(view));
                }
            },
        }
        i += 1;
    }
    proof {
        lemma_held_parts(notes@);
        assert(is_held(last));
        assert(game_parts(all, own@) == Ok::<_, GameError>(last));
    }
    Ok(GameTrack { parts: texts, tempo_note_splits: cut })
}

proof fn lemma_held_parts(parts: Seq<Vec<Note>>)
    ensures
        forall|p: int|
            0 <= p < part_views(parts).len() ==> (#[trigger] part_views(parts)[p]).len()
                <= usize::MAX,
{
    assert forall|p: int| 0 <= p < part_views(parts).len() implies (#[trigger] part_views(
        parts,
    )[p]).len() <= usize::MAX by {
        assert(part_views(parts)[p] == parts[p]@);
        assert(parts[p]@.len() == parts[p].len() as int);
    }
}

/// Notes that can be written begin and end in order.
proof fn lemma_written_ordered(notes: Seq<Note>, total: int)
    requires
        part_text(notes, Seq::empty(), total) is Ok,
    ensures
        ordered(notes),
{
    let s = by_onset(notes);
    assert(s.take(0) =~= Seq::<Note>::empty());
    crate::writer::lemma_no_note_fault(s, 0);
    crate::order::lemma_stable_sort(notes, |n: Note| crate::score::onset_key(n));
    assert forall|i: int| 0 <= i < notes.len() implies 0 <= (#[trigger] notes[i]).on
        <= notes[i].off by {
        assert(s.contains(notes[i]));
        let k = choose|k: int| 0 <= k < s.len() && s[k] == notes[i];
        assert(0 <= s[k].on < s[k].off);
    }
}

} // verus!
