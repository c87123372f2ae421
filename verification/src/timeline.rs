//! What a player is given of a score: the tempos that count, and the notes with their places.
use crate::score::{last_end, part_views, ticks_ascend, Note, Score, ScoreView, Tempo, Tick, TrackView};
use vstd::prelude::*;

verus! {

/// Why a score cannot be played.
#[derive(Clone, Copy, Debug, PartialEq, Eq, Structural)]
pub enum TimelineFault {
    /// The last note ends before the score begins.
    Duration,
    /// A tempo before the beginning, or one that is not positive.
    Tempo { tick: Tick, bpm: i32 },
    /// A note before the beginning, or one that ends before it begins.
    Interval { on: Tick, off: Tick },
}

/// A note that is to be played, with the track and the part that it stands in and with how
/// loud it is, from 0 to 15.
#[derive(Clone, Copy, Debug, PartialEq, Eq, Structural)]
pub struct ScheduledNote {
    pub track: usize,
    pub part: usize,
    pub on: Tick,
    pub off: Tick,
    pub pitch: i32,
    pub level: i32,
}

/// The tempos of a score from its beginning to its end, the notes to be played, and how long
/// it lasts.
#[derive(Debug)]
pub struct Timeline {
    pub tempos: Vec<Tempo>,
    pub notes: Vec<ScheduledNote>,
    pub total_ticks: Tick,
}

/// The first of some tempos that cannot be played.
pub open spec fn bad_tempo(tempos: Seq<Tempo>) -> Option<Tempo>
    decreases tempos.len(),
{
    if tempos.len() == 0 {
        None
    } else {
        match bad_tempo(tempos.drop_last()) {
            Some(t) => Some(t),
            None => if tempos.last().0 < 0 || tempos.last().1 <= 0 {
                Some(tempos.last())
            } else {
                None
            },
        }
    }
}

/// The tempos with that at the beginning, which is 120 where none is given.
pub open spec fn from_start(tempos: Seq<Tempo>) -> Seq<Tempo> {
    if tempos.len() > 0 && tempos[0].0 == 0 {
        tempos
    } else {
        seq![(0i64, 120i32)] + tempos
    }
}

/// The tempos that come into force up to a tick.
pub open spec fn up_to(tempos: Seq<Tempo>, total: Tick) -> Seq<Tempo> {
    tempos.filter(|t: Tempo| t.0 <= total)
}

pub open spec fn level_of(vel: i32) -> i32 {
    if vel < 0 {
        0
    } else if vel > 15 {
        15
    } else {
        vel
    }
}

/// What is played of the first notes of a part, or the first note that cannot be played.
pub open spec fn part_plan(track: int, part: int, notes: Seq<Note>, n: int) -> Result<
    Seq<ScheduledNote>,
    TimelineFault,
>
    decreases n,
{
    if n <= 0 {
        Ok(Seq::empty())
    } else {
        match part_plan(track, part, notes, n - 1) {
            Err(e) => Err(e),
            Ok(before) => {
                let note = notes[n - 1];
                if note.on < 0 || note.off < note.on {
                    Err(TimelineFault::Interval { on: note.on, off: note.off })
                } else if note.on == note.off {
                    Ok(before)
                } else {
                    Ok(
                        before.push(
                            ScheduledNote {
                                track: track as usize,
                                part: part as usize,
                                on: note.on,
                                off: note.off,
                                pitch: note.pitch,
                                level: level_of(note.vel),
                            },
                        ),
                    )
                }
            },
        }
    }
}

/// What is played of the first parts of a track.
pub open spec fn track_plan(track: int, parts: Seq<Seq<Note>>, n: int) -> Result<
    Seq<ScheduledNote>,
    TimelineFault,
>
    decreases n,
{
    if n <= 0 {
        Ok(Seq::empty())
    } else {
        match track_plan(track, parts, n - 1) {
            Err(e) => Err(e),
            Ok(before) => match part_plan(
                track,
                n - 1,
                parts[n - 1],
                parts[n - 1].len() as int,
            ) {
                Err(e) => Err(e),
                Ok(more) => Ok(before + more),
            },
        }
    }
}

/// What is played of the first tracks of a score.
pub open spec fn score_plan(tracks: Seq<TrackView>, n: int) -> Result<
    Seq<ScheduledNote>,
    TimelineFault,
>
    decreases n,
{
    if n <= 0 {
        Ok(Seq::empty())
    } else {
        match score_plan(tracks, n - 1) {
            Err(e) => Err(e),
            Ok(before) => match track_plan(
                n - 1,
                tracks[n - 1].parts,
                tracks[n - 1].parts.len() as int,
            ) {
                Err(e) => Err(e),
                Ok(more) => Ok(before + more),
            },
        }
    }
}

/// What a player is given of a score, or the first thing that cannot be played.
pub open spec fn timeline_of(score: ScoreView) -> Result<
    (Seq<Tempo>, Seq<ScheduledNote>),
    TimelineFault,
> {
    let total = last_end(score.notes());
    if total < 0 {
        Err(TimelineFault::Duration)
    } else {
        match bad_tempo(score.all_tempos()) {
            Some(t) => Err(TimelineFault::Tempo { tick: t.0, bpm: t.1 }),
            None => match score_plan(score.tracks, score.tracks.len() as int) {
                Err(e) => Err(e),
                Ok(notes) => Ok((up_to(from_start(score.all_tempos()), total), notes)),
            },
        }
    }
}

proof fn lemma_part_fails(track: int, part: int, notes: Seq<Note>, from: int, to: int)
    requires
        0 <= from <= to,
        part_plan(track, part, notes, from) is Err,
    ensures
        part_plan(track, part, notes, to) == part_plan(track, part, notes, from),
    decreases to - from,
{
    if from < to {
        lemma_part_fails(track, part, notes, from, to - 1);
    }
}

proof fn lemma_track_fails(track: int, parts: Seq<Seq<Note>>, from: int, to: int)
    requires
        0 <= from <= to,
        track_plan(track, parts, from) is Err,
    ensures
        track_plan(track, parts, to) == track_plan(track, parts, from),
    decreases to - from,
{
    if from < to {
        lemma_track_fails(track, parts, from, to - 1);
    }
}

proof fn lemma_score_fails(tracks: Seq<TrackView>, from: int, to: int)
    requires
        0 <= from <= to,
        score_plan(tracks, from) is Err,
    ensures
        score_plan(tracks, to) == score_plan(tracks, from),
    decreases to - from,
{
    if from < to {
        lemma_score_fails(tracks, from, to - 1);
    }
}

proof fn lemma_bad_stays(tempos: Seq<Tempo>, n: int)
    requires
        0 <= n <= tempos.len(),
        bad_tempo(tempos.take(n)) is Some,
    ensures
        bad_tempo(tempos) == bad_tempo(tempos.take(n)),
    decreases tempos.len() - n,
{
    if n == tempos.len() {
        assert(tempos.take(n) =~= tempos);
    } else {
        assert(tempos.take(n + 1).drop_last() =~= tempos.take(n));
        lemma_bad_stays(tempos, n + 1);
    }
}

proof fn lemma_good_tempos(tempos: Seq<Tempo>)
    requires
        bad_tempo(tempos) is None,
    ensures
        forall|i: int|
            0 <= i < tempos.len() ==> (#[trigger] tempos[i]).0 >= 0 && tempos[i].1 > 0,
    decreases tempos.len(),
{
    if tempos.len() > 0 {
        lemma_good_tempos(tempos.drop_last());
        assert forall|i: int| 0 <= i < tempos.len() implies (#[trigger] tempos[i]).0 >= 0
            && tempos[i].1 > 0 by {
            if i < tempos.len() - 1 {
                assert(tempos.drop_last()[i] == tempos[i]);
            }
        }
    }
}

fn check_tempos(tempos: &Vec<Tempo>) -> (r: Option<Tempo>)
    ensures
        r == bad_tempo(tempos@),
{
    let mut i: usize = 0;
    proof {
        assert(tempos@.take(0) =~= Seq::<Tempo>::empty());
    }
    while i < tempos.len()
        invariant
            i <= tempos.len(),
            bad_tempo(tempos@.take(i as int)) is None,
        decreases tempos.len() - i,
    {
        proof {
            assert(tempos@.take(i + 1).drop_last() =~= tempos@.take(i as int));
        }
        if tempos[i].0 < 0 || tempos[i].1 <= 0 {
            proof {
                lemma_bad_stays(tempos@, i + 1);
            }
            return Some(tempos[i]);
        }
        i += 1;
    }
    proof {
        assert(tempos@.take(i as int) =~= tempos@);
    }
    None
}

fn select_tempos(tempos: &Vec<Tempo>, total: Tick) -> (r: Vec<Tempo>)
    requires
        total >= 0,
    ensures
        r@ == up_to(from_start(tempos@), total),
{
    let ghost keep = |t: Tempo| t.0 <= total;
    let ghost all = from_start(tempos@);
    let mut r: Vec<Tempo> = Vec::new();
    let given = tempos.len() > 0 && tempos[0].0 == 0;
    if !given {
        r.push((0, 120));
    }
    let ghost shift: int = if given { 0 } else { 1 };
    proof {
        reveal(Seq::filter);
        assert(all.take(0) =~= Seq::<Tempo>::empty());
        if !given {
            assert(all.take(1).drop_last() =~= Seq::<Tempo>::empty());
            assert(all.take(1).last() == (0i64, 120i32));
            assert(r@ =~= all.take(1).filter(keep));
        } else {
            assert(r@ =~= all.take(0).filter(keep));
        }
    }
    let mut i: usize = 0;
    while i < tempos.len()
        invariant
            i <= tempos.len(),
            all == from_start(tempos@),
            shift == 0 || shift == 1,
            all.len() == tempos.len() + shift,
            forall|k: int| 0 <= k < tempos.len() ==> #[trigger] tempos@[k] == all[k + shift],
            keep == (|t: Tempo| t.0 <= total),
            r@ == all.take(i + shift).filter(keep),
        decreases tempos.len() - i,
    {
        let ghost before = r@;
        proof {
            reveal(Seq::filter);
            assert(all.take(i + shift + 1).drop_last() =~= all.take(i + shift));
            assert(all.take(i + shift + 1).last() == tempos@[i as int]);
        }
        if tempos[i].0 <= total {
            r.push(tempos[i]);
        }
        i += 1;
    }
    proof {
        assert(all.take(i + shift) =~= all);
    }
    r
}

fn plan_part(track: usize, part: usize, notes: &Vec<Note>, out: &mut Vec<ScheduledNote>) -> (r:
    Result<(), TimelineFault>)
    ensures
        match part_plan(track as int, part as int, notes@, notes.len() as int) {
            Ok(plan) => r is Ok && final(out)@ == old(out)@ + plan,
            Err(e) => r == Err::<(), TimelineFault>(e),
        },
{
    let ghost start = out@;
    let mut i: usize = 0;
    proof {
        assert(start + Seq::<ScheduledNote>::empty() =~= start);
    }
    while i < notes.len()
        invariant
            i <= notes.len(),
            match part_plan(track as int, part as int, notes@, i as int) {
                Ok(plan) => out@ == start + plan,
                Err(e) => false,
            },
        decreases notes.len() - i,
    {
        let note = &notes[i];
        if note.on < 0 || note.off < note.on {
            proof {
                lemma_part_fails(track as int, part as int, notes@, i + 1, notes.len() as int);
            }
            return Err(TimelineFault::Interval { on: note.on, off: note.off });
        }
        if note.on != note.off {
            let ghost before = out@;
            let level: i32 = if note.vel < 0 {
                0
            } else if note.vel > 15 {
                15
            } else {
                note.vel
            };
            out.push(
                ScheduledNote {
                    track,
                    part,
                    on: note.on,
                    off: note.off,
                    pitch: note.pitch,
                    level,
                },
            );
            proof {
                let plan = part_plan(track as int, part as int, notes@, i as int)->Ok_0;
                assert(out@ =~= start + plan.push(out@.last()));
            }
        }
        i += 1;
    }
    Ok(())
}

fn plan_track(track: usize, parts: &Vec<Vec<Note>>, out: &mut Vec<ScheduledNote>) -> (r: Result<
    (),
    TimelineFault,
>)
    ensures
        match track_plan(track as int, part_views(parts@), parts.len() as int) {
            Ok(plan) => r is Ok && final(out)@ == old(out)@ + plan,
            Err(e) => r == Err::<(), TimelineFault>(e),
        },
{
    let ghost start = out@;
    let ghost views = part_views(parts@);
    let mut i: usize = 0;
    proof {
        assert(start + Seq::<ScheduledNote>::empty() =~= start);
    }
    while i < parts.len()
        invariant
            i <= parts.len(),
            views == part_views(parts@),
            match track_plan(track as int, views, i as int) {
                Ok(plan) => out@ == start + plan,
                Err(e) => false,
            },
        decreases parts.len() - i,
    {
        let ghost before = track_plan(track as int, views, i as int)->Ok_0;
        proof {
            assert(views[i as int] == parts@[i as int]@);
        }
        if let Err(e) = plan_part(track, i, &parts[i], out) {
            proof {
                lemma_track_fails(track as int, views, i + 1, parts.len() as int);
            }
            return Err(e);
        }
        proof {
            let more = part_plan(
                track as int,
                i as int,
                views[i as int],
                views[i as int].len() as int,
            )->Ok_0;
            assert(start + before + more =~= start + (before + more));
        }
        i += 1;
    }
    Ok(())
}

impl Timeline {
    /// Finds out what a player is given of a score.
    pub fn from_score(score: &Score) -> (r: Result<Self, TimelineFault>)
        ensures
            match r {
                Ok(timeline) => timeline_of(score@) == Ok::<_, TimelineFault>(
                    (timeline.tempos@, timeline.notes@),
                ) && timeline.total_ticks == last_end(score@.notes()),
                Err(e) => timeline_of(score@) == Err::<
                    (Seq<Tempo>, Seq<ScheduledNote>),
                    TimelineFault,
                >(e),
            },
    {
        let total_ticks = score.total_ticks();
        if total_ticks < 0 {
            return Err(TimelineFault::Duration);
        }
        let given = score.tempos();
        if let Some(t) = check_tempos(&given) {
            return Err(TimelineFault::Tempo { tick: t.0, bpm: t.1 });
        }
        let tempos = select_tempos(&given, total_ticks);
        let mut notes: Vec<ScheduledNote> = Vec::new();
        let mut i: usize = 0;
        while i < score.tracks.len()
            invariant
                i <= score.tracks.len(),
                total_ticks == last_end(score@.notes()) && total_ticks >= 0,
                bad_tempo(score@.all_tempos()) is None,
                tempos@ == up_to(from_start(score@.all_tempos()), total_ticks),
                score_plan(score@.tracks, i as int) == Ok::<_, TimelineFault>(notes@),
            decreases score.tracks.len() - i,
        {
            if let Err(e) = plan_track(i, &score.tracks[i].parts, &mut notes) {
                proof {
                    lemma_score_fails(score@.tracks, i + 1, score.tracks.len() as int);
                }
                return Err(e);
            }
            i += 1;
        }
        Ok(Timeline { tempos, notes, total_ticks })
    }
}

proof fn lemma_up_to(tempos: Seq<Tempo>, total: Tick)
    requires
        ticks_ascend(tempos),
    ensures
        up_to(tempos, total).len() <= tempos.len(),
        up_to(tempos, total) == tempos.take(up_to(tempos, total).len() as int),
        up_to(tempos, total).len() < tempos.len() ==> tempos[up_to(
            tempos,
            total,
        ).len() as int].0 > total,
        forall|i: int|
            0 <= i < up_to(tempos, total).len() ==> (#[trigger] up_to(tempos, total)[i]).0
                <= total,
    decreases tempos.len(),
{
    reveal(Seq::filter);
    let kept = up_to(tempos, total);
    if tempos.len() == 0 {
        assert(kept =~= tempos.take(0));
    } else {
        let front = tempos.drop_last();
        let fewer = up_to(front, total);
        assert forall|i: int, j: int|
            #![trigger front[i], front[j]]
            0 <= i < j < front.len() implies front[i].0 < front[j].0 by {
            assert(front[i] == tempos[i] && front[j] == tempos[j]);
        }
        lemma_up_to(front, total);
        if tempos.last().0 <= total {
            if fewer.len() < front.len() {
                let k = fewer.len() as int;
                assert(front[k] == tempos[k]);
                assert(tempos[k].0 < tempos[tempos.len() - 1].0);
            }
            assert(fewer =~= front);
            assert(kept =~= tempos.take(kept.len() as int));
            assert forall|i: int| 0 <= i < kept.len() implies (#[trigger] kept[i]).0 <= total by {
                if i < fewer.len() {
                    assert(kept[i] == fewer[i]);
                }
            }
        } else {
            assert(kept == fewer);
            assert(front.take(kept.len() as int) =~= tempos.take(kept.len() as int));
            if kept.len() < front.len() {
                assert(front[kept.len() as int] == tempos[kept.len() as int]);
            }
        }
    }
}

/// The tempos of a score that is played begin at its beginning, follow one another in time, are
/// positive, and end with the score: at every tick of the score exactly one of them is in
/// force.
pub proof fn law_tempos_cover(score: ScoreView)
    requires
        timeline_of(score) is Ok,
        ticks_ascend(score.all_tempos()),
    ensures
        timeline_of(score)->Ok_0.0.len() > 0,
        timeline_of(score)->Ok_0.0[0].0 == 0,
        ticks_ascend(timeline_of(score)->Ok_0.0),
        forall|i: int|
            0 <= i < timeline_of(score)->Ok_0.0.len() ==> 0 <= (#[trigger] timeline_of(
                score,
            )->Ok_0.0[i]).0 <= last_end(score.notes()) && timeline_of(score)->Ok_0.0[i].1 > 0,
{
    let given = score.all_tempos();
    let total = last_end(score.notes());
    let all = from_start(given);
    lemma_good_tempos(given);
    assert forall|i: int, j: int|
        #![trigger all[i], all[j]]
        0 <= i < j < all.len() implies all[i].0 < all[j].0 by {
        if !(given.len() > 0 && given[0].0 == 0) {
            assert(all[j] == given[j - 1]);
            if i > 0 {
                assert(all[i] == given[i - 1]);
            } else if j > 1 {
                assert(given[0].0 < given[j - 1].0);
            }
        }
    }
    assert forall|i: int| 0 <= i < all.len() implies (#[trigger] all[i]).0 >= 0 && all[i].1
        > 0 by {
        if !(given.len() > 0 && given[0].0 == 0) && i > 0 {
            assert(all[i] == given[i - 1]);
        } else if given.len() > 0 && given[0].0 == 0 {
            assert(all[i] == given[i]);
        }
    }
    lemma_up_to(all, total);
    let kept = up_to(all, total);
    assert(all[0].0 == 0);
    assert(kept.len() > 0);
    assert(kept[0] == all[0]);
    assert forall|i: int, j: int|
        #![trigger kept[i], kept[j]]
        0 <= i < j < kept.len() implies kept[i].0 < kept[j].0 by {
        assert(kept[i] == all[i] && kept[j] == all[j]);
    }
    assert forall|i: int| 0 <= i < kept.len() implies 0 <= (#[trigger] kept[i]).0 <= total
        && kept[i].1 > 0 by {
        assert(kept[i] == all[i]);
    }
}

} // verus!
