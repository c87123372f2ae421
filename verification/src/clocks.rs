//! What the time of a file comes to in a score.
use crate::assemble::{changing, shaped, tick_of, volume_of};
use crate::chunk::tempo_at;
use crate::placing::{bpm_of, denominator, lemma_times_of, next_tick, tempo_at_time, times_of, units_per_tick, Spot};
use crate::score::{ticks_ascend, Tempo, Tick};
use crate::smf::SmfTiming;
use crate::song::SongView;
use crate::steady::{in_force, lemma_tempo_at};
use crate::voices::{earliest_end, first_beyond};
use vstd::prelude::*;

verus! {

/// How far two numbers are apart.
pub open spec fn distance(a: int, b: int) -> int {
    if a < b {
        b - a
    } else {
        a - b
    }
}

/// The beats per minute are the whole number from 1 to 255 that is nearest: with no other do as
/// many quarter notes come as near to a minute.
pub proof fn law_nearest_beat(micros: int, other: int)
    requires
        micros > 0,
        1 <= other <= 255,
    ensures
        1 <= bpm_of(micros) <= 255,
        distance(60000000, bpm_of(micros) * micros) <= distance(60000000, other * micros),
{
    let m = micros;
    let n = (120000000 + m) / (2 * m);
    let b = bpm_of(m);
    vstd::arithmetic::div_mod::lemma_fundamental_div_mod(120000000 + m, 2 * m);
    let r = (120000000 + m) % (2 * m);
    assert(0 <= r < 2 * m);
    let x = n * m;
    assert(120000000 + m == 2 * x + r) by (nonlinear_arith)
        requires
            120000000 + m == (2 * m) * n + r,
            x == n * m,
    ;
    let y = other * m;
    let z = b * m;
    if other > n {
        assert(y >= x + m) by (nonlinear_arith)
            requires
                other >= n + 1,
                m > 0,
                y == other * m,
                x == n * m,
        ;
    }
    if other < n {
        assert(y <= x - m) by (nonlinear_arith)
            requires
                other <= n - 1,
                m > 0,
                y == other * m,
                x == n * m,
        ;
    }
    if n > 255 {
        assert(y <= z && z <= x - m) by (nonlinear_arith)
            requires
                other <= b,
                b <= n - 1,
                m > 0,
                y == other * m,
                x == n * m,
                z == b * m,
        ;
    } else if n < 1 {
        assert(x <= 0 && z <= y && z == m) by (nonlinear_arith)
            requires
                other >= 1,
                b == 1,
                n <= 0,
                m > 0,
                y == other * m,
                x == n * m,
                z == b * m,
        ;
    } else if other == n {
        assert(y == x);
    }
}

/// A quarter note of a file lasts as long as its tempo says.
pub proof fn law_quarter_note(ppqn: u16, micros: u32)
    ensures
        ppqn as int * units_per_tick(SmfTiming::Metrical(ppqn), micros) == micros as int * denominator(
            SmfTiming::Metrical(ppqn),
        ),
{
    let p = ppqn as int;
    let m = micros as int;
    assert(p * m == m * p) by (nonlinear_arith);
}

/// A second holds as many frames as the rate says; at 29 frames, which stand for 29.97, 30000 frames
/// last 1001 seconds.
pub proof fn law_frames(rate: u8, subframes: u8, micros: u32)
    ensures
        ({
            let timing = SmfTiming::Timecode(rate, subframes);
            if rate == 29 {
                (30000 * subframes) * units_per_tick(timing, micros) == (1001 * 1000000)
                    * denominator(timing)
            } else {
                (rate * subframes) * units_per_tick(timing, micros) == 1000000 * denominator(timing)
            }
        }),
{
    let timing = SmfTiming::Timecode(rate, subframes);
    let units = units_per_tick(timing, micros);
    let whole = denominator(timing);
    let s = subframes as int;
    let f = rate * subframes;
    if rate == 29 {
        assert((30000 * s) * units == (1001 * 1000000) * whole) by (nonlinear_arith)
            requires
                units == 1001000000,
                whole == 30000 * s,
        ;
    } else {
        assert(f * units == 1000000 * whole) by (nonlinear_arith)
            requires
                units == 1000000,
                whole == f,
        ;
    }
}

/// A time is placed at the tick that is nearest to it where that keeps the shortest length from the
/// time before; else it is placed with that time or the shortest length behind it, whichever is
/// nearer.
pub proof fn law_next_tick(target: int, spot: Spot)
    ensures
        spot.rounded >= target + 6 ==> next_tick(target, spot) == spot.rounded,
        spot.rounded < target + 6 && spot.over_half ==> next_tick(target, spot) == target + 6,
        spot.rounded < target + 6 && !spot.over_half ==> next_tick(target, spot) == target,
{
}

/// The volume of a note is the one from 1 to 15 whose share of the greatest volume is nearest to
/// the share that its velocity is of the greatest velocity.
pub proof fn law_nearest_volume(velocity: int, other: int)
    requires
        1 <= velocity <= 127,
        1 <= other <= 15,
    ensures
        1 <= volume_of(velocity) <= 15,
        distance(velocity * 15, volume_of(velocity) * 127) <= distance(velocity * 15, other * 127),
{
}

pub(crate) proof fn lemma_changing(tempos: Seq<Tempo>, t: int)
    requires
        ticks_ascend(tempos),
    ensures
        tempo_at(changing(tempos), t) == tempo_at(tempos, t),
        ticks_ascend(changing(tempos)),
        tempos.len() > 0 ==> changing(tempos).len() > 0 && changing(tempos).last().0
            <= tempos.last().0 && changing(tempos).last().1 == tempos.last().1,
        forall|k: int|
            0 < k < changing(tempos).len() ==> (#[trigger] changing(tempos)[k]).1 != changing(
                tempos,
            )[k - 1].1,
    decreases tempos.len(),
{
    if tempos.len() > 0 {
        let front = tempos.drop_last();
        lemma_changing(front, t);
        let before = changing(front);
        let all = changing(tempos);
        let n = tempos.len() as int;
        if n > 1 {
            assert(tempos[n - 2].0 < tempos[n - 1].0);
            assert(front.last() == tempos[n - 2]);
        }
        if n > 1 && tempos[n - 2].1 == tempos.last().1 {
        } else {
            assert(all.drop_last() =~= before);
            assert forall|i: int, j: int|
                #![trigger all[i], all[j]]
                0 <= i < j < all.len() implies all[i].0 < all[j].0 by {
                assert(all[i] == before[i]);
                if j < before.len() {
                    assert(all[j] == before[j]);
                } else if i < before.len() - 1 {
                    assert(before[i].0 < before[before.len() - 1].0);
                }
            }
            assert forall|k: int| 0 < k < all.len() implies (#[trigger] all[k]).1 != all[k - 1].1 by {
                assert(all[k - 1] == before[k - 1]);
                if k < before.len() {
                    assert(all[k] == before[k]);
                }
            }
        }
    }
}

/// A score that leaves out the tempos that change nothing goes at the same tempo at every tick, and
/// each tempo that it keeps does change something.
pub proof fn law_only_changes_are_kept(tempos: Seq<Tempo>, t: int, bpm: i32, k: int)
    requires
        ticks_ascend(tempos),
    ensures
        in_force(changing(tempos), t, bpm) <==> in_force(tempos, t, bpm),
        0 < k < changing(tempos).len() ==> changing(tempos)[k].1 != changing(tempos)[k - 1].1,
{
    lemma_changing(tempos, t);
    lemma_tempo_at(tempos, t);
    lemma_tempo_at(changing(tempos), t);
}

/// A tempo counts at a time exactly where the file sets it there.
pub proof fn law_tempo_at_time(tempos: Seq<(u64, u32)>, t: u64, micros: u32)
    requires
        crate::released::points_ascend(tempos),
    ensures
        tempo_at_time(tempos, t) == Some(micros) <==> tempos.contains((t, micros)),
    decreases tempos.len(),
{
    if tempos.len() > 0 {
        let front = tempos.drop_last();
        let n = tempos.len() as int;
        law_tempo_at_time(front, t, micros);
        if tempos.contains((t, micros)) {
            let k = choose|k: int| 0 <= k < n && tempos[k] == (t, micros);
            if k < n - 1 {
                assert(tempos[k].0 < tempos[n - 1].0);
                assert(front[k] == (t, micros));
            }
        }
        if front.contains((t, micros)) {
            let k = choose|k: int| 0 <= k < front.len() && front[k] == (t, micros);
            assert(tempos[k] == (t, micros));
        }
        if tempos.last() == (t, micros) {
            assert(tempos[n - 1] == (t, micros));
        }
    }
}

/// Whether a time of a song has been placed at a tick.
pub open spec fn is_placed_at(song: SongView, points: Seq<Tick>, time: u64, tick: Tick) -> bool {
    exists|i: int|
        0 <= i < times_of(song).len() && #[trigger] times_of(song)[i] == time && points[i] == tick
}

proof fn lemma_first_beyond(ticks: Seq<Tick>, t: int, i: int)
    requires
        0 <= i,
    ensures
        first_beyond(ticks, t, i) matches Some(next) ==> next > t,
    decreases ticks.len() - i,
{
    if i < ticks.len() && ticks[i] <= t {
        lemma_first_beyond(ticks, t, i + 1);
    }
}

/// Every note of a file becomes a note of the score. It keeps its pitch, begins at the tick where
/// the begin of the note was placed, and ends where its end was placed; where that is the same
/// tick it ends behind it, so that no note is lost.
pub proof fn law_notes_are_shaped(song: SongView, points: Seq<Tick>, n: int, k: int)
    requires
        0 <= k < n <= song.notes.len(),
        points.len() >= times_of(song).len(),
        forall|i: int| 0 <= i < points.len() ==> 0 <= #[trigger] points[i] <= 2147483653,
        forall|i: int, j: int|
            #![trigger points[i], points[j]]
            0 <= i <= j < points.len() ==> points[i] <= points[j],
        forall|i: int|
            0 <= i < song.notes.len() ==> (#[trigger] song.notes[i]).off is Some
                && song.notes[i].on <= song.notes[i].off->Some_0,
    ensures
        shaped(song, points, n).notes.len() == n,
        ({
            let note = shaped(song, points, n).notes[k];
            let source = song.notes[k];
            &&& note.pitch == source.pitch
            &&& note.on < note.off
            &&& is_placed_at(song, points, source.on, note.on)
            &&& is_placed_at(song, points, source.off->Some_0, note.off) || (is_placed_at(
                song,
                points,
                source.off->Some_0,
                note.on,
            ) && note.off <= note.on + 11)
        }),
    decreases n,
{
    let before = shaped(song, points, n - 1);
    if k < n - 1 {
        law_notes_are_shaped(song, points, n - 1, k);
    } else {
        lemma_shaped_len(song, points, n - 1);
        lemma_times_of(song);
        let times = times_of(song);
        let source = song.notes[k];
        assert(times.contains(source.on) && times.contains(source.off->Some_0));
        let a = crate::assemble::time_index(times, source.on);
        let b = crate::assemble::time_index(times, source.off->Some_0);
        assert(0 <= a < times.len() && times[a] == source.on);
        assert(0 <= b < times.len() && times[b] == source.off->Some_0);
        if b < a {
            assert(times[b] < times[a]);
        }
        assert(points[a] <= points[b]);
        let on = tick_of(times, points, source.on);
        lemma_first_beyond(before.ticks, on as int, 0);
        assert(on < earliest_end(on as int, before.ticks) <= on + 11);
    }
}

proof fn lemma_shaped_len(song: SongView, points: Seq<Tick>, n: int)
    requires
        0 <= n,
    ensures
        shaped(song, points, n).notes.len() == n,
    decreases n,
{
    if n > 0 {
        lemma_shaped_len(song, points, n - 1);
    }
}

} // verus!
