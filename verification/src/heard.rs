//! What is counted of the notes around a note.
use crate::led::together;
use crate::salience::{
    beat_of, crowd_of, has_pitch, is_line, reach_start, run_start, window_of, REACH,
};
use crate::score::{Note, Tick};
use vstd::prelude::*;

verus! {

/// Whether a note is heard at a tick: it begins there, or it sounds there.
pub open spec fn is_heard_at(note: Note, tick: Tick, attack: bool) -> bool {
    if attack {
        note.on == tick
    } else {
        note.on <= tick && tick < note.off
    }
}

/// The notes that are heard at a tick.
pub open spec fn heard_at(notes: Seq<Note>, tick: Tick, attack: bool) -> Seq<Note> {
    notes.filter(|n: Note| is_heard_at(n, tick, attack))
}

/// The sum of the pitches of some notes, and of their lengths.
pub open spec fn sums(notes: Seq<Note>) -> (int, int)
    decreases notes.len(),
{
    if notes.len() == 0 {
        (0, 0)
    } else {
        let before = sums(notes.drop_last());
        (before.0 + notes.last().pitch, before.1 + (notes.last().off - notes.last().on))
    }
}

proof fn lemma_crowd(notes: Seq<Note>, tick: Tick, attack: bool, pitch: i32, n: int)
    requires
        0 <= n <= notes.len(),
    ensures
        ({
            let c = crowd_of(notes, tick, attack, pitch, n);
            let heard = heard_at(notes.take(n), tick, attack);
            &&& c.count == heard.len()
            &&& c.below == heard.filter(|m: Note| m.pitch < pitch).len()
            &&& c.equal == heard.filter(|m: Note| m.pitch == pitch).len()
            &&& c.pitches == sums(heard).0
            &&& c.durations == sums(heard).1
            &&& c.top >= pitch && (c.top == pitch || exists|k: int|
                0 <= k < heard.len() && (#[trigger] heard[k]).pitch == c.top)
            &&& forall|k: int| 0 <= k < heard.len() ==> (#[trigger] heard[k]).pitch <= c.top
            &&& c.loudest >= 1 && (c.loudest == 1 || exists|k: int|
                0 <= k < heard.len() && (#[trigger] heard[k]).vel == c.loudest)
            &&& forall|k: int| 0 <= k < heard.len() ==> (#[trigger] heard[k]).vel <= c.loudest
        }),
    decreases n,
{
    reveal(Seq::filter);
    let all = heard_at(notes.take(n), tick, attack);
    if n <= 0 {
        assert(notes.take(n) =~= Seq::<Note>::empty());
    } else {
        lemma_crowd(notes, tick, attack, pitch, n - 1);
        assert(notes.take(n).drop_last() =~= notes.take(n - 1));
        assert(notes.take(n).last() == notes[n - 1]);
        let before = heard_at(notes.take(n - 1), tick, attack);
        let b = crowd_of(notes, tick, attack, pitch, n - 1);
        let c = crowd_of(notes, tick, attack, pitch, n);
        let note = notes[n - 1];
        if is_heard_at(note, tick, attack) {
            assert(all == before.push(note));
            assert(all.drop_last() =~= before);
            assert forall|k: int| 0 <= k < all.len() implies (#[trigger] all[k]).pitch <= c.top
                && all[k].vel <= c.loudest by {
                if k < before.len() {
                    assert(all[k] == before[k]);
                }
            }
            assert(all[before.len() as int] == note);
            if c.top != pitch && c.top == b.top {
                let k = choose|k: int| 0 <= k < before.len() && (#[trigger] before[k]).pitch == b.top;
                assert(all[k].pitch == c.top);
            }
            if c.loudest != 1 && c.loudest == b.loudest {
                let k = choose|k: int| 0 <= k < before.len() && (#[trigger] before[k]).vel == b.loudest;
                assert(all[k].vel == c.loudest);
            }
        }
    }
}

/// What is counted at a note are the notes that begin with it, or those that sound with it: how many,
/// how many of them lie below it and how many on its pitch, the highest of them, the loudest, and
/// the sums of their pitches and lengths.
pub proof fn law_crowd(notes: Seq<Note>, tick: Tick, attack: bool, pitch: i32)
    ensures
        ({
            let c = crowd_of(notes, tick, attack, pitch, notes.len() as int);
            let heard = heard_at(notes, tick, attack);
            &&& c.count == heard.len()
            &&& c.below == heard.filter(|m: Note| m.pitch < pitch).len()
            &&& c.equal == heard.filter(|m: Note| m.pitch == pitch).len()
            &&& c.pitches == sums(heard).0
            &&& c.durations == sums(heard).1
            &&& c.top >= pitch && (c.top == pitch || exists|k: int|
                0 <= k < heard.len() && (#[trigger] heard[k]).pitch == c.top)
            &&& forall|k: int| 0 <= k < heard.len() ==> (#[trigger] heard[k]).pitch <= c.top
            &&& c.loudest >= 1 && (c.loudest == 1 || exists|k: int|
                0 <= k < heard.len() && (#[trigger] heard[k]).vel == c.loudest)
            &&& forall|k: int| 0 <= k < heard.len() ==> (#[trigger] heard[k]).vel <= c.loudest
        }),
{
    lemma_crowd(notes, tick, attack, pitch, notes.len() as int);
    assert(notes.take(notes.len() as int) =~= notes);
}

proof fn lemma_line(part: Seq<Note>, i: int, j: int)
    requires
        is_line(part),
        0 <= i < j < part.len(),
    ensures
        part[i].off <= part[j].on,
    decreases j - i,
{
    if i + 1 < j {
        lemma_line(part, i, j - 1);
        assert(part[j - 1].on < part[j - 1].off);
    }
    assert(part[j - 1].off <= part[j].on);
}

/// The notes of a part before one that are looked back at are those that end less than a whole note
/// before it begins.
pub proof fn law_reach(part: Seq<Note>, k: int, j: int)
    requires
        is_line(part),
        0 <= j < k < part.len(),
    ensures
        0 <= reach_start(part, k, k) <= k,
        reach_start(part, k, k) <= j <==> part[j].off > part[k].on - 384,
{
    lemma_reach(part, k, k, j);
}

proof fn lemma_reach(part: Seq<Note>, k: int, m: int, j: int)
    requires
        is_line(part),
        0 <= m <= k < part.len(),
        0 <= j,
    ensures
        0 <= reach_start(part, k, m) <= m,
        j < m ==> (reach_start(part, k, m) <= j <==> part[j].off > part[k].on - REACH),
    decreases m,
{
    if 0 < m && part[m - 1].off > part[k].on - REACH {
        lemma_reach(part, k, m - 1, j);
    } else if j < m {
        if j < m - 1 {
            lemma_line(part, j, m - 1);
            assert(part[m - 1].on < part[m - 1].off);
        }
    }
}

/// The different pitches of some notes of a part.
pub open spec fn pitches_from(part: Seq<Note>, from: int, to: int) -> Set<i32> {
    Set::new(|p: i32| exists|q: int| from <= q < to && (#[trigger] part[q]).pitch == p)
}

/// What is counted of the notes that are looked back at: how many there are, how many of them begin
/// within a quarter, how many different pitches they have, and the lowest and the highest.
pub proof fn law_window(part: Seq<Note>, tick: Tick, from: int, to: int)
    requires
        0 <= from <= to <= part.len(),
    ensures
        ({
            let w = window_of(part, tick, from, to);
            &&& w.count == to - from
            &&& w.recent == part.subrange(from, to).filter(|n: Note| tick - n.on <= 96).len()
            &&& pitches_from(part, from, to).finite()
            &&& w.distinct == pitches_from(part, from, to).len()
            &&& from < to ==> pitches_from(part, from, to).contains(w.low) && pitches_from(
                part,
                from,
                to,
            ).contains(w.high)
            &&& forall|p: i32| #[trigger]
                pitches_from(part, from, to).contains(p) ==> w.low <= p <= w.high
        }),
    decreases to - from,
{
    reveal(Seq::filter);
    let all = pitches_from(part, from, to);
    if from == to {
        assert(all =~= Set::<i32>::empty());
        assert(part.subrange(from, to) =~= Seq::<Note>::empty());
    } else {
        law_window(part, tick, from, to - 1);
        let before = pitches_from(part, from, to - 1);
        let last = part[to - 1].pitch;
        let w = window_of(part, tick, from, to);
        let v = window_of(part, tick, from, to - 1);
        assert(part.subrange(from, to).drop_last() =~= part.subrange(from, to - 1));
        assert(part.subrange(from, to).last() == part[to - 1]);
        assert forall|p: i32| all.contains(p) <==> #[trigger] before.insert(last).contains(p) by {
            if all.contains(p) {
                let q = choose|q: int| from <= q < to && (#[trigger] part[q]).pitch == p;
                if q < to - 1 {
                    assert(part[q].pitch == p);
                    assert(before.contains(p));
                }
            }
            if before.contains(p) {
                let q = choose|q: int| from <= q < to - 1 && (#[trigger] part[q]).pitch == p;
                assert(part[q].pitch == p);
            }
            if p == last {
                assert(part[to - 1].pitch == p);
            }
        }
        assert(all =~= before.insert(last));
        assert(has_pitch(part, from, to - 1, last) <==> before.contains(last));
        assert(before.insert(last).contains(last));
        assert forall|p: i32| #[trigger] all.contains(p) implies w.low <= p <= w.high by {
            assert(before.insert(last).contains(p));
            if before.contains(p) {
                assert(v.low <= p <= v.high);
                let q = choose|q: int| from <= q < to - 1 && (#[trigger] part[q]).pitch == p;
            }
        }
        if from < to - 1 {
            assert(before.insert(last).contains(v.low));
            assert(before.insert(last).contains(v.high));
        }
    }
}

/// A pitch that is struck again within twelve ticks goes on, and any other begins anew.
pub proof fn law_runs(part: Seq<Note>, k: int)
    requires
        0 <= k < part.len(),
    ensures
        k == 0 ==> run_start(part, k) == part[k].on,
        k > 0 ==> run_start(part, k) == (if part[k - 1].pitch == part[k].pitch && part[k].on
            <= part[k - 1].off + 12 {
            run_start(part, k - 1)
        } else {
            part[k].on
        }),
{
}

/// How strong a beat is: whole, half and quarter beats are told from the rest, and from each other.
pub proof fn law_beats(tick: int)
    requires
        tick >= 0,
    ensures
        0 <= beat_of(tick) <= 3,
        beat_of(tick) == 3 <==> tick % 96 == 0,
        beat_of(tick) >= 2 <==> tick % 48 == 0,
        beat_of(tick) >= 1 <==> tick % 24 == 0,
{
}

proof fn lemma_cursor(part: Seq<Note>, tick: Tick, from: int, to: int)
    requires
        is_line(part),
        0 <= from <= to <= part.len(),
    ensures
        window_of(part, tick, from, to).cursor <= tick - REACH || (from < to && window_of(
            part,
            tick,
            from,
            to,
        ).cursor <= part[to - 1].off),
        window_of(part, tick, from, to).occupied == window_of(part, tick, from, to).weight,
    decreases to - from,
{
    if from < to {
        lemma_cursor(part, tick, from, to - 1);
        if from < to - 1 {
            assert(part[to - 2].off <= part[to - 1].on);
        }
        assert(part[to - 1].on < part[to - 1].off);
    }
}

/// The whole note before a tick, as if it were a note.
pub open spec fn time_before(tick: Tick) -> Note {
    Note { on: (tick - 384) as Tick, off: tick, pitch: 0, vel: 0, src: (0, 0) }
}

/// Of the time before a note every note that is looked back at fills as much as it sounds there, and
/// weighs its pitch by that; in one line no time is filled twice.
pub proof fn law_window_time(part: Seq<Note>, tick: Tick, from: int, to: int)
    requires
        is_line(part),
        0 <= from < to <= part.len(),
        tick >= 0,
    ensures
        ({
            let w = window_of(part, tick, from, to);
            let before = window_of(part, tick, from, to - 1);
            let more = together(part[to - 1], time_before(tick));
            &&& w.weight == before.weight + more
            &&& w.pitches == before.pitches + part[to - 1].pitch * more
            &&& w.occupied == w.weight
            &&& window_of(part, tick, from, from).weight == 0
            &&& window_of(part, tick, from, from).pitches == 0
        }),
{
    lemma_cursor(part, tick, from, to);
}

} // verus!
