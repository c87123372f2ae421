//! Dividing notes into lanes in which no two sound together.
use crate::midi::MidiFault;
use crate::polyphony::{is_max_voices, lemma_voices, voices};
use crate::score::{flat, part_views, Note, Tick};
use vstd::prelude::*;

verus! {

/// Whether a note can follow in a lane.
pub open spec fn can_follow(lane: Seq<Note>, note: Note) -> bool {
    lane.len() > 0 && lane.last().off <= note.on
}

/// How far a note lies from the last one of a lane: in pitch.
pub open spec fn leap(lane: Seq<Note>, note: Note) -> int {
    let d = lane.last().pitch - note.pitch;
    if d < 0 {
        -d
    } else {
        d
    }
}

/// How far a note lies from the last one of a lane: in time.
pub open spec fn wait(lane: Seq<Note>, note: Note) -> int {
    note.on - lane.last().off
}

/// Whether a lane suits a note better than another: by pitch, and then by time.
pub open spec fn suits_better(a: Seq<Note>, b: Seq<Note>, note: Note) -> bool {
    leap(a, note) < leap(b, note) || (leap(a, note) == leap(b, note) && wait(a, note) < wait(
        b,
        note,
    ))
}

/// The lane among the first ones that suits a note best; of equals the first.
pub open spec fn best_lane(lanes: Seq<Seq<Note>>, note: Note, n: int) -> Option<int>
    decreases n,
{
    if n <= 0 {
        None
    } else {
        let best = best_lane(lanes, note, n - 1);
        if can_follow(lanes[n - 1], note) && (best is None || suits_better(
            lanes[n - 1],
            lanes[best->Some_0],
            note,
        )) {
            Some(n - 1)
        } else {
            best
        }
    }
}

/// The lanes of the first notes: each note goes to the lane that suits it best, or opens one
/// where none can take it, of which there are at most 256.
pub open spec fn lanes_of(notes: Seq<Note>, n: int) -> Result<Seq<Seq<Note>>, MidiFault>
    decreases n,
{
    if n <= 0 {
        Ok(Seq::empty())
    } else {
        match lanes_of(notes, n - 1) {
            Err(e) => Err(e),
            Ok(lanes) => {
                let note = notes[n - 1];
                match best_lane(lanes, note, lanes.len() as int) {
                    Some(i) => Ok(lanes.update(i, lanes[i].push(note))),
                    None => if lanes.len() >= 256 {
                        Err(MidiFault::TooManyVoices)
                    } else {
                        Ok(lanes.push(seq![note]))
                    },
                }
            },
        }
    }
}

/// Whether no note of a lane begins before the one before it has ended.
pub open spec fn is_monophonic(lane: Seq<Note>) -> bool {
    forall|i: int| 0 < i < lane.len() ==> lane[i - 1].off <= (#[trigger] lane[i]).on
}

proof fn lemma_best_lane(lanes: Seq<Seq<Note>>, note: Note, n: int)
    requires
        0 <= n <= lanes.len(),
    ensures
        best_lane(lanes, note, n) matches Some(i) ==> 0 <= i < n && can_follow(lanes[i], note),
    decreases n,
{
    if n > 0 {
        lemma_best_lane(lanes, note, n - 1);
    }
}

proof fn lemma_flat_update<T>(lists: Seq<Seq<T>>, i: int, x: T)
    requires
        0 <= i < lists.len(),
    ensures
        flat(lists.update(i, lists[i].push(x))).to_multiset() == flat(lists).to_multiset().insert(
            x,
        ),
    decreases lists.len(),
{
    broadcast use vstd::seq_lib::group_to_multiset_ensures;

    let new = lists.update(i, lists[i].push(x));
    let front = lists.drop_last();
    if i == lists.len() - 1 {
        assert(new.drop_last() =~= front);
        assert(flat(new) =~= flat(lists).push(x));
    } else {
        lemma_flat_update(front, i, x);
        assert(new.drop_last() =~= front.update(i, front[i].push(x)));
        let a = flat(new.drop_last());
        let b = flat(front);
        let last = lists.last();
        vstd::seq_lib::lemma_multiset_commutative(a, last);
        vstd::seq_lib::lemma_multiset_commutative(b, last);
        assert(flat(new).to_multiset() =~= flat(lists).to_multiset().insert(x));
    }
}

/// The lanes hold every note once and no other, and in none of them do two notes sound
/// together.
pub proof fn law_lanes(notes: Seq<Note>, n: int)
    requires
        0 <= n <= notes.len(),
        lanes_of(notes, n) is Ok,
    ensures
        ({
            let lanes = lanes_of(notes, n)->Ok_0;
            &&& forall|i: int| 0 <= i < lanes.len() ==> is_monophonic(#[trigger] lanes[i])
            &&& forall|i: int| 0 <= i < lanes.len() ==> (#[trigger] lanes[i]).len() > 0
            &&& flat(lanes).to_multiset() == notes.take(n).to_multiset()
            &&& lanes.len() <= 256
        }),
    decreases n,
{
    broadcast use vstd::seq_lib::group_to_multiset_ensures;

    if n > 0 {
        law_lanes(notes, n - 1);
        let before = lanes_of(notes, n - 1)->Ok_0;
        let after = lanes_of(notes, n)->Ok_0;
        let note = notes[n - 1];
        assert(notes.take(n) =~= notes.take(n - 1).push(note));
        lemma_best_lane(before, note, before.len() as int);
        match best_lane(before, note, before.len() as int) {
            Some(i) => {
                lemma_flat_update(before, i, note);
                assert forall|k: int| 0 <= k < after.len() implies is_monophonic(
                    #[trigger] after[k],
                ) && after[k].len() > 0 by {
                    assert(is_monophonic(before[k]));
                    if k == i {
                        let lane = after[i];
                        assert forall|m: int| 0 < m < lane.len() implies lane[m - 1].off <= (
                        #[trigger] lane[m]).on by {
                            if m < before[i].len() {
                                assert(lane[m] == before[i][m]);
                            }
                        }
                    }
                }
            },
            None => {
                assert(after.drop_last() =~= before);
                assert(flat(after) =~= flat(before).push(note));
                assert forall|k: int| 0 <= k < after.len() implies is_monophonic(
                    #[trigger] after[k],
                ) && after[k].len() > 0 by {
                    if k < before.len() {
                        assert(after[k] == before[k]);
                        assert(is_monophonic(before[k]));
                    }
                }
            },
        }
    } else {
        assert(notes.take(0) =~= Seq::<Note>::empty());
        assert(flat(Seq::<Seq<Note>>::empty()) =~= Seq::<Note>::empty());
    }
}

proof fn lemma_voices_push(notes: Seq<Note>, note: Note, t: int)
    ensures
        voices(notes.push(note), t) == voices(notes, t) + (if note.on <= t < note.off {
            1int
        } else {
            0int
        }),
{
    assert(notes.push(note).drop_last() =~= notes);
}

pub(crate) proof fn lemma_voices_concat(a: Seq<Note>, b: Seq<Note>, t: int)
    ensures
        voices(a + b, t) == voices(a, t) + voices(b, t),
    decreases b.len(),
{
    if b.len() == 0 {
        assert(a + b =~= a);
    } else {
        assert((a + b).drop_last() =~= a + b.drop_last());
        lemma_voices_concat(a, b.drop_last(), t);
    }
}

proof fn lemma_voices_update(lists: Seq<Seq<Note>>, i: int, note: Note, t: int)
    requires
        0 <= i < lists.len(),
    ensures
        voices(flat(lists.update(i, lists[i].push(note))), t) == voices(flat(lists), t) + (
        if note.on <= t < note.off {
            1int
        } else {
            0int
        }),
    decreases lists.len(),
{
    let new = lists.update(i, lists[i].push(note));
    let front = lists.drop_last();
    lemma_voices_concat(flat(front), lists.last(), t);
    lemma_voices_concat(flat(new.drop_last()), new.last(), t);
    if i == lists.len() - 1 {
        assert(new.drop_last() =~= front);
        lemma_voices_push(lists.last(), note, t);
    } else {
        lemma_voices_update(front, i, note, t);
        assert(new.drop_last() =~= front.update(i, front[i].push(note)));
    }
}

proof fn lemma_lane_voices(notes: Seq<Note>, n: int, t: int)
    requires
        0 <= n <= notes.len(),
        lanes_of(notes, n) is Ok,
    ensures
        voices(flat(lanes_of(notes, n)->Ok_0), t) == voices(notes.take(n), t),
    decreases n,
{
    if n > 0 {
        lemma_lane_voices(notes, n - 1, t);
        let before = lanes_of(notes, n - 1)->Ok_0;
        let after = lanes_of(notes, n)->Ok_0;
        let note = notes[n - 1];
        assert(notes.take(n) =~= notes.take(n - 1).push(note));
        lemma_voices_push(notes.take(n - 1), note, t);
        lemma_best_lane(before, note, before.len() as int);
        match best_lane(before, note, before.len() as int) {
            Some(i) => {
                lemma_voices_update(before, i, note, t);
            },
            None => {
                assert(after.drop_last() =~= before);
                assert(flat(after) =~= flat(before).push(note));
                lemma_voices_push(flat(before), note, t);
            },
        }
    } else {
        assert(notes.take(0) =~= Seq::<Note>::empty());
    }
}

/// Whether notes come in the order in which they begin, and each lasts.
pub open spec fn come_in_order(notes: Seq<Note>) -> bool {
    &&& forall|i: int| 0 <= i < notes.len() ==> (#[trigger] notes[i]).on < notes[i].off
    &&& forall|i: int, j: int|
        #![trigger notes[i], notes[j]]
        0 <= i <= j < notes.len() ==> notes[i].on <= notes[j].on
}

proof fn lemma_voices_before(notes: Seq<Note>, t: int)
    requires
        forall|i: int| 0 <= i < notes.len() ==> (#[trigger] notes[i]).off <= t,
    ensures
        voices(notes, t) == 0,
    decreases notes.len(),
{
    if notes.len() > 0 {
        lemma_voices_before(notes.drop_last(), t);
    }
}

proof fn lemma_ends_ascend(lane: Seq<Note>, i: int, j: int)
    requires
        is_monophonic(lane),
        forall|k: int| 0 <= k < lane.len() ==> (#[trigger] lane[k]).on < lane[k].off,
        0 <= i < j < lane.len(),
    ensures
        lane[i].off <= lane[j].on,
    decreases j - i,
{
    assert(lane[j - 1].off <= lane[j].on);
    assert(lane[j - 1].on < lane[j - 1].off);
    if i < j - 1 {
        lemma_ends_ascend(lane, i, j - 1);
    }
}

proof fn lemma_one_voice(lane: Seq<Note>, t: int)
    requires
        is_monophonic(lane),
        forall|i: int| 0 <= i < lane.len() ==> (#[trigger] lane[i]).on < lane[i].off,
    ensures
        0 <= voices(lane, t) <= 1,
        lane.len() > 0 && lane.last().on <= t < lane.last().off ==> voices(lane, t) == 1,
    decreases lane.len(),
{
    if lane.len() > 0 {
        let front = lane.drop_last();
        let last = lane.len() - 1;
        assert forall|i: int| 0 < i < front.len() implies front[i - 1].off <= (
        #[trigger] front[i]).on by {
            assert(lane[i - 1].off <= lane[i].on);
        }
        assert forall|i: int| 0 <= i < front.len() implies (#[trigger] front[i]).on
            < front[i].off by {
            assert(lane[i].on < lane[i].off);
        }
        lemma_one_voice(front, t);
        if lane.last().on <= t {
            assert forall|i: int| 0 <= i < front.len() implies (#[trigger] front[i]).off <= t by {
                lemma_ends_ascend(lane, i, last);
            }
            lemma_voices_before(front, t);
        }
    }
}

proof fn lemma_lanes_hold(notes: Seq<Note>, n: int, l: int, k: int)
    requires
        0 <= n <= notes.len(),
        lanes_of(notes, n) is Ok,
        0 <= l < lanes_of(notes, n)->Ok_0.len(),
        0 <= k < lanes_of(notes, n)->Ok_0[l].len(),
    ensures
        notes.take(n).contains(lanes_of(notes, n)->Ok_0[l][k]),
    decreases n,
{
    if n > 0 {
        let before = lanes_of(notes, n - 1)->Ok_0;
        let after = lanes_of(notes, n)->Ok_0;
        let note = notes[n - 1];
        lemma_best_lane(before, note, before.len() as int);
        assert(notes.take(n)[n - 1] == note);
        if l < before.len() && k < before[l].len() {
            assert(after[l][k] == before[l][k]);
            lemma_lanes_hold(notes, n - 1, l, k);
            let q = choose|q: int|
                0 <= q < notes.take(n - 1).len() && #[trigger] notes.take(n - 1)[q] == before[l][k];
            assert(notes.take(n)[q] == before[l][k]);
        } else {
            assert(after[l][k] == note);
        }
    }
}

proof fn lemma_lanes_last(notes: Seq<Note>, n: int)
    requires
        0 <= n <= notes.len(),
        come_in_order(notes),
        lanes_of(notes, n) is Ok,
    ensures
        forall|l: int, k: int|
            #![trigger lanes_of(notes, n)->Ok_0[l][k]]
            0 <= l < lanes_of(notes, n)->Ok_0.len() && 0 <= k < lanes_of(notes, n)->Ok_0[l].len()
                ==> lanes_of(notes, n)->Ok_0[l][k].on < lanes_of(notes, n)->Ok_0[l][k].off && (n
                < notes.len() ==> lanes_of(notes, n)->Ok_0[l][k].on <= notes[n].on),
{
    let lanes = lanes_of(notes, n)->Ok_0;
    assert forall|l: int, k: int|
        #![trigger lanes[l][k]]
        0 <= l < lanes.len() && 0 <= k < lanes[l].len() implies lanes[l][k].on < lanes[l][k].off && (
    n < notes.len() ==> lanes[l][k].on <= notes[n].on) by {
        lemma_lanes_hold(notes, n, l, k);
        let q = choose|q: int|
            0 <= q < notes.take(n).len() && #[trigger] notes.take(n)[q] == lanes[l][k];
        assert(notes[q] == lanes[l][k]);
    }
}

proof fn lemma_lane_count(lanes: Seq<Seq<Note>>, t: int)
    requires
        forall|l: int| 0 <= l < lanes.len() ==> 0 <= voices(#[trigger] lanes[l], t) <= 1,
    ensures
        0 <= voices(flat(lanes), t) <= lanes.len(),
        (forall|l: int| 0 <= l < lanes.len() ==> voices(#[trigger] lanes[l], t) == 1) ==> voices(
            flat(lanes),
            t,
        ) == lanes.len(),
    decreases lanes.len(),
{
    if lanes.len() > 0 {
        let front = lanes.drop_last();
        assert forall|l: int| 0 <= l < front.len() implies 0 <= voices(#[trigger] front[l], t)
            <= 1 by {
            assert(front[l] == lanes[l]);
        }
        lemma_lane_count(front, t);
        lemma_voices_concat(flat(front), lanes.last(), t);
        assert(0 <= voices(lanes[lanes.len() - 1], t) <= 1);
        if forall|l: int| 0 <= l < lanes.len() ==> voices(#[trigger] lanes[l], t) == 1 {
            assert forall|l: int| 0 <= l < front.len() implies voices(#[trigger] front[l], t)
                == 1 by {
                assert(front[l] == lanes[l]);
            }
        }
    }
}

proof fn lemma_no_lane(lanes: Seq<Seq<Note>>, note: Note, n: int)
    requires
        0 <= n <= lanes.len(),
        best_lane(lanes, note, n) is None,
    ensures
        forall|l: int| 0 <= l < n ==> !can_follow(#[trigger] lanes[l], note),
    decreases n,
{
    if n > 0 {
        lemma_no_lane(lanes, note, n - 1);
    }
}

proof fn lemma_voices_prefix(notes: Seq<Note>, n: int, t: int)
    requires
        0 <= n <= notes.len(),
    ensures
        voices(notes.take(n), t) <= voices(notes, t),
{
    assert(notes =~= notes.take(n) + notes.skip(n));
    lemma_voices_concat(notes.take(n), notes.skip(n), t);
    lemma_voices(notes.skip(n), t);
}

proof fn lemma_each_voice(notes: Seq<Note>, n: int, t: int)
    requires
        0 <= n <= notes.len(),
        come_in_order(notes),
        lanes_of(notes, n) is Ok,
    ensures
        forall|l: int|
            0 <= l < lanes_of(notes, n)->Ok_0.len() ==> 0 <= voices(
                #[trigger] lanes_of(notes, n)->Ok_0[l],
                t,
            ) <= 1 && (lanes_of(notes, n)->Ok_0[l].last().on <= t
                < lanes_of(notes, n)->Ok_0[l].last().off ==> voices(
                lanes_of(notes, n)->Ok_0[l],
                t,
            ) == 1) && lanes_of(notes, n)->Ok_0[l].len() > 0,
{
    let lanes = lanes_of(notes, n)->Ok_0;
    law_lanes(notes, n);
    lemma_lanes_last(notes, n);
    assert forall|l: int| 0 <= l < lanes.len() implies 0 <= voices(#[trigger] lanes[l], t) <= 1 && (
    lanes[l].last().on <= t < lanes[l].last().off ==> voices(lanes[l], t) == 1)
        && lanes[l].len() > 0 by {
        assert(is_monophonic(lanes[l]));
        assert forall|k: int| 0 <= k < lanes[l].len() implies (#[trigger] lanes[l][k]).on
            < lanes[l][k].off by {
        }
        lemma_one_voice(lanes[l], t);
    }
}

proof fn lemma_new_lane(notes: Seq<Note>, n: int)
    requires
        0 <= n < notes.len(),
        come_in_order(notes),
        lanes_of(notes, n) is Ok,
        best_lane(
            lanes_of(notes, n)->Ok_0,
            notes[n],
            lanes_of(notes, n)->Ok_0.len() as int,
        ) is None,
    ensures
        voices(notes, notes[n].on as int) >= lanes_of(notes, n)->Ok_0.len() + 1,
{
    let lanes = lanes_of(notes, n)->Ok_0;
    let note = notes[n];
    let t = note.on as int;
    lemma_each_voice(notes, n, t);
    lemma_lanes_last(notes, n);
    lemma_no_lane(lanes, note, lanes.len() as int);
    assert forall|l: int| 0 <= l < lanes.len() implies voices(#[trigger] lanes[l], t) == 1 by {
        assert(!can_follow(lanes[l], note));
        let k = lanes[l].len() - 1;
        assert(lanes[l][k].on <= notes[n].on);
    }
    lemma_lane_count(lanes, t);
    lemma_lane_voices(notes, n, t);
    assert(notes.take(n + 1) =~= notes.take(n).push(note));
    lemma_voices_push(notes.take(n), note, t);
    assert(note.on < note.off);
    lemma_voices_prefix(notes, n + 1, t);
}

proof fn lemma_enough_lanes(notes: Seq<Note>, n: int)
    requires
        0 <= n <= notes.len(),
        come_in_order(notes),
    ensures
        lanes_of(notes, n) is Ok && lanes_of(notes, n)->Ok_0.len() > 0 ==> exists|t: int|
            #[trigger] voices(notes, t) >= lanes_of(notes, n)->Ok_0.len(),
        lanes_of(notes, n) is Err ==> exists|t: int| #[trigger] voices(notes, t) > 256,
    decreases n,
{
    if n > 0 {
        lemma_enough_lanes(notes, n - 1);
        if lanes_of(notes, n - 1) is Ok {
            let before = lanes_of(notes, n - 1)->Ok_0;
            let note = notes[n - 1];
            law_lanes(notes, n - 1);
            lemma_best_lane(before, note, before.len() as int);
            if best_lane(before, note, before.len() as int) is None {
                lemma_new_lane(notes, n - 1);
                assert(voices(notes, note.on as int) >= before.len() + 1);
            }
        }
    }
}

/// Of notes that last, in the order in which they begin, there are as many lanes as notes sound
/// together at most; and they can be divided exactly where no more than 256 do.
pub proof fn law_lanes_are_voices(notes: Seq<Note>)
    requires
        come_in_order(notes),
    ensures
        lanes_of(notes, notes.len() as int) is Ok ==> is_max_voices(
            notes,
            lanes_of(notes, notes.len() as int)->Ok_0.len() as int,
        ),
        (lanes_of(notes, notes.len() as int) is Ok) == (forall|t: int|
            #[trigger] voices(notes, t) <= 256),
{
    let n = notes.len() as int;
    lemma_enough_lanes(notes, n);
    if lanes_of(notes, n) is Ok {
        let lanes = lanes_of(notes, n)->Ok_0;
        law_lanes(notes, n);
        assert(notes.take(n) =~= notes);
        assert forall|t: int| #[trigger] voices(notes, t) <= lanes.len() by {
            lemma_each_voice(notes, n, t);
            lemma_lane_count(lanes, t);
            lemma_lane_voices(notes, n, t);
        }
    }
}

fn find_lane(lanes: &Vec<Vec<Note>>, note: &Note) -> (r: Option<usize>)
    ensures
        match r {
            Some(i) => best_lane(part_views(lanes@), *note, lanes.len() as int) == Some(i as int)
                && i < lanes.len(),
            None => best_lane(part_views(lanes@), *note, lanes.len() as int) is None,
        },
{
    let ghost all = part_views(lanes@);
    let mut best: Option<usize> = None;
    let mut best_leap: i64 = 0;
    let mut best_wait: i128 = 0;
    let mut n: usize = 0;
    while n < lanes.len()
        invariant
            n <= lanes.len(),
            all == part_views(lanes@),
            match best {
                Some(i) => best_lane(all, *note, n as int) == Some(i as int) && i < n && best_leap
                    == leap(all[i as int], *note) && best_wait == wait(all[i as int], *note),
                None => best_lane(all, *note, n as int) is None,
            },
        decreases lanes.len() - n,
    {
        let lane = &lanes[n];
        proof {
            assert(all[n as int] == lane@);
        }
        if lane.len() > 0 {
            let last = lane[lane.len() - 1];
            if last.off <= note.on {
                let d: i64 = last.pitch as i64 - note.pitch as i64;
                let distance: i64 = if d < 0 {
                    -d
                } else {
                    d
                };
                let gap: i128 = note.on as i128 - last.off as i128;
                if best.is_none() || distance < best_leap || (distance == best_leap && gap
                    < best_wait) {
                    best = Some(n);
                    best_leap = distance;
                    best_wait = gap;
                }
            }
        }
        n += 1;
    }
    best
}

/// Divides notes into lanes in which no two sound together.
pub fn monophonic_lanes(notes: &Vec<Note>) -> (r: Result<Vec<Vec<Note>>, MidiFault>)
    ensures
        match r {
            Ok(lanes) => lanes_of(notes@, notes.len() as int) == Ok::<_, MidiFault>(
                part_views(lanes@),
            ),
            Err(e) => lanes_of(notes@, notes.len() as int) == Err::<Seq<Seq<Note>>, _>(e),
        },
        come_in_order(notes@) ==> match r {
            Ok(lanes) => is_max_voices(notes@, lanes.len() as int),
            Err(e) => e == MidiFault::TooManyVoices && exists|t: int|
                #[trigger] voices(notes@, t) > 256,
        },
{
    let mut lanes: Vec<Vec<Note>> = Vec::new();
    let mut n: usize = 0;
    proof {
        assert(part_views(lanes@) =~= Seq::<Seq<Note>>::empty());
    }
    while n < notes.len()
        invariant
            n <= notes.len(),
            lanes_of(notes@, n as int) == Ok::<_, MidiFault>(part_views(lanes@)),
        decreases notes.len() - n,
    {
        let note = notes[n];
        let ghost before = part_views(lanes@);
        match find_lane(&lanes, &note) {
            Some(i) => {
                let lane = &mut lanes[i];
                lane.push(note);
                proof {
                    assert(part_views(lanes@) =~= before.update(
                        i as int,
                        before[i as int].push(note),
                    ));
                }
            },
            None => {
                if lanes.len() >= 256 {
                    proof {
                        lemma_lanes_fail(notes@, n + 1, notes.len() as int);
                        if come_in_order(notes@) {
                            law_lanes_are_voices(notes@);
                        }
                    }
                    return Err(MidiFault::TooManyVoices);
                }
                let mut lane: Vec<Note> = Vec::new();
                lane.push(note);
                let ghost row = lane@;
                lanes.push(lane);
                proof {
                    assert(row =~= seq![note]);
                    assert(part_views(lanes@) =~= before.push(row));
                }
            },
        }
        n += 1;
    }
    proof {
        if come_in_order(notes@) {
            law_lanes_are_voices(notes@);
        }
    }
    Ok(lanes)
}

proof fn lemma_lanes_fail(notes: Seq<Note>, from: int, to: int)
    requires
        0 <= from <= to,
    ensures
        lanes_of(notes, from) is Err ==> lanes_of(notes, to) == lanes_of(notes, from),
    decreases to - from,
{
    if from < to {
        lemma_lanes_fail(notes, from, to - 1);
    }
}

/// Ticks with one more, where it is not there yet; they ascend.
pub open spec fn with_tick(s: Seq<Tick>, t: Tick) -> Seq<Tick>
    decreases s.len(),
{
    if s.len() == 0 || s.last() < t {
        s.push(t)
    } else if s.last() == t {
        s
    } else {
        with_tick(s.drop_last(), t).push(s.last())
    }
}

/// Puts a tick in, where it is not there yet.
pub fn insert_tick(s: &mut Vec<Tick>, t: Tick)
    ensures
        final(s)@ == with_tick(old(s)@, t),
{
    let ghost before = s@;
    let mut i: usize = s.len();
    proof {
        assert(before.take(i as int) =~= before);
        assert(with_tick(before.take(i as int), t) + before.skip(i as int) =~= with_tick(
            before,
            t,
        ));
    }
    while i > 0 && s[i - 1] > t
        invariant
            i <= s.len(),
            s@ == before,
            with_tick(before.take(i as int), t) + before.skip(i as int) == with_tick(before, t),
        decreases i,
    {
        proof {
            assert(before.take(i as int).drop_last() =~= before.take(i - 1));
            assert(with_tick(before.take(i - 1), t).push(before[i - 1]) + before.skip(i as int)
                =~= with_tick(before.take(i - 1), t) + before.skip(i - 1));
        }
        i -= 1;
    }
    if i > 0 && s[i - 1] == t {
        proof {
            assert(before.take(i as int).last() == before[i - 1]);
            assert(s@ =~= before.take(i as int) + before.skip(i as int));
        }
    } else {
        s.insert(i, t);
        proof {
            if i > 0 {
                assert(before.take(i as int).last() == before[i - 1]);
            }
            assert(s@ =~= before.take(i as int).push(t) + before.skip(i as int));
        }
    }
}

/// The first of some ascending ticks behind a tick, from some position on.
pub open spec fn first_beyond(ticks: Seq<Tick>, on: int, i: int) -> Option<Tick>
    decreases ticks.len() - i,
{
    if i < 0 || i >= ticks.len() {
        None
    } else if ticks[i] > on {
        Some(ticks[i])
    } else {
        first_beyond(ticks, on, i + 1)
    }
}

/// Where a note that begins at a tick ends at the earliest: the shortest length on, unless a
/// boundary lies so near that what is left before it would be too short.
pub open spec fn earliest_end(on: int, ticks: Seq<Tick>) -> int {
    match first_beyond(ticks, on, 0) {
        Some(next) => if next < on + 12 {
            next as int
        } else {
            on + 6
        },
        None => on + 6,
    }
}

/// Finds where a note that begins at a tick ends at the earliest; there is no such tick where
/// it would leave the machine's range.
pub fn minimum_end(on: Tick, ticks: &Vec<Tick>) -> (r: Option<Tick>)
    ensures
        match r {
            Some(end) => on <= i64::MAX - 6 && end == earliest_end(on as int, ticks@),
            None => on > i64::MAX - 6,
        },
{
    if on > i64::MAX - 6 {
        return None;
    }
    let mut i: usize = 0;
    while i < ticks.len() && ticks[i] <= on
        invariant
            i <= ticks.len(),
            first_beyond(ticks@, on as int, i as int) == first_beyond(ticks@, on as int, 0),
        decreases ticks.len() - i,
    {
        i += 1;
    }
    if i < ticks.len() && (ticks[i] as i128) < on as i128 + 12 {
        Some(ticks[i])
    } else {
        Some(on + 6)
    }
}

} // verus!
