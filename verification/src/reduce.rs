//! Taking notes away where more sound than there are parts.
use crate::fold::{FoldStats, WorkingNote};
use crate::harmony::{analyze, class_of, classes_of, is_clear, member_worth, pitch_class, ChordKind, Harmony};
use crate::order::{lemma_stable_sort, order, order_of, Key};
use crate::polyphony::voices;
use crate::score::{Note, Tick};
use vstd::prelude::*;

verus! {

/// The notes that are weighed.
pub open spec fn bare(notes: Seq<WorkingNote>) -> Seq<Note> {
    notes.map_values(|w: WorkingNote| w.note)
}

/// What a note that sounds is weighed by, in eighths: what it is worth, what is taken off,
/// and for how long it has sounded.
#[derive(Clone, Copy, Debug)]
pub struct Weight {
    pub value: i64,
    pub penalty: i64,
    pub age: Tick,
}

/// How many of the first notes that sound have a pitch.
pub open spec fn pitch_times(notes: Seq<WorkingNote>, active: Seq<usize>, pitch: int, n: int) -> int
    decreases n,
{
    if n <= 0 {
        0
    } else {
        pitch_times(notes, active, pitch, n - 1) + (if notes[active[n - 1] as int].note.pitch
            == pitch {
            1int
        } else {
            0int
        })
    }
}

/// How many of the first notes that sound are of a class of pitches.
pub open spec fn class_times(notes: Seq<WorkingNote>, active: Seq<usize>, class: int, n: int) -> int
    decreases n,
{
    if n <= 0 {
        0
    } else {
        class_times(notes, active, class, n - 1) + (if class_of(
            notes[active[n - 1] as int].note.pitch as int,
        ) == class {
            1int
        } else {
            0int
        })
    }
}

/// Whether no note that sounds is higher, or with `low` lower, than a pitch.
pub open spec fn is_outer(notes: Seq<WorkingNote>, active: Seq<usize>, pitch: int, low: bool) -> bool {
    forall|k: int|
        0 <= k < active.len() ==> if low {
            pitch <= notes[#[trigger] active[k] as int].note.pitch
        } else {
            notes[active[k] as int].note.pitch <= pitch
        }
}

/// The chord that classes spell, where they spell one clearly.
pub open spec fn reading(classes: Seq<bool>) -> Option<(int, ChordKind)> {
    if exists|root: int, kind: ChordKind| #[trigger] is_clear(classes, root, kind) {
        let (root, kind) = choose|root: int, kind: ChordKind| #[trigger]
            is_clear(classes, root, kind);
        Some((root, kind))
    } else {
        None
    }
}

/// What the chord adds to the only note of its class, in eighths.
pub open spec fn chord_bonus(classes: Seq<bool>, pitch: int) -> int {
    match reading(classes) {
        Some((root, kind)) => (640 * member_worth(root, kind, pitch)) / 100,
        None => 0,
    }
}

/// What a note that sounds is weighed by. The outer notes and the members of a clear chord
/// are worth more, doubled notes less.
pub open spec fn weight_of(
    notes: Seq<WorkingNote>,
    active: Seq<usize>,
    classes: Seq<bool>,
    tick: Tick,
    k: int,
) -> Weight {
    let w = notes[active[k] as int];
    let p = w.note.pitch as int;
    let n = active.len() as int;
    let high = is_outer(notes, active, p, false);
    let low = is_outer(notes, active, p, true);
    let value = w.base + (if high {
        880int
    } else {
        0int
    }) + (if low {
        760int
    } else {
        0int
    }) + (if class_times(notes, active, class_of(p), n) == 1 {
        chord_bonus(classes, p)
    } else {
        0
    });
    let penalty = (if pitch_times(notes, active, p, n) > 1 {
        2080int
    } else {
        0int
    }) + (if !high && !low && (pitch_times(notes, active, p - 12, n) > 0 || pitch_times(
        notes,
        active,
        p + 12,
        n,
    ) > 0) {
        560int
    } else {
        0int
    });
    Weight { value: value as i64, penalty: penalty as i64, age: (tick - w.note.on) as Tick }
}

/// The pitches of the first notes, in order of time, that last beyond a tick in the source.
pub open spec fn lasting(
    notes: Seq<WorkingNote>,
    ends: Seq<Tick>,
    events: Seq<usize>,
    tick: Tick,
    n: int,
) -> Seq<i32>
    decreases n,
{
    if n <= 0 {
        Seq::empty()
    } else {
        let before = lasting(notes, ends, events, tick, n - 1);
        if ends[events[n - 1] as int] > tick {
            before.push(notes[events[n - 1] as int].note.pitch)
        } else {
            before
        }
    }
}

/// The place of the note that gives way: with the least key, and among notes of which some
/// have sounded for long one of those; of several the first.
pub open spec fn victim_of(
    notes: Seq<WorkingNote>,
    active: Seq<usize>,
    tick: Tick,
    patient: bool,
    keys: Seq<i64>,
    n: int,
) -> int
    decreases n,
{
    if n <= 1 {
        0
    } else {
        let before = victim_of(notes, active, tick, patient, keys, n - 1);
        let young = is_young(notes, active, tick, patient, n - 1);
        let old_young = is_young(notes, active, tick, patient, before);
        if (!young && old_young) || (young == old_young && keys[n - 1] < keys[before]) {
            n - 1
        } else {
            before
        }
    }
}

/// Whether a note is not one of those that give way first.
pub open spec fn is_young(notes: Seq<WorkingNote>, active: Seq<usize>, tick: Tick, patient: bool, k: int) -> bool {
    patient || tick - notes[active[k] as int].note.on < 96
}

/// A note that gives way at a tick: it ends there, or where that is too early it falls away.
pub open spec fn giving_way(w: WorkingNote, tick: Tick) -> WorkingNote {
    WorkingNote {
        note: Note {
            on: w.note.on,
            off: if tick - w.note.on >= 6 {
                tick
            } else {
                w.note.on
            },
            pitch: w.note.pitch,
            vel: w.note.vel,
            src: w.note.src,
        },
        activity: w.activity,
        onset_activity: w.onset_activity,
        original_velocity: w.original_velocity,
        base: w.base,
    }
}

/// How many of the first notes have fallen away.
pub open spec fn fallen(notes: Seq<WorkingNote>, n: int) -> int
    decreases n,
{
    if n <= 0 {
        0
    } else {
        fallen(notes, n - 1) + (if notes[n - 1].note.off - notes[n - 1].note.on < 6 {
            1int
        } else {
            0int
        })
    }
}

/// How many of the first notes end earlier than they did, but have not fallen away.
pub open spec fn cut_short(notes: Seq<WorkingNote>, ends: Seq<Tick>, n: int) -> int
    decreases n,
{
    if n <= 0 {
        0
    } else {
        let note = notes[n - 1].note;
        cut_short(notes, ends, n - 1) + (if note.off - note.on >= 6 && note.off < ends[n - 1] {
            1int
        } else {
            0int
        })
    }
}

/// The numbers of the first notes that have not fallen away.
pub open spec fn standing(notes: Seq<WorkingNote>, n: int) -> Seq<usize>
    decreases n,
{
    if n <= 0 {
        Seq::empty()
    } else if notes[n - 1].note.off - notes[n - 1].note.on >= 6 {
        standing(notes, n - 1).push((n - 1) as usize)
    } else {
        standing(notes, n - 1)
    }
}

/// Whether a note is as it was, ends earlier but can still be written, or has fallen away.
pub open spec fn is_reduced(before: WorkingNote, end: Tick, now: WorkingNote) -> bool {
    &&& now.note.on == before.note.on
    &&& now.note.pitch == before.note.pitch
    &&& now.note.vel == before.note.vel
    &&& now.note.src == before.note.src
    &&& now.activity == before.activity
    &&& now.onset_activity == before.onset_activity
    &&& now.original_velocity == before.original_velocity
    &&& now.base == before.base
    &&& now.note.off == end || now.note.off == now.note.on || (now.note.on + 6 <= now.note.off
        < end)
}

/// Notes that are taken away, one moment after the other.
pub struct Reduction {
    notes: Vec<WorkingNote>,
    ends: Vec<Tick>,
    events: Vec<usize>,
    next: usize,
    tick: Tick,
    active: Vec<usize>,
    limit: usize,
    patient: bool,
    truncated: usize,
    dropped: usize,
    start: Ghost<Seq<WorkingNote>>,
}

/// Whether numbers tell notes in order of time, each of them once.
pub open spec fn tells_time(notes: Seq<WorkingNote>, events: Seq<usize>) -> bool {
    &&& events.len() == notes.len()
    &&& forall|k: int| 0 <= k < events.len() ==> (#[trigger] events[k]) < notes.len()
    &&& events.no_duplicates()
    &&& forall|i: int, j: int|
        #![trigger events[i], events[j]]
        0 <= i <= j < events.len() ==> notes[events[i] as int].note.on
            <= notes[events[j] as int].note.on
    &&& forall|i: usize| i < notes.len() ==> #[trigger] events.contains(i)
}

pub open spec fn start_keys(notes: Seq<WorkingNote>) -> Seq<Key> {
    Seq::new(notes.len(), |i: int| (notes[i].note.on, 0i64, 0i64))
}

/// The numbers of notes in order of time; of those that begin at once in their own order.
pub open spec fn time_order(notes: Seq<WorkingNote>) -> Seq<usize> {
    order_of(start_keys(notes))
}

/// Where notes end.
pub open spec fn ends_of(notes: Seq<WorkingNote>) -> Seq<Tick> {
    Seq::new(notes.len(), |i: int| notes[i].note.off)
}

/// Of the first notes that sounded those that last beyond a tick.
pub open spec fn still(notes: Seq<WorkingNote>, active: Seq<usize>, tick: Tick, n: int) -> Seq<usize>
    decreases n,
{
    if n <= 0 {
        Seq::empty()
    } else if notes[active[n - 1] as int].note.off > tick {
        still(notes, active, tick, n - 1).push(active[n - 1])
    } else {
        still(notes, active, tick, n - 1)
    }
}

/// The end of the notes, in order of time, that begin at a tick.
pub open spec fn group_end(notes: Seq<WorkingNote>, events: Seq<usize>, tick: Tick, k: int) -> int
    decreases events.len() - k,
{
    if 0 <= k < events.len() && notes[events[k] as int].note.on == tick {
        group_end(notes, events, tick, k + 1)
    } else {
        k
    }
}

/// The keys by which notes give way where age does not count.
pub open spec fn plain_keys(notes: Seq<WorkingNote>, active: Seq<usize>, classes: Seq<bool>, tick: Tick) -> Seq<i64> {
    Seq::new(
        active.len(),
        |k: int| plain_key(weight_of(notes, active, classes, tick, k)) as i64,
    )
}

/// Notes of which those that sound have given way one after the other, until no more sound
/// than may.
pub open spec fn thinned(
    notes: Seq<WorkingNote>,
    active: Seq<usize>,
    classes: Seq<bool>,
    tick: Tick,
    limit: int,
) -> (Seq<WorkingNote>, Seq<usize>)
    decreases active.len(),
{
    let n = active.len() as int;
    let keys = plain_keys(notes, active, classes, tick);
    let v = victim_of(notes, active, tick, true, keys, n);
    if n <= limit || v < 0 || v >= n {
        (notes, active)
    } else {
        let i = active[v] as int;
        thinned(
            notes.update(i, giving_way(notes[i], tick)),
            active.remove(v),
            classes,
            tick,
            limit,
        )
    }
}

/// Notes that have been taken away from a place on, in order of time, wherever more sounded
/// than may.
pub open spec fn reduction(
    notes: Seq<WorkingNote>,
    ends: Seq<Tick>,
    events: Seq<usize>,
    active: Seq<usize>,
    k: int,
    limit: int,
) -> Seq<WorkingNote>
    decreases events.len() - k,
{
    if k < 0 || k >= events.len() {
        notes
    } else {
        let tick = notes[events[k] as int].note.on;
        let e = group_end(notes, events, tick, k);
        let sounding = still(notes, active, tick, active.len() as int) + events.subrange(k, e);
        let classes = classes_of(lasting(notes, ends, events, tick, e));
        let (rest, left) = thinned(notes, sounding, classes, tick, limit);
        if k < e <= events.len() {
            reduction(rest, ends, events, left, e, limit)
        } else {
            notes
        }
    }
}

/// What notes have to be like to be reduced.
pub open spec fn are_reducible(notes: Seq<WorkingNote>) -> bool {
    forall|i: int|
        0 <= i < notes.len() ==> 0 <= (#[trigger] notes[i]).note.on && notes[i].note.on + 6
            <= notes[i].note.off && 0 <= notes[i].base <= 10000
}

spec fn count_in(active: Seq<usize>, n: int) -> int
    decreases n,
{
    if n <= 0 {
        0
    } else {
        count_in(active, n - 1) + (if active.contains((n - 1) as usize) {
            1int
        } else {
            0int
        })
    }
}

proof fn lemma_count_in(active: Seq<usize>, n: int)
    requires
        0 <= n <= usize::MAX,
    ensures
        count_in(active, n) <= active.len(),
    decreases active.len(), n,
{
    if active.len() == 0 {
        lemma_count_none(active, n);
    } else {
        lemma_count_in(active.drop_last(), n);
        lemma_count_step(active, n);
    }
}

proof fn lemma_count_none(active: Seq<usize>, n: int)
    requires
        active.len() == 0,
    ensures
        count_in(active, n) == 0,
    decreases n,
{
    if n > 0 {
        lemma_count_none(active, n - 1);
    }
}

proof fn lemma_count_step(active: Seq<usize>, n: int)
    requires
        active.len() > 0,
        0 <= n <= usize::MAX,
    ensures
        count_in(active, n) <= count_in(active.drop_last(), n) + (if active.last() < n {
            1int
        } else {
            0int
        }),
    decreases n,
{
    if n > 0 {
        lemma_count_step(active, n - 1);
        let x = (n - 1) as usize;
        if active.contains(x) && active.last() != x {
            let k = choose|k: int| 0 <= k < active.len() && active[k] == x;
            assert(active.drop_last()[k] == x);
            assert(active.drop_last().contains(x));
        }
    }
}

proof fn lemma_voices_bound(notes: Seq<WorkingNote>, active: Seq<usize>, t: int, n: int)
    requires
        0 <= n <= notes.len() <= usize::MAX,
        forall|i: int|
            0 <= i < notes.len() && (#[trigger] notes[i]).note.on <= t < notes[i].note.off
                ==> active.contains(i as usize),
    ensures
        voices(bare(notes).take(n), t) <= count_in(active, n),
    decreases n,
{
    let all = bare(notes);
    if n > 0 {
        lemma_voices_bound(notes, active, t, n - 1);
        assert(all.take(n).drop_last() =~= all.take(n - 1));
        assert(all.take(n).last() == notes[n - 1].note);
    } else {
        assert(all.take(n) =~= Seq::<Note>::empty());
    }
}

proof fn lemma_voices_update(notes: Seq<Note>, i: int, to: Note, t: int)
    requires
        0 <= i < notes.len(),
        to.on == notes[i].on,
        to.off <= notes[i].off || t < to.on,
    ensures
        voices(notes.update(i, to), t) <= voices(notes, t),
    decreases notes.len(),
{
    let new = notes.update(i, to);
    if i == notes.len() - 1 {
        assert(new.drop_last() =~= notes.drop_last());
    } else {
        assert(new.drop_last() =~= notes.drop_last().update(i, to));
        lemma_voices_update(notes.drop_last(), i, to, t);
    }
}

proof fn lemma_fallen_update(notes: Seq<WorkingNote>, ends: Seq<Tick>, i: int, to: WorkingNote, n: int)
    requires
        0 <= i < notes.len(),
        0 <= n <= notes.len(),
        notes[i].note.off - notes[i].note.on >= 6,
        notes[i].note.off == ends[i],
        to.note.on == notes[i].note.on,
        to.note.off <= notes[i].note.off,
    ensures
        fallen(notes.update(i, to), n) == fallen(notes, n) + (if i < n && to.note.off - to.note.on
            < 6 {
            1int
        } else {
            0int
        }),
        cut_short(notes.update(i, to), ends, n) == cut_short(notes, ends, n) + (if i < n
            && to.note.off - to.note.on >= 6 && to.note.off < ends[i] {
            1int
        } else {
            0int
        }),
    decreases n,
{
    if n > 0 {
        lemma_fallen_update(notes, ends, i, to, n - 1);
    }
}

proof fn lemma_fallen_none(notes: Seq<WorkingNote>, ends: Seq<Tick>, n: int)
    requires
        0 <= n <= notes.len(),
        ends.len() == notes.len(),
        are_reducible(notes),
        forall|i: int| 0 <= i < notes.len() ==> #[trigger] ends[i] == notes[i].note.off,
    ensures
        fallen(notes, n) == 0,
        cut_short(notes, ends, n) == 0,
    decreases n,
{
    if n > 0 {
        lemma_fallen_none(notes, ends, n - 1);
        assert(ends[n - 1] == notes[n - 1].note.off);
        assert(notes[n - 1].note.on + 6 <= notes[n - 1].note.off);
    }
}

proof fn lemma_fallen_bounds(notes: Seq<WorkingNote>, ends: Seq<Tick>, n: int)
    requires
        0 <= n <= notes.len(),
    ensures
        0 <= fallen(notes, n) <= n,
        0 <= cut_short(notes, ends, n) <= n,
        standing(notes, n).len() + fallen(notes, n) == n,
    decreases n,
{
    if n > 0 {
        lemma_fallen_bounds(notes, ends, n - 1);
    }
}

impl Reduction {
    /// The notes as they are now.
    pub closed spec fn working(self) -> Seq<WorkingNote> {
        self.notes@
    }

    /// The notes as they were.
    pub closed spec fn origin(self) -> Seq<WorkingNote> {
        self.start@
    }

    /// The numbers of the notes that sound now.
    pub closed spec fn sounding(self) -> Seq<usize> {
        self.active@
    }

    pub closed spec fn now(self) -> Tick {
        self.tick
    }

    pub closed spec fn most(self) -> int {
        self.limit as int
    }

    /// Whether a note that has sounded for long does not give way before others.
    pub closed spec fn waits(self) -> bool {
        self.patient
    }

    /// The numbers of the notes in order of time.
    pub closed spec fn sequence(self) -> Seq<usize> {
        self.events@
    }

    /// Where the notes ended in the source.
    pub closed spec fn source_ends(self) -> Seq<Tick> {
        self.ends@
    }

    /// How many notes have been looked at.
    pub closed spec fn place(self) -> int {
        self.next as int
    }

    /// The classes of the pitches that sound in the source.
    pub open spec fn classes(self) -> Seq<bool> {
        classes_of(
            lasting(
                self.working(),
                self.source_ends(),
                self.sequence(),
                self.now(),
                self.place(),
            ),
        )
    }

    /// Whether no more notes sound than may.
    pub open spec fn is_clear_now(self) -> bool {
        self.sounding().len() <= self.most()
    }

    /// Whether all moments have been looked at.
    pub closed spec fn is_over(self) -> bool {
        self.next == self.events.len()
    }

    /// Whether the state is sound: up to now no more notes sounded than may, and each note
    /// is as it was, ends earlier, or has fallen away.
    pub closed spec fn valid(self) -> bool {
        let n = self.notes.len() as int;
        &&& self.ends.len() == n
        &&& self.start@.len() == n
        &&& are_reducible(self.start@)
        &&& tells_time(self.start@, self.events@)
        &&& self.next <= n
        &&& forall|i: int|
            0 <= i < n ==> #[trigger] self.ends[i] == self.start@[i].note.off
        &&& forall|i: int|
            0 <= i < n ==> is_reduced(self.start@[i], self.ends[i], #[trigger] self.notes[i])
        &&& forall|k: int|
            0 <= k < self.next ==> self.start@[#[trigger] self.events[k] as int].note.on
                <= self.tick
        &&& forall|k: int|
            self.next <= k < n ==> self.start@[#[trigger] self.events[k] as int].note.on
                > self.tick
        &&& forall|k: int|
            0 <= k < self.active.len() ==> (#[trigger] self.active[k]) < n
                && self.notes[self.active[k] as int].note.on <= self.tick
                < self.notes[self.active[k] as int].note.off
        &&& forall|k: int|
            0 <= k < self.active.len() ==> self.notes[#[trigger] self.active[k] as int].note.off
                == self.ends[self.active[k] as int]
        &&& self.active@.no_duplicates()
        &&& forall|k: int|
            0 <= k < self.next && self.notes[self.events[k] as int].note.off > self.tick
                ==> self.active@.contains(#[trigger] self.events[k])
        &&& forall|t: int| t < self.tick ==> #[trigger] voices(bare(self.notes@), t) <= self.limit
        &&& forall|k: int|
            self.next <= k < n ==> self.notes[#[trigger] self.events[k] as int].note.off
                == self.ends[self.events[k] as int]
        &&& self.dropped == fallen(self.notes@, n)
        &&& self.truncated == cut_short(self.notes@, self.ends@, n)
        &&& self.tick >= -1
    }

    /// Begins with notes that can all be written.
    pub fn new(notes: Vec<WorkingNote>, limit: usize, attack_priority: bool) -> (r: Self)
        requires
            are_reducible(notes@),
        ensures
            r.valid(),
            r.working() == notes@,
            r.origin() == notes@,
            r.sounding() == Seq::<usize>::empty(),
            r.most() == limit,
            r.waits() == !attack_priority,
            r.now() == -1,
            r.place() == 0,
            r.sequence() == time_order(notes@),
            r.source_ends() == ends_of(notes@),
    {
        let mut keys: Vec<Key> = Vec::new();
        let mut ends: Vec<Tick> = Vec::new();
        let mut i: usize = 0;
        while i < notes.len()
            invariant
                i <= notes.len(),
                keys.len() == i,
                ends.len() == i,
                forall|k: int| 0 <= k < i ==> #[trigger] keys[k] == (notes[k].note.on, 0i64, 0i64),
                forall|k: int| 0 <= k < i ==> #[trigger] ends[k] == notes[k].note.off,
            decreases notes.len() - i,
        {
            keys.push((notes[i].note.on, 0, 0));
            ends.push(notes[i].note.off);
            i += 1;
        }
        let events = order(&keys);
        let ghost start = notes@;
        proof {
            assert(keys@ =~= start_keys(start));
            assert(ends@ =~= ends_of(start));
            lemma_events(start, keys@, events@);
            lemma_fallen_none(start, ends@, start.len() as int);
        }
        let active: Vec<usize> = Vec::new();
        let r = Reduction {
            notes,
            ends,
            events,
            next: 0,
            tick: -1,
            active,
            limit,
            patient: !attack_priority,
            truncated: 0,
            dropped: 0,
            start: Ghost(start),
        };
        proof {
            assert forall|t: int| t < -1 implies #[trigger] voices(bare(start), t) <= limit by {
                let none = Seq::<usize>::empty();
                assert(bare(start).take(start.len() as int) =~= bare(start));
                lemma_voices_bound(start, none, t, start.len() as int);
                lemma_count_none(none, start.len() as int);
            }
            assert(r.active@ =~= Seq::<usize>::empty());
        }
        r
    }

    /// Goes on to the next moment at which notes begin, where there is one.
    #[verifier::rlimit(80)]
    pub fn advance(&mut self) -> (r: bool)
        requires
            old(self).valid(),
            old(self).is_clear_now(),
        ensures
            final(self).valid(),
            r == !old(self).is_over(),
            !r ==> *final(self) == *old(self),
            final(self).working() == old(self).working(),
            final(self).origin() == old(self).origin(),
            final(self).most() == old(self).most(),
            final(self).waits() == old(self).waits(),
            r ==> final(self).now() > old(self).now(),
            r ==> 0 <= final(self).left() < old(self).left(),
            final(self).sequence() == old(self).sequence(),
            final(self).source_ends() == old(self).source_ends(),
            r ==> ({
                let notes = old(self).working();
                let k = old(self).place();
                let tick = notes[old(self).sequence()[k] as int].note.on;
                let e = group_end(notes, old(self).sequence(), tick, k);
                &&& 0 <= k < e <= old(self).sequence().len()
                &&& final(self).now() == tick
                &&& final(self).place() == e
                &&& final(self).sounding() == still(
                    notes,
                    old(self).sounding(),
                    tick,
                    old(self).sounding().len() as int,
                ) + old(self).sequence().subrange(k, e)
            }),
            !r ==> old(self).place() >= old(self).sequence().len(),
            r ==> forall|i: usize|
                i < final(self).working().len() ==> (#[trigger] final(self).sounding().contains(i)
                    == (final(self).working()[i as int].note.on <= final(self).now()
                    < final(self).working()[i as int].note.off)),
            r ==> exists|i: int|
                0 <= i < final(self).working().len() && (#[trigger] final(self).working()[i]).note.on
                    == final(self).now(),
            r ==> forall|i: int|
                0 <= i < final(self).working().len() ==> !(old(self).now() < (
                #[trigger] final(self).working()[i]).note.on < final(self).now()),
    {
        let ghost before = *self;
        if self.next >= self.events.len() {
            return false;
        }
        proof {
            assert(self.start@[self.events[self.next as int] as int].note.on > self.tick);
            assert(self.events@[self.next as int] < self.notes.len());
            assert(is_reduced(
                self.start@[self.events[self.next as int] as int],
                self.ends[self.events[self.next as int] as int],
                self.notes[self.events[self.next as int] as int],
            ));
        }
        let tick = self.notes[self.events[self.next]].note.on;
        let mut active: Vec<usize> = Vec::new();
        let mut k: usize = 0;
        proof {
            assert(before.active@.take(0) =~= Seq::<usize>::empty());
        }
        while k < self.active.len()
            invariant
                k <= self.active.len(),
                *self == before,
                before.valid(),
                active.len() <= k,
                active@ == still(before.notes@, before.active@, tick, k as int),
                forall|j: int|
                    0 <= j < active.len() ==> (#[trigger] active[j]) < before.notes.len()
                        && before.active@.contains(active[j])
                        && before.notes[active[j] as int].note.off > tick,
                active@.no_duplicates(),
                forall|j: int|
                    0 <= j < active.len() ==> before.active@.take(k as int).contains(
                        #[trigger] active[j],
                    ),
                forall|j: int|
                    0 <= j < k && before.notes[before.active[j] as int].note.off > tick
                        ==> active@.contains(#[trigger] before.active[j]),
            decreases self.active.len() - k,
        {
            let i = self.active[k];
            let ghost short = before.active@.take(k as int);
            let ghost old_active = active@;
            proof {
                assert(before.active@[k as int] == i);
                assert(i < before.notes.len());
            }
            if self.notes[i].note.off > tick {
                proof {
                    if active@.contains(i) {
                        let j = choose|j: int| 0 <= j < active@.len() && active@[j] == i;
                        assert(short.contains(active[j]));
                        let q = choose|q: int| 0 <= q < short.len() && short[q] == i;
                        assert(before.active@[q] == before.active@[k as int]);
                        assert(false);
                    }
                }
                active.push(i);
            }
            proof {
                let long = before.active@.take(k + 1);
                assert forall|j: int| 0 <= j < active.len() implies long.contains(
                    #[trigger] active[j],
                ) by {
                    if j < old_active.len() {
                        assert(active[j] == old_active[j]);
                        assert(short.contains(old_active[j]));
                        let q = choose|q: int| 0 <= q < short.len() && short[q] == active[j];
                        assert(long[q] == active[j]);
                    } else {
                        assert(long[k as int] == active[j]);
                    }
                }
                assert forall|j: int|
                    0 <= j < k + 1 && before.notes[before.active[j] as int].note.off
                        > tick implies active@.contains(#[trigger] before.active[j]) by {
                    if j < k {
                        assert(old_active.contains(before.active[j]));
                        let q = choose|q: int|
                            0 <= q < old_active.len() && old_active[q] == before.active[j];
                        assert(active@[q] == before.active[j]);
                    } else {
                        assert(active@[old_active.len() as int] == before.active[j]);
                    }
                }
            }
            k += 1;
        }
        let ghost kept = active@;
        let ghost first = self.next as int;
        let mut next: usize = self.next;
        proof {
            assert(before.active@.take(k as int) =~= before.active@);
        }
        while next < self.events.len() && self.notes[self.events[next]].note.on == tick
            invariant
                first <= next <= self.events.len(),
                first == before.next,
                *self == before,
                before.valid(),
                tick > before.tick,
                group_end(before.notes@, before.events@, tick, first) == group_end(
                    before.notes@,
                    before.events@,
                    tick,
                    next as int,
                ),
                active@ == kept + before.events@.subrange(first, next as int),
                forall|j: int|
                    first <= j < next ==> before.notes[#[trigger] before.events[j] as int].note.on
                        == tick,
                forall|k: int| 0 <= k < self.events.len() ==> (#[trigger] self.events[k]) < self.notes.len(),
            decreases self.events.len() - next,
        {
            active.push(self.events[next]);
            next += 1;
            proof {
                assert(active@ =~= kept + before.events@.subrange(first, next as int));
            }
        }
        proof {
            assert(next > before.next) by {
                if next == before.next {
                    assert(before.notes[before.events[before.next as int] as int].note.on == tick);
                }
            }
        }
        self.active = active;
        self.next = next;
        self.tick = tick;
        proof {
            lemma_advanced(before, *self, kept);
            let i = choose|i: int|
                0 <= i < self.notes@.len() && (#[trigger] self.notes@[i]).note.on == self.tick;
            assert(self.working()[i].note.on == self.now());
        }
        true
    }

    /// Whether more notes sound than may.
    pub fn is_crowded(&self) -> (r: bool)
        ensures
            r == !self.is_clear_now(),
    {
        self.active.len() > self.limit
    }

    /// What the notes that sound are weighed by.
    #[verifier::rlimit(60)]
    pub fn weights(&self) -> (r: Vec<Weight>)
        requires
            self.valid(),
        ensures
            r.len() == self.sounding().len(),
            forall|k: int|
                0 <= k < r.len() ==> #[trigger] r[k] == weight_of(
                    self.working(),
                    self.sounding(),
                    self.classes(),
                    self.now(),
                    k,
                ),
    {
        let mut pitches: Vec<i32> = Vec::new();
        let mut k: usize = 0;
        while k < self.next
            invariant
                k <= self.next <= self.events.len(),
                self.valid(),
                pitches@ == lasting(self.notes@, self.ends@, self.events@, self.tick, k as int),
            decreases self.next - k,
        {
            let i = self.events[k];
            proof {
                assert(self.events@[k as int] < self.notes.len());
            }
            if self.ends[i] > self.tick {
                pitches.push(self.notes[i].note.pitch);
            }
            k += 1;
        }
        let harmony = analyze(&pitches);
        let ghost classes = self.classes();
        let mut r: Vec<Weight> = Vec::new();
        let mut k: usize = 0;
        while k < self.active.len()
            invariant
                k <= self.active.len(),
                self.valid(),
                classes == self.classes(),
                match harmony {
                    Some(h) => h.valid() && is_clear(classes, h.root_class(), h.chord()),
                    None => forall|root: int, kind: ChordKind| !#[trigger]
                        is_clear(classes, root, kind),
                },
                r.len() == k,
                forall|j: int|
                    0 <= j < k ==> #[trigger] r[j] == weight_of(
                        self.notes@,
                        self.active@,
                        classes,
                        self.tick,
                        j,
                    ),
            decreases self.active.len() - k,
        {
            r.push(self.weight(k, &harmony, Ghost(classes)));
            k += 1;
        }
        r
    }

    #[verifier::rlimit(60)]
    fn weight(&self, k: usize, harmony: &Option<Harmony>, Ghost(classes): Ghost<Seq<bool>>) -> (r: Weight)
        requires
            self.valid(),
            k < self.active.len(),
            match harmony {
                Some(h) => h.valid() && is_clear(classes, h.root_class(), h.chord()),
                None => forall|root: int, kind: ChordKind| !#[trigger]
                    is_clear(classes, root, kind),
            },
        ensures
            r == weight_of(self.notes@, self.active@, classes, self.tick, k as int),
    {
        proof {
            assert(self.active@[k as int] < self.notes.len());
            assert(is_reduced(
                self.start@[self.active[k as int] as int],
                self.ends[self.active[k as int] as int],
                self.notes[self.active[k as int] as int],
            ));
            assert(0 <= self.start@[self.active[k as int] as int].note.on);
            assert(0 <= self.start@[self.active[k as int] as int].base <= 10000);
        }
        let w = self.notes[self.active[k]];
        let p = w.note.pitch;
        let c = pitch_class(p);
        let mut high: bool = true;
        let mut low: bool = true;
        let mut same: usize = 0;
        let mut below: usize = 0;
        let mut above: usize = 0;
        let mut class: usize = 0;
        let mut j: usize = 0;
        while j < self.active.len()
            invariant
                j <= self.active.len(),
                self.valid(),
                c == class_of(p as int),
                high == (forall|q: int|
                    0 <= q < j ==> self.notes@[#[trigger] self.active@[q] as int].note.pitch <= p),
                low == (forall|q: int|
                    0 <= q < j ==> p <= self.notes@[#[trigger] self.active@[q] as int].note.pitch),
                same == pitch_times(self.notes@, self.active@, p as int, j as int),
                below == pitch_times(self.notes@, self.active@, p - 12, j as int),
                above == pitch_times(self.notes@, self.active@, p + 12, j as int),
                class == class_times(self.notes@, self.active@, c as int, j as int),
                same <= j,
                below <= j,
                above <= j,
                class <= j,
            decreases self.active.len() - j,
        {
            proof {
                assert(self.active@[j as int] < self.notes.len());
            }
            let q = self.notes[self.active[j]].note.pitch;
            if q > p {
                high = false;
            }
            if q < p {
                low = false;
            }
            if q == p {
                same += 1;
            }
            if q as i64 == p as i64 - 12 {
                below += 1;
            }
            if q as i64 == p as i64 + 12 {
                above += 1;
            }
            if pitch_class(q) == c {
                class += 1;
            }
            j += 1;
        }
        let mut value: i64 = w.base;
        if high {
            value += 880;
        }
        if low {
            value += 760;
        }
        if class == 1 {
            match harmony {
                Some(h) => {
                    let worth = h.weight(p);
                    proof {
                        lemma_reading(classes, h.root_class(), h.chord());
                    }
                    value += (640 * worth as i64) / 100;
                },
                None => {},
            }
        }
        let mut penalty: i64 = 0;
        if same > 1 {
            penalty += 2080;
        }
        if !high && !low && (below > 0 || above > 0) {
            penalty += 560;
        }
        Weight { value, penalty, age: self.tick - w.note.on }
    }

    /// Takes the note away that gives way: it ends now, or where that is too early it falls
    /// away.
    #[verifier::rlimit(80)]
    pub fn drop_one(&mut self, keys: &Vec<i64>)
        requires
            old(self).valid(),
            old(self).sounding().len() > 0,
            keys.len() == old(self).sounding().len(),
        ensures
            final(self).valid(),
            final(self).origin() == old(self).origin(),
            final(self).most() == old(self).most(),
            final(self).waits() == old(self).waits(),
            final(self).now() == old(self).now(),
            final(self).classes() == old(self).classes(),
            final(self).is_over() == old(self).is_over(),
            final(self).left() == old(self).left(),
            final(self).sequence() == old(self).sequence(),
            final(self).source_ends() == old(self).source_ends(),
            final(self).place() == old(self).place(),
            ({
                let v = victim_of(
                    old(self).working(),
                    old(self).sounding(),
                    old(self).now(),
                    old(self).waits(),
                    keys@,
                    keys.len() as int,
                );
                let i = old(self).sounding()[v] as int;
                &&& 0 <= v < old(self).sounding().len()
                &&& final(self).sounding() == old(self).sounding().remove(v)
                &&& final(self).working() == old(self).working().update(
                    i,
                    giving_way(old(self).working()[i], old(self).now()),
                )
            }),
    {
        let ghost before = *self;
        let mut v: usize = 0;
        let mut k: usize = 1;
        while k < self.active.len()
            invariant
                1 <= k <= self.active.len(),
                v < k,
                *self == before,
                before.valid(),
                keys.len() == self.active.len(),
                v == victim_of(
                    before.notes@,
                    before.active@,
                    before.tick,
                    before.patient,
                    keys@,
                    k as int,
                ),
            decreases self.active.len() - k,
        {
            let young = self.is_young_at(k);
            let old_young = self.is_young_at(v);
            if (!young && old_young) || (young == old_young && keys[k] < keys[v]) {
                v = k;
            }
            k += 1;
        }
        let tick = self.tick;
        proof {
            assert(before.active@[v as int] < before.notes.len());
            assert(before.notes[before.active[v as int] as int].note.off == before.ends[before.active[v as int] as int]);
        }
        let i = self.active.remove(v);
        let w = self.notes[i];
        proof {
            assert(is_reduced(before.start@[i as int], before.ends[i as int], before.notes[i as int]));
            assert(before.start@[i as int].note.on + 6 <= before.start@[i as int].note.off);
            assert(0 <= before.start@[i as int].note.on);
            assert(before.ends[i as int] == before.start@[i as int].note.off);
            lemma_fallen_bounds(before.notes@, before.ends@, before.notes.len() as int);
        }
        let long = tick - w.note.on >= 6;
        let off = if long {
            tick
        } else {
            w.note.on
        };
        let note = Note { on: w.note.on, off, pitch: w.note.pitch, vel: w.note.vel, src: w.note.src };
        let new = WorkingNote {
            note,
            activity: w.activity,
            onset_activity: w.onset_activity,
            original_velocity: w.original_velocity,
            base: w.base,
        };
        proof {
            assert(new == giving_way(w, tick));
            lemma_fallen_update(before.notes@, before.ends@, i as int, new, before.notes.len() as int);
            lemma_fallen_bounds(before.notes@.update(i as int, new), before.ends@, before.notes.len() as int);
        }
        self.notes.set(i, new);
        if long {
            self.truncated = self.truncated + 1;
        } else {
            self.dropped = self.dropped + 1;
        }
        proof {
            lemma_dropped(before, *self, v as int);
        }
    }

    fn is_young_at(&self, k: usize) -> (r: bool)
        requires
            self.valid(),
            k < self.active.len(),
        ensures
            r == is_young(self.notes@, self.active@, self.tick, self.patient, k as int),
    {
        proof {
            assert(self.active@[k as int] < self.notes.len());
            assert(is_reduced(
                self.start@[self.active[k as int] as int],
                self.ends[self.active[k as int] as int],
                self.notes[self.active[k as int] as int],
            ));
            assert(0 <= self.start@[self.active[k as int] as int].note.on);
        }
        self.patient || self.tick - self.notes[self.active[k]].note.on < 96
    }

    /// The notes in the end, the numbers of those that have not fallen away, and what became
    /// of them. At no tick do more notes sound than may.
    pub fn finish(self) -> (r: (Vec<WorkingNote>, Vec<usize>, FoldStats))
        requires
            self.valid(),
            self.is_over(),
            self.is_clear_now(),
        ensures
            r.0@ == self.working(),
            r.1@ == standing(self.working(), self.working().len() as int),
            r.2.total == self.working().len(),
            r.2.kept == r.1.len(),
            r.2.dropped == fallen(self.working(), self.working().len() as int),
            r.2.kept + r.2.dropped == r.2.total,
            r.2.truncated <= r.2.kept,
            r.2.truncated == cut_short(
                self.working(),
                ends_of(self.origin()),
                self.working().len() as int,
            ),
            r.2.spill == 0,
            r.2.volume_shift == 0,
            forall|t: int| #[trigger] voices(bare(r.0@), t) <= self.most(),
            r.0.len() == self.origin().len(),
            forall|i: int|
                0 <= i < r.0.len() ==> is_reduced(
                    self.origin()[i],
                    self.origin()[i].note.off,
                    #[trigger] r.0[i],
                ),
            forall|k: int| 0 <= k < r.1.len() ==> (#[trigger] r.1[k]) < r.0.len(),
    {
        let ghost n = self.notes.len() as int;
        let mut kept: Vec<usize> = Vec::new();
        let mut i: usize = 0;
        while i < self.notes.len()
            invariant
                i <= self.notes.len(),
                self.valid(),
                kept@ == standing(self.notes@, i as int),
                forall|k: int| 0 <= k < kept.len() ==> (#[trigger] kept[k]) < i,
            decreases self.notes.len() - i,
        {
            proof {
                assert(is_reduced(self.start@[i as int], self.ends[i as int], self.notes[i as int]));
                assert(0 <= self.start@[i as int].note.on);
                assert(self.start@[i as int].note.on + 6 <= self.start@[i as int].note.off);
                assert(self.ends[i as int] == self.start@[i as int].note.off);
            }
            let note = self.notes[i].note;
            if note.off - note.on >= 6 {
                kept.push(i);
            }
            i += 1;
        }
        proof {
            lemma_fallen_bounds(self.notes@, self.ends@, n);
            lemma_cut_kept(self.notes@, self.ends@, n);
            assert(self.ends@ =~= ends_of(self.start@));
            assert forall|t: int| #[trigger] voices(bare(self.notes@), t) <= self.limit by {
                if t >= self.tick {
                    assert forall|i: int|
                        0 <= i < self.notes@.len() && (#[trigger] self.notes@[i]).note.on <= t
                            < self.notes@[i].note.off implies self.active@.contains(i as usize) by {
                        assert(self.events@.contains(i as usize));
                        let k = choose|k: int|
                            0 <= k < self.events@.len() && self.events@[k] == i as usize;
                        assert(self.active@.contains(self.events[k]));
                    }
                    lemma_voices_bound(self.notes@, self.active@, t, n);
                    lemma_count_in(self.active@, n);
                    assert(bare(self.notes@).take(n) =~= bare(self.notes@));
                }
            }
            assert forall|i: int| 0 <= i < self.notes.len() implies is_reduced(
                self.origin()[i],
                self.origin()[i].note.off,
                #[trigger] self.notes[i],
            ) by {
                assert(self.ends[i] == self.start@[i].note.off);
                assert(is_reduced(self.start@[i], self.ends[i], self.notes[i]));
            }
        }
        let stats = FoldStats {
            total: self.notes.len(),
            kept: kept.len(),
            truncated: self.truncated,
            dropped: self.dropped,
            spill: 0,
            volume_shift: 0,
        };
        (self.notes, kept, stats)
    }
}

proof fn lemma_cut_kept(notes: Seq<WorkingNote>, ends: Seq<Tick>, n: int)
    requires
        0 <= n <= notes.len(),
    ensures
        cut_short(notes, ends, n) <= standing(notes, n).len(),
    decreases n,
{
    if n > 0 {
        lemma_cut_kept(notes, ends, n - 1);
    }
}

/// The reading is the one that was found.
proof fn lemma_reading(classes: Seq<bool>, root: int, kind: ChordKind)
    requires
        is_clear(classes, root, kind),
    ensures
        reading(classes) == Some((root, kind)),
{
    let (r, k) = choose|r: int, k: ChordKind| #[trigger] is_clear(classes, r, k);
    assert(crate::harmony::spells(classes, r, k));
}

/// Sorting notes by their start tells them in order of time.
pub(crate) proof fn lemma_events(notes: Seq<WorkingNote>, keys: Seq<Key>, events: Seq<usize>)
    requires
        keys.len() == notes.len(),
        notes.len() <= usize::MAX,
        events == order_of(keys),
        forall|k: int| 0 <= k < notes.len() ==> #[trigger] keys[k] == (notes[k].note.on, 0i64, 0i64),
    ensures
        tells_time(notes, events),
{
    let key = |i: usize| keys[i as int];
    let all = crate::order::indices(keys.len());
    lemma_stable_sort(all, key);
    assert forall|k: int| 0 <= k < events.len() implies (#[trigger] events[k]) < notes.len() by {
        assert(all.contains(events[k]));
    }
    assert(all.no_duplicates());
    all.lemma_multiset_has_no_duplicates();
    events.lemma_multiset_has_no_duplicates_conv();
    assert forall|i: int, j: int|
        #![trigger events[i], events[j]]
        0 <= i <= j < events.len() implies notes[events[i] as int].note.on
        <= notes[events[j] as int].note.on by {
        if i < j {
            assert(!crate::order::key_less(key(events[j]), key(events[i])));
            assert(keys[events[i] as int] == (notes[events[i] as int].note.on, 0i64, 0i64));
            assert(keys[events[j] as int] == (notes[events[j] as int].note.on, 0i64, 0i64));
        }
    }
    assert forall|i: usize| i < notes.len() implies #[trigger] events.contains(i) by {
        assert(all[i as int] == i);
    }
}

/// Going on to the next moment keeps the state sound.
#[verifier::rlimit(80)]
proof fn lemma_advanced(before: Reduction, after: Reduction, kept: Seq<usize>)
    requires
        before.valid(),
        before.active.len() <= before.limit,
        before.next < before.events.len(),
        after.notes == before.notes,
        after.ends == before.ends,
        after.events == before.events,
        after.limit == before.limit,
        after.patient == before.patient,
        after.truncated == before.truncated,
        after.dropped == before.dropped,
        after.start == before.start,
        after.tick > before.tick,
        after.tick == before.notes[before.events[before.next as int] as int].note.on,
        before.next <= after.next <= before.events.len(),
        after.active@ == kept + before.events@.subrange(before.next as int, after.next as int),
        forall|j: int|
            before.next <= j < after.next ==> before.notes[#[trigger] before.events[j] as int].note.on
                == after.tick,
        after.next < before.events.len() ==> before.notes[before.events[after.next as int] as int].note.on
            != after.tick,
        kept.no_duplicates(),
        forall|j: int|
            0 <= j < kept.len() ==> (#[trigger] kept[j]) < before.notes.len()
                && before.active@.contains(kept[j]) && before.notes[kept[j] as int].note.off
                > after.tick,
        forall|j: int|
            0 <= j < before.active.len() && before.notes[before.active[j] as int].note.off
                > after.tick ==> kept.contains(#[trigger] before.active[j]),
    ensures
        after.valid(),
        forall|i: usize|
            i < after.notes.len() ==> (#[trigger] after.active@.contains(i) == (
            after.notes[i as int].note.on <= after.tick < after.notes[i as int].note.off)),
        exists|i: int|
            0 <= i < after.notes@.len() && (#[trigger] after.notes@[i]).note.on == after.tick,
        forall|i: int|
            0 <= i < after.notes@.len() ==> !(before.tick < (#[trigger] after.notes@[i]).note.on
                < after.tick),
{
    let n = before.notes.len() as int;
    let notes = before.notes@;
    let events = before.events@;
    let start = before.start@;
    let new = events.subrange(before.next as int, after.next as int);
    assert forall|i: int| 0 <= i < n implies (#[trigger] notes[i]).note.on == start[i].note.on by {
        assert(is_reduced(start[i], before.ends[i], before.notes[i]));
    }
    assert forall|k: int| 0 <= k < n implies (#[trigger] events[k]) < n by {
    }
    assert forall|k: int| 0 <= k < after.next implies start[#[trigger] after.events[k] as int].note.on
        <= after.tick by {
        assert(events[k] < n);
        assert(notes[events[k] as int].note.on == start[events[k] as int].note.on);
        if k < before.next {
            assert(start[before.events[k] as int].note.on <= before.tick);
        } else {
            assert(before.notes[before.events[k] as int].note.on == after.tick);
        }
    }
    assert forall|k: int| after.next <= k < n implies start[#[trigger] after.events[k] as int].note.on
        > after.tick by {
        let m = after.next as int;
        assert(events[m] < n && events[k] < n);
        assert(start[events[m] as int].note.on <= start[events[k] as int].note.on);
        assert(notes[events[m] as int].note.on == start[events[m] as int].note.on);
        let f = before.next as int;
        assert(start[events[f] as int].note.on <= start[events[m] as int].note.on);
        assert(notes[events[f] as int].note.on == start[events[f] as int].note.on);
    }
    assert forall|k: int|
        0 <= k < after.active.len() implies (#[trigger] after.active[k]) < n
        && notes[after.active[k] as int].note.on <= after.tick
        < notes[after.active[k] as int].note.off && notes[after.active[k] as int].note.off
        == before.ends[after.active[k] as int] by {
        if k < kept.len() {
            let i = kept[k];
            assert(before.active@.contains(i));
            let j = choose|j: int| 0 <= j < before.active@.len() && before.active@[j] == i;
            assert(before.notes[before.active[j] as int].note.on <= before.tick);
            assert(before.notes[before.active[j] as int].note.off == before.ends[before.active[j] as int]);
        } else {
            let q = before.next + (k - kept.len());
            assert(after.active[k] == events[q]);
            assert(before.notes[before.events[q] as int].note.on == after.tick);
            let i = events[q] as int;
            assert(before.notes[before.events[q] as int].note.off == before.ends[before.events[q] as int]);
            assert(before.ends[i] == start[i].note.off);
            assert(start[i].note.on + 6 <= start[i].note.off);
        }
    }
    assert forall|a: int, b: int|
        0 <= a < after.active@.len() && 0 <= b < after.active@.len() && a != b implies after.active@[a]
        != after.active@[b] by {
        if a < kept.len() && b < kept.len() {
            assert(kept[a] != kept[b]);
        } else if a >= kept.len() && b >= kept.len() {
            let p = before.next + (a - kept.len());
            let q = before.next + (b - kept.len());
            assert(events[p] != events[q]);
        } else {
            let (x, y) = if a < kept.len() {
                (a, b)
            } else {
                (b, a)
            };
            let q = before.next + (y - kept.len());
            assert(before.notes[before.events[q] as int].note.on == after.tick);
            assert(before.active@.contains(kept[x]));
            let j = choose|j: int| 0 <= j < before.active@.len() && before.active@[j] == kept[x];
            assert(before.notes[before.active[j] as int].note.on <= before.tick);
        }
    }
    assert forall|k: int|
        0 <= k < after.next && notes[events[k] as int].note.off > after.tick implies after.active@.contains(
        #[trigger] after.events[k],
    ) by {
        if k < before.next {
            assert(before.active@.contains(before.events[k]));
            let j = choose|j: int| 0 <= j < before.active@.len() && before.active@[j] == events[k];
            assert(kept.contains(before.active[j]));
            let q = choose|q: int| 0 <= q < kept.len() && kept[q] == events[k];
            assert(after.active@[q] == events[k]);
        } else {
            let q = kept.len() + (k - before.next);
            assert(after.active@[q] == events[k]);
        }
    }
    assert forall|t: int| t < after.tick implies #[trigger] voices(bare(notes), t) <= after.limit by {
        if t >= before.tick {
            assert forall|i: int|
                0 <= i < notes.len() && (#[trigger] notes[i]).note.on <= t
                    < notes[i].note.off implies before.active@.contains(i as usize) by {
                assert(events.contains(i as usize));
                let k = choose|k: int| 0 <= k < events.len() && events[k] == i as usize;
                if k >= before.next {
                    let f = before.next as int;
                    assert(start[events[f] as int].note.on <= start[events[k] as int].note.on);
                    assert(notes[events[f] as int].note.on == start[events[f] as int].note.on);
                    assert(events[f] < n);
                }
                assert(before.active@.contains(before.events[k]));
            }
            lemma_voices_bound(notes, before.active@, t, n);
            lemma_count_in(before.active@, n);
            assert(bare(notes).take(n) =~= bare(notes));
        }
    }
    assert forall|i: usize| i < n implies (#[trigger] after.active@.contains(i) == (
    notes[i as int].note.on <= after.tick < notes[i as int].note.off)) by {
        assert(events.contains(i));
        let k = choose|k: int| 0 <= k < events.len() && events[k] == i;
        if notes[i as int].note.on <= after.tick < notes[i as int].note.off {
            if k >= after.next {
                assert(start[after.events[k] as int].note.on > after.tick);
            }
            assert(after.active@.contains(after.events[k]));
        }
        if after.active@.contains(i) {
            let q = choose|q: int| 0 <= q < after.active@.len() && after.active@[q] == i;
            assert(after.active[q] < n);
        }
    }
    let f = before.next as int;
    assert(notes[events[f] as int].note.on == after.tick);
    assert forall|i: int| 0 <= i < n implies !(before.tick < (#[trigger] notes[i]).note.on
        < after.tick) by {
        assert(events.contains(i as usize));
        let k = choose|k: int| 0 <= k < events.len() && events[k] == i as usize;
        if k < before.next {
            assert(start[before.events[k] as int].note.on <= before.tick);
        } else {
            assert(start[events[f] as int].note.on <= start[events[k] as int].note.on);
            assert(events[f] < n);
        }
    }
    assert forall|k: int| after.next <= k < n implies notes[#[trigger] after.events[k] as int].note.off
        == before.ends[after.events[k] as int] by {
        assert(before.notes[before.events[k] as int].note.off == before.ends[before.events[k] as int]);
    }
}

/// Taking a note away keeps the state sound.
#[verifier::rlimit(80)]
proof fn lemma_dropped(before: Reduction, after: Reduction, v: int)
    requires
        before.valid(),
        0 <= v < before.active.len(),
        after.ends == before.ends,
        after.events == before.events,
        after.next == before.next,
        after.tick == before.tick,
        after.limit == before.limit,
        after.patient == before.patient,
        after.start == before.start,
        after.active@ == before.active@.remove(v),
        after.notes@ == before.notes@.update(
            before.active[v] as int,
            giving_way(before.notes[before.active[v] as int], before.tick),
        ),
        after.dropped == fallen(after.notes@, after.notes@.len() as int),
        after.truncated == cut_short(after.notes@, after.ends@, after.notes@.len() as int),
    ensures
        after.valid(),
        after.classes() == before.classes(),
{
    let n = before.notes.len() as int;
    let i = before.active[v] as int;
    let w = before.notes[i];
    assert(before.active@[v] < n);
    assert(is_reduced(before.start@[i], before.ends[i], before.notes[i]));
    assert(before.start@[i].note.on + 6 <= before.start@[i].note.off);
    assert(before.notes[before.active[v] as int].note.off == before.ends[before.active[v] as int]);
    assert(before.ends[i] == before.start@[i].note.off);
    assert(w.note.on <= before.tick < w.note.off);
    assert forall|j: int| 0 <= j < n implies is_reduced(
        after.start@[j],
        after.ends[j],
        #[trigger] after.notes[j],
    ) by {
        assert(is_reduced(before.start@[j], before.ends[j], before.notes[j]));
    }
    let old_active = before.active@;
    let now = after.active@;
    assert forall|k: int| 0 <= k < now.len() implies (#[trigger] after.active[k]) < n
        && after.notes[after.active[k] as int].note.on <= after.tick
        < after.notes[after.active[k] as int].note.off
        && after.notes[after.active[k] as int].note.off == after.ends[after.active[k] as int] by {
        let q = if k < v {
            k
        } else {
            k + 1
        };
        assert(now[k] == old_active[q]);
        assert(old_active[q] != old_active[v]);
        assert(before.active[q] < n);
        assert(before.notes[before.active[q] as int].note.off == before.ends[before.active[q] as int]);
    }
    assert forall|a: int, b: int| 0 <= a < now.len() && 0 <= b < now.len() && a != b implies now[a]
        != now[b] by {
        let p = if a < v {
            a
        } else {
            a + 1
        };
        let q = if b < v {
            b
        } else {
            b + 1
        };
        assert(now[a] == old_active[p] && now[b] == old_active[q]);
    }
    assert forall|k: int|
        0 <= k < after.next && after.notes[after.events[k] as int].note.off
            > after.tick implies now.contains(#[trigger] after.events[k]) by {
        assert(before.events[k] < n);
        if before.events[k] != i {
            assert(old_active.contains(before.events[k]));
            let q = choose|q: int| 0 <= q < old_active.len() && old_active[q] == before.events[k];
            if q < v {
                assert(now[q] == before.events[k]);
            } else {
                assert(now[q - 1] == before.events[k]);
            }
        }
    }
    assert forall|t: int| t < after.tick implies #[trigger] voices(bare(after.notes@), t)
        <= after.limit by {
        let to = giving_way(w, before.tick).note;
        assert(bare(after.notes@) =~= bare(before.notes@).update(i, to));
        lemma_voices_update(bare(before.notes@), i, to, t);
        assert(voices(bare(before.notes@), t) <= before.limit);
    }
    assert forall|k: int|
        after.next <= k < n implies after.notes[#[trigger] after.events[k] as int].note.off
        == after.ends[after.events[k] as int] by {
        assert(before.notes[before.events[k] as int].note.off == before.ends[before.events[k] as int]);
        assert(before.start@[before.events[k] as int].note.on > before.tick);
        assert(before.events[k] < n);
        assert(is_reduced(
            before.start@[before.events[k] as int],
            before.ends[before.events[k] as int],
            before.notes[before.events[k] as int],
        ));
    }
    lemma_lasting_same(before.notes@, after.notes@, before.ends@, before.events@, before.tick, before.next as int);
}

proof fn lemma_lasting_same(a: Seq<WorkingNote>, b: Seq<WorkingNote>, ends: Seq<Tick>, events: Seq<usize>, tick: Tick, n: int)
    requires
        a.len() == b.len(),
        0 <= n <= events.len(),
        forall|k: int| 0 <= k < events.len() ==> (#[trigger] events[k]) < a.len(),
        forall|i: int| 0 <= i < a.len() ==> (#[trigger] a[i]).note.pitch == b[i].note.pitch,
    ensures
        lasting(a, ends, events, tick, n) == lasting(b, ends, events, tick, n),
    decreases n,
{
    if n > 0 {
        lemma_lasting_same(a, b, ends, events, tick, n - 1);
        assert(events[n - 1] < a.len());
        assert(a[events[n - 1] as int].note.pitch == b[events[n - 1] as int].note.pitch);
    }
}

/// The key of a note where age does not count: what it is worth, less what is taken off.
pub open spec fn plain_key(w: Weight) -> int {
    w.value - w.penalty
}

/// Takes notes away where more sound than may, those that are worth the least first.
#[verifier::rlimit(40)]
pub fn reduce(notes: Vec<WorkingNote>, limit: usize) -> (r: (Vec<WorkingNote>, Vec<usize>, FoldStats))
    requires
        are_reducible(notes@),
    ensures
        r.0@ == reduction(
            notes@,
            ends_of(notes@),
            time_order(notes@),
            Seq::empty(),
            0,
            limit as int,
        ),
        r.0.len() == notes.len(),
        r.1@ == standing(r.0@, r.0.len() as int),
        r.2.total == notes.len(),
        r.2.kept == r.1.len(),
        r.2.dropped == fallen(r.0@, r.0.len() as int),
        r.2.kept + r.2.dropped == r.2.total,
        r.2.truncated <= r.2.kept,
        r.2.truncated == cut_short(r.0@, ends_of(notes@), r.0.len() as int),
        r.2.spill == 0,
        r.2.volume_shift == 0,
        forall|t: int| #[trigger] voices(bare(r.0@), t) <= limit,
        forall|i: int|
            0 <= i < r.0.len() ==> is_reduced(notes[i], notes[i].note.off, #[trigger] r.0[i]),
        forall|k: int| 0 <= k < r.1.len() ==> (#[trigger] r.1[k]) < r.0.len(),
{
    let ghost start = notes@;
    let mut state = Reduction::new(notes, limit, false);
    let ghost ends = ends_of(start);
    let ghost events = time_order(start);
    let ghost whole = reduction(start, ends, events, Seq::empty(), 0, limit as int);
    loop
        invariant
            state.valid(),
            state.is_clear_now(),
            state.origin() == start,
            state.most() == limit,
            state.waits(),
            state.sequence() == events,
            state.source_ends() == ends,
            whole == reduction(
                state.working(),
                ends,
                events,
                state.sounding(),
                state.place(),
                limit as int,
            ),
        ensures
            state.valid(),
            state.is_clear_now(),
            state.is_over(),
            state.origin() == start,
            state.most() == limit,
            whole == state.working(),
        decreases state.left(),
    {
        let ghost before = state;
        if !state.advance() {
            break;
        }
        let ghost classes = state.classes();
        let ghost tick = state.now();
        let ghost place = state.place();
        let ghost end = thinned(state.working(), state.sounding(), classes, tick, limit as int);
        proof {
            assert(whole == reduction(end.0, ends, events, end.1, place, limit as int));
        }
        while state.is_crowded()
            invariant
                state.valid(),
                state.origin() == start,
                state.most() == limit,
                state.waits(),
                state.sequence() == events,
                state.source_ends() == ends,
                state.classes() == classes,
                state.now() == tick,
                state.place() == place,
                0 <= state.left() < before.left(),
                end == thinned(state.working(), state.sounding(), classes, tick, limit as int),
            ensures
                state.valid(),
                state.is_clear_now(),
                state.origin() == start,
                state.most() == limit,
                state.waits(),
                state.sequence() == events,
                state.source_ends() == ends,
                state.place() == place,
                0 <= state.left() < before.left(),
                end == (state.working(), state.sounding()),
            decreases state.sounding().len(),
        {
            let weights = state.weights();
            let mut keys: Vec<i64> = Vec::new();
            let mut k: usize = 0;
            while k < weights.len()
                invariant
                    k <= weights.len(),
                    keys.len() == k,
                    state.valid(),
                    weights.len() == state.sounding().len(),
                    forall|j: int|
                        0 <= j < weights.len() ==> #[trigger] weights[j] == weight_of(
                            state.working(),
                            state.sounding(),
                            state.classes(),
                            state.now(),
                            j,
                        ),
                    forall|j: int| 0 <= j < k ==> #[trigger] keys[j] == plain_key(weights[j]) as i64,
                decreases weights.len() - k,
            {
                proof {
                    state.lemma_weight(k as int);
                    assert(weights[k as int] == weight_of(
                        state.working(),
                        state.sounding(),
                        state.classes(),
                        state.now(),
                        k as int,
                    ));
                }
                let w = weights[k];
                keys.push(w.value - w.penalty);
                k += 1;
            }
            proof {
                assert(keys@ =~= plain_keys(state.working(), state.sounding(), classes, tick));
            }
            state.drop_one(&keys);
        }
    }
    state.finish()
}

impl Reduction {
    /// How many notes have not been looked at.
    pub closed spec fn left(self) -> int {
        self.events.len() - self.next
    }

    proof fn lemma_weight(self, k: int)
        requires
            self.valid(),
            0 <= k < self.sounding().len(),
        ensures
            ({
                let w = weight_of(self.working(), self.sounding(), self.classes(), self.now(), k);
                0 <= w.value <= 20000 && 0 <= w.penalty <= 5000
            }),
    {
        assert(self.active@[k] < self.notes.len());
        let i = self.active[k] as int;
        assert(is_reduced(self.start@[i], self.ends[i], self.notes[i]));
        assert(0 <= self.start@[i].base <= 10000);
    }
}

} // verus!
