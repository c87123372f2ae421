//! Wide chords that begin at once, and which three of their notes lead.
use crate::attacks::{are_timed, is_stage, numbers, stage_of, Stage};
use crate::harmony::{analyze, chord_classes, class_count, class_of, classes_of, is_clear, pitch_class, pitch_classes, ChordKind, Harmony};
use crate::matching::{edge_views, fits, matchable, within};
use crate::score::{Note, Tick};
use vstd::prelude::*;

verus! {

pub open spec fn pitches_of(notes: Seq<Note>, batch: Seq<usize>) -> Seq<i32> {
    Seq::new(batch.len(), |k: int| notes[batch[k] as int].pitch)
}

/// The lowest of the first pitches.
pub open spec fn bottom_of(pitches: Seq<i32>, n: int) -> i32
    decreases n,
{
    if n <= 1 {
        pitches[0]
    } else if pitches[n - 1] < bottom_of(pitches, n - 1) {
        pitches[n - 1]
    } else {
        bottom_of(pitches, n - 1)
    }
}

/// The highest of the first pitches.
pub open spec fn top_of(pitches: Seq<i32>, n: int) -> i32
    decreases n,
{
    if n <= 1 {
        pitches[0]
    } else if pitches[n - 1] > top_of(pitches, n - 1) {
        pitches[n - 1]
    } else {
        top_of(pitches, n - 1)
    }
}

/// The highest of the first pitches below one, where there is one.
pub open spec fn next_below(pitches: Seq<i32>, limit: int, n: int) -> Option<i32>
    decreases n,
{
    if n <= 0 {
        None
    } else {
        let before = next_below(pitches, limit, n - 1);
        let p = pitches[n - 1];
        if p < limit && (before is None || before->Some_0 < p) {
            Some(p)
        } else {
            before
        }
    }
}

/// How long the longest of the first notes of a pitch lasts.
pub open spec fn longest(notes: Seq<Note>, batch: Seq<usize>, pitch: i32, n: int) -> int
    decreases n,
{
    if n <= 0 {
        0
    } else {
        let before = longest(notes, batch, pitch, n - 1);
        let note = notes[batch[n - 1] as int];
        if note.pitch == pitch && note.off - note.on > before {
            note.off - note.on
        } else {
            before
        }
    }
}

/// The middle one of three numbers.
pub open spec fn median(a: int, b: int, c: int) -> int {
    if a <= b {
        if b <= c {
            b
        } else if a <= c {
            c
        } else {
            a
        }
    } else if a <= c {
        a
    } else if b <= c {
        c
    } else {
        b
    }
}

/// How long the three highest pitches last, as told by the middle one of them.
pub open spec fn upper_length_of(notes: Seq<Note>, batch: Seq<usize>) -> int {
    let p = pitches_of(notes, batch);
    let n = p.len() as int;
    let first = top_of(p, n);
    let second = next_below(p, first as int, n)->Some_0;
    let third = next_below(p, second as int, n)->Some_0;
    median(
        longest(notes, batch, first, n),
        longest(notes, batch, second, n),
        longest(notes, batch, third, n),
    )
}

/// Whether a note of some part sounds beyond a tick.
pub open spec fn sounds_beyond(s: Stage, tick: int) -> bool {
    exists|p: int|
        0 <= p < s.slots.len() && (#[trigger] s.slots[p]).len() > 0
            && s.notes[s.slots[p].last() as int].off > tick
}

/// Whether new notes make a wide chord of at least three classes while nothing else sounds.
pub open spec fn is_wide(s: Stage, batch: Seq<usize>, parts: int, count: int) -> bool {
    let p = pitches_of(s.notes, batch);
    let n = p.len() as int;
    &&& parts == 3
    &&& n > 3
    &&& count > 3
    &&& !sounds_beyond(s, s.notes[batch[0] as int].on as int)
    &&& top_of(p, n) - bottom_of(p, n) >= 24
    &&& class_count(classes_of(p), 12) >= 3
}

/// What the notes of a wide chord are weighed by.
pub struct ChordFrame {
    pub bottom: i32,
    pub top: i32,
    pub upper_length: Tick,
    pub plain_triad: bool,
    pub harmony: Harmony,
}

/// The pitches that sound in the source at a tick.
pub open spec fn sounding(originals: Seq<Note>, tick: Tick, n: int) -> Seq<i32>
    decreases n,
{
    if n <= 0 {
        Seq::empty()
    } else if originals[n - 1].on <= tick < originals[n - 1].off {
        sounding(originals, tick, n - 1).push(originals[n - 1].pitch)
    } else {
        sounding(originals, tick, n - 1)
    }
}

fn sounding_pitches(originals: &[Note], tick: Tick) -> (r: Vec<i32>)
    ensures
        r@ == sounding(originals@, tick, originals.len() as int),
{
    let mut r: Vec<i32> = Vec::new();
    let mut i: usize = 0;
    while i < originals.len()
        invariant
            i <= originals.len(),
            r@ == sounding(originals@, tick, i as int),
        decreases originals.len() - i,
    {
        if originals[i].on <= tick && tick < originals[i].off {
            r.push(originals[i].pitch);
        }
        i += 1;
    }
    r
}

fn batch_pitches(notes: &Vec<Note>, batch: &Vec<usize>) -> (r: Vec<i32>)
    requires
        numbers(batch@, notes.len() as int),
    ensures
        r@ == pitches_of(notes@, batch@),
{
    let mut r: Vec<i32> = Vec::new();
    let mut i: usize = 0;
    while i < batch.len()
        invariant
            i <= batch.len(),
            numbers(batch@, notes.len() as int),
            r.len() == i,
            forall|k: int| 0 <= k < i ==> #[trigger] r[k] == notes@[batch@[k] as int].pitch,
        decreases batch.len() - i,
    {
        proof {
            assert(batch@[i as int] < notes.len());
        }
        r.push(notes[batch[i]].pitch);
        i += 1;
    }
    proof {
        assert(r@ =~= pitches_of(notes@, batch@));
    }
    r
}

proof fn lemma_extremes(p: Seq<i32>, n: int)
    requires
        1 <= n <= p.len(),
    ensures
        forall|k: int| 0 <= k < n ==> bottom_of(p, n) <= #[trigger] p[k] <= top_of(p, n),
    decreases n,
{
    if n > 1 {
        lemma_extremes(p, n - 1);
    }
}

/// The lowest and the highest of some pitches.
fn extremes(p: &Vec<i32>) -> (r: (i32, i32))
    requires
        p.len() > 0,
    ensures
        r.0 == bottom_of(p@, p.len() as int),
        r.1 == top_of(p@, p.len() as int),
{
    let mut low: i32 = p[0];
    let mut high: i32 = p[0];
    let mut i: usize = 1;
    while i < p.len()
        invariant
            1 <= i <= p.len(),
            low == bottom_of(p@, i as int),
            high == top_of(p@, i as int),
        decreases p.len() - i,
    {
        if p[i] < low {
            low = p[i];
        }
        if p[i] > high {
            high = p[i];
        }
        i += 1;
    }
    (low, high)
}

fn find_below(p: &Vec<i32>, limit: i32) -> (r: Option<i32>)
    ensures
        r == next_below(p@, limit as int, p.len() as int),
{
    let mut r: Option<i32> = None;
    let mut i: usize = 0;
    while i < p.len()
        invariant
            i <= p.len(),
            r == next_below(p@, limit as int, i as int),
        decreases p.len() - i,
    {
        if p[i] < limit {
            match r {
                None => {
                    r = Some(p[i]);
                },
                Some(best) => {
                    if best < p[i] {
                        r = Some(p[i]);
                    }
                },
            }
        }
        i += 1;
    }
    r
}

fn find_longest(notes: &Vec<Note>, batch: &Vec<usize>, pitch: i32) -> (r: Tick)
    requires
        numbers(batch@, notes.len() as int),
        are_timed(notes@),
    ensures
        r == longest(notes@, batch@, pitch, batch.len() as int),
{
    let mut r: Tick = 0;
    let mut i: usize = 0;
    while i < batch.len()
        invariant
            i <= batch.len(),
            numbers(batch@, notes.len() as int),
            are_timed(notes@),
            r == longest(notes@, batch@, pitch, i as int),
        decreases batch.len() - i,
    {
        proof {
            assert(batch@[i as int] < notes.len());
            assert(0 <= notes@[batch@[i as int] as int].on <= notes@[batch@[i as int] as int].off);
        }
        let note = notes[batch[i]];
        if note.pitch == pitch && note.off - note.on > r {
            r = note.off - note.on;
        }
        i += 1;
    }
    r
}

fn middle(a: Tick, b: Tick, c: Tick) -> (r: Tick)
    ensures
        r == median(a as int, b as int, c as int),
{
    if a <= b {
        if b <= c {
            b
        } else if a <= c {
            c
        } else {
            a
        }
    } else if a <= c {
        a
    } else if b <= c {
        c
    } else {
        b
    }
}

proof fn lemma_below(p: Seq<i32>, limit: int, n: int)
    requires
        0 <= n <= p.len(),
    ensures
        next_below(p, limit, n) is None ==> forall|k: int| 0 <= k < n ==> #[trigger] p[k] >= limit,
        next_below(p, limit, n) is Some ==> next_below(p, limit, n)->Some_0 < limit && forall|k: int|
            0 <= k < n && #[trigger] p[k] < limit ==> p[k] <= next_below(p, limit, n)->Some_0,
    decreases n,
{
    if n > 0 {
        lemma_below(p, limit, n - 1);
    }
}

proof fn lemma_count_one(classes: Seq<bool>, c: int, n: int)
    requires
        forall|k: int| 0 <= k < n && k != c ==> !#[trigger] classes[k],
    ensures
        class_count(classes, n) <= 1,
        class_count(classes, n) == (if 0 <= c < n && classes[c] {
            1int
        } else {
            0int
        }),
    decreases n,
{
    if n > 0 {
        lemma_count_one(classes, c, n - 1);
    }
}

proof fn lemma_count_two(classes: Seq<bool>, c: int, d: int, n: int)
    requires
        forall|k: int| 0 <= k < n && k != c && k != d ==> !#[trigger] classes[k],
    ensures
        class_count(classes, n) <= (if 0 <= c < n {
            1int
        } else {
            0int
        }) + (if 0 <= d < n {
            1int
        } else {
            0int
        }),
    decreases n,
{
    if n > 0 {
        lemma_count_two(classes, c, d, n - 1);
    }
}

/// Three classes take three pitches.
proof fn lemma_three_pitches(p: Seq<i32>)
    requires
        p.len() > 0,
        class_count(classes_of(p), 12) >= 3,
    ensures
        next_below(p, top_of(p, p.len() as int) as int, p.len() as int) is Some,
        next_below(
            p,
            next_below(p, top_of(p, p.len() as int) as int, p.len() as int)->Some_0 as int,
            p.len() as int,
        ) is Some,
{
    let n = p.len() as int;
    let top = top_of(p, n);
    let classes = classes_of(p);
    lemma_extremes(p, n);
    lemma_below(p, top as int, n);
    let second = next_below(p, top as int, n);
    let c = class_of(top as int);
    if second is None {
        assert forall|k: int| 0 <= k < 12 && k != c implies !#[trigger] classes[k] by {
            if sounds_at(p, k) {
                let i = choose|i: int| 0 <= i < p.len() && class_of(#[trigger] p[i] as int) == k;
                assert(p[i] == top);
            }
        }
        lemma_count_one(classes, c, 12);
    } else {
        let d = class_of(second->Some_0 as int);
        lemma_below(p, second->Some_0 as int, n);
        if next_below(p, second->Some_0 as int, n) is None {
            assert forall|k: int| 0 <= k < 12 && k != c && k != d implies !#[trigger] classes[k] by {
                if sounds_at(p, k) {
                    let i = choose|i: int|
                        0 <= i < p.len() && class_of(#[trigger] p[i] as int) == k;
                    assert(p[i] == top || p[i] == second->Some_0);
                }
            }
            lemma_count_two(classes, c, d, 12);
        }
    }
}

spec fn sounds_at(p: Seq<i32>, k: int) -> bool {
    crate::harmony::sounds(p, k)
}

/// Whether a chord is a triad with a plain fifth.
pub open spec fn is_plain(root: int, kind: ChordKind) -> bool {
    class_count(chord_classes(root, kind), 12) == 3 && chord_classes(root, kind)[(root + 7) % 12]
}

/// Reads the chord that new notes make, where it is wide and clear.
#[verifier::rlimit(60)]
pub fn chord_frame(
    notes: &Vec<Note>,
    batch: &Vec<usize>,
    slots: &Vec<Vec<usize>>,
    originals: &[Note],
    tick: Tick,
    parts: usize,
) -> (r: Option<ChordFrame>)
    requires
        is_stage(stage_of(notes@, slots@)),
        are_timed(notes@),
        numbers(batch@, notes.len() as int),
    ensures
        match r {
            Some(frame) => {
                let p = pitches_of(notes@, batch@);
                let n = p.len() as int;
                let pitches = sounding(originals@, tick, originals.len() as int);
                &&& is_wide(stage_of(notes@, slots@), batch@, parts as int, slots.len() as int)
                &&& frame.bottom == bottom_of(p, n)
                &&& frame.top == top_of(p, n)
                &&& frame.upper_length == upper_length_of(notes@, batch@)
                &&& frame.harmony.valid()
                &&& is_clear(
                    classes_of(pitches),
                    frame.harmony.root_class(),
                    frame.harmony.chord(),
                )
                &&& frame.plain_triad == is_plain(
                    frame.harmony.root_class(),
                    frame.harmony.chord(),
                )
            },
            None => !is_wide(stage_of(notes@, slots@), batch@, parts as int, slots.len() as int)
                || forall|root: int, kind: ChordKind| !#[trigger]
                is_clear(
                    classes_of(sounding(originals@, tick, originals.len() as int)),
                    root,
                    kind,
                ),
        },
{
    let ghost s = stage_of(notes@, slots@);
    if parts != 3 || batch.len() <= 3 || slots.len() <= 3 {
        return None;
    }
    proof {
        assert(batch@[0] < notes.len());
    }
    let on = notes[batch[0]].on;
    let mut i: usize = 0;
    while i < slots.len()
        invariant
            i <= slots.len(),
            s == stage_of(notes@, slots@),
            is_stage(s),
            on == s.notes[batch@[0] as int].on,
            forall|p: int|
                0 <= p < i && (#[trigger] s.slots[p]).len() > 0
                    ==> s.notes[s.slots[p].last() as int].off <= on,
        decreases slots.len() - i,
    {
        let history = &slots[i];
        proof {
            assert(s.slots[i as int] == history@);
        }
        if history.len() > 0 {
            proof {
                assert(s.slots[i as int][history.len() - 1] < notes.len());
            }
            if notes[history[history.len() - 1]].off > on {
                proof {
                    assert(s.slots[i as int].len() > 0);
                    assert(sounds_beyond(s, on as int));
                }
                return None;
            }
        }
        i += 1;
    }
    let pitches = batch_pitches(notes, batch);
    let (bottom, top) = extremes(&pitches);
    if (top as i64 - bottom as i64) < 24 {
        return None;
    }
    let classes = pitch_classes(&pitches);
    let mut count: u8 = 0;
    let mut i: usize = 0;
    while i < 12
        invariant
            i <= 12,
            classes.len() == 12,
            count == class_count(classes@, i as int),
            count <= i,
        decreases 12 - i,
    {
        if classes[i] {
            count += 1;
        }
        i += 1;
    }
    if count < 3 {
        return None;
    }
    let heard = sounding_pitches(originals, tick);
    match analyze(&heard) {
        None => None,
        Some(harmony) => {
            proof {
                lemma_three_pitches(pitches@);
            }
            let second = match find_below(&pitches, top) {
                Some(p) => p,
                None => top,
            };
            let third = match find_below(&pitches, second) {
                Some(p) => p,
                None => second,
            };
            let upper_length = middle(
                find_longest(notes, batch, top),
                find_longest(notes, batch, second),
                find_longest(notes, batch, third),
            );
            let mut members: u8 = 0;
            let mut c: u8 = 0;
            while c < 12
                invariant
                    c <= 12,
                    harmony.valid(),
                    members == class_count(
                        chord_classes(harmony.root_class(), harmony.chord()),
                        c as int,
                    ),
                    members <= c,
                decreases 12 - c,
            {
                if harmony.has_class(c) {
                    members += 1;
                }
                c += 1;
            }
            let fifth: u8 = (harmony.root() + 7) % 12;
            let plain_triad = members == 3 && harmony.has_class(fifth);
            Some(ChordFrame { bottom, top, upper_length, plain_triad, harmony })
        },
    }
}

/// Three of the new notes, by their places.
pub type Triple = (usize, usize, usize);

pub open spec fn is_triple(t: Triple, n: int) -> bool {
    t.0 < t.1 < t.2 < n
}

pub open spec fn triple_less(s: Triple, t: Triple) -> bool {
    s.0 < t.0 || (s.0 == t.0 && (s.1 < t.1 || (s.1 == t.1 && s.2 < t.2)))
}

/// Whether a list holds the triples of some places, in order.
pub open spec fn lists_triples(list: Seq<Triple>, n: int) -> bool {
    &&& forall|i: int| 0 <= i < list.len() ==> is_triple(#[trigger] list[i], n)
    &&& forall|i: int, j: int|
        #![trigger list[i], list[j]]
        0 <= i < j < list.len() ==> triple_less(list[i], list[j])
    &&& forall|t: Triple| #[trigger] is_triple(t, n) ==> list.contains(t)
}

/// Lists the triples of some places.
pub fn chord_triples(n: usize) -> (list: Vec<Triple>)
    ensures
        lists_triples(list@, n as int),
{
    let mut list: Vec<Triple> = Vec::new();
    let mut a: usize = 0;
    while a < n
        invariant
            a <= n,
            lists_until(list@, n as int, (a, 0, 0)),
        decreases n - a,
    {
        let mut b: usize = a + 1;
        proof {
            lemma_lists_skip(list@, n as int, (a, 0, 0), (a, b, 0));
        }
        while b < n
            invariant
                a < b <= n,
                lists_until(list@, n as int, (a, b, 0)),
            decreases n - b,
        {
            let mut c: usize = b + 1;
            proof {
                lemma_lists_skip(list@, n as int, (a, b, 0), (a, b, c));
            }
            while c < n
                invariant
                    a < b < c <= n,
                    lists_until(list@, n as int, (a, b, c)),
                decreases n - c,
            {
                let ghost before = list@;
                list.push((a, b, c));
                proof {
                    lemma_lists_push(before, n as int, (a, b, c));
                }
                c += 1;
            }
            proof {
                lemma_lists_skip(list@, n as int, (a, b, c), (a, (b + 1) as usize, 0));
            }
            b += 1;
        }
        proof {
            lemma_lists_skip(list@, n as int, (a, b, 0), ((a + 1) as usize, 0, 0));
        }
        a += 1;
    }
    proof {
        assert forall|t: Triple| #[trigger] is_triple(t, n as int) implies list@.contains(t) by {
            assert(triple_less(t, (a, 0, 0)));
        }
    }
    list
}

/// Whether a list holds the triples before one, in order.
spec fn lists_until(list: Seq<Triple>, n: int, end: Triple) -> bool {
    &&& forall|i: int|
        0 <= i < list.len() ==> is_triple(#[trigger] list[i], n) && triple_less(list[i], end)
    &&& forall|i: int, j: int|
        #![trigger list[i], list[j]]
        0 <= i < j < list.len() ==> triple_less(list[i], list[j])
    &&& forall|t: Triple| #[trigger]
        is_triple(t, n) && triple_less(t, end) ==> list.contains(t)
}

/// Places between which no triple lies.
proof fn lemma_lists_skip(list: Seq<Triple>, n: int, from: Triple, to: Triple)
    requires
        lists_until(list, n, from),
        forall|t: Triple| triple_less(t, from) ==> #[trigger] triple_less(t, to),
        forall|t: Triple| #[trigger] is_triple(t, n) && !triple_less(t, from) ==> !triple_less(t, to),
    ensures
        lists_until(list, n, to),
{
    assert forall|i: int| 0 <= i < list.len() implies is_triple(#[trigger] list[i], n) && triple_less(
        list[i],
        to,
    ) by {
        assert(triple_less(list[i], from));
    }
}

proof fn lemma_lists_push(list: Seq<Triple>, n: int, t: Triple)
    requires
        lists_until(list, n, t),
        is_triple(t, n),
        t.2 < usize::MAX,
    ensures
        lists_until(list.push(t), n, (t.0, t.1, (t.2 + 1) as usize)),
{
    let new = list.push(t);
    let end: Triple = (t.0, t.1, (t.2 + 1) as usize);
    assert forall|i: int, j: int|
        #![trigger new[i], new[j]]
        0 <= i < j < new.len() implies triple_less(new[i], new[j]) by {
        if j < list.len() {
            assert(triple_less(list[i], list[j]));
        } else {
            assert(triple_less(list[i], t));
        }
    }
    assert forall|i: int| 0 <= i < new.len() implies is_triple(#[trigger] new[i], n) && triple_less(
        new[i],
        end,
    ) by {
        if i < list.len() {
            assert(is_triple(list[i], n) && triple_less(list[i], t));
        }
    }
    assert forall|u: Triple| #[trigger] is_triple(u, n) && triple_less(u, end) implies new.contains(u) by {
        if u == t {
            assert(new[list.len() as int] == t);
        } else {
            assert(triple_less(u, t));
            assert(list.contains(u));
            let i = choose|i: int| 0 <= i < list.len() && list[i] == u;
            assert(new[i] == u);
        }
    }
}

/// Of the parts that an attack may take, those that lead or those that do not.
pub open spec fn side(list: Seq<usize>, parts: int, leading: bool, n: int) -> Seq<usize>
    decreases n,
{
    if n <= 0 {
        Seq::empty()
    } else if (list[n - 1] < parts) == leading {
        side(list, parts, leading, n - 1).push(list[n - 1])
    } else {
        side(list, parts, leading, n - 1)
    }
}

pub open spec fn chooses(t: Triple, j: int) -> bool {
    j == t.0 || j == t.1 || j == t.2
}

/// The parts that attacks may take where three of them lead and the others do not.
pub open spec fn led_by(edges: Seq<Seq<usize>>, t: Triple, parts: int) -> Seq<Seq<usize>> {
    Seq::new(
        edges.len(),
        |j: int| side(edges[j], parts, chooses(t, j), edges[j].len() as int),
    )
}

pub open spec fn none_reserved(count: int) -> Seq<bool> {
    Seq::new(count as nat, |i: int| false)
}

/// Which of the first triples has the greatest value of those that leave parts for all; of
/// several the first.
pub open spec fn best_triple(
    edges: Seq<Seq<usize>>,
    list: Seq<Triple>,
    values: Seq<i64>,
    parts: int,
    count: int,
    n: int,
) -> Option<int>
    decreases n,
{
    if n <= 0 {
        None
    } else {
        let before = best_triple(edges, list, values, parts, count, n - 1);
        if before is Some && values[n - 1] <= values[before->Some_0] {
            before
        } else if matchable(led_by(edges, list[n - 1], parts), 0, none_reserved(count)) {
            Some(n - 1)
        } else {
            before
        }
    }
}

fn take_side(list: &Vec<usize>, parts: usize, leading: bool) -> (r: Vec<usize>)
    ensures
        r@ == side(list@, parts as int, leading, list.len() as int),
{
    let mut r: Vec<usize> = Vec::new();
    let mut i: usize = 0;
    while i < list.len()
        invariant
            i <= list.len(),
            r@ == side(list@, parts as int, leading, i as int),
        decreases list.len() - i,
    {
        if (list[i] < parts) == leading {
            r.push(list[i]);
        }
        i += 1;
    }
    r
}

proof fn lemma_side(list: Seq<usize>, parts: int, leading: bool, n: int, bound: int)
    requires
        0 <= n <= list.len(),
        forall|k: int| 0 <= k < list.len() ==> (#[trigger] list[k]) < bound,
    ensures
        forall|k: int|
            0 <= k < side(list, parts, leading, n).len() ==> (#[trigger] side(
                list,
                parts,
                leading,
                n,
            )[k]) < bound,
    decreases n,
{
    if n > 0 {
        lemma_side(list, parts, leading, n - 1, bound);
        assert(list[n - 1] < bound);
        let before = side(list, parts, leading, n - 1);
        let all = side(list, parts, leading, n);
        assert forall|k: int| 0 <= k < all.len() implies (#[trigger] all[k]) < bound by {
            if k < before.len() {
                assert(all[k] == before[k]);
            } else {
                assert(all[k] == list[n - 1]);
            }
        }
    }
}

/// The parts that attacks may take where three of them lead and the others do not.
pub fn lead_by(edges: &Vec<Vec<usize>>, t: Triple, parts: usize, Ghost(count): Ghost<int>) -> (r: Vec<Vec<usize>>)
    requires
        within(edge_views(edges@), count),
    ensures
        edge_views(r@) == led_by(edge_views(edges@), t, parts as int),
        within(edge_views(r@), count),
        r.len() == edges.len(),
{
    let ghost all = edge_views(edges@);
    let mut r: Vec<Vec<usize>> = Vec::new();
    let mut j: usize = 0;
    while j < edges.len()
        invariant
            j <= edges.len(),
            all == edge_views(edges@),
            r.len() == j,
            forall|k: int|
                0 <= k < j ==> (#[trigger] r[k])@ == side(
                    all[k],
                    parts as int,
                    chooses(t, k),
                    all[k].len() as int,
                ),
        decreases edges.len() - j,
    {
        let leading = j == t.0 || j == t.1 || j == t.2;
        let one = take_side(&edges[j], parts, leading);
        r.push(one);
        j += 1;
    }
    proof {
        let views = edge_views(r@);
        assert(views =~= led_by(all, t, parts as int));
        assert forall|i: int, k: int|
            #![trigger views[i][k]]
            0 <= i < views.len() && 0 <= k < views[i].len() implies views[i][k] < count by {
            assert forall|q: int| 0 <= q < all[i].len() implies (#[trigger] all[i][q]) < count by {
            }
            lemma_side(all[i], parts as int, chooses(t, i), all[i].len() as int, count);
        }
    }
    r
}

/// Finds the triple with the greatest value of those that leave parts for all attacks, and
/// the parts that they may take then.
#[verifier::rlimit(40)]
pub fn choose_chord(
    edges: &Vec<Vec<usize>>,
    list: &Vec<Triple>,
    values: &Vec<i64>,
    parts: usize,
    reserved: &Vec<bool>,
) -> (r: Option<Vec<Vec<usize>>>)
    requires
        within(edge_views(edges@), reserved.len() as int),
        values.len() == list.len(),
        reserved@ == none_reserved(reserved.len() as int),
    ensures
        ({
            let all = edge_views(edges@);
            let best = best_triple(
                all,
                list@,
                values@,
                parts as int,
                reserved.len() as int,
                list.len() as int,
            );
            match r {
                Some(joint) => best is Some && edge_views(joint@) == led_by(
                    all,
                    list@[best->Some_0],
                    parts as int,
                ) && within(edge_views(joint@), reserved.len() as int) && joint.len()
                    == edges.len(),
                None => best is None,
            }
        }),
{
    let ghost all = edge_views(edges@);
    let ghost count = reserved.len() as int;
    let mut best: Option<usize> = None;
    let mut found: Option<Vec<Vec<usize>>> = None;
    let mut n: usize = 0;
    while n < list.len()
        invariant
            n <= list.len() == values.len(),
            all == edge_views(edges@),
            count == reserved.len(),
            within(all, count),
            reserved@ == none_reserved(count),
            match best {
                Some(b) => b < n && best_triple(all, list@, values@, parts as int, count, n as int)
                    == Some(b as int) && (found matches Some(joint) && edge_views(joint@)
                    == led_by(all, list@[b as int], parts as int) && within(
                    edge_views(joint@),
                    count,
                ) && joint.len() == edges.len()),
                None => found is None && best_triple(
                    all,
                    list@,
                    values@,
                    parts as int,
                    count,
                    n as int,
                ) is None,
            },
        decreases list.len() - n,
    {
        let better: bool = match best {
            Some(b) => values[n] > values[b],
            None => true,
        };
        if better {
            let candidate = lead_by(edges, list[n], parts, Ghost(count));
            if fits(&candidate, 0, reserved) {
                best = Some(n);
                found = Some(candidate);
            }
        }
        n += 1;
    }
    found
}

/// What three notes of a wide chord are like.
#[derive(Clone, Copy, Debug)]
pub struct ChordShape {
    pub low: i32,
    pub inner: i32,
    pub high: i32,
    pub bass_length: Tick,
    pub has_root: bool,
    pub has_fifth: bool,
    pub lead_octave: bool,
    pub inner_support: bool,
    pub unisons: u8,
}

pub open spec fn least(a: int, b: int, c: int) -> int {
    if a <= b && a <= c {
        a
    } else if b <= c {
        b
    } else {
        c
    }
}

pub open spec fn most(a: int, b: int, c: int) -> int {
    if a >= b && a >= c {
        a
    } else if b >= c {
        b
    } else {
        c
    }
}

/// How long a note lasts where it is of a pitch.
pub open spec fn length_at(note: Note, pitch: int) -> int {
    if note.pitch == pitch {
        note.off - note.on
    } else {
        0
    }
}

/// What three notes of a wide chord are like: their pitches in order, how long the lowest
/// lasts, and which members of the chord they hold.
pub open spec fn is_shape(shape: ChordShape, a: Note, b: Note, c: Note, top: int, root: int) -> bool {
    let low = least(a.pitch as int, b.pitch as int, c.pitch as int);
    let inner = median(a.pitch as int, b.pitch as int, c.pitch as int);
    let high = most(a.pitch as int, b.pitch as int, c.pitch as int);
    let fifth = (root + 7) % 12;
    &&& shape.low == low
    &&& shape.inner == inner
    &&& shape.high == high
    &&& shape.bass_length == most(length_at(a, low), length_at(b, low), length_at(c, low))
    &&& shape.has_root == (class_of(low) == root || class_of(inner) == root || class_of(high)
        == root)
    &&& shape.has_fifth == (class_of(low) == fifth || class_of(inner) == fifth || class_of(high)
        == fifth)
    &&& shape.lead_octave == ((low == top || inner == top || high == top) && (low == top - 12
        || inner == top - 12 || high == top - 12))
    &&& shape.inner_support == (class_of(inner) == root || class_of(inner) == fifth)
    &&& shape.unisons == (if low == inner {
        1int
    } else {
        0int
    }) + (if inner == high {
        1int
    } else {
        0int
    })
}

fn sorted_three(a: i32, b: i32, c: i32) -> (r: (i32, i32, i32))
    ensures
        r.0 == least(a as int, b as int, c as int),
        r.1 == median(a as int, b as int, c as int),
        r.2 == most(a as int, b as int, c as int),
{
    let (x, y) = if a <= b {
        (a, b)
    } else {
        (b, a)
    };
    if c < x {
        (c, x, y)
    } else if c < y {
        (x, c, y)
    } else {
        (x, y, c)
    }
}

fn length_of(note: &Note, pitch: i32) -> (r: Tick)
    requires
        0 <= note.on <= note.off,
    ensures
        r == length_at(*note, pitch as int),
{
    if note.pitch == pitch {
        note.off - note.on
    } else {
        0
    }
}

/// Tells what three notes of a wide chord are like.
pub fn chord_shape(a: &Note, b: &Note, c: &Note, frame: &ChordFrame) -> (shape: ChordShape)
    requires
        0 <= a.on <= a.off,
        0 <= b.on <= b.off,
        0 <= c.on <= c.off,
        frame.harmony.valid(),
    ensures
        is_shape(shape, *a, *b, *c, frame.top as int, frame.harmony.root_class()),
{
    let (low, inner, high) = sorted_three(a.pitch, b.pitch, c.pitch);
    let root = frame.harmony.root();
    let fifth: u8 = (root + 7) % 12;
    let x = length_of(a, low);
    let y = length_of(b, low);
    let z = length_of(c, low);
    let longer = if x >= y {
        x
    } else {
        y
    };
    let bass_length = if longer >= z {
        longer
    } else {
        z
    };
    let l = pitch_class(low);
    let m = pitch_class(inner);
    let h = pitch_class(high);
    let top = frame.top as i64;
    let under: i64 = top - 12;
    let on_top = low as i64 == top || inner as i64 == top || high as i64 == top;
    let below = low as i64 == under || inner as i64 == under || high as i64 == under;
    let mut unisons: u8 = 0;
    if low == inner {
        unisons += 1;
    }
    if inner == high {
        unisons += 1;
    }
    ChordShape {
        low,
        inner,
        high,
        bass_length,
        has_root: l == root || m == root || h == root,
        has_fifth: l == fifth || m == fifth || h == fifth,
        lead_octave: on_top && below,
        inner_support: m == root || m == fifth,
        unisons,
    }
}

} // verus!
